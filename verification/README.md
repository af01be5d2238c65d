# rusticg

Reverses the possible internal seeds of a linear congruential generator from a system of
inequalities on the outputs of its calls. Java's `java.util.Random` is built in; other
generators can be described by an `LCG`.

The library in `src/` is verified with Verus:

- `util`: the generator (`LCG`, `Random`), its jump-ahead (`combine`), and small helpers.
- `math::component`: exact rationals and integers (arithmetic through malachite), vectors
  and matrices over them.
- `math::optimize`: Gauss-Jordan reduction and a simplex solver over exact rationals.
- `math::lattice`: lattice points (`span`), LLL reduction, matrix inversion, and the
  search tree that enumerates the lattice points inside a box.
- `reversal`: the lattice of the measured calls (`RandomReverser`), Java's calls as bounds,
  and the `DynamicProgram` front end.

Among the proved properties: jumping ahead agrees with stepping, and stepping back undoes
stepping forward; the states of every seed lie on the reverser's lattice, and every lattice
point gives a seed that runs through it; LLL and the scaled reduction keep their rows inside
the lattice; the simplex steps follow the stated pivoting rules and stop at an optimal
tableau.

`app/` holds what Verus does not take: the floating-point calls, the threads of the search,
the iterator of reversed seeds and the messages on standard error.
