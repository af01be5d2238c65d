pub mod dynamic_program; pub mod java; pub mod random_reverser;
