pub mod java_random; pub mod java_random_reverser;
