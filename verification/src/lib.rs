pub mod arith;
pub mod ckks;
pub mod crt;
pub mod euler;
pub mod fermat;
pub mod math;
pub mod negacyclic;
pub mod ntt_eval;
pub mod primes;
pub mod ring;
pub mod rng;
pub mod rns;
pub mod sampling;
