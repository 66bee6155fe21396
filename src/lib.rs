//! Random password generation from a pool of unique characters.

pub mod pool;
pub mod sampler;

pub use pool::Pool;
pub use sampler::{generate_n_passwords, generate_password, password_from_draws, EmptyPoolError};
