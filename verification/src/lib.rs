//! Verified core of a small MPC toolkit: converting Bristol-format circuits
//! (Boolean, or with 32-bit word addition) into a replayable gate list and
//! evaluating it, encoding integers as circuit values, and the bookkeeping of
//! the garbling session and its message transport.

pub mod value;
pub mod bristol;
pub mod error;
pub mod circuit;
pub mod mpz_circuit_from_bristol;
pub mod js_conn;
pub mod js_fn_executor;
pub mod session;
pub mod setup_garble;
