//! Coordination of "Secret Santa" gift-exchange groups.
//!
//! People create and join named groups; an administrator locks a group, which
//! assigns every member exactly one recipient by a fixed cyclic rotation; the
//! members then query whom they gift. The whole state lives in a single
//! [`store::Store`], mutated only through its operations, each of which either
//! completes fully or leaves the state untouched.

pub mod laws;
pub mod model;
pub mod store;
pub mod transitions;
