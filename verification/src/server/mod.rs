//! The decisions of the resolver and of the dispatcher. What they decide is
//! carried out by the program around the library, which owns the sockets.

pub mod lookup;
pub mod server;

pub use lookup::{build_query, decide, Referral, Resolver, Step};
pub use server::{
    build_response, first_question, fit, format_error_response, refuse, respond, wire,
};
