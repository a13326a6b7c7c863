//! Request handling logic of a small HTTP account server: routing, request
//! parsing, credential rules, the session store, and the account database
//! records.
use vstd::prelude::*;

pub mod text;
pub mod codec;
pub mod credentials;
pub mod session;
pub mod db;
pub mod http;

verus! {

} // verus!
