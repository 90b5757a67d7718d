//! The HTTP side of the resolver: its routes and handlers are served by the application.

use vstd::prelude::*;

verus! {

/// The HTTP API of the resolver (a health check and statistics).
pub struct Api;

} // verus!
