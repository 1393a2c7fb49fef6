//! A verified core for the Shopify Function Wasm API: NaN-boxed values,
//! navigation over FBF (Functions Binary Format) input payloads, and the
//! FBF output writer with its state machine, string interner and log ring.
pub mod api;
pub mod api_read;
pub mod api_write;
pub mod encoding;
pub mod interner;
pub mod log;
pub mod nanbox;
pub mod nav;
pub mod output;
pub mod provider;
pub mod roundtrip;
pub mod write_state;

use vstd::prelude::*;

verus! {

} // verus!
