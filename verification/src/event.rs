//! One delivered event: its payload bytes and the id a durable consumer
//! acknowledges it by.

use vstd::prelude::*;

verus! {

/// An event as a read returns it. The id is `"{post-read byte
/// offset}-{segment id}"`; acknowledging it commits the cursor there.
#[derive(Debug)]
pub struct Event {
    pub eid: String,
    pub content: Vec<u8>,
}

} // verus!
