use vstd::prelude::*;

verus! {

/// A client's request to relay a message to the room. The destination list
/// is carried on the wire but unused by the single-room broker.
pub struct Send {
    pub destinations: Vec<String>,
    pub message: String,
}

/// A client's identity assertion, sent once after connecting.
pub struct Identify {
    pub display_name: String,
}

/// An outbound message envelope handed to a client.
pub struct Message {
    pub payload: String,
}

} // verus!
