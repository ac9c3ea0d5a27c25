use vstd::prelude::*;

verus! {

/// A request to register a client whose delivery handle is `client_addr`.
pub struct Connect<H> {
    pub client_addr: H,
}

/// A request to forget the session of `client_id`.
pub struct Disconnect {
    pub client_id: usize,
}

/// A chat message: the identifier of its sender and its text, handed on
/// unchanged to every other registered client.
pub struct ChatMessage {
    pub client_id: usize,
    pub message: String,
}

} // verus!
