use vstd::prelude::*;

verus! {

/// A signalling message exchanged between two peers.
#[derive(Clone, Debug, PartialEq, Eq)]
pub enum PeerSignal {
    IceCandidate(String),
    Offer(String),
    Answer(String),
}

} // verus!
