//! Learning whether the models are loaded.
use std::sync::mpsc::{Receiver, TryRecvError};

use vstd::prelude::*;

verus! {

#[verifier::external_type_specification]
#[verifier::external_body]
#[verifier::reject_recursive_types(T)]
pub struct ExReceiver<T>(Receiver<T>);

/// What a look into a channel found.
pub enum Received {
    /// The models are loaded, or this is why they are not.
    Told(Result<(), String>),
    /// Nothing yet.
    Empty,
    /// Nothing, and nothing will come.
    Disconnected,
}

/// `Receiver::try_recv` looks into a channel without waiting. What it finds depends on the
/// thread at the other end, so nothing is claimed of it.
#[verifier::external_body]
fn try_recv(rx: &Receiver<Result<(), String>>) -> (r: Received) {
    match rx.try_recv() {
        Ok(told) => Received::Told(told),
        Err(TryRecvError::Empty) => Received::Empty,
        Err(TryRecvError::Disconnected) => Received::Disconnected,
    }
}

/// What is answered for `got`: whether the models are loaded, or why they cannot be.
pub open spec fn readiness(got: Received) -> Result<bool, Seq<char>> {
    match got {
        Received::Told(Ok(_)) => Ok(true),
        Received::Told(Err(message)) => Err(message@),
        Received::Empty => Ok(false),
        Received::Disconnected => Err("ready hook internal error"@),
    }
}

/// The models count as loaded exactly where it was told that they are, as not loaded yet
/// exactly where nothing was told, and a failure that was told is answered in its own words.
pub proof fn lemma_readiness(got: Received)
    ensures
        readiness(got) == Ok::<bool, Seq<char>>(true) <==> got matches Received::Told(Ok(_)),
        readiness(got) == Ok::<bool, Seq<char>>(false) <==> got is Empty,
        readiness(got) is Err <==> got is Disconnected || got matches Received::Told(Err(_)),
        got matches Received::Told(Err(message)) ==> readiness(got) == Err::<bool, Seq<char>>(
            message@,
        ),
        got is Disconnected ==> readiness(got) == Err::<bool, Seq<char>>(
            "ready hook internal error"@,
        ),
{
}

/// The model of an answer.
pub open spec fn answer(r: Result<bool, String>) -> Result<bool, Seq<char>> {
    match r {
        Ok(ready) => Ok(ready),
        Err(message) => Err(message@),
    }
}

/// Answers for what a look into the channel found.
pub fn interpret(got: Received) -> (r: Result<bool, String>)
    ensures
        answer(r) == readiness(got),
{
    match got {
        Received::Told(Ok(_)) => Ok(true),
        Received::Told(Err(message)) => Err(message),
        Received::Empty => Ok(false),
        Received::Disconnected => Err("ready hook internal error".to_owned()),
    }
}

/// Where the thread that loads the models says how it went.
pub struct ReadyHook {
    rx: Receiver<Result<(), String>>,
}

impl ReadyHook {
    /// The receiving end of the channel that it looks into.
    pub closed spec fn channel(self) -> Receiver<Result<(), String>> {
        self.rx
    }

    /// Whether a look into the channel may find `got`.
    pub closed spec fn may_find(self, got: Received) -> bool {
        call_ensures(try_recv, (&self.rx,), got)
    }

    /// A hook for the receiving end of a channel.
    pub fn new(rx: Receiver<Result<(), String>>) -> (r: ReadyHook)
        ensures
            r.channel() == rx,
    {
        ReadyHook { rx }
    }

    /// Whether the models are loaded by now, without waiting: the answer to what a look into
    /// the channel found.
    pub fn poll(&self) -> (r: Result<bool, String>)
        ensures
            exists|got: Received| #[trigger] self.may_find(got) && answer(r) == readiness(got),
    {
        let got = try_recv(&self.rx);
        let ghost found = got;
        let r = interpret(got);
        assert(self.may_find(found) && answer(r) == readiness(found));
        r
    }
}

} // verus!
