//! A sink that keeps what it receives.
use vstd::prelude::*;
use crate::error::ParseError;
use crate::event::{process, run, Event, Fault};
use crate::syntax_kind::SyntaxKind;
use crate::tree_sink::{SinkCall, TreeSink};

verus! {

/// A sink that builds nothing and keeps every call it receives, in order.
#[derive(Debug)]
pub struct Recorder {
    /// The calls received so far, oldest first.
    pub received: Vec<SinkCall>,
}

impl Recorder {
    /// A recorder that has received nothing.
    pub fn new() -> (recorder: Recorder)
        ensures
            recorder.calls() == Seq::<SinkCall>::empty(),
    {
        Recorder { received: Vec::new() }
    }

    /// Gives up the recorder for the calls it has received.
    pub fn into_calls(self) -> (calls: Vec<SinkCall>)
        ensures
            calls@ == self.calls(),
    {
        self.received
    }
}

impl TreeSink for Recorder {
    open spec fn calls(&self) -> Seq<SinkCall> {
        self.received@
    }

    fn start_node(&mut self, kind: SyntaxKind) {
        self.received.push(SinkCall::Open(kind));
    }

    fn finish_node(&mut self) {
        self.received.push(SinkCall::Close);
    }

    fn token(&mut self, kind: SyntaxKind, n_raw_tokens: u8) {
        self.received.push(SinkCall::Leaf(kind, n_raw_tokens));
    }

    fn error(&mut self, msg: ParseError) {
        self.received.push(SinkCall::Diagnostic(msg));
    }
}

/// Runs the pass over `events` on a fresh recorder and returns what the sink
/// was handed, together with how the pass ended.
pub fn record(events: Vec<Event>) -> (res: (Vec<SinkCall>, Option<Fault>))
    ensures
        res.0@ == run(events@).calls,
        res.1 == run(events@).fault,
{
    let mut recorder = Recorder::new();
    let ghost log = events@;
    let end = process(&mut recorder, events);
    proof {
        assert(Seq::<SinkCall>::empty() + run(log).calls =~= run(log).calls);
    }
    match end {
        Ok(()) => (recorder.into_calls(), None),
        Err(fault) => (recorder.into_calls(), Some(fault)),
    }
}

} // verus!
