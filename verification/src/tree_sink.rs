//! The consumer that a pass over the event log drives.
use vstd::prelude::*;
use vstd::pervasive::VecAdditionalExecFns;
use crate::error::ParseError;
use crate::syntax_kind::SyntaxKind;

verus! {

/// One call that a sink has received.
#[derive(Clone, Debug, PartialEq, Eq)]
pub enum SinkCall {
    /// A node of this kind was opened.
    Open(SyntaxKind),
    /// The most recently opened node that was still open was closed.
    Close,
    /// A leaf token of this kind, folded from this many raw lexical tokens.
    Leaf(SyntaxKind, u8),
    /// A diagnostic was reported.
    Diagnostic(ParseError),
}

/// A consumer of tree-building calls.
///
/// An implementation materialises nodes, tokens and diagnostics in whatever
/// form it likes. What it owes its callers is stated over `calls`, the
/// history of what it has received: each operation appends exactly one entry
/// and leaves the earlier ones as they were. Every operation must accept any
/// nesting depth and any order of calls.
pub trait TreeSink {
    /// Everything this sink has received so far, oldest first.
    ///
    /// A verified sink says here how its state holds that history. The
    /// default is for a sink that is written without proofs and keeps no
    /// history to speak of.
    open spec fn calls(&self) -> Seq<SinkCall> {
        Seq::empty()
    }

    /// Open a node of the given kind inside the innermost open node.
    fn start_node(&mut self, kind: SyntaxKind)
        ensures
            final(self).calls() == old(self).calls().push(SinkCall::Open(kind)),
    ;

    /// Close the most recently opened node that is still open.
    fn finish_node(&mut self)
        ensures
            final(self).calls() == old(self).calls().push(SinkCall::Close),
    ;

    /// Add one leaf token that stands for `n_raw_tokens` raw lexical tokens.
    fn token(&mut self, kind: SyntaxKind, n_raw_tokens: u8)
        ensures
            final(self).calls() == old(self).calls().push(SinkCall::Leaf(kind, n_raw_tokens)),
    ;

    /// Report a diagnostic.
    fn error(&mut self, msg: ParseError)
        ensures
            final(self).calls() == old(self).calls().push(SinkCall::Diagnostic(msg)),
    ;
}

/// How many nodes are open after one more call, `call`, where `depth` were
/// open before it; `None` where a node is closed when none is open, and
/// from then on.
pub open spec fn bump(depth: Option<nat>, call: SinkCall) -> Option<nat> {
    match depth {
        None => None,
        Some(open) => match call {
            SinkCall::Open(_) => Some(open + 1),
            SinkCall::Close => if open == 0 {
                None
            } else {
                Some((open - 1) as nat)
            },
            _ => Some(open),
        },
    }
}

/// How many nodes are open after `calls`, where `depth` were open before
/// them.
pub open spec fn nesting_after(depth: Option<nat>, calls: Seq<SinkCall>) -> Option<nat>
    decreases calls.len(),
{
    if calls.len() == 0 {
        depth
    } else {
        bump(nesting_after(depth, calls.drop_last()), calls.last())
    }
}

/// How many nodes are open after `calls`, or `None` where one of them closes
/// a node when none is open.
pub open spec fn nesting(calls: Seq<SinkCall>) -> Option<nat> {
    nesting_after(Some(0nat), calls)
}

/// The nesting after a single call.
pub proof fn lemma_nesting_of_one(depth: Option<nat>, call: SinkCall)
    ensures
        nesting_after(depth, seq![call]) == bump(depth, call),
{
    reveal_with_fuel(nesting_after, 2);
    assert(seq![call].drop_last().len() == 0);
}

/// Calls that start from a broken nesting leave it broken.
pub proof fn lemma_broken_nesting_stays(calls: Seq<SinkCall>)
    ensures
        nesting_after(None, calls) is None,
    decreases calls.len(),
{
    if calls.len() > 0 {
        lemma_broken_nesting_stays(calls.drop_last());
    }
}

/// The nesting after two runs of calls is that of the second, taken from
/// where the first left off.
pub proof fn lemma_nesting_of_both(depth: Option<nat>, a: Seq<SinkCall>, b: Seq<SinkCall>)
    ensures
        nesting_after(depth, a + b) == nesting_after(nesting_after(depth, a), b),
    decreases b.len(),
{
    if b.len() == 0 {
        assert(a + b =~= a);
    } else {
        assert((a + b).drop_last() =~= a + b.drop_last());
        lemma_nesting_of_both(depth, a, b.drop_last());
    }
}

/// Whether `calls` nest properly: no call closes a node when none is open,
/// and every node that is opened is closed.
pub open spec fn balanced(calls: Seq<SinkCall>) -> bool {
    nesting(calls) == Some(0nat)
}

/// Tells whether `calls` nest properly.
pub fn is_balanced(calls: &Vec<SinkCall>) -> (yes: bool)
    ensures
        yes == balanced(calls@),
{
    let n: usize = calls.len();
    let mut depth: usize = 0;
    let mut i: usize = 0;
    while i < n
        invariant
            i <= n,
            n == calls@.len(),
            depth <= i,
            nesting(calls@.subrange(0, i as int)) == Some(depth as nat),
        decreases n - i,
    {
        proof {
            assert(calls@.subrange(0, i + 1).drop_last() =~= calls@.subrange(0, i as int));
        }
        match &calls[i] {
            SinkCall::Open(_) => {
                depth = depth + 1;
            },
            SinkCall::Close => {
                if depth == 0 {
                    proof {
                        lemma_nesting_stays_broken(calls@, i + 1);
                    }
                    return false;
                }
                depth = depth - 1;
            },
            _ => {},
        }
        i = i + 1;
    }
    proof {
        assert(calls@.subrange(0, n as int) =~= calls@);
    }
    depth == 0
}

/// Once a call has closed a node that was not open, no later call mends it.
pub proof fn lemma_nesting_stays_broken(calls: Seq<SinkCall>, n: int)
    requires
        0 <= n <= calls.len(),
        nesting(calls.subrange(0, n)) is None,
    ensures
        nesting(calls) is None,
    decreases calls.len() - n,
{
    if n < calls.len() {
        assert(calls.subrange(0, n + 1).drop_last() =~= calls.subrange(0, n));
        lemma_nesting_stays_broken(calls, n + 1);
    } else {
        assert(calls.subrange(0, n) =~= calls);
    }
}

/// Hands `calls` to `sink`, one after the other.
pub fn replay<S: TreeSink>(sink: &mut S, calls: Vec<SinkCall>)
    ensures
        final(sink).calls() == old(sink).calls() + calls@,
{
    let ghost all = calls@;
    let mut rest = calls;
    let n: usize = rest.len();
    let mut i: usize = 0;
    proof {
        assert(sink.calls() =~= sink.calls() + all.subrange(0, 0));
    }
    while i < n
        invariant
            i <= n,
            n == rest@.len(),
            n == all.len(),
            all == calls@,
            forall|j: int| i <= j < n ==> rest@[j] == all[j],
            sink.calls() == old(sink).calls() + all.subrange(0, i as int),
        decreases n - i,
    {
        let mut call = SinkCall::Close;
        rest.set_and_swap(i, &mut call);
        match call {
            SinkCall::Open(kind) => sink.start_node(kind),
            SinkCall::Close => sink.finish_node(),
            SinkCall::Leaf(kind, n_raw_tokens) => sink.token(kind, n_raw_tokens),
            SinkCall::Diagnostic(msg) => sink.error(msg),
        }
        proof {
            assert(sink.calls() =~= old(sink).calls() + all.subrange(0, i + 1));
        }
        i = i + 1;
    }
    proof {
        assert(all.subrange(0, n as int) =~= all);
    }
}

} // verus!
