//! The event log and the pass that turns it into tree-building calls.
use vstd::prelude::*;
use vstd::pervasive::VecAdditionalExecFns;
use crate::error::ParseError;
use crate::syntax_kind::SyntaxKind;
use crate::tree_sink::{SinkCall, TreeSink};

verus! {

/// One record of the log that a parser writes.
#[derive(Debug)]
pub enum Event {
    /// The start of a node. It is either abandoned (its kind is then the
    /// tombstone, and the record is ignored) or completed by a later
    /// `Finish`. Everything between the two becomes the node's children.
    ///
    /// For a left-recursive construct the parser meets a child before it
    /// knows of the parent. `forward_parent` then holds the distance from
    /// this record to the later `Start` that is its parent.
    Start { kind: SyntaxKind, forward_parent: Option<u32> },
    /// Completes the most recent `Start` that is still open.
    Finish,
    /// One leaf token, glued from `n_raw_tokens` raw lexical tokens (two `>`
    /// make one `>>`). The count is at least one.
    Token { kind: SyntaxKind, n_raw_tokens: u8 },
    /// A diagnostic, handed on as it is.
    Error { msg: ParseError },
}

/// A defect of the log that ends the pass. A log with one of these was not
/// written by a sound parser, and no tree is to be had from it.
#[derive(Clone, Copy, Debug, PartialEq, Eq, Structural)]
pub enum Fault {
    /// The forward-parent link that slot `at` carries has distance zero, so
    /// it does not point later in the log.
    NotForward { at: usize },
    /// The forward-parent link that slot `at` carries points past the end
    /// of the log.
    OutOfBounds { at: usize },
    /// A forward-parent link leads to slot `at`, which holds no `Start`.
    NotAStart { at: usize },
    /// The token in slot `at` claims to stand for no raw token at all.
    EmptyToken { at: usize },
    /// The calls of the log do not nest: one closes a node when none is
    /// open, or a node is never closed. Only a pass that was asked to check
    /// the nesting reports this.
    Unbalanced,
}

impl Event {
    /// The record of an abandoned node start, which is also what a slot
    /// holds once the pass has consumed it.
    pub open spec fn tombstone_spec() -> Event {
        Event::Start { kind: SyntaxKind::tombstone_spec(), forward_parent: None }
    }

    /// The record of an abandoned node start.
    #[verifier::when_used_as_spec(tombstone_spec)]
    pub fn tombstone() -> (event: Event)
        ensures
            event == Self::tombstone_spec(),
    {
        Event::Start { kind: SyntaxKind::tombstone(), forward_parent: None }
    }

    /// Whether this record starts a node that was not abandoned.
    pub open spec fn is_real_start(self) -> bool {
        match self {
            Event::Start { kind, .. } => !kind.is_tombstone_spec(),
            _ => false,
        }
    }
}

/// What following a chain of forward parents finds.
pub struct Walk {
    /// The kinds met along the chain, nearest first; tombstones are left out.
    pub kinds: Seq<SyntaxKind>,
    /// The log with every slot of the chain consumed.
    pub log: Seq<Event>,
    /// The defect that stopped the walk, if one did.
    pub fault: Option<Fault>,
}

/// Follows the forward-parent link `link` that the slot `from` carried.
///
/// The slot that the link leads to is consumed (a tombstone takes its
/// place), its kind is noted unless it is the tombstone, and the walk goes on
/// with the link that this slot carried in turn. It ends at a slot without a
/// link. A link of distance zero, a link past the end of the log and a link
/// to a slot that holds no `Start` are faults.
pub open spec fn follow(log: Seq<Event>, from: int, link: Option<u32>) -> Walk
    decreases log.len() - from,
{
    match link {
        None => Walk { kinds: Seq::empty(), log, fault: None },
        Some(d) => {
            let at = from + d;
            if from < 0 || d == 0 {
                Walk { kinds: Seq::empty(), log, fault: Some(Fault::NotForward { at: from as usize }) }
            } else if at >= log.len() {
                Walk { kinds: Seq::empty(), log, fault: Some(Fault::OutOfBounds { at: from as usize }) }
            } else {
                match log[at] {
                    Event::Start { kind, forward_parent } => {
                        let rest = follow(log.update(at, Event::tombstone_spec()), at, forward_parent);
                        Walk {
                            kinds: noted(kind) + rest.kinds,
                            log: rest.log,
                            fault: rest.fault,
                        }
                    },
                    _ => Walk { kinds: Seq::empty(), log, fault: Some(Fault::NotAStart { at: at as usize }) },
                }
            }
        },
    }
}

/// The kinds that a consumed `Start` of kind `kind` adds to a chain: itself,
/// or nothing where it is the tombstone.
pub open spec fn noted(kind: SyntaxKind) -> Seq<SyntaxKind> {
    if kind.is_tombstone_spec() {
        Seq::empty()
    } else {
        seq![kind]
    }
}

/// The calls that open the nodes of a chain whose kinds are `kinds`, nearest
/// first: the farthest is opened first, so that it contains the others.
pub open spec fn opens(kinds: Seq<SyntaxKind>) -> Seq<SinkCall> {
    Seq::new(kinds.len(), |j: int| SinkCall::Open(kinds[kinds.len() - 1 - j]))
}

/// What the pass does at one position of the log.
pub struct Step {
    /// The calls that the sink receives, in order.
    pub calls: Seq<SinkCall>,
    /// The log afterwards.
    pub log: Seq<Event>,
    /// The defect that ended the pass here, if one did.
    pub fault: Option<Fault>,
}

/// What the pass does at position `i` of `log`, for `0 <= i < log.len()`.
///
/// The slot is consumed. An abandoned `Start` gives nothing. Any other
/// `Start` has its chain of forward parents followed to the end, and then
/// every node of the chain is opened, the farthest first. `Finish` closes a
/// node, a token gives one leaf call with its count, and a diagnostic is
/// handed on. A position at which a fault is found gives no call at all.
pub open spec fn step(log: Seq<Event>, i: int) -> Step {
    let taken = log.update(i, Event::tombstone_spec());
    match log[i] {
        Event::Start { kind, forward_parent } => {
            if kind.is_tombstone_spec() {
                Step { calls: Seq::empty(), log: taken, fault: None }
            } else {
                let chain = follow(taken, i, forward_parent);
                if chain.fault is Some {
                    Step { calls: Seq::empty(), log: chain.log, fault: chain.fault }
                } else {
                    Step { calls: opens(seq![kind] + chain.kinds), log: chain.log, fault: None }
                }
            }
        },
        Event::Finish => Step { calls: seq![SinkCall::Close], log: taken, fault: None },
        Event::Token { kind, n_raw_tokens } => {
            if n_raw_tokens == 0 {
                Step { calls: Seq::empty(), log: taken, fault: Some(Fault::EmptyToken { at: i as usize }) }
            } else {
                Step { calls: seq![SinkCall::Leaf(kind, n_raw_tokens)], log: taken, fault: None }
            }
        },
        Event::Error { msg } => Step { calls: seq![SinkCall::Diagnostic(msg)], log: taken, fault: None },
    }
}

/// What a pass, or the rest of one, hands to the sink, and how it ends.
pub struct Outcome {
    /// The calls that the sink receives, in order.
    pub calls: Seq<SinkCall>,
    /// The defect that ended the pass, or `None` where it reached the end
    /// of the log.
    pub fault: Option<Fault>,
}

/// The pass over the positions `i..log.len()`: one `step` after the other,
/// each on the log that the one before it left, up to the first fault.
pub open spec fn run_from(log: Seq<Event>, i: int) -> Outcome
    decreases log.len() - i,
    via run_from_decreases
{
    if i < 0 || i >= log.len() {
        Outcome { calls: Seq::empty(), fault: None }
    } else {
        let here = step(log, i);
        if here.fault is Some {
            Outcome { calls: here.calls, fault: here.fault }
        } else {
            let rest = run_from(here.log, i + 1);
            Outcome { calls: here.calls + rest.calls, fault: rest.fault }
        }
    }
}

#[via_fn]
proof fn run_from_decreases(log: Seq<Event>, i: int) {
    if 0 <= i < log.len() {
        lemma_step_keeps_len(log, i);
    }
}

/// The whole pass over `log`.
pub open spec fn run(log: Seq<Event>) -> Outcome {
    run_from(log, 0)
}

/// A walk leaves the log as long as it was.
pub proof fn lemma_follow_keeps_len(log: Seq<Event>, from: int, link: Option<u32>)
    ensures
        follow(log, from, link).log.len() == log.len(),
    decreases log.len() - from,
{
    if let Some(d) = link {
        let at = from + d;
        if from >= 0 && d != 0 && at < log.len() {
            if let Event::Start { kind, forward_parent } = log[at] {
                lemma_follow_keeps_len(log.update(at, Event::tombstone_spec()), at, forward_parent);
            }
        }
    }
}

/// A step leaves the log as long as it was.
pub proof fn lemma_step_keeps_len(log: Seq<Event>, i: int)
    requires
        0 <= i < log.len(),
    ensures
        step(log, i).log.len() == log.len(),
{
    if let Event::Start { kind, forward_parent } = log[i] {
        lemma_follow_keeps_len(log.update(i, Event::tombstone_spec()), i, forward_parent);
    }
}

proof fn lemma_follow_reports_no_nesting(log: Seq<Event>, from: int, link: Option<u32>)
    ensures
        follow(log, from, link).fault != Some(Fault::Unbalanced),
    decreases log.len() - from,
{
    if let Some(d) = link {
        let at = from + d;
        if from >= 0 && d != 0 && at < log.len() {
            if let Event::Start { kind, forward_parent } = log[at] {
                lemma_follow_reports_no_nesting(log.update(at, Event::tombstone_spec()), at, forward_parent);
            }
        }
    }
}

/// The pass by itself never reports `Unbalanced`, from whatever position it
/// runs: it does not look at the nesting.
pub proof fn lemma_pass_reports_no_nesting(log: Seq<Event>, i: int)
    ensures
        run_from(log, i).fault != Some(Fault::Unbalanced),
    decreases log.len() - i,
{
    if 0 <= i < log.len() {
        let here = step(log, i);
        lemma_step_keeps_len(log, i);
        if let Event::Start { kind, forward_parent } = log[i] {
            lemma_follow_reports_no_nesting(log.update(i, Event::tombstone_spec()), i, forward_parent);
        }
        if here.fault is None {
            lemma_pass_reports_no_nesting(here.log, i + 1);
        }
    }
}

/// Consumes the chain of forward parents that starts with the link `link`
/// of slot `from`, and adds the kinds it meets to `kinds`, nearest first.
fn resolve_chain(events: &mut Vec<Event>, from: usize, link: Option<u32>, kinds: &mut Vec<SyntaxKind>) -> (res: Result<(), Fault>)
    requires
        from < old(events)@.len(),
    ensures
        final(events)@.len() == old(events)@.len(),
        match res {
            Ok(()) => follow(old(events)@, from as int, link).fault is None
                && final(events)@ == follow(old(events)@, from as int, link).log
                && final(kinds)@ == old(kinds)@ + follow(old(events)@, from as int, link).kinds,
            Err(fault) => follow(old(events)@, from as int, link).fault == Some(fault),
        },
{
    let ghost whole = follow(events@, from as int, link);
    let ghost before = kinds@;
    let mut idx: usize = from;
    let mut fp: Option<u32> = link;
    while fp.is_some()
        invariant
            idx < events@.len(),
            events@.len() == old(events)@.len(),
            whole == follow(old(events)@, from as int, link),
            before == old(kinds)@,
            follow(events@, idx as int, fp).log == whole.log,
            follow(events@, idx as int, fp).fault == whole.fault,
            kinds@ + follow(events@, idx as int, fp).kinds == before + whole.kinds,
        decreases events@.len() - idx,
    {
        let d: u32 = fp.unwrap();
        if d == 0 {
            return Err(Fault::NotForward { at: idx });
        }
        let len: usize = events.len();
        if d as usize >= len - idx {
            return Err(Fault::OutOfBounds { at: idx });
        }
        let at: usize = idx + d as usize;
        let ghost noted_before = kinds@;
        let mut slot = Event::tombstone();
        events.set_and_swap(at, &mut slot);
        match slot {
            Event::Start { kind, forward_parent } => {
                if !kind.is_tombstone() {
                    kinds.push(kind);
                }
                proof {
                    let rest = follow(events@, at as int, forward_parent);
                    assert(kinds@ =~= noted_before + noted(kind));
                    assert(kinds@ + rest.kinds =~= noted_before + (noted(kind) + rest.kinds));
                }
                idx = at;
                fp = forward_parent;
            },
            _ => {
                return Err(Fault::NotAStart { at });
            },
        }
    }
    proof {
        assert(kinds@ + Seq::<SyntaxKind>::empty() =~= kinds@);
    }
    Ok(())
}

/// Runs the one pass over `events` and hands `sink` the calls that build the
/// tree.
///
/// The sink receives, after what it had received before, exactly the calls of
/// `run(events@)`, in that order. The pass succeeds where it reaches the end
/// of the log; it stops at the first fault and returns it, having handed on
/// the calls of the positions before it and none of the faulty position. The
/// log is used up either way. The nesting of the calls is not looked at, so
/// the fault is never `Unbalanced`.
pub fn process<S: TreeSink>(sink: &mut S, events: Vec<Event>) -> (res: Result<(), Fault>)
    ensures
        final(sink).calls() == old(sink).calls() + run(events@).calls,
        match res {
            Ok(()) => run(events@).fault is None,
            Err(fault) => run(events@).fault == Some(fault) && fault != Fault::Unbalanced,
        },
{
    proof {
        lemma_pass_reports_no_nesting(events@, 0);
    }
    let ghost whole = run(events@);
    let ghost given = events@;
    let mut slots = events;
    let ghost before = sink.calls();
    let mut forward_parents: Vec<SyntaxKind> = Vec::new();
    let n: usize = slots.len();
    let mut i: usize = 0;
    proof {
        assert(before + whole.calls =~= sink.calls() + run_from(slots@, 0).calls);
    }
    while i < n
        invariant
            i <= n,
            n == slots@.len(),
            forward_parents@.len() == 0,
            before == old(sink).calls(),
            whole == run(given),
            whole.fault != Some(Fault::Unbalanced),
            given == events@,
            before + whole.calls == sink.calls() + run_from(slots@, i as int).calls,
            whole.fault == run_from(slots@, i as int).fault,
        decreases n - i,
    {
        let ghost log = slots@;
        let ghost sent = sink.calls();
        let ghost here = step(log, i as int);
        proof {
            lemma_step_keeps_len(log, i as int);
        }
        let mut slot = Event::tombstone();
        slots.set_and_swap(i, &mut slot);
        match slot {
            Event::Start { kind, forward_parent } => {
                if !kind.is_tombstone() {
                    forward_parents.push(kind);
                    match resolve_chain(&mut slots, i, forward_parent, &mut forward_parents) {
                        Ok(()) => {},
                        Err(fault) => {
                            proof {
                                assert(sent + here.calls =~= sent);
                            }
                            return Err(fault);
                        },
                    }
                    let ghost kinds = forward_parents@;
                    proof {
                        assert(kinds =~= seq![kind] + follow(log.update(i as int, Event::tombstone_spec()), i as int, forward_parent).kinds);
                    }
                    while forward_parents.len() > 0
                        invariant
                            forward_parents@.len() <= kinds.len(),
                            forward_parents@ == kinds.subrange(0, forward_parents@.len() as int),
                            sink.calls() == sent + opens(kinds).subrange(0, kinds.len() - forward_parents@.len()),
                        decreases forward_parents@.len(),
                    {
                        let ghost left = forward_parents@.len();
                        let outer = forward_parents.pop().unwrap();
                        sink.start_node(outer);
                        proof {
                            assert(forward_parents@ =~= kinds.subrange(0, left - 1));
                            assert(SinkCall::Open(outer) == opens(kinds)[kinds.len() - left]);
                            assert(sink.calls() =~= sent + opens(kinds).subrange(0, kinds.len() - left + 1));
                        }
                    }
                    proof {
                        assert(opens(kinds).subrange(0, kinds.len() as int) =~= opens(kinds));
                    }
                }
            },
            Event::Finish => {
                sink.finish_node();
            },
            Event::Token { kind, n_raw_tokens } => {
                if n_raw_tokens == 0 {
                    proof {
                        assert(sent + here.calls =~= sent);
                    }
                    return Err(Fault::EmptyToken { at: i });
                }
                sink.token(kind, n_raw_tokens);
            },
            Event::Error { msg } => {
                sink.error(msg);
            },
        }
        proof {
            assert(slots@ == here.log);
            assert(sink.calls() =~= sent + here.calls);
            let rest = run_from(here.log, i + 1);
            assert(sent + (here.calls + rest.calls) =~= (sent + here.calls) + rest.calls);
        }
        i = i + 1;
    }
    proof {
        assert(sink.calls() + Seq::<SinkCall>::empty() =~= sink.calls());
    }
    Ok(())
}

} // verus!
