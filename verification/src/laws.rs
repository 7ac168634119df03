//! What holds of every pass over an event log.
use vstd::prelude::*;
use crate::event::{follow, noted, opens, run, run_from, step, Event, Fault, Outcome};
use crate::event::{lemma_follow_keeps_len, lemma_step_keeps_len};
use crate::syntax_kind::SyntaxKind;
use crate::checked::verdict;
use crate::tree_sink::{balanced, SinkCall};

verus! {

/// The calls that one record gives when no forward parent is in play: one
/// call for each record but an abandoned `Start`, which gives none.
pub open spec fn call_of(event: Event) -> Seq<SinkCall> {
    match event {
        Event::Start { kind, .. } => if kind.is_tombstone_spec() {
            Seq::empty()
        } else {
            seq![SinkCall::Open(kind)]
        },
        Event::Finish => seq![SinkCall::Close],
        Event::Token { kind, n_raw_tokens } => seq![SinkCall::Leaf(kind, n_raw_tokens)],
        Event::Error { msg } => seq![SinkCall::Diagnostic(msg)],
    }
}

/// The calls of the records from position `i` on, each taken by itself, in
/// the order of the log.
pub open spec fn mirror_from(log: Seq<Event>, i: int) -> Seq<SinkCall>
    decreases log.len() - i,
{
    if i < 0 || i >= log.len() {
        Seq::empty()
    } else {
        call_of(log[i]) + mirror_from(log, i + 1)
    }
}

/// Whether the records from position `i` on carry no forward-parent link and
/// no token without a raw token.
pub open spec fn plain_from(log: Seq<Event>, i: int) -> bool {
    forall|j: int| i <= j < log.len() ==> match #[trigger] log[j] {
        Event::Start { forward_parent, .. } => forward_parent is None,
        Event::Token { n_raw_tokens, .. } => n_raw_tokens >= 1,
        _ => true,
    }
}

proof fn lemma_mirror_ignores_earlier(log: Seq<Event>, at: int, event: Event, i: int)
    requires
        0 <= at < i,
        at < log.len(),
    ensures
        mirror_from(log.update(at, event), i) == mirror_from(log, i),
    decreases log.len() - i,
{
    if i < log.len() {
        lemma_mirror_ignores_earlier(log, at, event, i + 1);
    }
}

/// Without forward parents the rest of a pass mirrors the rest of the log.
pub proof fn lemma_plain_rest_mirrors(log: Seq<Event>, i: int)
    requires
        0 <= i,
        plain_from(log, i),
    ensures
        run_from(log, i).fault is None,
        run_from(log, i).calls == mirror_from(log, i),
    decreases log.len() - i,
{
    if i < log.len() {
        let here = step(log, i);
        let taken = log.update(i, Event::tombstone_spec());
        match log[i] {
            Event::Start { kind, forward_parent } => {
                if !kind.is_tombstone_spec() {
                    assert(seq![kind] + Seq::<SyntaxKind>::empty() =~= seq![kind]);
                    assert(opens(seq![kind]) =~= seq![SinkCall::Open(kind)]);
                }
            },
            _ => {},
        }
        assert(here.log == taken);
        assert(here.calls == call_of(log[i]));
        assert(plain_from(taken, i + 1)) by {
            assert forall|j: int| i + 1 <= j < taken.len() implies match #[trigger] taken[j] {
                Event::Start { forward_parent, .. } => forward_parent is None,
                Event::Token { n_raw_tokens, .. } => n_raw_tokens >= 1,
                _ => true,
            } by {
                assert(taken[j] == log[j]);
            }
        }
        lemma_plain_rest_mirrors(taken, i + 1);
        lemma_mirror_ignores_earlier(log, i, Event::tombstone_spec(), i + 1);
    }
}

/// A log without forward-parent links is mirrored by the pass: every record
/// gives its own call at its own place, in the order of the log, an
/// abandoned `Start` gives none, and the pass reaches the end.
pub proof fn lemma_plain_log_is_mirrored(log: Seq<Event>)
    requires
        plain_from(log, 0),
    ensures
        run(log).fault is None,
        run(log).calls == mirror_from(log, 0),
{
    lemma_plain_rest_mirrors(log, 0);
}

/// A log without forward-parent links whose records nest properly is sound:
/// the pass that checks the nesting accepts it.
pub proof fn lemma_plain_balanced_log_is_accepted(log: Seq<Event>)
    requires
        plain_from(log, 0),
        balanced(mirror_from(log, 0)),
    ensures
        verdict(run(log)) is Ok,
{
    lemma_plain_log_is_mirrored(log);
}

/// The pass over the empty log hands the sink nothing and succeeds.
pub proof fn lemma_empty_log_gives_nothing()
    ensures
        run(Seq::<Event>::empty()) == (Outcome { calls: Seq::empty(), fault: None }),
{
}

/// An abandoned `Start` is passed over: the sink receives nothing, the pass
/// goes on, and no other slot of the log is touched. One that carries no
/// link leaves the whole log as it was.
pub proof fn lemma_abandoned_start_is_skipped(log: Seq<Event>, i: int)
    requires
        0 <= i < log.len(),
        log[i] is Start,
        !log[i].is_real_start(),
    ensures
        step(log, i).calls == Seq::<SinkCall>::empty(),
        step(log, i).fault is None,
        step(log, i).log == log.update(i, Event::tombstone_spec()),
        log[i] == Event::tombstone_spec() ==> step(log, i).log == log,
        run_from(log, i) == run_from(log.update(i, Event::tombstone_spec()), i + 1),
{
    let taken = log.update(i, Event::tombstone_spec());
    let rest = run_from(taken, i + 1);
    assert(Seq::<SinkCall>::empty() + rest.calls =~= rest.calls);
    if log[i] == Event::tombstone_spec() {
        assert(taken =~= log);
    }
}

/// A token gives exactly one leaf call, which carries its kind and its count
/// of raw tokens, however many raw tokens it stands for.
pub proof fn lemma_token_gives_one_leaf(log: Seq<Event>, i: int, kind: SyntaxKind, n_raw_tokens: u8)
    requires
        0 <= i < log.len(),
        log[i] == (Event::Token { kind, n_raw_tokens }),
        n_raw_tokens >= 1,
    ensures
        step(log, i).calls == seq![SinkCall::Leaf(kind, n_raw_tokens)],
        step(log, i).fault is None,
{
}

/// The kind that a `Start` or a token carries.
pub open spec fn kind_of(event: Event) -> SyntaxKind {
    match event {
        Event::Start { kind, .. } => kind,
        Event::Token { kind, .. } => kind,
        _ => SyntaxKind::tombstone_spec(),
    }
}

/// The forward-parent link that a record carries.
pub open spec fn link_of(event: Event) -> Option<u32> {
    match event {
        Event::Start { forward_parent, .. } => forward_parent,
        _ => None,
    }
}

/// Whether `slots` are the positions of a chain of forward parents in
/// `log`: each holds a `Start` that was not abandoned, each but the last
/// names the next as its parent, and the last names none.
pub open spec fn is_chain(log: Seq<Event>, slots: Seq<int>) -> bool {
    &&& slots.len() >= 1
    &&& forall|j: int| 0 <= j < slots.len() ==> 0 <= #[trigger] slots[j] < log.len()
    &&& forall|j: int| 0 <= j < slots.len() ==> (#[trigger] log[slots[j]]).is_real_start()
    &&& forall|j: int| 0 <= j < slots.len() - 1 ==> match link_of(log[#[trigger] slots[j]]) {
            Some(d) => d > 0 && slots[j] + d == slots[j + 1],
            None => false,
        }
    &&& link_of(log[slots[slots.len() - 1]]) is None
}

proof fn lemma_follow_chain(now: Seq<Event>, log: Seq<Event>, slots: Seq<int>, m: int)
    requires
        is_chain(log, slots),
        0 <= m < slots.len(),
        now.len() == log.len(),
        forall|s: int| slots[m] < s < log.len() ==> now[s] == log[s],
    ensures
        follow(now, slots[m], link_of(log[slots[m]])).fault is None,
        follow(now, slots[m], link_of(log[slots[m]])).kinds == Seq::new(
            (slots.len() - 1 - m) as nat,
            |j: int| kind_of(log[slots[m + 1 + j]]),
        ),
    decreases slots.len() - m,
{
    let walk = follow(now, slots[m], link_of(log[slots[m]]));
    let want = Seq::new((slots.len() - 1 - m) as nat, |j: int| kind_of(log[slots[m + 1 + j]]));
    if m == slots.len() - 1 {
        assert(walk.kinds =~= want);
    } else {
        let at = slots[m + 1];
        assert(log[slots[m]].is_real_start());
        assert(log[at].is_real_start());
        assert(now[at] == log[at]);
        let next = now.update(at, Event::tombstone_spec());
        lemma_follow_chain(next, log, slots, m + 1);
        let rest = follow(next, at, link_of(log[at]));
        assert(walk.kinds == noted(kind_of(log[at])) + rest.kinds);
        assert(walk.kinds =~= want);
    }
}

/// At the first position of a chain of forward parents the sink receives one
/// opening for each node of the chain and nothing else: the farthest parent
/// first, then each nearer one, and the node of that position itself last.
pub proof fn lemma_chain_opens_outermost_first(log: Seq<Event>, slots: Seq<int>)
    requires
        is_chain(log, slots),
    ensures
        step(log, slots[0]).fault is None,
        step(log, slots[0]).calls == Seq::new(
            slots.len(),
            |j: int| SinkCall::Open(kind_of(log[slots[slots.len() - 1 - j]])),
        ),
        step(log, slots[0]).calls.first() == SinkCall::Open(kind_of(log[slots.last()])),
        step(log, slots[0]).calls.last() == SinkCall::Open(kind_of(log[slots[0]])),
{
    let i = slots[0];
    assert(log[i].is_real_start());
    let taken = log.update(i, Event::tombstone_spec());
    lemma_follow_chain(taken, log, slots, 0);
    let walk = follow(taken, i, link_of(log[i]));
    let kinds = seq![kind_of(log[i])] + walk.kinds;
    let want = Seq::new(slots.len(), |j: int| SinkCall::Open(kind_of(log[slots[slots.len() - 1 - j]])));
    assert(kinds =~= Seq::new(slots.len(), |j: int| kind_of(log[slots[j]])));
    assert(opens(kinds) =~= want);
}

/// How many slots from position `i` on hold a `Start` that was not
/// abandoned.
pub open spec fn real_starts_from(log: Seq<Event>, i: int) -> nat
    decreases log.len() - i,
{
    if i < 0 || i >= log.len() {
        0
    } else {
        (if log[i].is_real_start() { 1nat } else { 0nat }) + real_starts_from(log, i + 1)
    }
}

/// How many of `calls` open a node.
pub open spec fn open_calls(calls: Seq<SinkCall>) -> nat
    decreases calls.len(),
{
    if calls.len() == 0 {
        0
    } else {
        (if calls.first() is Open { 1nat } else { 0nat }) + open_calls(calls.drop_first())
    }
}

proof fn lemma_open_calls_of_both(a: Seq<SinkCall>, b: Seq<SinkCall>)
    ensures
        open_calls(a + b) == open_calls(a) + open_calls(b),
    decreases a.len(),
{
    if a.len() == 0 {
        assert(a + b =~= b);
    } else {
        assert((a + b).drop_first() =~= a.drop_first() + b);
        lemma_open_calls_of_both(a.drop_first(), b);
    }
}

proof fn lemma_open_calls_of_opens(kinds: Seq<SyntaxKind>)
    ensures
        open_calls(opens(kinds)) == kinds.len(),
    decreases kinds.len(),
{
    if kinds.len() > 0 {
        assert(opens(kinds).drop_first() =~= opens(kinds.drop_last()));
        lemma_open_calls_of_opens(kinds.drop_last());
    }
}

proof fn lemma_consumed_slot_counts_once(log: Seq<Event>, at: int, i: int)
    requires
        0 <= i,
        0 <= at < log.len(),
    ensures
        real_starts_from(log.update(at, Event::tombstone_spec()), i) + (if i <= at
            && log[at].is_real_start() {
            1nat
        } else {
            0nat
        }) == real_starts_from(log, i),
    decreases log.len() - i,
{
    if i < log.len() {
        lemma_consumed_slot_counts_once(log, at, i + 1);
    }
}

proof fn lemma_follow_counts(log: Seq<Event>, from: int, link: Option<u32>, i: int)
    requires
        0 <= i <= from + 1,
        follow(log, from, link).fault is None,
    ensures
        follow(log, from, link).kinds.len() + real_starts_from(follow(log, from, link).log, i)
            == real_starts_from(log, i),
    decreases log.len() - from,
{
    if let Some(d) = link {
        let at = from + d;
        if let Event::Start { kind, forward_parent } = log[at] {
            let next = log.update(at, Event::tombstone_spec());
            lemma_consumed_slot_counts_once(log, at, i);
            lemma_follow_counts(next, at, forward_parent, i);
        }
    }
}

proof fn lemma_step_counts(log: Seq<Event>, i: int)
    requires
        0 <= i < log.len(),
        step(log, i).fault is None,
    ensures
        open_calls(step(log, i).calls) + real_starts_from(step(log, i).log, i + 1)
            == real_starts_from(log, i),
{
    let taken = log.update(i, Event::tombstone_spec());
    lemma_consumed_slot_counts_once(log, i, i + 1);
    let here = step(log, i);
    match log[i] {
        Event::Start { kind, forward_parent } => {
            if kind.is_tombstone_spec() {
                assert(open_calls(here.calls) == 0);
            } else {
                let walk = follow(taken, i, forward_parent);
                lemma_follow_counts(taken, i, forward_parent, i + 1);
                lemma_open_calls_of_opens(seq![kind] + walk.kinds);
            }
        },
        _ => {
            reveal_with_fuel(open_calls, 2);
            assert(here.calls.len() == 1);
            assert(here.calls.drop_first().len() == 0);
        },
    }
}

/// Over the rest of a pass that reaches the end, as many nodes are opened as
/// the rest of the log holds `Start`s that were not abandoned.
pub proof fn lemma_rest_opens_each_start_once(log: Seq<Event>, i: int)
    requires
        0 <= i,
        run_from(log, i).fault is None,
    ensures
        open_calls(run_from(log, i).calls) == real_starts_from(log, i),
    decreases log.len() - i,
{
    if i < log.len() {
        let here = step(log, i);
        lemma_step_keeps_len(log, i);
        lemma_step_counts(log, i);
        lemma_rest_opens_each_start_once(here.log, i + 1);
        lemma_open_calls_of_both(here.calls, run_from(here.log, i + 1).calls);
    }
}

/// A pass that reaches the end opens each `Start` that was not abandoned
/// exactly once: the sink receives as many openings as the log holds such
/// records, whether a record is met at its own position or along a chain.
pub proof fn lemma_each_start_is_opened_once(log: Seq<Event>)
    requires
        run(log).fault is None,
    ensures
        open_calls(run(log).calls) == real_starts_from(log, 0),
{
    lemma_rest_opens_each_start_once(log, 0);
}

/// Whether slot `at` holds a `Start` whose forward-parent link is broken: of
/// distance zero, leading past the end of the log, or leading to a record
/// that is no `Start`.
pub open spec fn has_broken_link(log: Seq<Event>, at: int) -> bool {
    &&& 0 <= at < log.len()
    &&& match link_of(log[at]) {
            Some(d) => d == 0 || at + d >= log.len() || !(log[at + d] is Start),
            None => false,
        }
}

proof fn lemma_follow_stops_at_broken_link(log: Seq<Event>, from: int, link: Option<u32>, bad: int)
    requires
        has_broken_link(log, bad),
        follow(log, from, link).fault is None,
    ensures
        follow(log, from, link).log[bad] == log[bad],
        has_broken_link(follow(log, from, link).log, bad),
    decreases log.len() - from,
{
    if let Some(d) = link {
        let at = from + d;
        if let Event::Start { kind, forward_parent } = log[at] {
            let next = log.update(at, Event::tombstone_spec());
            if at == bad {
                assert(follow(next, at, forward_parent).fault is Some);
            } else {
                assert(has_broken_link(next, bad));
                lemma_follow_stops_at_broken_link(next, at, forward_parent, bad);
            }
        }
    }
}

proof fn lemma_rest_stops_at_broken_link(log: Seq<Event>, i: int, bad: int)
    requires
        0 <= i <= bad,
        has_broken_link(log, bad),
        log[bad].is_real_start(),
    ensures
        run_from(log, i).fault is Some,
    decreases log.len() - i,
{
    let here = step(log, i);
    let taken = log.update(i, Event::tombstone_spec());
    lemma_step_keeps_len(log, i);
    if here.fault is None {
        if i == bad {
            assert(follow(taken, i, link_of(log[i])).fault is Some);
        } else {
            assert(has_broken_link(taken, bad));
            match log[i] {
                Event::Start { kind, forward_parent } => {
                    if !kind.is_tombstone_spec() {
                        lemma_follow_stops_at_broken_link(taken, i, forward_parent, bad);
                    }
                },
                _ => {},
            }
            assert(here.log[bad] == log[bad]);
            assert(has_broken_link(here.log, bad));
            lemma_rest_stops_at_broken_link(here.log, i + 1, bad);
        }
    }
}

/// A log in which a `Start` that was not abandoned carries a broken link (of
/// distance zero, past the end of the log, or to a record that is no `Start`)
/// ends the pass with a fault, wherever the record stands: the pass neither
/// runs on for ever nor hands on a tree as if the log were sound.
pub proof fn lemma_broken_link_is_a_fault(log: Seq<Event>, bad: int)
    requires
        has_broken_link(log, bad),
        log[bad].is_real_start(),
    ensures
        run(log).fault is Some,
        verdict(run(log)) is Err,
{
    lemma_rest_stops_at_broken_link(log, 0, bad);
}

/// Whether none of `calls` opens a node of the tombstone kind.
pub open spec fn opens_no_tombstone(calls: Seq<SinkCall>) -> bool {
    forall|j: int| 0 <= j < calls.len() ==> #[trigger] calls[j] != SinkCall::Open(
        SyntaxKind::tombstone_spec(),
    )
}

proof fn lemma_follow_notes_no_tombstone(log: Seq<Event>, from: int, link: Option<u32>)
    ensures
        forall|j: int| 0 <= j < follow(log, from, link).kinds.len() ==> !(#[trigger] follow(log, from, link).kinds[j]).is_tombstone_spec(),
    decreases log.len() - from,
{
    if let Some(d) = link {
        let at = from + d;
        if from >= 0 && d != 0 && at < log.len() {
            if let Event::Start { kind, forward_parent } = log[at] {
                lemma_follow_notes_no_tombstone(log.update(at, Event::tombstone_spec()), at, forward_parent);
            }
        }
    }
}

proof fn lemma_rest_opens_no_tombstone(log: Seq<Event>, i: int)
    requires
        0 <= i,
    ensures
        opens_no_tombstone(run_from(log, i).calls),
    decreases log.len() - i,
{
    if i < log.len() {
        let here = step(log, i);
        lemma_step_keeps_len(log, i);
        if let Event::Start { kind, forward_parent } = log[i] {
            lemma_follow_notes_no_tombstone(log.update(i, Event::tombstone_spec()), i, forward_parent);
        }
        assert(opens_no_tombstone(here.calls));
        if here.fault is None {
            lemma_rest_opens_no_tombstone(here.log, i + 1);
        }
    }
}

/// No pass ever opens a node of the tombstone kind.
pub proof fn lemma_tombstone_is_never_opened(log: Seq<Event>)
    ensures
        opens_no_tombstone(run(log).calls),
{
    lemma_rest_opens_no_tombstone(log, 0);
}

/// The calls among `calls` that open no node, in order.
pub open spec fn other_calls(calls: Seq<SinkCall>) -> Seq<SinkCall>
    decreases calls.len(),
{
    if calls.len() == 0 {
        Seq::empty()
    } else {
        (if calls.first() is Open {
            Seq::empty()
        } else {
            seq![calls.first()]
        }) + other_calls(calls.drop_first())
    }
}

/// The calls of the records from position `i` on that start no node (the
/// closings, the tokens and the diagnostics), in the order of the log.
pub open spec fn others_from(log: Seq<Event>, i: int) -> Seq<SinkCall>
    decreases log.len() - i,
{
    if i < 0 || i >= log.len() {
        Seq::empty()
    } else {
        (if log[i] is Start {
            Seq::empty()
        } else {
            call_of(log[i])
        }) + others_from(log, i + 1)
    }
}

/// Whether two logs differ at most in what their `Start` records hold.
pub open spec fn alike(a: Seq<Event>, b: Seq<Event>) -> bool {
    &&& a.len() == b.len()
    &&& forall|j: int| 0 <= j < a.len() ==> (#[trigger] a[j] == b[j] || (a[j] is Start && b[j] is Start))
}

proof fn lemma_other_calls_of_both(a: Seq<SinkCall>, b: Seq<SinkCall>)
    ensures
        other_calls(a + b) == other_calls(a) + other_calls(b),
    decreases a.len(),
{
    if a.len() == 0 {
        assert(a + b =~= b);
        assert(other_calls(a) + other_calls(b) =~= other_calls(b));
    } else {
        assert((a + b).drop_first() =~= a.drop_first() + b);
        lemma_other_calls_of_both(a.drop_first(), b);
        let head = if a.first() is Open {
            Seq::<SinkCall>::empty()
        } else {
            seq![a.first()]
        };
        assert(head + (other_calls(a.drop_first()) + other_calls(b)) =~= (head + other_calls(
            a.drop_first(),
        )) + other_calls(b));
    }
}

proof fn lemma_other_calls_of_opens(kinds: Seq<SyntaxKind>)
    ensures
        other_calls(opens(kinds)) == Seq::<SinkCall>::empty(),
    decreases kinds.len(),
{
    if kinds.len() > 0 {
        assert(opens(kinds).drop_first() =~= opens(kinds.drop_last()));
        lemma_other_calls_of_opens(kinds.drop_last());
        assert(Seq::<SinkCall>::empty() + Seq::<SinkCall>::empty() =~= Seq::<SinkCall>::empty());
    }
}

proof fn lemma_others_of_alike(a: Seq<Event>, b: Seq<Event>, i: int)
    requires
        alike(a, b),
    ensures
        others_from(a, i) == others_from(b, i),
    decreases a.len() - i,
{
    if 0 <= i < a.len() {
        assert(a[i] == b[i] || (a[i] is Start && b[i] is Start));
        lemma_others_of_alike(a, b, i + 1);
    }
}

proof fn lemma_follow_leaves_alike(log: Seq<Event>, from: int, link: Option<u32>)
    ensures
        alike(log, follow(log, from, link).log),
    decreases log.len() - from,
{
    if let Some(d) = link {
        let at = from + d;
        if from >= 0 && d != 0 && at < log.len() {
            if let Event::Start { kind, forward_parent } = log[at] {
                let next = log.update(at, Event::tombstone_spec());
                lemma_follow_leaves_alike(next, at, forward_parent);
                let end = follow(next, at, forward_parent).log;
                assert forall|j: int| 0 <= j < log.len() implies (#[trigger] log[j] == end[j] || (
                log[j] is Start && end[j] is Start)) by {
                    assert(next[j] == end[j] || (next[j] is Start && end[j] is Start));
                }
            }
        }
    }
}

proof fn lemma_step_keeps_others(log: Seq<Event>, i: int)
    requires
        0 <= i < log.len(),
        step(log, i).fault is None,
    ensures
        other_calls(step(log, i).calls) + others_from(step(log, i).log, i + 1) == others_from(log, i),
{
    let taken = log.update(i, Event::tombstone_spec());
    let here = step(log, i);
    reveal_with_fuel(other_calls, 2);
    match log[i] {
        Event::Start { kind, forward_parent } => {
            assert(alike(log, taken));
            if kind.is_tombstone_spec() {
                lemma_others_of_alike(log, taken, i + 1);
            } else {
                let walk = follow(taken, i, forward_parent);
                lemma_follow_leaves_alike(taken, i, forward_parent);
                assert(alike(log, walk.log)) by {
                    assert forall|j: int| 0 <= j < log.len() implies (#[trigger] log[j] == walk.log[j]
                        || (log[j] is Start && walk.log[j] is Start)) by {
                        assert(taken[j] == walk.log[j] || (taken[j] is Start && walk.log[j] is Start));
                    }
                }
                lemma_others_of_alike(log, walk.log, i + 1);
                lemma_other_calls_of_opens(seq![kind] + walk.kinds);
            }
            assert(other_calls(here.calls) =~= Seq::<SinkCall>::empty());
            assert(Seq::<SinkCall>::empty() + others_from(log, i + 1) =~= others_from(log, i + 1));
        },
        _ => {
            assert(here.log == taken);
            assert(others_from(taken, i + 1) == others_from(log, i + 1)) by {
                lemma_others_ignore_earlier(log, i, i + 1);
            }
            assert(here.calls.len() == 1);
            assert(here.calls.drop_first().len() == 0);
            assert(other_calls(here.calls) =~= call_of(log[i]));
        },
    }
}

proof fn lemma_others_ignore_earlier(log: Seq<Event>, at: int, i: int)
    requires
        0 <= at < i,
        at < log.len(),
    ensures
        others_from(log.update(at, Event::tombstone_spec()), i) == others_from(log, i),
    decreases log.len() - i,
{
    if i < log.len() {
        lemma_others_ignore_earlier(log, at, i + 1);
    }
}

/// Over the rest of a pass that reaches the end, the calls that open no
/// node are those of the records that start none, in the order of the log.
pub proof fn lemma_rest_keeps_other_calls(log: Seq<Event>, i: int)
    requires
        0 <= i,
        run_from(log, i).fault is None,
    ensures
        other_calls(run_from(log, i).calls) == others_from(log, i),
    decreases log.len() - i,
{
    if i < log.len() {
        let here = step(log, i);
        let rest = run_from(here.log, i + 1);
        lemma_step_keeps_len(log, i);
        lemma_step_keeps_others(log, i);
        lemma_rest_keeps_other_calls(here.log, i + 1);
        lemma_other_calls_of_both(here.calls, rest.calls);
    }
}

/// Forward parents move openings and nothing else: in a pass that reaches
/// the end, every closing, token and diagnostic is handed on once, in the
/// order of the log, whatever links the log holds.
pub proof fn lemma_links_move_only_openings(log: Seq<Event>)
    requires
        run(log).fault is None,
    ensures
        other_calls(run(log).calls) == others_from(log, 0),
{
    lemma_rest_keeps_other_calls(log, 0);
}

} // verus!
