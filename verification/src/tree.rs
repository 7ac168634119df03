//! A sink that builds the tree.
use vstd::prelude::*;
use crate::error::ParseError;
use crate::syntax_kind::SyntaxKind;
use crate::checked::{process_checked, verdict};
use crate::event::{run, Event, Fault};
use crate::tree_sink::{balanced, nesting_after, SinkCall, TreeSink};
use crate::tree_sink::{lemma_broken_nesting_stays, lemma_nesting_of_both, lemma_nesting_of_one};

verus! {

/// One element of a syntax tree.
#[derive(Debug, PartialEq, Eq)]
pub enum Element {
    /// A node with its children, in order.
    Node { kind: SyntaxKind, children: Vec<Element> },
    /// A leaf token, folded from `n_raw_tokens` raw lexical tokens.
    Token { kind: SyntaxKind, n_raw_tokens: u8 },
    /// A diagnostic, at the place where it was reported.
    Error { msg: ParseError },
}

/// The calls that build `element`: for a node its opening, the calls of its
/// children, and its closing.
pub open spec fn flat(element: Element) -> Seq<SinkCall>
    decreases element,
{
    match element {
        Element::Node { kind, children } => seq![SinkCall::Open(kind)] + flat_first(
            children@,
            children@.len(),
        ) + seq![SinkCall::Close],
        Element::Token { kind, n_raw_tokens } => seq![SinkCall::Leaf(kind, n_raw_tokens)],
        Element::Error { msg } => seq![SinkCall::Diagnostic(msg)],
    }
}

/// The calls that build the first `n` of `elements`, one after the other.
pub open spec fn flat_first(elements: Seq<Element>, n: nat) -> Seq<SinkCall>
    decreases elements, n,
{
    if n == 0 || n > elements.len() {
        Seq::empty()
    } else {
        flat_first(elements, (n - 1) as nat) + flat(elements[n - 1])
    }
}

/// The calls that build all of `elements`, one after the other.
pub open spec fn flat_all(elements: Seq<Element>) -> Seq<SinkCall> {
    flat_first(elements, elements.len())
}

/// A node that has been opened and not yet closed, with the children it has
/// so far.
#[derive(Debug)]
pub struct OpenNode {
    pub kind: SyntaxKind,
    pub children: Vec<Element>,
}

/// The calls that brought about the first `n` of `open`, outermost first:
/// for each the opening and the calls of the children it has so far.
pub open spec fn flat_open(open: Seq<OpenNode>, n: nat) -> Seq<SinkCall>
    decreases n,
{
    if n == 0 || n > open.len() {
        Seq::empty()
    } else {
        flat_open(open, (n - 1) as nat) + seq![SinkCall::Open(open[n - 1].kind)] + flat_all(
            open[n - 1].children@,
        )
    }
}

/// The calls of the first `n` elements depend on those elements alone.
pub proof fn lemma_flat_first_of_equal_starts(a: Seq<Element>, b: Seq<Element>, n: nat)
    requires
        n <= a.len(),
        n <= b.len(),
        forall|j: int| 0 <= j < n ==> a[j] == b[j],
    ensures
        flat_first(a, n) == flat_first(b, n),
    decreases n,
{
    if n > 0 {
        lemma_flat_first_of_equal_starts(a, b, (n - 1) as nat);
    }
}

/// The calls of the first `n` open nodes depend on those nodes alone.
pub proof fn lemma_flat_open_of_equal_starts(a: Seq<OpenNode>, b: Seq<OpenNode>, n: nat)
    requires
        n <= a.len(),
        n <= b.len(),
        forall|j: int| 0 <= j < n ==> a[j] == b[j],
    ensures
        flat_open(a, n) == flat_open(b, n),
    decreases n,
{
    if n > 0 {
        lemma_flat_open_of_equal_starts(a, b, (n - 1) as nat);
    }
}

/// A sink that builds the tree: what is handed to it between the opening
/// and the closing of a node becomes that node's children.
///
/// It keeps everything at its place, diagnostics too, so that the calls it
/// has received can be read off the tree. A close that comes when no node is
/// open cannot be built into a tree: from then on the builder only keeps
/// the calls, and gives no tree in the end.
#[derive(Debug)]
pub struct TreeBuilder {
    /// The finished elements outside every node, in order.
    pub roots: Vec<Element>,
    /// The nodes that are open, outermost first.
    pub open: Vec<OpenNode>,
    /// Whether a close has come when no node was open.
    pub stray: bool,
    /// The calls that came after that close.
    pub rest: Vec<SinkCall>,
}

impl TreeBuilder {
    /// A builder that has received nothing.
    pub fn new() -> (builder: TreeBuilder)
        ensures
            builder.calls() == Seq::<SinkCall>::empty(),
            builder.roots@.len() == 0,
            builder.open@.len() == 0,
            !builder.stray,
    {
        TreeBuilder { roots: Vec::new(), open: Vec::new(), stray: false, rest: Vec::new() }
    }

    /// Whether the builder has given up building, after a close that had no
    /// node to close.
    pub open spec fn gave_up_spec(&self) -> bool {
        self.stray && self.open@.len() == 0
    }

    /// Whether the builder has given up building, after a close that had no
    /// node to close.
    #[verifier::when_used_as_spec(gave_up_spec)]
    pub fn gave_up(&self) -> (yes: bool)
        ensures
            yes == self.gave_up_spec(),
    {
        self.stray && self.open.len() == 0
    }

    /// Puts `element` after what the innermost open node holds, or after
    /// the roots where no node is open.
    fn attach(&mut self, element: Element)
        requires
            !old(self).gave_up_spec(),
        ensures
            final(self).calls() == old(self).calls() + flat(element),
            final(self).open@.len() == old(self).open@.len(),
    {
        let ghost roots = self.roots@;
        let ghost open = self.open@;
        if self.open.len() == 0 {
            self.roots.push(element);
            proof {
                lemma_flat_first_of_equal_starts(self.roots@, roots, roots.len());
                assert(self.calls() =~= old(self).calls() + flat(element));
            }
        } else {
            let mut top = self.open.pop().unwrap();
            let ghost children = top.children@;
            top.children.push(element);
            self.open.push(top);
            proof {
                let n = (open.len() - 1) as nat;
                lemma_flat_open_of_equal_starts(self.open@, open, n);
                lemma_flat_first_of_equal_starts(top.children@, children, children.len());
                assert(self.open@[n as int] == top);
                assert(open[n as int].children@ == children);
                assert(flat_all(top.children@) == flat_all(children) + flat(element));
                assert(self.calls() =~= old(self).calls() + flat(element));
            }
        }
    }

    /// Keeps `call` with the calls that came after the builder gave up.
    fn keep(&mut self, call: SinkCall)
        requires
            old(self).gave_up_spec(),
        ensures
            final(self).calls() == old(self).calls().push(call),
    {
        self.rest.push(call);
        proof {
            assert(self.calls() =~= old(self).calls().push(call));
        }
    }

    /// Gives up the builder for the tree, where every node that was opened
    /// has been closed and every close had a node to close. The calls that
    /// built the tree are those that the builder received.
    pub fn into_roots(self) -> (tree: Option<Vec<Element>>)
        ensures
            tree is Some <==> self.open@.len() == 0 && !self.stray,
            tree is Some ==> tree->0 == self.roots && flat_all(tree->0@) == self.calls(),
    {
        if self.open.len() == 0 && !self.stray {
            proof {
                assert(flat_all(self.roots@) + Seq::<SinkCall>::empty() =~= flat_all(self.roots@));
            }
            Some(self.roots)
        } else {
            None
        }
    }
}

impl TreeSink for TreeBuilder {
    open spec fn calls(&self) -> Seq<SinkCall> {
        if self.gave_up_spec() {
            flat_all(self.roots@) + seq![SinkCall::Close] + self.rest@
        } else {
            flat_all(self.roots@) + flat_open(self.open@, self.open@.len())
        }
    }

    fn start_node(&mut self, kind: SyntaxKind) {
        if self.gave_up() {
            self.keep(SinkCall::Open(kind));
        } else {
            let ghost open = self.open@;
            self.open.push(OpenNode { kind, children: Vec::new() });
            proof {
                lemma_flat_open_of_equal_starts(self.open@, open, open.len());
                assert(self.open@[open.len() as int].children@.len() == 0);
                assert(self.calls() =~= old(self).calls().push(SinkCall::Open(kind)));
            }
        }
    }

    fn finish_node(&mut self) {
        let ghost open = self.open@;
        if self.gave_up() {
            self.keep(SinkCall::Close);
        } else if self.open.len() == 0 {
            self.stray = true;
            self.rest = Vec::new();
            proof {
                assert(self.calls() =~= old(self).calls().push(SinkCall::Close));
            }
        } else {
            let top = self.open.pop().unwrap();
            proof {
                lemma_flat_open_of_equal_starts(self.open@, open, self.open@.len());
            }
            self.stray = false;
            self.attach(Element::Node { kind: top.kind, children: top.children });
            proof {
                assert(self.calls() =~= old(self).calls().push(SinkCall::Close));
            }
        }
    }

    fn token(&mut self, kind: SyntaxKind, n_raw_tokens: u8) {
        if self.gave_up() {
            self.keep(SinkCall::Leaf(kind, n_raw_tokens));
        } else {
            self.attach(Element::Token { kind, n_raw_tokens });
            proof {
                assert(self.calls() =~= old(self).calls().push(SinkCall::Leaf(kind, n_raw_tokens)));
            }
        }
    }

    fn error(&mut self, msg: ParseError) {
        if self.gave_up() {
            self.keep(SinkCall::Diagnostic(msg));
        } else {
            self.attach(Element::Error { msg });
            proof {
                assert(self.calls() =~= old(self).calls().push(SinkCall::Diagnostic(msg)));
            }
        }
    }
}

/// Whether `after` is the depth `before`, or no depth at all because a close
/// had nothing to close.
pub open spec fn same_or_broken(before: Option<nat>, after: Option<nat>) -> bool {
    after is None || after == before
}

/// The calls of an element close every node they open and no other: they
/// leave the depth as it was.
pub proof fn lemma_element_keeps_depth(depth: Option<nat>, element: Element)
    ensures
        same_or_broken(depth, nesting_after(depth, flat(element))),
    decreases element,
{
    match element {
        Element::Node { kind, children } => {
            let open = seq![SinkCall::Open(kind)];
            let inner = flat_first(children@, children@.len());
            let close = seq![SinkCall::Close];
            let opened = nesting_after(depth, open);
            let filled = nesting_after(opened, inner);
            lemma_nesting_of_one(depth, SinkCall::Open(kind));
            lemma_elements_keep_depth(opened, children@, children@.len());
            lemma_nesting_of_one(filled, SinkCall::Close);
            lemma_nesting_of_both(depth, open, inner);
            lemma_nesting_of_both(depth, open + inner, close);
        },
        Element::Token { kind, n_raw_tokens } => {
            lemma_nesting_of_one(depth, SinkCall::Leaf(kind, n_raw_tokens));
        },
        Element::Error { msg } => {
            lemma_nesting_of_one(depth, SinkCall::Diagnostic(msg));
        },
    }
}

/// The calls of finished elements leave the depth as it was.
pub proof fn lemma_elements_keep_depth(depth: Option<nat>, elements: Seq<Element>, n: nat)
    ensures
        same_or_broken(depth, nesting_after(depth, flat_first(elements, n))),
    decreases elements, n,
{
    if n == 0 || n > elements.len() {
    } else {
        let before = nesting_after(depth, flat_first(elements, (n - 1) as nat));
        lemma_elements_keep_depth(depth, elements, (n - 1) as nat);
        lemma_element_keeps_depth(before, elements[n - 1]);
        lemma_nesting_of_both(depth, flat_first(elements, (n - 1) as nat), flat(elements[n - 1]));
    }
}

/// The calls that brought about `n` open nodes leave `n` more nodes open
/// than before.
pub proof fn lemma_open_nodes_add_depth(depth: nat, open: Seq<OpenNode>, n: nat)
    requires
        n <= open.len(),
    ensures
        same_or_broken(Some(depth + n), nesting_after(Some(depth), flat_open(open, n))),
    decreases n,
{
    if n > 0 {
        let m = (n - 1) as nat;
        let outer = flat_open(open, m);
        let call = SinkCall::Open(open[n - 1].kind);
        let inner = flat_all(open[n - 1].children@);
        let reached = nesting_after(Some(depth), outer);
        let opened = nesting_after(reached, seq![call]);
        lemma_open_nodes_add_depth(depth, open, m);
        lemma_nesting_of_one(reached, call);
        lemma_elements_keep_depth(opened, open[n - 1].children@, open[n - 1].children@.len());
        lemma_nesting_of_both(Some(depth), outer, seq![call]);
        lemma_nesting_of_both(Some(depth), outer + seq![call], inner);
    }
}

impl TreeBuilder {
    /// A builder whose calls nest properly has no node open and has not
    /// given up: it holds a whole tree.
    pub proof fn lemma_balanced_leaves_none_open(self)
        requires
            balanced(self.calls()),
        ensures
            self.open@.len() == 0,
            !self.stray,
    {
        let roots = flat_all(self.roots@);
        let reached = nesting_after(Some(0nat), roots);
        lemma_elements_keep_depth(Some(0nat), self.roots@, self.roots@.len());
        if self.gave_up_spec() {
            let close = seq![SinkCall::Close];
            lemma_nesting_of_both(Some(0nat), roots, close);
            lemma_nesting_of_one(reached, SinkCall::Close);
            lemma_nesting_of_both(Some(0nat), roots + close, self.rest@);
            lemma_broken_nesting_stays(self.rest@);
        } else {
            lemma_nesting_of_both(Some(0nat), roots, flat_open(self.open@, self.open@.len()));
            lemma_broken_nesting_stays(flat_open(self.open@, self.open@.len()));
            lemma_open_nodes_add_depth(0, self.open@, self.open@.len());
        }
    }
}

/// Builds the tree of `events`.
///
/// The log is taken as a whole: where the pass over it meets no fault and its
/// calls nest properly, the answer is the tree that those calls build, one
/// element for each call but the closings. Otherwise it is the fault, as
/// `process_checked` gives it.
pub fn build(events: Vec<Event>) -> (res: Result<Vec<Element>, Fault>)
    ensures
        match res {
            Ok(tree) => verdict(run(events@)) is Ok && flat_all(tree@) == run(events@).calls,
            Err(fault) => verdict(run(events@)) == Err::<(), Fault>(fault),
        },
{
    let mut builder = TreeBuilder::new();
    match process_checked(&mut builder, events) {
        Err(fault) => Err(fault),
        Ok(()) => {
            proof {
                assert(builder.calls() =~= run(events@).calls);
                builder.lemma_balanced_leaves_none_open();
            }
            match builder.into_roots() {
                Some(tree) => Ok(tree),
                None => Err(Fault::Unbalanced),
            }
        },
    }
}

} // verus!
