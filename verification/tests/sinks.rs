use lfr_parser::checked::process_checked;
use lfr_parser::error::ParseError;
use lfr_parser::event::{process, Event, Fault};
use lfr_parser::recorder::Recorder;
use lfr_parser::syntax_kind::SyntaxKind;
use lfr_parser::tree::{build, Element, TreeBuilder};
use lfr_parser::tree_sink::{is_balanced, replay, SinkCall, TreeSink};

const PATH: SyntaxKind = SyntaxKind(10);
const PATH_SEGMENT: SyntaxKind = SyntaxKind(11);
const IDENT: SyntaxKind = SyntaxKind(20);
const COLON2: SyntaxKind = SyntaxKind(21);

/// A sink that counts what it is handed.
struct Counter {
    opened: usize,
    closed: usize,
    leaves: usize,
    diagnostics: usize,
}

impl TreeSink for Counter {
    fn start_node(&mut self, _kind: SyntaxKind) {
        self.opened += 1;
    }

    fn finish_node(&mut self) {
        self.closed += 1;
    }

    fn token(&mut self, _kind: SyntaxKind, _n_raw_tokens: u8) {
        self.leaves += 1;
    }

    fn error(&mut self, _msg: ParseError) {
        self.diagnostics += 1;
    }
}

fn path_log() -> Vec<Event> {
    vec![
        Event::Start { kind: PATH_SEGMENT, forward_parent: Some(3) },
        Event::Token { kind: IDENT, n_raw_tokens: 1 },
        Event::Finish,
        Event::Start { kind: PATH, forward_parent: None },
        Event::Token { kind: COLON2, n_raw_tokens: 2 },
        Event::Token { kind: IDENT, n_raw_tokens: 1 },
        Event::Finish,
    ]
}

fn node(kind: SyntaxKind, children: Vec<Element>) -> Element {
    Element::Node { kind, children }
}

fn leaf(kind: SyntaxKind, n_raw_tokens: u8) -> Element {
    Element::Token { kind, n_raw_tokens }
}

#[test]
fn tree_of_a_path_nests_the_first_segment() {
    let mut builder = TreeBuilder::new();
    assert_eq!(process(&mut builder, path_log()), Ok(()));
    assert_eq!(
        builder.into_roots(),
        Some(vec![node(
            PATH,
            vec![node(PATH_SEGMENT, vec![leaf(IDENT, 1)]), leaf(COLON2, 2), leaf(IDENT, 1)]
        )])
    );
}

#[test]
fn tree_keeps_diagnostics_in_place() {
    let mut builder = TreeBuilder::new();
    let events = vec![
        Event::Start { kind: PATH, forward_parent: None },
        Event::Error { msg: ParseError { msg: "expected a name".to_string() } },
        Event::Finish,
        Event::Error { msg: ParseError { msg: "trailing".to_string() } },
    ];
    assert_eq!(process_checked(&mut builder, events), Ok(()));
    assert_eq!(
        builder.into_roots(),
        Some(vec![
            node(PATH, vec![Element::Error { msg: ParseError { msg: "expected a name".to_string() } }]),
            Element::Error { msg: ParseError { msg: "trailing".to_string() } },
        ])
    );
}

#[test]
fn tree_of_nothing_is_empty() {
    assert_eq!(TreeBuilder::new().into_roots(), Some(vec![]));
    let mut builder = TreeBuilder::new();
    assert_eq!(process(&mut builder, Vec::new()), Ok(()));
    assert_eq!(builder.into_roots(), Some(vec![]));
}

#[test]
fn tree_with_a_node_left_open_is_not_given() {
    let mut builder = TreeBuilder::new();
    builder.start_node(PATH);
    builder.token(IDENT, 1);
    builder.start_node(PATH_SEGMENT);
    builder.finish_node();
    assert_eq!(builder.open.len(), 1);
    assert_eq!(builder.open[0].kind, PATH);
    assert_eq!(builder.open[0].children, vec![leaf(IDENT, 1), node(PATH_SEGMENT, vec![])]);
    assert_eq!(builder.into_roots(), None);
}

#[test]
fn tree_is_given_up_at_a_close_that_closes_nothing() {
    let mut builder = TreeBuilder::new();
    builder.token(IDENT, 1);
    assert!(!builder.gave_up());
    builder.finish_node();
    assert!(builder.gave_up());
    builder.start_node(PATH);
    builder.token(COLON2, 2);
    builder.error(ParseError { msg: "late".to_string() });
    builder.finish_node();
    assert!(builder.gave_up());
    assert_eq!(builder.roots, vec![leaf(IDENT, 1)]);
    assert_eq!(
        builder.rest,
        vec![
            SinkCall::Open(PATH),
            SinkCall::Leaf(COLON2, 2),
            SinkCall::Diagnostic(ParseError { msg: "late".to_string() }),
            SinkCall::Close,
        ]
    );
    assert_eq!(builder.into_roots(), None);
}

#[test]
fn build_gives_the_tree_of_a_sound_log() {
    assert_eq!(
        build(path_log()),
        Ok(vec![node(
            PATH,
            vec![node(PATH_SEGMENT, vec![leaf(IDENT, 1)]), leaf(COLON2, 2), leaf(IDENT, 1)]
        )])
    );
    assert_eq!(build(Vec::new()), Ok(vec![]));
    assert_eq!(
        build(vec![Event::tombstone(), Event::Token { kind: IDENT, n_raw_tokens: 3 }]),
        Ok(vec![leaf(IDENT, 3)])
    );
}

#[test]
fn build_gives_the_fault_of_a_broken_log() {
    let open_only = vec![Event::Start { kind: PATH, forward_parent: None }];
    assert_eq!(build(open_only), Err(Fault::Unbalanced));
    assert_eq!(build(vec![Event::Finish]), Err(Fault::Unbalanced));
    let zero = vec![Event::Start { kind: PATH, forward_parent: Some(0) }, Event::Finish];
    assert_eq!(build(zero), Err(Fault::NotForward { at: 0 }));
    let far = vec![Event::Start { kind: PATH, forward_parent: Some(2) }, Event::Finish];
    assert_eq!(build(far), Err(Fault::OutOfBounds { at: 0 }));
    let stray = vec![Event::Start { kind: PATH, forward_parent: Some(1) }, Event::Finish];
    assert_eq!(build(stray), Err(Fault::NotAStart { at: 1 }));
    let empty = vec![Event::Token { kind: IDENT, n_raw_tokens: 0 }];
    assert_eq!(build(empty), Err(Fault::EmptyToken { at: 0 }));
}

#[test]
fn tree_nests_as_deep_as_the_calls() {
    let mut builder = TreeBuilder::new();
    for _ in 0..200 {
        builder.start_node(PATH);
    }
    builder.token(IDENT, 1);
    for _ in 0..200 {
        builder.finish_node();
    }
    let mut tree = builder.into_roots().unwrap();
    let mut depth = 0;
    while let Some(Element::Node { kind, children }) = tree.pop() {
        assert_eq!(kind, PATH);
        assert!(tree.is_empty());
        tree = children;
        depth += 1;
    }
    assert_eq!(depth, 200);
}

#[test]
fn counts_equal_the_records_of_each_sort() {
    let mut counter = Counter { opened: 0, closed: 0, leaves: 0, diagnostics: 0 };
    let mut events = path_log();
    events.push(Event::tombstone());
    events.push(Event::Error { msg: ParseError { msg: "stray".to_string() } });
    assert_eq!(process(&mut counter, events), Ok(()));
    assert_eq!(counter.opened, 2);
    assert_eq!(counter.closed, 2);
    assert_eq!(counter.leaves, 3);
    assert_eq!(counter.diagnostics, 1);
}

#[test]
fn merged_token_is_counted_once() {
    let mut counter = Counter { opened: 0, closed: 0, leaves: 0, diagnostics: 0 };
    let events = vec![Event::Token { kind: COLON2, n_raw_tokens: 3 }];
    assert_eq!(process(&mut counter, events), Ok(()));
    assert_eq!(counter.leaves, 1);
}

#[test]
fn checked_pass_hands_on_a_sound_log() {
    let mut sink = Recorder::new();
    sink.token(IDENT, 1);
    assert_eq!(process_checked(&mut sink, path_log()), Ok(()));
    assert_eq!(
        sink.received,
        vec![
            SinkCall::Leaf(IDENT, 1),
            SinkCall::Open(PATH),
            SinkCall::Open(PATH_SEGMENT),
            SinkCall::Leaf(IDENT, 1),
            SinkCall::Close,
            SinkCall::Leaf(COLON2, 2),
            SinkCall::Leaf(IDENT, 1),
            SinkCall::Close,
        ]
    );
}

#[test]
fn checked_pass_accepts_the_empty_log() {
    let mut sink = Recorder::new();
    assert_eq!(process_checked(&mut sink, Vec::new()), Ok(()));
    assert!(sink.received.is_empty());
}

#[test]
fn checked_pass_hands_on_nothing_of_a_broken_log() {
    let mut sink = Recorder::new();
    sink.token(IDENT, 1);
    let events = vec![
        Event::Token { kind: IDENT, n_raw_tokens: 1 },
        Event::Start { kind: PATH, forward_parent: Some(7) },
        Event::Finish,
    ];
    assert_eq!(process_checked(&mut sink, events), Err(Fault::OutOfBounds { at: 1 }));
    assert_eq!(sink.received, vec![SinkCall::Leaf(IDENT, 1)]);
}

#[test]
fn checked_pass_refuses_a_node_left_open() {
    let mut sink = Recorder::new();
    let events = vec![
        Event::Start { kind: PATH, forward_parent: None },
        Event::Token { kind: IDENT, n_raw_tokens: 1 },
    ];
    assert_eq!(process_checked(&mut sink, events), Err(Fault::Unbalanced));
    assert!(sink.received.is_empty());
}

#[test]
fn checked_pass_refuses_a_close_without_an_open() {
    let mut sink = Recorder::new();
    let events = vec![
        Event::Finish,
        Event::Start { kind: PATH, forward_parent: None },
    ];
    assert_eq!(process_checked(&mut sink, events), Err(Fault::Unbalanced));
    assert!(sink.received.is_empty());
}

#[test]
fn nesting_of_calls_is_told() {
    assert!(is_balanced(&vec![]));
    assert!(is_balanced(&vec![SinkCall::Leaf(IDENT, 1)]));
    assert!(is_balanced(&vec![
        SinkCall::Open(PATH),
        SinkCall::Open(PATH_SEGMENT),
        SinkCall::Close,
        SinkCall::Leaf(IDENT, 1),
        SinkCall::Close,
    ]));
    assert!(!is_balanced(&vec![SinkCall::Open(PATH)]));
    assert!(!is_balanced(&vec![SinkCall::Close]));
    assert!(!is_balanced(&vec![SinkCall::Close, SinkCall::Open(PATH)]));
    assert!(!is_balanced(&vec![SinkCall::Open(PATH), SinkCall::Close, SinkCall::Close]));
    assert!(!is_balanced(&vec![
        SinkCall::Open(PATH),
        SinkCall::Close,
        SinkCall::Close,
        SinkCall::Open(PATH),
    ]));
}

#[test]
fn replay_hands_on_every_call_in_order() {
    let calls = vec![
        SinkCall::Open(PATH),
        SinkCall::Leaf(IDENT, 2),
        SinkCall::Diagnostic(ParseError { msg: "odd".to_string() }),
        SinkCall::Close,
    ];
    let mut sink = Recorder::new();
    sink.finish_node();
    replay(&mut sink, calls.clone());
    let mut want = vec![SinkCall::Close];
    want.extend(calls);
    assert_eq!(sink.into_calls(), want);
}
