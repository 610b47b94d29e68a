use readtrace::json::to_json;
use readtrace::read;
use readtrace::run::TraceOp;
use readtrace::session::Action;
use readtrace::session::CounterSubscriber;
use readtrace::session::ReadSpan;
use readtrace::session::TraceError;
use readtrace::stream::TraceReader;
use readtrace::tree::TreeAction;
use readtrace::tree::TreeSpan;

#[test]
fn test_trace() {
    // a traced parse over the bytes 1..=6: one byte, a nested four-byte
    // read, a seek back by one, one byte again
    let sub = CounterSubscriber::new();
    let mut reader = TraceReader::new(vec![1, 2, 3, 4, 5, 6], sub);

    let outer = reader.sub.new_span("read_stuff".to_string());
    reader.sub.enter(outer).unwrap();
    let first = reader.read(1).unwrap();
    assert_eq!(first, vec![1]);

    let inner = reader.sub.new_span("read_nested_stuff".to_string());
    reader.sub.enter(inner).unwrap();
    let word = reader.read(4).unwrap();
    assert_eq!(word, vec![2, 3, 4, 5]);
    reader.sub.exit(inner).unwrap();

    reader.seek(4).unwrap();
    let last = reader.read(1).unwrap();
    assert_eq!(last, vec![5]);
    reader.sub.exit(outer).unwrap();

    let tree = reader.sub.finalize().unwrap();
    assert_eq!(tree.name, "read_stuff");
    assert_eq!(tree.actions.len(), 4);
}

fn nested_scenario_ops() -> Vec<TraceOp> {
    vec![
        TraceOp::Enter("read_stuff".to_string()),
        TraceOp::Read(1),
        TraceOp::Enter("read_nested_stuff".to_string()),
        TraceOp::Read(4),
        TraceOp::Exit,
        TraceOp::Seek(0),
        TraceOp::Read(1),
        TraceOp::Exit,
    ]
}

fn nested_scenario_tree() -> TreeSpan {
    TreeSpan {
        name: "read_stuff".to_string(),
        actions: vec![
            TreeAction::Read(1),
            TreeAction::Span(TreeSpan {
                name: "read_nested_stuff".to_string(),
                actions: vec![TreeAction::Read(4)],
            }),
            TreeAction::Seek(0),
            TreeAction::Read(1),
        ],
    }
}

#[test]
fn scenario_nested_scopes() {
    let tree = read(&nested_scenario_ops()).unwrap();
    assert_eq!(tree, nested_scenario_tree());
}

#[test]
fn scenario_leaf_counts() {
    // four reports and one child scope: four leaves, one nesting point
    let tree = read(&nested_scenario_ops()).unwrap();
    let mut leaves = 0;
    let mut nests = 0;
    for a in &tree.actions {
        match a {
            TreeAction::Read(_) | TreeAction::Seek(_) => leaves += 1,
            TreeAction::Span(sub) => {
                nests += 1;
                for b in &sub.actions {
                    match b {
                        TreeAction::Read(_) | TreeAction::Seek(_) => leaves += 1,
                        TreeAction::Span(_) => nests += 1,
                    }
                }
            },
        }
    }
    assert_eq!(leaves, 4);
    assert_eq!(nests, 1);
}

#[test]
fn report_order_is_kept() {
    let ops = vec![
        TraceOp::Enter("scope".to_string()),
        TraceOp::Read(4),
        TraceOp::Seek(10),
        TraceOp::Exit,
    ];
    let tree = read(&ops).unwrap();
    assert_eq!(tree.actions, vec![TreeAction::Read(4), TreeAction::Seek(10)]);
}

#[test]
fn empty_scope_gives_empty_actions() {
    let ops = vec![TraceOp::Enter("only".to_string()), TraceOp::Exit];
    let tree = read(&ops).unwrap();
    assert_eq!(tree.name, "only");
    assert_eq!(tree.actions, vec![]);
}

#[test]
fn report_without_scope_is_fatal() {
    let mut sub = CounterSubscriber::new();
    assert_eq!(sub.read_action(1), Err(TraceError::NoActiveSpan));
    assert_eq!(sub.seek_action(7), Err(TraceError::NoActiveSpan));
    let ops = vec![TraceOp::Read(1)];
    assert_eq!(read(&ops), Err(TraceError::NoActiveSpan));
}

#[test]
fn stream_without_scope_is_fatal() {
    let sub = CounterSubscriber::new();
    let mut reader = TraceReader::new(vec![9, 9], sub);
    assert_eq!(reader.read(1), Err(TraceError::NoActiveSpan));
    assert_eq!(reader.seek(1), Err(TraceError::NoActiveSpan));
}

#[test]
fn exit_must_match_top() {
    let mut sub = CounterSubscriber::new();
    let a = sub.new_span("a".to_string());
    let b = sub.new_span("b".to_string());
    sub.enter(a).unwrap();
    sub.enter(b).unwrap();
    assert_eq!(sub.exit(a), Err(TraceError::ExitMismatch));
    let mut empty = CounterSubscriber::new();
    let c = empty.new_span("c".to_string());
    assert_eq!(empty.exit(c), Err(TraceError::ExitMismatch));
}

#[test]
fn unknown_and_repeated_scopes_are_refused() {
    let mut sub = CounterSubscriber::new();
    assert_eq!(sub.enter(1), Err(TraceError::UnknownSpan));
    assert_eq!(sub.enter(0), Err(TraceError::UnknownSpan));
    let a = sub.new_span("a".to_string());
    sub.enter(a).unwrap();
    assert_eq!(sub.enter(a), Err(TraceError::AlreadyEntered));
}

#[test]
fn second_root_is_refused() {
    let mut sub = CounterSubscriber::new();
    let a = sub.new_span("a".to_string());
    sub.enter(a).unwrap();
    sub.exit(a).unwrap();
    let b = sub.new_span("b".to_string());
    assert_eq!(sub.enter(b), Err(TraceError::SecondRoot));
    let ops = vec![
        TraceOp::Enter("a".to_string()),
        TraceOp::Exit,
        TraceOp::Enter("b".to_string()),
    ];
    assert_eq!(read(&ops), Err(TraceError::SecondRoot));
}

#[test]
fn finalize_without_root_is_fatal() {
    let sub = CounterSubscriber::new();
    assert_eq!(sub.finalize(), Err(TraceError::NoRoot));
    let ops: Vec<TraceOp> = vec![];
    assert_eq!(read(&ops), Err(TraceError::NoRoot));
}

#[test]
fn missing_child_is_reported() {
    let parent = ReadSpan {
        name: "p".to_string(),
        actions: vec![Action::Span(2)],
    };
    let mut registry = vec![Some(parent), None];
    assert_eq!(
        TreeSpan::into_tree(1, &mut registry),
        Err(TraceError::MissingChild)
    );
    let mut empty: Vec<Option<ReadSpan>> = vec![];
    assert_eq!(
        TreeSpan::into_tree(3, &mut empty),
        Err(TraceError::UnknownSpan)
    );
}

#[test]
fn current_scope_follows_the_stack() {
    let mut sub = CounterSubscriber::new();
    assert_eq!(sub.current_span(), None);
    let a = sub.new_span("a".to_string());
    sub.enter(a).unwrap();
    let b = sub.new_span("b".to_string());
    sub.enter(b).unwrap();
    assert_eq!(sub.current_span(), Some(b));
    sub.exit(b).unwrap();
    assert_eq!(sub.current_span(), Some(a));
}

#[test]
fn serialized_form_is_exact() {
    let tree = read(&nested_scenario_ops()).unwrap();
    let json = to_json(&tree);
    assert_eq!(
        json,
        "{\"name\":\"read_stuff\",\"actions\":[{\"Read\":1},{\"Span\":{\"name\":\"read_nested_stuff\",\"actions\":[{\"Read\":4}]}},{\"Seek\":0},{\"Read\":1}]}"
    );
}

#[test]
fn serialized_numbers_use_all_digits() {
    let ops = vec![
        TraceOp::Enter("n".to_string()),
        TraceOp::Read(1023),
        TraceOp::Seek(0),
        TraceOp::Exit,
    ];
    let tree = read(&ops).unwrap();
    let json = to_json(&tree);
    assert_eq!(
        json,
        "{\"name\":\"n\",\"actions\":[{\"Read\":1023},{\"Seek\":0}]}"
    );
}

#[test]
fn short_reads_at_end_of_stream() {
    let sub = CounterSubscriber::new();
    let mut reader = TraceReader::new(vec![7, 8], sub);
    let s = reader.sub.new_span("s".to_string());
    reader.sub.enter(s).unwrap();
    assert_eq!(reader.read(5).unwrap(), vec![7, 8]);
    assert_eq!(reader.read(1).unwrap(), vec![]);
    reader.seek(9).unwrap();
    assert_eq!(reader.read(1).unwrap(), vec![]);
    reader.sub.exit(s).unwrap();
    let tree = reader.sub.finalize().unwrap();
    assert_eq!(
        tree.actions,
        vec![
            TreeAction::Read(2),
            TreeAction::Read(0),
            TreeAction::Seek(9),
            TreeAction::Read(0),
        ]
    );
}
