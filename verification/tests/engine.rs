use logviewer::{
    process, process_lines, strip_terminator, Color, Condition, Expression, FilterInner,
    LineSource, LogReader, LogView, Operation, Pattern, Record,
};

fn s(text: &str) -> String {
    text.to_owned()
}

fn timestamp_view() -> LogView {
    // On a leading timestamp, bind `time`; otherwise carry the last one over.
    LogView {
        operations: vec![Operation::If {
            condition: Condition::Match {
                expression: Expression::Record,
                pattern: Pattern::new(s("^(?P<time>[0-9TZ:-]+) (?P<message>.*)$")),
            },
            then_ops: vec![],
            else_ops: vec![Operation::SetVar {
                target: s("time"),
                expression: Expression::LastVarValue(s("time")),
            }],
        }],
    }
}

#[test]
fn capture_binding_survives_across_records() {
    let lines = vec![s("2020-01-01T00:00:00 hello"), s("world")];
    let out = process_lines(&timestamp_view(), lines);
    assert_eq!(out.len(), 2);
    assert_eq!(out[0].variables.get(&s("time")), Some(&s("2020-01-01T00:00:00")));
    assert_eq!(out[0].variables.get(&s("message")), Some(&s("hello")));
    assert_eq!(out[1].variables.get(&s("time")), Some(&s("2020-01-01T00:00:00")));
    assert_eq!(out[1].variables.get(&s("message")), None);
}

#[test]
fn capture_map_scenario() {
    let pattern = Pattern::new(s("^(?P<time>[0-9TZ:-]+) (?P<message>.*)$"));
    let m = pattern
        .match_string(&s("2021-05-01T10:00:00Z boot complete"))
        .expect("pattern should match");
    assert_eq!(m.get(&s("time")), Some(&s("2021-05-01T10:00:00Z")));
    assert_eq!(m.get(&s("message")), Some(&s("boot complete")));
    assert_eq!(m.entries().len(), 2);
}

#[test]
fn no_match_yields_none() {
    let pattern = Pattern::new(s("^[0-9]+$"));
    assert!(pattern.match_string(&s("letters")).is_none());
}

#[test]
fn empty_capture_is_not_bound() {
    // The group participates but captures an empty span: no binding.
    let pattern = Pattern::new(s("(?P<a>x?)y"));
    let m = pattern.match_string(&s("y")).expect("pattern should match");
    assert_eq!(m.get(&s("a")), None);
    assert_eq!(m.entries().len(), 0);
}

#[test]
fn invalid_regex_is_rejected() {
    assert!(Pattern::try_new(s("(")).is_none());
    assert!(Pattern::try_new(s("^ok$")).is_some());
}

#[test]
fn pattern_groups_lists_named_groups() {
    let pattern = Pattern::new(s("(?P<a>.)(.)(?P<b>.)"));
    assert_eq!(pattern.groups(), &vec![s("a"), s("b")]);
    assert_eq!(pattern.regex(), &s("(?P<a>.)(.)(?P<b>.)"));
}

#[test]
fn skip_view_drops_every_record() {
    let view = LogView { operations: vec![Operation::SkipRecord] };
    let lines = vec![s("one"), s("two"), s("three")];
    let out = process_lines(&view, lines);
    assert_eq!(out.len(), 0);
}

#[test]
fn skip_view_iterator_ends_normally() {
    let view = LogView { operations: vec![Operation::SkipRecord] };
    let source = LineSource::new(vec![s("one"), s("two")]);
    let mut iterator = process(source, view);
    assert!(iterator.next().is_none());
    // The run is exhausted: later pulls keep returning nothing.
    assert!(iterator.next().is_none());
    assert!(iterator.next().is_none());
}

#[test]
fn iterator_stays_ended_after_end_of_stream() {
    let view = LogView { operations: vec![] };
    let source = LineSource::new(vec![s("only")]);
    let mut iterator = process(source, view);
    let first = iterator.next().expect("one record").expect("no error");
    assert_eq!(first.text, s("only"));
    assert!(iterator.next().is_none());
    assert!(iterator.next().is_none());
}

#[test]
fn strip_terminator_removes_one_ending() {
    assert_eq!(strip_terminator("abc\r\n"), s("abc"));
    assert_eq!(strip_terminator("abc\n"), s("abc"));
    assert_eq!(strip_terminator("abc"), s("abc"));
    assert_eq!(strip_terminator("abc\n\n"), s("abc\n"));
    assert_eq!(strip_terminator("\n"), s(""));
    assert_eq!(strip_terminator("\r\n"), s(""));
    assert_eq!(strip_terminator(""), s(""));
}

#[test]
fn skip_aborts_following_siblings() {
    // A skip nested inside a taken branch aborts the siblings after it at
    // every depth: the later assignment never runs.
    let view = LogView {
        operations: vec![
            Operation::If {
                condition: Condition::Match {
                    expression: Expression::Record,
                    pattern: Pattern::new(s("drop")),
                },
                then_ops: vec![Operation::SkipRecord],
                else_ops: vec![],
            },
            Operation::SetVar { target: s("seen"), expression: Expression::Constant(s("yes")) },
        ],
    };
    let out = process_lines(&view, vec![s("drop me"), s("keep me")]);
    assert_eq!(out.len(), 1);
    assert_eq!(out[0].text, s("keep me"));
    assert_eq!(out[0].variables.get(&s("seen")), Some(&s("yes")));
}

#[test]
fn flat_view_keeps_all_and_only_adds() {
    let view = LogView {
        operations: vec![
            Operation::SetVar { target: s("a"), expression: Expression::Constant(s("1")) },
            Operation::SetVar { target: s("a"), expression: Expression::Constant(s("2")) },
            Operation::ColorBy(Expression::Var(s("a"))),
        ],
    };
    let out = process_lines(&view, vec![s("x"), s("y")]);
    assert_eq!(out.len(), 2);
    for record in &out {
        assert_eq!(record.variables.get(&s("a")), Some(&s("2")));
        assert!(matches!(&record.color, Color::FromValue { value } if value == "2"));
    }
}

#[test]
fn rerunning_engine_is_idempotent() {
    let lines = vec![s("2020-01-01T00:00:00 hello"), s("world"), s("2020-01-02T00:00:00 bye")];
    let out1 = process_lines(&timestamp_view(), lines.clone());
    let out2 = process_lines(&timestamp_view(), lines);
    assert_eq!(out1.len(), out2.len());
    for (a, b) in out1.iter().zip(out2.iter()) {
        assert_eq!(a.text, b.text);
        let ea = a.variables.entries();
        let eb = b.variables.entries();
        assert_eq!(ea.len(), eb.len());
        for (key, value) in ea {
            assert_eq!(b.variables.get(key), Some(value));
        }
        assert!(matches!(
            (&a.color, &b.color),
            (Color::Default, Color::Default)
                | (Color::Fixed { .. }, Color::Fixed { .. })
                | (Color::FromValue { .. }, Color::FromValue { .. })
        ));
    }
}

#[test]
fn evaluate_is_total_and_defaults_to_empty() {
    let filter = FilterInner::default();
    let record = Record::new(s("raw text"));
    assert_eq!(filter.evaluate(&Expression::Var(s("missing")), &record), s(""));
    assert_eq!(filter.evaluate(&Expression::LastVarValue(s("missing")), &record), s(""));
    assert_eq!(filter.evaluate(&Expression::Record, &record), s("raw text"));
    assert_eq!(filter.evaluate(&Expression::Constant(s("k")), &record), s("k"));
}

#[test]
fn set_variable_writes_record_and_memory() {
    let mut filter = FilterInner::default();
    let mut record = Record::new(s("line"));
    filter.set_variable(&mut record, s("name"), s("value"));
    assert_eq!(record.variables.get(&s("name")), Some(&s("value")));
    let probe = Record::new(s("another"));
    assert_eq!(filter.evaluate(&Expression::LastVarValue(s("name")), &probe), s("value"));
}

#[test]
fn apply_operations_reports_skip() {
    let mut filter = FilterInner::default();
    let mut record = Record::new(s("line"));
    let keep = filter.apply_operations(&mut record, &[Operation::SkipRecord]);
    assert!(!keep);
    let mut record2 = Record::new(s("line"));
    let keep2 = filter.apply_operations(
        &mut record2,
        &[Operation::SetVar { target: s("v"), expression: Expression::Record }],
    );
    assert!(keep2);
    assert_eq!(record2.variables.get(&s("v")), Some(&s("line")));
}

#[test]
fn line_source_seek_and_tell() {
    let mut source = LineSource::new(vec![s("alpha"), s("beta")]);
    assert_eq!(source.tell(), 0);
    assert_eq!(source.read_record().unwrap(), Some(s("alpha")));
    assert_eq!(source.tell(), 1);
    assert_eq!(source.read_record().unwrap(), Some(s("beta")));
    assert_eq!(source.read_record().unwrap(), None);
    source.seek(0).unwrap();
    assert_eq!(source.read_record().unwrap(), Some(s("alpha")));
}

#[test]
fn varmap_insert_replaces_and_keeps_keys_unique() {
    let mut map = logviewer::VarMap::new();
    map.insert(s("k"), s("v1"));
    map.insert(s("other"), s("o"));
    map.insert(s("k"), s("v2"));
    assert_eq!(map.get(&s("k")), Some(&s("v2")));
    assert_eq!(map.get(&s("other")), Some(&s("o")));
    assert_eq!(map.get(&s("absent")), None);
    assert_eq!(map.entries().len(), 2);
}
