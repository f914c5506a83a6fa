use logviewer::{
    process_lines, read_view, Condition, Expression, JsonValue, LogView, Operation, Pattern,
};

fn s(text: &str) -> String {
    text.to_owned()
}

fn jstr(v: &str) -> JsonValue {
    JsonValue::Str(v.to_owned())
}

fn jobj(entries: Vec<(&str, JsonValue)>) -> JsonValue {
    JsonValue::Object(entries.into_iter().map(|(k, v)| (k.to_owned(), v)).collect())
}

fn jarr(values: Vec<JsonValue>) -> JsonValue {
    JsonValue::Array(values)
}

#[test]
fn parse_simple_view() {
    let json = jobj(vec![(
        "operations",
        jarr(vec![
            jobj(vec![(
                "set",
                jobj(vec![
                    ("target", jstr("x")),
                    ("expression", jobj(vec![("constant", jstr("hello"))])),
                ]),
            )]),
            jobj(vec![("skip", jobj(vec![]))]),
        ]),
    )]);
    let view = read_view(&json).expect("well-formed view");
    assert_eq!(view.debug_string(), "View [\n  SET x = \"hello\"\n  SKIP\n]");
}

#[test]
fn parse_if_with_defaults() {
    // `then` and `else` default to empty; an empty then-branch renders as
    // a literal NOTHING line.
    let json = jobj(vec![(
        "operations",
        jarr(vec![jobj(vec![(
            "if",
            jobj(vec![(
                "match",
                jobj(vec![
                    ("expression", jobj(vec![("record", jobj(vec![]))])),
                    ("pattern", jstr("^a")),
                ]),
            )]),
        )])]),
    )]);
    let view = read_view(&json).expect("well-formed view");
    assert_eq!(view.debug_string(), "View [\n  IF record match \"^a\"\n    NOTHING\n]");
}

#[test]
fn parse_set_defaults_to_empty_constant() {
    let json = jobj(vec![(
        "operations",
        jarr(vec![jobj(vec![("set", jobj(vec![("target", jstr("x"))]))])]),
    )]);
    let view = read_view(&json).expect("well-formed view");
    assert_eq!(view.debug_string(), "View [\n  SET x = \"\"\n]");
}

#[test]
fn parsed_view_runs_like_a_built_one() {
    let json = jobj(vec![(
        "operations",
        jarr(vec![jobj(vec![(
            "if",
            jobj(vec![
                (
                    "match",
                    jobj(vec![
                        ("expression", jobj(vec![("record", jobj(vec![]))])),
                        ("pattern", jstr("^(?P<time>[0-9TZ:-]+) (?P<message>.*)$")),
                    ]),
                ),
                (
                    "else",
                    jarr(vec![jobj(vec![(
                        "set",
                        jobj(vec![
                            ("target", jstr("time")),
                            ("expression", jobj(vec![("lastVariableValue", jstr("time"))])),
                        ]),
                    )])]),
                ),
            ]),
        )])]),
    )]);
    let view = read_view(&json).expect("well-formed view");
    let out = process_lines(&view, vec![s("2020-01-01T00:00:00 hello"), s("world")]);
    assert_eq!(out.len(), 2);
    assert_eq!(out[1].variables.get(&s("time")), Some(&s("2020-01-01T00:00:00")));
}

#[test]
fn view_level_errors() {
    assert_eq!(read_view(&jstr("x")).unwrap_err(), "Expected object");
    assert_eq!(
        read_view(&jobj(vec![("operations", jarr(vec![])), ("extra", jstr("y"))])).unwrap_err(),
        "Unexpected keys"
    );
    assert_eq!(read_view(&jobj(vec![])).unwrap_err(), "Expected key \"operations\"");
    assert_eq!(
        read_view(&jobj(vec![("operations", jstr("not an array"))])).unwrap_err(),
        "Expected array"
    );
}

fn view_of(op: JsonValue) -> JsonValue {
    jobj(vec![("operations", jarr(vec![op]))])
}

fn expr() -> (&'static str, JsonValue) {
    ("expression", jobj(vec![("record", jobj(vec![]))]))
}

#[test]
fn operation_level_errors() {
    assert_eq!(read_view(&view_of(jstr("x"))).unwrap_err(), "Expected object");
    assert_eq!(read_view(&view_of(jobj(vec![]))).unwrap_err(), "Invalid operation");
    assert_eq!(
        read_view(&view_of(jobj(vec![("set", jobj(vec![])), ("skip", jobj(vec![]))])))
            .unwrap_err(),
        "Invalid operation"
    );
    assert_eq!(
        read_view(&view_of(jobj(vec![("colorBy", jstr("x"))]))).unwrap_err(),
        "Expected object"
    );
    assert_eq!(
        read_view(&view_of(jobj(vec![("frobnicate", jobj(vec![]))]))).unwrap_err(),
        "Unknown operation"
    );
    assert_eq!(
        read_view(&view_of(jobj(vec![("skip", jobj(vec![("x", jstr("y"))]))]))).unwrap_err(),
        "Unexpected keys for skip"
    );
    assert_eq!(
        read_view(&view_of(jobj(vec![("set", jobj(vec![]))]))).unwrap_err(),
        "Expected string target for set"
    );
    assert_eq!(
        read_view(&view_of(jobj(vec![(
            "set",
            jobj(vec![("target", jstr("x")), ("expression", jstr("y"))]),
        )])))
        .unwrap_err(),
        "Expected object expression for set"
    );
    assert_eq!(
        read_view(&view_of(jobj(vec![(
            "set",
            jobj(vec![("target", jstr("x")), ("unknown", jobj(vec![]))]),
        )])))
        .unwrap_err(),
        "Unexpected keys in set"
    );
}

#[test]
fn if_level_errors() {
    assert_eq!(
        read_view(&view_of(jobj(vec![("if", jobj(vec![]))]))).unwrap_err(),
        "Unknown condition for If"
    );
    assert_eq!(
        read_view(&view_of(jobj(vec![("if", jobj(vec![("match", jstr("x"))]))]))).unwrap_err(),
        "Expected object for match"
    );
    assert_eq!(
        read_view(&view_of(jobj(vec![("if", jobj(vec![("match", jobj(vec![]))]))])))
            .unwrap_err(),
        "Expected object expression in match"
    );
    assert_eq!(
        read_view(&view_of(jobj(vec![(
            "if",
            jobj(vec![("match", jobj(vec![expr()]))]),
        )])))
        .unwrap_err(),
        "Missing pattern in match"
    );
    assert_eq!(
        read_view(&view_of(jobj(vec![(
            "if",
            jobj(vec![("match", jobj(vec![expr(), ("pattern", jobj(vec![]))]))]),
        )])))
        .unwrap_err(),
        "Expected string for pattern"
    );
    assert_eq!(
        read_view(&view_of(jobj(vec![(
            "if",
            jobj(vec![("match", jobj(vec![expr(), ("pattern", jstr("("))]))]),
        )])))
        .unwrap_err(),
        "Invalid regex"
    );
    assert_eq!(
        read_view(&view_of(jobj(vec![(
            "if",
            jobj(vec![(
                "match",
                jobj(vec![expr(), ("pattern", jstr("^a")), ("stray", jstr("y"))]),
            )]),
        )])))
        .unwrap_err(),
        "Unexpected keys in match"
    );
    assert_eq!(
        read_view(&view_of(jobj(vec![(
            "if",
            jobj(vec![
                ("match", jobj(vec![expr(), ("pattern", jstr("^a"))])),
                ("then", jstr("not an array")),
            ]),
        )])))
        .unwrap_err(),
        "Expected array for then operations"
    );
    assert_eq!(
        read_view(&view_of(jobj(vec![(
            "if",
            jobj(vec![
                ("match", jobj(vec![expr(), ("pattern", jstr("^a"))])),
                ("else", jstr("not an array")),
            ]),
        )])))
        .unwrap_err(),
        "Expected array for else operations"
    );
}

#[test]
fn expression_level_errors() {
    let set_with = |expr: JsonValue| {
        view_of(jobj(vec![(
            "set",
            jobj(vec![("target", jstr("x")), ("expression", expr)]),
        )]))
    };
    assert_eq!(read_view(&set_with(jobj(vec![]))).unwrap_err(), "Invalid expression");
    assert_eq!(
        read_view(&set_with(jobj(vec![("record", jobj(vec![]))]))).is_ok(),
        true
    );
    assert_eq!(
        read_view(&set_with(jobj(vec![("record", jobj(vec![("x", jstr("y"))]))]))).unwrap_err(),
        "Unexpected keys for record"
    );
    assert_eq!(
        read_view(&set_with(jobj(vec![("record", jstr("y"))]))).unwrap_err(),
        "Expected object for record"
    );
    assert_eq!(
        read_view(&set_with(jobj(vec![("variable", jobj(vec![]))]))).unwrap_err(),
        "Expected string for variable"
    );
    assert_eq!(
        read_view(&set_with(jobj(vec![("lastVariableValue", jobj(vec![]))]))).unwrap_err(),
        "Expected string for lastVariableValue"
    );
    assert_eq!(
        read_view(&set_with(jobj(vec![("constant", jobj(vec![]))]))).unwrap_err(),
        "Expected string for constant"
    );
    assert_eq!(
        read_view(&set_with(jobj(vec![("mystery", jstr("y"))]))).unwrap_err(),
        "Unknown expression"
    );
}

#[test]
fn expression_print_renders_each_variant() {
    let mut out = String::new();
    Expression::Var(s("foo")).print(&mut out);
    assert_eq!(out, "variable foo");
    let mut out = String::new();
    Expression::Record.print(&mut out);
    assert_eq!(out, "record");
    let mut out = String::new();
    Expression::LastVarValue(s("t")).print(&mut out);
    assert_eq!(out, "last value of variable t");
    let mut out = String::new();
    Expression::Constant(s("bar")).print(&mut out);
    assert_eq!(out, "\"bar\"");
}

#[test]
fn idt_indents_two_spaces_per_level() {
    let mut out = String::new();
    logviewer::filters::idt(&mut out, 3);
    assert_eq!(out, "      ");
}

#[test]
fn elif_collapses_sole_nested_if() {
    let view = LogView {
        operations: vec![
            Operation::If {
                condition: Condition::Match {
                    expression: Expression::Record,
                    pattern: Pattern::new(s("a")),
                },
                then_ops: vec![Operation::SetVar {
                    target: s("x"),
                    expression: Expression::Constant(s("1")),
                }],
                else_ops: vec![Operation::If {
                    condition: Condition::Match {
                        expression: Expression::Record,
                        pattern: Pattern::new(s("b")),
                    },
                    then_ops: vec![],
                    else_ops: vec![Operation::SkipRecord],
                }],
            },
            Operation::ColorBy(Expression::Var(s("c"))),
        ],
    };
    let rendered = view.debug_string();
    assert_eq!(
        rendered,
        "View [\n  IF record match \"a\"\n    SET x = \"1\"\n  ELIF record match \"b\"\n    NOTHING\n  ELSE\n    SKIP\n  COLOR-BY variable c\n]"
    );
    assert!(rendered.contains("ELIF"));
    assert!(!rendered.contains("ELSE\n    IF"));
}

#[test]
fn else_block_renders_when_not_sole_if() {
    let view = LogView {
        operations: vec![Operation::If {
            condition: Condition::Match {
                expression: Expression::Record,
                pattern: Pattern::new(s("a")),
            },
            then_ops: vec![],
            else_ops: vec![Operation::SkipRecord],
        }],
    };
    let rendered = view.debug_string();
    assert_eq!(
        rendered,
        "View [\n  IF record match \"a\"\n    NOTHING\n  ELSE\n    SKIP\n]"
    );
}
