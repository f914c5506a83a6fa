use logviewer::{process, Condition, Expression, LineSource, LogView, Operation, Pattern};

fn get_view() -> LogView {
    LogView {
        operations: vec![
            // If: has timestamp
            Operation::If {
                condition: Condition::Match {
                    expression: Expression::Record,
                    pattern: Pattern::new("^(?P<time>[0-9TZ:-]+) (?P<message>.*)$".to_owned()),
                },
                // Hash timestamp, then
                then_ops: vec![
                    // If, message is HTTP access
                    Operation::If {
                        condition: Condition::Match {
                            expression: Expression::Var("message".to_owned()),
                            pattern: Pattern::new(
                                "^(?P<client>[0-9]+(\\.[0-9]+){3}) ([^ ]+ ){2}\\[.+\\] \"(?P<vhost>[^\"]+)\"".to_owned(),
                            ),
                        },
                        // HTTP access, then
                        then_ops: vec![
                            Operation::SetVar {
                                target: "service".to_owned(),
                                expression: Expression::Constant("frontend".to_owned()),
                            },
                        ],
                        // HTTP access, else
                        else_ops: vec![
                            // If, message has service name
                            Operation::If {
                                condition: Condition::Match {
                                    expression: Expression::Var("message".to_owned()),
                                    pattern: Pattern::new(
                                        "^service=(?P<service>[^ ]+) (?P<message>.*)$".to_owned(),
                                    ),
                                },
                                then_ops: vec![],
                                else_ops: vec![],
                            },
                        ],
                    },
                    Operation::ColorBy(Expression::Var("service".to_owned())),
                ],
                // Has timestamp, else
                else_ops: vec![
                    Operation::SetVar {
                        target: "time".to_owned(),
                        expression: Expression::LastVarValue("time".to_owned()),
                    },
                ],
            },
            // If: is error
            Operation::If {
                condition: Condition::Match {
                    expression: Expression::Record,
                    pattern: Pattern::new("\\bERROR\\b".to_owned()),
                },
                // Is error, then
                then_ops: vec![
                    Operation::SetVar {
                        target: "error".to_owned(),
                        expression: Expression::Constant("".to_owned()),
                    },
                ],
                // Is error, else
                else_ops: vec![
                    Operation::If {
                        condition: Condition::Match {
                            expression: Expression::Record,
                            pattern: Pattern::new("\\bDEBUG\\b".to_owned()),
                        },
                        then_ops: vec![Operation::SkipRecord],
                        else_ops: vec![],
                    },
                ],
            },
        ],
    }
}

#[test]
fn test_print() {
    let view = get_view();
    println!("{}", view.debug_string());
}

#[test]
fn test_process() {
    let lines = vec![
        "2020-01-01T00:00:00 service=db starting up".to_owned(),
        "ready".to_owned(),
        "2020-01-01T00:00:02 DEBUG probing".to_owned(),
        "2020-01-01T00:00:03 ERROR it broke".to_owned(),
    ];
    let file = LineSource::new(lines);
    let view = get_view();

    // Process records
    let mut iterator = process(file, view);
    while let Some(record) = iterator.next() {
        let record = record.expect("Error during processing");
        println!("{}", record.text);
        for (key, value) in record.variables.entries() {
            println!("    {} = {:?}", key, value);
        }
        println!("");
    }
}
