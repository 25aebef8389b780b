use puffin::query::{ParseError, QueryNode};

#[test]
fn query_parsing() {
    assert_eq!(QueryNode::new("Test"), Ok(QueryNode::Term("Test".into())));

    assert_eq!(
        QueryNode::new("Test AND Test2"),
        Ok(QueryNode::And {
            lhs: Box::new(QueryNode::Term("Test".into())),
            rhs: Box::new(QueryNode::Term("Test2".into()))
        })
    );

    assert_eq!(
        QueryNode::new("\"Test Me\""),
        Ok(QueryNode::Term("Test Me".into()))
    );

    assert_eq!(QueryNode::new("/re*/"), Ok(QueryNode::Regex("re*".into())));

    assert_eq!(
        QueryNode::new("(Foo AND Bar) OR (Baz AND Buz)"),
        Ok(QueryNode::Or {
            lhs: Box::new(QueryNode::And {
                lhs: Box::new(QueryNode::Term("Foo".into())),
                rhs: Box::new(QueryNode::Term("Bar".into()))
            }),
            rhs: Box::new(QueryNode::And {
                lhs: Box::new(QueryNode::Term("Baz".into())),
                rhs: Box::new(QueryNode::Term("Buz".into()))
            }),
        })
    );
}

#[test]
fn operators_group_left_and_not_binds_tighter() {
    let t = |s: &str| Box::new(QueryNode::Term(s.into()));
    assert_eq!(
        QueryNode::new("a OR b AND c"),
        Ok(QueryNode::And {
            lhs: Box::new(QueryNode::Or { lhs: t("a"), rhs: t("b") }),
            rhs: t("c"),
        })
    );
    assert_eq!(
        QueryNode::new("NOT a AND b"),
        Ok(QueryNode::And {
            lhs: Box::new(QueryNode::Not(t("a"))),
            rhs: t("b"),
        })
    );
    assert_eq!(
        QueryNode::new("NOT NOT a"),
        Ok(QueryNode::Not(Box::new(QueryNode::Not(t("a")))))
    );
}

#[test]
fn filters_parse() {
    assert_eq!(QueryNode::new("lang:go"), Ok(QueryNode::Lang("go".into())));
    assert_eq!(
        QueryNode::new("file:src/main.rs AND x"),
        Ok(QueryNode::And {
            lhs: Box::new(QueryNode::File("src/main.rs".into())),
            rhs: Box::new(QueryNode::Term("x".into())),
        })
    );
    assert_eq!(QueryNode::new("ANDROID"), Ok(QueryNode::Term("ANDROID".into())));
}

#[test]
fn malformed_queries_fail() {
    assert_eq!(QueryNode::new("(Foo AND Bar"), Err(ParseError::Syntax));
    assert_eq!(QueryNode::new("Foo AND"), Err(ParseError::Syntax));
    assert_eq!(QueryNode::new("AND Foo"), Err(ParseError::Syntax));
    assert_eq!(QueryNode::new("Foo)"), Err(ParseError::Syntax));
    assert_eq!(QueryNode::new("Foo Bar"), Err(ParseError::Syntax));
    assert_eq!(QueryNode::new(""), Err(ParseError::Syntax));
    assert_eq!(QueryNode::new("\"Foo"), Err(ParseError::Lexical));
    assert_eq!(QueryNode::new("/re"), Err(ParseError::Lexical));
    assert_eq!(QueryNode::new("lang:"), Err(ParseError::Lexical));
}
