use super_enum::attr::HelperAttr;
use super_enum::token::{Delim, Tok};

fn id(s: &str) -> Tok {
    Tok::Ident(s.to_string())
}

fn punct(c: char) -> Tok {
    Tok::Punct(c)
}

fn lit(s: &str) -> Tok {
    Tok::Lit(s.to_string())
}

fn open(d: Delim) -> Tok {
    Tok::Open(d)
}

fn close(d: Delim) -> Tok {
    Tok::Close(d)
}

#[test]
fn test_parse_helper_attr_aggregate() {
    assert!(matches!(
        HelperAttr::parse(&vec![id("aggregate"), open(Delim::Paren), close(Delim::Paren)])
            .unwrap(),
        HelperAttr::Aggregate(_)
    ));
    assert!(matches!(
        HelperAttr::parse(&vec![
            id("aggregate"),
            open(Delim::Paren),
            id("an_ident"),
            close(Delim::Paren),
        ])
        .unwrap(),
        HelperAttr::Aggregate(_)
    ));
    assert!(matches!(
        HelperAttr::parse(&vec![
            id("aggregate"),
            open(Delim::Paren),
            id("some"),
            punct(':'),
            punct(':'),
            id("Long"),
            punct(':'),
            punct(':'),
            id("complex_path"),
            punct(','),
            id("another"),
            punct(':'),
            punct(':'),
            id("Thing"),
            punct(','),
            id("something_else"),
            close(Delim::Paren),
        ])
        .unwrap(),
        HelperAttr::Aggregate(_)
    ));
    assert!(HelperAttr::parse(&vec![id("aggregate")]).is_err());
    assert!(HelperAttr::parse(&vec![
        id("aggregate"),
        open(Delim::Bracket),
        id("test"),
        close(Delim::Bracket),
    ])
    .is_err());
    assert!(matches!(
        HelperAttr::parse(&vec![
            id("aggregates"),
            open(Delim::Paren),
            id("test"),
            close(Delim::Paren),
        ])
        .unwrap(),
        HelperAttr::Regular(_)
    ));
}

#[test]
fn test_parse_helper_attr_fields() {
    assert!(matches!(
        HelperAttr::parse(&vec![id("fields"), open(Delim::Paren), close(Delim::Paren)]).unwrap(),
        HelperAttr::Fields(_)
    ));
    assert!(matches!(
        HelperAttr::parse(&vec![
            id("fields"),
            open(Delim::Paren),
            id("something"),
            punct(':'),
            id("u32"),
            close(Delim::Paren),
        ])
        .unwrap(),
        HelperAttr::Fields(_)
    ));
    assert!(matches!(
        HelperAttr::parse(&vec![
            id("fields"),
            open(Delim::Paren),
            id("a"),
            punct(':'),
            id("usize"),
            punct(','),
            id("b"),
            punct(':'),
            id("Option"),
            punct('<'),
            id("u32"),
            punct('>'),
            punct(','),
            id("c"),
            punct(':'),
            id("bool"),
            close(Delim::Paren),
        ])
        .unwrap(),
        HelperAttr::Fields(_)
    ));
    assert!(matches!(
        HelperAttr::parse(&vec![id("field")]).unwrap(),
        HelperAttr::Regular(_)
    ));
    assert!(HelperAttr::parse(&vec![
        id("fields"),
        open(Delim::Bracket),
        id("foo"),
        punct(':'),
        id("Bar"),
        close(Delim::Bracket),
    ])
    .is_err());
    assert!(matches!(
        HelperAttr::parse(&vec![
            id("field"),
            open(Delim::Paren),
            id("test"),
            close(Delim::Paren),
        ])
        .unwrap(),
        HelperAttr::Regular(_)
    ));
}

#[test]
fn test_parse_helper_regular() {
    assert!(matches!(
        HelperAttr::parse(&vec![id("something")]).unwrap(),
        HelperAttr::Regular(_)
    ));
    assert!(matches!(
        HelperAttr::parse(&vec![
            id("cfg"),
            open(Delim::Paren),
            id("test"),
            close(Delim::Paren),
        ])
        .unwrap(),
        HelperAttr::Regular(_)
    ));
    assert!(matches!(
        HelperAttr::parse(&vec![id("doc"), punct('='), lit("\"hello\"")]).unwrap(),
        HelperAttr::Regular(_)
    ));
}

#[test]
fn regular_round_trip_is_verbatim() {
    // Regular pass-through is idempotent: parse then re-emit reproduces the
    // original meta tokens, wrapped as a full `#[...]` attribute.
    let cases: Vec<Vec<Tok>> = vec![
        vec![id("cfg"), open(Delim::Paren), id("test"), close(Delim::Paren)],
        vec![id("doc"), punct('='), lit("\"hello\"")],
        vec![id("something")],
        vec![
            id("serde"),
            punct(':'),
            punct(':'),
            id("skip"),
            open(Delim::Paren),
            id("always"),
            close(Delim::Paren),
        ],
    ];
    for meta in cases {
        let parsed = HelperAttr::parse(&meta).unwrap();
        assert!(matches!(parsed, HelperAttr::Regular(_)));
        let mut expected = vec![punct('#'), open(Delim::Bracket)];
        expected.extend(meta.iter().cloned());
        expected.push(close(Delim::Bracket));
        assert_eq!(parsed.to_tokens(), expected);
    }
}

#[test]
fn aggregate_list_round_trip_keeps_elements_in_order() {
    // Re-emitting a parsed aggregate list reproduces the exact elements
    // parsed, order-preserving, dropping only a trailing comma.
    let meta = vec![
        id("aggregate"),
        open(Delim::Paren),
        id("some"),
        punct(':'),
        punct(':'),
        id("Thing"),
        punct(','),
        id("other"),
        punct(','),
        close(Delim::Paren),
    ];
    let parsed = HelperAttr::parse(&meta).unwrap();
    let expected = vec![
        punct('#'),
        open(Delim::Bracket),
        id("aggregate"),
        open(Delim::Paren),
        id("some"),
        punct(':'),
        punct(':'),
        id("Thing"),
        punct(','),
        id("other"),
        close(Delim::Paren),
        close(Delim::Bracket),
    ];
    assert_eq!(parsed.to_tokens(), expected);
}

#[test]
fn fields_list_round_trip_keeps_fields_in_order() {
    let meta = vec![
        id("fields"),
        open(Delim::Paren),
        id("a"),
        punct(':'),
        id("Option"),
        punct('<'),
        id("u32"),
        punct('>'),
        punct(','),
        id("b"),
        punct(':'),
        open(Delim::Paren),
        id("u8"),
        punct(','),
        id("u16"),
        close(Delim::Paren),
        close(Delim::Paren),
    ];
    let parsed = HelperAttr::parse(&meta).unwrap();
    let mut expected = vec![punct('#'), open(Delim::Bracket)];
    expected.extend(meta.iter().cloned());
    expected.push(close(Delim::Bracket));
    assert_eq!(parsed.to_tokens(), expected);
}

#[test]
fn aggregate_leading_colons_and_empty_list() {
    let parsed = HelperAttr::parse(&vec![
        id("aggregate"),
        open(Delim::Paren),
        punct(':'),
        punct(':'),
        id("root"),
        punct(':'),
        punct(':'),
        id("Thing"),
        close(Delim::Paren),
    ])
    .unwrap();
    match parsed {
        HelperAttr::Aggregate(ps) => {
            assert_eq!(ps.len(), 1);
            assert!(ps[0].leading_colon);
            assert_eq!(ps[0].segments, vec!["root".to_string(), "Thing".to_string()]);
        }
        _ => panic!("expected an aggregate list"),
    }
    match HelperAttr::parse(&vec![id("aggregate"), open(Delim::Paren), close(Delim::Paren)])
        .unwrap()
    {
        HelperAttr::Aggregate(ps) => assert_eq!(ps.len(), 0),
        _ => panic!("expected an aggregate list"),
    }
}

#[test]
fn malformed_lists_are_hard_failures() {
    // Keyword attributes never fall back to regular on a bad argument list.
    assert!(HelperAttr::parse(&vec![
        id("aggregate"),
        open(Delim::Paren),
        punct(','),
        close(Delim::Paren),
    ])
    .is_err());
    assert!(HelperAttr::parse(&vec![
        id("fields"),
        open(Delim::Paren),
        id("name_without_type"),
        close(Delim::Paren),
    ])
    .is_err());
    assert!(HelperAttr::parse(&vec![
        id("fields"),
        open(Delim::Paren),
        id("a"),
        punct(':'),
        punct(','),
        close(Delim::Paren),
    ])
    .is_err());
    // An empty attribute, or one led by punctuation, has no classification.
    assert!(HelperAttr::parse(&vec![]).is_err());
    assert!(HelperAttr::parse(&vec![punct('='), id("x")]).is_err());
}
