use super_enum::attr::HelperAttr;
use super_enum::token::{Delim, Tok};

fn id(s: &str) -> Tok {
    Tok::Ident(s.to_string())
}

fn punct(c: char) -> Tok {
    Tok::Punct(c)
}

fn lit(s: &str) -> Tok {
    Tok::Lit(s.to_string())
}

fn open(d: Delim) -> Tok {
    Tok::Open(d)
}

fn close(d: Delim) -> Tok {
    Tok::Close(d)
}

#[test]
fn lib_test_parse_helper_attr_aggregate() {
    assert!(matches!(
        HelperAttr::parse(&vec![id("aggregate"), open(Delim::Paren), close(Delim::Paren)])
            .unwrap(),
        HelperAttr::Aggregate(_)
    ));
    assert!(matches!(
        HelperAttr::parse(&vec![
            id("aggregate"),
            open(Delim::Paren),
            id("an_ident"),
            close(Delim::Paren),
        ])
        .unwrap(),
        HelperAttr::Aggregate(_)
    ));
    assert!(matches!(
        HelperAttr::parse(&vec![
            id("aggregate"),
            open(Delim::Paren),
            id("some"),
            punct(':'),
            punct(':'),
            id("Long"),
            punct(':'),
            punct(':'),
            id("complex_path"),
            punct(','),
            id("another"),
            punct(':'),
            punct(':'),
            id("Thing"),
            punct(','),
            id("something_else"),
            close(Delim::Paren),
        ])
        .unwrap(),
        HelperAttr::Aggregate(_)
    ));
    assert!(HelperAttr::parse(&vec![id("aggregate")]).is_err());
    assert!(HelperAttr::parse(&vec![
        id("aggregate"),
        open(Delim::Bracket),
        id("test"),
        close(Delim::Bracket),
    ])
    .is_err());
    assert!(matches!(
        HelperAttr::parse(&vec![
            id("aggregates"),
            open(Delim::Paren),
            id("test"),
            close(Delim::Paren),
        ])
        .unwrap(),
        HelperAttr::Regular(_)
    ));
}

#[test]
fn lib_test_parse_helper_attr_fields() {
    assert!(matches!(
        HelperAttr::parse(&vec![id("fields"), open(Delim::Paren), close(Delim::Paren)]).unwrap(),
        HelperAttr::Fields(_)
    ));
    assert!(matches!(
        HelperAttr::parse(&vec![
            id("fields"),
            open(Delim::Paren),
            id("something"),
            punct(':'),
            id("u32"),
            close(Delim::Paren),
        ])
        .unwrap(),
        HelperAttr::Fields(_)
    ));
    assert!(matches!(
        HelperAttr::parse(&vec![
            id("fields"),
            open(Delim::Paren),
            id("a"),
            punct(':'),
            id("usize"),
            punct(','),
            id("b"),
            punct(':'),
            id("Option"),
            punct('<'),
            id("u32"),
            punct('>'),
            punct(','),
            id("c"),
            punct(':'),
            id("bool"),
            close(Delim::Paren),
        ])
        .unwrap(),
        HelperAttr::Fields(_)
    ));
    assert!(matches!(
        HelperAttr::parse(&vec![id("field")]).unwrap(),
        HelperAttr::Regular(_)
    ));
    assert!(HelperAttr::parse(&vec![
        id("fields"),
        open(Delim::Bracket),
        id("foo"),
        punct(':'),
        id("Bar"),
        close(Delim::Bracket),
    ])
    .is_err());
    assert!(matches!(
        HelperAttr::parse(&vec![
            id("field"),
            open(Delim::Paren),
            id("test"),
            close(Delim::Paren),
        ])
        .unwrap(),
        HelperAttr::Regular(_)
    ));
}

#[test]
fn lib_test_parse_helper_regular() {
    assert!(matches!(
        HelperAttr::parse(&vec![id("something")]).unwrap(),
        HelperAttr::Regular(_)
    ));
    assert!(matches!(
        HelperAttr::parse(&vec![
            id("cfg"),
            open(Delim::Paren),
            id("test"),
            close(Delim::Paren),
        ])
        .unwrap(),
        HelperAttr::Regular(_)
    ));
    assert!(matches!(
        HelperAttr::parse(&vec![id("doc"), punct('='), lit("\"hello\"")]).unwrap(),
        HelperAttr::Regular(_)
    ));
}
