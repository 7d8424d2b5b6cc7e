use super_enum::attr::TypePath;
use super_enum::decl::EnumDecl;
use super_enum::driver::{aggregate, declare, fields, merge_source, super_enum, ProcError};
use super_enum::registry::Registry;
use super_enum::token::{Delim, Tok};

fn id(s: &str) -> Tok {
    Tok::Ident(s.to_string())
}

fn punct(c: char) -> Tok {
    Tok::Punct(c)
}

fn open(d: Delim) -> Tok {
    Tok::Open(d)
}

fn close(d: Delim) -> Tok {
    Tok::Close(d)
}

/// `enum Other { Red, Blue }`
fn other_decl() -> Vec<Tok> {
    vec![
        id("enum"),
        id("Other"),
        open(Delim::Brace),
        id("Red"),
        punct(','),
        id("Blue"),
        close(Delim::Brace),
    ]
}

/// `#[aggregate(MyEnum, Other)] enum Fizz { One, Two, Three }`
fn fizz_decl() -> Vec<Tok> {
    vec![
        punct('#'),
        open(Delim::Bracket),
        id("aggregate"),
        open(Delim::Paren),
        id("MyEnum"),
        punct(','),
        id("Other"),
        close(Delim::Paren),
        close(Delim::Bracket),
        id("enum"),
        id("Fizz"),
        open(Delim::Brace),
        id("One"),
        punct(','),
        id("Two"),
        punct(','),
        id("Three"),
        close(Delim::Brace),
    ]
}

/// `#[fields(my_field: u32)] #[aggregate(Fizz)] enum MyEnum { None, Other(i32, bool) }`
fn my_enum_decl() -> Vec<Tok> {
    vec![
        punct('#'),
        open(Delim::Bracket),
        id("fields"),
        open(Delim::Paren),
        id("my_field"),
        punct(':'),
        id("u32"),
        close(Delim::Paren),
        close(Delim::Bracket),
        punct('#'),
        open(Delim::Bracket),
        id("aggregate"),
        open(Delim::Paren),
        id("Fizz"),
        close(Delim::Paren),
        close(Delim::Bracket),
        id("enum"),
        id("MyEnum"),
        open(Delim::Brace),
        id("None"),
        punct(','),
        id("Other"),
        open(Delim::Paren),
        id("i32"),
        punct(','),
        id("bool"),
        close(Delim::Paren),
        close(Delim::Brace),
    ]
}

fn variant_names(tokens: &Vec<Tok>) -> Vec<String> {
    EnumDecl::parse(tokens)
        .unwrap()
        .variants
        .iter()
        .map(|v| v.name.clone())
        .collect()
}

#[test]
fn test_mutual_aggregation() {
    let none: Vec<Tok> = vec![];
    let mut reg = Registry::new();
    // Phase one: every declaration's skeleton is registered, so mutual
    // references resolve regardless of processing order.
    declare(&none, &other_decl(), &mut reg).unwrap();
    declare(&none, &fizz_decl(), &mut reg).unwrap();
    declare(&none, &my_enum_decl(), &mut reg).unwrap();
    // Phase two: process in declaration order.
    let _other = super_enum(&none, &other_decl(), &mut reg).unwrap();
    let fizz = super_enum(&none, &fizz_decl(), &mut reg).unwrap();
    let my_enum = super_enum(&none, &my_enum_decl(), &mut reg).unwrap();

    let fizz_names = variant_names(&fizz);
    let my_enum_names = variant_names(&my_enum);
    for name in ["Two", "None", "Three", "Red"] {
        assert!(my_enum_names.iter().any(|n| n == name));
        assert!(fizz_names.iter().any(|n| n == name));
    }
}

#[test]
fn mutual_aggregation_exact_contents() {
    // The resolution order is pinned: each processed declaration overwrites
    // its registry entry, so a later declaration sees the merged form of an
    // earlier one and the skeleton of a later one. Duplicates are retained.
    let none: Vec<Tok> = vec![];
    let mut reg = Registry::new();
    declare(&none, &other_decl(), &mut reg).unwrap();
    declare(&none, &fizz_decl(), &mut reg).unwrap();
    declare(&none, &my_enum_decl(), &mut reg).unwrap();
    let other = super_enum(&none, &other_decl(), &mut reg).unwrap();
    let fizz = super_enum(&none, &fizz_decl(), &mut reg).unwrap();
    let my_enum = super_enum(&none, &my_enum_decl(), &mut reg).unwrap();

    assert_eq!(variant_names(&other), vec!["Red", "Blue"]);
    assert_eq!(
        variant_names(&fizz),
        vec!["One", "Two", "Three", "None", "Other", "Red", "Blue"]
    );
    assert_eq!(
        variant_names(&my_enum),
        vec!["None", "Other", "One", "Two", "Three", "None", "Other", "Red", "Blue"]
    );
}

#[test]
fn variant_union_simple_case() {
    // Base `Fizz { One, Two, Three }` exported; derived
    // `MyEnum { None, Other(i32, bool) }` with `aggregate(Fizz)` rewrites to
    // exactly { None, Other(i32, bool), One, Two, Three }, in that order.
    let none: Vec<Tok> = vec![];
    let base = vec![
        id("enum"),
        id("Fizz"),
        open(Delim::Brace),
        id("One"),
        punct(','),
        id("Two"),
        punct(','),
        id("Three"),
        close(Delim::Brace),
    ];
    let derived = vec![
        punct('#'),
        open(Delim::Bracket),
        id("aggregate"),
        open(Delim::Paren),
        id("Fizz"),
        close(Delim::Paren),
        close(Delim::Bracket),
        id("enum"),
        id("MyEnum"),
        open(Delim::Brace),
        id("None"),
        punct(','),
        id("Other"),
        open(Delim::Paren),
        id("i32"),
        punct(','),
        id("bool"),
        close(Delim::Paren),
        close(Delim::Brace),
    ];
    let mut reg = Registry::new();
    super_enum(&none, &base, &mut reg).unwrap();
    let out = super_enum(&none, &derived, &mut reg).unwrap();
    assert_eq!(
        variant_names(&out),
        vec!["None", "Other", "One", "Two", "Three"]
    );
    // The payload of `Other(i32, bool)` survives the rewrite verbatim.
    let parsed = EnumDecl::parse(&out).unwrap();
    match &parsed.variants[1].payload {
        super_enum::decl::Payload::Tuple(inner) => {
            assert_eq!(*inner, vec![id("i32"), punct(','), id("bool")]);
        }
        _ => panic!("expected a positional payload"),
    }
    // The consumed aggregate attribute is gone from the output.
    assert!(parsed.attrs.is_empty());
}

#[test]
fn unresolved_reference_fails() {
    let none: Vec<Tok> = vec![];
    let decl = vec![
        punct('#'),
        open(Delim::Bracket),
        id("aggregate"),
        open(Delim::Paren),
        id("Undefined"),
        close(Delim::Paren),
        close(Delim::Bracket),
        id("enum"),
        id("Lonely"),
        open(Delim::Brace),
        id("Only"),
        close(Delim::Brace),
    ];
    let mut reg = Registry::new();
    match super_enum(&none, &decl, &mut reg) {
        Err(ProcError::Unresolved(p)) => {
            assert_eq!(p.segments, vec!["Undefined".to_string()]);
            assert!(!p.leading_colon);
        }
        _ => panic!("an unresolved reference must fail, not aggregate nothing"),
    }
}

#[test]
fn fields_attribute_is_inert() {
    // A declaration with a `fields(...)` attribute rewrites to exactly what
    // it rewrites to without it: no variant, field or attribute is added.
    let none: Vec<Tok> = vec![];
    let bare = vec![
        id("enum"),
        id("Plain"),
        open(Delim::Brace),
        id("A"),
        punct(','),
        id("B"),
        close(Delim::Brace),
    ];
    let with_fields = vec![
        punct('#'),
        open(Delim::Bracket),
        id("fields"),
        open(Delim::Paren),
        id("my_field"),
        punct(':'),
        id("u32"),
        close(Delim::Paren),
        close(Delim::Bracket),
        id("enum"),
        id("Plain"),
        open(Delim::Brace),
        id("A"),
        punct(','),
        id("B"),
        close(Delim::Brace),
    ];
    let mut reg1 = Registry::new();
    let mut reg2 = Registry::new();
    let out1 = super_enum(&none, &bare, &mut reg1).unwrap();
    let out2 = super_enum(&none, &with_fields, &mut reg2).unwrap();
    assert_eq!(out1, out2);
}

#[test]
fn regular_attributes_kept_in_order_at_front() {
    let none: Vec<Tok> = vec![];
    let decl = vec![
        punct('#'),
        open(Delim::Bracket),
        id("cfg"),
        open(Delim::Paren),
        id("test"),
        close(Delim::Paren),
        close(Delim::Bracket),
        punct('#'),
        open(Delim::Bracket),
        id("aggregate"),
        open(Delim::Paren),
        close(Delim::Paren),
        close(Delim::Bracket),
        punct('#'),
        open(Delim::Bracket),
        id("derive"),
        open(Delim::Paren),
        id("Debug"),
        close(Delim::Paren),
        close(Delim::Bracket),
        id("enum"),
        id("Tagged"),
        open(Delim::Brace),
        id("A"),
        close(Delim::Brace),
    ];
    let mut reg = Registry::new();
    let out = super_enum(&none, &decl, &mut reg).unwrap();
    let parsed = EnumDecl::parse(&out).unwrap();
    assert_eq!(parsed.attrs.len(), 2);
    assert_eq!(
        parsed.attrs[0],
        vec![id("cfg"), open(Delim::Paren), id("test"), close(Delim::Paren)]
    );
    assert_eq!(
        parsed.attrs[1],
        vec![id("derive"), open(Delim::Paren), id("Debug"), close(Delim::Paren)]
    );
}

#[test]
fn top_level_annotation_takes_no_arguments() {
    let args = vec![id("unexpected")];
    let mut reg = Registry::new();
    assert_eq!(
        super_enum(&args, &other_decl(), &mut reg),
        Err(ProcError::Grammar)
    );
    assert_eq!(declare(&args, &other_decl(), &mut reg), Err(ProcError::Grammar));
}

#[test]
fn malformed_declaration_fails() {
    let none: Vec<Tok> = vec![];
    let mut reg = Registry::new();
    // Not an enum declaration at all.
    assert_eq!(
        super_enum(&none, &vec![id("struct"), id("S")], &mut reg),
        Err(ProcError::Grammar)
    );
    // A reserved keyword attribute with a malformed argument list is a hard
    // grammar failure for the declaration.
    let bad_attr = vec![
        punct('#'),
        open(Delim::Bracket),
        id("aggregate"),
        close(Delim::Bracket),
        id("enum"),
        id("E"),
        open(Delim::Brace),
        close(Delim::Brace),
    ];
    assert_eq!(super_enum(&none, &bad_attr, &mut reg), Err(ProcError::Grammar));
}

#[test]
fn malformed_registry_entry_fails() {
    let none: Vec<Tok> = vec![];
    let mut reg = Registry::new();
    // A registered entry that does not parse back as a declaration is an
    // internal consistency violation surfaced as a malformed-source error.
    reg.register(
        TypePath { leading_colon: false, segments: vec!["Broken".to_string()] },
        vec![id("garbage")],
    );
    let decl = vec![
        punct('#'),
        open(Delim::Bracket),
        id("aggregate"),
        open(Delim::Paren),
        id("Broken"),
        close(Delim::Paren),
        close(Delim::Bracket),
        id("enum"),
        id("E"),
        open(Delim::Brace),
        id("A"),
        close(Delim::Brace),
    ];
    match super_enum(&none, &decl, &mut reg) {
        Err(ProcError::Malformed(p)) => {
            assert_eq!(p.segments, vec!["Broken".to_string()]);
        }
        _ => panic!("a malformed registry entry must fail the merge"),
    }
}

#[test]
fn attribute_helper_attaches_keyword() {
    let plain = vec![
        id("enum"),
        id("E"),
        open(Delim::Brace),
        id("A"),
        close(Delim::Brace),
    ];
    // With arguments: `#[fields(my_field: u32)]` is appended.
    let args = vec![id("my_field"), punct(':'), id("u32")];
    let out = fields(&args, &plain).unwrap();
    let expected = vec![
        punct('#'),
        open(Delim::Bracket),
        id("fields"),
        open(Delim::Paren),
        id("my_field"),
        punct(':'),
        id("u32"),
        close(Delim::Paren),
        close(Delim::Bracket),
        id("enum"),
        id("E"),
        open(Delim::Brace),
        id("A"),
        close(Delim::Brace),
    ];
    assert_eq!(out, expected);
    // Without arguments: the bare keyword form is produced.
    let no_args: Vec<Tok> = vec![];
    let out2 = aggregate(&no_args, &plain).unwrap();
    let expected2 = vec![
        punct('#'),
        open(Delim::Bracket),
        id("aggregate"),
        close(Delim::Bracket),
        id("enum"),
        id("E"),
        open(Delim::Brace),
        id("A"),
        close(Delim::Brace),
    ];
    assert_eq!(out2, expected2);
    // The synthesizer validates nothing; the grammar parser later rejects the
    // bare keyword form it produced.
    assert_eq!(
        super_enum(&no_args, &out2, &mut Registry::new()),
        Err(ProcError::Grammar)
    );
}

#[test]
fn merge_source_appends_foreign_variants() {
    let local = vec![
        id("enum"),
        id("A"),
        open(Delim::Brace),
        id("X"),
        close(Delim::Brace),
    ];
    let foreign = vec![
        id("enum"),
        id("B"),
        open(Delim::Brace),
        id("Y"),
        punct(','),
        id("Z"),
        close(Delim::Brace),
    ];
    let merged = merge_source(&local, &foreign).unwrap();
    assert_eq!(variant_names(&merged), vec!["X", "Y", "Z"]);
    assert_eq!(EnumDecl::parse(&merged).unwrap().name, "A");
    assert!(merge_source(&local, &vec![id("nonsense")]).is_err());
}

#[test]
fn forward_reference_resolves_after_declare() {
    // A declaration processed before its source is declared fails; with the
    // skeleton declared first, the same processing succeeds.
    let none: Vec<Tok> = vec![];
    let derived = vec![
        punct('#'),
        open(Delim::Bracket),
        id("aggregate"),
        open(Delim::Paren),
        id("Later"),
        close(Delim::Paren),
        close(Delim::Bracket),
        id("enum"),
        id("Early"),
        open(Delim::Brace),
        id("E0"),
        close(Delim::Brace),
    ];
    let later = vec![
        id("enum"),
        id("Later"),
        open(Delim::Brace),
        id("L0"),
        close(Delim::Brace),
    ];
    let mut reg = Registry::new();
    assert!(matches!(
        super_enum(&none, &derived, &mut reg),
        Err(ProcError::Unresolved(_))
    ));
    declare(&none, &later, &mut reg).unwrap();
    let out = super_enum(&none, &derived, &mut reg).unwrap();
    assert_eq!(variant_names(&out), vec!["E0", "L0"]);
}
#[test]
fn brace_payloads_and_trailing_commas_round_trip() {
    // `#[note] enum Shape { Dot, Rect { w: u32, h: u32 }, }` — the braced
    // payload is kept verbatim and the trailing comma is normalized away in
    // the canonical re-emission.
    let decl = vec![
        punct('#'),
        open(Delim::Bracket),
        id("note"),
        close(Delim::Bracket),
        id("enum"),
        id("Shape"),
        open(Delim::Brace),
        id("Dot"),
        punct(','),
        id("Rect"),
        open(Delim::Brace),
        id("w"),
        punct(':'),
        id("u32"),
        punct(','),
        id("h"),
        punct(':'),
        id("u32"),
        close(Delim::Brace),
        punct(','),
        close(Delim::Brace),
    ];
    let parsed = EnumDecl::parse(&decl).unwrap();
    assert_eq!(parsed.name, "Shape");
    assert_eq!(parsed.variants.len(), 2);
    match &parsed.variants[1].payload {
        super_enum::decl::Payload::Struct(inner) => {
            assert_eq!(inner.len(), 7);
        }
        _ => panic!("expected a named-field payload"),
    }
    let reemitted = parsed.to_tokens();
    let mut expected = decl.clone();
    // The canonical form drops the trailing comma after the last variant.
    expected.remove(expected.len() - 2);
    assert_eq!(reemitted, expected);
    // The canonical form parses back to the same declaration.
    assert_eq!(EnumDecl::parse(&reemitted).unwrap(), parsed);
}
