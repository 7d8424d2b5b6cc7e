//! Enum declarations: a named, ordered sequence of variants plus an ordered
//! sequence of attributes, with a parser from flat tokens and a re-emitter.
//!
//! The token grammar is `#[meta] ... enum Name { V1, V2(...), V3 { ... }, }`:
//! zero or more attributes, the `enum` keyword, the declaration's name, and
//! one braced, comma-separated variant list (trailing comma allowed). A
//! variant is a name with no payload, a parenthesized payload, or a braced
//! payload; payload tokens are kept verbatim.

use vstd::prelude::*;

use crate::attr::{lemma_find_close_bounds, sp_find_close, ParseError};
use crate::token::{lemma_map_concat, slice_range, toks, Delim, Tok, TokM};

verus! {

/// A variant's payload shape.
#[derive(Debug, PartialEq, Eq)]
pub enum Payload {
    /// No payload.
    Unit,
    /// Positional fields: the tokens between `(` and `)`, verbatim.
    Tuple(Vec<Tok>),
    /// Named fields: the tokens between `{` and `}`, verbatim.
    Struct(Vec<Tok>),
}

/// Model of a payload.
#[verifier::ext_equal]
pub enum PayloadM {
    Unit,
    Tuple(Seq<TokM>),
    Struct(Seq<TokM>),
}

impl View for Payload {
    type V = PayloadM;

    open spec fn view(&self) -> PayloadM {
        match self {
            Payload::Unit => PayloadM::Unit,
            Payload::Tuple(ts) => PayloadM::Tuple(toks(ts@)),
            Payload::Struct(ts) => PayloadM::Struct(toks(ts@)),
        }
    }
}

/// One variant: a name plus an optional payload shape.
#[derive(Debug, PartialEq, Eq)]
pub struct Variant {
    pub name: String,
    pub payload: Payload,
}

/// Model of a variant.
#[verifier::ext_equal]
pub struct VariantM {
    pub name: Seq<char>,
    pub payload: PayloadM,
}

impl View for Variant {
    type V = VariantM;

    open spec fn view(&self) -> VariantM {
        VariantM { name: self.name@, payload: self.payload@ }
    }
}

/// An enum declaration: attributes (each as its meta tokens), a name, and an
/// ordered variant list.
#[derive(Debug, PartialEq, Eq)]
pub struct EnumDecl {
    pub attrs: Vec<Vec<Tok>>,
    pub name: String,
    pub variants: Vec<Variant>,
}

/// Model of an enum declaration.
#[verifier::ext_equal]
pub struct EnumDeclM {
    pub attrs: Seq<Seq<TokM>>,
    pub name: Seq<char>,
    pub variants: Seq<VariantM>,
}

impl View for EnumDecl {
    type V = EnumDeclM;

    open spec fn view(&self) -> EnumDeclM {
        EnumDeclM {
            attrs: self.attrs@.map_values(|a: Vec<Tok>| toks(a@)),
            name: self.name@,
            variants: self.variants@.map_values(|v: Variant| v@),
        }
    }
}

/// The attribute prefix starting at `i`: each attribute is `#`, a bracketed
/// group, and contributes its meta tokens. Returns the metas and the index
/// just past the prefix.
pub open spec fn sp_attr_prefix(ts: Seq<TokM>, i: int) -> Option<(Seq<Seq<TokM>>, int)>
    decreases ts.len() - i,
    when 0 <= i <= ts.len()
{
    if i < ts.len() && ts[i] == TokM::Punct('#') {
        if i + 1 < ts.len() && ts[i + 1] == TokM::Open(Delim::Bracket) {
            match sp_find_close(ts, i + 2, 0) {
                Some(j) => if ts[j] == TokM::Close(Delim::Bracket) {
                    proof {
                        lemma_find_close_bounds(ts, i + 2, 0);
                    }
                    match sp_attr_prefix(ts, j + 1) {
                        Some((rest, k)) => Some((seq![ts.subrange(i + 2, j)] + rest, k)),
                        None => None,
                    }
                } else {
                    None
                },
                None => None,
            }
        } else {
            None
        }
    } else {
        Some((Seq::empty(), i))
    }
}

/// The attribute prefix ends within the stream.
pub proof fn lemma_attr_prefix_bounds(ts: Seq<TokM>, i: int)
    requires
        0 <= i <= ts.len(),
    ensures
        sp_attr_prefix(ts, i) matches Some((metas, k)) ==> i <= k <= ts.len(),
    decreases ts.len() - i,
{
    if i < ts.len() && ts[i] == TokM::Punct('#') && i + 1 < ts.len() && ts[i + 1] == TokM::Open(
        Delim::Bracket,
    ) {
        lemma_find_close_bounds(ts, i + 2, 0);
        match sp_find_close(ts, i + 2, 0) {
            Some(j) => {
                lemma_attr_prefix_bounds(ts, j + 1);
            },
            None => {},
        }
    }
}

/// One variant starting at `i`: a name, optionally followed by one
/// parenthesized or braced payload group. Returns the variant and the index
/// just past it.
pub open spec fn sp_variant(ts: Seq<TokM>, i: int) -> Option<(VariantM, int)>
    recommends
        0 <= i <= ts.len(),
{
    if i < ts.len() {
        match ts[i] {
            TokM::Ident(name) => if i + 1 < ts.len() && ts[i + 1] == TokM::Open(Delim::Paren) {
                match sp_find_close(ts, i + 2, 0) {
                    Some(j) => if ts[j] == TokM::Close(Delim::Paren) {
                        Some(
                            (VariantM { name, payload: PayloadM::Tuple(ts.subrange(i + 2, j)) }, j
                                + 1),
                        )
                    } else {
                        None
                    },
                    None => None,
                }
            } else if i + 1 < ts.len() && ts[i + 1] == TokM::Open(Delim::Brace) {
                match sp_find_close(ts, i + 2, 0) {
                    Some(j) => if ts[j] == TokM::Close(Delim::Brace) {
                        Some(
                            (VariantM { name, payload: PayloadM::Struct(ts.subrange(i + 2, j)) },
                            j + 1),
                        )
                    } else {
                        None
                    },
                    None => None,
                }
            } else {
                Some((VariantM { name, payload: PayloadM::Unit }, i + 1))
            },
            _ => None,
        }
    } else {
        None
    }
}

/// A parsed variant ends within the stream, past the start.
pub proof fn lemma_variant_bounds(ts: Seq<TokM>, i: int)
    requires
        0 <= i <= ts.len(),
    ensures
        sp_variant(ts, i) matches Some((v, j)) ==> i < j <= ts.len(),
{
    if i + 2 <= ts.len() {
        lemma_find_close_bounds(ts, i + 2, 0);
    }
}

/// A comma-separated variant list filling `ts` from `i` to its end. Zero
/// variants and a trailing comma are accepted.
pub open spec fn sp_variant_list(ts: Seq<TokM>, i: int) -> Option<Seq<VariantM>>
    decreases ts.len() - i,
    when 0 <= i <= ts.len()
{
    if i == ts.len() {
        Some(Seq::empty())
    } else {
        match sp_variant(ts, i) {
            None => None,
            Some((v, j)) => {
                proof {
                    lemma_variant_bounds(ts, i);
                }
                if j == ts.len() {
                    Some(seq![v])
                } else if ts[j] == TokM::Punct(',') {
                    match sp_variant_list(ts, j + 1) {
                        Some(r) => Some(seq![v] + r),
                        None => None,
                    }
                } else {
                    None
                }
            },
        }
    }
}

/// Full parse of an enum declaration's tokens.
pub open spec fn sp_parse_decl(ts: Seq<TokM>) -> Option<EnumDeclM> {
    match sp_attr_prefix(ts, 0) {
        Some((attrs, i)) => {
            if i + 2 < ts.len() && ts[i] == TokM::Ident("enum"@) {
                match ts[i + 1] {
                    TokM::Ident(name) => if ts[i + 2] == TokM::Open(Delim::Brace) {
                        match sp_find_close(ts, i + 3, 0) {
                            Some(j) => if j == ts.len() - 1 && ts[j] == TokM::Close(Delim::Brace) {
                                match sp_variant_list(ts.subrange(i + 3, j), 0) {
                                    Some(vs) => Some(
                                        EnumDeclM { attrs, name, variants: vs },
                                    ),
                                    None => None,
                                }
                            } else {
                                None
                            },
                            None => None,
                        }
                    } else {
                        None
                    },
                    _ => None,
                }
            } else {
                None
            }
        },
        None => None,
    }
}

/// Parse the attribute prefix, collecting each attribute's meta tokens.
fn parse_attr_prefix(ts: &Vec<Tok>, i: usize) -> (r: Option<(Vec<Vec<Tok>>, usize)>)
    requires
        i <= ts@.len(),
    ensures
        match r {
            Some((metas, k)) => sp_attr_prefix(toks(ts@), i as int) == Some(
                (metas@.map_values(|a: Vec<Tok>| toks(a@)), k as int),
            ),
            None => sp_attr_prefix(toks(ts@), i as int) is None,
        },
    decreases ts@.len() - i,
{
    if i < ts.len() && ts[i].is_punct('#') {
        if i + 1 < ts.len() && ts[i + 1].is_open(Delim::Bracket) {
            match crate::attr::find_close_at(ts, i + 2, 0) {
                Some(j) => {
                    proof {
                        lemma_find_close_bounds(toks(ts@), i + 2, 0);
                    }
                    if ts[j].is_close(Delim::Bracket) {
                        let meta = slice_range(ts, i + 2, j);
                        match parse_attr_prefix(ts, j + 1) {
                            Some((mut rest, k)) => {
                                let ghost tail = rest@;
                                rest.insert(0, meta);
                                proof {
                                    crate::token::lemma_map_cons(
                                        tail,
                                        rest@[0],
                                        |a: Vec<Tok>| toks(a@),
                                    );
                                    assert(rest@.map_values(|a: Vec<Tok>| toks(a@)) == seq![
                                        toks(ts@).subrange(i + 2, j as int),
                                    ] + tail.map_values(|a: Vec<Tok>| toks(a@)));
                                }
                                Some((rest, k))
                            },
                            None => None,
                        }
                    } else {
                        None
                    }
                },
                None => None,
            }
        } else {
            None
        }
    } else {
        let metas: Vec<Vec<Tok>> = Vec::new();
        proof {
            assert(metas@.map_values(|a: Vec<Tok>| toks(a@)) =~= Seq::<Seq<TokM>>::empty());
        }
        Some((metas, i))
    }
}

/// Parse one variant starting at `i`.
fn parse_variant(ts: &Vec<Tok>, i: usize) -> (r: Option<(Variant, usize)>)
    requires
        i <= ts@.len(),
    ensures
        match r {
            Some((v, j)) => sp_variant(toks(ts@), i as int) == Some((v@, j as int)),
            None => sp_variant(toks(ts@), i as int) is None,
        },
{
    if i < ts.len() {
        match &ts[i] {
            Tok::Ident(name) => {
                if i + 1 < ts.len() && ts[i + 1].is_open(Delim::Paren) {
                    match crate::attr::find_close_at(ts, i + 2, 0) {
                        Some(j) => {
                            proof {
                                lemma_find_close_bounds(toks(ts@), i + 2, 0);
                            }
                            if ts[j].is_close(Delim::Paren) {
                                let inner = slice_range(ts, i + 2, j);
                                Some(
                                    (Variant {
                                        name: name.clone(),
                                        payload: Payload::Tuple(inner),
                                    }, j + 1),
                                )
                            } else {
                                None
                            }
                        },
                        None => None,
                    }
                } else if i + 1 < ts.len() && ts[i + 1].is_open(Delim::Brace) {
                    match crate::attr::find_close_at(ts, i + 2, 0) {
                        Some(j) => {
                            proof {
                                lemma_find_close_bounds(toks(ts@), i + 2, 0);
                            }
                            if ts[j].is_close(Delim::Brace) {
                                let inner = slice_range(ts, i + 2, j);
                                Some(
                                    (Variant {
                                        name: name.clone(),
                                        payload: Payload::Struct(inner),
                                    }, j + 1),
                                )
                            } else {
                                None
                            }
                        },
                        None => None,
                    }
                } else {
                    Some((Variant { name: name.clone(), payload: Payload::Unit }, i + 1))
                }
            },
            _ => None,
        }
    } else {
        None
    }
}

/// Parse a comma-separated variant list filling `ts` from `i` to its end.
fn parse_variant_list(ts: &Vec<Tok>, i: usize) -> (r: Option<Vec<Variant>>)
    requires
        i <= ts@.len(),
    ensures
        match r {
            Some(vs) => sp_variant_list(toks(ts@), i as int) == Some(
                vs@.map_values(|v: Variant| v@),
            ),
            None => sp_variant_list(toks(ts@), i as int) is None,
        },
    decreases ts@.len() - i,
{
    if i == ts.len() {
        let vs: Vec<Variant> = Vec::new();
        proof {
            assert(vs@.map_values(|v: Variant| v@) =~= Seq::<VariantM>::empty());
        }
        Some(vs)
    } else {
        match parse_variant(ts, i) {
            None => None,
            Some((v, j)) => {
                proof {
                    lemma_variant_bounds(toks(ts@), i as int);
                }
                if j == ts.len() {
                    let mut vs: Vec<Variant> = Vec::new();
                    vs.push(v);
                    proof {
                        assert(vs@.map_values(|x: Variant| x@) =~= seq![vs@[0]@]);
                    }
                    Some(vs)
                } else if ts[j].is_punct(',') {
                    match parse_variant_list(ts, j + 1) {
                        Some(mut rest) => {
                            let ghost tail = rest@;
                            let ghost vm = v@;
                            rest.insert(0, v);
                            proof {
                                crate::token::lemma_map_cons(tail, rest@[0], |x: Variant| x@);
                                assert(rest@.map_values(|x: Variant| x@) == seq![vm]
                                    + tail.map_values(|x: Variant| x@));
                            }
                            Some(rest)
                        },
                        None => None,
                    }
                } else {
                    None
                }
            },
        }
    }
}

impl EnumDecl {
    /// Parse an enum declaration from its flat tokens.
    pub fn parse(ts: &Vec<Tok>) -> (r: Result<EnumDecl, ParseError>)
        ensures
            match r {
                Ok(d) => sp_parse_decl(toks(ts@)) == Some(d@),
                Err(_) => sp_parse_decl(toks(ts@)) is None,
            },
    {
        match parse_attr_prefix(ts, 0) {
            Some((attrs, i)) => {
                proof {
                    lemma_attr_prefix_bounds(toks(ts@), 0);
                }
                if ts.len() - i > 2 && ts[i].is_ident("enum") {
                    match &ts[i + 1] {
                        Tok::Ident(name) => {
                            if ts[i + 2].is_open(Delim::Brace) {
                                match crate::attr::find_close_at(ts, i + 3, 0) {
                                    Some(j) => {
                                        proof {
                                            lemma_find_close_bounds(toks(ts@), i + 3, 0);
                                        }
                                        if j == ts.len() - 1 && ts[j].is_close(Delim::Brace) {
                                            let body = slice_range(ts, i + 3, j);
                                            match parse_variant_list(&body, 0) {
                                                Some(vs) => Ok(
                                                    EnumDecl {
                                                        attrs,
                                                        name: name.clone(),
                                                        variants: vs,
                                                    },
                                                ),
                                                None => Err(ParseError),
                                            }
                                        } else {
                                            Err(ParseError)
                                        }
                                    },
                                    None => Err(ParseError),
                                }
                            } else {
                                Err(ParseError)
                            }
                        },
                        _ => Err(ParseError),
                    }
                } else {
                    Err(ParseError)
                }
            },
            None => Err(ParseError),
        }
    }
}

/// Tokens of an attribute list: each meta wrapped as `#[meta]`.
pub open spec fn sp_attrs_toks(attrs: Seq<Seq<TokM>>) -> Seq<TokM>
    decreases attrs.len(),
{
    if attrs.len() == 0 {
        Seq::empty()
    } else {
        seq![TokM::Punct('#'), TokM::Open(Delim::Bracket)] + attrs[0] + seq![
            TokM::Close(Delim::Bracket),
        ] + sp_attrs_toks(attrs.skip(1))
    }
}

/// Tokens of one variant.
pub open spec fn sp_variant_toks(v: VariantM) -> Seq<TokM> {
    match v.payload {
        PayloadM::Unit => seq![TokM::Ident(v.name)],
        PayloadM::Tuple(inner) => seq![TokM::Ident(v.name), TokM::Open(Delim::Paren)] + inner
            + seq![TokM::Close(Delim::Paren)],
        PayloadM::Struct(inner) => seq![TokM::Ident(v.name), TokM::Open(Delim::Brace)] + inner
            + seq![TokM::Close(Delim::Brace)],
    }
}

/// Tokens of a comma-separated variant list, without a trailing comma.
pub open spec fn sp_variant_list_toks(vs: Seq<VariantM>) -> Seq<TokM>
    decreases vs.len(),
{
    if vs.len() == 0 {
        Seq::empty()
    } else if vs.len() == 1 {
        sp_variant_toks(vs[0])
    } else {
        sp_variant_toks(vs[0]) + seq![TokM::Punct(',')] + sp_variant_list_toks(vs.skip(1))
    }
}

/// The canonical token form a declaration re-emits to.
pub open spec fn sp_decl_toks(d: EnumDeclM) -> Seq<TokM> {
    sp_attrs_toks(d.attrs) + seq![
        TokM::Ident("enum"@),
        TokM::Ident(d.name),
        TokM::Open(Delim::Brace),
    ] + sp_variant_list_toks(d.variants) + seq![TokM::Close(Delim::Brace)]
}

/// Emit the attribute list from index `i` on.
fn emit_attrs(attrs: &Vec<Vec<Tok>>, i: usize) -> (r: Vec<Tok>)
    requires
        i <= attrs@.len(),
    ensures
        toks(r@) == sp_attrs_toks(attrs@.map_values(|a: Vec<Tok>| toks(a@)).skip(i as int)),
    decreases attrs@.len() - i,
{
    let ghost model = attrs@.map_values(|a: Vec<Tok>| toks(a@));
    let mut r: Vec<Tok> = Vec::new();
    if i == attrs.len() {
        proof {
            assert(toks(r@) =~= sp_attrs_toks(model.skip(i as int)));
        }
        return r;
    }
    r.push(Tok::Punct('#'));
    r.push(Tok::Open(Delim::Bracket));
    let ghost head = r@;
    let mut meta = slice_range(&attrs[i], 0, attrs[i].len());
    r.append(&mut meta);
    r.push(Tok::Close(Delim::Bracket));
    let ghost wrapped = r@;
    proof {
        assert(wrapped =~= head + wrapped.subrange(2, wrapped.len() - 1) + seq![wrapped.last()]);
        lemma_map_concat(
            head + wrapped.subrange(2, wrapped.len() - 1),
            seq![wrapped.last()],
            |t: Tok| t@,
        );
        lemma_map_concat(head, wrapped.subrange(2, wrapped.len() - 1), |t: Tok| t@);
        assert(toks(attrs@[i as int]@).subrange(0, toks(attrs@[i as int]@).len() as int)
            =~= toks(attrs@[i as int]@));
        assert(toks(wrapped) =~= seq![TokM::Punct('#'), TokM::Open(Delim::Bracket)]
            + model[i as int] + seq![TokM::Close(Delim::Bracket)]);
    }
    let mut tail = emit_attrs(attrs, i + 1);
    r.append(&mut tail);
    proof {
        lemma_map_concat(wrapped, r@.skip(wrapped.len() as int), |t: Tok| t@);
        assert(r@ =~= wrapped + r@.skip(wrapped.len() as int));
        assert(model.skip(i as int).skip(1) =~= model.skip(i + 1));
        assert(model.skip(i as int)[0] == model[i as int]);
        assert(toks(r@) =~= sp_attrs_toks(model.skip(i as int)));
    }
    r
}

impl Variant {
    /// Emit the variant's tokens.
    pub fn to_tokens(&self) -> (r: Vec<Tok>)
        ensures
            toks(r@) == sp_variant_toks(self@),
    {
        let mut r: Vec<Tok> = Vec::new();
        r.push(Tok::Ident(self.name.clone()));
        match &self.payload {
            Payload::Unit => {
                proof {
                    assert(toks(r@) =~= sp_variant_toks(self@));
                }
                r
            },
            Payload::Tuple(inner) => {
                r.push(Tok::Open(Delim::Paren));
                let ghost head = r@;
                let mut body = slice_range(inner, 0, inner.len());
                r.append(&mut body);
                r.push(Tok::Close(Delim::Paren));
                proof {
                    assert(r@ =~= head + r@.subrange(2, r@.len() - 1) + seq![r@.last()]);
                    lemma_map_concat(
                        head + r@.subrange(2, r@.len() - 1),
                        seq![r@.last()],
                        |t: Tok| t@,
                    );
                    lemma_map_concat(head, r@.subrange(2, r@.len() - 1), |t: Tok| t@);
                    assert(toks(inner@).subrange(0, toks(inner@).len() as int) =~= toks(inner@));
                    assert(toks(r@) =~= sp_variant_toks(self@));
                }
                r
            },
            Payload::Struct(inner) => {
                r.push(Tok::Open(Delim::Brace));
                let ghost head = r@;
                let mut body = slice_range(inner, 0, inner.len());
                r.append(&mut body);
                r.push(Tok::Close(Delim::Brace));
                proof {
                    assert(r@ =~= head + r@.subrange(2, r@.len() - 1) + seq![r@.last()]);
                    lemma_map_concat(
                        head + r@.subrange(2, r@.len() - 1),
                        seq![r@.last()],
                        |t: Tok| t@,
                    );
                    lemma_map_concat(head, r@.subrange(2, r@.len() - 1), |t: Tok| t@);
                    assert(toks(inner@).subrange(0, toks(inner@).len() as int) =~= toks(inner@));
                    assert(toks(r@) =~= sp_variant_toks(self@));
                }
                r
            },
        }
    }
}

/// Emit a comma-separated variant list from index `i` on.
fn emit_variant_list(vs: &Vec<Variant>, i: usize) -> (r: Vec<Tok>)
    requires
        i <= vs@.len(),
    ensures
        toks(r@) == sp_variant_list_toks(vs@.map_values(|v: Variant| v@).skip(i as int)),
    decreases vs@.len() - i,
{
    let ghost model = vs@.map_values(|v: Variant| v@);
    if i == vs.len() {
        let r: Vec<Tok> = Vec::new();
        proof {
            assert(toks(r@) =~= sp_variant_list_toks(model.skip(i as int)));
        }
        r
    } else if i + 1 == vs.len() {
        let r = vs[i].to_tokens();
        proof {
            assert(model.skip(i as int) =~= seq![model[i as int]]);
        }
        r
    } else {
        let mut r = vs[i].to_tokens();
        r.push(Tok::Punct(','));
        let ghost head = r@;
        let mut tail = emit_variant_list(vs, i + 1);
        r.append(&mut tail);
        proof {
            lemma_map_concat(head, r@.skip(head.len() as int), |t: Tok| t@);
            assert(r@ =~= head + r@.skip(head.len() as int));
            assert(model.skip(i as int).skip(1) =~= model.skip(i + 1));
            assert(toks(head) =~= sp_variant_toks(model.skip(i as int)[0]) + seq![
                TokM::Punct(','),
            ]);
            assert(toks(r@) =~= sp_variant_list_toks(model.skip(i as int)));
        }
        r
    }
}

impl EnumDecl {
    /// Re-emit the declaration to its canonical token form.
    pub fn to_tokens(&self) -> (r: Vec<Tok>)
        ensures
            toks(r@) == sp_decl_toks(self@),
    {
        let mut r = emit_attrs(&self.attrs, 0);
        proof {
            assert(self.attrs@.map_values(|a: Vec<Tok>| toks(a@)).skip(0) =~= self@.attrs);
        }
        r.push(Tok::Ident("enum".to_owned()));
        r.push(Tok::Ident(self.name.clone()));
        r.push(Tok::Open(Delim::Brace));
        let ghost head = r@;
        let mut body = emit_variant_list(&self.variants, 0);
        r.append(&mut body);
        r.push(Tok::Close(Delim::Brace));
        proof {
            assert(self.variants@.map_values(|v: Variant| v@).skip(0) =~= self@.variants);
            assert(r@ =~= head + r@.subrange(head.len() as int, r@.len() - 1) + seq![r@.last()]);
            lemma_map_concat(
                head + r@.subrange(head.len() as int, r@.len() - 1),
                seq![r@.last()],
                |t: Tok| t@,
            );
            lemma_map_concat(head, r@.subrange(head.len() as int, r@.len() - 1), |t: Tok| t@);
            assert(toks(head) =~= sp_attrs_toks(self@.attrs) + seq![
                TokM::Ident("enum"@),
                TokM::Ident(self@.name),
                TokM::Open(Delim::Brace),
            ]);
            assert(toks(r@) =~= sp_decl_toks(self@));
        }
        r
    }
}


/// The bracket-depth change one token contributes.
pub open spec fn tok_delta(t: TokM) -> int {
    match t {
        TokM::Open(_) => 1,
        TokM::Close(_) => -1,
        _ => 0,
    }
}

/// Net bracket depth over a token run.
pub open spec fn depth_sum(ts: Seq<TokM>) -> int
    decreases ts.len(),
{
    if ts.len() == 0 {
        0
    } else {
        depth_sum(ts.drop_last()) + tok_delta(ts.last())
    }
}

/// A token run whose brackets pair up within it: the net depth is zero and
/// no closing bracket closes more than was opened before it.
pub open spec fn balanced(ts: Seq<TokM>) -> bool {
    depth_sum(ts) == 0 && forall|k: int|
        (0 <= k < ts.len() && (#[trigger] ts[k]) matches TokM::Close(_)) ==> depth_sum(
            ts.take(k),
        ) >= 1
}

proof fn lemma_depth_sum_front(ts: Seq<TokM>)
    requires
        ts.len() > 0,
    ensures
        depth_sum(ts) == tok_delta(ts[0]) + depth_sum(ts.skip(1)),
    decreases ts.len(),
{
    if ts.len() == 1 {
        assert(ts.skip(1) =~= Seq::<TokM>::empty());
        assert(ts.drop_last() =~= Seq::<TokM>::empty());
        assert(depth_sum(Seq::<TokM>::empty()) == 0);
        assert(ts.last() == ts[0]);
    } else {
        lemma_depth_sum_front(ts.drop_last());
        assert(ts.drop_last()[0] == ts[0]);
        assert(ts.skip(1).drop_last() =~= ts.drop_last().skip(1));
        assert(ts.skip(1).last() == ts.last());
    }
}

proof fn lemma_depth_sum_single(t: TokM)
    ensures
        depth_sum(seq![t]) == tok_delta(t),
{
    assert(seq![t].drop_last() =~= Seq::<TokM>::empty());
    assert(depth_sum(Seq::<TokM>::empty()) == 0);
    assert(seq![t].last() == t);
}

proof fn lemma_depth_sum_concat(a: Seq<TokM>, b: Seq<TokM>)
    ensures
        depth_sum(a + b) == depth_sum(a) + depth_sum(b),
    decreases b.len(),
{
    if b.len() == 0 {
        assert(a + b =~= a);
    } else {
        lemma_depth_sum_concat(a, b.drop_last());
        assert((a + b).drop_last() =~= a + b.drop_last());
        assert((a + b).last() == b.last());
    }
}

/// Concatenation preserves balance.
proof fn lemma_balanced_concat(a: Seq<TokM>, b: Seq<TokM>)
    requires
        balanced(a),
        balanced(b),
    ensures
        balanced(a + b),
{
    lemma_depth_sum_concat(a, b);
    assert forall|k: int|
        0 <= k < (a + b).len() && (#[trigger] (a + b)[k]) matches TokM::Close(_) implies depth_sum(
        (a + b).take(k),
    ) >= 1 by {
        if k < a.len() {
            assert((a + b).take(k) =~= a.take(k));
            assert(a[k] == (a + b)[k]);
        } else {
            assert((a + b).take(k) =~= a + b.take(k - a.len()));
            lemma_depth_sum_concat(a, b.take(k - a.len()));
            assert(b[k - a.len()] == (a + b)[k]);
        }
    }
}

/// Wrapping a balanced run in one bracket pair preserves balance.
proof fn lemma_balanced_wrap(inner: Seq<TokM>, d: Delim)
    requires
        balanced(inner),
    ensures
        balanced(seq![TokM::Open(d)] + inner + seq![TokM::Close(d)]),
{
    let w = seq![TokM::Open(d)] + inner + seq![TokM::Close(d)];
    lemma_depth_sum_concat(seq![TokM::Open(d)] + inner, seq![TokM::Close(d)]);
    lemma_depth_sum_concat(seq![TokM::Open(d)], inner);
    lemma_depth_sum_single(TokM::Open(d));
    lemma_depth_sum_single(TokM::Close(d));
    assert forall|k: int|
        0 <= k < w.len() && (#[trigger] w[k]) matches TokM::Close(_) implies depth_sum(w.take(k))
            >= 1 by {
        if k == w.len() - 1 {
            assert(w.take(k) =~= seq![TokM::Open(d)] + inner);
            lemma_depth_sum_concat(seq![TokM::Open(d)], inner);
        } else if k >= 1 {
            assert(w[k] == inner[k - 1]);
            assert(w.take(k) =~= seq![TokM::Open(d)] + inner.take(k - 1));
            lemma_depth_sum_concat(seq![TokM::Open(d)], inner.take(k - 1));
        }
    }
}

/// A run without bracket tokens is balanced.
proof fn lemma_balanced_flat(ts: Seq<TokM>)
    requires
        forall|k: int| 0 <= k < ts.len() ==> tok_delta(#[trigger] ts[k]) == 0,
    ensures
        balanced(ts),
    decreases ts.len(),
{
    if ts.len() > 0 {
        lemma_balanced_flat(ts.drop_last());
        assert(ts.last() == ts[ts.len() - 1]);
    }
    assert forall|k: int|
        0 <= k < ts.len() && (#[trigger] ts[k]) matches TokM::Close(_) implies depth_sum(
        ts.take(k),
    ) >= 1 by {
        assert(tok_delta(ts[k]) == 0);
    }
}

/// When the run `[i, j)` is balanced and `ts[j]` closes a bracket, the scan
/// from `i` at depth zero finds exactly `j`.
proof fn lemma_find_close_balanced(ts: Seq<TokM>, i: int, j: int, depth: int)
    requires
        0 <= i <= j < ts.len(),
        ts[j] matches TokM::Close(_),
        depth >= 0,
        depth + depth_sum(ts.subrange(i, j)) == 0,
        forall|k: int|
            (i <= k < j && (#[trigger] ts[k]) matches TokM::Close(_)) ==> depth + depth_sum(
                ts.subrange(i, k),
            ) >= 1,
    ensures
        sp_find_close(ts, i, depth) == Some(j),
    decreases j - i,
{
    if i == j {
        assert(ts.subrange(i, j) =~= Seq::<TokM>::empty());
        assert(depth == 0);
    } else {
        lemma_depth_sum_front(ts.subrange(i, j));
        assert(ts.subrange(i, j)[0] == ts[i]);
        assert(ts.subrange(i, j).skip(1) =~= ts.subrange(i + 1, j));
        let d2 = depth + tok_delta(ts[i]);
        if ts[i] matches TokM::Close(_) {
            assert(ts.subrange(i, i) =~= Seq::<TokM>::empty());
            assert(depth >= 1);
        }
        assert(d2 >= 0);
        assert forall|k: int|
            i + 1 <= k < j && (#[trigger] ts[k]) matches TokM::Close(_) implies d2 + depth_sum(
            ts.subrange(i + 1, k),
        ) >= 1 by {
            lemma_depth_sum_front(ts.subrange(i, k));
            assert(ts.subrange(i, k)[0] == ts[i]);
            assert(ts.subrange(i, k).skip(1) =~= ts.subrange(i + 1, k));
        }
        lemma_find_close_balanced(ts, i + 1, j, d2);
    }
}

/// Well-formedness of a variant: its payload tokens, if any, are balanced.
pub open spec fn wf_variant(v: VariantM) -> bool {
    match v.payload {
        PayloadM::Unit => true,
        PayloadM::Tuple(inner) => balanced(inner),
        PayloadM::Struct(inner) => balanced(inner),
    }
}

/// Well-formedness of a declaration: every attribute's meta tokens and every
/// variant's payload tokens are balanced.
pub open spec fn wf_decl(d: EnumDeclM) -> bool {
    &&& forall|k: int| 0 <= k < d.attrs.len() ==> balanced(#[trigger] d.attrs[k])
    &&& forall|k: int| 0 <= k < d.variants.len() ==> wf_variant(#[trigger] d.variants[k])
}

proof fn lemma_variant_toks_balanced(v: VariantM)
    requires
        wf_variant(v),
    ensures
        balanced(sp_variant_toks(v)),
{
    lemma_balanced_flat(seq![TokM::Ident(v.name)]);
    match v.payload {
        PayloadM::Unit => {},
        PayloadM::Tuple(inner) => {
            lemma_balanced_wrap(inner, Delim::Paren);
            lemma_balanced_concat(
                seq![TokM::Ident(v.name)],
                seq![TokM::Open(Delim::Paren)] + inner + seq![TokM::Close(Delim::Paren)],
            );
            assert(sp_variant_toks(v) =~= seq![TokM::Ident(v.name)] + (seq![
                TokM::Open(Delim::Paren),
            ] + inner + seq![TokM::Close(Delim::Paren)]));
        },
        PayloadM::Struct(inner) => {
            lemma_balanced_wrap(inner, Delim::Brace);
            lemma_balanced_concat(
                seq![TokM::Ident(v.name)],
                seq![TokM::Open(Delim::Brace)] + inner + seq![TokM::Close(Delim::Brace)],
            );
            assert(sp_variant_toks(v) =~= seq![TokM::Ident(v.name)] + (seq![
                TokM::Open(Delim::Brace),
            ] + inner + seq![TokM::Close(Delim::Brace)]));
        },
    }
}

proof fn lemma_variant_list_toks_balanced(vs: Seq<VariantM>)
    requires
        forall|k: int| 0 <= k < vs.len() ==> wf_variant(#[trigger] vs[k]),
    ensures
        balanced(sp_variant_list_toks(vs)),
    decreases vs.len(),
{
    if vs.len() == 0 {
        lemma_balanced_flat(sp_variant_list_toks(vs));
    } else if vs.len() == 1 {
        lemma_variant_toks_balanced(vs[0]);
    } else {
        lemma_variant_toks_balanced(vs[0]);
        lemma_balanced_flat(seq![TokM::Punct(',')]);
        lemma_balanced_concat(sp_variant_toks(vs[0]), seq![TokM::Punct(',')]);
        assert forall|k: int| 0 <= k < vs.skip(1).len() implies wf_variant(
            #[trigger] vs.skip(1)[k],
        ) by {
            assert(vs.skip(1)[k] == vs[k + 1]);
        }
        lemma_variant_list_toks_balanced(vs.skip(1));
        lemma_balanced_concat(
            sp_variant_toks(vs[0]) + seq![TokM::Punct(',')],
            sp_variant_list_toks(vs.skip(1)),
        );
    }
}

/// A variant list re-parses from its emitted tokens, in any stream that
/// holds exactly them from `i` to its end.
proof fn lemma_variant_list_parse(ts: Seq<TokM>, i: int, vs: Seq<VariantM>)
    requires
        0 <= i <= ts.len(),
        ts.subrange(i, ts.len() as int) == sp_variant_list_toks(vs),
        forall|k: int| 0 <= k < vs.len() ==> wf_variant(#[trigger] vs[k]),
    ensures
        sp_variant_list(ts, i) == Some(vs),
    decreases vs.len(),
{
    let rest = ts.subrange(i, ts.len() as int);
    if vs.len() == 0 {
        assert(rest.len() == 0);
        assert(Seq::<VariantM>::empty() =~= vs);
    } else {
        let v = vs[0];
        let vt = sp_variant_toks(v);
        let tail = if vs.len() == 1 {
            Seq::<TokM>::empty()
        } else {
            seq![TokM::Punct(',')] + sp_variant_list_toks(vs.skip(1))
        };
        assert(rest =~= vt + tail) by {
            if vs.len() == 1 {
                assert(vt + tail =~= vt);
            }
        }
        assert forall|k: int| 0 <= k < vt.len() implies #[trigger] ts[i + k] == vt[k] by {
            assert(rest[k] == ts[i + k]);
            assert((vt + tail)[k] == vt[k]);
        }
        assert(ts[i] == TokM::Ident(v.name)) by {
            assert(ts[i + 0] == vt[0]);
        }
        let j = i + vt.len();
        match v.payload {
            PayloadM::Unit => {
                assert(vt.len() == 1);
                if i + 1 < ts.len() {
                    assert(ts[i + 1] == tail[0]) by {
                        assert(rest[1] == ts[i + 1]);
                        assert((vt + tail)[1] == tail[0]);
                    }
                    assert(tail[0] == TokM::Punct(','));
                }
                assert(sp_variant(ts, i) == Some((v, i + 1))) by {
                    assert(VariantM { name: v.name, payload: PayloadM::Unit } =~= v);
                }
            },
            PayloadM::Tuple(inner) => {
                let close = i + 2 + inner.len();
                assert(ts[i + 1] == TokM::Open(Delim::Paren)) by {
                    assert(ts[i + 1] == vt[1]);
                }
                assert(ts[close] == TokM::Close(Delim::Paren)) by {
                    assert(ts[i + (2 + inner.len() as int)] == vt[2 + inner.len() as int]);
                }
                assert(ts.subrange(i + 2, close) =~= inner) by {
                    assert forall|k: int| 0 <= k < inner.len() implies ts.subrange(
                        i + 2,
                        close,
                    )[k] == inner[k] by {
                        assert(ts[i + (2 + k)] == vt[2 + k]);
                    }
                }
                assert forall|k: int|
                    i + 2 <= k < close && (#[trigger] ts[k]) matches TokM::Close(_) implies 0
                    + depth_sum(ts.subrange(i + 2, k)) >= 1 by {
                    assert(ts[k] == inner[k - (i + 2)]);
                    assert(ts.subrange(i + 2, k) =~= inner.take(k - (i + 2)));
                }
                lemma_find_close_balanced(ts, i + 2, close, 0);
                assert(sp_variant(ts, i) == Some((v, j))) by {
                    assert(VariantM { name: v.name, payload: PayloadM::Tuple(inner) } =~= v);
                }
            },
            PayloadM::Struct(inner) => {
                let close = i + 2 + inner.len();
                assert(ts[i + 1] == TokM::Open(Delim::Brace)) by {
                    assert(ts[i + 1] == vt[1]);
                }
                assert(ts[close] == TokM::Close(Delim::Brace)) by {
                    assert(ts[i + (2 + inner.len() as int)] == vt[2 + inner.len() as int]);
                }
                assert(ts.subrange(i + 2, close) =~= inner) by {
                    assert forall|k: int| 0 <= k < inner.len() implies ts.subrange(
                        i + 2,
                        close,
                    )[k] == inner[k] by {
                        assert(ts[i + (2 + k)] == vt[2 + k]);
                    }
                }
                assert forall|k: int|
                    i + 2 <= k < close && (#[trigger] ts[k]) matches TokM::Close(_) implies 0
                    + depth_sum(ts.subrange(i + 2, k)) >= 1 by {
                    assert(ts[k] == inner[k - (i + 2)]);
                    assert(ts.subrange(i + 2, k) =~= inner.take(k - (i + 2)));
                }
                lemma_find_close_balanced(ts, i + 2, close, 0);
                assert(sp_variant(ts, i) == Some((v, j))) by {
                    assert(VariantM { name: v.name, payload: PayloadM::Struct(inner) } =~= v);
                }
            },
        }
        if vs.len() == 1 {
            assert(j == ts.len());
            assert(seq![v] =~= vs);
        } else {
            assert(ts[j] == TokM::Punct(',')) by {
                assert(rest[vt.len() as int] == ts[i + vt.len() as int]);
                assert((vt + tail)[vt.len() as int] == tail[0]);
            }
            assert(ts.subrange(j + 1, ts.len() as int) =~= sp_variant_list_toks(vs.skip(1)))
                by {
                assert forall|k: int|
                    0 <= k < sp_variant_list_toks(vs.skip(1)).len() implies ts.subrange(
                    j + 1,
                    ts.len() as int,
                )[k] == sp_variant_list_toks(vs.skip(1))[k] by {
                    assert(rest[vt.len() + 1 + k] == ts[i + (vt.len() + 1 + k)]);
                    assert((vt + tail)[vt.len() + 1 + k] == tail[1 + k]);
                }
            }
            assert forall|k: int| 0 <= k < vs.skip(1).len() implies wf_variant(
                #[trigger] vs.skip(1)[k],
            ) by {
                assert(vs.skip(1)[k] == vs[k + 1]);
            }
            lemma_variant_list_parse(ts, j + 1, vs.skip(1));
            assert(seq![v] + vs.skip(1) =~= vs);
        }
    }
}

/// An attribute list re-parses from its emitted tokens when the token after
/// it is an identifier (never `#`).
proof fn lemma_attr_prefix_parse(ts: Seq<TokM>, i: int, attrs: Seq<Seq<TokM>>)
    requires
        0 <= i,
        i + sp_attrs_toks(attrs).len() < ts.len(),
        ts.subrange(i, i + sp_attrs_toks(attrs).len()) == sp_attrs_toks(attrs),
        ts[i + sp_attrs_toks(attrs).len()] matches TokM::Ident(_),
        forall|k: int| 0 <= k < attrs.len() ==> balanced(#[trigger] attrs[k]),
    ensures
        sp_attr_prefix(ts, i) == Some((attrs, i + sp_attrs_toks(attrs).len())),
    decreases attrs.len(),
{
    let at = sp_attrs_toks(attrs);
    if attrs.len() == 0 {
        assert(at.len() == 0);
        assert(Seq::<Seq<TokM>>::empty() =~= attrs);
    } else {
        let meta = attrs[0];
        let head = seq![TokM::Punct('#'), TokM::Open(Delim::Bracket)] + meta + seq![
            TokM::Close(Delim::Bracket),
        ];
        let tail = sp_attrs_toks(attrs.skip(1));
        assert(at =~= head + tail);
        assert forall|k: int| 0 <= k < at.len() implies #[trigger] ts[i + k] == at[k] by {
            assert(ts.subrange(i, i + at.len())[k] == ts[i + k]);
        }
        assert(ts[i] == TokM::Punct('#')) by {
            assert(ts[i + 0] == at[0]);
            assert(at[0] == head[0]);
        }
        assert(ts[i + 1] == TokM::Open(Delim::Bracket)) by {
            assert(at[1] == head[1]);
        }
        let close = i + 2 + meta.len();
        assert(ts[close] == TokM::Close(Delim::Bracket)) by {
            assert(ts[i + (2 + meta.len() as int)] == at[2 + meta.len() as int]);
            assert(at[2 + meta.len() as int] == head[2 + meta.len() as int]);
        }
        assert(ts.subrange(i + 2, close) =~= meta) by {
            assert forall|k: int| 0 <= k < meta.len() implies ts.subrange(i + 2, close)[k]
                == meta[k] by {
                assert(ts[i + (2 + k)] == at[2 + k]);
                assert(at[2 + k] == head[2 + k]);
            }
        }
        assert forall|k: int|
            i + 2 <= k < close && (#[trigger] ts[k]) matches TokM::Close(_) implies 0 + depth_sum(
            ts.subrange(i + 2, k),
        ) >= 1 by {
            assert(ts[k] == meta[k - (i + 2)]);
            assert(ts.subrange(i + 2, k) =~= meta.take(k - (i + 2)));
        }
        lemma_find_close_balanced(ts, i + 2, close, 0);
        assert(ts.subrange(close + 1, close + 1 + tail.len() as int) =~= tail) by {
            assert forall|k: int| 0 <= k < tail.len() implies ts.subrange(
                close + 1,
                close + 1 + tail.len() as int,
            )[k] == tail[k] by {
                assert(ts[i + (head.len() + k)] == at[head.len() + k]);
                assert(at[head.len() + k] == tail[k]);
            }
        }
        assert forall|k: int| 0 <= k < attrs.skip(1).len() implies balanced(
            #[trigger] attrs.skip(1)[k],
        ) by {
            assert(attrs.skip(1)[k] == attrs[k + 1]);
        }
        lemma_attr_prefix_parse(ts, close + 1, attrs.skip(1));
        assert(seq![meta] + attrs.skip(1) =~= attrs);
    }
}

/// Registry consistency: a well-formed declaration's exported token form
/// parses back to exactly the declaration it was emitted from. A registered
/// entry therefore always resolves to a well-formed source, and the
/// malformed-source failure can only arise from tokens that entered the
/// registry by some other door.
pub proof fn lemma_decl_round_trip(d: EnumDeclM)
    requires
        wf_decl(d),
    ensures
        sp_parse_decl(sp_decl_toks(d)) == Some(d),
{
    let ts = sp_decl_toks(d);
    let at = sp_attrs_toks(d.attrs);
    let body = sp_variant_list_toks(d.variants);
    let i = at.len() as int;
    assert(ts.subrange(0, i) =~= at);
    assert(ts[i] == TokM::Ident("enum"@));
    lemma_attr_prefix_parse(ts, 0, d.attrs);
    assert(ts[i + 1] == TokM::Ident(d.name));
    assert(ts[i + 2] == TokM::Open(Delim::Brace));
    let close = i + 3 + body.len();
    assert(close == ts.len() - 1);
    assert(ts[close] == TokM::Close(Delim::Brace));
    assert(ts.subrange(i + 3, close) =~= body);
    lemma_variant_list_toks_balanced(d.variants);
    assert forall|k: int|
        i + 3 <= k < close && (#[trigger] ts[k]) matches TokM::Close(_) implies 0 + depth_sum(
        ts.subrange(i + 3, k),
    ) >= 1 by {
        assert(ts[k] == body[k - (i + 3)]);
        assert(ts.subrange(i + 3, k) =~= body.take(k - (i + 3)));
    }
    lemma_find_close_balanced(ts, i + 3, close, 0);
    assert(body.subrange(0, body.len() as int) =~= body);
    lemma_variant_list_parse(body, 0, d.variants);
    assert(EnumDeclM { attrs: d.attrs, name: d.name, variants: d.variants } =~= d);
}

/// The run a successful close-scan steps over is bracket-consistent: the
/// found close restores the starting depth, and no earlier close dips below
/// it.
proof fn lemma_find_close_makes_balanced(ts: Seq<TokM>, i: int, depth: int)
    requires
        0 <= i <= ts.len(),
        depth >= 0,
    ensures
        sp_find_close(ts, i, depth) matches Some(j) ==> {
            &&& i <= j < ts.len()
            &&& depth + depth_sum(ts.subrange(i, j)) == 0
            &&& forall|k: int|
                (i <= k < j && (#[trigger] ts[k]) matches TokM::Close(_)) ==> depth + depth_sum(
                    ts.subrange(i, k),
                ) >= 1
        },
    decreases ts.len() - i,
{
    lemma_find_close_bounds(ts, i, depth);
    if i < ts.len() {
        match ts[i] {
            TokM::Close(_) => {
                if depth == 0 {
                    assert(ts.subrange(i, i) =~= Seq::<TokM>::empty());
                    assert(depth_sum(Seq::<TokM>::empty()) == 0);
                } else {
                    lemma_find_close_makes_balanced(ts, i + 1, depth - 1);
                    lemma_find_close_transport(ts, i, depth, depth - 1);
                }
            },
            TokM::Open(_) => {
                lemma_find_close_makes_balanced(ts, i + 1, depth + 1);
                lemma_find_close_transport(ts, i, depth, depth + 1);
            },
            _ => {
                lemma_find_close_makes_balanced(ts, i + 1, depth);
                lemma_find_close_transport(ts, i, depth, depth);
            },
        }
    }
}

/// Transport of the bracket-consistency facts across one consumed token.
proof fn lemma_find_close_transport(ts: Seq<TokM>, i: int, depth: int, d2: int)
    requires
        0 <= i < ts.len(),
        d2 == depth + tok_delta(ts[i]),
        sp_find_close(ts, i + 1, d2) matches Some(j) ==> {
            &&& i + 1 <= j < ts.len()
            &&& d2 + depth_sum(ts.subrange(i + 1, j)) == 0
            &&& forall|k: int|
                (i + 1 <= k < j && (#[trigger] ts[k]) matches TokM::Close(_)) ==> d2 + depth_sum(
                    ts.subrange(i + 1, k),
                ) >= 1
        },
    ensures
        sp_find_close(ts, i + 1, d2) matches Some(j) ==> {
            &&& depth + depth_sum(ts.subrange(i, j)) == 0
            &&& forall|k: int|
                (i + 1 <= k < j && (#[trigger] ts[k]) matches TokM::Close(_)) ==> depth
                    + depth_sum(ts.subrange(i, k)) >= 1
        },
{
    match sp_find_close(ts, i + 1, d2) {
        Some(j) => {
            lemma_depth_sum_front(ts.subrange(i, j));
            assert(ts.subrange(i, j)[0] == ts[i]);
            assert(ts.subrange(i, j).skip(1) =~= ts.subrange(i + 1, j));
            assert forall|k: int|
                (i + 1 <= k < j && (#[trigger] ts[k]) matches TokM::Close(_)) implies depth
                + depth_sum(ts.subrange(i, k)) >= 1 by {
                lemma_depth_sum_front(ts.subrange(i, k));
                assert(ts.subrange(i, k)[0] == ts[i]);
                assert(ts.subrange(i, k).skip(1) =~= ts.subrange(i + 1, k));
            }
        },
        None => {},
    }
}

/// The run between a scan's start at depth zero and the close it finds is
/// balanced.
proof fn lemma_found_close_balanced(ts: Seq<TokM>, i: int, j: int)
    requires
        0 <= i <= ts.len(),
        sp_find_close(ts, i, 0) == Some(j),
    ensures
        balanced(ts.subrange(i, j)),
{
    lemma_find_close_makes_balanced(ts, i, 0);
    let seg = ts.subrange(i, j);
    assert forall|k: int|
        (0 <= k < seg.len() && (#[trigger] seg[k]) matches TokM::Close(_)) implies depth_sum(
        seg.take(k),
    ) >= 1 by {
        assert(seg[k] == ts[i + k]);
        assert(seg.take(k) =~= ts.subrange(i, i + k));
    }
}

/// Every variant the grammar accepts is well-formed.
proof fn lemma_parsed_variant_wf(ts: Seq<TokM>, i: int)
    requires
        0 <= i <= ts.len(),
    ensures
        sp_variant(ts, i) matches Some((v, j)) ==> wf_variant(v),
{
    if i < ts.len() && i + 1 < ts.len() {
        match sp_find_close(ts, i + 2, 0) {
            Some(j) => {
                lemma_found_close_balanced(ts, i + 2, j);
            },
            None => {},
        }
    }
}

/// Every variant list the grammar accepts is well-formed throughout.
proof fn lemma_parsed_variant_list_wf(ts: Seq<TokM>, i: int)
    requires
        0 <= i <= ts.len(),
    ensures
        sp_variant_list(ts, i) matches Some(vs) ==> forall|k: int|
            0 <= k < vs.len() ==> wf_variant(#[trigger] vs[k]),
    decreases ts.len() - i,
{
    if i < ts.len() {
        lemma_parsed_variant_wf(ts, i);
        lemma_variant_bounds(ts, i);
        match sp_variant(ts, i) {
            Some((v, j)) => {
                if j < ts.len() {
                    lemma_parsed_variant_list_wf(ts, j + 1);
                    match sp_variant_list(ts, j + 1) {
                        Some(rest) => {
                            assert forall|k: int|
                                0 <= k < (seq![v] + rest).len() implies wf_variant(
                                #[trigger] (seq![v] + rest)[k],
                            ) by {
                                if k > 0 {
                                    assert((seq![v] + rest)[k] == rest[k - 1]);
                                }
                            }
                        },
                        None => {},
                    }
                }
            },
            None => {},
        }
    }
}

/// Every attribute prefix the grammar accepts has balanced metas.
proof fn lemma_parsed_attr_prefix_wf(ts: Seq<TokM>, i: int)
    requires
        0 <= i <= ts.len(),
    ensures
        sp_attr_prefix(ts, i) matches Some((metas, n)) ==> forall|k: int|
            0 <= k < metas.len() ==> balanced(#[trigger] metas[k]),
    decreases ts.len() - i,
{
    if i < ts.len() && ts[i] == TokM::Punct('#') && i + 1 < ts.len() && ts[i + 1] == TokM::Open(
        Delim::Bracket,
    ) {
        match sp_find_close(ts, i + 2, 0) {
            Some(j) => {
                lemma_find_close_bounds(ts, i + 2, 0);
                lemma_found_close_balanced(ts, i + 2, j);
                lemma_parsed_attr_prefix_wf(ts, j + 1);
                match sp_attr_prefix(ts, j + 1) {
                    Some((rest, n)) => {
                        let metas = seq![ts.subrange(i + 2, j)] + rest;
                        assert forall|k: int| 0 <= k < metas.len() implies balanced(
                            #[trigger] metas[k],
                        ) by {
                            if k > 0 {
                                assert(metas[k] == rest[k - 1]);
                            }
                        }
                    },
                    None => {},
                }
            },
            None => {},
        }
    }
}

/// Every declaration the grammar accepts is well-formed.
pub proof fn lemma_parsed_decl_wf(ts: Seq<TokM>)
    ensures
        sp_parse_decl(ts) matches Some(d) ==> wf_decl(d),
{
    lemma_parsed_attr_prefix_wf(ts, 0);
    lemma_attr_prefix_bounds(ts, 0);
    match sp_attr_prefix(ts, 0) {
        Some((attrs, i)) => {
            if i + 2 < ts.len() {
                match sp_find_close(ts, i + 3, 0) {
                    Some(j) => {
                        lemma_find_close_bounds(ts, i + 3, 0);
                        lemma_parsed_variant_list_wf(ts.subrange(i + 3, j), 0);
                    },
                    None => {},
                }
            }
        },
        None => {},
    }
}

/// Registry consistency: any declaration the grammar accepts re-emits to a
/// canonical token form that parses back to exactly the same declaration.
/// What processing registers is such a re-emission of a parsed declaration,
/// so an entry registered that way always resolves to a declaration that
/// parses: the malformed-source failure is an internal-consistency assertion,
/// reachable only by tokens that entered the registry by some other door.
pub proof fn lemma_exported_form_parses_back(ts: Seq<TokM>, d: EnumDeclM)
    requires
        sp_parse_decl(ts) == Some(d),
    ensures
        sp_parse_decl(sp_decl_toks(d)) == Some(d),
{
    lemma_parsed_decl_wf(ts);
    lemma_decl_round_trip(d);
}

} // verus!
