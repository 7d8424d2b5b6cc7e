//! The attribute grammar: classification of one attribute's meta tokens into
//! an aggregate list, a field list, or a regular pass-through attribute.
//!
//! The grammar is claimed deterministically by the leading keyword: when the
//! first token is the reserved identifier `aggregate` or `fields`, the rest
//! must be exactly one parenthesized, comma-separated list of the keyword's
//! element shape (trailing comma allowed, zero elements allowed), and anything
//! else is a hard parse failure, never a fallback to a regular attribute. Any
//! other leading identifier starts a regular attribute: a path followed by an
//! opaque token run that is preserved verbatim.

use vstd::prelude::*;

use crate::token::{lemma_map_concat, lemma_map_cons, slice_range, toks, Delim, Tok, TokM};

verus! {

/// A scoped type-reference path: optional leading `::`, then one or more
/// identifier segments separated by `::`.
#[derive(Debug, PartialEq, Eq)]
pub struct TypePath {
    pub leading_colon: bool,
    pub segments: Vec<String>,
}

/// Model of a type-reference path.
#[verifier::ext_equal]
pub struct TypePathM {
    pub leading_colon: bool,
    pub segments: Seq<Seq<char>>,
}

impl View for TypePath {
    type V = TypePathM;

    open spec fn view(&self) -> TypePathM {
        TypePathM {
            leading_colon: self.leading_colon,
            segments: self.segments@.map_values(|s: String| s@),
        }
    }
}

impl Clone for TypePath {
    fn clone(&self) -> (r: Self)
        ensures
            r@ == self@,
    {
        let mut segments: Vec<String> = Vec::new();
        let mut k: usize = 0;
        while k < self.segments.len()
            invariant
                k <= self.segments@.len(),
                segments@.map_values(|s: String| s@) == self.segments@.subrange(
                    0,
                    k as int,
                ).map_values(|s: String| s@),
            decreases self.segments@.len() - k,
        {
            let ghost prev = segments@;
            let c = self.segments[k].clone();
            segments.push(c);
            k = k + 1;
            proof {
                assert(segments@.map_values(|s: String| s@) =~= prev.map_values(
                    |s: String| s@,
                ).push(self.segments@[k - 1]@));
                assert(self.segments@.subrange(0, k as int).map_values(|s: String| s@)
                    =~= self.segments@.subrange(0, k - 1).map_values(|s: String| s@).push(
                    self.segments@[k - 1]@,
                ));
            }
        }
        proof {
            assert(self.segments@.subrange(0, k as int) =~= self.segments@);
        }
        TypePath { leading_colon: self.leading_colon, segments }
    }
}

/// A named, typed field declaration: `name: Type`. The type is kept as an
/// opaque token run.
#[derive(Debug, PartialEq, Eq)]
pub struct FieldDecl {
    pub name: String,
    pub ty: Vec<Tok>,
}

/// Model of a field declaration.
#[verifier::ext_equal]
pub struct FieldDeclM {
    pub name: Seq<char>,
    pub ty: Seq<TokM>,
}

impl View for FieldDecl {
    type V = FieldDeclM;

    open spec fn view(&self) -> FieldDeclM {
        FieldDeclM { name: self.name@, ty: toks(self.ty@) }
    }
}

/// A regular attribute: a path and the verbatim token run that follows it.
#[derive(Debug, PartialEq, Eq)]
pub struct RegularAttr {
    pub path: TypePath,
    pub rest: Vec<Tok>,
}

/// Model of a regular attribute.
#[verifier::ext_equal]
pub struct RegularAttrM {
    pub path: TypePathM,
    pub rest: Seq<TokM>,
}

impl View for RegularAttr {
    type V = RegularAttrM;

    open spec fn view(&self) -> RegularAttrM {
        RegularAttrM { path: self.path@, rest: toks(self.rest@) }
    }
}

/// One classified attribute.
#[derive(Debug, PartialEq, Eq)]
pub enum HelperAttr {
    /// `aggregate(Path1, Path2, ...)`: type-reference paths to union in.
    Aggregate(Vec<TypePath>),
    /// `fields(name1: Type1, ...)`: named typed field declarations.
    Fields(Vec<FieldDecl>),
    /// Any other attribute, preserved verbatim.
    Regular(RegularAttr),
}

/// Model of a classified attribute.
#[verifier::ext_equal]
pub enum HelperAttrM {
    Aggregate(Seq<TypePathM>),
    Fields(Seq<FieldDeclM>),
    Regular(RegularAttrM),
}

impl View for HelperAttr {
    type V = HelperAttrM;

    open spec fn view(&self) -> HelperAttrM {
        match self {
            HelperAttr::Aggregate(ps) => HelperAttrM::Aggregate(
                ps@.map_values(|p: TypePath| p@),
            ),
            HelperAttr::Fields(fs) => HelperAttrM::Fields(fs@.map_values(|f: FieldDecl| f@)),
            HelperAttr::Regular(r) => HelperAttrM::Regular(r@),
        }
    }
}

/// Failure of the attribute grammar or of the declaration grammar.
#[derive(Clone, Copy, Debug, PartialEq, Eq, Structural)]
pub struct ParseError;

/// The reserved keyword that introduces an aggregate list.
pub open spec fn kw_aggregate() -> Seq<char> {
    "aggregate"@
}

/// The reserved keyword that introduces a field list.
pub open spec fn kw_fields() -> Seq<char> {
    "fields"@
}

/// Index of the closing bracket that matches nesting depth `depth`, scanning
/// flat tokens from `i`; `None` when the stream ends first.
pub open spec fn sp_find_close(ts: Seq<TokM>, i: int, depth: int) -> Option<int>
    decreases ts.len() - i,
    when 0 <= i <= ts.len()
{
    if i == ts.len() {
        None
    } else {
        match ts[i] {
            TokM::Close(_) => if depth == 0 {
                Some(i)
            } else {
                sp_find_close(ts, i + 1, depth - 1)
            },
            TokM::Open(_) => sp_find_close(ts, i + 1, depth + 1),
            _ => sp_find_close(ts, i + 1, depth),
        }
    }
}

/// A found closing bracket lies within the stream, at or after the start.
pub proof fn lemma_find_close_bounds(ts: Seq<TokM>, i: int, depth: int)
    requires
        0 <= i <= ts.len(),
    ensures
        sp_find_close(ts, i, depth) matches Some(j) ==> i <= j < ts.len(),
    decreases ts.len() - i,
{
    if i < ts.len() {
        lemma_find_close_bounds(ts, i + 1, depth - 1);
        lemma_find_close_bounds(ts, i + 1, depth + 1);
        lemma_find_close_bounds(ts, i + 1, depth);
    }
}

/// Path segments starting at `i`: `ident (:: ident)*`. Returns the segment
/// texts and the index just past them.
pub open spec fn sp_segments(ts: Seq<TokM>, i: int) -> Option<(Seq<Seq<char>>, int)>
    decreases ts.len() - i,
    when 0 <= i <= ts.len()
{
    if i < ts.len() {
        match ts[i] {
            TokM::Ident(s) => if i + 3 <= ts.len() && ts[i + 1] == TokM::Punct(':') && ts[i + 2]
                == TokM::Punct(':') {
                match sp_segments(ts, i + 3) {
                    Some((rest, j)) => Some((seq![s] + rest, j)),
                    None => None,
                }
            } else {
                Some((seq![s], i + 1))
            },
            _ => None,
        }
    } else {
        None
    }
}

/// Parsed segments are nonempty and end within the stream, past the start.
pub proof fn lemma_segments_bounds(ts: Seq<TokM>, i: int)
    requires
        0 <= i <= ts.len(),
    ensures
        sp_segments(ts, i) matches Some((segs, j)) ==> i < j <= ts.len() && segs.len() >= 1,
    decreases ts.len() - i,
{
    if i + 3 <= ts.len() {
        lemma_segments_bounds(ts, i + 3);
    }
}

/// A type-reference path starting at `i`: optional leading `::`, then
/// segments. Returns the path and the index just past it.
pub open spec fn sp_type_path(ts: Seq<TokM>, i: int) -> Option<(TypePathM, int)>
    recommends
        0 <= i <= ts.len(),
{
    if i + 2 <= ts.len() && ts[i] == TokM::Punct(':') && ts[i + 1] == TokM::Punct(':') {
        match sp_segments(ts, i + 2) {
            Some((segs, j)) => Some((TypePathM { leading_colon: true, segments: segs }, j)),
            None => None,
        }
    } else {
        match sp_segments(ts, i) {
            Some((segs, j)) => Some((TypePathM { leading_colon: false, segments: segs }, j)),
            None => None,
        }
    }
}

/// A parsed type path ends within the stream, past the start.
pub proof fn lemma_type_path_bounds(ts: Seq<TokM>, i: int)
    requires
        0 <= i <= ts.len(),
    ensures
        sp_type_path(ts, i) matches Some((p, j)) ==> i < j <= ts.len(),
{
    lemma_segments_bounds(ts, i);
    if i + 2 <= ts.len() {
        lemma_segments_bounds(ts, i + 2);
    }
}

/// A comma-separated list of type paths filling `ts` from `i` to its end.
/// Zero elements and a trailing comma are accepted.
pub open spec fn sp_path_list(ts: Seq<TokM>, i: int) -> Option<Seq<TypePathM>>
    decreases ts.len() - i,
    when 0 <= i <= ts.len()
{
    if i == ts.len() {
        Some(Seq::empty())
    } else {
        match sp_type_path(ts, i) {
            None => None,
            Some((p, j)) => {
                proof {
                    lemma_type_path_bounds(ts, i);
                }
                if j == ts.len() {
                    Some(seq![p])
                } else if ts[j] == TokM::Punct(',') {
                    match sp_path_list(ts, j + 1) {
                        Some(r) => Some(seq![p] + r),
                        None => None,
                    }
                } else {
                    None
                }
            },
        }
    }
}

/// Index of the first comma at bracket depth zero and angle depth zero, at or
/// after `i`; the stream length when there is none.
pub open spec fn sp_first_sep(ts: Seq<TokM>, i: int, gdepth: int, adepth: int) -> int
    decreases ts.len() - i,
    when 0 <= i <= ts.len()
{
    if i == ts.len() {
        i
    } else {
        match ts[i] {
            TokM::Punct(c) => if c == ',' && gdepth == 0 && adepth == 0 {
                i
            } else if c == '<' && gdepth == 0 {
                sp_first_sep(ts, i + 1, gdepth, adepth + 1)
            } else if c == '>' && gdepth == 0 && adepth > 0 {
                sp_first_sep(ts, i + 1, gdepth, adepth - 1)
            } else {
                sp_first_sep(ts, i + 1, gdepth, adepth)
            },
            TokM::Open(_) => sp_first_sep(ts, i + 1, gdepth + 1, adepth),
            TokM::Close(_) => sp_first_sep(
                ts,
                i + 1,
                if gdepth > 0 {
                    gdepth - 1
                } else {
                    0
                },
                adepth,
            ),
            _ => sp_first_sep(ts, i + 1, gdepth, adepth),
        }
    }
}

/// The first separator lies between `i` and the stream's end.
pub proof fn lemma_first_sep_bounds(ts: Seq<TokM>, i: int, gdepth: int, adepth: int)
    requires
        0 <= i <= ts.len(),
    ensures
        i <= sp_first_sep(ts, i, gdepth, adepth) <= ts.len(),
    decreases ts.len() - i,
{
    if i < ts.len() {
        lemma_first_sep_bounds(ts, i + 1, gdepth, adepth + 1);
        lemma_first_sep_bounds(ts, i + 1, gdepth, adepth - 1);
        lemma_first_sep_bounds(ts, i + 1, gdepth, adepth);
        lemma_first_sep_bounds(ts, i + 1, gdepth + 1, adepth);
        lemma_first_sep_bounds(
            ts,
            i + 1,
            if gdepth > 0 {
                gdepth - 1
            } else {
                0
            },
            adepth,
        );
    }
}

/// A field declaration starting at `i`: an identifier, a colon, and a
/// nonempty opaque type run ending at the next top-level comma or at the
/// stream's end. Returns the field and the index of that comma or end.
pub open spec fn sp_field(ts: Seq<TokM>, i: int) -> Option<(FieldDeclM, int)>
    recommends
        0 <= i <= ts.len(),
{
    if i + 2 <= ts.len() {
        match ts[i] {
            TokM::Ident(name) => if ts[i + 1] == TokM::Punct(':') {
                let end = sp_first_sep(ts, i + 2, 0, 0);
                if end > i + 2 {
                    Some((FieldDeclM { name, ty: ts.subrange(i + 2, end) }, end))
                } else {
                    None
                }
            } else {
                None
            },
            _ => None,
        }
    } else {
        None
    }
}

/// A parsed field ends within the stream, past the start.
pub proof fn lemma_field_bounds(ts: Seq<TokM>, i: int)
    requires
        0 <= i <= ts.len(),
    ensures
        sp_field(ts, i) matches Some((f, j)) ==> i < j <= ts.len(),
{
    if i + 2 <= ts.len() {
        lemma_first_sep_bounds(ts, i + 2, 0, 0);
    }
}

/// A comma-separated list of field declarations filling `ts` from `i` to its
/// end. Zero elements and a trailing comma are accepted.
pub open spec fn sp_field_list(ts: Seq<TokM>, i: int) -> Option<Seq<FieldDeclM>>
    decreases ts.len() - i,
    when 0 <= i <= ts.len()
{
    if i == ts.len() {
        Some(Seq::empty())
    } else {
        match sp_field(ts, i) {
            None => None,
            Some((f, j)) => {
                proof {
                    lemma_field_bounds(ts, i);
                }
                if j == ts.len() {
                    Some(seq![f])
                } else if ts[j] == TokM::Punct(',') {
                    match sp_field_list(ts, j + 1) {
                        Some(r) => Some(seq![f] + r),
                        None => None,
                    }
                } else {
                    None
                }
            },
        }
    }
}

/// For a reserved keyword attribute `kw ( ... )`: the index of the closing
/// parenthesis, which must also end the stream. `None` when the keyword is
/// not followed by exactly one parenthesized group.
pub open spec fn sp_kw_close(ts: Seq<TokM>) -> Option<int> {
    if ts.len() >= 3 && ts[1] == TokM::Open(Delim::Paren) {
        match sp_find_close(ts, 2, 0) {
            Some(j) => if j == ts.len() - 1 && ts[j] == TokM::Close(Delim::Paren) {
                Some(j)
            } else {
                None
            },
            None => None,
        }
    } else {
        None
    }
}

/// Classification and full parse of one attribute's meta tokens.
pub open spec fn sp_parse_attr(ts: Seq<TokM>) -> Option<HelperAttrM> {
    if ts.len() == 0 {
        None
    } else {
        match ts[0] {
            TokM::Ident(s) => if s == kw_aggregate() {
                match sp_kw_close(ts) {
                    Some(j) => match sp_path_list(ts.subrange(2, j), 0) {
                        Some(ps) => Some(HelperAttrM::Aggregate(ps)),
                        None => None,
                    },
                    None => None,
                }
            } else if s == kw_fields() {
                match sp_kw_close(ts) {
                    Some(j) => match sp_field_list(ts.subrange(2, j), 0) {
                        Some(fs) => Some(HelperAttrM::Fields(fs)),
                        None => None,
                    },
                    None => None,
                }
            } else {
                match sp_segments(ts, 0) {
                    Some((segs, j)) => Some(
                        HelperAttrM::Regular(
                            RegularAttrM {
                                path: TypePathM { leading_colon: false, segments: segs },
                                rest: ts.subrange(j, ts.len() as int),
                            },
                        ),
                    ),
                    None => None,
                }
            },
            _ => None,
        }
    }
}

/// The model of an optional index.
pub open spec fn opt_index(r: Option<usize>) -> Option<int> {
    match r {
        Some(j) => Some(j as int),
        None => None,
    }
}

/// Scan for the closing bracket matching depth `depth`, from `i`.
pub fn find_close_at(ts: &Vec<Tok>, i: usize, depth: usize) -> (r: Option<usize>)
    requires
        depth <= i <= ts@.len(),
    ensures
        opt_index(r) == sp_find_close(toks(ts@), i as int, depth as int),
    decreases ts@.len() - i,
{
    if i == ts.len() {
        None
    } else {
        match &ts[i] {
            Tok::Close(_) => if depth == 0 {
                Some(i)
            } else {
                find_close_at(ts, i + 1, depth - 1)
            },
            Tok::Open(_) => find_close_at(ts, i + 1, depth + 1),
            _ => find_close_at(ts, i + 1, depth),
        }
    }
}

/// Parse path segments `ident (:: ident)*` starting at `i`.
fn parse_segments(ts: &Vec<Tok>, i: usize) -> (r: Option<(Vec<String>, usize)>)
    requires
        i <= ts@.len(),
    ensures
        match r {
            Some((segs, j)) => sp_segments(toks(ts@), i as int) == Some(
                (segs@.map_values(|s: String| s@), j as int),
            ),
            None => sp_segments(toks(ts@), i as int) is None,
        },
    decreases ts@.len() - i,
{
    if i < ts.len() {
        match &ts[i] {
            Tok::Ident(s) => {
                if ts.len() - i >= 3 && ts[i + 1].is_punct(':') && ts[i + 2].is_punct(':') {
                    match parse_segments(ts, i + 3) {
                        Some((mut rest, j)) => {
                            let ghost tail = rest@;
                            let c = s.clone();
                            rest.insert(0, c);
                            proof {
                                lemma_map_cons(tail, rest@[0], |x: String| x@);
                                assert(rest@.map_values(|x: String| x@) == seq![s@]
                                    + tail.map_values(|x: String| x@));
                            }
                            Some((rest, j))
                        },
                        None => None,
                    }
                } else {
                    let mut segs: Vec<String> = Vec::new();
                    segs.push(s.clone());
                    proof {
                        assert(segs@.map_values(|x: String| x@) =~= seq![s@]);
                    }
                    Some((segs, i + 1))
                }
            },
            _ => None,
        }
    } else {
        None
    }
}

/// Parse a type-reference path starting at `i`.
fn parse_type_path(ts: &Vec<Tok>, i: usize) -> (r: Option<(TypePath, usize)>)
    requires
        i <= ts@.len(),
    ensures
        match r {
            Some((p, j)) => sp_type_path(toks(ts@), i as int) == Some((p@, j as int)),
            None => sp_type_path(toks(ts@), i as int) is None,
        },
{
    if ts.len() - i >= 2 && ts[i].is_punct(':') && ts[i + 1].is_punct(':') {
        match parse_segments(ts, i + 2) {
            Some((segs, j)) => Some((TypePath { leading_colon: true, segments: segs }, j)),
            None => None,
        }
    } else {
        match parse_segments(ts, i) {
            Some((segs, j)) => Some((TypePath { leading_colon: false, segments: segs }, j)),
            None => None,
        }
    }
}

/// Parse a comma-separated path list filling `ts` from `i` to its end.
fn parse_path_list(ts: &Vec<Tok>, i: usize) -> (r: Option<Vec<TypePath>>)
    requires
        i <= ts@.len(),
    ensures
        match r {
            Some(ps) => sp_path_list(toks(ts@), i as int) == Some(
                ps@.map_values(|p: TypePath| p@),
            ),
            None => sp_path_list(toks(ts@), i as int) is None,
        },
    decreases ts@.len() - i,
{
    if i == ts.len() {
        let ps: Vec<TypePath> = Vec::new();
        proof {
            assert(ps@.map_values(|p: TypePath| p@) =~= Seq::<TypePathM>::empty());
        }
        Some(ps)
    } else {
        match parse_type_path(ts, i) {
            None => None,
            Some((p, j)) => {
                proof {
                    lemma_type_path_bounds(toks(ts@), i as int);
                }
                if j == ts.len() {
                    let mut ps: Vec<TypePath> = Vec::new();
                    ps.push(p);
                    proof {
                        assert(ps@.map_values(|x: TypePath| x@) =~= seq![ps@[0]@]);
                    }
                    Some(ps)
                } else if ts[j].is_punct(',') {
                    match parse_path_list(ts, j + 1) {
                        Some(mut rest) => {
                            let ghost tail = rest@;
                            let ghost pm = p@;
                            rest.insert(0, p);
                            proof {
                                lemma_map_cons(tail, rest@[0], |x: TypePath| x@);
                                assert(rest@.map_values(|x: TypePath| x@) == seq![pm]
                                    + tail.map_values(|x: TypePath| x@));
                            }
                            Some(rest)
                        },
                        None => None,
                    }
                } else {
                    None
                }
            },
        }
    }
}

/// Scan for the first comma at bracket depth zero and angle depth zero.
fn first_sep(ts: &Vec<Tok>, i: usize, gdepth: usize, adepth: usize) -> (r: usize)
    requires
        gdepth <= i <= ts@.len(),
        adepth <= i,
    ensures
        r as int == sp_first_sep(toks(ts@), i as int, gdepth as int, adepth as int),
    decreases ts@.len() - i,
{
    if i == ts.len() {
        i
    } else {
        match &ts[i] {
            Tok::Punct(c) => if *c == ',' && gdepth == 0 && adepth == 0 {
                i
            } else if *c == '<' && gdepth == 0 {
                first_sep(ts, i + 1, gdepth, adepth + 1)
            } else if *c == '>' && gdepth == 0 && adepth > 0 {
                first_sep(ts, i + 1, gdepth, adepth - 1)
            } else {
                first_sep(ts, i + 1, gdepth, adepth)
            },
            Tok::Open(_) => first_sep(ts, i + 1, gdepth + 1, adepth),
            Tok::Close(_) => first_sep(
                ts,
                i + 1,
                if gdepth > 0 {
                    gdepth - 1
                } else {
                    0
                },
                adepth,
            ),
            _ => first_sep(ts, i + 1, gdepth, adepth),
        }
    }
}

/// Parse one field declaration starting at `i`.
fn parse_field(ts: &Vec<Tok>, i: usize) -> (r: Option<(FieldDecl, usize)>)
    requires
        i <= ts@.len(),
    ensures
        match r {
            Some((f, j)) => sp_field(toks(ts@), i as int) == Some((f@, j as int)),
            None => sp_field(toks(ts@), i as int) is None,
        },
{
    if ts.len() - i >= 2 {
        match &ts[i] {
            Tok::Ident(name) => {
                if ts[i + 1].is_punct(':') {
                    let end = first_sep(ts, i + 2, 0, 0);
                    proof {
                        lemma_first_sep_bounds(toks(ts@), i + 2, 0, 0);
                    }
                    if end > i + 2 {
                        let ty = slice_range(ts, i + 2, end);
                        Some((FieldDecl { name: name.clone(), ty }, end))
                    } else {
                        None
                    }
                } else {
                    None
                }
            },
            _ => None,
        }
    } else {
        None
    }
}

/// Parse a comma-separated field list filling `ts` from `i` to its end.
fn parse_field_list(ts: &Vec<Tok>, i: usize) -> (r: Option<Vec<FieldDecl>>)
    requires
        i <= ts@.len(),
    ensures
        match r {
            Some(fs) => sp_field_list(toks(ts@), i as int) == Some(
                fs@.map_values(|f: FieldDecl| f@),
            ),
            None => sp_field_list(toks(ts@), i as int) is None,
        },
    decreases ts@.len() - i,
{
    if i == ts.len() {
        let fs: Vec<FieldDecl> = Vec::new();
        proof {
            assert(fs@.map_values(|f: FieldDecl| f@) =~= Seq::<FieldDeclM>::empty());
        }
        Some(fs)
    } else {
        match parse_field(ts, i) {
            None => None,
            Some((f, j)) => {
                proof {
                    lemma_field_bounds(toks(ts@), i as int);
                }
                if j == ts.len() {
                    let mut fs: Vec<FieldDecl> = Vec::new();
                    fs.push(f);
                    proof {
                        assert(fs@.map_values(|x: FieldDecl| x@) =~= seq![fs@[0]@]);
                    }
                    Some(fs)
                } else if ts[j].is_punct(',') {
                    match parse_field_list(ts, j + 1) {
                        Some(mut rest) => {
                            let ghost tail = rest@;
                            let ghost fm = f@;
                            rest.insert(0, f);
                            proof {
                                lemma_map_cons(tail, rest@[0], |x: FieldDecl| x@);
                                assert(rest@.map_values(|x: FieldDecl| x@) == seq![fm]
                                    + tail.map_values(|x: FieldDecl| x@));
                            }
                            Some(rest)
                        },
                        None => None,
                    }
                } else {
                    None
                }
            },
        }
    }
}

/// Check that a keyword attribute is followed by exactly one parenthesized
/// group ending the stream; return the closing parenthesis index.
fn kw_close(ts: &Vec<Tok>) -> (r: Option<usize>)
    ensures
        opt_index(r) == sp_kw_close(toks(ts@)),
        r matches Some(j) ==> 2 <= j < ts@.len(),
{
    if ts.len() >= 3 && ts[1].is_open(Delim::Paren) {
        match find_close_at(ts, 2, 0) {
            Some(j) => {
                proof {
                    lemma_find_close_bounds(toks(ts@), 2, 0);
                }
                if j == ts.len() - 1 && ts[j].is_close(Delim::Paren) {
                    Some(j)
                } else {
                    None
                }
            },
            None => None,
        }
    } else {
        None
    }
}

impl HelperAttr {
    /// Classify and fully parse one attribute's meta tokens into exactly one
    /// of the three recognized shapes. A reserved keyword claims the
    /// attribute deterministically: a malformed argument list after it is a
    /// hard failure, not a fallback to a regular attribute.
    pub fn parse(ts: &Vec<Tok>) -> (r: Result<HelperAttr, ParseError>)
        ensures
            match r {
                Ok(a) => sp_parse_attr(toks(ts@)) == Some(a@),
                Err(_) => sp_parse_attr(toks(ts@)) is None,
            },
    {
        if ts.len() == 0 {
            return Err(ParseError);
        }
        let is_agg = ts[0].is_ident("aggregate");
        let is_flds = if is_agg {
            false
        } else {
            ts[0].is_ident("fields")
        };
        if is_agg {
            match kw_close(ts) {
                Some(j) => {
                    let inner = slice_range(ts, 2, j);
                    match parse_path_list(&inner, 0) {
                        Some(ps) => Ok(HelperAttr::Aggregate(ps)),
                        None => Err(ParseError),
                    }
                },
                None => Err(ParseError),
            }
        } else if is_flds {
            match kw_close(ts) {
                Some(j) => {
                    let inner = slice_range(ts, 2, j);
                    match parse_field_list(&inner, 0) {
                        Some(fs) => Ok(HelperAttr::Fields(fs)),
                        None => Err(ParseError),
                    }
                },
                None => Err(ParseError),
            }
        } else {
            match &ts[0] {
                Tok::Ident(_) => {
                    match parse_segments(ts, 0) {
                        Some((segs, j)) => {
                            proof {
                                lemma_segments_bounds(toks(ts@), 0);
                            }
                            let rest = slice_range(ts, j, ts.len());
                            Ok(
                                HelperAttr::Regular(
                                    RegularAttr {
                                        path: TypePath { leading_colon: false, segments: segs },
                                        rest,
                                    },
                                ),
                            )
                        },
                        None => Err(ParseError),
                    }
                },
                _ => Err(ParseError),
            }
        }
    }
}

/// Tokens of a path's segments: `ident (:: ident)*`.
pub open spec fn sp_segs_toks(segs: Seq<Seq<char>>) -> Seq<TokM>
    decreases segs.len(),
{
    if segs.len() == 0 {
        Seq::empty()
    } else if segs.len() == 1 {
        seq![TokM::Ident(segs[0])]
    } else {
        seq![TokM::Ident(segs[0]), TokM::Punct(':'), TokM::Punct(':')] + sp_segs_toks(
            segs.skip(1),
        )
    }
}

/// Tokens of a type-reference path.
pub open spec fn sp_path_toks(p: TypePathM) -> Seq<TokM> {
    (if p.leading_colon {
        seq![TokM::Punct(':'), TokM::Punct(':')]
    } else {
        Seq::empty()
    }) + sp_segs_toks(p.segments)
}

/// Tokens of a comma-separated path list, without a trailing comma.
pub open spec fn sp_path_list_toks(ps: Seq<TypePathM>) -> Seq<TokM>
    decreases ps.len(),
{
    if ps.len() == 0 {
        Seq::empty()
    } else if ps.len() == 1 {
        sp_path_toks(ps[0])
    } else {
        sp_path_toks(ps[0]) + seq![TokM::Punct(',')] + sp_path_list_toks(ps.skip(1))
    }
}

/// Tokens of a field declaration: `name : Type`.
pub open spec fn sp_field_toks(f: FieldDeclM) -> Seq<TokM> {
    seq![TokM::Ident(f.name), TokM::Punct(':')] + f.ty
}

/// Tokens of a comma-separated field list, without a trailing comma.
pub open spec fn sp_field_list_toks(fs: Seq<FieldDeclM>) -> Seq<TokM>
    decreases fs.len(),
{
    if fs.len() == 0 {
        Seq::empty()
    } else if fs.len() == 1 {
        sp_field_toks(fs[0])
    } else {
        sp_field_toks(fs[0]) + seq![TokM::Punct(',')] + sp_field_list_toks(fs.skip(1))
    }
}

/// The meta tokens (the part inside `#[...]`) that a classified attribute
/// re-emits to.
pub open spec fn sp_attr_meta_toks(a: HelperAttrM) -> Seq<TokM> {
    match a {
        HelperAttrM::Aggregate(ps) => seq![
            TokM::Ident(kw_aggregate()),
            TokM::Open(Delim::Paren),
        ] + sp_path_list_toks(ps) + seq![TokM::Close(Delim::Paren)],
        HelperAttrM::Fields(fs) => seq![TokM::Ident(kw_fields()), TokM::Open(Delim::Paren)]
            + sp_field_list_toks(fs) + seq![TokM::Close(Delim::Paren)],
        HelperAttrM::Regular(r) => sp_path_toks(r.path) + r.rest,
    }
}

/// The full attribute tokens: the meta tokens wrapped in `#[...]`.
pub open spec fn sp_attr_toks(a: HelperAttrM) -> Seq<TokM> {
    seq![TokM::Punct('#'), TokM::Open(Delim::Bracket)] + sp_attr_meta_toks(a) + seq![
        TokM::Close(Delim::Bracket),
    ]
}

/// The meta tokens that the synthesizer builds from a keyword and an argument
/// stream: the bare keyword when the stream is empty, else the keyword with
/// the stream spliced into one parenthesized group, verbatim and unvalidated.
pub open spec fn sp_synth_meta(kw: Seq<char>, args: Seq<TokM>) -> Seq<TokM> {
    if args.len() == 0 {
        seq![TokM::Ident(kw)]
    } else {
        seq![TokM::Ident(kw), TokM::Open(Delim::Paren)] + args + seq![TokM::Close(Delim::Paren)]
    }
}

/// Emit a path's segment tokens from index `i` on.
fn emit_segs(segs: &Vec<String>, i: usize) -> (r: Vec<Tok>)
    requires
        i <= segs@.len(),
    ensures
        toks(r@) == sp_segs_toks(segs@.map_values(|s: String| s@).skip(i as int)),
    decreases segs@.len() - i,
{
    let ghost model = segs@.map_values(|s: String| s@);
    let mut r: Vec<Tok> = Vec::new();
    if i == segs.len() {
        proof {
            assert(toks(r@) =~= sp_segs_toks(model.skip(i as int)));
        }
        r
    } else if i + 1 == segs.len() {
        r.push(Tok::Ident(segs[i].clone()));
        proof {
            assert(model.skip(i as int) =~= seq![model[i as int]]);
            assert(toks(r@) =~= sp_segs_toks(model.skip(i as int)));
        }
        r
    } else {
        r.push(Tok::Ident(segs[i].clone()));
        r.push(Tok::Punct(':'));
        r.push(Tok::Punct(':'));
        let mut tail = emit_segs(segs, i + 1);
        let ghost head = r@;
        r.append(&mut tail);
        proof {
            lemma_map_concat(head, r@.skip(3), |t: Tok| t@);
            assert(r@ =~= head + r@.skip(3));
            assert(model.skip(i as int).skip(1) =~= model.skip(i + 1));
            assert(toks(head) =~= seq![
                TokM::Ident(model.skip(i as int)[0]),
                TokM::Punct(':'),
                TokM::Punct(':'),
            ]);
            assert(toks(r@) =~= sp_segs_toks(model.skip(i as int)));
        }
        r
    }
}

impl TypePath {
    /// Emit the path's tokens.
    pub fn to_tokens(&self) -> (r: Vec<Tok>)
        ensures
            toks(r@) == sp_path_toks(self@),
    {
        let mut r: Vec<Tok> = Vec::new();
        if self.leading_colon {
            r.push(Tok::Punct(':'));
            r.push(Tok::Punct(':'));
        }
        let ghost head = r@;
        let mut segs = emit_segs(&self.segments, 0);
        r.append(&mut segs);
        proof {
            lemma_map_concat(head, r@.skip(head.len() as int), |t: Tok| t@);
            assert(r@ =~= head + r@.skip(head.len() as int));
            assert(self.segments@.map_values(|s: String| s@).skip(0) =~= self@.segments);
            assert(toks(r@) =~= sp_path_toks(self@));
        }
        r
    }
}

/// Emit a comma-separated path list from index `i` on.
fn emit_path_list(ps: &Vec<TypePath>, i: usize) -> (r: Vec<Tok>)
    requires
        i <= ps@.len(),
    ensures
        toks(r@) == sp_path_list_toks(ps@.map_values(|p: TypePath| p@).skip(i as int)),
    decreases ps@.len() - i,
{
    let ghost model = ps@.map_values(|p: TypePath| p@);
    if i == ps.len() {
        let r: Vec<Tok> = Vec::new();
        proof {
            assert(toks(r@) =~= sp_path_list_toks(model.skip(i as int)));
        }
        r
    } else if i + 1 == ps.len() {
        let r = ps[i].to_tokens();
        proof {
            assert(model.skip(i as int) =~= seq![model[i as int]]);
        }
        r
    } else {
        let mut r = ps[i].to_tokens();
        r.push(Tok::Punct(','));
        let ghost head = r@;
        let mut tail = emit_path_list(ps, i + 1);
        r.append(&mut tail);
        proof {
            lemma_map_concat(head, r@.skip(head.len() as int), |t: Tok| t@);
            assert(r@ =~= head + r@.skip(head.len() as int));
            assert(model.skip(i as int).skip(1) =~= model.skip(i + 1));
            assert(toks(head) =~= sp_path_toks(model.skip(i as int)[0]) + seq![
                TokM::Punct(','),
            ]);
            assert(toks(r@) =~= sp_path_list_toks(model.skip(i as int)));
        }
        r
    }
}

/// Emit a comma-separated field list from index `i` on.
fn emit_field_list(fs: &Vec<FieldDecl>, i: usize) -> (r: Vec<Tok>)
    requires
        i <= fs@.len(),
    ensures
        toks(r@) == sp_field_list_toks(fs@.map_values(|f: FieldDecl| f@).skip(i as int)),
    decreases fs@.len() - i,
{
    let ghost model = fs@.map_values(|f: FieldDecl| f@);
    let mut r: Vec<Tok> = Vec::new();
    if i == fs.len() {
        proof {
            assert(toks(r@) =~= sp_field_list_toks(model.skip(i as int)));
        }
        return r;
    }
    r.push(Tok::Ident(fs[i].name.clone()));
    r.push(Tok::Punct(':'));
    let ghost head = r@;
    let mut ty = slice_range(&fs[i].ty, 0, fs[i].ty.len());
    r.append(&mut ty);
    proof {
        lemma_map_concat(head, r@.skip(2), |t: Tok| t@);
        assert(r@ =~= head + r@.skip(2));
        assert(toks(fs@[i as int].ty@).subrange(0, toks(fs@[i as int].ty@).len() as int)
            =~= toks(fs@[i as int].ty@));
        assert(toks(r@) =~= sp_field_toks(model[i as int]));
    }
    if i + 1 == fs.len() {
        proof {
            assert(model.skip(i as int) =~= seq![model[i as int]]);
        }
        r
    } else {
        r.push(Tok::Punct(','));
        let ghost head2 = r@;
        let mut tail = emit_field_list(fs, i + 1);
        r.append(&mut tail);
        proof {
            lemma_map_concat(head2, r@.skip(head2.len() as int), |t: Tok| t@);
            assert(r@ =~= head2 + r@.skip(head2.len() as int));
            assert(model.skip(i as int).skip(1) =~= model.skip(i + 1));
            assert(toks(head2) =~= sp_field_toks(model.skip(i as int)[0]) + seq![
                TokM::Punct(','),
            ]);
            assert(toks(r@) =~= sp_field_list_toks(model.skip(i as int)));
        }
        r
    }
}

impl HelperAttr {
    /// Re-emit the attribute as full attribute tokens (`#[...]`).
    ///
    /// An aggregate or field list is reproduced order-preserving from the
    /// exact elements parsed, with single comma separators; a regular
    /// attribute is reproduced verbatim.
    pub fn to_tokens(&self) -> (r: Vec<Tok>)
        ensures
            toks(r@) == sp_attr_toks(self@),
    {
        let mut r: Vec<Tok> = Vec::new();
        r.push(Tok::Punct('#'));
        r.push(Tok::Open(Delim::Bracket));
        let ghost head = r@;
        let mut meta = self.meta_tokens();
        r.append(&mut meta);
        r.push(Tok::Close(Delim::Bracket));
        proof {
            assert(r@ =~= head + r@.subrange(2, r@.len() - 1) + seq![r@.last()]);
            lemma_map_concat(head + r@.subrange(2, r@.len() - 1), seq![r@.last()], |t: Tok| t@);
            lemma_map_concat(head, r@.subrange(2, r@.len() - 1), |t: Tok| t@);
            assert(toks(r@) =~= sp_attr_toks(self@));
        }
        r
    }

    /// Re-emit the attribute's meta tokens (the part inside `#[...]`).
    pub fn meta_tokens(&self) -> (r: Vec<Tok>)
        ensures
            toks(r@) == sp_attr_meta_toks(self@),
    {
        match self {
            HelperAttr::Aggregate(ps) => {
                let mut r: Vec<Tok> = Vec::new();
                r.push(Tok::Ident("aggregate".to_owned()));
                r.push(Tok::Open(Delim::Paren));
                let ghost head = r@;
                let mut list = emit_path_list(ps, 0);
                r.append(&mut list);
                r.push(Tok::Close(Delim::Paren));
                proof {
                    assert(ps@.map_values(|p: TypePath| p@).skip(0) =~= ps@.map_values(
                        |p: TypePath| p@,
                    ));
                    assert(r@ =~= head + r@.subrange(2, r@.len() - 1) + seq![r@.last()]);
                    lemma_map_concat(
                        head + r@.subrange(2, r@.len() - 1),
                        seq![r@.last()],
                        |t: Tok| t@,
                    );
                    lemma_map_concat(head, r@.subrange(2, r@.len() - 1), |t: Tok| t@);
                    assert(toks(r@) =~= sp_attr_meta_toks(self@));
                }
                r
            },
            HelperAttr::Fields(fs) => {
                let mut r: Vec<Tok> = Vec::new();
                r.push(Tok::Ident("fields".to_owned()));
                r.push(Tok::Open(Delim::Paren));
                let ghost head = r@;
                let mut list = emit_field_list(fs, 0);
                r.append(&mut list);
                r.push(Tok::Close(Delim::Paren));
                proof {
                    assert(fs@.map_values(|f: FieldDecl| f@).skip(0) =~= fs@.map_values(
                        |f: FieldDecl| f@,
                    ));
                    assert(r@ =~= head + r@.subrange(2, r@.len() - 1) + seq![r@.last()]);
                    lemma_map_concat(
                        head + r@.subrange(2, r@.len() - 1),
                        seq![r@.last()],
                        |t: Tok| t@,
                    );
                    lemma_map_concat(head, r@.subrange(2, r@.len() - 1), |t: Tok| t@);
                    assert(toks(r@) =~= sp_attr_meta_toks(self@));
                }
                r
            },
            HelperAttr::Regular(reg) => {
                let mut r = reg.path.to_tokens();
                let ghost head = r@;
                let mut rest = slice_range(&reg.rest, 0, reg.rest.len());
                r.append(&mut rest);
                proof {
                    lemma_map_concat(head, r@.skip(head.len() as int), |t: Tok| t@);
                    assert(r@ =~= head + r@.skip(head.len() as int));
                    assert(toks(reg.rest@).subrange(0, toks(reg.rest@).len() as int)
                        =~= toks(reg.rest@));
                    assert(toks(r@) =~= sp_attr_meta_toks(self@));
                }
                r
            },
        }
    }
}

/// Build a syntactically valid attribute's meta tokens from a reserved
/// keyword and an optional, pre-formed argument token stream. The arguments
/// are spliced in verbatim and unvalidated: validation is the grammar
/// parser's job on a later pass, if one occurs.
pub fn synthesize_meta(kw: &str, args: &Vec<Tok>) -> (r: Vec<Tok>)
    ensures
        toks(r@) == sp_synth_meta(kw@, toks(args@)),
{
    let mut r: Vec<Tok> = Vec::new();
    r.push(Tok::Ident(kw.to_owned()));
    if args.len() == 0 {
        proof {
            assert(toks(r@) =~= sp_synth_meta(kw@, toks(args@)));
        }
        r
    } else {
        r.push(Tok::Open(Delim::Paren));
        let ghost head = r@;
        let mut args2 = slice_range(args, 0, args.len());
        r.append(&mut args2);
        r.push(Tok::Close(Delim::Paren));
        proof {
            assert(r@ =~= head + r@.subrange(2, r@.len() - 1) + seq![r@.last()]);
            lemma_map_concat(head + r@.subrange(2, r@.len() - 1), seq![r@.last()], |t: Tok| t@);
            lemma_map_concat(head, r@.subrange(2, r@.len() - 1), |t: Tok| t@);
            assert(toks(args@).subrange(0, toks(args@).len() as int) =~= toks(args@));
            assert(toks(r@) =~= sp_synth_meta(kw@, toks(args@)));
        }
        r
    }
}

/// Parsed path segments re-emit to exactly the tokens they were parsed from.
proof fn lemma_segments_emit(ts: Seq<TokM>, i: int)
    requires
        0 <= i <= ts.len(),
    ensures
        sp_segments(ts, i) matches Some((segs, j)) ==> sp_segs_toks(segs) == ts.subrange(i, j),
    decreases ts.len() - i,
{
    lemma_segments_bounds(ts, i);
    if i < ts.len() {
        match ts[i] {
            TokM::Ident(s) => {
                if i + 3 <= ts.len() && ts[i + 1] == TokM::Punct(':') && ts[i + 2] == TokM::Punct(
                    ':',
                ) {
                    lemma_segments_emit(ts, i + 3);
                    lemma_segments_bounds(ts, i + 3);
                    match sp_segments(ts, i + 3) {
                        Some((rest, j)) => {
                            assert((seq![s] + rest).skip(1) =~= rest);
                            assert(sp_segs_toks(seq![s] + rest) =~= ts.subrange(i, j));
                        },
                        None => {},
                    }
                } else {
                    match sp_segments(ts, i) {
                        Some((segs, j)) => {
                            assert(sp_segs_toks(segs) =~= ts.subrange(i, j));
                        },
                        None => {},
                    }
                }
            },
            _ => {},
        }
    }
}

/// Idempotence of regular pass-through: an attribute classified as regular
/// re-emits to meta tokens identical to the ones it was parsed from.
pub proof fn lemma_regular_round_trip(ts: Seq<TokM>, r: RegularAttrM)
    requires
        sp_parse_attr(ts) == Some(HelperAttrM::Regular(r)),
    ensures
        sp_attr_meta_toks(HelperAttrM::Regular(r)) == ts,
{
    lemma_segments_emit(ts, 0);
    lemma_segments_bounds(ts, 0);
    match sp_segments(ts, 0) {
        Some((segs, j)) => {
            assert(sp_path_toks(r.path) =~= sp_segs_toks(segs));
            assert(sp_attr_meta_toks(HelperAttrM::Regular(r)) =~= ts.subrange(0, j)
                + ts.subrange(j, ts.len() as int));
            assert(ts.subrange(0, j) + ts.subrange(j, ts.len() as int) =~= ts);
        },
        None => {},
    }
}


/// A parsed type path re-emits to exactly the tokens it was parsed from.
proof fn lemma_type_path_emit(ts: Seq<TokM>, i: int)
    requires
        0 <= i <= ts.len(),
    ensures
        sp_type_path(ts, i) matches Some((p, j)) ==> sp_path_toks(p) == ts.subrange(i, j),
{
    lemma_segments_emit(ts, i);
    lemma_segments_bounds(ts, i);
    if i + 2 <= ts.len() && ts[i] == TokM::Punct(':') && ts[i + 1] == TokM::Punct(':') {
        lemma_segments_emit(ts, i + 2);
        lemma_segments_bounds(ts, i + 2);
        match sp_segments(ts, i + 2) {
            Some((segs, j)) => {
                assert(sp_path_toks(TypePathM { leading_colon: true, segments: segs })
                    =~= ts.subrange(i, j));
            },
            None => {},
        }
    } else {
        match sp_segments(ts, i) {
            Some((segs, j)) => {
                assert(sp_path_toks(TypePathM { leading_colon: false, segments: segs })
                    =~= ts.subrange(i, j));
            },
            None => {},
        }
    }
}

/// A parsed path list re-emits to exactly the tokens it was parsed from,
/// dropping only a trailing comma.
pub proof fn lemma_path_list_emit(ts: Seq<TokM>, i: int)
    requires
        0 <= i <= ts.len(),
    ensures
        sp_path_list(ts, i) matches Some(ps) ==> sp_path_list_toks(ps) == ts.subrange(
            i,
            ts.len() as int,
        ) || ts.subrange(i, ts.len() as int) == sp_path_list_toks(ps) + seq![TokM::Punct(',')],
    decreases ts.len() - i,
{
    if i == ts.len() {
        match sp_path_list(ts, i) {
            Some(ps) => {
                assert(sp_path_list_toks(ps) =~= ts.subrange(i, ts.len() as int));
            },
            None => {},
        }
    } else {
        lemma_type_path_bounds(ts, i);
        lemma_type_path_emit(ts, i);
        match sp_type_path(ts, i) {
            None => {},
            Some((p, j)) => {
                if j == ts.len() {
                    match sp_path_list(ts, i) {
                        Some(ps) => {
                            assert(sp_path_list_toks(ps) =~= ts.subrange(i, ts.len() as int));
                        },
                        None => {},
                    }
                } else if ts[j] == TokM::Punct(',') {
                    lemma_path_list_emit(ts, j + 1);
                    match sp_path_list(ts, j + 1) {
                        Some(rest) => {
                            let ps = seq![p] + rest;
                            assert(ps[0] == p);
                            assert(ps.skip(1) =~= rest);
                            if rest.len() == 0 {
                                assert(ts.subrange(j + 1, ts.len() as int)
                                    =~= Seq::<TokM>::empty());
                                assert(ts.subrange(i, ts.len() as int) =~= sp_path_list_toks(ps)
                                    + seq![TokM::Punct(',')]);
                            } else {
                                assert(sp_path_list_toks(ps) =~= sp_path_toks(p) + seq![
                                    TokM::Punct(','),
                                ] + sp_path_list_toks(rest));
                                assert(ts.subrange(i, ts.len() as int) =~= ts.subrange(i, j)
                                    + seq![TokM::Punct(',')] + ts.subrange(
                                    j + 1,
                                    ts.len() as int,
                                ));
                                if sp_path_list_toks(rest) == ts.subrange(
                                    j + 1,
                                    ts.len() as int,
                                ) {
                                    assert(sp_path_list_toks(ps) =~= ts.subrange(
                                        i,
                                        ts.len() as int,
                                    ));
                                } else {
                                    assert(sp_path_list_toks(ps) + seq![TokM::Punct(',')]
                                        =~= ts.subrange(i, ts.len() as int));
                                }
                            }
                        },
                        None => {},
                    }
                }
            },
        }
    }
}

/// A parsed field list re-emits to exactly the tokens it was parsed from,
/// dropping only a trailing comma.
pub proof fn lemma_field_list_emit(ts: Seq<TokM>, i: int)
    requires
        0 <= i <= ts.len(),
    ensures
        sp_field_list(ts, i) matches Some(fs) ==> sp_field_list_toks(fs) == ts.subrange(
            i,
            ts.len() as int,
        ) || ts.subrange(i, ts.len() as int) == sp_field_list_toks(fs) + seq![TokM::Punct(',')],
    decreases ts.len() - i,
{
    if i == ts.len() {
        match sp_field_list(ts, i) {
            Some(fs) => {
                assert(sp_field_list_toks(fs) =~= ts.subrange(i, ts.len() as int));
            },
            None => {},
        }
    } else {
        lemma_field_bounds(ts, i);
        match sp_field(ts, i) {
            None => {},
            Some((f, j)) => {
                assert(sp_field_toks(f) =~= ts.subrange(i, j));
                if j == ts.len() {
                    match sp_field_list(ts, i) {
                        Some(fs) => {
                            assert(sp_field_list_toks(fs) =~= ts.subrange(i, ts.len() as int));
                        },
                        None => {},
                    }
                } else if ts[j] == TokM::Punct(',') {
                    lemma_field_list_emit(ts, j + 1);
                    match sp_field_list(ts, j + 1) {
                        Some(rest) => {
                            let fs = seq![f] + rest;
                            assert(fs[0] == f);
                            assert(fs.skip(1) =~= rest);
                            if rest.len() == 0 {
                                assert(ts.subrange(j + 1, ts.len() as int)
                                    =~= Seq::<TokM>::empty());
                                assert(ts.subrange(i, ts.len() as int) =~= sp_field_list_toks(fs)
                                    + seq![TokM::Punct(',')]);
                            } else {
                                assert(sp_field_list_toks(fs) =~= sp_field_toks(f) + seq![
                                    TokM::Punct(','),
                                ] + sp_field_list_toks(rest));
                                assert(ts.subrange(i, ts.len() as int) =~= ts.subrange(i, j)
                                    + seq![TokM::Punct(',')] + ts.subrange(
                                    j + 1,
                                    ts.len() as int,
                                ));
                                if sp_field_list_toks(rest) == ts.subrange(
                                    j + 1,
                                    ts.len() as int,
                                ) {
                                    assert(sp_field_list_toks(fs) =~= ts.subrange(
                                        i,
                                        ts.len() as int,
                                    ));
                                } else {
                                    assert(sp_field_list_toks(fs) + seq![TokM::Punct(',')]
                                        =~= ts.subrange(i, ts.len() as int));
                                }
                            }
                        },
                        None => {},
                    }
                }
            },
        }
    }
}

/// Round-trip of the keyword shapes: an attribute classified as an aggregate
/// or field list re-emits to meta tokens identical to the ones it was parsed
/// from, up to dropping a trailing comma inside the parentheses.
pub proof fn lemma_keyword_round_trip(ts: Seq<TokM>, a: HelperAttrM)
    requires
        sp_parse_attr(ts) == Some(a),
        a matches HelperAttrM::Aggregate(_) || a matches HelperAttrM::Fields(_),
    ensures
        sp_attr_meta_toks(a) == ts || ts == sp_attr_meta_toks(a).subrange(
            0,
            sp_attr_meta_toks(a).len() - 1,
        ) + seq![TokM::Punct(','), TokM::Close(Delim::Paren)],
{
    match sp_kw_close(ts) {
        Some(j) => {
            let inner = ts.subrange(2, j);
            match a {
                HelperAttrM::Aggregate(ps) => {
                    lemma_path_list_emit(inner, 0);
                    assert(inner.subrange(0, inner.len() as int) =~= inner);
                    let m = sp_attr_meta_toks(a);
                    assert(ts[0] == TokM::Ident(kw_aggregate()));
                    assert(ts =~= seq![TokM::Ident(kw_aggregate()), TokM::Open(Delim::Paren)]
                        + inner + seq![TokM::Close(Delim::Paren)]);
                    if sp_path_list_toks(ps) == inner {
                        assert(m =~= ts);
                    } else {
                        assert(inner =~= sp_path_list_toks(ps) + seq![TokM::Punct(',')]);
                        assert(m.subrange(0, m.len() - 1) =~= seq![
                            TokM::Ident(kw_aggregate()),
                            TokM::Open(Delim::Paren),
                        ] + sp_path_list_toks(ps));
                        assert(m.subrange(0, m.len() - 1) + seq![
                            TokM::Punct(','),
                            TokM::Close(Delim::Paren),
                        ] =~= ts);
                    }
                },
                HelperAttrM::Fields(fs) => {
                    lemma_field_list_emit(inner, 0);
                    assert(inner.subrange(0, inner.len() as int) =~= inner);
                    let m = sp_attr_meta_toks(a);
                    assert(ts[0] == TokM::Ident(kw_fields()));
                    assert(ts =~= seq![TokM::Ident(kw_fields()), TokM::Open(Delim::Paren)]
                        + inner + seq![TokM::Close(Delim::Paren)]);
                    if sp_field_list_toks(fs) == inner {
                        assert(m =~= ts);
                    } else {
                        assert(inner =~= sp_field_list_toks(fs) + seq![TokM::Punct(',')]);
                        assert(m.subrange(0, m.len() - 1) =~= seq![
                            TokM::Ident(kw_fields()),
                            TokM::Open(Delim::Paren),
                        ] + sp_field_list_toks(fs));
                        assert(m.subrange(0, m.len() - 1) + seq![
                            TokM::Punct(','),
                            TokM::Close(Delim::Paren),
                        ] =~= ts);
                    }
                },
                HelperAttrM::Regular(_) => {},
            }
        },
        None => {},
    }
}

} // verus!
