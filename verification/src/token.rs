//! The lexical token model that all declarations and attributes are made of.
//!
//! Token streams are kept flat: a bracket pair appears as an `Open` marker,
//! the tokens between the brackets, and a `Close` marker, rather than as a
//! nested tree. This keeps every parser a scan over one sequence.

use vstd::prelude::*;

verus! {

/// The kind of a bracket pair.
#[derive(Clone, Copy, Debug, PartialEq, Eq, Structural)]
pub enum Delim {
    Paren,
    Bracket,
    Brace,
}

/// One lexical token.
#[derive(Debug, PartialEq, Eq)]
pub enum Tok {
    /// An identifier or keyword, by its text.
    Ident(String),
    /// A single punctuation character.
    Punct(char),
    /// A literal, by its source text.
    Lit(String),
    /// An opening bracket.
    Open(Delim),
    /// A closing bracket.
    Close(Delim),
}

/// The mathematical model of a token: text as a sequence of characters.
pub enum TokM {
    Ident(Seq<char>),
    Punct(char),
    Lit(Seq<char>),
    Open(Delim),
    Close(Delim),
}

impl View for Tok {
    type V = TokM;

    open spec fn view(&self) -> TokM {
        match self {
            Tok::Ident(s) => TokM::Ident(s@),
            Tok::Punct(c) => TokM::Punct(*c),
            Tok::Lit(s) => TokM::Lit(s@),
            Tok::Open(d) => TokM::Open(*d),
            Tok::Close(d) => TokM::Close(*d),
        }
    }
}

/// The model of a token sequence.
pub open spec fn toks(v: Seq<Tok>) -> Seq<TokM> {
    v.map_values(|t: Tok| t@)
}

impl Clone for Tok {
    fn clone(&self) -> (r: Self)
        ensures
            r@ == self@,
    {
        match self {
            Tok::Ident(s) => Tok::Ident(s.clone()),
            Tok::Punct(c) => Tok::Punct(*c),
            Tok::Lit(s) => Tok::Lit(s.clone()),
            Tok::Open(d) => Tok::Open(*d),
            Tok::Close(d) => Tok::Close(*d),
        }
    }
}

impl Tok {
    /// True when the token is the identifier with text `kw`.
    pub fn is_ident(&self, kw: &str) -> (r: bool)
        ensures
            r == (self@ matches TokM::Ident(s) && s == kw@),
    {
        match self {
            Tok::Ident(s) => {
                let k: String = kw.to_owned();
                *s == k
            },
            _ => false,
        }
    }

    /// True when the token is the punctuation character `c`.
    pub fn is_punct(&self, c: char) -> (r: bool)
        ensures
            r == (self@ matches TokM::Punct(p) && p == c),
    {
        match self {
            Tok::Punct(p) => *p == c,
            _ => false,
        }
    }

    /// True when the token opens a bracket pair of kind `d`.
    pub fn is_open(&self, d: Delim) -> (r: bool)
        ensures
            r == (self@ matches TokM::Open(x) && x == d),
    {
        match self {
            Tok::Open(x) => *x == d,
            _ => false,
        }
    }

    /// True when the token closes a bracket pair of kind `d`.
    pub fn is_close(&self, d: Delim) -> (r: bool)
        ensures
            r == (self@ matches TokM::Close(x) && x == d),
    {
        match self {
            Tok::Close(x) => *x == d,
            _ => false,
        }
    }
}

/// A fresh copy of the token range `[lo, hi)` of `ts`.
pub fn slice_range(ts: &Vec<Tok>, lo: usize, hi: usize) -> (r: Vec<Tok>)
    requires
        lo <= hi <= ts@.len(),
    ensures
        toks(r@) == toks(ts@).subrange(lo as int, hi as int),
{
    let mut r: Vec<Tok> = Vec::new();
    let mut k: usize = lo;
    while k < hi
        invariant
            lo <= k <= hi <= ts@.len(),
            toks(r@) == toks(ts@).subrange(lo as int, k as int),
        decreases hi - k,
    {
        let ghost prev = r@;
        let c = ts[k].clone();
        r.push(c);
        k = k + 1;
        proof {
            assert(toks(r@) =~= toks(prev).push(ts@[k - 1]@));
            assert(toks(r@) =~= toks(ts@).subrange(lo as int, k as int));
        }
    }
    proof {
        assert(toks(r@) =~= toks(ts@).subrange(lo as int, hi as int));
    }
    r
}

/// Mapping a sequence element-wise distributes over concatenation.
pub proof fn lemma_map_concat<A, B>(a: Seq<A>, b: Seq<A>, f: spec_fn(A) -> B)
    ensures
        (a + b).map_values(f) == a.map_values(f) + b.map_values(f),
{
    assert((a + b).map_values(f) =~= a.map_values(f) + b.map_values(f));
}

/// Mapping a sequence element-wise distributes over a front insertion.
pub proof fn lemma_map_cons<A, B>(v: Seq<A>, x: A, f: spec_fn(A) -> B)
    ensures
        v.insert(0, x).map_values(f) == seq![f(x)] + v.map_values(f),
{
    assert(v.insert(0, x).map_values(f) =~= seq![f(x)] + v.map_values(f));
}

} // verus!
