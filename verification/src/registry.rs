//! The declaration registry: a session-wide store mapping a canonical
//! declaration path to the token form of that declaration as last exported.
//!
//! Lookup is order-insensitive beyond "has the path been registered by the
//! time the lookup fires": a later registration for the same path overwrites
//! the earlier one, and a lookup on an unregistered path reports absence (the
//! caller surfaces that as a fatal unresolved-reference error, never as an
//! empty aggregate). Keys are matched exactly; there is no scope search.

use vstd::prelude::*;

use crate::attr::{TypePath, TypePathM};
use crate::token::{toks, Tok, TokM};

verus! {

/// One registered declaration.
pub struct RegEntry {
    pub key: TypePath,
    pub toks: Vec<Tok>,
}

/// The registry, modeled as a map from canonical paths to exported tokens.
pub struct Registry {
    pub entries: Vec<RegEntry>,
}

/// The map that a sequence of registrations builds up, later entries
/// overwriting earlier ones.
pub open spec fn reg_map(entries: Seq<RegEntry>) -> Map<TypePathM, Seq<TokM>>
    decreases entries.len(),
{
    if entries.len() == 0 {
        Map::empty()
    } else {
        reg_map(entries.drop_last()).insert(entries.last().key@, toks(entries.last().toks@))
    }
}

impl View for Registry {
    type V = Map<TypePathM, Seq<TokM>>;

    open spec fn view(&self) -> Map<TypePathM, Seq<TokM>> {
        reg_map(self.entries@)
    }
}

/// Whether two paths are the same canonical path.
pub fn path_eq(a: &TypePath, b: &TypePath) -> (r: bool)
    ensures
        r == (a@ == b@),
{
    if a.leading_colon != b.leading_colon {
        proof {
            assert(a@.leading_colon != b@.leading_colon);
        }
        return false;
    }
    if a.segments.len() != b.segments.len() {
        proof {
            assert(a@.segments.len() != b@.segments.len());
        }
        return false;
    }
    let mut k: usize = 0;
    while k < a.segments.len()
        invariant
            k <= a.segments@.len(),
            a.segments@.len() == b.segments@.len(),
            a@.leading_colon == b@.leading_colon,
            forall|m: int| 0 <= m < k ==> a@.segments[m] == b@.segments[m],
        decreases a.segments@.len() - k,
    {
        if !(a.segments[k] == b.segments[k]) {
            proof {
                assert(a@.segments[k as int] != b@.segments[k as int]);
            }
            return false;
        }
        k = k + 1;
    }
    proof {
        assert(a@.segments =~= b@.segments);
        assert(a@ =~= b@);
    }
    true
}

/// Lookup within the first `i` registrations, latest first.
fn lookup_in<'a>(entries: &'a Vec<RegEntry>, key: &TypePath, i: usize) -> (r: Option<&'a Vec<Tok>>)
    requires
        i <= entries@.len(),
    ensures
        match r {
            Some(v) => reg_map(entries@.take(i as int)).contains_key(key@) && toks(v@) == reg_map(
                entries@.take(i as int),
            )[key@],
            None => !reg_map(entries@.take(i as int)).contains_key(key@),
        },
    decreases i,
{
    if i == 0 {
        proof {
            assert(entries@.take(0) =~= Seq::<RegEntry>::empty());
        }
        None
    } else {
        proof {
            assert(entries@.take(i as int).drop_last() =~= entries@.take(i - 1));
            assert(entries@.take(i as int).last() == entries@[i - 1]);
        }
        if path_eq(&entries[i - 1].key, key) {
            Some(&entries[i - 1].toks)
        } else {
            lookup_in(entries, key, i - 1)
        }
    }
}

impl Registry {
    /// An empty registry.
    pub fn new() -> (r: Registry)
        ensures
            r@ == Map::<TypePathM, Seq<TokM>>::empty(),
    {
        Registry { entries: Vec::new() }
    }

    /// Insert or overwrite the entry for `key` with `toks_`. Called as the
    /// final step of processing a declaration, with its exported token form.
    pub fn register(&mut self, key: TypePath, toks_: Vec<Tok>)
        ensures
            final(self)@ == old(self)@.insert(key@, toks(toks_@)),
    {
        let ghost km = key@;
        let ghost tm = toks(toks_@);
        let ghost prev = self.entries@;
        self.entries.push(RegEntry { key, toks: toks_ });
        proof {
            assert(self.entries@.drop_last() =~= prev);
            assert(self.entries@.last().key@ == km);
            assert(toks(self.entries@.last().toks@) == tm);
        }
    }

    /// The exported tokens registered for `key`, when any registration has
    /// happened for it; `None` otherwise.
    pub fn lookup<'a>(&'a self, key: &TypePath) -> (r: Option<&'a Vec<Tok>>)
        ensures
            match r {
                Some(v) => self@.contains_key(key@) && toks(v@) == self@[key@],
                None => !self@.contains_key(key@),
            },
    {
        let r = lookup_in(&self.entries, key, self.entries.len());
        proof {
            assert(self.entries@.take(self.entries@.len() as int) =~= self.entries@);
        }
        r
    }
}

} // verus!
