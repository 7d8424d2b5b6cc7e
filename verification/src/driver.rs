//! The top-level driver: strip and classify a declaration's attributes,
//! resolve every aggregate reference through the registry, union the variant
//! lists, and re-export the rewritten declaration for future lookups.
//!
//! Cyclic references (two declarations that each aggregate the other) are
//! supported by a two-phase protocol: [`declare`] first registers every
//! declaration's skeleton (its own variants, attributes untouched), then
//! [`super_enum`] processes each declaration in turn, overwriting its
//! registry entry with the merged form. A declaration processed later thus
//! sees the merged form of one processed earlier and the skeleton of one not
//! yet processed. Duplicate variant names arising from a merge are retained
//! as written: no deduplication is performed.

use vstd::prelude::*;

use crate::attr::{
    sp_attr_meta_toks, sp_parse_attr, sp_synth_meta, synthesize_meta, HelperAttr, HelperAttrM,
    TypePath, TypePathM,
};
use crate::decl::{sp_decl_toks, sp_parse_decl, EnumDecl, EnumDeclM, VariantM};
use crate::registry::Registry;
use crate::token::{lemma_map_concat, toks, Tok, TokM};

verus! {

/// Failure of one declaration's processing.
#[derive(Debug, PartialEq, Eq)]
pub enum ProcError {
    /// Malformed declaration or attribute syntax, or a non-empty
    /// attribute-position argument on the top-level annotation itself.
    Grammar,
    /// An aggregate entry names a path with no registry entry at lookup time.
    Unresolved(TypePath),
    /// A resolved registry entry fails to parse back into a declaration.
    Malformed(TypePath),
}

/// Model of a processing failure.
#[verifier::ext_equal]
pub enum ProcErrorM {
    Grammar,
    Unresolved(TypePathM),
    Malformed(TypePathM),
}

impl View for ProcError {
    type V = ProcErrorM;

    open spec fn view(&self) -> ProcErrorM {
        match self {
            ProcError::Grammar => ProcErrorM::Grammar,
            ProcError::Unresolved(p) => ProcErrorM::Unresolved(p@),
            ProcError::Malformed(p) => ProcErrorM::Malformed(p@),
        }
    }
}

/// Partition a declaration's attribute metas: regular attributes keep their
/// re-emitted metas, in original relative order; aggregate attributes
/// contribute their paths, concatenated in the order encountered; field
/// attributes contribute nothing. Any meta the grammar rejects fails the
/// whole partition.
pub open spec fn sp_split_attrs(attrs: Seq<Seq<TokM>>) -> Option<
    (Seq<Seq<TokM>>, Seq<TypePathM>),
>
    decreases attrs.len(),
{
    if attrs.len() == 0 {
        Some((Seq::empty(), Seq::empty()))
    } else {
        match sp_parse_attr(attrs[0]) {
            None => None,
            Some(a) => match sp_split_attrs(attrs.skip(1)) {
                None => None,
                Some((regs, paths)) => match a {
                    HelperAttrM::Regular(r) => Some(
                        (seq![sp_attr_meta_toks(HelperAttrM::Regular(r))] + regs, paths),
                    ),
                    HelperAttrM::Aggregate(ps) => Some((regs, ps + paths)),
                    HelperAttrM::Fields(_) => Some((regs, paths)),
                },
            },
        }
    }
}

/// Fold the variants of each source path's registered declaration onto
/// `acc`, left to right. The first path that is unregistered, or whose
/// registered tokens do not parse back, fails the whole fold.
pub open spec fn sp_resolve(
    reg: Map<TypePathM, Seq<TokM>>,
    paths: Seq<TypePathM>,
    acc: Seq<VariantM>,
) -> Result<Seq<VariantM>, ProcErrorM>
    decreases paths.len(),
{
    if paths.len() == 0 {
        Ok(acc)
    } else if !reg.contains_key(paths[0]) {
        Err(ProcErrorM::Unresolved(paths[0]))
    } else {
        match sp_parse_decl(reg[paths[0]]) {
            None => Err(ProcErrorM::Malformed(paths[0])),
            Some(src) => sp_resolve(reg, paths.skip(1), acc + src.variants),
        }
    }
}

/// The canonical registry path of a declaration: its bare name.
pub open spec fn sp_self_path(name: Seq<char>) -> TypePathM {
    TypePathM { leading_colon: false, segments: seq![name] }
}

/// Processing of one parsed declaration against a registry: partition the
/// attributes, resolve and fold every aggregate reference, and emit the
/// rewritten declaration (regular attributes in original order, own variants
/// first, aggregated variants appended in reference order), registered under
/// the declaration's canonical path.
pub open spec fn sp_drive(d: EnumDeclM, reg: Map<TypePathM, Seq<TokM>>) -> Result<
    (Seq<TokM>, Map<TypePathM, Seq<TokM>>),
    ProcErrorM,
> {
    match sp_split_attrs(d.attrs) {
        None => Err(ProcErrorM::Grammar),
        Some((regs, paths)) => match sp_resolve(reg, paths, d.variants) {
            Err(e) => Err(e),
            Ok(vs) => {
                let out = EnumDeclM { attrs: regs, name: d.name, variants: vs };
                Ok((sp_decl_toks(out), reg.insert(sp_self_path(d.name), sp_decl_toks(out))))
            },
        },
    }
}

/// Full processing of one declaration's tokens: the top-level annotation
/// takes no arguments, the declaration must parse, and the rest is
/// [`sp_drive`].
pub open spec fn sp_process(
    attr: Seq<TokM>,
    ts: Seq<TokM>,
    reg: Map<TypePathM, Seq<TokM>>,
) -> Result<(Seq<TokM>, Map<TypePathM, Seq<TokM>>), ProcErrorM> {
    if attr.len() != 0 {
        Err(ProcErrorM::Grammar)
    } else {
        match sp_parse_decl(ts) {
            None => Err(ProcErrorM::Grammar),
            Some(d) => sp_drive(d, reg),
        }
    }
}

/// Pre-registration of a declaration's skeleton: the declaration is parsed
/// and its canonical re-emission registered under its name, attributes
/// untouched and no reference resolved.
pub open spec fn sp_declare(
    attr: Seq<TokM>,
    ts: Seq<TokM>,
    reg: Map<TypePathM, Seq<TokM>>,
) -> Result<Map<TypePathM, Seq<TokM>>, ProcErrorM> {
    if attr.len() != 0 {
        Err(ProcErrorM::Grammar)
    } else {
        match sp_parse_decl(ts) {
            None => Err(ProcErrorM::Grammar),
            Some(d) => Ok(reg.insert(sp_self_path(d.name), sp_decl_toks(d))),
        }
    }
}

/// Attachment of a synthesized keyword attribute to a declaration: the
/// declaration re-emits with `kw` or `kw(args)` appended to its attribute
/// list, the argument stream spliced in verbatim and unvalidated.
pub open spec fn sp_attach(kw: Seq<char>, args: Seq<TokM>, ts: Seq<TokM>) -> Result<
    Seq<TokM>,
    ProcErrorM,
> {
    match sp_parse_decl(ts) {
        None => Err(ProcErrorM::Grammar),
        Some(d) => Ok(
            sp_decl_toks(
                EnumDeclM {
                    attrs: d.attrs.push(sp_synth_meta(kw, args)),
                    name: d.name,
                    variants: d.variants,
                },
            ),
        ),
    }
}

/// One merge step: the local declaration re-emits with the foreign
/// declaration's variants appended, in the foreign declaration's own order,
/// after the local declaration's own variants.
pub open spec fn sp_merge(local: Seq<TokM>, foreign: Seq<TokM>) -> Result<Seq<TokM>, ProcErrorM> {
    match sp_parse_decl(local) {
        None => Err(ProcErrorM::Grammar),
        Some(l) => match sp_parse_decl(foreign) {
            None => Err(ProcErrorM::Grammar),
            Some(f) => Ok(
                sp_decl_toks(
                    EnumDeclM { attrs: l.attrs, name: l.name, variants: l.variants + f.variants },
                ),
            ),
        },
    }
}

/// Invariant of the attribute-partition loop: the partition of the whole
/// list is the accumulators extended by the partition of the remainder.
pub open spec fn split_loop_inv(
    attrs: Seq<Seq<TokM>>,
    k: int,
    regs: Seq<Seq<TokM>>,
    paths: Seq<TypePathM>,
) -> bool {
    sp_split_attrs(attrs) == (match sp_split_attrs(attrs.skip(k)) {
        Some((r2, p2)) => Some((regs + r2, paths + p2)),
        None => None::<(Seq<Seq<TokM>>, Seq<TypePathM>)>,
    })
}

/// Invariant of the resolve loop: resolving the whole path list from the
/// declaration's own variants equals resolving the remainder from the
/// accumulated variants.
pub open spec fn resolve_loop_inv(
    reg: Map<TypePathM, Seq<TokM>>,
    paths: Seq<TypePathM>,
    k: int,
    own: Seq<VariantM>,
    acc: Seq<VariantM>,
) -> bool {
    sp_resolve(reg, paths, own) == sp_resolve(reg, paths.skip(k), acc)
}

/// Process one annotated declaration: classify its attributes, resolve every
/// aggregate reference through `reg`, fold the referenced variants in, emit
/// the rewritten declaration, and register that form under the declaration's
/// canonical path. Errors leave the registry unchanged.
pub fn super_enum(attr: &Vec<Tok>, tokens: &Vec<Tok>, reg: &mut Registry) -> (r: Result<
    Vec<Tok>,
    ProcError,
>)
    ensures
        match r {
            Ok(out) => sp_process(toks(attr@), toks(tokens@), old(reg)@) == Ok::<
                (Seq<TokM>, Map<TypePathM, Seq<TokM>>),
                ProcErrorM,
            >((toks(out@), final(reg)@)),
            Err(e) => sp_process(toks(attr@), toks(tokens@), old(reg)@) == Err::<
                (Seq<TokM>, Map<TypePathM, Seq<TokM>>),
                ProcErrorM,
            >(e@) && final(reg)@ == old(reg)@,
        },
{
    if attr.len() != 0 {
        return Err(ProcError::Grammar);
    }
    let d = match EnumDecl::parse(tokens) {
        Ok(d) => d,
        Err(_) => {
            return Err(ProcError::Grammar);
        },
    };
    let ghost dm = d@;
    // Partition the attribute list.
    let mut regs: Vec<Vec<Tok>> = Vec::new();
    let mut paths: Vec<TypePath> = Vec::new();
    let mut k: usize = 0;
    proof {
        assert(dm.attrs.skip(0) =~= dm.attrs);
        assert(regs@.map_values(|a: Vec<Tok>| toks(a@)) =~= Seq::<Seq<TokM>>::empty());
        assert(paths@.map_values(|p: TypePath| p@) =~= Seq::<TypePathM>::empty());
        match sp_split_attrs(dm.attrs) {
            Some((r2, p2)) => {
                assert(Seq::<Seq<TokM>>::empty() + r2 =~= r2);
                assert(Seq::<TypePathM>::empty() + p2 =~= p2);
            },
            None => {},
        }
    }
    while k < d.attrs.len()
        invariant
            k <= d.attrs@.len(),
            dm == d@,
            reg@ == old(reg)@,
            toks(attr@).len() == 0,
            sp_parse_decl(toks(tokens@)) == Some(dm),
            split_loop_inv(
                dm.attrs,
                k as int,
                regs@.map_values(|a: Vec<Tok>| toks(a@)),
                paths@.map_values(|p: TypePath| p@),
            ),
        decreases d.attrs@.len() - k,
    {
        let ghost regs0 = regs@.map_values(|a: Vec<Tok>| toks(a@));
        let ghost paths0 = paths@.map_values(|p: TypePath| p@);
        let ghost rem = dm.attrs.skip(k as int);
        proof {
            assert(rem[0] == dm.attrs[k as int]);
            assert(rem.skip(1) =~= dm.attrs.skip(k + 1));
        }
        let h = match HelperAttr::parse(&d.attrs[k]) {
            Ok(h) => h,
            Err(_) => {
                proof {
                    assert(sp_split_attrs(rem) is None);
                }
                return Err(ProcError::Grammar);
            },
        };
        match h {
            HelperAttr::Regular(ra) => {
                let ha = HelperAttr::Regular(ra);
                let ghost ham = ha@;
                let meta = ha.meta_tokens();
                regs.push(meta);
                proof {
                    assert(regs@.map_values(|a: Vec<Tok>| toks(a@)) =~= regs0 + seq![
                        sp_attr_meta_toks(ham),
                    ]);
                    match sp_split_attrs(dm.attrs.skip(k + 1)) {
                        Some((r2, p2)) => {
                            assert(regs0 + (seq![sp_attr_meta_toks(ham)] + r2) =~= (regs0 + seq![
                                sp_attr_meta_toks(ham),
                            ]) + r2);
                        },
                        None => {},
                    }
                }
            },
            HelperAttr::Aggregate(mut ps) => {
                let ghost psm = ps@.map_values(|p: TypePath| p@);
                paths.append(&mut ps);
                proof {
                    lemma_map_concat(paths0.subrange(0, paths0.len() as int), psm, |p: TypePathM| p);
                    assert(paths@.map_values(|p: TypePath| p@) =~= paths0 + psm);
                    match sp_split_attrs(dm.attrs.skip(k + 1)) {
                        Some((r2, p2)) => {
                            assert(paths0 + (psm + p2) =~= (paths0 + psm) + p2);
                        },
                        None => {},
                    }
                }
            },
            HelperAttr::Fields(_) => {},
        }
        k = k + 1;
    }
    proof {
        assert(dm.attrs.skip(k as int) =~= Seq::<Seq<TokM>>::empty());
        assert(regs@.map_values(|a: Vec<Tok>| toks(a@)) + Seq::<Seq<TokM>>::empty()
            =~= regs@.map_values(|a: Vec<Tok>| toks(a@)));
        assert(paths@.map_values(|p: TypePath| p@) + Seq::<TypePathM>::empty()
            =~= paths@.map_values(|p: TypePath| p@));
    }
    let ghost regsm = regs@.map_values(|a: Vec<Tok>| toks(a@));
    let ghost pathsm = paths@.map_values(|p: TypePath| p@);
    proof {
        assert(sp_split_attrs(dm.attrs) == Some((regsm, pathsm)));
    }
    // Resolve every aggregate reference and fold the variants in.
    let mut variants = d.variants;
    let ghost own = dm.variants;
    let mut j: usize = 0;
    proof {
        assert(pathsm.skip(0) =~= pathsm);
    }
    while j < paths.len()
        invariant
            j <= paths@.len(),
            pathsm == paths@.map_values(|p: TypePath| p@),
            reg@ == old(reg)@,
            toks(attr@).len() == 0,
            sp_parse_decl(toks(tokens@)) == Some(dm),
            own == dm.variants,
            sp_split_attrs(dm.attrs) == Some(
                (regs@.map_values(|a: Vec<Tok>| toks(a@)), pathsm),
            ),
            resolve_loop_inv(
                reg@,
                pathsm,
                j as int,
                own,
                variants@.map_values(|v: crate::decl::Variant| v@),
            ),
        decreases paths@.len() - j,
    {
        let ghost acc0 = variants@.map_values(|v: crate::decl::Variant| v@);
        let ghost rem = pathsm.skip(j as int);
        proof {
            assert(rem[0] == pathsm[j as int]);
            assert(rem.skip(1) =~= pathsm.skip(j + 1));
        }
        let src_toks = match reg.lookup(&paths[j]) {
            Some(v) => v,
            None => {
                return Err(ProcError::Unresolved(paths[j].clone()));
            },
        };
        let src = match EnumDecl::parse(src_toks) {
            Ok(s) => s,
            Err(_) => {
                return Err(ProcError::Malformed(paths[j].clone()));
            },
        };
        let ghost srcm = src@;
        let mut sv = src.variants;
        variants.append(&mut sv);
        proof {
            lemma_map_concat(acc0.subrange(0, acc0.len() as int), srcm.variants, |v: VariantM| v);
            assert(variants@.map_values(|v: crate::decl::Variant| v@) =~= acc0 + srcm.variants);
        }
        j = j + 1;
    }
    proof {
        assert(pathsm.skip(j as int) =~= Seq::<TypePathM>::empty());
    }
    let ghost vsm = variants@.map_values(|v: crate::decl::Variant| v@);
    proof {
        assert(sp_resolve(reg@, pathsm, own) == Ok::<Seq<VariantM>, ProcErrorM>(vsm));
    }
    // Emit the rewritten declaration and register it under its own name.
    let name_copy = d.name.clone();
    let out = EnumDecl { attrs: regs, name: d.name, variants };
    let out_toks = out.to_tokens();
    let copy = crate::token::slice_range(&out_toks, 0, out_toks.len());
    let mut key_segs: Vec<String> = Vec::new();
    key_segs.push(name_copy);
    let key = TypePath { leading_colon: false, segments: key_segs };
    proof {
        assert(key@.segments =~= seq![dm.name]);
        assert(key@ =~= sp_self_path(dm.name));
        assert(out@ =~= EnumDeclM { attrs: regsm, name: dm.name, variants: vsm });
        assert(toks(copy@) =~= toks(out_toks@));
    }
    reg.register(key, copy);
    Ok(out_toks)
}

/// Pre-register a declaration's skeleton under its canonical path, so that a
/// later or mutual aggregate reference can resolve to it before the
/// declaration itself is processed. The top-level annotation takes no
/// arguments. Errors leave the registry unchanged.
pub fn declare(attr: &Vec<Tok>, tokens: &Vec<Tok>, reg: &mut Registry) -> (r: Result<
    (),
    ProcError,
>)
    ensures
        match r {
            Ok(_) => sp_declare(toks(attr@), toks(tokens@), old(reg)@) == Ok::<
                Map<TypePathM, Seq<TokM>>,
                ProcErrorM,
            >(final(reg)@),
            Err(e) => sp_declare(toks(attr@), toks(tokens@), old(reg)@) == Err::<
                Map<TypePathM, Seq<TokM>>,
                ProcErrorM,
            >(e@) && final(reg)@ == old(reg)@,
        },
{
    if attr.len() != 0 {
        return Err(ProcError::Grammar);
    }
    let d = match EnumDecl::parse(tokens) {
        Ok(d) => d,
        Err(_) => {
            return Err(ProcError::Grammar);
        },
    };
    let ghost dm = d@;
    let name_copy = d.name.clone();
    let out_toks = d.to_tokens();
    let mut key_segs: Vec<String> = Vec::new();
    key_segs.push(name_copy);
    let key = TypePath { leading_colon: false, segments: key_segs };
    proof {
        assert(key@.segments =~= seq![dm.name]);
        assert(key@ =~= sp_self_path(dm.name));
    }
    reg.register(key, out_toks);
    Ok(())
}

/// Attach a synthesized keyword attribute to a declaration's token form.
pub fn attribute_helper(kw: &str, attr: &Vec<Tok>, tokens: &Vec<Tok>) -> (r: Result<
    Vec<Tok>,
    ProcError,
>)
    ensures
        match r {
            Ok(out) => sp_attach(kw@, toks(attr@), toks(tokens@)) == Ok::<Seq<TokM>, ProcErrorM>(
                toks(out@),
            ),
            Err(e) => sp_attach(kw@, toks(attr@), toks(tokens@)) == Err::<Seq<TokM>, ProcErrorM>(
                e@,
            ),
        },
{
    let mut d = match EnumDecl::parse(tokens) {
        Ok(d) => d,
        Err(_) => {
            return Err(ProcError::Grammar);
        },
    };
    let ghost dm = d@;
    let meta = synthesize_meta(kw, attr);
    d.attrs.push(meta);
    proof {
        assert(d@.attrs =~= dm.attrs.push(sp_synth_meta(kw@, toks(attr@))));
        assert(d@ =~= EnumDeclM {
            attrs: dm.attrs.push(sp_synth_meta(kw@, toks(attr@))),
            name: dm.name,
            variants: dm.variants,
        });
    }
    Ok(d.to_tokens())
}

/// Attach a `fields(...)` attribute (or the bare `fields`) to a declaration.
/// The attribute is retained for round-trip only: it has no semantic effect
/// on the emitted variants.
pub fn fields(attr: &Vec<Tok>, tokens: &Vec<Tok>) -> (r: Result<Vec<Tok>, ProcError>)
    ensures
        match r {
            Ok(out) => sp_attach(crate::attr::kw_fields(), toks(attr@), toks(tokens@)) == Ok::<
                Seq<TokM>,
                ProcErrorM,
            >(toks(out@)),
            Err(e) => sp_attach(crate::attr::kw_fields(), toks(attr@), toks(tokens@)) == Err::<
                Seq<TokM>,
                ProcErrorM,
            >(e@),
        },
{
    attribute_helper("fields", attr, tokens)
}

/// Attach an `aggregate(...)` attribute (or the bare `aggregate`) to a
/// declaration.
pub fn aggregate(attr: &Vec<Tok>, tokens: &Vec<Tok>) -> (r: Result<Vec<Tok>, ProcError>)
    ensures
        match r {
            Ok(out) => sp_attach(crate::attr::kw_aggregate(), toks(attr@), toks(tokens@)) == Ok::<
                Seq<TokM>,
                ProcErrorM,
            >(toks(out@)),
            Err(e) => sp_attach(crate::attr::kw_aggregate(), toks(attr@), toks(tokens@)) == Err::<
                Seq<TokM>,
                ProcErrorM,
            >(e@),
        },
{
    attribute_helper("aggregate", attr, tokens)
}

/// One merge step: append the foreign declaration's variants, in their own
/// declared order, after the local declaration's variants, and re-emit.
pub fn merge_source(local: &Vec<Tok>, foreign: &Vec<Tok>) -> (r: Result<Vec<Tok>, ProcError>)
    ensures
        match r {
            Ok(out) => sp_merge(toks(local@), toks(foreign@)) == Ok::<Seq<TokM>, ProcErrorM>(
                toks(out@),
            ),
            Err(e) => sp_merge(toks(local@), toks(foreign@)) == Err::<Seq<TokM>, ProcErrorM>(e@),
        },
{
    let mut l = match EnumDecl::parse(local) {
        Ok(d) => d,
        Err(_) => {
            return Err(ProcError::Grammar);
        },
    };
    let f = match EnumDecl::parse(foreign) {
        Ok(d) => d,
        Err(_) => {
            return Err(ProcError::Grammar);
        },
    };
    let ghost lm = l@;
    let ghost fm = f@;
    let mut fv = f.variants;
    l.variants.append(&mut fv);
    proof {
        lemma_map_concat(
            lm.variants.subrange(0, lm.variants.len() as int),
            fm.variants,
            |v: VariantM| v,
        );
        assert(l@.variants =~= lm.variants + fm.variants);
        assert(l@ =~= EnumDeclM {
            attrs: lm.attrs,
            name: lm.name,
            variants: lm.variants + fm.variants,
        });
    }
    Ok(l.to_tokens())
}


/// The variants that a path list contributes: each registered source's
/// variants, in the source's own declared order, sources in list order.
pub open spec fn sp_source_variants(reg: Map<TypePathM, Seq<TokM>>, paths: Seq<TypePathM>) -> Seq<
    VariantM,
>
    decreases paths.len(),
{
    if paths.len() == 0 {
        Seq::empty()
    } else {
        (match sp_parse_decl(reg[paths[0]]) {
            Some(src) => src.variants,
            None => Seq::empty(),
        }) + sp_source_variants(reg, paths.skip(1))
    }
}

/// Variant union: when every referenced path is registered with a
/// well-formed declaration, resolving succeeds and yields the target's own
/// variants as the prefix, followed by each source's variants in reference
/// order.
pub proof fn lemma_variant_union(
    reg: Map<TypePathM, Seq<TokM>>,
    paths: Seq<TypePathM>,
    acc: Seq<VariantM>,
)
    requires
        forall|i: int|
            0 <= i < paths.len() ==> reg.contains_key(#[trigger] paths[i]) && sp_parse_decl(
                reg[paths[i]],
            ) is Some,
    ensures
        sp_resolve(reg, paths, acc) == Ok::<Seq<VariantM>, ProcErrorM>(
            acc + sp_source_variants(reg, paths),
        ),
    decreases paths.len(),
{
    if paths.len() == 0 {
        assert(acc + sp_source_variants(reg, paths) =~= acc);
    } else {
        assert(reg.contains_key(paths[0]));
        let src = sp_parse_decl(reg[paths[0]])->Some_0;
        assert forall|i: int| 0 <= i < paths.skip(1).len() implies reg.contains_key(
            #[trigger] paths.skip(1)[i],
        ) && sp_parse_decl(reg[paths.skip(1)[i]]) is Some by {
            assert(paths.skip(1)[i] == paths[i + 1]);
        }
        lemma_variant_union(reg, paths.skip(1), acc + src.variants);
        assert((acc + src.variants) + sp_source_variants(reg, paths.skip(1)) =~= acc + (
        src.variants + sp_source_variants(reg, paths.skip(1))));
    }
}

/// An unresolved reference is fatal: when some referenced path has no
/// registry entry, resolving fails; it is never treated as an empty
/// aggregate.
pub proof fn lemma_unresolved_reference_fails(
    reg: Map<TypePathM, Seq<TokM>>,
    paths: Seq<TypePathM>,
    acc: Seq<VariantM>,
)
    requires
        exists|i: int| 0 <= i < paths.len() && !reg.contains_key(#[trigger] paths[i]),
    ensures
        sp_resolve(reg, paths, acc) is Err,
    decreases paths.len(),
{
    let i = choose|i: int| 0 <= i < paths.len() && !reg.contains_key(#[trigger] paths[i]);
    if reg.contains_key(paths[0]) {
        match sp_parse_decl(reg[paths[0]]) {
            None => {},
            Some(src) => {
                assert(i >= 1);
                assert(paths.skip(1)[i - 1] == paths[i]);
                lemma_unresolved_reference_fails(reg, paths.skip(1), acc + src.variants);
            },
        }
    }
}

/// Inserting a `fields(...)` attribute anywhere in an attribute list leaves
/// the attribute partition unchanged.
proof fn lemma_fields_split_inert(attrs: Seq<Seq<TokM>>, k: int, m: Seq<TokM>, fs: Seq<
    crate::attr::FieldDeclM,
>)
    requires
        0 <= k <= attrs.len(),
        sp_parse_attr(m) == Some(HelperAttrM::Fields(fs)),
    ensures
        sp_split_attrs(attrs.insert(k, m)) == sp_split_attrs(attrs),
    decreases attrs.len(),
{
    let ins = attrs.insert(k, m);
    if k == 0 {
        assert(ins[0] == m);
        assert(ins.skip(1) =~= attrs);
    } else {
        assert(ins[0] == attrs[0]);
        assert(ins.skip(1) =~= attrs.skip(1).insert(k - 1, m));
        lemma_fields_split_inert(attrs.skip(1), k - 1, m, fs);
    }
}

/// A `fields(...)` attribute is semantically inert: a declaration processed
/// with such an attribute inserted anywhere in its attribute list rewrites to
/// exactly the same output, and registers exactly the same form, as the
/// declaration without it.
pub proof fn lemma_fields_attr_inert(
    d: EnumDeclM,
    k: int,
    m: Seq<TokM>,
    fs: Seq<crate::attr::FieldDeclM>,
    reg: Map<TypePathM, Seq<TokM>>,
)
    requires
        0 <= k <= d.attrs.len(),
        sp_parse_attr(m) == Some(HelperAttrM::Fields(fs)),
    ensures
        sp_drive(EnumDeclM { attrs: d.attrs.insert(k, m), name: d.name, variants: d.variants }, reg)
            == sp_drive(d, reg),
{
    lemma_fields_split_inert(d.attrs, k, m, fs);
}

/// The regular metas a partition keeps are balanced whenever the attribute
/// metas they came from are: a regular attribute re-emits verbatim.
proof fn lemma_split_regulars_balanced(attrs: Seq<Seq<TokM>>)
    requires
        forall|k: int| 0 <= k < attrs.len() ==> crate::decl::balanced(#[trigger] attrs[k]),
    ensures
        sp_split_attrs(attrs) matches Some((regs, paths)) ==> forall|k: int|
            0 <= k < regs.len() ==> crate::decl::balanced(#[trigger] regs[k]),
    decreases attrs.len(),
{
    if attrs.len() > 0 {
        match sp_parse_attr(attrs[0]) {
            None => {},
            Some(a) => {
                assert forall|k: int| 0 <= k < attrs.skip(1).len() implies crate::decl::balanced(
                    #[trigger] attrs.skip(1)[k],
                ) by {
                    assert(attrs.skip(1)[k] == attrs[k + 1]);
                }
                lemma_split_regulars_balanced(attrs.skip(1));
                match sp_split_attrs(attrs.skip(1)) {
                    None => {},
                    Some((regs, paths)) => match a {
                        HelperAttrM::Regular(r) => {
                            crate::attr::lemma_regular_round_trip(attrs[0], r);
                            let all = seq![sp_attr_meta_toks(HelperAttrM::Regular(r))] + regs;
                            assert forall|k: int| 0 <= k < all.len() implies
                                crate::decl::balanced(#[trigger] all[k]) by {
                                if k > 0 {
                                    assert(all[k] == regs[k - 1]);
                                }
                            }
                        },
                        _ => {},
                    },
                }
            },
        }
    }
}

/// Resolution preserves variant well-formedness: sources come out of the
/// registry only through the declaration grammar.
proof fn lemma_resolve_output_wf(
    reg: Map<TypePathM, Seq<TokM>>,
    paths: Seq<TypePathM>,
    acc: Seq<VariantM>,
)
    requires
        forall|k: int| 0 <= k < acc.len() ==> crate::decl::wf_variant(#[trigger] acc[k]),
    ensures
        sp_resolve(reg, paths, acc) matches Ok(vs) ==> forall|k: int|
            0 <= k < vs.len() ==> crate::decl::wf_variant(#[trigger] vs[k]),
    decreases paths.len(),
{
    if paths.len() > 0 && reg.contains_key(paths[0]) {
        crate::decl::lemma_parsed_decl_wf(reg[paths[0]]);
        match sp_parse_decl(reg[paths[0]]) {
            None => {},
            Some(src) => {
                assert forall|k: int| 0 <= k < (acc + src.variants).len() implies
                    crate::decl::wf_variant(#[trigger] (acc + src.variants)[k]) by {
                    if k >= acc.len() {
                        assert((acc + src.variants)[k] == src.variants[k - acc.len()]);
                    }
                }
                lemma_resolve_output_wf(reg, paths.skip(1), acc + src.variants);
            },
        }
    }
}

/// Processing never poisons the registry: the rewritten form a successful
/// pass emits — and registers under the declaration's canonical path — always
/// parses back as a declaration. Together with the analogous fact for
/// skeleton registration, the malformed-source failure is unreachable through
/// entries this driver registered itself.
pub proof fn lemma_process_registers_consistent(
    attr: Seq<TokM>,
    ts: Seq<TokM>,
    reg: Map<TypePathM, Seq<TokM>>,
)
    ensures
        sp_process(attr, ts, reg) matches Ok(p) ==> sp_parse_decl(p.0) is Some,
{
    crate::decl::lemma_parsed_decl_wf(ts);
    match sp_parse_decl(ts) {
        None => {},
        Some(d) => {
            lemma_split_regulars_balanced(d.attrs);
            match sp_split_attrs(d.attrs) {
                None => {},
                Some((regs, paths)) => {
                    lemma_resolve_output_wf(reg, paths, d.variants);
                    match sp_resolve(reg, paths, d.variants) {
                        Err(_) => {},
                        Ok(vs) => {
                            let out = EnumDeclM { attrs: regs, name: d.name, variants: vs };
                            assert(crate::decl::wf_decl(out));
                            crate::decl::lemma_decl_round_trip(out);
                        },
                    }
                },
            }
        },
    }
}

} // verus!
