use vstd::prelude::*;
use crate::Error;
use crate::dictionary::{Dictionary, merge_all, merge_one};
use crate::expansion::{Expansion, ExpansionModel};
use crate::metadata::{WordMetadata, meta_union};
use crate::replacement::{
    AffixReplacement, ReplacementModel, copy_chars, prefix_applies, prefix_derived,
    suffix_applies, suffix_derived,
};

verus! {

/// One base dictionary entry: a word, its flag identifiers, and its own
/// grammatical metadata, as the external dictionary loader supplies them.
#[derive(Clone, Debug)]
pub struct BaseEntry {
    pub word: Vec<char>,
    pub flags: Vec<char>,
    pub metadata: WordMetadata,
}

/// The mathematical value of a base entry.
#[verifier::ext_equal]
pub struct EntryModel {
    pub word: Seq<char>,
    pub flags: Seq<char>,
    pub metadata: WordMetadata,
}

impl View for BaseEntry {
    type V = EntryModel;

    open spec fn view(&self) -> EntryModel {
        EntryModel { word: self.word@, flags: self.flags@, metadata: self.metadata }
    }
}

/// The value of a flag table.
pub open spec fn table_views(t: Seq<(char, Expansion)>) -> Seq<(char, ExpansionModel)> {
    t.map_values(|p: (char, Expansion)| (p.0, p.1@))
}

/// The value of a contribution list.
pub open spec fn pair_views(s: Seq<(Vec<char>, WordMetadata)>) -> Seq<(Seq<char>, WordMetadata)> {
    s.map_values(|p: (Vec<char>, WordMetadata)| (p.0@, p.1))
}

/// The expansion registered for a flag: the first table entry that carries it.
pub open spec fn lookup_exp(table: Seq<(char, ExpansionModel)>, f: char) -> Option<ExpansionModel>
    decreases table.len(),
{
    if table.len() == 0 {
        None
    } else if table[0].0 == f {
        Some(table[0].1)
    } else {
        lookup_exp(table.drop_first(), f)
    }
}

/// A property-only flag: a suffix-side expansion with no replacements, which
/// merely tags the base word.
pub open spec fn is_property_only(e: ExpansionModel) -> bool {
    e.suffix_or_property && e.replacements.len() == 0
}

/// A prefix expansion that may combine across the word.
pub open spec fn is_cross_prefix(e: ExpansionModel) -> bool {
    !e.suffix_or_property && e.cross_product
}

/// A form-producing suffix expansion that may combine across the word.
pub open spec fn is_cross_suffix(e: ExpansionModel) -> bool {
    e.suffix_or_property && e.cross_product && e.replacements.len() > 0
}

/// Whether a prefix rule and a suffix rule can both transform one word: both
/// conditions match and the stripped regions do not overlap.
pub open spec fn cross_applies(rp: ReplacementModel, rs: ReplacementModel, w: Seq<char>) -> bool {
    &&& prefix_applies(rp, w)
    &&& suffix_applies(rs, w)
    &&& rp.strip.len() + rs.strip.len() <= w.len()
}

/// The doubly transformed spelling: both rules applied to the same base.
pub open spec fn cross_derived(rp: ReplacementModel, rs: ReplacementModel, w: Seq<char>) -> Seq<
    char,
> {
    rp.add + w.subrange(rp.strip.len() as int, w.len() - rs.strip.len()) + rs.add
}

/// What one expansion's replacements contribute for one word: each rule whose
/// condition matches the relevant end yields the derived spelling with the
/// target metadata, and tags the base word with the base metadata.
pub open spec fn rep_contribs(
    w: Seq<char>,
    reps: Seq<ReplacementModel>,
    suffix: bool,
    target: WordMetadata,
    base: WordMetadata,
) -> Seq<(Seq<char>, WordMetadata)>
    decreases reps.len(),
{
    if reps.len() == 0 {
        Seq::empty()
    } else {
        (if suffix {
            if suffix_applies(reps[0], w) {
                seq![(suffix_derived(reps[0], w), target), (w, base)]
            } else {
                Seq::<(Seq<char>, WordMetadata)>::empty()
            }
        } else {
            if prefix_applies(reps[0], w) {
                seq![(prefix_derived(reps[0], w), target), (w, base)]
            } else {
                Seq::<(Seq<char>, WordMetadata)>::empty()
            }
        }) + rep_contribs(w, reps.drop_first(), suffix, target, base)
    }
}

/// What one flag contributes for one word.
pub open spec fn flag_contribs(w: Seq<char>, e: ExpansionModel) -> Seq<(Seq<char>, WordMetadata)> {
    if is_property_only(e) {
        seq![(w, e.base_metadata)]
    } else {
        rep_contribs(w, e.replacements, e.suffix_or_property, e.target_metadata, e.base_metadata)
    }
}

/// What an entry's flags contribute, in flag order.
pub open spec fn flags_contribs(
    w: Seq<char>,
    flags: Seq<char>,
    table: Seq<(char, ExpansionModel)>,
) -> Seq<(Seq<char>, WordMetadata)>
    decreases flags.len(),
{
    if flags.len() == 0 {
        Seq::empty()
    } else {
        flag_contribs(w, lookup_exp(table, flags[0]).unwrap()) + flags_contribs(
            w,
            flags.drop_first(),
            table,
        )
    }
}

/// The doubly transformed spellings one prefix rule produces against a
/// suffix expansion's rules.
pub open spec fn cross_rep_one(
    w: Seq<char>,
    rp: ReplacementModel,
    sreps: Seq<ReplacementModel>,
    tm: WordMetadata,
) -> Seq<(Seq<char>, WordMetadata)>
    decreases sreps.len(),
{
    if sreps.len() == 0 {
        Seq::empty()
    } else {
        (if cross_applies(rp, sreps[0], w) {
            seq![(cross_derived(rp, sreps[0], w), tm)]
        } else {
            Seq::<(Seq<char>, WordMetadata)>::empty()
        }) + cross_rep_one(w, rp, sreps.drop_first(), tm)
    }
}

/// The doubly transformed spellings of one prefix expansion against one
/// suffix expansion; the metadata is the merge of both target sets.
pub open spec fn cross_reps(
    w: Seq<char>,
    preps: Seq<ReplacementModel>,
    sreps: Seq<ReplacementModel>,
    tm: WordMetadata,
) -> Seq<(Seq<char>, WordMetadata)>
    decreases preps.len(),
{
    if preps.len() == 0 {
        Seq::empty()
    } else {
        cross_rep_one(w, preps[0], sreps, tm) + cross_reps(w, preps.drop_first(), sreps, tm)
    }
}

/// One cross-product prefix expansion against every cross-product suffix flag
/// the entry carries.
pub open spec fn cross_with_suffixes(
    w: Seq<char>,
    pexp: ExpansionModel,
    flags: Seq<char>,
    table: Seq<(char, ExpansionModel)>,
) -> Seq<(Seq<char>, WordMetadata)>
    decreases flags.len(),
{
    if flags.len() == 0 {
        Seq::empty()
    } else {
        (if is_cross_suffix(lookup_exp(table, flags[0]).unwrap()) {
            cross_reps(
                w,
                pexp.replacements,
                lookup_exp(table, flags[0]).unwrap().replacements,
                meta_union(pexp.target_metadata, lookup_exp(table, flags[0]).unwrap().target_metadata),
            )
        } else {
            Seq::<(Seq<char>, WordMetadata)>::empty()
        }) + cross_with_suffixes(w, pexp, flags.drop_first(), table)
    }
}

/// Every cross-product pair of the entry's flags.
pub open spec fn cross_contribs(
    w: Seq<char>,
    outer: Seq<char>,
    all: Seq<char>,
    table: Seq<(char, ExpansionModel)>,
) -> Seq<(Seq<char>, WordMetadata)>
    decreases outer.len(),
{
    if outer.len() == 0 {
        Seq::empty()
    } else {
        (if is_cross_prefix(lookup_exp(table, outer[0]).unwrap()) {
            cross_with_suffixes(w, lookup_exp(table, outer[0]).unwrap(), all, table)
        } else {
            Seq::<(Seq<char>, WordMetadata)>::empty()
        }) + cross_contribs(w, outer.drop_first(), all, table)
    }
}

/// Everything one base entry contributes to the expanded dictionary: itself,
/// each flag's derived forms and base tags, then the cross-product forms.
pub open spec fn entry_contribs(e: EntryModel, table: Seq<(char, ExpansionModel)>) -> Seq<
    (Seq<char>, WordMetadata),
> {
    seq![(e.word, e.metadata)] + flags_contribs(e.word, e.flags, table) + cross_contribs(
        e.word,
        e.flags,
        e.flags,
        table,
    )
}

/// Whether every flag of a list has a registered expansion.
pub open spec fn flags_known(flags: Seq<char>, table: Seq<(char, ExpansionModel)>) -> bool {
    forall|i: int| 0 <= i < flags.len() ==> lookup_exp(table, #[trigger] flags[i]) is Some
}

/// Whether every flag of every entry has a registered expansion.
pub open spec fn entries_known(
    entries: Seq<EntryModel>,
    table: Seq<(char, ExpansionModel)>,
) -> bool {
    forall|i: int| 0 <= i < entries.len() ==> flags_known(
        (#[trigger] entries[i]).flags,
        table,
    )
}

/// The ordered contribution stream of a whole base dictionary.
pub open spec fn all_contribs(
    entries: Seq<EntryModel>,
    table: Seq<(char, ExpansionModel)>,
) -> Seq<(Seq<char>, WordMetadata)>
    decreases entries.len(),
{
    if entries.len() == 0 {
        Seq::empty()
    } else {
        entry_contribs(entries[0], table) + all_contribs(entries.drop_first(), table)
    }
}

proof fn lemma_merge_all_push(
    s: Seq<(Seq<char>, WordMetadata)>,
    c: Seq<(Seq<char>, WordMetadata)>,
    p: (Seq<char>, WordMetadata),
)
    ensures
        merge_all(s, c.push(p)) == merge_one(merge_all(s, c), p.0, p.1),
    decreases c.len(),
{
    if c.len() == 0 {
        let single = c.push(p);
        assert(single[0] == p);
        assert(single.drop_first() =~= Seq::<(Seq<char>, WordMetadata)>::empty());
        assert(merge_all(s, single) == merge_all(merge_one(s, p.0, p.1), single.drop_first()));
        assert(merge_all(merge_one(s, p.0, p.1), single.drop_first()) == merge_one(s, p.0, p.1));
        assert(merge_all(s, c) == s);
    } else {
        let cp = c.push(p);
        assert(cp[0] == c[0]);
        assert(cp.drop_first() =~= c.drop_first().push(p));
        lemma_merge_all_push(merge_one(s, c[0].0, c[0].1), c.drop_first(), p);
        assert(merge_all(s, cp) == merge_all(merge_one(s, cp[0].0, cp[0].1), cp.drop_first()));
        assert(merge_all(s, c) == merge_all(merge_one(s, c[0].0, c[0].1), c.drop_first()));
    }
}

fn lookup_exec(table: &Vec<(char, Expansion)>, f: char) -> (r: Option<usize>)
    ensures
        match r {
            Some(ix) => ix < table@.len() && table@[ix as int].0 == f && lookup_exp(
                table_views(table@),
                f,
            ) == Some(table@[ix as int].1@),
            None => lookup_exp(table_views(table@), f) is None,
        },
{
    let ghost tv = table_views(table@);
    let mut i: usize = 0;
    proof {
        assert(tv.skip(0) =~= tv);
    }
    while i < table.len()
        invariant
            i <= table@.len(),
            tv == table_views(table@),
            lookup_exp(tv, f) == lookup_exp(tv.skip(i as int), f),
        decreases table.len() - i,
    {
        let ghost rem = tv.skip(i as int);
        proof {
            assert(rem[0] == tv[i as int]);
            assert(tv[i as int] == (table@[i as int].0, table@[i as int].1@));
            assert(rem.drop_first() =~= tv.skip(i + 1));
        }
        if table[i].0 == f {
            return Some(i);
        }
        i += 1;
    }
    proof {
        assert(tv.skip(tv.len() as int) =~= Seq::<(char, ExpansionModel)>::empty());
    }
    None
}

fn apply_cross(rp: &AffixReplacement, rs: &AffixReplacement, w: &Vec<char>) -> (r: Vec<char>)
    requires
        rp.strip@.len() + rs.strip@.len() <= w@.len(),
    ensures
        r@ == cross_derived(rp@, rs@, w@),
{
    let mut out: Vec<char> = Vec::new();
    let mut j: usize = 0;
    while j < rp.add.len()
        invariant
            j <= rp.add@.len(),
            out@ == rp.add@.take(j as int),
        decreases rp.add.len() - j,
    {
        let ghost tp = rp.add@[j as int];
        out.push(rp.add[j]);
        proof {
            assert(rp.add@.take(j + 1) =~= rp.add@.take(j as int).push(tp));
        }
        j += 1;
    }
    proof {
        assert(rp.add@.take(rp.add@.len() as int) =~= rp.add@);
    }
    let ghost base1 = out@;
    let hi = w.len() - rs.strip.len();
    let mut i: usize = rp.strip.len();
    while i < hi
        invariant
            rp.strip@.len() <= i <= hi,
            hi == w@.len() - rs.strip@.len(),
            out@ == base1 + w@.subrange(rp.strip@.len() as int, i as int),
        decreases hi - i,
    {
        let ghost tp = w@[i as int];
        out.push(w[i]);
        proof {
            assert(base1 + w@.subrange(rp.strip@.len() as int, i + 1) =~= (base1 + w@.subrange(
                rp.strip@.len() as int,
                i as int,
            )).push(tp));
        }
        i += 1;
    }
    let ghost base2 = out@;
    let mut k: usize = 0;
    while k < rs.add.len()
        invariant
            k <= rs.add@.len(),
            out@ == base2 + rs.add@.take(k as int),
        decreases rs.add.len() - k,
    {
        let ghost tp = rs.add@[k as int];
        out.push(rs.add[k]);
        proof {
            assert(base2 + rs.add@.take(k + 1) =~= (base2 + rs.add@.take(k as int)).push(tp));
        }
        k += 1;
    }
    proof {
        assert(rs.add@.take(rs.add@.len() as int) =~= rs.add@);
        assert(out@ =~= cross_derived(rp@, rs@, w@));
    }
    out
}

/// The morphological dictionary expansion engine: turns base entries plus a
/// flag table into the full inflected dictionary.  Every entry's word is
/// kept; each flag either tags the base word (property-only) or derives new
/// spellings whose conditions match; cross-product prefix and suffix flags
/// additionally derive the doubly transformed spelling; derivation paths to
/// the same spelling merge their metadata and never duplicate a key.  A flag
/// without a registered expansion fails the whole expansion.
#[verifier::loop_isolation(false)]
#[verifier::rlimit(100)]
pub fn expand(entries: &Vec<BaseEntry>, table: &Vec<(char, Expansion)>) -> (r: Result<
    Dictionary,
    Error,
>)
    ensures
        match r {
            Ok(d) => {
                &&& entries_known(entries@.map_values(|e: BaseEntry| e@), table_views(table@))
                &&& d@ == merge_all(
                    Seq::<(Seq<char>, WordMetadata)>::empty(),
                    all_contribs(entries@.map_values(|e: BaseEntry| e@), table_views(table@)),
                )
            },
            Err(e) => {
                &&& !entries_known(entries@.map_values(|e: BaseEntry| e@), table_views(table@))
                &&& match e {
                    Error::UnknownFlag(f) => lookup_exp(table_views(table@), f) is None,
                    _ => false,
                }
            },
        },
{
    let ghost ev = entries@.map_values(|e: BaseEntry| e@);
    let ghost tv = table_views(table@);
    let mut dict = Dictionary::new();
    let ghost mut done: Seq<(Seq<char>, WordMetadata)> = Seq::empty();
    let mut i: usize = 0;
    proof {
        assert(ev.skip(0) =~= ev);
        assert(done + all_contribs(ev, tv) =~= all_contribs(ev, tv));
        assert(merge_all(Seq::<(Seq<char>, WordMetadata)>::empty(), done) =~= dict@);
    }
    while i < entries.len()
        invariant
            i <= entries@.len(),
            dict@ == merge_all(Seq::<(Seq<char>, WordMetadata)>::empty(), done),
            all_contribs(ev, tv) == done + all_contribs(ev.skip(i as int), tv),
            forall|j: int| 0 <= j < i ==> flags_known((#[trigger] ev[j]).flags, tv),
        decreases entries.len() - i,
    {
        let ghost pre_done = done;
        let ghost rem = ev.skip(i as int);
        proof {
            assert(rem[0] == ev[i as int]);
            assert(ev[i as int] == entries@[i as int]@);
            assert(rem.drop_first() =~= ev.skip(i + 1));
        }
        match entry_contribs_exec(&entries[i], table) {
            Err(e) => {
                proof {
                    assert(!flags_known(ev[i as int].flags, tv));
                }
                return Err(e);
            },
            Ok(cvec) => {
                let ghost cv = pair_views(cvec@);
                let mut k: usize = 0;
                proof {
                    assert(cv.take(0) =~= Seq::<(Seq<char>, WordMetadata)>::empty());
                    assert(pre_done + cv.take(0) =~= pre_done);
                }
                while k < cvec.len()
                    invariant
                        k <= cvec@.len(),
                        cv == pair_views(cvec@),
                        dict@ == merge_all(
                            Seq::<(Seq<char>, WordMetadata)>::empty(),
                            pre_done + cv.take(k as int),
                        ),
                    decreases cvec.len() - k,
                {
                    let word = copy_chars(&cvec[k].0);
                    let meta = cvec[k].1;
                    proof {
                        assert(cv[k as int] == (cvec@[k as int].0@, cvec@[k as int].1));
                    }
                    dict.merge_insert(word, meta);
                    proof {
                        assert(cv.take(k + 1) =~= cv.take(k as int).push(cv[k as int]));
                        assert(pre_done + cv.take(k + 1) =~= (pre_done + cv.take(k as int)).push(
                            cv[k as int],
                        ));
                        lemma_merge_all_push(
                            Seq::<(Seq<char>, WordMetadata)>::empty(),
                            pre_done + cv.take(k as int),
                            cv[k as int],
                        );
                    }
                    k += 1;
                }
                proof {
                    assert(cv.take(cv.len() as int) =~= cv);
                    done = pre_done + cv;
                    assert(cv == entry_contribs(rem[0], tv));
                    assert((pre_done + cv) + all_contribs(ev.skip(i + 1), tv) =~= pre_done + (cv
                        + all_contribs(ev.skip(i + 1), tv)));
                }
            },
        }
        i += 1;
    }
    proof {
        assert(ev.skip(ev.len() as int) =~= Seq::<EntryModel>::empty());
        assert(done + all_contribs(ev.skip(ev.len() as int), tv) =~= done);
    }
    Ok(dict)
}

/// The contribution stream of one base entry, in derivation order.
#[verifier::loop_isolation(false)]
#[verifier::rlimit(100)]
fn entry_contribs_exec(entry: &BaseEntry, table: &Vec<(char, Expansion)>) -> (r: Result<
    Vec<(Vec<char>, WordMetadata)>,
    Error,
>)
    ensures
        match r {
            Ok(v) => {
                &&& flags_known(entry@.flags, table_views(table@))
                &&& pair_views(v@) == entry_contribs(entry@, table_views(table@))
            },
            Err(e) => {
                &&& !flags_known(entry@.flags, table_views(table@))
                &&& match e {
                    Error::UnknownFlag(f) => lookup_exp(table_views(table@), f) is None,
                    _ => false,
                }
            },
        },
{
    let ghost tv = table_views(table@);
    let ghost wv = entry.word@;
    let ghost fv = entry.flags@;
    let mut out: Vec<(Vec<char>, WordMetadata)> = Vec::new();
    let ghost mut models: Seq<(Seq<char>, WordMetadata)> = Seq::empty();
    out.push((copy_chars(&entry.word), entry.metadata));
    proof {
        models = seq![(wv, entry.metadata)];
        assert(pair_views(out@) =~= models);
    }
    // Per-flag contributions.
    let ghost mut accf: Seq<(Seq<char>, WordMetadata)> = Seq::empty();
    let mut fi: usize = 0;
    proof {
        assert(fv.skip(0) =~= fv);
        assert(accf + flags_contribs(wv, fv, tv) =~= flags_contribs(wv, fv, tv));
    }
    while fi < entry.flags.len()
        invariant
            fi <= fv.len(),
            pair_views(out@) == models,
            models == seq![(wv, entry.metadata)] + accf,
            flags_contribs(wv, fv, tv) == accf + flags_contribs(wv, fv.skip(fi as int), tv),
            forall|j: int| 0 <= j < fi ==> lookup_exp(tv, #[trigger] fv[j]) is Some,
        decreases entry.flags.len() - fi,
    {
        let ghost frem = fv.skip(fi as int);
        proof {
            assert(frem[0] == fv[fi as int]);
            assert(frem.drop_first() =~= fv.skip(fi + 1));
        }
        let f = entry.flags[fi];
        match lookup_exec(table, f) {
            None => {
                proof {
                    assert(!flags_known(fv, tv));
                }
                return Err(Error::UnknownFlag(f));
            },
            Some(tix) => {
                let exp = &table[tix].1;
                let ghost em = exp@;
                proof {
                    assert(lookup_exp(tv, f) == Some(em));
                }
                let ghost pre_models = models;
                let ghost fc = flag_contribs(wv, em);
                if exp.suffix_or_property && exp.replacements.len() == 0 {
                    let ghost prevec = out@;
                    out.push((copy_chars(&entry.word), exp.base_metadata));
                    proof {
                        models = pre_models.push((wv, em.base_metadata));
                        assert(pair_views(out@) =~= models);
                        assert(fc =~= seq![(wv, em.base_metadata)]);
                        assert(pre_models + fc =~= models);
                    }
                } else {
                    proof {
                        assert(em.replacements.len() == exp.replacements@.len());
                        assert(!is_property_only(em));
                    }
                    let ghost mut accr: Seq<(Seq<char>, WordMetadata)> = Seq::empty();
                    let mut ri: usize = 0;
                    proof {
                        assert(em.replacements.skip(0) =~= em.replacements);
                        assert(accr + rep_contribs(
                            wv,
                            em.replacements,
                            em.suffix_or_property,
                            em.target_metadata,
                            em.base_metadata,
                        ) =~= rep_contribs(
                            wv,
                            em.replacements,
                            em.suffix_or_property,
                            em.target_metadata,
                            em.base_metadata,
                        ));
                    }
                    while ri < exp.replacements.len()
                        invariant
                            ri <= em.replacements.len(),
                            em == table@[tix as int].1@,
                            tix < table@.len(),
                            pair_views(out@) == models,
                            models == pre_models + accr,
                            rep_contribs(
                                wv,
                                em.replacements,
                                em.suffix_or_property,
                                em.target_metadata,
                                em.base_metadata,
                            ) == accr + rep_contribs(
                                wv,
                                em.replacements.skip(ri as int),
                                em.suffix_or_property,
                                em.target_metadata,
                                em.base_metadata,
                            ),
                        decreases exp.replacements.len() - ri,
                    {
                        let ghost rrem = em.replacements.skip(ri as int);
                        proof {
                            assert(rrem[0] == em.replacements[ri as int]);
                            assert(em.replacements[ri as int] == exp.replacements@[ri as int]@);
                            assert(rrem.drop_first() =~= em.replacements.skip(ri + 1));
                        }
                        let rep = &exp.replacements[ri];
                        let applies = if exp.suffix_or_property {
                            rep.applies_to_suffix(&entry.word)
                        } else {
                            rep.applies_to_prefix(&entry.word)
                        };
                        if applies {
                            let derived = if exp.suffix_or_property {
                                rep.apply_to_suffix(&entry.word)
                            } else {
                                rep.apply_to_prefix(&entry.word)
                            };
                            let ghost dv = derived@;
                            let ghost inner0 = models;
                            let ghost prevec0 = out@;
                            out.push((derived, exp.target_metadata));
                            proof {
                                models = inner0.push((dv, em.target_metadata));
                                assert(pair_views(out@) =~= models);
                            }
                            let ghost inner1 = models;
                            out.push((copy_chars(&entry.word), exp.base_metadata));
                            proof {
                                models = inner1.push((wv, em.base_metadata));
                                assert(pair_views(out@) =~= models);
                                let head = seq![
                                    (dv, em.target_metadata),
                                    (wv, em.base_metadata),
                                ];
                                assert(inner0 + head =~= models);
                                accr = accr + head;
                                assert(pre_models + accr =~= models);
                                assert(accr + (head + rep_contribs(
                                    wv,
                                    em.replacements.skip(ri + 1),
                                    em.suffix_or_property,
                                    em.target_metadata,
                                    em.base_metadata,
                                )) =~= (accr + head) + rep_contribs(
                                    wv,
                                    em.replacements.skip(ri + 1),
                                    em.suffix_or_property,
                                    em.target_metadata,
                                    em.base_metadata,
                                ));
                            }
                        }
                        ri += 1;
                    }
                    proof {
                        assert(em.replacements.skip(em.replacements.len() as int)
                            =~= Seq::<ReplacementModel>::empty());
                        assert(accr + rep_contribs(
                            wv,
                            em.replacements.skip(em.replacements.len() as int),
                            em.suffix_or_property,
                            em.target_metadata,
                            em.base_metadata,
                        ) =~= accr);
                        assert(fc == accr);
                        assert(models == pre_models + fc);
                    }
                }
                proof {
                    accf = accf + fc;
                    assert(models =~= seq![(wv, entry.metadata)] + accf);
                    assert(accf + (fc + flags_contribs(wv, fv.skip(fi + 1), tv)) =~= (accf + fc)
                        + flags_contribs(wv, fv.skip(fi + 1), tv)) by {
                        assert((accf + fc) + flags_contribs(wv, fv.skip(fi + 1), tv) =~= accf + (fc
                            + flags_contribs(wv, fv.skip(fi + 1), tv)));
                    }
                }
            },
        }
        fi += 1;
    }
    proof {
        assert(fv.skip(fv.len() as int) =~= Seq::<char>::empty());
        assert(accf + flags_contribs(wv, fv.skip(fv.len() as int), tv) =~= accf);
        assert(flags_contribs(wv, fv, tv) == accf);
    }
    // Cross-product combinations.
    let cross = cross_contribs_exec(entry, table);
    let ghost cv = pair_views(cross@);
    let ghost base_models = models;
    let mut k: usize = 0;
    proof {
        assert(cv.take(0) =~= Seq::<(Seq<char>, WordMetadata)>::empty());
        assert(base_models + cv.take(0) =~= base_models);
    }
    while k < cross.len()
        invariant
            k <= cross@.len(),
            cv == pair_views(cross@),
            pair_views(out@) == models,
            models == base_models + cv.take(k as int),
        decreases cross.len() - k,
    {
        let ghost inner0 = models;
        proof {
            assert(cv[k as int] == (cross@[k as int].0@, cross@[k as int].1));
        }
        out.push((copy_chars(&cross[k].0), cross[k].1));
        proof {
            models = inner0.push(cv[k as int]);
            assert(pair_views(out@) =~= models);
            assert(cv.take(k + 1) =~= cv.take(k as int).push(cv[k as int]));
            assert(base_models + cv.take(k + 1) =~= (base_models + cv.take(k as int)).push(
                cv[k as int],
            ));
        }
        k += 1;
    }
    proof {
        assert(cv.take(cv.len() as int) =~= cv);
        assert(models =~= entry_contribs(entry@, tv));
    }
    Ok(out)
}

/// The cross-product contribution stream of one base entry.
#[verifier::loop_isolation(false)]
#[verifier::rlimit(100)]
fn cross_contribs_exec(entry: &BaseEntry, table: &Vec<(char, Expansion)>) -> (r: Vec<
    (Vec<char>, WordMetadata),
>)
    requires
        flags_known(entry@.flags, table_views(table@)),
    ensures
        pair_views(r@) == cross_contribs(
            entry@.word,
            entry@.flags,
            entry@.flags,
            table_views(table@),
        ),
{
    let ghost tv = table_views(table@);
    let ghost wv = entry.word@;
    let ghost fv = entry.flags@;
    let mut out: Vec<(Vec<char>, WordMetadata)> = Vec::new();
    let ghost mut models: Seq<(Seq<char>, WordMetadata)> = Seq::empty();
    proof {
        assert(pair_views(out@) =~= models);
    }
    let ghost base_models = models;
    let ghost mut accc: Seq<(Seq<char>, WordMetadata)> = Seq::empty();
    let mut pi: usize = 0;
    proof {
        assert(fv.skip(0) =~= fv);
        assert(accc + cross_contribs(wv, fv, fv, tv) =~= cross_contribs(wv, fv, fv, tv));
    }
    while pi < entry.flags.len()
        invariant
            pi <= fv.len(),
            pair_views(out@) == models,
            models == base_models + accc,
            cross_contribs(wv, fv, fv, tv) == accc + cross_contribs(wv, fv.skip(pi as int), fv, tv),
            flags_known(fv, tv),
        decreases entry.flags.len() - pi,
    {
        let ghost prem = fv.skip(pi as int);
        proof {
            assert(prem[0] == fv[pi as int]);
            assert(prem.drop_first() =~= fv.skip(pi + 1));
        }
        let pf = entry.flags[pi];
        let ghost pre_outer = models;
        let ghost outerc = if is_cross_prefix(lookup_exp(tv, fv[pi as int]).unwrap()) {
            cross_with_suffixes(wv, lookup_exp(tv, fv[pi as int]).unwrap(), fv, tv)
        } else {
            Seq::<(Seq<char>, WordMetadata)>::empty()
        };
        match lookup_exec(table, pf) {
            None => {
                proof {
                    assert(lookup_exp(tv, fv[pi as int]) is Some);
                    assert(false);
                }
                return Vec::new();
            },
            Some(pix) => {
                let pexp = &table[pix].1;
                let ghost pm = pexp@;
                proof {
                    assert(lookup_exp(tv, fv[pi as int]) == Some(pm));
                }
                if !pexp.suffix_or_property && pexp.cross_product {
                    // Scan the suffix side.
                    let ghost mut accs: Seq<(Seq<char>, WordMetadata)> = Seq::empty();
                    let mut si: usize = 0;
                    proof {
                        assert(fv.skip(0) =~= fv);
                        assert(accs + cross_with_suffixes(wv, pm, fv, tv) =~= cross_with_suffixes(
                            wv,
                            pm,
                            fv,
                            tv,
                        ));
                    }
                    while si < entry.flags.len()
                        invariant
                            si <= fv.len(),
                            pm == table@[pix as int].1@,
                            pix < table@.len(),
                            pair_views(out@) == models,
                            models == pre_outer + accs,
                            cross_with_suffixes(wv, pm, fv, tv) == accs + cross_with_suffixes(
                                wv,
                                pm,
                                fv.skip(si as int),
                                tv,
                            ),
                            flags_known(fv, tv),
                        decreases entry.flags.len() - si,
                    {
                        let ghost srem = fv.skip(si as int);
                        proof {
                            assert(srem[0] == fv[si as int]);
                            assert(srem.drop_first() =~= fv.skip(si + 1));
                        }
                        let sf = entry.flags[si];
                        let ghost pre_suffix = models;
                        match lookup_exec(table, sf) {
                            None => {
                                proof {
                                    assert(lookup_exp(tv, fv[si as int]) is Some);
                                    assert(false);
                                }
                                return Vec::new();
                            },
                            Some(six) => {
                                let sexp = &table[six].1;
                                let ghost sm = sexp@;
                                proof {
                                    assert(lookup_exp(tv, fv[si as int]) == Some(sm));
                                }
                                if sexp.suffix_or_property && sexp.cross_product
                                    && sexp.replacements.len() > 0 {
                                    let tm = pexp.target_metadata.or(&sexp.target_metadata);
                                    let ghost tmv = meta_union(pm.target_metadata, sm.target_metadata);
                                    let ghost sc = cross_reps(wv, pm.replacements, sm.replacements, tmv);
                                    // All pairs of replacements.
                                    let ghost mut accp: Seq<(Seq<char>, WordMetadata)> = Seq::empty();
                                    let mut ci: usize = 0;
                                    proof {
                                        assert(pm.replacements.skip(0) =~= pm.replacements);
                                        assert(accp + cross_reps(wv, pm.replacements, sm.replacements, tmv)
                                            =~= cross_reps(wv, pm.replacements, sm.replacements, tmv));
                                    }
                                    while ci < pexp.replacements.len()
                                        invariant
                                            ci <= pm.replacements.len(),
                                            pm == table@[pix as int].1@,
                                            sm == table@[six as int].1@,
                                            pix < table@.len(),
                                            six < table@.len(),
                                            tm == tmv,
                                            pair_views(out@) == models,
                                            models == pre_suffix + accp,
                                            cross_reps(wv, pm.replacements, sm.replacements, tmv) == accp
                                                + cross_reps(
                                                wv,
                                                pm.replacements.skip(ci as int),
                                                sm.replacements,
                                                tmv,
                                            ),
                                        decreases pexp.replacements.len() - ci,
                                    {
                                        let ghost crem = pm.replacements.skip(ci as int);
                                        proof {
                                            assert(crem[0] == pm.replacements[ci as int]);
                                            assert(pm.replacements[ci as int]
                                                == pexp.replacements@[ci as int]@);
                                            assert(crem.drop_first() =~= pm.replacements.skip(ci + 1));
                                        }
                                        let rp = &pexp.replacements[ci];
                                        let ghost pre_pair = models;
                                        let ghost pc = cross_rep_one(wv, crem[0], sm.replacements, tmv);
                                        let ghost mut acci: Seq<(Seq<char>, WordMetadata)> = Seq::empty();
                                        let mut di: usize = 0;
                                        proof {
                                            assert(sm.replacements.skip(0) =~= sm.replacements);
                                            assert(acci + cross_rep_one(wv, crem[0], sm.replacements, tmv)
                                                =~= cross_rep_one(wv, crem[0], sm.replacements, tmv));
                                        }
                                        while di < sexp.replacements.len()
                                            invariant
                                                di <= sm.replacements.len(),
                                                pm == table@[pix as int].1@,
                                                sm == table@[six as int].1@,
                                                pix < table@.len(),
                                                six < table@.len(),
                                                tm == tmv,
                                                rp == &table@[pix as int].1.replacements@[ci as int],
                                                ci < pexp.replacements@.len(),
                                                rp@ == crem[0],
                                                pair_views(out@) == models,
                                                models == pre_pair + acci,
                                                cross_rep_one(wv, crem[0], sm.replacements, tmv) == acci
                                                    + cross_rep_one(
                                                    wv,
                                                    crem[0],
                                                    sm.replacements.skip(di as int),
                                                    tmv,
                                                ),
                                            decreases sexp.replacements.len() - di,
                                        {
                                            let ghost drem = sm.replacements.skip(di as int);
                                            proof {
                                                assert(drem[0] == sm.replacements[di as int]);
                                                assert(sm.replacements[di as int]
                                                    == sexp.replacements@[di as int]@);
                                                assert(drem.drop_first() =~= sm.replacements.skip(di + 1));
                                            }
                                            let rs = &sexp.replacements[di];
                                            if rp.applies_to_prefix(&entry.word) && rs.applies_to_suffix(
                                                &entry.word,
                                            ) && rs.strip.len() <= entry.word.len() - rp.strip.len() {
                                                let derived = apply_cross(rp, rs, &entry.word);
                                                let ghost dv = derived@;
                                                let ghost inner0 = models;
                                                out.push((derived, tm));
                                                proof {
                                                    models = inner0.push((dv, tmv));
                                                    assert(pair_views(out@) =~= models);
                                                    let head = seq![(dv, tmv)];
                                                    assert(inner0 + head =~= models);
                                                    acci = acci + head;
                                                    assert(pre_pair + acci =~= models);
                                                    assert(acci + (head + cross_rep_one(
                                                        wv,
                                                        crem[0],
                                                        sm.replacements.skip(di + 1),
                                                        tmv,
                                                    )) =~= (acci + head) + cross_rep_one(
                                                        wv,
                                                        crem[0],
                                                        sm.replacements.skip(di + 1),
                                                        tmv,
                                                    ));
                                                }
                                            } else {
                                                proof {
                                                    assert(!cross_applies(crem[0], drem[0], wv));
                                                }
                                            }
                                            di += 1;
                                        }
                                        proof {
                                            assert(sm.replacements.skip(sm.replacements.len() as int)
                                                =~= Seq::<ReplacementModel>::empty());
                                            assert(acci + cross_rep_one(
                                                wv,
                                                crem[0],
                                                sm.replacements.skip(sm.replacements.len() as int),
                                                tmv,
                                            ) =~= acci);
                                            assert(pc == acci);
                                            let accp_old = accp;
                                            accp = accp + pc;
                                            assert(models =~= pre_suffix + accp);
                                            assert(accp_old + (pc + cross_reps(
                                                wv,
                                                pm.replacements.skip(ci + 1),
                                                sm.replacements,
                                                tmv,
                                            )) =~= (accp_old + pc) + cross_reps(
                                                wv,
                                                pm.replacements.skip(ci + 1),
                                                sm.replacements,
                                                tmv,
                                            ));
                                        }
                                        ci += 1;
                                    }
                                    proof {
                                        assert(pm.replacements.skip(pm.replacements.len() as int)
                                            =~= Seq::<ReplacementModel>::empty());
                                        assert(accp + cross_reps(
                                            wv,
                                            pm.replacements.skip(pm.replacements.len() as int),
                                            sm.replacements,
                                            tmv,
                                        ) =~= accp);
                                        assert(sc == accp);
                                        let accs_old = accs;
                                        accs = accs + sc;
                                        assert(models =~= pre_outer + accs);
                                        assert(is_cross_suffix(sm));
                                        assert(accs_old + (sc + cross_with_suffixes(
                                            wv,
                                            pm,
                                            fv.skip(si + 1),
                                            tv,
                                        )) =~= (accs_old + sc) + cross_with_suffixes(
                                            wv,
                                            pm,
                                            fv.skip(si + 1),
                                            tv,
                                        ));
                                    }
                                } else {
                                    proof {
                                        assert(!is_cross_suffix(sm));
                                        assert(cross_with_suffixes(wv, pm, srem, tv)
                                            =~= cross_with_suffixes(wv, pm, fv.skip(si + 1), tv));
                                    }
                                }
                            },
                        }
                        si += 1;
                    }
                    proof {
                        assert(fv.skip(fv.len() as int) =~= Seq::<char>::empty());
                        assert(accs + cross_with_suffixes(wv, pm, fv.skip(fv.len() as int), tv)
                            =~= accs);
                        assert(outerc == accs);
                        assert(is_cross_prefix(pm));
                    }
                } else {
                    proof {
                        assert(!is_cross_prefix(pm));
                        assert(outerc =~= Seq::<(Seq<char>, WordMetadata)>::empty());
                    }
                }
                proof {
                    assert(models == pre_outer + outerc);
                    accc = accc + outerc;
                    assert(models =~= base_models + accc);
                    assert(accc + (outerc + cross_contribs(wv, fv.skip(pi + 1), fv, tv)) =~= (accc
                        + outerc) + cross_contribs(wv, fv.skip(pi + 1), fv, tv)) by {
                        assert((accc + outerc) + cross_contribs(wv, fv.skip(pi + 1), fv, tv)
                            =~= accc + (outerc + cross_contribs(wv, fv.skip(pi + 1), fv, tv)));
                    }
                }
            },
        }
        pi += 1;
    }
    proof {
        assert(fv.skip(fv.len() as int) =~= Seq::<char>::empty());
        assert(accc + cross_contribs(wv, fv.skip(fv.len() as int), fv, tv) =~= accc);
        assert(cross_contribs(wv, fv, fv, tv) == accc);
    }
    out
}


/// A base word carrying only a property-only flag expands to exactly one
/// dictionary entry, the word itself, with its original metadata merged with
/// the flag's base metadata.
pub proof fn lemma_property_flag_expansion(
    e: EntryModel,
    f: char,
    exp: ExpansionModel,
    table: Seq<(char, ExpansionModel)>,
)
    requires
        e.flags == seq![f],
        lookup_exp(table, f) == Some(exp),
        is_property_only(exp),
    ensures
        merge_all(Seq::<(Seq<char>, WordMetadata)>::empty(), entry_contribs(e, table)) == seq![
            (e.word, meta_union(e.metadata, exp.base_metadata)),
        ],
{
    let empty_pairs = Seq::<(Seq<char>, WordMetadata)>::empty();
    assert(e.flags[0] == f);
    assert(e.flags.drop_first() =~= Seq::<char>::empty());
    assert(flags_contribs(e.word, e.flags.drop_first(), table)
        =~= Seq::<(Seq<char>, WordMetadata)>::empty());
    assert(flag_contribs(e.word, exp) =~= seq![(e.word, exp.base_metadata)]);
    assert(flags_contribs(e.word, e.flags, table) =~= seq![(e.word, exp.base_metadata)]);
    assert(!is_cross_prefix(exp));
    assert(cross_contribs(e.word, e.flags.drop_first(), e.flags, table) =~= empty_pairs);
    assert(cross_contribs(e.word, e.flags, e.flags, table) =~= empty_pairs);
    let contribs = entry_contribs(e, table);
    assert(contribs =~= seq![(e.word, e.metadata), (e.word, exp.base_metadata)]);
    let after1 = merge_one(empty_pairs, e.word, e.metadata);
    assert(after1 =~= seq![(e.word, e.metadata)]);
    let after2 = merge_one(after1, e.word, exp.base_metadata);
    assert(after1[0].0 == e.word);
    assert(after2 =~= seq![(e.word, meta_union(e.metadata, exp.base_metadata))]);
    let rest1 = contribs.drop_first();
    assert(rest1 =~= seq![(e.word, exp.base_metadata)]);
    assert(rest1.drop_first() =~= empty_pairs);
    assert(contribs[0] == (e.word, e.metadata));
    assert(rest1[0] == (e.word, exp.base_metadata));
    assert(merge_all(empty_pairs, contribs) == merge_all(
        merge_one(empty_pairs, contribs[0].0, contribs[0].1),
        rest1,
    ));
    assert(merge_one(empty_pairs, contribs[0].0, contribs[0].1) == after1);
    assert(merge_all(after1, rest1) == merge_all(
        merge_one(after1, rest1[0].0, rest1[0].1),
        rest1.drop_first(),
    ));
    assert(merge_one(after1, rest1[0].0, rest1[0].1) == after2);
    assert(merge_all(after2, rest1.drop_first()) == after2);
}


/// A base word carrying one form-producing suffix flag whose single rule
/// applies expands to exactly two entries: the derived spelling with the
/// expansion's target metadata, and the base word with the expansion's base
/// metadata merged into its own.
pub proof fn lemma_single_suffix_expansion(
    e: EntryModel,
    f: char,
    exp: ExpansionModel,
    rep: ReplacementModel,
    table: Seq<(char, ExpansionModel)>,
)
    requires
        e.flags == seq![f],
        lookup_exp(table, f) == Some(exp),
        exp.suffix_or_property,
        !exp.cross_product,
        exp.replacements == seq![rep],
        suffix_applies(rep, e.word),
        suffix_derived(rep, e.word) != e.word,
    ensures
        merge_all(Seq::<(Seq<char>, WordMetadata)>::empty(), entry_contribs(e, table)) == seq![
            (e.word, meta_union(e.metadata, exp.base_metadata)),
            (suffix_derived(rep, e.word), exp.target_metadata),
        ],
{
    let empty_pairs = Seq::<(Seq<char>, WordMetadata)>::empty();
    let w = e.word;
    let d = suffix_derived(rep, w);
    assert(e.flags[0] == f);
    assert(e.flags.drop_first() =~= Seq::<char>::empty());
    // The one flag contributes the derived form and the base tag.
    assert(exp.replacements[0] == rep);
    assert(exp.replacements.drop_first() =~= Seq::<ReplacementModel>::empty());
    assert(rep_contribs(
        w,
        exp.replacements.drop_first(),
        true,
        exp.target_metadata,
        exp.base_metadata,
    ) =~= empty_pairs);
    assert(rep_contribs(w, exp.replacements, true, exp.target_metadata, exp.base_metadata)
        =~= seq![(d, exp.target_metadata), (w, exp.base_metadata)]);
    assert(!is_property_only(exp));
    assert(flags_contribs(w, e.flags.drop_first(), table) =~= empty_pairs);
    assert(flags_contribs(w, e.flags, table) =~= seq![
        (d, exp.target_metadata),
        (w, exp.base_metadata),
    ]);
    // A suffix expansion is no cross-product prefix, so no pairs form.
    assert(!is_cross_prefix(exp));
    assert(cross_contribs(w, e.flags.drop_first(), e.flags, table) =~= empty_pairs);
    assert(cross_contribs(w, e.flags, e.flags, table) =~= empty_pairs);
    let contribs = entry_contribs(e, table);
    assert(contribs =~= seq![
        (w, e.metadata),
        (d, exp.target_metadata),
        (w, exp.base_metadata),
    ]);
    // Fold the three contributions in order.
    let s1 = merge_one(empty_pairs, w, e.metadata);
    assert(s1 =~= seq![(w, e.metadata)]);
    let s2 = merge_one(s1, d, exp.target_metadata);
    assert(s1[0].0 == w && d != w);
    assert(s1.drop_first() =~= empty_pairs);
    assert(merge_one(s1.drop_first(), d, exp.target_metadata) =~= seq![(d, exp.target_metadata)]);
    assert(s2 =~= seq![(w, e.metadata), (d, exp.target_metadata)]);
    let s3 = merge_one(s2, w, exp.base_metadata);
    assert(s2[0].0 == w);
    assert(s3 =~= seq![(w, meta_union(e.metadata, exp.base_metadata)), (d, exp.target_metadata)]);
    let r1 = contribs.drop_first();
    let r2 = r1.drop_first();
    assert(contribs[0] == (w, e.metadata));
    assert(r1[0] == (d, exp.target_metadata));
    assert(r2[0] == (w, exp.base_metadata));
    assert(r1 =~= seq![(d, exp.target_metadata), (w, exp.base_metadata)]);
    assert(r2 =~= seq![(w, exp.base_metadata)]);
    assert(r2.drop_first() =~= empty_pairs);
    assert(merge_all(empty_pairs, contribs) == merge_all(
        merge_one(empty_pairs, contribs[0].0, contribs[0].1),
        r1,
    ));
    assert(merge_one(empty_pairs, contribs[0].0, contribs[0].1) == s1);
    assert(merge_all(s1, r1) == merge_all(merge_one(s1, r1[0].0, r1[0].1), r2));
    assert(merge_one(s1, r1[0].0, r1[0].1) == s2);
    assert(merge_all(s2, r2) == merge_all(merge_one(s2, r2[0].0, r2[0].1), r2.drop_first()));
    assert(merge_one(s2, r2[0].0, r2[0].1) == s3);
    assert(merge_all(s3, r2.drop_first()) == s3);
}


proof fn lemma_merge_all_concat(
    s: Seq<(Seq<char>, WordMetadata)>,
    a: Seq<(Seq<char>, WordMetadata)>,
    b: Seq<(Seq<char>, WordMetadata)>,
)
    ensures
        merge_all(s, a + b) == merge_all(merge_all(s, a), b),
    decreases a.len(),
{
    if a.len() == 0 {
        assert(a + b =~= b);
        assert(merge_all(s, a) == s);
    } else {
        let ab = a + b;
        assert(ab[0] == a[0]);
        assert(ab.drop_first() =~= a.drop_first() + b);
        let s1 = merge_one(s, a[0].0, a[0].1);
        lemma_merge_all_concat(s1, a.drop_first(), b);
        assert(merge_all(s, ab) == merge_all(merge_one(s, ab[0].0, ab[0].1), ab.drop_first()));
        assert(merge_all(s, a) == merge_all(s1, a.drop_first()));
    }
}

proof fn lemma_cross_fold_head(
    w: Seq<char>,
    pd: Seq<char>,
    m: WordMetadata,
    pt: WordMetadata,
    pb: WordMetadata,
)
    requires
        pd != w,
    ensures
        merge_all(
            Seq::<(Seq<char>, WordMetadata)>::empty(),
            seq![(w, m), (pd, pt), (w, pb)],
        ) == seq![(w, meta_union(m, pb)), (pd, pt)],
{
    let empty_pairs = Seq::<(Seq<char>, WordMetadata)>::empty();
    let contribs = seq![(w, m), (pd, pt), (w, pb)];
    let s1 = merge_one(empty_pairs, w, m);
    assert(s1 =~= seq![(w, m)]);
    let s2 = merge_one(s1, pd, pt);
    assert(s1[0].0 == w);
    assert(s1.drop_first() =~= empty_pairs);
    assert(merge_one(s1.drop_first(), pd, pt) =~= seq![(pd, pt)]);
    assert(s2 =~= seq![(w, m), (pd, pt)]);
    let s3 = merge_one(s2, w, pb);
    assert(s2[0].0 == w);
    assert(s3 =~= seq![(w, meta_union(m, pb)), (pd, pt)]);
    let r1 = contribs.drop_first();
    let r2 = r1.drop_first();
    assert(r2.drop_first() =~= empty_pairs);
    assert(contribs[0] == (w, m));
    assert(r1[0] == (pd, pt));
    assert(r2[0] == (w, pb));
    assert(merge_all(empty_pairs, contribs) == merge_all(
        merge_one(empty_pairs, contribs[0].0, contribs[0].1),
        r1,
    ));
    assert(merge_one(empty_pairs, contribs[0].0, contribs[0].1) == s1);
    assert(merge_all(s1, r1) == merge_all(merge_one(s1, r1[0].0, r1[0].1), r2));
    assert(merge_one(s1, r1[0].0, r1[0].1) == s2);
    assert(merge_all(s2, r2) == merge_all(merge_one(s2, r2[0].0, r2[0].1), r2.drop_first()));
    assert(merge_one(s2, r2[0].0, r2[0].1) == s3);
    assert(merge_all(s3, r2.drop_first()) == s3);
}

proof fn lemma_cross_fold_tail(
    w: Seq<char>,
    pd: Seq<char>,
    sd: Seq<char>,
    cd: Seq<char>,
    ub1: WordMetadata,
    pt: WordMetadata,
    st: WordMetadata,
    sb: WordMetadata,
    ut: WordMetadata,
)
    requires
        sd != w,
        sd != pd,
        cd != w,
        cd != pd,
        cd != sd,
    ensures
        merge_all(seq![(w, ub1), (pd, pt)], seq![(sd, st), (w, sb), (cd, ut)]) == seq![
            (w, meta_union(ub1, sb)),
            (pd, pt),
            (sd, st),
            (cd, ut),
        ],
{
    let empty_pairs = Seq::<(Seq<char>, WordMetadata)>::empty();
    let s3 = seq![(w, ub1), (pd, pt)];
    let contribs = seq![(sd, st), (w, sb), (cd, ut)];
    let s4 = merge_one(s3, sd, st);
    assert(s3[0].0 == w);
    assert(s3.drop_first() =~= seq![(pd, pt)]);
    assert(s3.drop_first().drop_first() =~= empty_pairs);
    assert(merge_one(s3.drop_first().drop_first(), sd, st) =~= seq![(sd, st)]);
    assert(merge_one(s3.drop_first(), sd, st) =~= seq![(pd, pt), (sd, st)]);
    assert(s4 =~= seq![(w, ub1), (pd, pt), (sd, st)]);
    let s5 = merge_one(s4, w, sb);
    assert(s4[0].0 == w);
    let ub2 = meta_union(ub1, sb);
    assert(s5 =~= seq![(w, ub2), (pd, pt), (sd, st)]);
    let s6 = merge_one(s5, cd, ut);
    assert(s5[0].0 == w);
    assert(s5.drop_first() =~= seq![(pd, pt), (sd, st)]);
    assert(s5.drop_first().drop_first() =~= seq![(sd, st)]);
    assert(s5.drop_first().drop_first().drop_first() =~= empty_pairs);
    assert(merge_one(s5.drop_first().drop_first().drop_first(), cd, ut) =~= seq![(cd, ut)]);
    assert(merge_one(s5.drop_first().drop_first(), cd, ut) =~= seq![(sd, st), (cd, ut)]);
    assert(merge_one(s5.drop_first(), cd, ut) =~= seq![(pd, pt), (sd, st), (cd, ut)]);
    assert(s6 =~= seq![(w, ub2), (pd, pt), (sd, st), (cd, ut)]);
    let r1 = contribs.drop_first();
    let r2 = r1.drop_first();
    assert(r2.drop_first() =~= empty_pairs);
    assert(contribs[0] == (sd, st));
    assert(r1[0] == (w, sb));
    assert(r2[0] == (cd, ut));
    assert(merge_all(s3, contribs) == merge_all(
        merge_one(s3, contribs[0].0, contribs[0].1),
        r1,
    ));
    assert(merge_one(s3, contribs[0].0, contribs[0].1) == s4);
    assert(merge_all(s4, r1) == merge_all(merge_one(s4, r1[0].0, r1[0].1), r2));
    assert(merge_one(s4, r1[0].0, r1[0].1) == s5);
    assert(merge_all(s5, r2) == merge_all(merge_one(s5, r2[0].0, r2[0].1), r2.drop_first()));
    assert(merge_one(s5, r2[0].0, r2[0].1) == s6);
    assert(merge_all(s6, r2.drop_first()) == s6);
}

proof fn lemma_cross_product_contribs(
    e: EntryModel,
    fp: char,
    fs: char,
    pexp: ExpansionModel,
    sexp: ExpansionModel,
    rp: ReplacementModel,
    rs: ReplacementModel,
    table: Seq<(char, ExpansionModel)>,
)
    requires
        e.flags == seq![fp, fs],
        lookup_exp(table, fp) == Some(pexp),
        lookup_exp(table, fs) == Some(sexp),
        !pexp.suffix_or_property,
        pexp.cross_product,
        pexp.replacements == seq![rp],
        sexp.suffix_or_property,
        sexp.cross_product,
        sexp.replacements == seq![rs],
        prefix_applies(rp, e.word),
        suffix_applies(rs, e.word),
        rp.strip.len() + rs.strip.len() <= e.word.len(),
    ensures
        entry_contribs(e, table) == seq![
            (e.word, e.metadata),
            (prefix_derived(rp, e.word), pexp.target_metadata),
            (e.word, pexp.base_metadata),
            (suffix_derived(rs, e.word), sexp.target_metadata),
            (e.word, sexp.base_metadata),
            (cross_derived(rp, rs, e.word), meta_union(pexp.target_metadata, sexp.target_metadata)),
        ],
{
    let empty_pairs = Seq::<(Seq<char>, WordMetadata)>::empty();
    let w = e.word;
    let pd = prefix_derived(rp, w);
    let sd = suffix_derived(rs, w);
    let cd = cross_derived(rp, rs, w);
    let ut = meta_union(pexp.target_metadata, sexp.target_metadata);
    assert(e.flags[0] == fp && e.flags[1] == fs);
    let f1 = e.flags.drop_first();
    assert(f1 =~= seq![fs]);
    assert(f1[0] == fs);
    assert(f1.drop_first() =~= Seq::<char>::empty());
    // Per-flag contributions: the prefix flag, then the suffix flag.
    assert(pexp.replacements[0] == rp);
    assert(pexp.replacements.drop_first() =~= Seq::<ReplacementModel>::empty());
    assert(rep_contribs(
        w,
        pexp.replacements.drop_first(),
        false,
        pexp.target_metadata,
        pexp.base_metadata,
    ) =~= empty_pairs);
    assert(!is_property_only(pexp));
    assert(flag_contribs(w, pexp) =~= seq![(pd, pexp.target_metadata), (w, pexp.base_metadata)]);
    assert(sexp.replacements[0] == rs);
    assert(sexp.replacements.drop_first() =~= Seq::<ReplacementModel>::empty());
    assert(rep_contribs(
        w,
        sexp.replacements.drop_first(),
        true,
        sexp.target_metadata,
        sexp.base_metadata,
    ) =~= empty_pairs);
    assert(!is_property_only(sexp));
    assert(flag_contribs(w, sexp) =~= seq![(sd, sexp.target_metadata), (w, sexp.base_metadata)]);
    assert(flags_contribs(w, f1.drop_first(), table) =~= empty_pairs);
    assert(flags_contribs(w, f1, table) =~= seq![
        (sd, sexp.target_metadata),
        (w, sexp.base_metadata),
    ]);
    assert(flags_contribs(w, e.flags, table) =~= seq![
        (pd, pexp.target_metadata),
        (w, pexp.base_metadata),
        (sd, sexp.target_metadata),
        (w, sexp.base_metadata),
    ]);
    // Cross-product contributions: only the prefix-by-suffix pair forms.
    assert(cross_applies(rp, rs, w));
    assert(cross_rep_one(w, rp, sexp.replacements.drop_first(), ut) =~= empty_pairs);
    assert(cross_rep_one(w, rp, sexp.replacements, ut) =~= seq![(cd, ut)]);
    assert(cross_reps(w, pexp.replacements.drop_first(), sexp.replacements, ut) =~= empty_pairs);
    assert(cross_reps(w, pexp.replacements, sexp.replacements, ut) =~= seq![(cd, ut)]);
    assert(!is_cross_suffix(pexp));
    assert(is_cross_suffix(sexp));
    assert(cross_with_suffixes(w, pexp, f1.drop_first(), table) =~= empty_pairs);
    assert(cross_with_suffixes(w, pexp, f1, table) =~= seq![(cd, ut)]);
    assert(cross_with_suffixes(w, pexp, e.flags, table) =~= seq![(cd, ut)]);
    assert(is_cross_prefix(pexp));
    assert(!is_cross_prefix(sexp));
    assert(cross_contribs(w, f1.drop_first(), e.flags, table) =~= empty_pairs);
    assert(cross_contribs(w, f1, e.flags, table) =~= empty_pairs);
    assert(cross_contribs(w, e.flags, e.flags, table) =~= seq![(cd, ut)]);
    assert(entry_contribs(e, table) =~= seq![
        (w, e.metadata),
        (pd, pexp.target_metadata),
        (w, pexp.base_metadata),
        (sd, sexp.target_metadata),
        (w, sexp.base_metadata),
        (cd, ut),
    ]);
}

/// A base word carrying one cross-product prefix flag and one cross-product
/// suffix flag, each with a single applying rule, expands to exactly four
/// entries: the base word with both base metadata sets merged in, the
/// prefix-only and suffix-only forms with their target metadata, and the
/// doubly transformed form with both target sets merged.
pub proof fn lemma_cross_product_expansion(
    e: EntryModel,
    fp: char,
    fs: char,
    pexp: ExpansionModel,
    sexp: ExpansionModel,
    rp: ReplacementModel,
    rs: ReplacementModel,
    table: Seq<(char, ExpansionModel)>,
)
    requires
        e.flags == seq![fp, fs],
        lookup_exp(table, fp) == Some(pexp),
        lookup_exp(table, fs) == Some(sexp),
        !pexp.suffix_or_property,
        pexp.cross_product,
        pexp.replacements == seq![rp],
        sexp.suffix_or_property,
        sexp.cross_product,
        sexp.replacements == seq![rs],
        prefix_applies(rp, e.word),
        suffix_applies(rs, e.word),
        rp.strip.len() + rs.strip.len() <= e.word.len(),
        prefix_derived(rp, e.word) != e.word,
        suffix_derived(rs, e.word) != e.word,
        suffix_derived(rs, e.word) != prefix_derived(rp, e.word),
        cross_derived(rp, rs, e.word) != e.word,
        cross_derived(rp, rs, e.word) != prefix_derived(rp, e.word),
        cross_derived(rp, rs, e.word) != suffix_derived(rs, e.word),
    ensures
        merge_all(Seq::<(Seq<char>, WordMetadata)>::empty(), entry_contribs(e, table)) == seq![
            (
                e.word,
                meta_union(meta_union(e.metadata, pexp.base_metadata), sexp.base_metadata),
            ),
            (prefix_derived(rp, e.word), pexp.target_metadata),
            (suffix_derived(rs, e.word), sexp.target_metadata),
            (cross_derived(rp, rs, e.word), meta_union(pexp.target_metadata, sexp.target_metadata)),
        ],
{
    let empty_pairs = Seq::<(Seq<char>, WordMetadata)>::empty();
    let w = e.word;
    let pd = prefix_derived(rp, w);
    let sd = suffix_derived(rs, w);
    let cd = cross_derived(rp, rs, w);
    let ut = meta_union(pexp.target_metadata, sexp.target_metadata);
    lemma_cross_product_contribs(e, fp, fs, pexp, sexp, rp, rs, table);
    let head = seq![(w, e.metadata), (pd, pexp.target_metadata), (w, pexp.base_metadata)];
    let tail = seq![(sd, sexp.target_metadata), (w, sexp.base_metadata), (cd, ut)];
    assert(entry_contribs(e, table) =~= head + tail);
    lemma_merge_all_concat(empty_pairs, head, tail);
    lemma_cross_fold_head(w, pd, e.metadata, pexp.target_metadata, pexp.base_metadata);
    lemma_cross_fold_tail(
        w,
        pd,
        sd,
        cd,
        meta_union(e.metadata, pexp.base_metadata),
        pexp.target_metadata,
        sexp.target_metadata,
        sexp.base_metadata,
        ut,
    );
}

} // verus!
