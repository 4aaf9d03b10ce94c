use vstd::prelude::*;
use crate::Error;
use crate::metadata::WordMetadata;
use crate::replacement::{
    AffixReplacement, HumanReadableAffixReplacement, HumanReadableReplacementModel,
    ReplacementModel, parse_replacement, print_replacement, replacement_wf,
    lemma_replacement_parse_canonical, lemma_replacement_round_trip,
};

verus! {

/// A named group of affix replacements sharing one flag, with its
/// cross-product and metadata-propagation policy.
#[derive(Clone, Debug)]
pub struct Expansion {
    /// `false` means a prefix transformation; `true` a suffix transformation,
    /// or, when `replacements` is empty, a property-only flag that merely
    /// tags the base word.
    pub suffix_or_property: bool,
    /// Whether forms derived by this expansion may combine with a
    /// cross-product expansion applied to the opposite end of the same word.
    pub cross_product: bool,
    pub replacements: Vec<AffixReplacement>,
    /// Merged into each derived word's metadata.
    pub target_metadata: WordMetadata,
    /// Merged into the base word's own metadata when the flag applies.
    pub base_metadata: WordMetadata,
}

/// The mathematical value of an expansion.
#[verifier::ext_equal]
pub struct ExpansionModel {
    pub suffix_or_property: bool,
    pub cross_product: bool,
    pub replacements: Seq<ReplacementModel>,
    pub target_metadata: WordMetadata,
    pub base_metadata: WordMetadata,
}

impl View for Expansion {
    type V = ExpansionModel;

    open spec fn view(&self) -> ExpansionModel {
        ExpansionModel {
            suffix_or_property: self.suffix_or_property,
            cross_product: self.cross_product,
            replacements: self.replacements@.map_values(|r: AffixReplacement| r@),
            target_metadata: self.target_metadata,
            base_metadata: self.base_metadata,
        }
    }
}

/// The same group in its human-readable textual form.
#[derive(Clone, Debug)]
pub struct HumanReadableExpansion {
    pub suffix_or_property: bool,
    pub cross_product: bool,
    pub replacements: Vec<HumanReadableAffixReplacement>,
    pub target_metadata: WordMetadata,
    pub base_metadata: WordMetadata,
}

/// The mathematical value of a human-readable expansion.
#[verifier::ext_equal]
pub struct HumanReadableExpansionModel {
    pub suffix_or_property: bool,
    pub cross_product: bool,
    pub replacements: Seq<HumanReadableReplacementModel>,
    pub target_metadata: WordMetadata,
    pub base_metadata: WordMetadata,
}

impl View for HumanReadableExpansion {
    type V = HumanReadableExpansionModel;

    open spec fn view(&self) -> HumanReadableExpansionModel {
        HumanReadableExpansionModel {
            suffix_or_property: self.suffix_or_property,
            cross_product: self.cross_product,
            replacements: self.replacements@.map_values(
                |r: HumanReadableAffixReplacement| r@,
            ),
            target_metadata: self.target_metadata,
            base_metadata: self.base_metadata,
        }
    }
}

/// A well-formed expansion holds only well-formed replacements.
pub open spec fn expansion_wf(m: ExpansionModel) -> bool {
    forall|i: int| 0 <= i < m.replacements.len() ==> replacement_wf(#[trigger] m.replacements[i])
}

/// The canonical textual form of an expansion.
pub open spec fn print_expansion(m: ExpansionModel) -> HumanReadableExpansionModel {
    HumanReadableExpansionModel {
        suffix_or_property: m.suffix_or_property,
        cross_product: m.cross_product,
        replacements: m.replacements.map_values(|r: ReplacementModel| print_replacement(r)),
        target_metadata: m.target_metadata,
        base_metadata: m.base_metadata,
    }
}

/// Reads a sequence of textual replacements back; `None` as soon as one of
/// them is malformed.
pub open spec fn parse_replacements(s: Seq<HumanReadableReplacementModel>) -> Option<
    Seq<ReplacementModel>,
>
    decreases s.len(),
{
    if s.len() == 0 {
        Some(Seq::empty())
    } else {
        match parse_replacement(s[0]) {
            None => None,
            Some(r) => match parse_replacements(s.drop_first()) {
                None => None,
                Some(rest) => Some(seq![r] + rest),
            },
        }
    }
}

/// Reads a textual expansion back into its normal form.
pub open spec fn parse_expansion(h: HumanReadableExpansionModel) -> Option<ExpansionModel> {
    match parse_replacements(h.replacements) {
        None => None,
        Some(reps) => Some(
            ExpansionModel {
                suffix_or_property: h.suffix_or_property,
                cross_product: h.cross_product,
                replacements: reps,
                target_metadata: h.target_metadata,
                base_metadata: h.base_metadata,
            },
        ),
    }
}

proof fn lemma_replacements_round_trip(reps: Seq<ReplacementModel>)
    requires
        forall|i: int| 0 <= i < reps.len() ==> replacement_wf(#[trigger] reps[i]),
    ensures
        parse_replacements(reps.map_values(|r: ReplacementModel| print_replacement(r))) == Some(
            reps,
        ),
    decreases reps.len(),
{
    let printed = reps.map_values(|r: ReplacementModel| print_replacement(r));
    if reps.len() == 0 {
        assert(printed.len() == 0);
    } else {
        lemma_replacement_round_trip(reps[0]);
        assert(printed[0] == print_replacement(reps[0]));
        assert(printed.drop_first() =~= reps.drop_first().map_values(
            |r: ReplacementModel| print_replacement(r),
        ));
        lemma_replacements_round_trip(reps.drop_first());
        assert(seq![reps[0]] + reps.drop_first() =~= reps);
    }
}

/// Round trip for expansions: converting a well-formed expansion to its
/// human-readable form and back succeeds and reproduces an equal value.
pub proof fn lemma_expansion_round_trip(m: ExpansionModel)
    requires
        expansion_wf(m),
    ensures
        parse_expansion(print_expansion(m)) == Some(m),
{
    lemma_replacements_round_trip(m.replacements);
    assert(parse_expansion(print_expansion(m)).unwrap() =~= m);
}

proof fn lemma_replacements_parse_canonical(s: Seq<HumanReadableReplacementModel>)
    ensures
        match parse_replacements(s) {
            Some(reps) => reps.map_values(|r: ReplacementModel| print_replacement(r)) == s,
            None => true,
        },
    decreases s.len(),
{
    if s.len() == 0 {
        assert(Seq::<ReplacementModel>::empty().map_values(
            |r: ReplacementModel| print_replacement(r),
        ) =~= s);
    } else {
        match parse_replacement(s[0]) {
            None => {},
            Some(r0) => {
                lemma_replacement_parse_canonical(s[0]);
                match parse_replacements(s.drop_first()) {
                    None => {},
                    Some(rest) => {
                        lemma_replacements_parse_canonical(s.drop_first());
                        let full = seq![r0] + rest;
                        let printed = full.map_values(
                            |r: ReplacementModel| print_replacement(r),
                        );
                        assert forall|i: int| 0 <= i < printed.len() implies printed[i]
                            == s[i] by {
                            if i == 0 {
                                assert(full[0] == r0);
                            } else {
                                assert(full[i] == rest[i - 1]);
                                assert(rest.map_values(
                                    |r: ReplacementModel| print_replacement(r),
                                )[i - 1] == print_replacement(rest[i - 1]));
                                assert(s.drop_first()[i - 1] == s[i]);
                            }
                        }
                        assert(printed =~= s);
                    },
                }
            },
        }
    }
}

/// Text round trip for expansions: a textual expansion that reads back
/// successfully is reproduced exactly when converted forward again — together
/// with the value round trip, the human-readable form is a lossless two-way
/// mapping for well-formed data.
pub proof fn lemma_expansion_parse_canonical(h: HumanReadableExpansionModel)
    ensures
        match parse_expansion(h) {
            Some(e) => print_expansion(e) == h,
            None => true,
        },
{
    match parse_expansion(h) {
        Some(e) => {
            lemma_replacements_parse_canonical(h.replacements);
            assert(print_expansion(e) =~= h);
        },
        None => {},
    }
}

impl Expansion {
    /// Converts this expansion into its human-readable textual form.
    pub fn into_human_readable(self) -> (r: HumanReadableExpansion)
        ensures
            r@ == print_expansion(self@),
    {
        let ghost views = self.replacements@.map_values(|rr: AffixReplacement| rr@);
        let mut out: Vec<HumanReadableAffixReplacement> = Vec::new();
        let mut i: usize = 0;
        while i < self.replacements.len()
            invariant
                i <= self.replacements@.len(),
                views == self.replacements@.map_values(|rr: AffixReplacement| rr@),
                out@.len() == i,
                forall|x: int| 0 <= x < i ==> out@[x]@ == print_replacement(#[trigger] views[x]),
            decreases self.replacements.len() - i,
        {
            let ghost prevec = out@;
            let h = self.replacements[i].to_human_readable();
            let ghost hv = h@;
            out.push(h);
            proof {
                assert(views[i as int] == self.replacements@[i as int]@);
                assert forall|x: int| 0 <= x < i + 1 implies out@[x]@ == print_replacement(
                    #[trigger] views[x],
                ) by {
                    if x < prevec.len() {
                        assert(out@[x] == prevec[x]);
                    } else {
                        assert(out@[x]@ == hv);
                    }
                }
            }
            i += 1;
        }
        let r = HumanReadableExpansion {
            suffix_or_property: self.suffix_or_property,
            cross_product: self.cross_product,
            replacements: out,
            target_metadata: self.target_metadata,
            base_metadata: self.base_metadata,
        };
        proof {
            assert(r@.replacements =~= views.map_values(
                |rm: ReplacementModel| print_replacement(rm),
            ));
            assert(r@ =~= print_expansion(self@));
        }
        r
    }
}

impl HumanReadableExpansion {
    /// Reads this textual expansion back into its normal form, or reports
    /// the first malformed replacement.  Reading succeeds exactly on the
    /// canonical texts that `into_human_readable` produces, so the two
    /// conversions are a lossless two-way mapping.
    pub fn into_normal(self) -> (r: Result<Expansion, Error>)
        ensures
            match r {
                Ok(e) => parse_expansion(self@) == Some(e@),
                Err(e) => parse_expansion(self@) == None::<ExpansionModel> && e
                    == Error::MalformedReplacement,
            },
    {
        let ghost hviews = self.replacements@.map_values(
            |rr: HumanReadableAffixReplacement| rr@,
        );
        let mut out: Vec<AffixReplacement> = Vec::new();
        let ghost mut models: Seq<ReplacementModel> = Seq::empty();
        let mut i: usize = 0;
        proof {
            assert(hviews.skip(0) =~= hviews);
            match parse_replacements(hviews) {
                Some(rest) => {
                    assert(models + rest =~= rest);
                },
                None => {},
            }
        }
        while i < self.replacements.len()
            invariant
                i <= self.replacements@.len(),
                hviews == self.replacements@.map_values(
                    |rr: HumanReadableAffixReplacement| rr@,
                ),
                models.len() == out@.len(),
                forall|x: int| 0 <= x < models.len() ==> models[x] == out@[x]@,
                match parse_replacements(hviews.skip(i as int)) {
                    Some(rest) => parse_replacements(hviews) == Some(models + rest),
                    None => parse_replacements(hviews) == None::<Seq<ReplacementModel>>,
                },
            decreases self.replacements.len() - i,
        {
            let ghost pre = models;
            let ghost prevec = out@;
            let ghost rem = hviews.skip(i as int);
            proof {
                assert(rem[0] == hviews[i as int]);
                assert(hviews[i as int] == self.replacements@[i as int]@);
                assert(rem.drop_first() =~= hviews.skip(i + 1));
            }
            match self.replacements[i].to_normal() {
                Err(e) => {
                    return Err(e);
                },
                Ok(rep) => {
                    let ghost rv = rep@;
                    proof {
                        match parse_replacements(hviews.skip(i + 1)) {
                            Some(rest) => {
                                assert(pre + (seq![rv] + rest) =~= pre.push(rv) + rest);
                            },
                            None => {},
                        }
                    }
                    out.push(rep);
                    proof {
                        models = pre.push(rv);
                        assert forall|x: int| 0 <= x < models.len() implies models[x]
                            == out@[x]@ by {
                            if x < prevec.len() {
                                assert(out@[x] == prevec[x]);
                            }
                        }
                    }
                },
            }
            i += 1;
        }
        proof {
            assert(hviews.skip(hviews.len() as int) =~= Seq::<HumanReadableReplacementModel>::empty());
            match parse_replacements(hviews.skip(hviews.len() as int)) {
                Some(rest) => {
                    assert(models + rest =~= models);
                },
                None => {},
            }
        }
        let e = Expansion {
            suffix_or_property: self.suffix_or_property,
            cross_product: self.cross_product,
            replacements: out,
            target_metadata: self.target_metadata,
            base_metadata: self.base_metadata,
        };
        proof {
            assert(e@.replacements =~= models);
            assert(parse_expansion(self@).unwrap() =~= e@);
        }
        Ok(e)
    }
}

} // verus!
