use vstd::prelude::*;

verus! {

/// Grammatical tag set attached to a dictionary entry.
///
/// Merging two tag sets is a per-attribute logical or: it is commutative,
/// associative and idempotent, and never loses an attribute that was set.
#[derive(Clone, Copy, PartialEq, Eq, Structural, Debug)]
pub struct WordMetadata {
    pub noun: bool,
    pub verb: bool,
    pub adjective: bool,
    pub adverb: bool,
    pub conjunction: bool,
    pub swear: bool,
}

/// The per-attribute union of two tag sets.
pub open spec fn meta_union(a: WordMetadata, b: WordMetadata) -> WordMetadata {
    WordMetadata {
        noun: a.noun || b.noun,
        verb: a.verb || b.verb,
        adjective: a.adjective || b.adjective,
        adverb: a.adverb || b.adverb,
        conjunction: a.conjunction || b.conjunction,
        swear: a.swear || b.swear,
    }
}

impl WordMetadata {
    /// A tag set with no attribute set.
    pub fn empty() -> (r: WordMetadata)
        ensures
            r == (WordMetadata {
                noun: false,
                verb: false,
                adjective: false,
                adverb: false,
                conjunction: false,
                swear: false,
            }),
    {
        WordMetadata {
            noun: false,
            verb: false,
            adjective: false,
            adverb: false,
            conjunction: false,
            swear: false,
        }
    }

    /// Merge another tag set into this one; no attribute of either is lost.
    pub fn or(&self, other: &WordMetadata) -> (r: WordMetadata)
        ensures
            r == meta_union(*self, *other),
    {
        WordMetadata {
            noun: self.noun || other.noun,
            verb: self.verb || other.verb,
            adjective: self.adjective || other.adjective,
            adverb: self.adverb || other.adverb,
            conjunction: self.conjunction || other.conjunction,
            swear: self.swear || other.swear,
        }
    }
}

/// Merging tag sets is commutative.
pub proof fn lemma_meta_union_commutative(a: WordMetadata, b: WordMetadata)
    ensures
        meta_union(a, b) == meta_union(b, a),
{
}

/// Merging tag sets is associative.
pub proof fn lemma_meta_union_associative(a: WordMetadata, b: WordMetadata, c: WordMetadata)
    ensures
        meta_union(meta_union(a, b), c) == meta_union(a, meta_union(b, c)),
{
}

/// Merging a tag set with itself changes nothing.
pub proof fn lemma_meta_union_idempotent(a: WordMetadata)
    ensures
        meta_union(a, a) == a,
{
}

/// Merging never clears an attribute that was set.
pub proof fn lemma_meta_union_preserves(a: WordMetadata, b: WordMetadata)
    ensures
        a.noun ==> meta_union(a, b).noun,
        a.verb ==> meta_union(a, b).verb,
        a.adjective ==> meta_union(a, b).adjective,
        a.adverb ==> meta_union(a, b).adverb,
        a.conjunction ==> meta_union(a, b).conjunction,
        a.swear ==> meta_union(a, b).swear,
{
}

} // verus!
