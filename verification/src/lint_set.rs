use vstd::prelude::*;
use crate::dictionary::Dictionary;
use crate::document::{Document, TokenModel};
use crate::lint::{
    Lint, LintModel, is_lint_output, lint_views, lemma_sorted_classes_unique,
    lemma_with_start_concat, sort_lints, with_start,
};
use crate::linters::{Linter, LinterModel, linter_lints, run_linter};

verus! {

/// An ordered collection of detectors, run together over one document and
/// merged into a single deterministically ordered diagnostic stream.
#[derive(Debug)]
pub struct LintSet {
    pub linters: Vec<Linter>,
}

impl View for LintSet {
    type V = Seq<LinterModel>;

    open spec fn view(&self) -> Seq<LinterModel> {
        self.linters@.map_values(|l: Linter| l@)
    }
}

/// Everything the registered detectors report on a document, concatenated in
/// registration order, before sorting.
pub open spec fn all_lints(linters: Seq<LinterModel>, toks: Seq<TokenModel>) -> Seq<LintModel>
    decreases linters.len(),
{
    if linters.len() == 0 {
        Seq::empty()
    } else {
        linter_lints(linters[0], toks) + all_lints(linters.drop_first(), toks)
    }
}

/// Registering detectors in two sets and concatenating the sets runs them as
/// one: what a combined set reports is the two sets' reports, in order.
pub proof fn lemma_all_lints_concat(a: Seq<LinterModel>, b: Seq<LinterModel>, toks: Seq<TokenModel>)
    ensures
        all_lints(a + b, toks) == all_lints(a, toks) + all_lints(b, toks),
    decreases a.len(),
{
    if a.len() == 0 {
        assert(a + b =~= b);
        assert(all_lints(a, toks) + all_lints(b, toks) =~= all_lints(b, toks));
    } else {
        assert((a + b).drop_first() =~= a.drop_first() + b);
        lemma_all_lints_concat(a.drop_first(), b, toks);
        assert((a + b)[0] == a[0]);
        assert(linter_lints(a[0], toks) + (all_lints(a.drop_first(), toks) + all_lints(b, toks))
            =~= (linter_lints(a[0], toks) + all_lints(a.drop_first(), toks)) + all_lints(b, toks));
    }
}

/// Determinism: the output contract determines the lint stream uniquely, so
/// any two runs of the same set over the same document agree exactly.
pub proof fn lemma_lint_deterministic(r1: Seq<LintModel>, r2: Seq<LintModel>, src: Seq<LintModel>)
    requires
        is_lint_output(r1, src),
        is_lint_output(r2, src),
    ensures
        r1 == r2,
{
    lemma_sorted_classes_unique(r1, r2);
}

/// Merge law: sorting the concatenation of two sets' outputs is exactly what
/// the combined set outputs.  Nesting or flattening sets cannot be told
/// apart.
pub proof fn lemma_merge_lint_sets(
    a: Seq<LinterModel>,
    b: Seq<LinterModel>,
    toks: Seq<TokenModel>,
    ra: Seq<LintModel>,
    rb: Seq<LintModel>,
    rc: Seq<LintModel>,
    rd: Seq<LintModel>,
)
    requires
        is_lint_output(ra, all_lints(a, toks)),
        is_lint_output(rb, all_lints(b, toks)),
        is_lint_output(rc, ra + rb),
        is_lint_output(rd, all_lints(a + b, toks)),
    ensures
        rc == rd,
{
    lemma_all_lints_concat(a, b, toks);
    assert forall|v: int| with_start(rc, v) == with_start(rd, v) by {
        lemma_with_start_concat(ra, rb, v);
        lemma_with_start_concat(all_lints(a, toks), all_lints(b, toks), v);
    }
    lemma_sorted_classes_unique(rc, rd);
}

/// An empty set reports nothing on any document.
pub proof fn lemma_empty_set(r: Seq<LintModel>, toks: Seq<TokenModel>)
    requires
        is_lint_output(r, all_lints(Seq::<LinterModel>::empty(), toks)),
    ensures
        r == Seq::<LintModel>::empty(),
{
    lemma_sorted_classes_unique(r, Seq::<LintModel>::empty());
}

impl LintSet {
    /// An empty set, to be filled by the registration calls.
    pub fn new() -> (r: LintSet)
        ensures
            r@ == Seq::<LinterModel>::empty(),
    {
        let r = LintSet { linters: Vec::new() };
        proof {
            assert(r@ =~= Seq::<LinterModel>::empty());
        }
        r
    }

    fn register(&mut self, l: Linter)
        ensures
            final(self)@ == old(self)@.push(l@),
    {
        let ghost lv = l@;
        let ghost prevec = self.linters@;
        let ghost pre = self@;
        self.linters.push(l);
        proof {
            assert forall|x: int| 0 <= x < self@.len() implies self@[x] == pre.push(lv)[x] by {
                if x < prevec.len() {
                    assert(self.linters@[x] == prevec[x]);
                }
            }
            assert(self@ =~= pre.push(lv));
        }
    }

    /// Runs every registered detector over the document and returns all their
    /// findings, sorted by span start; detectors never see each other's
    /// output and never change the document.
    pub fn lint(&self, document: &Document) -> (r: Vec<Lint>)
        ensures
            is_lint_output(lint_views(r@), all_lints(self@, document@)),
    {
        let ghost lv = self@;
        let ghost tv = document@;
        let mut collected: Vec<Lint> = Vec::new();
        let ghost mut models: Seq<LintModel> = Seq::empty();
        let mut i: usize = 0;
        proof {
            assert(lv.skip(0) =~= lv);
            assert(models + all_lints(lv, tv) =~= all_lints(lv, tv));
        }
        while i < self.linters.len()
            invariant
                i <= self.linters@.len(),
                lv == self@,
                tv == document@,
                models.len() == collected@.len(),
                forall|x: int| 0 <= x < models.len() ==> models[x] == collected@[x]@,
                all_lints(lv, tv) == models + all_lints(lv.skip(i as int), tv),
            decreases self.linters.len() - i,
        {
            let ghost pre = models;
            let ghost prevec = collected@;
            let ghost rem = lv.skip(i as int);
            proof {
                assert(rem[0] == lv[i as int]);
                assert(lv[i as int] == self.linters@[i as int]@);
                assert(rem.drop_first() =~= lv.skip(i + 1));
            }
            let mut found = run_linter(&self.linters[i], document);
            let ghost fv = lint_views(found@);
            let mut k: usize = 0;
            while k < found.len()
                invariant
                    k <= found@.len(),
                    fv == lint_views(found@),
                    models.len() == collected@.len(),
                    forall|x: int| 0 <= x < models.len() ==> models[x] == collected@[x]@,
                    models == pre + fv.take(k as int),
                decreases found.len() - k,
            {
                let ghost innervec = collected@;
                let ghost innermodels = models;
                let l = crate::lint::clone_lint(&found[k]);
                let ghost lm = l@;
                proof {
                    assert(fv[k as int] == found@[k as int]@);
                }
                collected.push(l);
                proof {
                    models = innermodels.push(lm);
                    assert forall|x: int| 0 <= x < models.len() implies models[x]
                        == collected@[x]@ by {
                        if x < innervec.len() {
                            assert(collected@[x] == innervec[x]);
                        }
                    }
                    assert(fv.take(k + 1) =~= fv.take(k as int).push(lm));
                    assert(pre + fv.take(k + 1) =~= (pre + fv.take(k as int)).push(lm));
                }
                k += 1;
            }
            proof {
                assert(fv.take(fv.len() as int) =~= fv);
                assert(fv == linter_lints(rem[0], tv));
                assert((pre + fv) + all_lints(lv.skip(i + 1), tv) =~= pre + (fv + all_lints(
                    lv.skip(i + 1),
                    tv,
                )));
            }
            i += 1;
        }
        proof {
            assert(lv.skip(lv.len() as int) =~= Seq::<LinterModel>::empty());
            assert(models + all_lints(lv.skip(lv.len() as int), tv) =~= models);
            assert(lint_views(collected@) =~= models);
        }
        sort_lints(collected)
    }

    /// Registers a repeated-word detector.
    pub fn add_repeated_words(&mut self)
        ensures
            final(self)@ == old(self)@.push(LinterModel::RepeatedWords),
    {
        self.register(Linter::RepeatedWords);
    }

    /// Registers a long-sentence detector.
    pub fn add_long_sentences(&mut self)
        ensures
            final(self)@ == old(self)@.push(LinterModel::LongSentences),
    {
        self.register(Linter::LongSentences);
    }

    /// Registers an unclosed-quote detector.
    pub fn add_unclosed_quotes(&mut self)
        ensures
            final(self)@ == old(self)@.push(LinterModel::UnclosedQuotes),
    {
        self.register(Linter::UnclosedQuotes);
    }

    /// Registers a sentence-capitalization detector.
    pub fn add_sentence_capitalization(&mut self)
        ensures
            final(self)@ == old(self)@.push(LinterModel::SentenceCapitalization),
    {
        self.register(Linter::SentenceCapitalization);
    }

    /// Registers the phrase matcher.
    pub fn add_matcher(&mut self)
        ensures
            final(self)@ == old(self)@.push(LinterModel::Matcher),
    {
        self.register(Linter::Matcher);
    }

    /// Registers a double-space detector.
    pub fn add_spaces(&mut self)
        ensures
            final(self)@ == old(self)@.push(LinterModel::Spaces),
    {
        self.register(Linter::Spaces);
    }

    /// Registers a straight-quote detector.
    pub fn add_wrong_quotes(&mut self)
        ensures
            final(self)@ == old(self)@.push(LinterModel::WrongQuotes),
    {
        self.register(Linter::WrongQuotes);
    }

    /// Registers a spell-check detector bound to one dictionary.
    pub fn add_spell_check(&mut self, dictionary: Dictionary)
        ensures
            final(self)@ == old(self)@.push(LinterModel::SpellCheck(dictionary@)),
    {
        let ghost dv = dictionary@;
        self.register(Linter::SpellCheck(dictionary));
    }

    /// Registers the curated standard bundle of detectors.
    pub fn add_standard(&mut self, dictionary: Dictionary)
        ensures
            final(self)@ == old(self)@ + seq![
                LinterModel::RepeatedWords,
                LinterModel::LongSentences,
                LinterModel::UnclosedQuotes,
                LinterModel::SentenceCapitalization,
                LinterModel::Matcher,
                LinterModel::SpellCheck(dictionary@),
                LinterModel::Spaces,
            ],
    {
        let ghost pre = self@;
        let ghost dv = dictionary@;
        self.add_repeated_words();
        self.add_long_sentences();
        self.add_unclosed_quotes();
        self.add_sentence_capitalization();
        self.add_matcher();
        self.add_spell_check(dictionary);
        self.add_spaces();
        proof {
            assert(self@ =~= pre + seq![
                LinterModel::RepeatedWords,
                LinterModel::LongSentences,
                LinterModel::UnclosedQuotes,
                LinterModel::SentenceCapitalization,
                LinterModel::Matcher,
                LinterModel::SpellCheck(dv),
                LinterModel::Spaces,
            ]);
        }
    }

    /// The owning equivalent of `add_standard`, for fluent construction.
    pub fn with_standard(self, dictionary: Dictionary) -> (r: LintSet)
        ensures
            r@ == self@ + seq![
                LinterModel::RepeatedWords,
                LinterModel::LongSentences,
                LinterModel::UnclosedQuotes,
                LinterModel::SentenceCapitalization,
                LinterModel::Matcher,
                LinterModel::SpellCheck(dictionary@),
                LinterModel::Spaces,
            ],
    {
        let mut s = self;
        s.add_standard(dictionary);
        s
    }

    /// The owning equivalent of `add_spell_check`.
    pub fn with_spell_check(self, dictionary: Dictionary) -> (r: LintSet)
        ensures
            r@ == self@.push(LinterModel::SpellCheck(dictionary@)),
    {
        let mut s = self;
        s.add_spell_check(dictionary);
        s
    }

    /// The owning equivalent of `add_repeated_words`.
    pub fn with_repeated_words(self) -> (r: LintSet)
        ensures
            r@ == self@.push(LinterModel::RepeatedWords),
    {
        let mut s = self;
        s.add_repeated_words();
        s
    }

    /// The owning equivalent of `add_long_sentences`.
    pub fn with_long_sentences(self) -> (r: LintSet)
        ensures
            r@ == self@.push(LinterModel::LongSentences),
    {
        let mut s = self;
        s.add_long_sentences();
        s
    }

    /// The owning equivalent of `add_unclosed_quotes`.
    pub fn with_unclosed_quotes(self) -> (r: LintSet)
        ensures
            r@ == self@.push(LinterModel::UnclosedQuotes),
    {
        let mut s = self;
        s.add_unclosed_quotes();
        s
    }

    /// The owning equivalent of `add_sentence_capitalization`.
    pub fn with_sentence_capitalization(self) -> (r: LintSet)
        ensures
            r@ == self@.push(LinterModel::SentenceCapitalization),
    {
        let mut s = self;
        s.add_sentence_capitalization();
        s
    }

    /// The owning equivalent of `add_matcher`.
    pub fn with_matcher(self) -> (r: LintSet)
        ensures
            r@ == self@.push(LinterModel::Matcher),
    {
        let mut s = self;
        s.add_matcher();
        s
    }

    /// The owning equivalent of `add_spaces`.
    pub fn with_spaces(self) -> (r: LintSet)
        ensures
            r@ == self@.push(LinterModel::Spaces),
    {
        let mut s = self;
        s.add_spaces();
        s
    }

    /// The owning equivalent of `add_wrong_quotes`.
    pub fn with_wrong_quotes(self) -> (r: LintSet)
        ensures
            r@ == self@.push(LinterModel::WrongQuotes),
    {
        let mut s = self;
        s.add_wrong_quotes();
        s
    }
}

impl Default for LintSet {
    /// An empty set.
    fn default() -> (r: LintSet)
        ensures
            r@ == Seq::<LinterModel>::empty(),
    {
        LintSet::new()
    }
}

} // verus!
