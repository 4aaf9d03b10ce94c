use vstd::prelude::*;
use crate::metadata::{WordMetadata, meta_union};
use crate::replacement::chars_eq;

verus! {

/// The expanded word list: every surface spelling with its merged metadata,
/// in first-insertion order with unique keys.  Built once by the expansion
/// engine and then shared read-only by spell-check linters.
#[derive(Debug)]
pub struct Dictionary {
    pub entries: Vec<(Vec<char>, WordMetadata)>,
}

impl View for Dictionary {
    type V = Seq<(Seq<char>, WordMetadata)>;

    open spec fn view(&self) -> Seq<(Seq<char>, WordMetadata)> {
        self.entries@.map_values(|p: (Vec<char>, WordMetadata)| (p.0@, p.1))
    }
}

/// Whether a word list holds a spelling.
pub open spec fn dict_has(s: Seq<(Seq<char>, WordMetadata)>, w: Seq<char>) -> bool {
    exists|i: int| 0 <= i < s.len() && s[i].0 == w
}

/// Merging one `(word, metadata)` contribution into a word list: the first
/// entry with the same key has the metadata unioned in, a fresh key is
/// appended.  Metadata is merged, never overwritten.
pub open spec fn merge_one(
    s: Seq<(Seq<char>, WordMetadata)>,
    w: Seq<char>,
    m: WordMetadata,
) -> Seq<(Seq<char>, WordMetadata)>
    decreases s.len(),
{
    if s.len() == 0 {
        seq![(w, m)]
    } else if s[0].0 == w {
        seq![(w, meta_union(s[0].1, m))] + s.drop_first()
    } else {
        seq![s[0]] + merge_one(s.drop_first(), w, m)
    }
}

/// Folding a whole contribution list into a word list, first to last.
pub open spec fn merge_all(
    s: Seq<(Seq<char>, WordMetadata)>,
    contribs: Seq<(Seq<char>, WordMetadata)>,
) -> Seq<(Seq<char>, WordMetadata)>
    decreases contribs.len(),
{
    if contribs.len() == 0 {
        s
    } else {
        merge_all(merge_one(s, contribs[0].0, contribs[0].1), contribs.drop_first())
    }
}

proof fn lemma_merge_one_found(
    s: Seq<(Seq<char>, WordMetadata)>,
    w: Seq<char>,
    m: WordMetadata,
    ix: int,
)
    requires
        0 <= ix < s.len(),
        s[ix].0 == w,
        forall|j: int| 0 <= j < ix ==> s[j].0 != w,
    ensures
        merge_one(s, w, m) == s.update(ix, (w, meta_union(s[ix].1, m))),
    decreases ix,
{
    if ix == 0 {
        assert(merge_one(s, w, m) =~= s.update(0, (w, meta_union(s[0].1, m))));
    } else {
        let d = s.drop_first();
        assert(d[ix - 1].0 == w);
        assert forall|j: int| 0 <= j < ix - 1 implies d[j].0 != w by {
            assert(s[j + 1].0 != w);
        }
        lemma_merge_one_found(d, w, m, ix - 1);
        assert(seq![s[0]] + d.update(ix - 1, (w, meta_union(d[ix - 1].1, m))) =~= s.update(
            ix,
            (w, meta_union(s[ix].1, m)),
        ));
    }
}

proof fn lemma_merge_one_absent(s: Seq<(Seq<char>, WordMetadata)>, w: Seq<char>, m: WordMetadata)
    requires
        forall|j: int| 0 <= j < s.len() ==> s[j].0 != w,
    ensures
        merge_one(s, w, m) == s.push((w, m)),
    decreases s.len(),
{
    if s.len() == 0 {
        assert(merge_one(s, w, m) =~= s.push((w, m)));
    } else {
        let d = s.drop_first();
        assert forall|j: int| 0 <= j < d.len() implies d[j].0 != w by {
            assert(s[j + 1].0 != w);
        }
        lemma_merge_one_absent(d, w, m);
        assert(seq![s[0]] + d.push((w, m)) =~= s.push((w, m)));
    }
}

/// Whether two spellings are close enough for `b` to be suggested for `a`:
/// the same length, differing in at most one position.
pub open spec fn close_match(a: Seq<char>, b: Seq<char>) -> bool {
    &&& a.len() == b.len()
    &&& diff_count(a, b) <= 1
}

/// In how many positions two equal-length spellings differ.
pub open spec fn diff_count(a: Seq<char>, b: Seq<char>) -> nat
    decreases a.len(),
{
    if a.len() == 0 || b.len() == 0 {
        0
    } else {
        ((if a[0] == b[0] {
            0nat
        } else {
            1nat
        }) + diff_count(a.drop_first(), b.drop_first())) as nat
    }
}

/// The dictionary words close to a spelling, in dictionary order.
pub open spec fn close_words(s: Seq<(Seq<char>, WordMetadata)>, w: Seq<char>) -> Seq<Seq<char>>
    decreases s.len(),
{
    if s.len() == 0 {
        Seq::empty()
    } else {
        (if close_match(s[0].0, w) {
            seq![s[0].0]
        } else {
            Seq::<Seq<char>>::empty()
        }) + close_words(s.drop_first(), w)
    }
}

fn diff_count_exec(a: &Vec<char>, b: &Vec<char>) -> (r: usize)
    requires
        a@.len() == b@.len(),
    ensures
        r == diff_count(a@, b@),
{
    let mut count: usize = 0;
    let mut i: usize = 0;
    proof {
        assert(a@.skip(0) =~= a@);
        assert(b@.skip(0) =~= b@);
    }
    while i < a.len()
        invariant
            i <= a@.len(),
            a@.len() == b@.len(),
            count <= i,
            diff_count(a@, b@) == count + diff_count(a@.skip(i as int), b@.skip(i as int)),
        decreases a.len() - i,
    {
        let ghost ra = a@.skip(i as int);
        let ghost rb = b@.skip(i as int);
        proof {
            assert(ra[0] == a@[i as int]);
            assert(rb[0] == b@[i as int]);
            assert(ra.drop_first() =~= a@.skip(i + 1));
            assert(rb.drop_first() =~= b@.skip(i + 1));
        }
        if a[i] != b[i] {
            count += 1;
        }
        i += 1;
    }
    proof {
        assert(a@.skip(a@.len() as int) =~= Seq::<char>::empty());
    }
    count
}

impl Dictionary {
    /// An empty word list.
    pub fn new() -> (r: Dictionary)
        ensures
            r@ == Seq::<(Seq<char>, WordMetadata)>::empty(),
    {
        let d = Dictionary { entries: Vec::new() };
        proof {
            assert(d@ =~= Seq::<(Seq<char>, WordMetadata)>::empty());
        }
        d
    }

    /// The number of distinct spellings.
    pub fn len(&self) -> (r: usize)
        ensures
            r == self@.len(),
    {
        self.entries.len()
    }

    /// Merges one contribution in: metadata union on an existing key, append
    /// on a fresh one.
    pub fn merge_insert(&mut self, word: Vec<char>, meta: WordMetadata)
        ensures
            final(self)@ == merge_one(old(self)@, word@, meta),
    {
        let ghost orig = self@;
        let ghost wv = word@;
        let mut ix: usize = 0;
        let mut found = false;
        while ix < self.entries.len() && !found
            invariant
                ix <= self.entries@.len(),
                orig == self@,
                wv == word@,
                found ==> ix < self.entries@.len() && self@[ix as int].0 == wv,
                forall|j: int| 0 <= j < ix ==> self@[j].0 != wv,
            decreases self.entries.len() - ix + (if found { 0int } else { 1int }),
        {
            proof {
                assert(self@[ix as int].0 == self.entries@[ix as int].0@);
            }
            if chars_eq(&self.entries[ix].0, &word) {
                found = true;
            } else {
                ix += 1;
            }
        }
        if found {
            let ghost prevec = self.entries@;
            let pair = self.entries.remove(ix);
            let merged = pair.1.or(&meta);
            self.entries.insert(ix, (word, merged));
            proof {
                assert(pair == prevec[ix as int]);
                assert(self.entries@ =~= prevec.update(ix as int, (self.entries@[ix as int].0, merged)));
                lemma_merge_one_found(orig, wv, meta, ix as int);
                assert(orig[ix as int].1 == prevec[ix as int].1);
                assert(self@ =~= orig.update(ix as int, (wv, meta_union(orig[ix as int].1, meta))));
            }
        } else {
            let ghost prevec = self.entries@;
            self.entries.push((word, meta));
            proof {
                lemma_merge_one_absent(orig, wv, meta);
                assert(self@ =~= orig.push((wv, meta)));
            }
        }
    }

    /// Whether the dictionary holds a spelling.
    pub fn contains(&self, word: &Vec<char>) -> (r: bool)
        ensures
            r == dict_has(self@, word@),
    {
        let mut i: usize = 0;
        while i < self.entries.len()
            invariant
                i <= self.entries@.len(),
                forall|j: int| 0 <= j < i ==> self@[j].0 != word@,
            decreases self.entries.len() - i,
        {
            proof {
                assert(self@[i as int].0 == self.entries@[i as int].0@);
            }
            if chars_eq(&self.entries[i].0, word) {
                return true;
            }
            i += 1;
        }
        false
    }

    /// The metadata merged onto a spelling, if the dictionary holds it.
    pub fn metadata_of(&self, word: &Vec<char>) -> (r: Option<WordMetadata>)
        ensures
            match r {
                Some(m) => exists|i: int|
                    0 <= i < self@.len() && self@[i].0 == word@ && self@[i].1 == m,
                None => !dict_has(self@, word@),
            },
    {
        let mut i: usize = 0;
        while i < self.entries.len()
            invariant
                i <= self.entries@.len(),
                forall|j: int| 0 <= j < i ==> self@[j].0 != word@,
            decreases self.entries.len() - i,
        {
            proof {
                assert(self@[i as int].0 == self.entries@[i as int].0@);
            }
            if chars_eq(&self.entries[i].0, word) {
                return Some(self.entries[i].1);
            }
            i += 1;
        }
        None
    }

    /// Candidate corrections for a spelling: every dictionary word of the
    /// same length differing in at most one position, in dictionary order.
    pub fn suggestions_for(&self, word: &Vec<char>) -> (r: Vec<Vec<char>>)
        ensures
            r@.map_values(|s: Vec<char>| s@) == close_words(self@, word@),
    {
        let mut out: Vec<Vec<char>> = Vec::new();
        let ghost mut models: Seq<Seq<char>> = Seq::empty();
        let mut i: usize = 0;
        proof {
            assert(self@.skip(0) =~= self@);
        }
        let ghost dv = self@;
        while i < self.entries.len()
            invariant
                i <= self.entries@.len(),
                dv == self@,
                models.len() == out@.len(),
                forall|x: int| 0 <= x < models.len() ==> models[x] == out@[x]@,
                close_words(dv, word@) == models + close_words(dv.skip(i as int), word@),
            decreases self.entries.len() - i,
        {
            let ghost pre = models;
            let ghost prevec = out@;
            let ghost rem = dv.skip(i as int);
            proof {
                assert(rem[0] == dv[i as int]);
                assert(dv[i as int].0 == self.entries@[i as int].0@);
                assert(rem.drop_first() =~= dv.skip(i + 1));
            }
            let entry_word = &self.entries[i].0;
            let mut is_close = false;
            if entry_word.len() == word.len() {
                let d = diff_count_exec(entry_word, word);
                if d <= 1 {
                    is_close = true;
                }
            }
            if is_close {
                let copy = crate::replacement::copy_chars(entry_word);
                let ghost cv = copy@;
                out.push(copy);
                proof {
                    models = pre.push(cv);
                    assert forall|x: int| 0 <= x < models.len() implies models[x] == out@[x]@ by {
                        if x < prevec.len() {
                            assert(out@[x] == prevec[x]);
                        }
                    }
                    assert(pre + (seq![cv] + close_words(dv.skip(i + 1), word@)) =~= pre.push(cv)
                        + close_words(dv.skip(i + 1), word@));
                }
            } else {
                proof {
                    assert(!close_match(rem[0].0, word@));
                    assert(close_words(rem, word@) =~= close_words(dv.skip(i + 1), word@));
                }
            }
            i += 1;
        }
        proof {
            assert(dv.skip(dv.len() as int) =~= Seq::<(Seq<char>, WordMetadata)>::empty());
            assert(models + close_words(dv.skip(dv.len() as int), word@) =~= models);
            assert(out@.map_values(|s: Vec<char>| s@) =~= models);
        }
        out
    }
}

} // verus!
