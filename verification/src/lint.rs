use vstd::prelude::*;
use crate::replacement::copy_chars;

verus! {

/// A half-open range of positions in a document's text.
#[derive(Clone, Copy, PartialEq, Eq, Structural, Debug)]
pub struct Span {
    pub start: usize,
    pub end: usize,
}

/// The category of an issue a linter reports.
#[derive(Clone, Copy, PartialEq, Eq, Structural, Debug)]
pub enum LintKind {
    Spelling,
    Capitalization,
    Style,
    Formatting,
    Repetition,
    Enhancement,
    Readability,
    WordChoice,
    Miscellaneous,
}

/// One diagnostic finding tied to a span of the document.
#[derive(Clone, Debug)]
pub struct Lint {
    pub span: Span,
    pub kind: LintKind,
    pub message: Vec<char>,
    pub suggestions: Vec<Vec<char>>,
}

/// The mathematical value of a lint.
#[verifier::ext_equal]
pub struct LintModel {
    pub start: int,
    pub end: int,
    pub kind: LintKind,
    pub message: Seq<char>,
    pub suggestions: Seq<Seq<char>>,
}

impl View for Lint {
    type V = LintModel;

    open spec fn view(&self) -> LintModel {
        LintModel {
            start: self.span.start as int,
            end: self.span.end as int,
            kind: self.kind,
            message: self.message@,
            suggestions: self.suggestions@.map_values(|s: Vec<char>| s@),
        }
    }
}

/// The values of a sequence of lints.
pub open spec fn lint_views(s: Seq<Lint>) -> Seq<LintModel> {
    s.map_values(|l: Lint| l@)
}

/// Whether a sequence of lints is ordered by ascending span start.
pub open spec fn sorted_by_start(s: Seq<LintModel>) -> bool {
    forall|i: int, j: int| 0 <= i <= j < s.len() ==> s[i].start <= s[j].start
}

/// The subsequence of lints whose span starts at `v`, in their original
/// order.  A sorted sequence is fully determined by these classes, which is
/// how the orchestration contracts pin down a stable sort.
pub open spec fn with_start(s: Seq<LintModel>, v: int) -> Seq<LintModel>
    decreases s.len(),
{
    if s.len() == 0 {
        Seq::empty()
    } else {
        (if s[0].start == v {
            seq![s[0]]
        } else {
            Seq::<LintModel>::empty()
        }) + with_start(s.drop_first(), v)
    }
}

/// The output contract of lint orchestration: the result is sorted by span
/// start and, for every start position, keeps exactly the source's lints at
/// that position in their source order.
pub open spec fn is_lint_output(r: Seq<LintModel>, src: Seq<LintModel>) -> bool {
    &&& sorted_by_start(r)
    &&& forall|v: int| with_start(r, v) == with_start(src, v)
}

pub proof fn lemma_with_start_concat(a: Seq<LintModel>, b: Seq<LintModel>, v: int)
    ensures
        with_start(a + b, v) == with_start(a, v) + with_start(b, v),
    decreases a.len(),
{
    if a.len() == 0 {
        assert(a + b =~= b);
        assert(with_start(a, v) + with_start(b, v) =~= with_start(b, v));
    } else {
        assert((a + b).drop_first() =~= a.drop_first() + b);
        lemma_with_start_concat(a.drop_first(), b, v);
        let h = if a[0].start == v {
            seq![a[0]]
        } else {
            Seq::<LintModel>::empty()
        };
        assert((a + b)[0] == a[0]);
        assert(h + (with_start(a.drop_first(), v) + with_start(b, v)) =~= (h + with_start(
            a.drop_first(),
            v,
        )) + with_start(b, v));
    }
}

proof fn lemma_with_start_none(s: Seq<LintModel>, v: int)
    requires
        forall|i: int| 0 <= i < s.len() ==> s[i].start != v,
    ensures
        with_start(s, v) == Seq::<LintModel>::empty(),
    decreases s.len(),
{
    if s.len() == 0 {
    } else {
        assert(forall|i: int| 0 <= i < s.drop_first().len() ==> s.drop_first()[i].start != v);
        lemma_with_start_none(s.drop_first(), v);
        assert(with_start(s, v) =~= Seq::<LintModel>::empty());
    }
}

proof fn lemma_with_start_member(s: Seq<LintModel>, i: int)
    requires
        0 <= i < s.len(),
    ensures
        with_start(s, s[i].start).len() > 0,
    decreases i,
{
    if i == 0 {
        assert(with_start(s, s[0].start)[0] == s[0]);
    } else {
        lemma_with_start_member(s.drop_first(), i - 1);
        assert(s.drop_first()[i - 1] == s[i]);
    }
}

/// Two sorted sequences with identical per-start classes are equal: the
/// orchestration contract determines its result uniquely, which is the
/// determinism law for `lint`.
pub proof fn lemma_sorted_classes_unique(s1: Seq<LintModel>, s2: Seq<LintModel>)
    requires
        sorted_by_start(s1),
        sorted_by_start(s2),
        forall|v: int| with_start(s1, v) == with_start(s2, v),
    ensures
        s1 == s2,
    decreases s1.len(),
{
    if s1.len() == 0 {
        if s2.len() > 0 {
            lemma_with_start_member(s2, 0);
            lemma_with_start_none(s1, s2[0].start);
            assert(false);
        }
        assert(s1 =~= s2);
    } else if s2.len() == 0 {
        lemma_with_start_member(s1, 0);
        lemma_with_start_none(s2, s1[0].start);
        assert(false);
    } else {
        let v1 = s1[0].start;
        let v2 = s2[0].start;
        // Each head's start occurs in the other sequence, so the minima agree.
        lemma_with_start_member(s1, 0);
        assert(with_start(s2, v1).len() > 0);
        lemma_ws_nonempty_member(s2, v1);
        let i2 = choose|i: int| 0 <= i < s2.len() && s2[i].start == v1;
        assert(v2 <= v1);
        lemma_with_start_member(s2, 0);
        assert(with_start(s1, v2).len() > 0);
        lemma_ws_nonempty_member(s1, v2);
        let i1 = choose|i: int| 0 <= i < s1.len() && s1[i].start == v2;
        assert(v1 <= v2);
        assert(v1 == v2);
        // The heads are the first members of the same class.
        assert(with_start(s1, v1)[0] == s1[0]);
        assert(with_start(s2, v1)[0] == s2[0]);
        assert(s1[0] == s2[0]);
        // The tails again satisfy the hypotheses.
        let t1 = s1.drop_first();
        let t2 = s2.drop_first();
        assert forall|v: int| with_start(t1, v) == with_start(t2, v) by {
            if v == v1 {
                assert(with_start(s1, v) == seq![s1[0]] + with_start(t1, v));
                assert(with_start(s2, v) == seq![s2[0]] + with_start(t2, v));
                assert((seq![s1[0]] + with_start(t1, v)).drop_first() =~= with_start(t1, v));
                assert((seq![s2[0]] + with_start(t2, v)).drop_first() =~= with_start(t2, v));
            } else {
                assert(with_start(s1, v) == with_start(t1, v));
                assert(with_start(s2, v) == with_start(t2, v));
            }
        }
        lemma_sorted_classes_unique(t1, t2);
        assert(s1.len() == s2.len());
        assert forall|k: int| 0 <= k < s1.len() implies s1[k] == s2[k] by {
            if k > 0 {
                assert(s1[k] == t1[k - 1]);
                assert(s2[k] == t2[k - 1]);
            }
        }
        assert(s1 =~= s2);
    }
}

proof fn lemma_ws_nonempty_member(s: Seq<LintModel>, v: int)
    requires
        with_start(s, v).len() > 0,
    ensures
        exists|i: int| 0 <= i < s.len() && s[i].start == v,
    decreases s.len(),
{
    if s.len() == 0 {
    } else if s[0].start == v {
        assert(s[0].start == v);
    } else {
        assert(with_start(s, v) =~= with_start(s.drop_first(), v));
        lemma_ws_nonempty_member(s.drop_first(), v);
        let i = choose|i: int| 0 <= i < s.drop_first().len() && s.drop_first()[i].start == v;
        assert(s[i + 1].start == v);
    }
}

proof fn lemma_insert_keeps_classes(s: Seq<LintModel>, j: int, x: LintModel)
    requires
        sorted_by_start(s),
        0 <= j <= s.len(),
        forall|i: int| 0 <= i < j ==> s[i].start <= x.start,
        forall|i: int| j <= i < s.len() ==> s[i].start > x.start,
    ensures
        sorted_by_start(s.insert(j, x)),
        forall|v: int| with_start(s.insert(j, x), v) == with_start(s.push(x), v),
{
    let ins = s.insert(j, x);
    assert forall|a: int, b: int| 0 <= a <= b < ins.len() implies ins[a].start <= ins[b].start by {
        if a < j {
            assert(ins[a] == s[a]);
        } else if a == j {
            assert(ins[a] == x);
        } else {
            assert(ins[a] == s[a - 1]);
        }
        if b < j {
            assert(ins[b] == s[b]);
        } else if b == j {
            assert(ins[b] == x);
        } else {
            assert(ins[b] == s[b - 1]);
        }
    }
    assert forall|v: int| with_start(ins, v) == with_start(s.push(x), v) by {
        assert(ins =~= s.take(j) + seq![x] + s.skip(j));
        assert(s.push(x) =~= (s.take(j) + s.skip(j)) + seq![x]);
        assert(s.take(j) + s.skip(j) =~= s);
        lemma_with_start_concat(s.take(j) + seq![x], s.skip(j), v);
        lemma_with_start_concat(s.take(j), seq![x], v);
        lemma_with_start_concat(s, seq![x], v);
        lemma_with_start_concat(s.take(j), s.skip(j), v);
        if v == x.start {
            assert(forall|i: int| 0 <= i < s.skip(j).len() ==> s.skip(j)[i].start != v);
            lemma_with_start_none(s.skip(j), v);
            assert(with_start(ins, v) =~= with_start(s.take(j), v) + with_start(seq![x], v));
            assert(with_start(s.push(x), v) =~= (with_start(s.take(j), v) + with_start(
                s.skip(j),
                v,
            )) + with_start(seq![x], v));
            assert(with_start(ins, v) =~= with_start(s.push(x), v));
        } else {
            let single = seq![x];
            assert(single[0].start != v);
            assert(with_start(single, v) =~= with_start(single.drop_first(), v));
            assert(single.drop_first() =~= Seq::<LintModel>::empty());
            assert(with_start(single, v) =~= Seq::<LintModel>::empty());
            assert(with_start(ins, v) =~= with_start(s.take(j), v) + with_start(s.skip(j), v));
            assert(with_start(s.push(x), v) =~= with_start(s.take(j), v) + with_start(
                s.skip(j),
                v,
            ));
        }
    }
}

fn copy_texts(v: &Vec<Vec<char>>) -> (r: Vec<Vec<char>>)
    ensures
        r@.len() == v@.len(),
        forall|k: int| 0 <= k < v@.len() ==> r@[k]@ == v@[k]@,
{
    let mut out: Vec<Vec<char>> = Vec::new();
    let mut i: usize = 0;
    while i < v.len()
        invariant
            i <= v@.len(),
            out@.len() == i,
            forall|k: int| 0 <= k < i ==> out@[k]@ == v@[k]@,
        decreases v.len() - i,
    {
        let ghost prevec = out@;
        let t = copy_chars(&v[i]);
        let ghost tv = t@;
        out.push(t);
        proof {
            assert forall|k: int| 0 <= k < i + 1 implies out@[k]@ == v@[k]@ by {
                if k < prevec.len() {
                    assert(out@[k] == prevec[k]);
                } else {
                    assert(out@[k]@ == tv);
                }
            }
        }
        i += 1;
    }
    out
}

/// A copy of a lint with the same value.
pub fn clone_lint(l: &Lint) -> (r: Lint)
    ensures
        r@ == l@,
{
    let r = Lint {
        span: l.span,
        kind: l.kind,
        message: copy_chars(&l.message),
        suggestions: copy_texts(&l.suggestions),
    };
    proof {
        assert(r.suggestions@.map_values(|s: Vec<char>| s@) =~= l.suggestions@.map_values(
            |s: Vec<char>| s@,
        ));
        assert(r@ =~= l@);
    }
    r
}

/// Sorts lints by ascending span start, keeping lints with equal starts in
/// their original order (a stable sort).
pub fn sort_lints(input: Vec<Lint>) -> (r: Vec<Lint>)
    ensures
        is_lint_output(lint_views(r@), lint_views(input@)),
{
    let ghost src = lint_views(input@);
    let mut out: Vec<Lint> = Vec::new();
    let ghost mut models: Seq<LintModel> = Seq::empty();
    let mut i: usize = 0;
    proof {
        assert forall|v: int| with_start(models, v) == with_start(
            lint_views(input@).take(0),
            v,
        ) by {
            assert(lint_views(input@).take(0) =~= Seq::<LintModel>::empty());
        }
    }
    while i < input.len()
        invariant
            i <= input@.len(),
            src == lint_views(input@),
            models.len() == out@.len(),
            forall|x: int| 0 <= x < models.len() ==> models[x] == out@[x]@,
            sorted_by_start(models),
            forall|v: int| with_start(models, v) == with_start(src.take(i as int), v),
        decreases input.len() - i,
    {
        let ghost pre = models;
        let ghost prevec = out@;
        let x = clone_lint(&input[i]);
        let ghost xm = input@[i as int]@;
        proof {
            assert(src[i as int] == input@[i as int]@);
        }
        let mut j = out.len();
        while j > 0 && out[j - 1].span.start > x.span.start
            invariant
                j <= out@.len(),
                models.len() == out@.len(),
                forall|x2: int| 0 <= x2 < models.len() ==> models[x2] == out@[x2]@,
                forall|idx: int| j <= idx < models.len() ==> models[idx].start > xm.start,
                xm.start == x.span.start as int,
            decreases j,
        {
            j -= 1;
            proof {
                assert(models[j as int] == out@[j as int]@);
            }
        }
        proof {
            assert forall|idx: int| 0 <= idx < j implies models[idx].start <= xm.start by {
                if j > 0 {
                    assert(models[j - 1] == out@[j - 1]@);
                    assert(models[j - 1].start <= xm.start);
                    assert(models[idx].start <= models[j - 1].start);
                }
            }
            lemma_insert_keeps_classes(pre, j as int, xm);
        }
        out.insert(j, x);
        proof {
            models = pre.insert(j as int, xm);
            assert forall|x2: int| 0 <= x2 < models.len() implies models[x2] == out@[x2]@ by {
                if x2 < j {
                    assert(out@[x2] == prevec[x2]);
                    assert(models[x2] == pre[x2]);
                } else if x2 == j {
                    assert(out@[x2]@ == xm);
                } else {
                    assert(out@[x2] == prevec[x2 - 1]);
                    assert(models[x2] == pre[x2 - 1]);
                }
            }
            assert forall|v: int| with_start(models, v) == with_start(src.take(i + 1), v) by {
                assert(src.take(i + 1) =~= src.take(i as int).push(src[i as int]));
                assert(src.take(i as int).push(src[i as int]) =~= src.take(i as int) + seq![
                    src[i as int],
                ]);
                lemma_with_start_concat(src.take(i as int), seq![src[i as int]], v);
                assert(pre.push(xm) =~= pre + seq![xm]);
                lemma_with_start_concat(pre, seq![xm], v);
            }
        }
        i += 1;
    }
    proof {
        assert(src.take(src.len() as int) =~= src);
        assert(lint_views(out@) =~= models);
    }
    out
}

} // verus!
