use vstd::prelude::*;
use crate::Error;

verus! {

// ---------------------------------------------------------------------------
// Condition patterns
//
// A condition is a non-empty sequence of atoms matched against one end of a
// word, one atom per character.  Its textual form writes `.` for "any
// character", `[abc]` for a character class, `[^abc]` for a negated class,
// and any other character for the class holding just that character.
// ---------------------------------------------------------------------------

/// One atom of a condition pattern.
#[derive(Clone, Debug)]
pub enum CondAtom {
    /// Matches any character; written `.`.
    Any,
    /// Matches a character in (or, when negated, outside) a finite set;
    /// written `[abc]` or `[^abc]`, or as the bare character for a plain
    /// one-character class.
    Class { negated: bool, members: Vec<char> },
}

/// The mathematical value of one condition atom.
pub enum AtomModel {
    Any,
    Class { negated: bool, members: Seq<char> },
}

impl View for CondAtom {
    type V = AtomModel;

    open spec fn view(&self) -> AtomModel {
        match self {
            CondAtom::Any => AtomModel::Any,
            CondAtom::Class { negated, members } => AtomModel::Class {
                negated: *negated,
                members: members@,
            },
        }
    }
}

/// The values of a sequence of atoms.
pub open spec fn atom_views(s: Seq<CondAtom>) -> Seq<AtomModel> {
    s.map_values(|a: CondAtom| a@)
}

/// A character with no special meaning in the textual form of a condition.
pub open spec fn is_plain_char(c: char) -> bool {
    c != '[' && c != ']' && c != '.' && c != '^'
}

/// A well-formed atom can be printed and read back unchanged: a class has at
/// least one member (so it is satisfiable), no member is the closing `]`,
/// and a plain class may not begin with the negation marker `^`.
pub open spec fn atom_wf(a: AtomModel) -> bool {
    match a {
        AtomModel::Any => true,
        AtomModel::Class { negated, members } => {
            &&& members.len() > 0
            &&& forall|i: int| 0 <= i < members.len() ==> members[i] != ']'
            &&& (!negated ==> members[0] != '^')
        },
    }
}

/// A well-formed condition is non-empty (so it is satisfiable by at least one
/// string) and made of well-formed atoms.
pub open spec fn condition_wf(cond: Seq<AtomModel>) -> bool {
    &&& cond.len() > 0
    &&& forall|i: int| 0 <= i < cond.len() ==> atom_wf(#[trigger] cond[i])
}

/// Whether one atom accepts one character.
pub open spec fn atom_matches(a: AtomModel, c: char) -> bool {
    match a {
        AtomModel::Any => true,
        AtomModel::Class { negated, members } => negated != members.contains(c),
    }
}

/// Whether a condition matches the last `cond.len()` characters of a word.
pub open spec fn matches_at_end(cond: Seq<AtomModel>, w: Seq<char>) -> bool {
    &&& w.len() >= cond.len()
    &&& forall|i: int| 0 <= i < cond.len() ==> atom_matches(
        #[trigger] cond[i],
        w[w.len() - cond.len() + i],
    )
}

/// Whether a condition matches the first `cond.len()` characters of a word.
pub open spec fn matches_at_start(cond: Seq<AtomModel>, w: Seq<char>) -> bool {
    &&& w.len() >= cond.len()
    &&& forall|i: int| 0 <= i < cond.len() ==> atom_matches(#[trigger] cond[i], w[i])
}

// ---------------------------------------------------------------------------
// Printing conditions
// ---------------------------------------------------------------------------

/// The canonical textual form of one atom: a plain one-character class is
/// written as the bare character, every other class in brackets.
pub open spec fn print_atom(a: AtomModel) -> Seq<char> {
    match a {
        AtomModel::Any => seq!['.'],
        AtomModel::Class { negated, members } => {
            if !negated && members.len() == 1 && is_plain_char(members[0]) {
                seq![members[0]]
            } else {
                seq!['['] + (if negated {
                    seq!['^']
                } else {
                    Seq::<char>::empty()
                }) + members + seq![']']
            }
        },
    }
}

/// The canonical textual form of a condition.
pub open spec fn print_condition(cond: Seq<AtomModel>) -> Seq<char>
    decreases cond.len(),
{
    if cond.len() == 0 {
        Seq::empty()
    } else {
        print_atom(cond[0]) + print_condition(cond.drop_first())
    }
}

proof fn lemma_print_condition_concat(a: Seq<AtomModel>, b: Seq<AtomModel>)
    ensures
        print_condition(a + b) == print_condition(a) + print_condition(b),
    decreases a.len(),
{
    if a.len() == 0 {
        assert(a + b =~= b);
        assert(print_condition(a) + print_condition(b) =~= print_condition(b));
    } else {
        assert((a + b).drop_first() =~= a.drop_first() + b);
        lemma_print_condition_concat(a.drop_first(), b);
        assert(print_atom((a + b)[0]) + (print_condition(a.drop_first()) + print_condition(b))
            =~= (print_atom(a[0]) + print_condition(a.drop_first())) + print_condition(b));
    }
}

// ---------------------------------------------------------------------------
// Parsing conditions
// ---------------------------------------------------------------------------

/// The position of the first `]` in a text, if any.
pub open spec fn find_close(s: Seq<char>) -> Option<int>
    decreases s.len(),
{
    if s.len() == 0 {
        None
    } else if s[0] == ']' {
        Some(0int)
    } else {
        match find_close(s.drop_first()) {
            Some(i) => Some(i + 1),
            None => None,
        }
    }
}

proof fn lemma_find_close_bounds(s: Seq<char>)
    ensures
        match find_close(s) {
            Some(i) => 0 <= i < s.len() && s[i] == ']' && forall|j: int| 0 <= j < i ==> s[j] != ']',
            None => forall|j: int| 0 <= j < s.len() ==> s[j] != ']',
        },
    decreases s.len(),
{
    if s.len() == 0 {
    } else if s[0] == ']' {
    } else {
        let d = s.drop_first();
        lemma_find_close_bounds(d);
        match find_close(d) {
            Some(i) => {
                assert(s[i + 1] == ']');
                assert forall|j: int| 0 <= j < i + 1 implies s[j] != ']' by {
                    if j > 0 {
                        assert(d[j - 1] != ']');
                    }
                }
            },
            None => {
                assert forall|j: int| 0 <= j < s.len() implies s[j] != ']' by {
                    if j > 0 {
                        assert(d[j - 1] != ']');
                    }
                }
            },
        }
    }
}

/// `find_close` returns the first closing bracket: a prefix free of `]`
/// followed by `]` puts the answer at the prefix's length.
proof fn lemma_find_close_after(x: Seq<char>, y: Seq<char>)
    requires
        forall|j: int| 0 <= j < x.len() ==> x[j] != ']',
    ensures
        find_close(x + seq![']'] + y) == Some(x.len() as int),
    decreases x.len(),
{
    let s = x + seq![']'] + y;
    if x.len() == 0 {
        assert(s[0] == ']');
    } else {
        assert(s[0] == x[0]);
        assert(s.drop_first() =~= x.drop_first() + seq![']'] + y);
        lemma_find_close_after(x.drop_first(), y);
    }
}

proof fn lemma_find_close_found(s: Seq<char>, m: int)
    requires
        0 <= m < s.len(),
        s[m] == ']',
        forall|j: int| 0 <= j < m ==> s[j] != ']',
    ensures
        find_close(s) == Some(m),
    decreases m,
{
    if m == 0 {
    } else {
        let d = s.drop_first();
        assert(d[m - 1] == ']');
        assert forall|j: int| 0 <= j < m - 1 implies d[j] != ']' by {
            assert(s[j + 1] != ']');
        }
        lemma_find_close_found(d, m - 1);
    }
}

/// Reads a condition text back into its atoms; `None` when the text is not a
/// valid canonical pattern: an unclosed bracket, an empty class, a stray `]`
/// or `^`, or a bracketed class that the canonical form writes as a bare
/// character.  Accepting only canonical text makes the textual form a
/// lossless two-way mapping.
pub open spec fn parse_condition_chars(s: Seq<char>) -> Option<Seq<AtomModel>>
    decreases s.len(),
    via parse_condition_chars_decreases
{
    if s.len() == 0 {
        Some(Seq::empty())
    } else if s[0] == '.' {
        match parse_condition_chars(s.drop_first()) {
            Some(r) => Some(seq![AtomModel::Any] + r),
            None => None,
        }
    } else if s[0] == '[' {
        let body = s.drop_first();
        match find_close(body) {
            None => None,
            Some(ci) => {
                let inner = body.take(ci);
                let negated = inner.len() > 0 && inner[0] == '^';
                let members = if negated {
                    inner.drop_first()
                } else {
                    inner
                };
                if members.len() == 0 || (!negated && members.len() == 1 && is_plain_char(
                    members[0],
                )) {
                    None
                } else {
                    match parse_condition_chars(body.skip(ci + 1)) {
                        Some(r) => Some(seq![AtomModel::Class { negated, members }] + r),
                        None => None,
                    }
                }
            },
        }
    } else if s[0] == ']' || s[0] == '^' {
        None
    } else {
        match parse_condition_chars(s.drop_first()) {
            Some(r) => Some(seq![AtomModel::Class { negated: false, members: seq![s[0]] }] + r),
            None => None,
        }
    }
}

#[via_fn]
proof fn parse_condition_chars_decreases(s: Seq<char>) {
    if s.len() > 0 && s[0] == '[' {
        lemma_find_close_bounds(s.drop_first());
    }
}

/// The full parse of a condition text: a condition must be non-empty, so
/// empty text is rejected.
pub open spec fn parse_condition_full(s: Seq<char>) -> Option<Seq<AtomModel>> {
    if s.len() == 0 {
        None
    } else {
        parse_condition_chars(s)
    }
}

/// Parsing undoes printing, one atom at a time: for a well-formed atom `a`
/// and any tail `t`, reading `print_atom(a) + t` yields `a` followed by
/// whatever `t` parses to.
proof fn lemma_parse_print_atom(a: AtomModel, t: Seq<char>)
    requires
        atom_wf(a),
    ensures
        parse_condition_chars(print_atom(a) + t) == match parse_condition_chars(t) {
            Some(r) => Some(seq![a] + r),
            None => None::<Seq<AtomModel>>,
        },
{
    let s = print_atom(a) + t;
    match a {
        AtomModel::Any => {
            assert(s[0] == '.');
            assert(s.drop_first() =~= t);
        },
        AtomModel::Class { negated, members } => {
            if !negated && members.len() == 1 && is_plain_char(members[0]) {
                let c0 = members[0];
                assert(s[0] == c0);
                assert(s.drop_first() =~= t);
                match parse_condition_chars(t) {
                    Some(r) => {
                        assert(seq![s[0]] =~= members);
                        assert(seq![AtomModel::Class { negated: false, members: seq![s[0]] }]
                            =~= seq![a]);
                    },
                    None => {},
                }
            } else {
                let mid = (if negated {
                    seq!['^']
                } else {
                    Seq::<char>::empty()
                }) + members;
                assert(s[0] == '[');
                let body = s.drop_first();
                assert(body =~= mid + seq![']'] + t);
                assert(forall|j: int| 0 <= j < mid.len() ==> mid[j] != ']');
                lemma_find_close_after(mid, t);
                let ci = mid.len() as int;
                assert(body.take(ci) =~= mid);
                assert(body.skip(ci + 1) =~= t);
                if negated {
                    assert(mid[0] == '^');
                    assert(mid.drop_first() =~= members);
                } else {
                    assert(mid =~= members);
                    assert(mid[0] != '^');
                }
            }
        },
    }
}

/// Round trip for conditions: printing a well-formed condition and parsing
/// the text back yields the same condition.
pub proof fn lemma_condition_round_trip(cond: Seq<AtomModel>)
    requires
        forall|i: int| 0 <= i < cond.len() ==> atom_wf(#[trigger] cond[i]),
    ensures
        parse_condition_chars(print_condition(cond)) == Some(cond),
    decreases cond.len(),
{
    if cond.len() == 0 {
        assert(print_condition(cond) =~= Seq::<char>::empty());
    } else {
        lemma_condition_round_trip(cond.drop_first());
        lemma_parse_print_atom(cond[0], print_condition(cond.drop_first()));
        assert(seq![cond[0]] + cond.drop_first() =~= cond);
    }
}

/// The text of a well-formed condition is never empty.
pub proof fn lemma_print_condition_nonempty(cond: Seq<AtomModel>)
    requires
        cond.len() > 0,
    ensures
        print_condition(cond).len() > 0,
{
    match cond[0] {
        AtomModel::Any => {},
        AtomModel::Class { .. } => {},
    }
}

/// Accepted condition texts are exactly the canonical ones: printing what a
/// text parsed to reproduces that text.
pub proof fn lemma_parse_text_canonical(s: Seq<char>)
    ensures
        match parse_condition_chars(s) {
            Some(atoms) => print_condition(atoms) == s,
            None => true,
        },
    decreases s.len(),
{
    if s.len() == 0 {
        assert(print_condition(Seq::<AtomModel>::empty()) =~= s);
    } else if s[0] == '.' {
        lemma_parse_text_canonical(s.drop_first());
        match parse_condition_chars(s.drop_first()) {
            Some(r) => {
                let full = seq![AtomModel::Any] + r;
                assert(full[0] == AtomModel::Any);
                assert(full.drop_first() =~= r);
                assert(print_condition(full) == print_atom(AtomModel::Any) + print_condition(r));
                assert(print_atom(AtomModel::Any) + s.drop_first() =~= s);
            },
            None => {},
        }
    } else if s[0] == '[' {
        let body = s.drop_first();
        lemma_find_close_bounds(body);
        match find_close(body) {
            None => {},
            Some(ci) => {
                let inner = body.take(ci);
                let negated = inner.len() > 0 && inner[0] == '^';
                let members = if negated {
                    inner.drop_first()
                } else {
                    inner
                };
                let rest = body.skip(ci + 1);
                if members.len() == 0 || (!negated && members.len() == 1 && is_plain_char(
                    members[0],
                )) {
                } else {
                    lemma_parse_text_canonical(rest);
                    match parse_condition_chars(rest) {
                        Some(r) => {
                            let head = AtomModel::Class { negated, members };
                            let full = seq![head] + r;
                            assert(full[0] == head);
                            assert(full.drop_first() =~= r);
                            assert(print_condition(full) == print_atom(head) + print_condition(r));
                            let printed = seq!['['] + (if negated {
                                seq!['^']
                            } else {
                                Seq::<char>::empty()
                            }) + members + seq![']'];
                            assert(print_atom(head) =~= printed);
                            assert(body[ci] == ']');
                            assert(inner + seq![']'] + rest =~= body);
                            if negated {
                                assert(seq!['^'] + members =~= inner);
                            } else {
                                assert(members =~= inner);
                            }
                            assert(printed + rest =~= s);
                        },
                        None => {},
                    }
                }
            },
        }
    } else if s[0] == ']' || s[0] == '^' {
    } else {
        lemma_parse_text_canonical(s.drop_first());
        match parse_condition_chars(s.drop_first()) {
            Some(r) => {
                let c0 = s[0];
                let m = seq![c0];
                let head = AtomModel::Class { negated: false, members: m };
                assert(m.len() == 1 && m[0] == c0);
                assert(is_plain_char(c0));
                assert(print_atom(head) =~= seq![c0]);
                let full = seq![head] + r;
                assert(full[0] == head);
                assert(full.drop_first() =~= r);
                assert(print_condition(full) == print_atom(head) + print_condition(r));
                assert(seq![c0] + s.drop_first() =~= s);
            },
            None => {},
        }
    }
}

/// Text round trip for replacements: a textual rule that reads back
/// successfully is reproduced exactly when written out again.
pub proof fn lemma_replacement_parse_canonical(h: HumanReadableReplacementModel)
    ensures
        match parse_replacement(h) {
            Some(m) => print_replacement(m) == h,
            None => true,
        },
{
    match parse_replacement(h) {
        Some(m) => {
            lemma_parse_text_canonical(h.condition);
            assert(print_replacement(m) =~= h);
        },
        None => {},
    }
}

proof fn lemma_parse_step(full: Seq<char>, pre: Seq<AtomModel>, i: int, head: AtomModel, ni: int)
    requires
        0 <= i < ni <= full.len(),
        parse_condition_chars(full.skip(i)) == (match parse_condition_chars(full.skip(ni)) {
            Some(r) => Some(seq![head] + r),
            None => None::<Seq<AtomModel>>,
        }),
        match parse_condition_chars(full.skip(i)) {
            Some(rr) => parse_condition_chars(full) == Some(pre + rr),
            None => parse_condition_chars(full) == None::<Seq<AtomModel>>,
        },
    ensures
        match parse_condition_chars(full.skip(ni)) {
            Some(rr) => parse_condition_chars(full) == Some(pre.push(head) + rr),
            None => parse_condition_chars(full) == None::<Seq<AtomModel>>,
        },
{
    match parse_condition_chars(full.skip(ni)) {
        Some(rr) => {
            assert(pre + (seq![head] + rr) =~= pre.push(head) + rr);
        },
        None => {},
    }
}

/// Writes a condition's atoms out in their canonical textual form.
pub fn print_condition_text(cond: &Vec<CondAtom>) -> (r: Vec<char>)
    ensures
        r@ == print_condition(atom_views(cond@)),
{
    let ghost views = atom_views(cond@);
    let mut out: Vec<char> = Vec::new();
    let mut i: usize = 0;
    while i < cond.len()
        invariant
            i <= cond.len(),
            views == atom_views(cond@),
            out@ == print_condition(views.take(i as int)),
        decreases cond.len() - i,
    {
        let ghost pre = out@;
        let ghost a = views[i as int];
        match &cond[i] {
            CondAtom::Any => {
                out.push('.');
            },
            CondAtom::Class { negated, members } => {
                let mut compact = false;
                if !*negated && members.len() == 1 {
                    let m0 = members[0];
                    if m0 != '[' && m0 != ']' && m0 != '.' && m0 != '^' {
                        compact = true;
                    }
                }
                if compact {
                    out.push(members[0]);
                    proof {
                        assert(members@ =~= seq![members@[0]]);
                    }
                } else {
                    out.push('[');
                    if *negated {
                        out.push('^');
                    }
                    let ghost mid = out@;
                    let mut j: usize = 0;
                    while j < members.len()
                        invariant
                            j <= members.len(),
                            out@ == mid + members@.take(j as int),
                        decreases members.len() - j,
                    {
                        let ghost tp = members@[j as int];
                        out.push(members[j]);
                        proof {
                            assert(members@.take(j + 1) =~= members@.take(j as int) + seq![tp]);
                            assert(mid + members@.take(j + 1) =~= (mid + members@.take(j as int))
                                + seq![tp]);
                        }
                        j += 1;
                    }
                    proof {
                        assert(members@.take(members@.len() as int) =~= members@);
                    }
                    out.push(']');
                }
            },
        }
        proof {
            assert(out@ =~= pre + print_atom(a));
            assert(views.take(i + 1) =~= views.take(i as int) + seq![a]);
            lemma_print_condition_concat(views.take(i as int), seq![a]);
            let single = seq![a];
            assert(single.len() == 1 && single[0] == a);
            assert(single.drop_first() =~= Seq::<AtomModel>::empty());
            assert(print_condition(single.drop_first()) =~= Seq::<char>::empty());
            assert(print_condition(single) =~= print_atom(a) + Seq::<char>::empty());
            assert(print_atom(a) + Seq::<char>::empty() =~= print_atom(a));
        }
        i += 1;
    }
    proof {
        assert(views.take(views.len() as int) =~= views);
    }
    out
}

/// Reads a condition's canonical textual form back into atoms; a malformed
/// or non-canonical pattern (empty text, an unclosed bracket, an empty class,
/// a stray `]` or `^`, a bracketed class that the canonical form writes as a
/// bare character) is rejected.
#[verifier::rlimit(100)]
#[verifier::loop_isolation(false)]
pub fn parse_condition_text(text: &Vec<char>) -> (r: Result<Vec<CondAtom>, Error>)
    ensures
        match r {
            Ok(cond) => parse_condition_full(text@) == Some(atom_views(cond@)),
            Err(e) => parse_condition_full(text@) == None::<Seq<AtomModel>> && e
                == Error::MalformedReplacement,
        },
{
    if text.len() == 0 {
        return Err(Error::MalformedReplacement);
    }
    let mut atoms: Vec<CondAtom> = Vec::new();
    let ghost mut models: Seq<AtomModel> = Seq::empty();
    let mut i: usize = 0;
    proof {
        assert(text@.skip(0) =~= text@);
        match parse_condition_chars(text@) {
            Some(rr) => {
                assert(models + rr =~= rr);
            },
            None => {},
        }
    }
    while i < text.len()
        invariant
            i <= text.len(),
            models.len() == atoms@.len(),
            forall|x: int| 0 <= x < models.len() ==> models[x] == atoms@[x]@,
            match parse_condition_chars(text@.skip(i as int)) {
                Some(rr) => parse_condition_chars(text@) == Some(models + rr),
                None => parse_condition_chars(text@) == None::<Seq<AtomModel>>,
            },
        decreases text.len() - i,
    {
        let ghost pre = models;
        let ghost prevec = atoms@;
        let ghost rem = text@.skip(i as int);
        proof {
            assert(rem[0] == text@[i as int]);
        }
        let c = text[i];
        if c == '.' {
            proof {
                assert(rem.drop_first() =~= text@.skip(i + 1));
                lemma_parse_step(text@, pre, i as int, AtomModel::Any, i + 1);
            }
            atoms.push(CondAtom::Any);
            proof {
                models = pre.push(AtomModel::Any);
                assert forall|x: int| 0 <= x < models.len() implies models[x] == atoms@[x]@ by {
                    if x < prevec.len() {
                        assert(atoms@[x] == prevec[x]);
                    } else {
                        assert(atoms@[x] == CondAtom::Any);
                    }
                }
            }
            i += 1;
        } else if c == '[' {
            let ghost body = text@.skip(i + 1);
            let mut k = i + 1;
            while k < text.len() && text[k] != ']'
                invariant
                    i + 1 <= k <= text.len(),
                    forall|j: int| i + 1 <= j < k ==> text@[j] != ']',
                decreases text.len() - k,
            {
                k += 1;
            }
            if k == text.len() {
                proof {
                    assert(rem.drop_first() =~= body);
                    lemma_find_close_bounds(body);
                    match find_close(body) {
                        Some(ci) => {
                            assert(body[ci] == text@[i + 1 + ci]);
                            assert(false);
                        },
                        None => {},
                    }
                }
                return Err(Error::MalformedReplacement);
            }
            let ghost ci = k - (i + 1);
            proof {
                assert(rem.drop_first() =~= body);
                assert(body[ci as int] == text@[k as int]);
                assert forall|j: int| 0 <= j < ci implies body[j] != ']' by {
                    assert(body[j] == text@[i + 1 + j]);
                }
                lemma_find_close_found(body, ci as int);
            }
            let ghost inner = body.take(ci as int);
            let mut negated = false;
            let mut ms = i + 1;
            if i + 1 < k && text[i + 1] == '^' {
                negated = true;
                ms = i + 2;
            }
            proof {
                assert(inner =~= text@.subrange(i + 1, k as int));
                if inner.len() > 0 {
                    assert(inner[0] == text@[i + 1]);
                }
                assert(negated == (inner.len() > 0 && inner[0] == '^'));
            }
            let ghost smembers = if negated {
                inner.drop_first()
            } else {
                inner
            };
            if ms == k {
                proof {
                    assert(smembers.len() == 0);
                }
                return Err(Error::MalformedReplacement);
            }
            let mut members: Vec<char> = Vec::new();
            let mut p = ms;
            while p < k
                invariant
                    ms <= p <= k <= text.len(),
                    members@ == text@.subrange(ms as int, p as int),
                decreases k - p,
            {
                let ghost tp = text@[p as int];
                members.push(text[p]);
                proof {
                    assert(text@.subrange(ms as int, p + 1) =~= text@.subrange(
                        ms as int,
                        p as int,
                    ) + seq![tp]);
                }
                p += 1;
            }
            if !negated && members.len() == 1 {
                let m0 = members[0];
                if m0 != '[' && m0 != ']' && m0 != '.' && m0 != '^' {
                    proof {
                        assert(members@ =~= smembers);
                        assert(smembers[0] == members@[0]);
                        assert(is_plain_char(smembers[0]));
                    }
                    return Err(Error::MalformedReplacement);
                }
            }
            let ghost head = AtomModel::Class { negated, members: members@ };
            proof {
                assert(members@ =~= smembers);
                if !negated && smembers.len() == 1 {
                    assert(smembers[0] == members@[0]);
                    assert(!is_plain_char(smembers[0]));
                }
                assert(body.skip(ci + 1) =~= text@.skip(k + 1));
                lemma_parse_step(text@, pre, i as int, head, k + 1);
            }
            atoms.push(CondAtom::Class { negated, members });
            proof {
                models = pre.push(head);
                assert forall|x: int| 0 <= x < models.len() implies models[x] == atoms@[x]@ by {
                    if x < prevec.len() {
                        assert(atoms@[x] == prevec[x]);
                    }
                }
            }
            i = k + 1;
        } else if c == ']' || c == '^' {
            return Err(Error::MalformedReplacement);
        } else {
            let mut members: Vec<char> = Vec::new();
            members.push(c);
            let ghost head = AtomModel::Class { negated: false, members: members@ };
            proof {
                assert(members@ =~= seq![rem[0]]);
                assert(rem.drop_first() =~= text@.skip(i + 1));
                lemma_parse_step(text@, pre, i as int, head, i + 1);
            }
            atoms.push(CondAtom::Class { negated: false, members });
            proof {
                models = pre.push(head);
                assert forall|x: int| 0 <= x < models.len() implies models[x] == atoms@[x]@ by {
                    if x < prevec.len() {
                        assert(atoms@[x] == prevec[x]);
                    }
                }
            }
            i += 1;
        }
    }
    proof {
        assert(text@.skip(text@.len() as int) =~= Seq::<char>::empty());
        match parse_condition_chars(text@.skip(text@.len() as int)) {
            Some(rr) => {
                assert(models + rr =~= models);
            },
            None => {},
        }
        assert(atom_views(atoms@) =~= models);
    }
    Ok(atoms)
}

// ---------------------------------------------------------------------------
// Affix replacements
// ---------------------------------------------------------------------------

/// One concrete string-transformation rule: when `condition` matches the
/// relevant end of a word, remove `strip` from that end and insert `add`.
#[derive(Clone, Debug)]
pub struct AffixReplacement {
    pub condition: Vec<CondAtom>,
    pub strip: Vec<char>,
    pub add: Vec<char>,
}

/// The mathematical value of a replacement.
#[verifier::ext_equal]
pub struct ReplacementModel {
    pub condition: Seq<AtomModel>,
    pub strip: Seq<char>,
    pub add: Seq<char>,
}

impl View for AffixReplacement {
    type V = ReplacementModel;

    open spec fn view(&self) -> ReplacementModel {
        ReplacementModel {
            condition: atom_views(self.condition@),
            strip: self.strip@,
            add: self.add@,
        }
    }
}

/// The same rule in its human-readable textual form, as stored in affix
/// tables outside the running process.
#[derive(Clone, Debug)]
pub struct HumanReadableAffixReplacement {
    pub condition: Vec<char>,
    pub strip: Vec<char>,
    pub add: Vec<char>,
}

/// The mathematical value of a human-readable replacement.
#[verifier::ext_equal]
pub struct HumanReadableReplacementModel {
    pub condition: Seq<char>,
    pub strip: Seq<char>,
    pub add: Seq<char>,
}

impl View for HumanReadableAffixReplacement {
    type V = HumanReadableReplacementModel;

    open spec fn view(&self) -> HumanReadableReplacementModel {
        HumanReadableReplacementModel {
            condition: self.condition@,
            strip: self.strip@,
            add: self.add@,
        }
    }
}

/// A well-formed replacement: a satisfiable, printable condition whose strip
/// does not reach beyond the region the condition matches.
pub open spec fn replacement_wf(m: ReplacementModel) -> bool {
    &&& condition_wf(m.condition)
    &&& m.strip.len() <= m.condition.len()
}

/// The canonical textual form of a replacement.
pub open spec fn print_replacement(m: ReplacementModel) -> HumanReadableReplacementModel {
    HumanReadableReplacementModel {
        condition: print_condition(m.condition),
        strip: m.strip,
        add: m.add,
    }
}

/// Reads a textual replacement back; rejected when the condition pattern is
/// malformed or the strip is longer than the region the condition matches.
pub open spec fn parse_replacement(h: HumanReadableReplacementModel) -> Option<ReplacementModel> {
    match parse_condition_full(h.condition) {
        None => None,
        Some(cond) => {
            if h.strip.len() <= cond.len() {
                Some(ReplacementModel { condition: cond, strip: h.strip, add: h.add })
            } else {
                None
            }
        },
    }
}

/// Round trip for replacements: printing a well-formed replacement and
/// reading the text back yields the same replacement.
pub proof fn lemma_replacement_round_trip(m: ReplacementModel)
    requires
        replacement_wf(m),
    ensures
        parse_replacement(print_replacement(m)) == Some(m),
{
    lemma_print_condition_nonempty(m.condition);
    lemma_condition_round_trip(m.condition);
    assert(parse_replacement(print_replacement(m)).unwrap() =~= m);
}

pub(crate) fn copy_chars(v: &Vec<char>) -> (r: Vec<char>)
    ensures
        r@ == v@,
{
    let mut out: Vec<char> = Vec::new();
    let mut i: usize = 0;
    while i < v.len()
        invariant
            i <= v.len(),
            out@ == v@.take(i as int),
        decreases v.len() - i,
    {
        let ghost tp = v@[i as int];
        out.push(v[i]);
        proof {
            assert(v@.take(i + 1) =~= v@.take(i as int) + seq![tp]);
            assert(v@.take(i as int) + seq![tp] =~= v@.take(i as int).push(tp));
        }
        i += 1;
    }
    proof {
        assert(v@.take(v@.len() as int) =~= v@);
    }
    out
}

/// Whether two character sequences hold the same text.
pub fn chars_eq(a: &Vec<char>, b: &Vec<char>) -> (r: bool)
    ensures
        r == (a@ == b@),
{
    if a.len() != b.len() {
        proof {
            assert(a@ != b@);
        }
        return false;
    }
    let mut i: usize = 0;
    while i < a.len()
        invariant
            i <= a.len(),
            a@.len() == b@.len(),
            forall|x: int| 0 <= x < i ==> a@[x] == b@[x],
        decreases a.len() - i,
    {
        if a[i] != b[i] {
            return false;
        }
        i += 1;
    }
    proof {
        assert(a@ =~= b@);
    }
    true
}

impl AffixReplacement {
    /// This rule in its canonical textual form.
    pub fn to_human_readable(&self) -> (r: HumanReadableAffixReplacement)
        ensures
            r@ == print_replacement(self@),
    {
        let r = HumanReadableAffixReplacement {
            condition: print_condition_text(&self.condition),
            strip: copy_chars(&self.strip),
            add: copy_chars(&self.add),
        };
        proof {
            assert(r@ =~= print_replacement(self@));
        }
        r
    }
}

impl HumanReadableAffixReplacement {
    /// Reads this textual rule back into its normal form, or reports it
    /// malformed.
    pub fn to_normal(&self) -> (r: Result<AffixReplacement, Error>)
        ensures
            match r {
                Ok(rep) => parse_replacement(self@) == Some(rep@),
                Err(e) => parse_replacement(self@) == None::<ReplacementModel> && e
                    == Error::MalformedReplacement,
            },
    {
        match parse_condition_text(&self.condition) {
            Err(e) => Err(e),
            Ok(cond) => {
                if self.strip.len() <= cond.len() {
                    let rep = AffixReplacement {
                        condition: cond,
                        strip: copy_chars(&self.strip),
                        add: copy_chars(&self.add),
                    };
                    proof {
                        assert(parse_replacement(self@).unwrap() =~= rep@);
                    }
                    Ok(rep)
                } else {
                    proof {
                        assert(atom_views(cond@).len() == cond@.len());
                    }
                    Err(Error::MalformedReplacement)
                }
            },
        }
    }
}

// ---------------------------------------------------------------------------
// Applying replacements
// ---------------------------------------------------------------------------

/// Whether this rule applies to the suffix end of a word: the condition
/// matches the word's end and the word ends in `strip`.
pub open spec fn suffix_applies(m: ReplacementModel, w: Seq<char>) -> bool {
    &&& matches_at_end(m.condition, w)
    &&& w.len() >= m.strip.len()
    &&& w.skip(w.len() - m.strip.len()) == m.strip
}

/// The spelling this rule derives at the suffix end.
pub open spec fn suffix_derived(m: ReplacementModel, w: Seq<char>) -> Seq<char> {
    w.take(w.len() - m.strip.len()) + m.add
}

/// Whether this rule applies to the prefix end of a word.
pub open spec fn prefix_applies(m: ReplacementModel, w: Seq<char>) -> bool {
    &&& matches_at_start(m.condition, w)
    &&& w.len() >= m.strip.len()
    &&& w.take(m.strip.len() as int) == m.strip
}

/// The spelling this rule derives at the prefix end.
pub open spec fn prefix_derived(m: ReplacementModel, w: Seq<char>) -> Seq<char> {
    m.add + w.skip(m.strip.len() as int)
}

fn atom_matches_exec(a: &CondAtom, c: char) -> (r: bool)
    ensures
        r == atom_matches(a@, c),
{
    match a {
        CondAtom::Any => true,
        CondAtom::Class { negated, members } => {
            let mut found = false;
            let mut i: usize = 0;
            while i < members.len()
                invariant
                    i <= members.len(),
                    found == members@.take(i as int).contains(c),
                decreases members.len() - i,
            {
                let ghost prefix = members@.take(i as int);
                if members[i] == c {
                    found = true;
                }
                proof {
                    assert(members@.take(i + 1) =~= prefix.push(members@[i as int]));
                    if prefix.contains(c) || members@[i as int] == c {
                        assert(members@.take(i + 1).contains(c)) by {
                            if prefix.contains(c) {
                                let w = choose|w: int| 0 <= w < prefix.len() && prefix[w] == c;
                                assert(members@.take(i + 1)[w] == c);
                            } else {
                                assert(members@.take(i + 1)[i as int] == c);
                            }
                        }
                    }
                }
                i += 1;
            }
            proof {
                assert(members@.take(members@.len() as int) =~= members@);
            }
            *negated != found
        },
    }
}

impl AffixReplacement {
    /// Whether this rule applies at the suffix end of the given word.
    pub fn applies_to_suffix(&self, w: &Vec<char>) -> (r: bool)
        ensures
            r == suffix_applies(self@, w@),
    {
        if w.len() < self.condition.len() || w.len() < self.strip.len() {
            return false;
        }
        let off = w.len() - self.condition.len();
        let mut i: usize = 0;
        while i < self.condition.len()
            invariant
                i <= self.condition@.len(),
                off == w@.len() - self.condition@.len(),
                w@.len() >= self.condition@.len(),
                w@.len() <= usize::MAX,
                forall|x: int| 0 <= x < i ==> atom_matches(
                    #[trigger] atom_views(self.condition@)[x],
                    w@[off + x],
                ),
            decreases self.condition.len() - i,
        {
            proof {
                assert(off + i < w@.len());
                assert(atom_views(self.condition@)[i as int] == self.condition@[i as int]@);
            }
            if !atom_matches_exec(&self.condition[i], w[off + i]) {
                proof {
                    if suffix_applies(self@, w@) {
                        assert(atom_matches(
                            atom_views(self.condition@)[i as int],
                            w@[w@.len() - atom_views(self.condition@).len() + i],
                        ));
                        assert(false);
                    }
                }
                return false;
            }
            i += 1;
        }
        let soff = w.len() - self.strip.len();
        let mut j: usize = 0;
        while j < self.strip.len()
            invariant
                j <= self.strip@.len(),
                soff == w@.len() - self.strip@.len(),
                w@.len() >= self.strip@.len(),
                w@.len() <= usize::MAX,
                forall|x: int| 0 <= x < j ==> w@[soff + x] == self.strip@[x],
            decreases self.strip.len() - j,
        {
            proof {
                assert(soff + j < w@.len());
            }
            if w[soff + j] != self.strip[j] {
                proof {
                    if suffix_applies(self@, w@) {
                        assert(w@.skip(w@.len() - self.strip@.len())[j as int]
                            == self.strip@[j as int]);
                        assert(false);
                    }
                }
                return false;
            }
            j += 1;
        }
        proof {
            assert(w@.skip(soff as int) =~= self.strip@);
        }
        true
    }

    /// Whether this rule applies at the prefix end of the given word.
    pub fn applies_to_prefix(&self, w: &Vec<char>) -> (r: bool)
        ensures
            r == prefix_applies(self@, w@),
    {
        if w.len() < self.condition.len() || w.len() < self.strip.len() {
            return false;
        }
        let mut i: usize = 0;
        while i < self.condition.len()
            invariant
                i <= self.condition@.len(),
                w@.len() >= self.condition@.len(),
                forall|x: int| 0 <= x < i ==> atom_matches(
                    #[trigger] atom_views(self.condition@)[x],
                    w@[x],
                ),
            decreases self.condition.len() - i,
        {
            proof {
                assert(atom_views(self.condition@)[i as int] == self.condition@[i as int]@);
            }
            if !atom_matches_exec(&self.condition[i], w[i]) {
                proof {
                    if prefix_applies(self@, w@) {
                        assert(atom_matches(atom_views(self.condition@)[i as int], w@[i as int]));
                        assert(false);
                    }
                }
                return false;
            }
            i += 1;
        }
        let mut j: usize = 0;
        while j < self.strip.len()
            invariant
                j <= self.strip@.len(),
                w@.len() >= self.strip@.len(),
                forall|x: int| 0 <= x < j ==> w@[x] == self.strip@[x],
            decreases self.strip.len() - j,
        {
            if w[j] != self.strip[j] {
                proof {
                    if prefix_applies(self@, w@) {
                        assert(w@.take(self.strip@.len() as int)[j as int]
                            == self.strip@[j as int]);
                        assert(false);
                    }
                }
                return false;
            }
            j += 1;
        }
        proof {
            assert(w@.take(self.strip@.len() as int) =~= self.strip@);
        }
        true
    }

    /// The spelling this rule derives at the suffix end of the given word.
    pub fn apply_to_suffix(&self, w: &Vec<char>) -> (r: Vec<char>)
        requires
            w@.len() >= self.strip@.len(),
        ensures
            r@ == suffix_derived(self@, w@),
    {
        let keep = w.len() - self.strip.len();
        let mut out: Vec<char> = Vec::new();
        let mut i: usize = 0;
        while i < keep
            invariant
                i <= keep <= w@.len(),
                out@ == w@.take(keep as int).take(i as int),
            decreases keep - i,
        {
            let ghost tp = w@[i as int];
            out.push(w[i]);
            proof {
                assert(w@.take(keep as int).take(i + 1) =~= w@.take(keep as int).take(
                    i as int,
                ).push(tp));
            }
            i += 1;
        }
        proof {
            assert(w@.take(keep as int).take(keep as int) =~= w@.take(keep as int));
        }
        let ghost base = out@;
        let mut j: usize = 0;
        while j < self.add.len()
            invariant
                j <= self.add@.len(),
                out@ == base + self.add@.take(j as int),
            decreases self.add.len() - j,
        {
            let ghost tp = self.add@[j as int];
            out.push(self.add[j]);
            proof {
                assert(base + self.add@.take(j + 1) =~= (base + self.add@.take(j as int)).push(tp));
            }
            j += 1;
        }
        proof {
            assert(self.add@.take(self.add@.len() as int) =~= self.add@);
        }
        out
    }

    /// The spelling this rule derives at the prefix end of the given word.
    pub fn apply_to_prefix(&self, w: &Vec<char>) -> (r: Vec<char>)
        requires
            w@.len() >= self.strip@.len(),
        ensures
            r@ == prefix_derived(self@, w@),
    {
        let mut out: Vec<char> = Vec::new();
        let mut j: usize = 0;
        while j < self.add.len()
            invariant
                j <= self.add@.len(),
                out@ == self.add@.take(j as int),
            decreases self.add.len() - j,
        {
            let ghost tp = self.add@[j as int];
            out.push(self.add[j]);
            proof {
                assert(self.add@.take(j + 1) =~= self.add@.take(j as int).push(tp));
            }
            j += 1;
        }
        proof {
            assert(self.add@.take(self.add@.len() as int) =~= self.add@);
        }
        let ghost base = out@;
        let mut i: usize = self.strip.len();
        while i < w.len()
            invariant
                self.strip@.len() <= i <= w@.len(),
                out@ == base + w@.subrange(self.strip@.len() as int, i as int),
            decreases w.len() - i,
        {
            let ghost tp = w@[i as int];
            out.push(w[i]);
            proof {
                assert(base + w@.subrange(self.strip@.len() as int, i + 1) =~= (base
                    + w@.subrange(self.strip@.len() as int, i as int)).push(tp));
            }
            i += 1;
        }
        proof {
            assert(w@.subrange(self.strip@.len() as int, w@.len() as int) =~= w@.skip(
                self.strip@.len() as int,
            ));
        }
        out
    }
}

} // verus!
