use vstd::prelude::*;
use crate::dictionary::{Dictionary, close_words, dict_has};
use crate::document::{Document, TokenKind, TokenModel};
use crate::lint::{Lint, LintKind, LintModel, Span, lint_views};
use crate::metadata::WordMetadata;
use crate::replacement::chars_eq;

verus! {

/// A lint with no message text and no suggestions.
pub open spec fn plain_lint(start: int, end: int, kind: LintKind) -> LintModel {
    LintModel { start, end, kind, message: Seq::empty(), suggestions: Seq::empty() }
}

fn make_lint(span: Span, kind: LintKind) -> (r: Lint)
    ensures
        r@ == plain_lint(span.start as int, span.end as int, kind),
{
    let r = Lint { span, kind, message: Vec::new(), suggestions: Vec::new() };
    proof {
        assert(r@ =~= plain_lint(span.start as int, span.end as int, kind));
    }
    r
}

/// An ASCII lower-case letter.
pub open spec fn is_lower_char(c: char) -> bool {
    97 <= c as u32 <= 122
}

// ---------------------------------------------------------------------------
// Detector rules, one spec function each.  Every detector is a pure function
// of the document's tokens (and, for spell checking, the dictionary).
// ---------------------------------------------------------------------------

/// Repeated words: a word token equal to the nearest previous word token,
/// with only spaces between, is flagged on its own span.
pub open spec fn repetition_lints(toks: Seq<TokenModel>, prev: Option<Seq<char>>) -> Seq<LintModel>
    decreases toks.len(),
{
    if toks.len() == 0 {
        Seq::empty()
    } else {
        let t = toks[0];
        match t.kind {
            TokenKind::Word => (if prev == Some(t.chars) {
                seq![plain_lint(t.start, t.end, LintKind::Repetition)]
            } else {
                Seq::<LintModel>::empty()
            }) + repetition_lints(toks.drop_first(), Some(t.chars)),
            TokenKind::Space => repetition_lints(toks.drop_first(), prev),
            _ => repetition_lints(toks.drop_first(), None),
        }
    }
}

/// Double spaces: a space token directly after another space token.
pub open spec fn spaces_lints(toks: Seq<TokenModel>, prev_space: bool) -> Seq<LintModel>
    decreases toks.len(),
{
    if toks.len() == 0 {
        Seq::empty()
    } else {
        let t = toks[0];
        match t.kind {
            TokenKind::Space => (if prev_space {
                seq![plain_lint(t.start, t.end, LintKind::Formatting)]
            } else {
                Seq::<LintModel>::empty()
            }) + spaces_lints(toks.drop_first(), true),
            _ => spaces_lints(toks.drop_first(), false),
        }
    }
}

/// Wrong quotes: a straight double quote where a typographic one belongs.
pub open spec fn wrong_quotes_lints(toks: Seq<TokenModel>) -> Seq<LintModel>
    decreases toks.len(),
{
    if toks.len() == 0 {
        Seq::empty()
    } else {
        let t = toks[0];
        (if t.kind == TokenKind::Quote && t.chars == seq!['"'] {
            seq![plain_lint(t.start, t.end, LintKind::Style)]
        } else {
            Seq::<LintModel>::empty()
        }) + wrong_quotes_lints(toks.drop_first())
    }
}

/// Whether a token stream holds an odd number of quote tokens.
pub open spec fn odd_quotes(toks: Seq<TokenModel>) -> bool
    decreases toks.len(),
{
    if toks.len() == 0 {
        false
    } else {
        (toks[0].kind == TokenKind::Quote) != odd_quotes(toks.drop_first())
    }
}

/// The last quote token of a stream, if any.
pub open spec fn last_quote(toks: Seq<TokenModel>) -> Option<TokenModel>
    decreases toks.len(),
{
    if toks.len() == 0 {
        None
    } else {
        match last_quote(toks.drop_first()) {
            Some(q) => Some(q),
            None => if toks[0].kind == TokenKind::Quote {
                Some(toks[0])
            } else {
                None
            },
        }
    }
}

/// Unclosed quotes: an odd number of quote tokens flags the last one.
pub open spec fn unclosed_quotes_lints(toks: Seq<TokenModel>) -> Seq<LintModel> {
    if odd_quotes(toks) {
        match last_quote(toks) {
            Some(t) => seq![plain_lint(t.start, t.end, LintKind::Formatting)],
            None => Seq::empty(),
        }
    } else {
        Seq::empty()
    }
}

/// Sentence capitalization: a word that opens a sentence and starts with an
/// ASCII lower-case letter.
pub open spec fn capitalization_lints(toks: Seq<TokenModel>, at_start: bool) -> Seq<LintModel>
    decreases toks.len(),
{
    if toks.len() == 0 {
        Seq::empty()
    } else {
        let t = toks[0];
        match t.kind {
            TokenKind::Word => (if at_start && t.chars.len() > 0 && is_lower_char(t.chars[0]) {
                seq![plain_lint(t.start, t.end, LintKind::Capitalization)]
            } else {
                Seq::<LintModel>::empty()
            }) + capitalization_lints(toks.drop_first(), false),
            TokenKind::Period => capitalization_lints(toks.drop_first(), true),
            _ => capitalization_lints(toks.drop_first(), at_start),
        }
    }
}

/// How many words a sentence may hold before it is flagged as long.
pub const LONG_SENTENCE_WORDS: usize = 40;

/// Long sentences: the first word past the limit in one sentence is flagged.
pub open spec fn long_sentence_lints(toks: Seq<TokenModel>, count: nat) -> Seq<LintModel>
    decreases toks.len(),
{
    if toks.len() == 0 {
        Seq::empty()
    } else {
        let t = toks[0];
        match t.kind {
            TokenKind::Word => (if count == 40 {
                seq![plain_lint(t.start, t.end, LintKind::Readability)]
            } else {
                Seq::<LintModel>::empty()
            }) + long_sentence_lints(toks.drop_first(), count + 1),
            TokenKind::Period => long_sentence_lints(toks.drop_first(), 0),
            _ => long_sentence_lints(toks.drop_first(), count),
        }
    }
}

/// The replacement the phrase matcher suggests for a word, if any.
pub open spec fn matcher_suggestion(chars: Seq<char>) -> Option<Seq<char>> {
    if chars == seq!['a', 'l', 'o', 't'] {
        Some(seq!['a', ' ', 'l', 'o', 't'])
    } else if chars == seq!['t', 'e', 'h'] {
        Some(seq!['t', 'h', 'e'])
    } else {
        None
    }
}

/// Matcher: a word from a small built-in list of common miswritings is
/// flagged with its replacement.
pub open spec fn matcher_lints(toks: Seq<TokenModel>) -> Seq<LintModel>
    decreases toks.len(),
{
    if toks.len() == 0 {
        Seq::empty()
    } else {
        let t = toks[0];
        (if t.kind == TokenKind::Word && matcher_suggestion(t.chars) is Some {
            seq![
                LintModel {
                    start: t.start,
                    end: t.end,
                    kind: LintKind::WordChoice,
                    message: Seq::empty(),
                    suggestions: seq![matcher_suggestion(t.chars).unwrap()],
                },
            ]
        } else {
            Seq::<LintModel>::empty()
        }) + matcher_lints(toks.drop_first())
    }
}

/// Spell check: a word the dictionary does not hold is flagged, with the
/// dictionary's close spellings as suggestions.
pub open spec fn spell_lints(
    toks: Seq<TokenModel>,
    dict: Seq<(Seq<char>, WordMetadata)>,
) -> Seq<LintModel>
    decreases toks.len(),
{
    if toks.len() == 0 {
        Seq::empty()
    } else {
        let t = toks[0];
        (if t.kind == TokenKind::Word && !dict_has(dict, t.chars) {
            seq![
                LintModel {
                    start: t.start,
                    end: t.end,
                    kind: LintKind::Spelling,
                    message: Seq::empty(),
                    suggestions: close_words(dict, t.chars),
                },
            ]
        } else {
            Seq::<LintModel>::empty()
        }) + spell_lints(toks.drop_first(), dict)
    }
}

// ---------------------------------------------------------------------------
// The closed set of detectors.
// ---------------------------------------------------------------------------

/// One pluggable detector.  Each variant is a pure function of the document
/// (and, for spell checking, its dictionary).
#[derive(Debug)]
pub enum Linter {
    RepeatedWords,
    LongSentences,
    UnclosedQuotes,
    SentenceCapitalization,
    Matcher,
    SpellCheck(Dictionary),
    Spaces,
    WrongQuotes,
}

/// The mathematical value of a detector.
pub enum LinterModel {
    RepeatedWords,
    LongSentences,
    UnclosedQuotes,
    SentenceCapitalization,
    Matcher,
    SpellCheck(Seq<(Seq<char>, WordMetadata)>),
    Spaces,
    WrongQuotes,
}

impl View for Linter {
    type V = LinterModel;

    open spec fn view(&self) -> LinterModel {
        match self {
            Linter::RepeatedWords => LinterModel::RepeatedWords,
            Linter::LongSentences => LinterModel::LongSentences,
            Linter::UnclosedQuotes => LinterModel::UnclosedQuotes,
            Linter::SentenceCapitalization => LinterModel::SentenceCapitalization,
            Linter::Matcher => LinterModel::Matcher,
            Linter::SpellCheck(d) => LinterModel::SpellCheck(d@),
            Linter::Spaces => LinterModel::Spaces,
            Linter::WrongQuotes => LinterModel::WrongQuotes,
        }
    }
}

/// What one detector reports on a document.
pub open spec fn linter_lints(l: LinterModel, toks: Seq<TokenModel>) -> Seq<LintModel> {
    match l {
        LinterModel::RepeatedWords => repetition_lints(toks, None),
        LinterModel::LongSentences => long_sentence_lints(toks, 0),
        LinterModel::UnclosedQuotes => unclosed_quotes_lints(toks),
        LinterModel::SentenceCapitalization => capitalization_lints(toks, true),
        LinterModel::Matcher => matcher_lints(toks),
        LinterModel::SpellCheck(d) => spell_lints(toks, d),
        LinterModel::Spaces => spaces_lints(toks, false),
        LinterModel::WrongQuotes => wrong_quotes_lints(toks),
    }
}

fn lit_alot() -> (r: Vec<char>)
    ensures
        r@ == seq!['a', 'l', 'o', 't'],
{
    let mut v: Vec<char> = Vec::new();
    v.push('a');
    v.push('l');
    v.push('o');
    v.push('t');
    proof {
        assert(v@ =~= seq!['a', 'l', 'o', 't']);
    }
    v
}

fn lit_a_lot() -> (r: Vec<char>)
    ensures
        r@ == seq!['a', ' ', 'l', 'o', 't'],
{
    let mut v: Vec<char> = Vec::new();
    v.push('a');
    v.push(' ');
    v.push('l');
    v.push('o');
    v.push('t');
    proof {
        assert(v@ =~= seq!['a', ' ', 'l', 'o', 't']);
    }
    v
}

fn lit_teh() -> (r: Vec<char>)
    ensures
        r@ == seq!['t', 'e', 'h'],
{
    let mut v: Vec<char> = Vec::new();
    v.push('t');
    v.push('e');
    v.push('h');
    proof {
        assert(v@ =~= seq!['t', 'e', 'h']);
    }
    v
}

fn lit_the() -> (r: Vec<char>)
    ensures
        r@ == seq!['t', 'h', 'e'],
{
    let mut v: Vec<char> = Vec::new();
    v.push('t');
    v.push('h');
    v.push('e');
    proof {
        assert(v@ =~= seq!['t', 'h', 'e']);
    }
    v
}

#[verifier::loop_isolation(false)]
fn run_repeated_words(d: &Document) -> (r: Vec<Lint>)
    ensures
        lint_views(r@) == repetition_lints(d@, None),
{
    let toks = &d.tokens;
    let ghost tv = d@;
    let mut out: Vec<Lint> = Vec::new();
    let ghost mut models: Seq<LintModel> = Seq::empty();
    let mut prev: Option<usize> = None;
    let mut i: usize = 0;
    proof {
        assert(tv.skip(0) =~= tv);
        assert(models + repetition_lints(tv, None) =~= repetition_lints(tv, None));
    }
    while i < toks.len()
        invariant
            i <= toks@.len(),
            models.len() == out@.len(),
            forall|x: int| 0 <= x < models.len() ==> models[x] == out@[x]@,
            match prev {
                Some(p) => p < i && tv[p as int].kind == TokenKind::Word && repetition_lints(
                    tv,
                    None,
                ) == models + repetition_lints(tv.skip(i as int), Some(tv[p as int].chars)),
                None => repetition_lints(tv, None) == models + repetition_lints(
                    tv.skip(i as int),
                    None,
                ),
            },
        decreases toks.len() - i,
    {
        let ghost pre = models;
        let ghost prevec = out@;
        let ghost rem = tv.skip(i as int);
        proof {
            assert(rem[0] == tv[i as int]);
            assert(tv[i as int] == toks@[i as int]@);
            assert(rem.drop_first() =~= tv.skip(i + 1));
        }
        let kind = toks[i].kind;
        match kind {
            TokenKind::Word => {
                let mut is_rep = false;
                match prev {
                    Some(p) => {
                        if chars_eq(&toks[p].chars, &toks[i].chars) {
                            is_rep = true;
                        }
                    },
                    None => {},
                }
                if is_rep {
                    let l = make_lint(toks[i].span, LintKind::Repetition);
                    let ghost lm = l@;
                    out.push(l);
                    proof {
                        models = pre.push(lm);
                        assert forall|x: int| 0 <= x < models.len() implies models[x]
                            == out@[x]@ by {
                            if x < prevec.len() {
                                assert(out@[x] == prevec[x]);
                            }
                        }
                        assert(pre + (seq![lm] + repetition_lints(
                            tv.skip(i + 1),
                            Some(rem[0].chars),
                        )) =~= pre.push(lm) + repetition_lints(tv.skip(i + 1), Some(rem[0].chars)));
                    }
                } else {
                    proof {
                        assert(repetition_lints(rem, match prev {
                            Some(p) => Some(tv[p as int].chars),
                            None => None,
                        }) =~= repetition_lints(tv.skip(i + 1), Some(rem[0].chars)));
                    }
                }
                prev = Some(i);
            },
            TokenKind::Space => {
            },
            _ => {
                prev = None;
            },
        }
        i += 1;
    }
    proof {
        assert(tv.skip(tv.len() as int) =~= Seq::<TokenModel>::empty());
        match prev {
            Some(p) => {
                assert(models + repetition_lints(tv.skip(tv.len() as int), Some(tv[p as int].chars))
                    =~= models);
            },
            None => {
                assert(models + repetition_lints(tv.skip(tv.len() as int), None) =~= models);
            },
        }
        assert(lint_views(out@) =~= models);
    }
    out
}

#[verifier::loop_isolation(false)]
fn run_spaces(d: &Document) -> (r: Vec<Lint>)
    ensures
        lint_views(r@) == spaces_lints(d@, false),
{
    let toks = &d.tokens;
    let ghost tv = d@;
    let mut out: Vec<Lint> = Vec::new();
    let ghost mut models: Seq<LintModel> = Seq::empty();
    let mut prev_space = false;
    let mut i: usize = 0;
    proof {
        assert(tv.skip(0) =~= tv);
        assert(models + spaces_lints(tv, false) =~= spaces_lints(tv, false));
    }
    while i < toks.len()
        invariant
            i <= toks@.len(),
            models.len() == out@.len(),
            forall|x: int| 0 <= x < models.len() ==> models[x] == out@[x]@,
            spaces_lints(tv, false) == models + spaces_lints(tv.skip(i as int), prev_space),
        decreases toks.len() - i,
    {
        let ghost pre = models;
        let ghost prevec = out@;
        let ghost rem = tv.skip(i as int);
        proof {
            assert(rem[0] == tv[i as int]);
            assert(tv[i as int] == toks@[i as int]@);
            assert(rem.drop_first() =~= tv.skip(i + 1));
        }
        let kind = toks[i].kind;
        match kind {
            TokenKind::Space => {
                if prev_space {
                    let l = make_lint(toks[i].span, LintKind::Formatting);
                    let ghost lm = l@;
                    out.push(l);
                    proof {
                        models = pre.push(lm);
                        assert forall|x: int| 0 <= x < models.len() implies models[x]
                            == out@[x]@ by {
                            if x < prevec.len() {
                                assert(out@[x] == prevec[x]);
                            }
                        }
                        assert(pre + (seq![lm] + spaces_lints(tv.skip(i + 1), true)) =~= pre.push(
                            lm,
                        ) + spaces_lints(tv.skip(i + 1), true));
                    }
                }
                prev_space = true;
            },
            _ => {
                prev_space = false;
            },
        }
        i += 1;
    }
    proof {
        assert(tv.skip(tv.len() as int) =~= Seq::<TokenModel>::empty());
        assert(models + spaces_lints(tv.skip(tv.len() as int), prev_space) =~= models);
        assert(lint_views(out@) =~= models);
    }
    out
}

#[verifier::loop_isolation(false)]
fn run_wrong_quotes(d: &Document) -> (r: Vec<Lint>)
    ensures
        lint_views(r@) == wrong_quotes_lints(d@),
{
    let toks = &d.tokens;
    let ghost tv = d@;
    let mut out: Vec<Lint> = Vec::new();
    let ghost mut models: Seq<LintModel> = Seq::empty();
    let mut i: usize = 0;
    proof {
        assert(tv.skip(0) =~= tv);
        assert(models + wrong_quotes_lints(tv) =~= wrong_quotes_lints(tv));
    }
    while i < toks.len()
        invariant
            i <= toks@.len(),
            models.len() == out@.len(),
            forall|x: int| 0 <= x < models.len() ==> models[x] == out@[x]@,
            wrong_quotes_lints(tv) == models + wrong_quotes_lints(tv.skip(i as int)),
        decreases toks.len() - i,
    {
        let ghost pre = models;
        let ghost prevec = out@;
        let ghost rem = tv.skip(i as int);
        proof {
            assert(rem[0] == tv[i as int]);
            assert(tv[i as int] == toks@[i as int]@);
            assert(rem.drop_first() =~= tv.skip(i + 1));
        }
        let mut is_straight = false;
        match toks[i].kind {
            TokenKind::Quote => {
                if toks[i].chars.len() == 1 && toks[i].chars[0] == '"' {
                    is_straight = true;
                }
                proof {
                    if rem[0].chars == seq!['"'] {
                        assert(rem[0].chars.len() == 1 && rem[0].chars[0] == '"');
                    }
                    if rem[0].chars.len() == 1 && rem[0].chars[0] == '"' {
                        assert(rem[0].chars =~= seq!['"']);
                    }
                }
            },
            _ => {},
        }
        if is_straight {
            let l = make_lint(toks[i].span, LintKind::Style);
            let ghost lm = l@;
            out.push(l);
            proof {
                models = pre.push(lm);
                assert forall|x: int| 0 <= x < models.len() implies models[x] == out@[x]@ by {
                    if x < prevec.len() {
                        assert(out@[x] == prevec[x]);
                    }
                }
                assert(pre + (seq![lm] + wrong_quotes_lints(tv.skip(i + 1))) =~= pre.push(lm)
                    + wrong_quotes_lints(tv.skip(i + 1)));
            }
        }
        i += 1;
    }
    proof {
        assert(tv.skip(tv.len() as int) =~= Seq::<TokenModel>::empty());
        assert(models + wrong_quotes_lints(tv.skip(tv.len() as int)) =~= models);
        assert(lint_views(out@) =~= models);
    }
    out
}

proof fn lemma_quote_state_step(a: Seq<TokenModel>, t: TokenModel)
    ensures
        odd_quotes(a.push(t)) == (odd_quotes(a) != (t.kind == TokenKind::Quote)),
        last_quote(a.push(t)) == (if t.kind == TokenKind::Quote {
            Some(t)
        } else {
            last_quote(a)
        }),
    decreases a.len(),
{
    let s = a.push(t);
    assert(s.len() == a.len() + 1);
    if a.len() == 0 {
        assert(s[0] == t);
        assert(s.drop_first() =~= Seq::<TokenModel>::empty());
        assert(odd_quotes(Seq::<TokenModel>::empty()) == false);
        assert(last_quote(Seq::<TokenModel>::empty()) is None);
        assert(odd_quotes(s) == ((s[0].kind == TokenKind::Quote) != odd_quotes(s.drop_first())));
        assert(odd_quotes(a) == false);
        assert(last_quote(a) is None);
    } else {
        assert(s[0] == a[0]);
        assert(s.drop_first() =~= a.drop_first().push(t));
        lemma_quote_state_step(a.drop_first(), t);
        assert(odd_quotes(s) == ((s[0].kind == TokenKind::Quote) != odd_quotes(s.drop_first())));
        assert(odd_quotes(a) == ((a[0].kind == TokenKind::Quote) != odd_quotes(a.drop_first())));
        assert(last_quote(s) == (match last_quote(s.drop_first()) {
            Some(q) => Some(q),
            None => if s[0].kind == TokenKind::Quote {
                Some(s[0])
            } else {
                None
            },
        }));
        assert(last_quote(a) == (match last_quote(a.drop_first()) {
            Some(q) => Some(q),
            None => if a[0].kind == TokenKind::Quote {
                Some(a[0])
            } else {
                None
            },
        }));
    }
}

#[verifier::loop_isolation(false)]
fn run_unclosed_quotes(d: &Document) -> (r: Vec<Lint>)
    ensures
        lint_views(r@) == unclosed_quotes_lints(d@),
{
    let toks = &d.tokens;
    let ghost tv = d@;
    let mut odd = false;
    let mut last: Option<Span> = None;
    let mut i: usize = 0;
    proof {
        assert(tv.take(0) =~= Seq::<TokenModel>::empty());
    }
    while i < toks.len()
        invariant
            i <= toks@.len(),
            odd == odd_quotes(tv.take(i as int)),
            match last {
                Some(sp) => last_quote(tv.take(i as int)) is Some && last_quote(
                    tv.take(i as int),
                ).unwrap().start == sp.start as int && last_quote(tv.take(i as int)).unwrap().end
                    == sp.end as int,
                None => last_quote(tv.take(i as int)) is None,
            },
        decreases toks.len() - i,
    {
        proof {
            assert(tv[i as int] == toks@[i as int]@);
            assert(tv.take(i + 1) =~= tv.take(i as int).push(tv[i as int]));
            lemma_quote_state_step(tv.take(i as int), tv[i as int]);
        }
        match toks[i].kind {
            TokenKind::Quote => {
                odd = !odd;
                last = Some(toks[i].span);
            },
            _ => {},
        }
        i += 1;
    }
    proof {
        assert(tv.take(tv.len() as int) =~= tv);
    }
    let mut out: Vec<Lint> = Vec::new();
    if odd {
        match last {
            Some(sp) => {
                let l = make_lint(sp, LintKind::Formatting);
                let ghost lm = l@;
                out.push(l);
                proof {
                    assert(lint_views(out@) =~= seq![lm]);
                    assert(unclosed_quotes_lints(tv) =~= seq![lm]);
                }
            },
            None => {
                proof {
                    assert(lint_views(out@) =~= Seq::<LintModel>::empty());
                }
            },
        }
    } else {
        proof {
            assert(lint_views(out@) =~= Seq::<LintModel>::empty());
        }
    }
    out
}

#[verifier::loop_isolation(false)]
fn run_capitalization(d: &Document) -> (r: Vec<Lint>)
    ensures
        lint_views(r@) == capitalization_lints(d@, true),
{
    let toks = &d.tokens;
    let ghost tv = d@;
    let mut out: Vec<Lint> = Vec::new();
    let ghost mut models: Seq<LintModel> = Seq::empty();
    let mut at_start = true;
    let mut i: usize = 0;
    proof {
        assert(tv.skip(0) =~= tv);
        assert(models + capitalization_lints(tv, true) =~= capitalization_lints(tv, true));
    }
    while i < toks.len()
        invariant
            i <= toks@.len(),
            models.len() == out@.len(),
            forall|x: int| 0 <= x < models.len() ==> models[x] == out@[x]@,
            capitalization_lints(tv, true) == models + capitalization_lints(
                tv.skip(i as int),
                at_start,
            ),
        decreases toks.len() - i,
    {
        let ghost pre = models;
        let ghost prevec = out@;
        let ghost rem = tv.skip(i as int);
        proof {
            assert(rem[0] == tv[i as int]);
            assert(tv[i as int] == toks@[i as int]@);
            assert(rem.drop_first() =~= tv.skip(i + 1));
        }
        match toks[i].kind {
            TokenKind::Word => {
                let mut flag = false;
                if at_start && toks[i].chars.len() > 0 {
                    let c0 = toks[i].chars[0];
                    let u = c0 as u32;
                    if 97 <= u && u <= 122 {
                        flag = true;
                    }
                }
                if flag {
                    let l = make_lint(toks[i].span, LintKind::Capitalization);
                    let ghost lm = l@;
                    out.push(l);
                    proof {
                        models = pre.push(lm);
                        assert forall|x: int| 0 <= x < models.len() implies models[x]
                            == out@[x]@ by {
                            if x < prevec.len() {
                                assert(out@[x] == prevec[x]);
                            }
                        }
                        assert(pre + (seq![lm] + capitalization_lints(tv.skip(i + 1), false))
                            =~= pre.push(lm) + capitalization_lints(tv.skip(i + 1), false));
                    }
                }
                at_start = false;
            },
            TokenKind::Period => {
                at_start = true;
            },
            _ => {},
        }
        i += 1;
    }
    proof {
        assert(tv.skip(tv.len() as int) =~= Seq::<TokenModel>::empty());
        assert(models + capitalization_lints(tv.skip(tv.len() as int), at_start) =~= models);
        assert(lint_views(out@) =~= models);
    }
    out
}

#[verifier::loop_isolation(false)]
fn run_long_sentences(d: &Document) -> (r: Vec<Lint>)
    ensures
        lint_views(r@) == long_sentence_lints(d@, 0),
{
    let toks = &d.tokens;
    let ghost tv = d@;
    let mut out: Vec<Lint> = Vec::new();
    let ghost mut models: Seq<LintModel> = Seq::empty();
    let mut count: usize = 0;
    let mut i: usize = 0;
    proof {
        assert(tv.skip(0) =~= tv);
        assert(models + long_sentence_lints(tv, 0) =~= long_sentence_lints(tv, 0));
    }
    while i < toks.len()
        invariant
            i <= toks@.len(),
            count <= i,
            models.len() == out@.len(),
            forall|x: int| 0 <= x < models.len() ==> models[x] == out@[x]@,
            long_sentence_lints(tv, 0) == models + long_sentence_lints(
                tv.skip(i as int),
                count as nat,
            ),
        decreases toks.len() - i,
    {
        let ghost pre = models;
        let ghost prevec = out@;
        let ghost rem = tv.skip(i as int);
        proof {
            assert(rem[0] == tv[i as int]);
            assert(tv[i as int] == toks@[i as int]@);
            assert(rem.drop_first() =~= tv.skip(i + 1));
        }
        match toks[i].kind {
            TokenKind::Word => {
                if count == LONG_SENTENCE_WORDS {
                    let l = make_lint(toks[i].span, LintKind::Readability);
                    let ghost lm = l@;
                    out.push(l);
                    proof {
                        models = pre.push(lm);
                        assert forall|x: int| 0 <= x < models.len() implies models[x]
                            == out@[x]@ by {
                            if x < prevec.len() {
                                assert(out@[x] == prevec[x]);
                            }
                        }
                        assert(pre + (seq![lm] + long_sentence_lints(
                            tv.skip(i + 1),
                            (count + 1) as nat,
                        )) =~= pre.push(lm) + long_sentence_lints(
                            tv.skip(i + 1),
                            (count + 1) as nat,
                        ));
                    }
                }
                count += 1;
            },
            TokenKind::Period => {
                count = 0;
            },
            _ => {},
        }
        i += 1;
    }
    proof {
        assert(tv.skip(tv.len() as int) =~= Seq::<TokenModel>::empty());
        assert(models + long_sentence_lints(tv.skip(tv.len() as int), count as nat) =~= models);
        assert(lint_views(out@) =~= models);
    }
    out
}

#[verifier::loop_isolation(false)]
fn run_matcher(d: &Document) -> (r: Vec<Lint>)
    ensures
        lint_views(r@) == matcher_lints(d@),
{
    let toks = &d.tokens;
    let ghost tv = d@;
    let mut out: Vec<Lint> = Vec::new();
    let ghost mut models: Seq<LintModel> = Seq::empty();
    let mut i: usize = 0;
    proof {
        assert(tv.skip(0) =~= tv);
        assert(models + matcher_lints(tv) =~= matcher_lints(tv));
    }
    while i < toks.len()
        invariant
            i <= toks@.len(),
            models.len() == out@.len(),
            forall|x: int| 0 <= x < models.len() ==> models[x] == out@[x]@,
            matcher_lints(tv) == models + matcher_lints(tv.skip(i as int)),
        decreases toks.len() - i,
    {
        let ghost pre = models;
        let ghost prevec = out@;
        let ghost rem = tv.skip(i as int);
        proof {
            assert(rem[0] == tv[i as int]);
            assert(tv[i as int] == toks@[i as int]@);
            assert(rem.drop_first() =~= tv.skip(i + 1));
        }
        let mut replacement: Option<Vec<char>> = None;
        match toks[i].kind {
            TokenKind::Word => {
                let alot = lit_alot();
                let teh = lit_teh();
                if chars_eq(&toks[i].chars, &alot) {
                    replacement = Some(lit_a_lot());
                } else if chars_eq(&toks[i].chars, &teh) {
                    replacement = Some(lit_the());
                }
            },
            _ => {},
        }
        match replacement {
            Some(sugg) => {
                let ghost sv = sugg@;
                let mut suggestions: Vec<Vec<char>> = Vec::new();
                suggestions.push(sugg);
                let l = Lint {
                    span: toks[i].span,
                    kind: LintKind::WordChoice,
                    message: Vec::new(),
                    suggestions,
                };
                let ghost lm = l@;
                proof {
                    assert(matcher_suggestion(rem[0].chars) == Some(sv));
                    assert(lm.suggestions =~= seq![sv]);
                    assert(lm =~= (LintModel {
                        start: rem[0].start,
                        end: rem[0].end,
                        kind: LintKind::WordChoice,
                        message: Seq::empty(),
                        suggestions: seq![matcher_suggestion(rem[0].chars).unwrap()],
                    }));
                }
                out.push(l);
                proof {
                    models = pre.push(lm);
                    assert forall|x: int| 0 <= x < models.len() implies models[x] == out@[x]@ by {
                        if x < prevec.len() {
                            assert(out@[x] == prevec[x]);
                        }
                    }
                    assert(pre + (seq![lm] + matcher_lints(tv.skip(i + 1))) =~= pre.push(lm)
                        + matcher_lints(tv.skip(i + 1)));
                }
            },
            None => {
                proof {
                    assert(matcher_suggestion(rem[0].chars) is None || rem[0].kind
                        != TokenKind::Word);
                }
            },
        }
        i += 1;
    }
    proof {
        assert(tv.skip(tv.len() as int) =~= Seq::<TokenModel>::empty());
        assert(models + matcher_lints(tv.skip(tv.len() as int)) =~= models);
        assert(lint_views(out@) =~= models);
    }
    out
}

#[verifier::loop_isolation(false)]
fn run_spell_check(dict: &Dictionary, d: &Document) -> (r: Vec<Lint>)
    ensures
        lint_views(r@) == spell_lints(d@, dict@),
{
    let toks = &d.tokens;
    let ghost tv = d@;
    let ghost dv = dict@;
    let mut out: Vec<Lint> = Vec::new();
    let ghost mut models: Seq<LintModel> = Seq::empty();
    let mut i: usize = 0;
    proof {
        assert(tv.skip(0) =~= tv);
        assert(models + spell_lints(tv, dv) =~= spell_lints(tv, dv));
    }
    while i < toks.len()
        invariant
            i <= toks@.len(),
            models.len() == out@.len(),
            forall|x: int| 0 <= x < models.len() ==> models[x] == out@[x]@,
            spell_lints(tv, dv) == models + spell_lints(tv.skip(i as int), dv),
        decreases toks.len() - i,
    {
        let ghost pre = models;
        let ghost prevec = out@;
        let ghost rem = tv.skip(i as int);
        proof {
            assert(rem[0] == tv[i as int]);
            assert(tv[i as int] == toks@[i as int]@);
            assert(rem.drop_first() =~= tv.skip(i + 1));
        }
        let mut missing = false;
        match toks[i].kind {
            TokenKind::Word => {
                if !dict.contains(&toks[i].chars) {
                    missing = true;
                }
            },
            _ => {},
        }
        if missing {
            let suggestions = dict.suggestions_for(&toks[i].chars);
            let l = Lint {
                span: toks[i].span,
                kind: LintKind::Spelling,
                message: Vec::new(),
                suggestions,
            };
            let ghost lm = l@;
            proof {
                assert(lm =~= (LintModel {
                    start: rem[0].start,
                    end: rem[0].end,
                    kind: LintKind::Spelling,
                    message: Seq::empty(),
                    suggestions: close_words(dv, rem[0].chars),
                }));
            }
            out.push(l);
            proof {
                models = pre.push(lm);
                assert forall|x: int| 0 <= x < models.len() implies models[x] == out@[x]@ by {
                    if x < prevec.len() {
                        assert(out@[x] == prevec[x]);
                    }
                }
                assert(pre + (seq![lm] + spell_lints(tv.skip(i + 1), dv)) =~= pre.push(lm)
                    + spell_lints(tv.skip(i + 1), dv));
            }
        }
        i += 1;
    }
    proof {
        assert(tv.skip(tv.len() as int) =~= Seq::<TokenModel>::empty());
        assert(models + spell_lints(tv.skip(tv.len() as int), dv) =~= models);
        assert(lint_views(out@) =~= models);
    }
    out
}

/// Runs one detector over a document.
pub fn run_linter(l: &Linter, d: &Document) -> (r: Vec<Lint>)
    ensures
        lint_views(r@) == linter_lints(l@, d@),
{
    match l {
        Linter::RepeatedWords => run_repeated_words(d),
        Linter::LongSentences => run_long_sentences(d),
        Linter::UnclosedQuotes => run_unclosed_quotes(d),
        Linter::SentenceCapitalization => run_capitalization(d),
        Linter::Matcher => run_matcher(d),
        Linter::SpellCheck(dict) => run_spell_check(dict, d),
        Linter::Spaces => run_spaces(d),
        Linter::WrongQuotes => run_wrong_quotes(d),
    }
}

} // verus!
