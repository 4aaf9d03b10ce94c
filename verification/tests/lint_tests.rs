use harper_core::dictionary::Dictionary;
use harper_core::document::{Document, Token, TokenKind};
use harper_core::lint::{LintKind, Span};
use harper_core::lint_set::LintSet;
use harper_core::metadata::WordMetadata;
use harper_core::record::{LintGroupConfig, Record, RecordKind};

fn chars(s: &str) -> Vec<char> {
    s.chars().collect()
}

fn no_meta() -> WordMetadata {
    WordMetadata {
        noun: false,
        verb: false,
        adjective: false,
        adverb: false,
        conjunction: false,
        swear: false,
    }
}

fn token(kind: TokenKind, text: &str, start: usize) -> Token {
    Token {
        kind,
        chars: chars(text),
        span: Span {
            start,
            end: start + text.len(),
        },
    }
}

/// Tokens for the text "the the cat sat."
fn the_the_cat_sat() -> Document {
    Document::new(vec![
        token(TokenKind::Word, "the", 0),
        token(TokenKind::Space, " ", 3),
        token(TokenKind::Word, "the", 4),
        token(TokenKind::Space, " ", 7),
        token(TokenKind::Word, "cat", 8),
        token(TokenKind::Space, " ", 11),
        token(TokenKind::Word, "sat", 12),
        token(TokenKind::Period, ".", 15),
    ])
}

#[test]
fn repeated_words_detects_one_repetition() {
    let doc = the_the_cat_sat();
    let mut set = LintSet::new();
    set.add_repeated_words();
    let lints = set.lint(&doc);
    assert_eq!(lints.len(), 1);
    assert_eq!(lints[0].kind, LintKind::Repetition);
    assert_eq!(lints[0].span.start, 4);
    assert_eq!(lints[0].span.end, 7);
}

#[test]
fn empty_set_reports_nothing() {
    let doc = the_the_cat_sat();
    let set = LintSet::new();
    assert!(set.lint(&doc).is_empty());
}

#[test]
fn lint_is_deterministic() {
    let doc = the_the_cat_sat();
    let mut set = LintSet::new();
    set.add_repeated_words();
    set.add_sentence_capitalization();
    set.add_spaces();
    let a = set.lint(&doc);
    let b = set.lint(&doc);
    assert_eq!(a.len(), b.len());
    for (x, y) in a.iter().zip(b.iter()) {
        assert_eq!(x.span.start, y.span.start);
        assert_eq!(x.span.end, y.span.end);
        assert_eq!(x.kind, y.kind);
    }
}

#[test]
fn output_is_sorted_by_span_start() {
    let doc = the_the_cat_sat();
    let mut set = LintSet::new();
    set.add_spaces();
    set.add_sentence_capitalization();
    set.add_repeated_words();
    let lints = set.lint(&doc);
    for w in lints.windows(2) {
        assert!(w[0].span.start <= w[1].span.start);
    }
}

#[test]
fn merging_two_sets_equals_one_combined_set() {
    let doc = the_the_cat_sat();
    let mut a = LintSet::new();
    a.add_repeated_words();
    a.add_sentence_capitalization();
    let mut b = LintSet::new();
    b.add_spaces();
    b.add_wrong_quotes();
    let mut combined = LintSet::new();
    combined.add_repeated_words();
    combined.add_sentence_capitalization();
    combined.add_spaces();
    combined.add_wrong_quotes();

    let mut concatenated = a.lint(&doc);
    concatenated.extend(b.lint(&doc));
    concatenated.sort_by_key(|l| l.span.start);
    let merged = combined.lint(&doc);
    assert_eq!(concatenated.len(), merged.len());
    for (x, y) in concatenated.iter().zip(merged.iter()) {
        assert_eq!(x.span.start, y.span.start);
        assert_eq!(x.kind, y.kind);
    }
}

#[test]
fn capitalization_flags_lowercase_sentence_start() {
    let doc = the_the_cat_sat();
    let mut set = LintSet::new();
    set.add_sentence_capitalization();
    let lints = set.lint(&doc);
    assert_eq!(lints.len(), 1);
    assert_eq!(lints[0].kind, LintKind::Capitalization);
    assert_eq!(lints[0].span.start, 0);
}

#[test]
fn spaces_flags_double_space() {
    let doc = Document::new(vec![
        token(TokenKind::Word, "Hi", 0),
        token(TokenKind::Space, " ", 2),
        token(TokenKind::Space, " ", 3),
        token(TokenKind::Word, "there", 4),
    ]);
    let mut set = LintSet::new();
    set.add_spaces();
    let lints = set.lint(&doc);
    assert_eq!(lints.len(), 1);
    assert_eq!(lints[0].kind, LintKind::Formatting);
    assert_eq!(lints[0].span.start, 3);
}

#[test]
fn unclosed_quotes_flags_odd_quote() {
    let doc = Document::new(vec![
        token(TokenKind::Quote, "\"", 0),
        token(TokenKind::Word, "Hello", 1),
        token(TokenKind::Quote, "\"", 6),
        token(TokenKind::Quote, "\"", 7),
    ]);
    let mut set = LintSet::new();
    set.add_unclosed_quotes();
    let lints = set.lint(&doc);
    assert_eq!(lints.len(), 1);
    assert_eq!(lints[0].kind, LintKind::Formatting);
    assert_eq!(lints[0].span.start, 7);
}

#[test]
fn wrong_quotes_flags_straight_quotes() {
    let doc = Document::new(vec![
        token(TokenKind::Quote, "\"", 0),
        token(TokenKind::Word, "Hello", 1),
        token(TokenKind::Quote, "\u{201d}", 6),
    ]);
    let mut set = LintSet::new();
    set.add_wrong_quotes();
    let lints = set.lint(&doc);
    assert_eq!(lints.len(), 1);
    assert_eq!(lints[0].kind, LintKind::Style);
    assert_eq!(lints[0].span.start, 0);
}

#[test]
fn long_sentences_flags_the_word_past_the_limit() {
    let mut tokens = Vec::new();
    let mut pos = 0usize;
    for _ in 0..45 {
        tokens.push(token(TokenKind::Word, "word", pos));
        pos += 4;
        tokens.push(token(TokenKind::Space, " ", pos));
        pos += 1;
    }
    tokens.push(token(TokenKind::Period, ".", pos));
    let doc = Document::new(tokens);
    let mut set = LintSet::new();
    set.add_long_sentences();
    let lints = set.lint(&doc);
    assert_eq!(lints.len(), 1);
    assert_eq!(lints[0].kind, LintKind::Readability);
    // The 41st word starts after 40 words of "word " (5 bytes each).
    assert_eq!(lints[0].span.start, 200);
}

#[test]
fn matcher_suggests_replacement() {
    let doc = Document::new(vec![
        token(TokenKind::Word, "alot", 0),
        token(TokenKind::Space, " ", 4),
        token(TokenKind::Word, "done", 5),
    ]);
    let mut set = LintSet::new();
    set.add_matcher();
    let lints = set.lint(&doc);
    assert_eq!(lints.len(), 1);
    assert_eq!(lints[0].kind, LintKind::WordChoice);
    assert_eq!(lints[0].suggestions.len(), 1);
    let s: String = lints[0].suggestions[0].iter().collect();
    assert_eq!(s, "a lot");
}

#[test]
fn spell_check_flags_unknown_word_with_close_suggestions() {
    let mut dict = Dictionary::new();
    dict.merge_insert(chars("cat"), no_meta());
    dict.merge_insert(chars("cot"), no_meta());
    dict.merge_insert(chars("dog"), no_meta());
    let doc = Document::new(vec![
        token(TokenKind::Word, "cat", 0),
        token(TokenKind::Space, " ", 3),
        token(TokenKind::Word, "czt", 4),
    ]);
    let mut set = LintSet::new();
    set.add_spell_check(dict);
    let lints = set.lint(&doc);
    assert_eq!(lints.len(), 1);
    assert_eq!(lints[0].kind, LintKind::Spelling);
    assert_eq!(lints[0].span.start, 4);
    let suggested: Vec<String> = lints[0]
        .suggestions
        .iter()
        .map(|s| s.iter().collect())
        .collect();
    assert_eq!(suggested, vec!["cat".to_string(), "cot".to_string()]);
}

#[test]
fn standard_bundle_runs_all_detectors() {
    let mut dict = Dictionary::new();
    for w in ["the", "cat", "sat"] {
        dict.merge_insert(chars(w), no_meta());
    }
    let doc = the_the_cat_sat();
    let set = LintSet::new().with_standard(dict);
    let lints = set.lint(&doc);
    // One repetition and one capitalization lint; everything is spelled right.
    assert_eq!(lints.len(), 2);
    assert_eq!(lints[0].kind, LintKind::Capitalization);
    assert_eq!(lints[1].kind, LintKind::Repetition);
}

#[test]
fn dictionary_suggestions_keep_dictionary_order() {
    let mut dict = Dictionary::new();
    dict.merge_insert(chars("bat"), no_meta());
    dict.merge_insert(chars("cat"), no_meta());
    dict.merge_insert(chars("cart"), no_meta());
    let got: Vec<String> = dict
        .suggestions_for(&chars("rat"))
        .iter()
        .map(|s| s.iter().collect())
        .collect();
    assert_eq!(got, vec!["bat".to_string(), "cat".to_string()]);
}

#[test]
fn record_now_keeps_its_kind() {
    match Record::now(RecordKind::Lint(LintKind::Spelling)) {
        Ok(rec) => match rec.kind {
            RecordKind::Lint(k) => assert_eq!(k, LintKind::Spelling),
            _ => panic!("wrong record kind"),
        },
        Err(_) => panic!("the clock reads after the epoch"),
    }
}

#[test]
fn record_identifiers_differ() {
    let a = Record::now(RecordKind::Lint(LintKind::Style)).unwrap();
    let b = Record::now(RecordKind::Lint(LintKind::Style)).unwrap();
    assert_ne!(a.uuid, b.uuid);
}

#[test]
fn lint_group_config_remembers_last_setting() {
    let mut cfg = LintGroupConfig::new();
    assert_eq!(cfg.is_rule_enabled(&chars("spelling")), None);
    cfg.set_rule_enabled(chars("spelling"), true);
    cfg.set_rule_enabled(chars("style"), false);
    cfg.set_rule_enabled(chars("spelling"), false);
    assert_eq!(cfg.is_rule_enabled(&chars("spelling")), Some(false));
    assert_eq!(cfg.is_rule_enabled(&chars("style")), Some(false));
    assert_eq!(cfg.is_rule_enabled(&chars("grammar")), None);
}
