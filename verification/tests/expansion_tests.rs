use harper_core::expand::{expand, BaseEntry};
use harper_core::expansion::{Expansion, HumanReadableExpansion};
use harper_core::metadata::WordMetadata;
use harper_core::replacement::{AffixReplacement, CondAtom, HumanReadableAffixReplacement};
use harper_core::Error;

fn chars(s: &str) -> Vec<char> {
    s.chars().collect()
}

fn text(v: &[char]) -> String {
    v.iter().collect()
}

fn meta(noun: bool, verb: bool, adjective: bool) -> WordMetadata {
    WordMetadata {
        noun,
        verb,
        adjective,
        adverb: false,
        conjunction: false,
        swear: false,
    }
}

fn class(negated: bool, members: &str) -> CondAtom {
    CondAtom::Class {
        negated,
        members: chars(members),
    }
}

fn find_meta(dict: &harper_core::Dictionary, word: &str) -> WordMetadata {
    dict.metadata_of(&chars(word))
        .unwrap_or_else(|| panic!("missing word {word}"))
}

#[test]
fn property_only_flag_tags_base_word() {
    let entries = vec![BaseEntry {
        word: chars("fox"),
        flags: chars("N"),
        metadata: meta(false, true, false),
    }];
    let table = vec![(
        'N',
        Expansion {
            suffix_or_property: true,
            cross_product: false,
            replacements: Vec::new(),
            target_metadata: meta(false, false, false),
            base_metadata: meta(true, false, false),
        },
    )];
    let dict = expand(&entries, &table).unwrap();
    assert_eq!(dict.len(), 1);
    let m = find_meta(&dict, "fox");
    assert!(m.noun);
    assert!(m.verb);
    assert!(!m.adjective);
}

#[test]
fn single_suffix_expansion_derives_walking() {
    // The condition "ends with a consonant" as a negated vowel class.
    let entries = vec![BaseEntry {
        word: chars("walk"),
        flags: chars("G"),
        metadata: meta(false, false, false),
    }];
    let table = vec![(
        'G',
        Expansion {
            suffix_or_property: true,
            cross_product: false,
            replacements: vec![AffixReplacement {
                condition: vec![class(true, "aeiou")],
                strip: chars(""),
                add: chars("ing"),
            }],
            target_metadata: meta(false, true, false),
            base_metadata: meta(false, false, true),
        },
    )];
    let dict = expand(&entries, &table).unwrap();
    assert_eq!(dict.len(), 2);
    assert!(dict.contains(&chars("walk")));
    assert!(dict.contains(&chars("walking")));
    assert!(find_meta(&dict, "walking").verb);
    assert!(find_meta(&dict, "walk").adjective);
}

#[test]
fn cross_product_expansion_derives_all_four_forms() {
    let entries = vec![BaseEntry {
        word: chars("play"),
        flags: chars("PS"),
        metadata: meta(false, false, false),
    }];
    let table = vec![
        (
            'P',
            Expansion {
                suffix_or_property: false,
                cross_product: true,
                replacements: vec![AffixReplacement {
                    condition: vec![CondAtom::Any],
                    strip: chars(""),
                    add: chars("re"),
                }],
                target_metadata: meta(true, false, false),
                base_metadata: meta(false, false, false),
            },
        ),
        (
            'S',
            Expansion {
                suffix_or_property: true,
                cross_product: true,
                replacements: vec![AffixReplacement {
                    condition: vec![CondAtom::Any],
                    strip: chars(""),
                    add: chars("ed"),
                }],
                target_metadata: meta(false, true, false),
                base_metadata: meta(false, false, false),
            },
        ),
    ];
    let dict = expand(&entries, &table).unwrap();
    assert_eq!(dict.len(), 4);
    for w in ["play", "replay", "played", "replayed"] {
        assert!(dict.contains(&chars(w)), "missing {w}");
    }
    assert!(find_meta(&dict, "replay").noun);
    assert!(find_meta(&dict, "played").verb);
    let both = find_meta(&dict, "replayed");
    assert!(both.noun && both.verb);
}

#[test]
fn unknown_flag_fails_expansion() {
    let entries = vec![BaseEntry {
        word: chars("walk"),
        flags: chars("Z"),
        metadata: meta(false, false, false),
    }];
    let table: Vec<(char, Expansion)> = Vec::new();
    match expand(&entries, &table) {
        Err(Error::UnknownFlag(f)) => assert_eq!(f, 'Z'),
        _ => panic!("expected an unknown flag error"),
    }
}

#[test]
fn expansion_round_trip_reproduces_value() {
    let e = Expansion {
        suffix_or_property: true,
        cross_product: true,
        replacements: vec![
            AffixReplacement {
                condition: vec![class(true, "aeiou"), class(false, "y")],
                strip: chars("y"),
                add: chars("ies"),
            },
            AffixReplacement {
                condition: vec![CondAtom::Any],
                strip: chars(""),
                add: chars("s"),
            },
        ],
        target_metadata: meta(true, false, false),
        base_metadata: meta(false, true, false),
    };
    let hr = e.into_human_readable();
    assert_eq!(text(&hr.replacements[0].condition), "[^aeiou]y");
    let back = hr.clone().into_normal().expect("round trip must succeed");
    let hr2 = back.into_human_readable();
    assert_eq!(hr.suffix_or_property, hr2.suffix_or_property);
    assert_eq!(hr.cross_product, hr2.cross_product);
    assert_eq!(hr.replacements.len(), hr2.replacements.len());
    for (a, b) in hr.replacements.iter().zip(hr2.replacements.iter()) {
        assert_eq!(a.condition, b.condition);
        assert_eq!(a.strip, b.strip);
        assert_eq!(a.add, b.add);
    }
    assert_eq!(hr.target_metadata, hr2.target_metadata);
    assert_eq!(hr.base_metadata, hr2.base_metadata);
}

#[test]
fn malformed_condition_is_rejected() {
    for bad in ["", "[ab", "[]", "]", "x^", "[a]"] {
        let hr = HumanReadableExpansion {
            suffix_or_property: true,
            cross_product: false,
            replacements: vec![HumanReadableAffixReplacement {
                condition: chars(bad),
                strip: chars(""),
                add: chars("s"),
            }],
            target_metadata: meta(false, false, false),
            base_metadata: meta(false, false, false),
        };
        match hr.into_normal() {
            Err(Error::MalformedReplacement) => {}
            _ => panic!("condition {bad:?} must be rejected"),
        }
    }
}

#[test]
fn textual_form_reads_back_to_the_same_text() {
    // A canonical textual rule, read back and written out again, is
    // reproduced character for character.
    let hr = HumanReadableExpansion {
        suffix_or_property: true,
        cross_product: false,
        replacements: vec![
            HumanReadableAffixReplacement {
                condition: chars("[^aeiou]y"),
                strip: chars("y"),
                add: chars("ies"),
            },
            HumanReadableAffixReplacement {
                condition: chars(".k"),
                strip: chars(""),
                add: chars("ed"),
            },
        ],
        target_metadata: meta(false, true, false),
        base_metadata: meta(false, false, false),
    };
    let again = hr.clone().into_normal().unwrap().into_human_readable();
    assert_eq!(hr.replacements.len(), again.replacements.len());
    for (a, b) in hr.replacements.iter().zip(again.replacements.iter()) {
        assert_eq!(text(&a.condition), text(&b.condition));
        assert_eq!(a.strip, b.strip);
        assert_eq!(a.add, b.add);
    }
    assert_eq!(hr.suffix_or_property, again.suffix_or_property);
    assert_eq!(hr.cross_product, again.cross_product);
    assert_eq!(hr.target_metadata, again.target_metadata);
    assert_eq!(hr.base_metadata, again.base_metadata);
}

#[test]
fn strip_longer_than_condition_is_rejected() {
    let hr = HumanReadableAffixReplacement {
        condition: chars("y"),
        strip: chars("ey"),
        add: chars("ies"),
    };
    match hr.to_normal() {
        Err(Error::MalformedReplacement) => {}
        _ => panic!("an overlong strip must be rejected"),
    }
}

#[test]
fn non_matching_condition_contributes_nothing() {
    // "sky" does not end in a vowel followed by "x", so the flag is silent.
    let entries = vec![BaseEntry {
        word: chars("sky"),
        flags: chars("G"),
        metadata: meta(true, false, false),
    }];
    let table = vec![(
        'G',
        Expansion {
            suffix_or_property: true,
            cross_product: false,
            replacements: vec![AffixReplacement {
                condition: vec![class(false, "x")],
                strip: chars(""),
                add: chars("es"),
            }],
            target_metadata: meta(false, true, false),
            base_metadata: meta(false, false, true),
        },
    )];
    let dict = expand(&entries, &table).unwrap();
    assert_eq!(dict.len(), 1);
    assert!(dict.contains(&chars("sky")));
    assert!(!find_meta(&dict, "sky").adjective);
}

#[test]
fn duplicate_derivations_merge_metadata() {
    // Two flags derive the same spelling; the metadata is the union.
    let rep = AffixReplacement {
        condition: vec![CondAtom::Any],
        strip: chars(""),
        add: chars("s"),
    };
    let entries = vec![BaseEntry {
        word: chars("dog"),
        flags: chars("AB"),
        metadata: meta(false, false, false),
    }];
    let table = vec![
        (
            'A',
            Expansion {
                suffix_or_property: true,
                cross_product: false,
                replacements: vec![rep.clone()],
                target_metadata: meta(true, false, false),
                base_metadata: meta(false, false, false),
            },
        ),
        (
            'B',
            Expansion {
                suffix_or_property: true,
                cross_product: false,
                replacements: vec![rep],
                target_metadata: meta(false, true, false),
                base_metadata: meta(false, false, false),
            },
        ),
    ];
    let dict = expand(&entries, &table).unwrap();
    assert_eq!(dict.len(), 2);
    let m = find_meta(&dict, "dogs");
    assert!(m.noun && m.verb);
}

#[test]
fn metadata_merge_is_commutative_and_keeps_attributes() {
    let a = meta(true, false, true);
    let b = meta(false, true, false);
    let ab = a.or(&b);
    let ba = b.or(&a);
    assert_eq!(ab, ba);
    assert!(ab.noun && ab.verb && ab.adjective);
    assert_eq!(a.or(&a), a);
}
