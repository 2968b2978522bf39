use jvot3::phonology::{
    add_stress_accent, could_be_glide, deannotate_glide, is_banned_triple_chars, is_consonant,
    is_diphthong_chars, is_hard_onset, is_initial_chars, is_stressable_vowel, is_valid_chars,
    strip_stress_accent,
};
use jvot3::settings::Settings;

const PLAIN: [char; 6] = ['a', 'e', 'i', 'o', 'u', 'y'];
const STRESSED: [char; 6] = ['á', 'é', 'í', 'ó', 'ú', 'ý'];

#[test]
fn strip_stress_of_each_stressed_vowel() {
    for (s, p) in STRESSED.iter().zip(PLAIN.iter()) {
        assert_eq!(strip_stress_accent(*s), (*p, true));
    }
}

#[test]
fn strip_stress_leaves_other_letters() {
    for c in "aeiouybcdlmnrx'. ĭq".chars() {
        assert_eq!(strip_stress_accent(c), (c, false));
    }
}

#[test]
fn add_stress_to_each_plain_vowel() {
    for (s, p) in STRESSED.iter().zip(PLAIN.iter()) {
        assert_eq!(add_stress_accent(*p), Some(*s));
    }
    for c in "bcdlmnrx'. áý".chars() {
        assert_eq!(add_stress_accent(c), None);
    }
}

#[test]
fn stress_round_trip() {
    for p in PLAIN {
        let s = add_stress_accent(p).unwrap();
        assert_eq!(strip_stress_accent(s), (p, true));
    }
    for s in STRESSED {
        let (p, was) = strip_stress_accent(s);
        assert!(was);
        assert_eq!(add_stress_accent(p), Some(s));
    }
}

#[test]
fn stressable_vowels() {
    for c in "aeiouáéíóú".chars() {
        assert!(is_stressable_vowel(c));
    }
    for c in "yýbq".chars() {
        assert!(!is_stressable_vowel(c));
    }
}

#[test]
fn glides() {
    assert_eq!(deannotate_glide('q'), 'i');
    assert_eq!(deannotate_glide('ĭ'), 'i');
    assert_eq!(deannotate_glide('w'), 'u');
    assert_eq!(deannotate_glide('ŭ'), 'u');
    assert_eq!(deannotate_glide('a'), 'a');
    assert!(could_be_glide('i') && could_be_glide('u'));
    assert!(!could_be_glide('a') && !could_be_glide('q'));
    assert!(is_diphthong_chars('á', 'i'));
    assert!(is_diphthong_chars('a', 'u'));
    assert!(!is_diphthong_chars('o', 'u'));
    assert!(!is_diphthong_chars('a', 'í'));
}

#[test]
fn consonants() {
    assert!(is_consonant('\''));
    assert!(is_consonant('b'));
    assert!(!is_consonant('.'));
    assert!(!is_consonant('y'));
}

#[test]
fn cluster_rules() {
    let cll = Settings::cll();
    assert!(is_valid_chars('b', 'l', cll));
    assert!(is_valid_chars('n', 't', cll));
    // doubled
    assert!(!is_valid_chars('b', 'b', cll));
    // voiced then voiceless, and the other way round
    assert!(!is_valid_chars('b', 'p', cll));
    assert!(!is_valid_chars('t', 'd', cll));
    // two sibilants
    assert!(!is_valid_chars('c', 's', cll));
    // the banned pairs with x
    assert!(!is_valid_chars('c', 'x', cll));
    assert!(!is_valid_chars('x', 'k', cll));
    // mz only where allowed
    assert!(!is_valid_chars('m', 'z', cll));
    assert!(is_valid_chars('m', 'z', Settings::permissive()));
    assert!(is_valid_chars('z', 'm', cll));
    assert!(!is_valid_chars('a', 'b', cll));
}

#[test]
fn initial_cluster_rules() {
    assert!(is_initial_chars('b', 'l'));
    assert!(is_initial_chars('s', 't'));
    assert!(is_initial_chars('d', 'z'));
    assert!(!is_initial_chars('l', 'b'));
    assert!(!is_initial_chars('n', 't'));
    assert!(is_banned_triple_chars('n', 't', 's'));
    assert!(!is_banned_triple_chars('m', 't', 's'));
}

#[test]
fn hard_onsets() {
    for s in ["", "b", "bl", "spr", "str", "cfr", "zbl", "sfl"] {
        assert!(is_hard_onset(s), "{s}");
    }
    for s in ["'", "lb", "tcl", "bla", "a", "á", "splr", "spn"] {
        assert!(!is_hard_onset(s), "{s}");
    }
}
