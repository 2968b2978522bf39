use jvot3::jvofli::Jvofli::{self, Invalid, LongGlide, MisplacedApostrophe, NonLojbanCharacter};
use jvot3::jvofli::What;
use jvot3::prewords::{check_lojban_only, is_gismu, mark_glides, syllabify};

fn invalid(what: What, value: &str) -> Jvofli {
    Invalid { what, value: value.to_string() }
}

#[test]
fn offglide_then_same_onglide_is_a_long_glide() {
    assert_eq!(mark_glides("aiia"), Err(LongGlide('i')));
    assert_eq!(mark_glides("auua"), Err(LongGlide('u')));
}

#[test]
fn falling_pair_that_is_no_diphthong() {
    assert_eq!(mark_glides("eu"), Err(invalid(What::Diphthong, "eu")));
    assert_eq!(mark_glides("ou"), Err(invalid(What::Diphthong, "ou")));
    assert_eq!(mark_glides("yi"), Err(invalid(What::Diphthong, "yi")));
}

#[test]
fn glides_are_respelled() {
    assert_eq!(mark_glides("ai"), Ok("aĭ".to_string()));
    assert_eq!(mark_glides("ia"), Ok("qa".to_string()));
    assert_eq!(mark_glides("uo"), Ok("wo".to_string()));
    assert_eq!(mark_glides("bau"), Ok("baŭ".to_string()));
    assert_eq!(mark_glides("klama"), Ok("klama".to_string()));
    assert_eq!(mark_glides(""), Ok(String::new()));
}

#[test]
fn only_lojban_letters() {
    assert_eq!(check_lojban_only("la'e"), Ok(()));
    assert_eq!(check_lojban_only("qaĭ"), Ok(()));
    assert_eq!(check_lojban_only(""), Ok(()));
    assert_eq!(check_lojban_only("la e"), Err(NonLojbanCharacter(' ')));
    assert_eq!(check_lojban_only("hello"), Err(NonLojbanCharacter('h')));
    assert_eq!(syllabify("coi!"), Err(NonLojbanCharacter('!')));
}

#[test]
fn no_vowels() {
    assert_eq!(syllabify("bcd"), Err(invalid(What::Syllable, "bcd")));
}

#[test]
fn coda_that_cannot_be_split() {
    assert_eq!(syllabify("ant"), Err(invalid(What::ConsonantRun, "nt")));
}

#[test]
fn apostrophe_at_the_start() {
    assert!(matches!(syllabify("'a"), Err(MisplacedApostrophe { .. })));
}

#[test]
fn syllables_spell_the_marked_input() {
    assert_eq!(syllabify("klama"), Ok(vec!["kla".to_string(), "ma".to_string()]));
    assert_eq!(syllabify("coi"), Ok(vec!["coĭ".to_string()]));
    assert_eq!(syllabify("ui"), Ok(vec!["wi".to_string()]));
    assert_eq!(syllabify("la'e"), Ok(vec!["la".to_string(), "'e".to_string()]));
}

#[test]
fn gismu_shapes() {
    for g in ["klama", "gerku", "lojbo", "prami", "cusku", "zbasu", "bangu", "kalma"] {
        assert!(is_gismu(g), "{g}");
    }
    for g in ["klam", "klamaa", "lojba'", "ktama", "kaama", "klamá", "gerk", ""] {
        assert!(!is_gismu(g), "{g}");
    }
}

#[test]
fn syllabify_takes_the_longest_onset() {
    assert_eq!(syllabify("atra"), Ok(vec!["a".to_string(), "tra".to_string()]));
}
