use std::collections::VecDeque;

use jvot3::jvofli::What;
use jvot3::phonology::{deannotate_glide, strip_stress_accent};
use jvot3::settings::Settings;
use jvot3::syllables::{Coda, Nucleus, Onset, Syllable};
use jvot3::units::unitify;
use jvot3::units::Unit::{self, Cmevla, Normal};

fn syl(onset: &str, nucleus: &str, coda: Option<char>) -> Syllable {
    Syllable {
        onset: Onset::new(onset).unwrap(),
        nucleus: Nucleus::new(nucleus).unwrap(),
        coda: coda.and_then(Coda::new),
    }
}

#[test]
fn what_names() {
    assert_eq!(What::Cluster.to_text(), "cluster");
    assert_eq!(What::ConsonantRun.to_text(), "consonant run");
    assert_eq!(What::ConsonantalSyllable.to_text(), "consonantal syllable");
    assert_eq!(What::Diphthong.to_text(), "diphthong");
    assert_eq!(What::Nucleus.to_text(), "nucleus");
    assert_eq!(What::Onset.to_text(), "onset");
    assert_eq!(What::Syllable.to_text(), "syllable");
}

#[test]
fn onset_texts() {
    for s in ["", "'", "b", "bl", "spr", "i", "u"] {
        assert_eq!(Onset::new(s).unwrap().to_text(), s);
    }
}

#[test]
fn nucleus_texts() {
    for s in ["a", "á", "ai", "ái", "y", "l", "ú", "au"] {
        assert_eq!(Nucleus::new(s).unwrap().to_text(), s);
    }
}

#[test]
fn stressing_a_nucleus_marks_its_first_vowel() {
    let mut n = Nucleus::new("oi").unwrap();
    assert!(!n.is_stressed());
    n.set_stressed(true);
    assert!(n.is_stressed());
    assert_eq!(n.to_text(), "ói");
    n.set_stressed(false);
    assert_eq!(n.to_text(), "oi");
}

#[test]
fn coda_and_syllable_texts() {
    assert_eq!(Coda::new('r').unwrap().to_text(), "r");
    assert_eq!(syl("g", "é", Some('r')).to_text(), "gér");
    assert_eq!(syl("spr", "ai", None).to_text(), "sprai");
    assert_eq!(syl("", "u", None).to_text(), "u");
}

#[test]
fn unit_debug_text_marks_the_pre_brivla() {
    let u = Normal {
        syllables: VecDeque::from([syl("l", "e", None), syl("'", "i", None), syl("g", "é", Some('r')), syl("k", "u", None)]),
        pre_brivla_start: Some(2),
    };
    assert_eq!(u.to_debug_text(), "le,'i,|gér,ku");
    assert_eq!(u.to_text(), "le'igérku");
}

#[test]
fn unit_text_of_cmavo_and_cmevla() {
    let u = Normal { syllables: VecDeque::from([syl("m", "i", None)]), pre_brivla_start: None };
    assert_eq!(u.to_debug_text(), "mi");
    assert_eq!(u.to_text(), "mi");
    let c: Unit = Cmevla("djan".to_string());
    assert_eq!(c.to_debug_text(), ".djan.");
    assert_eq!(c.to_text(), "djan");
}

fn norm(s: &str) -> String {
    s.chars().map(|c| strip_stress_accent(deannotate_glide(c)).0).collect()
}

#[test]
fn unitify_keeps_the_letters() {
    for s in ["le'igerku", "mi do", "selojbonai", "lo djan. cu klama", "ianai", "mi'e .djan.", "bácrúda"] {
        let units = unitify(s, Settings::cll()).unwrap();
        let text: String = units.iter().map(Unit::to_text).collect();
        let expected: String = s.chars().filter(|c| *c != ' ' && *c != '.').collect();
        assert_eq!(norm(&text), norm(&expected), "{s}");
    }
}

#[test]
fn unit_kinds() {
    let units = unitify("le'igerku", Settings::cll()).unwrap();
    assert!(!units[0].is_cmavo_only());
    assert!(!units[0].is_pre_brivla_only());
    let units = unitify("gerku", Settings::cll()).unwrap();
    assert!(units[0].is_pre_brivla_only());
    let units = unitify("mi", Settings::cll()).unwrap();
    assert!(units[0].is_cmavo_only());
    let units = unitify(".djan.", Settings::cll()).unwrap();
    assert!(!units[0].is_cmavo_only() && !units[0].is_pre_brivla_only());
}
