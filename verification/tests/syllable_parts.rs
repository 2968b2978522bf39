use jvot3::syllables::{Coda, Nucleus, Onset, Syllable};

#[test]
fn onset_counts_and_kinds() {
    assert_eq!(Onset::new("").unwrap().hard_consonant_count(), 0);
    assert_eq!(Onset::new("'").unwrap().hard_consonant_count(), 0);
    assert_eq!(Onset::new("i").unwrap().hard_consonant_count(), 0);
    assert_eq!(Onset::new("b").unwrap().hard_consonant_count(), 1);
    assert_eq!(Onset::new("bl").unwrap().hard_consonant_count(), 2);
    assert_eq!(Onset::new("spr").unwrap().hard_consonant_count(), 3);
    assert!(Onset::new("'").unwrap().is_h());
    assert!(!Onset::new("b").unwrap().is_h());
    assert!(Onset::new("").unwrap().is_empty());
    assert!(!Onset::new("'").unwrap().is_empty());
}

#[test]
fn nucleus_kinds() {
    let a = Nucleus::new("a").unwrap();
    let ai = Nucleus::new("ai").unwrap();
    let y = Nucleus::new("y").unwrap();
    let r = Nucleus::new("r").unwrap();
    assert!(a.is_stressable() && ai.is_stressable());
    assert!(!y.is_stressable() && !r.is_stressable());
    assert_eq!(ai.get_offglide(), Some('i'));
    assert_eq!(a.get_offglide(), None);
    assert_eq!(r.get_sonorant(), Some('r'));
    assert_eq!(y.get_sonorant(), None);
    assert!(r.is_consonantal() && !r.is_vocalic());
    assert!(a.is_vocalic() && y.is_vocalic() && !ai.is_consonantal());
}

#[test]
fn stress_on_unstressable_nucleus_does_nothing() {
    let mut y = Nucleus::new("y").unwrap();
    y.set_stressed(true);
    assert!(!y.is_stressed());
    assert_eq!(y.to_text(), "y");
    let mut r = Nucleus::new("l").unwrap();
    r.set_stressed(true);
    assert!(!r.is_stressed());
}

#[test]
fn coda_parts() {
    assert_eq!(Coda::new('r').map(|c| c.it()), Some('r'));
    assert!(Coda::new('a').is_none());
    assert!(Coda::new('\'').is_none());
}

#[test]
fn syllable_counts() {
    let s = Syllable {
        onset: Onset::new("kl").unwrap(),
        nucleus: Nucleus::new("a").unwrap(),
        coda: Coda::new('m'),
    };
    assert_eq!(s.hard_consonant_count(), 3);
    assert!(!s.is_consonantal());
    assert!(!s.has_h_onset() && !s.has_empty_onset());
    let c = Syllable { onset: Onset::new("m").unwrap(), nucleus: Nucleus::new("r").unwrap(), coda: None };
    assert_eq!(c.hard_consonant_count(), 2);
    assert!(c.is_consonantal());
    let h = Syllable { onset: Onset::new("'").unwrap(), nucleus: Nucleus::new("e").unwrap(), coda: None };
    assert!(h.has_h_onset());
    assert_eq!(h.hard_consonant_count(), 0);
    let e = Syllable { onset: Onset::new("").unwrap(), nucleus: Nucleus::new("ei").unwrap(), coda: None };
    assert!(e.has_empty_onset());
}
