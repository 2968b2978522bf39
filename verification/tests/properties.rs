use jvot3::phonology::{deannotate_glide, strip_stress_accent};
use jvot3::settings::Settings;
use jvot3::units::unitify;
use jvot3::units::Unit;

/// A small deterministic generator of pseudo-random numbers.
struct Rng(u64);

impl Rng {
    fn next(&mut self) -> u64 {
        self.0 ^= self.0 << 13;
        self.0 ^= self.0 >> 7;
        self.0 ^= self.0 << 17;
        self.0
    }

    fn pick<'a>(&mut self, xs: &[&'a str]) -> &'a str {
        xs[(self.next() % xs.len() as u64) as usize]
    }
}

/// Texts made of random syllables, with a few pauses.
fn texts(count: usize) -> Vec<String> {
    let onsets = [
        "", "b", "l", "m", "n", "s", "t", "k", "g", "d", "'", "bl", "kl", "st", "sp", "tr", "j",
        "z", "c", "x",
    ];
    let nuclei = ["a", "e", "i", "o", "u", "y", "ai", "au", "ei", "oi", "á", "é", "í", "ó", "ý", "ái"];
    let codas = ["", "", "", "r", "n", "l", "s", "m", "k"];
    let mut rng = Rng(0x9e37_79b9_7f4a_7c15);
    let mut out = Vec::new();
    for _ in 0..count {
        let n = 1 + rng.next() % 7;
        let mut s = String::new();
        for _ in 0..n {
            s.push_str(rng.pick(&onsets));
            s.push_str(rng.pick(&nuclei));
            s.push_str(rng.pick(&codas));
            if rng.next() % 9 == 0 {
                s.push(' ');
            }
        }
        out.push(s);
    }
    out
}

fn norm(s: &str) -> String {
    s.chars().map(|c| strip_stress_accent(deannotate_glide(c)).0).collect()
}

#[test]
fn every_pre_brivla_carries_a_stress() {
    for s in texts(60000) {
        for settings in [Settings::cll(), Settings::permissive()] {
            let Ok(units) = unitify(&s, settings) else { continue };
            for u in &units {
                if let Unit::Normal { syllables, pre_brivla_start: Some(p) } = u {
                    assert!(*p < syllables.len(), "{s}");
                    assert!(syllables.iter().skip(*p).any(|x| x.nucleus.is_stressed()), "{s}");
                }
            }
        }
    }
}

#[test]
fn units_spell_the_text() {
    for s in texts(60000) {
        let Ok(units) = unitify(&s, Settings::cll()) else { continue };
        let text: String = units.iter().map(Unit::to_text).collect();
        let letters: String = s.chars().filter(|c| *c != ' ' && *c != '.').collect();
        assert_eq!(norm(&text), norm(&letters), "{s}");
    }
}

#[test]
fn pauses_alone_give_no_units() {
    for s in ["", " ", ".", " . ", "..  ."] {
        assert_eq!(unitify(s, Settings::cll()), Ok(vec![]), "{s:?}");
    }
}

#[test]
fn a_group_ending_in_a_consonant_is_one_cmevla() {
    for s in ["lojban", "djan", "mark", "n", "an"] {
        assert_eq!(unitify(s, Settings::cll()), Ok(vec![Unit::Cmevla(s.into())]), "{s}");
    }
    for s in ["lojbanX", "l4n", "lojba'"] {
        assert!(unitify(s, Settings::cll()).is_err(), "{s}");
    }
}
