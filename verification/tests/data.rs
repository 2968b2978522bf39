use jvot3::data::{
    is_banned_triple, is_diphthong, is_hard_consonant, is_hyphen, is_initial, is_mz_valid,
    is_offglide, is_onglide, is_sonorant, is_start_vowel_cluster, is_valid, is_vowel,
    is_zihevla_initial,
};

const VALID: [&str; 179] = [
    "bd", "bg", "bj", "bl", "bm", "bn", "br", "bv", "bz", "cf", "ck", "cl", "cm", "cn", "cp", "cr",
    "ct", "db", "dg", "dj", "dl", "dm", "dn", "dr", "dv", "dz", "fc", "fk", "fl", "fm", "fn", "fp",
    "fr", "fs", "ft", "fx", "gb", "gd", "gj", "gl", "gm", "gn", "gr", "gv", "gz", "jb", "jd", "jg",
    "jl", "jm", "jn", "jr", "jv", "kc", "kf", "kl", "km", "kn", "kp", "kr", "ks", "kt", "lb", "lc",
    "ld", "lf", "lg", "lj", "lk", "lm", "ln", "lp", "lr", "ls", "lt", "lv", "lx", "lz", "mb", "mc",
    "md", "mf", "mg", "mj", "mk", "ml", "mn", "mp", "mr", "ms", "mt", "mv", "mx", "nb", "nc", "nd",
    "nf", "ng", "nj", "nk", "nl", "nm", "np", "nr", "ns", "nt", "nv", "nx", "nz", "pc", "pf", "pk",
    "pl", "pm", "pn", "pr", "ps", "pt", "px", "rb", "rc", "rd", "rf", "rg", "rj", "rk", "rl", "rm",
    "rn", "rp", "rs", "rt", "rv", "rx", "rz", "sf", "sk", "sl", "sm", "sn", "sp", "sr", "st", "sx",
    "tc", "tf", "tk", "tl", "tm", "tn", "tp", "tr", "ts", "tx", "vb", "vd", "vg", "vj", "vl", "vm",
    "vn", "vr", "vz", "xf", "xl", "xm", "xn", "xp", "xr", "xs", "xt", "zb", "zd", "zg", "zl", "zm",
    "zn", "zr", "zv",
];

const INITIAL: [&str; 48] = [
    "bl", "br", "cf", "ck", "cl", "cm", "cn", "cp", "cr", "ct", "dj", "dr", "dz", "fl", "fr", "gl",
    "gr", "jb", "jd", "jg", "jm", "jv", "kl", "kr", "ml", "mr", "pl", "pr", "sf", "sk", "sl", "sm",
    "sn", "sp", "sr", "st", "tc", "tr", "ts", "vl", "vr", "xl", "xr", "zb", "zd", "zg", "zm", "zv",
];

const LETTERS: &str = "abcdefghijklmnopqrstuvwxyz'.áý";

fn all_pairs() -> Vec<String> {
    let mut out = Vec::new();
    for x in LETTERS.chars() {
        for y in LETTERS.chars() {
            out.push(format!("{x}{y}"));
        }
    }
    out
}

#[test]
fn valid_clusters_are_exactly_the_listed_ones() {
    for pair in all_pairs() {
        assert_eq!(is_valid(&pair), VALID.contains(&pair.as_str()), "{pair}");
    }
}

#[test]
fn mz_valid_adds_only_mz() {
    for pair in all_pairs() {
        assert_eq!(is_mz_valid(&pair), pair == "mz" || VALID.contains(&pair.as_str()), "{pair}");
    }
}

#[test]
fn initial_clusters_are_exactly_the_listed_ones() {
    for pair in all_pairs() {
        assert_eq!(is_initial(&pair), INITIAL.contains(&pair.as_str()), "{pair}");
    }
}

#[test]
fn initial_clusters_are_valid() {
    for pair in INITIAL {
        assert!(is_valid(pair), "{pair}");
    }
}

#[test]
fn cluster_lookups_need_two_letters() {
    assert!(!is_valid(""));
    assert!(!is_valid("b"));
    assert!(!is_valid("bla"));
    assert!(!is_initial("blr"));
    assert!(!is_mz_valid("mzz"));
}

#[test]
fn zihevla_initials() {
    for pair in ["bl", "br", "dr", "fl", "fr", "gl", "gr", "kl", "kr", "ml", "mr", "pl", "pr", "tr", "vl", "vr"] {
        assert!(is_zihevla_initial(pair), "{pair}");
    }
    for pair in ["cl", "sp", "dz", "tc", "xl", "b", "blr", ""] {
        assert!(!is_zihevla_initial(pair), "{pair}");
    }
}

#[test]
fn banned_triples() {
    for t in ["ndj", "ndz", "ntc", "nts"] {
        assert!(is_banned_triple(t), "{t}");
    }
    for t in ["ndr", "mdj", "nt", "ntsa", "ntz"] {
        assert!(!is_banned_triple(t), "{t}");
    }
}

#[test]
fn letter_classes() {
    for c in "bcdfgjklmnprstvxz".chars() {
        assert!(is_hard_consonant(c), "{c}");
    }
    for c in "aehiouy'.qwá".chars() {
        assert!(!is_hard_consonant(c), "{c}");
    }
    for c in "lmnr".chars() {
        assert!(is_sonorant(c));
    }
    assert!(!is_sonorant('b'));
    for c in "aeiouy".chars() {
        assert!(is_vowel(c));
    }
    assert!(!is_vowel('á'));
    assert!(!is_vowel('q'));
    assert!(is_onglide('q') && is_onglide('w'));
    assert!(!is_onglide('i') && !is_onglide('ĭ'));
    assert!(is_offglide('ĭ') && is_offglide('ŭ'));
    assert!(!is_offglide('i') && !is_offglide('q'));
}

#[test]
fn diphthongs_and_start_clusters() {
    for d in ["ai", "ei", "oi", "au"] {
        assert!(is_diphthong(d));
        assert!(is_start_vowel_cluster(d));
    }
    for d in ["ia", "ua", "eu", "ou", "a", "aia"] {
        assert!(!is_diphthong(d), "{d}");
    }
    for v in ["a", "e", "i", "o", "u"] {
        assert!(is_start_vowel_cluster(v));
    }
    assert!(!is_start_vowel_cluster("y"));
    assert!(!is_start_vowel_cluster("ia"));
    assert!(!is_start_vowel_cluster(""));
}

#[test]
fn hyphens() {
    for h in ["r", "n", "y", "'y", "y'", "'y'"] {
        assert!(is_hyphen(h), "{h}");
    }
    for h in ["", "l", "yy", "''", "ry"] {
        assert!(!is_hyphen(h), "{h}");
    }
}

#[test]
fn triple_onsets_end_in_a_zihevla_initial() {
    let consonants = "bcdfgjklmnprstvxz";
    let mut found = 0;
    for x in consonants.chars() {
        for y in consonants.chars() {
            for z in consonants.chars() {
                let triple = format!("{x}{y}{z}");
                if jvot3::phonology::is_hard_onset(&triple) {
                    found += 1;
                    assert!(is_initial(&format!("{x}{y}")), "{triple}");
                    assert!(is_zihevla_initial(&format!("{y}{z}")), "{triple}");
                }
            }
        }
    }
    assert!(found > 0);
}

#[test]
fn zihevla_initials_are_initial() {
    for pair in ["bl", "br", "dr", "fl", "fr", "gl", "gr", "kl", "kr", "ml", "mr", "pl", "pr", "tr", "vl", "vr"] {
        assert!(is_initial(pair), "{pair}");
    }
}
