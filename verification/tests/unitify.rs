use std::collections::VecDeque;

use jvot3::jvofli::Jvofli::{
    Invalid, InvalidStressPosition, MisplacedApostrophe, NonLojbanCharacter, NotEnoughSyllables,
    OnglideInCluster, Slinkuhi, StressOnUnstressable, UnstressablePreBrivlaEnd,
    UnstressablePreBrivlaStart,
};
use jvot3::jvofli::What;
use jvot3::settings::Settings;
use jvot3::syllables::{Coda, Nucleus, Onset, Syllable};
use jvot3::units::unitify;
use jvot3::units::Unit::{Cmevla, Normal};

fn syl(onset: &str, nucleus: &str) -> Syllable {
    Syllable { onset: Onset::new(onset).unwrap(), nucleus: Nucleus::new(nucleus).unwrap(), coda: None }
}

fn syl_coda(onset: &str, nucleus: &str, coda: char) -> Syllable {
    Syllable {
        onset: Onset::new(onset).unwrap(),
        nucleus: Nucleus::new(nucleus).unwrap(),
        coda: Coda::new(coda),
    }
}

#[test]
fn lehigerku() {
    assert_eq!(
        unitify("le'igerku", Settings::cll()),
        Ok(vec![Normal {
            syllables: VecDeque::from([
                syl("l", "e"),
                syl("'", "i"),
                syl_coda("g", "é", 'r'),
                syl("k", "u")
            ]),
            pre_brivla_start: Some(2)
        }])
    );
}

#[test]
fn ianai() {
    assert_eq!(
        unitify("ianai", Settings::cll()),
        Ok(vec![Normal {
            syllables: VecDeque::from([syl("i", "a"), syl("n", "ai")]),
            pre_brivla_start: None
        }])
    );
}

#[test]
fn jehebzi() {
    assert_eq!(
        unitify("je'ebzi", Settings::cll()),
        Ok(vec![Normal {
            syllables: VecDeque::from([syl("j", "e"), syl_coda("'", "é", 'b'), syl("z", "i")]),
            pre_brivla_start: Some(0)
        }])
    );
}

#[test]
fn selojbonai() {
    assert_eq!(
        unitify("selojbonai", Settings::cll()),
        Ok(vec![Normal {
            syllables: VecDeque::from([
                syl("s", "e"),
                syl("l", "o"),
                syl("jb", "ó"),
                syl("n", "ai")
            ]),
            pre_brivla_start: Some(2)
        }])
    );
}
#[allow(non_snake_case)]
#[test]
fn selojbOnai() {
    assert_eq!(unitify("selojbónai", Settings::cll()), unitify("selojbonai", Settings::cll()));
}
#[test]
fn se_lojbonai() {
    assert_eq!(unitify("se lojbonai", Settings::cll()), unitify("selojbonai", Settings::cll()));
}
#[allow(non_snake_case)]
#[test]
fn selOjbonai() {
    assert_eq!(
        unitify("selójbonai", Settings::cll()),
        Ok(vec![
            Normal {
                syllables: VecDeque::from([syl("s", "e"), syl("l", "ó"), syl("jb", "o")]),
                pre_brivla_start: Some(1)
            },
            Normal { syllables: VecDeque::from([syl("n", "ai")]), pre_brivla_start: None }
        ])
    );
}
#[allow(non_snake_case)]
#[test]
fn sElojbonai() {
    assert_eq!(
        unitify("sélojbonai", Settings::cll()),
        Ok(vec![Normal {
            syllables: VecDeque::from([
                syl("s", "é"),
                syl("l", "o"),
                syl("jb", "ó"),
                syl("n", "ai")
            ]),
            pre_brivla_start: Some(2)
        }])
    );
}
#[allow(non_snake_case)]
#[test]
fn selojbonAi() {
    assert_eq!(
        unitify("selojbonái", Settings::cll()),
        Ok(vec![
            Normal {
                syllables: VecDeque::from([syl("s", "e"), syl("l", "ó"), syl("jb", "o")]),
                pre_brivla_start: Some(1)
            },
            Normal { syllables: VecDeque::from([syl("n", "ái")]), pre_brivla_start: None }
        ])
    );
}
#[allow(non_snake_case)]
#[test]
fn lOjbosElojbonai() {
    assert_eq!(
        unitify("lójbosélojbonai", Settings::cll()),
        Ok(vec![
            Normal {
                syllables: VecDeque::from([syl("l", "ó"), syl("jb", "o")]),
                pre_brivla_start: Some(0)
            },
            Normal {
                syllables: VecDeque::from([
                    syl("s", "é"),
                    syl("l", "o"),
                    syl("jb", "ó"),
                    syl("n", "ai")
                ]),
                pre_brivla_start: Some(2)
            }
        ])
    );
}
#[test]
fn xazdmru() {
    assert_eq!(
        unitify("xazdmru", Settings::cll()),
        Ok(vec![Normal {
            syllables: VecDeque::from([syl_coda("x", "á", 'z'), syl("d", "m"), syl("r", "u")]),
            pre_brivla_start: Some(0)
        }])
    );
}

#[test]
fn mi_do() {
    assert_eq!(
        unitify("mi do", Settings::cll()),
        Ok(vec![Normal {
            syllables: VecDeque::from([syl("m", "i"), syl("d", "o")]),
            pre_brivla_start: None
        }])
    );
}

#[test]
fn ciai() {
    assert_eq!(unitify("ciai", Settings::cll()), Err(OnglideInCluster('i')));
}

#[test]
fn bytygau() {
    assert_eq!(unitify("bytygau", Settings::cll()), Err(UnstressablePreBrivlaStart("by".into())));
}

#[test]
fn krtyvla() {
    assert_eq!(unitify("krtyvla", Settings::cll()), Err(UnstressablePreBrivlaStart("kr".into())));
}

#[test]
fn mi_ihe() {
    assert_eq!(
        unitify("mi i'e", Settings::cll()),
        Ok(vec![Normal { syllables: VecDeque::from([syl("m", "i")]), pre_brivla_start: None }, Normal {
            syllables: VecDeque::from([syl("", "i"), syl("'", "e")]),
            pre_brivla_start: None
        }])
    );
}

#[test]
fn ai_iicmo() {
    assert_eq!(
        unitify("ai iicmo", Settings::cll()),
        Ok(vec![Normal { syllables: VecDeque::from([syl("", "ai")]), pre_brivla_start: None }, Normal {
            syllables: VecDeque::from([syl("i", "í"), syl("cm", "o")]),
            pre_brivla_start: Some(0)
        }])
    );
}

#[test]
fn n() {
    assert_eq!(unitify("n", Settings::cll()), Ok(vec![Cmevla("n".into())]));
}

#[test]
fn an() {
    assert_eq!(unitify("an", Settings::cll()), Ok(vec![Cmevla("an".into())]));
}

#[test]
fn ha() {
    assert_eq!(unitify("'a", Settings::cll()), Err(MisplacedApostrophe { before: None, after: Some('a') }));
}

#[allow(non_snake_case)]
#[test]
fn lojbOnaiha() {
    assert_eq!(unitify("lojbónai'a", Settings::cll()), Err(InvalidStressPosition("jbó".into())));
}
#[allow(non_snake_case)]
#[test]
fn lojbOnaihabla() {
    assert_eq!(unitify("lojbónai'abla", Settings::cll()), Err(InvalidStressPosition("jbó".into())));
}

#[test]
fn zba() {
    assert_eq!(unitify("zba", Settings::cll()), Err(NotEnoughSyllables("zba".into())));
}

#[test]
fn fyha() {
    assert_eq!(
        unitify("fy'a", Settings::cll()),
        Ok(vec![Normal {
            syllables: VecDeque::from([syl("f", "y"), syl("'", "a")]),
            pre_brivla_start: None
        }])
    );
}
#[test]
fn fyhahe() {
    assert_eq!(
        unitify("fy'a'e", Settings::cll()),
        Ok(vec![Normal {
            syllables: VecDeque::from([syl("f", "y"), syl("'", "a"), syl("'", "e")]),
            pre_brivla_start: None
        }])
    );
}
#[test]
fn fryha() {
    assert_eq!(unitify("fry'a", Settings::cll()), Err(UnstressablePreBrivlaStart("fry".into())));
}
#[test]
fn fryhahe() {
    assert_eq!(unitify("fry'a'e", Settings::cll()), Err(UnstressablePreBrivlaStart("fry".into())));
}
#[test]
fn fryhable() {
    assert_eq!(unitify("fry'able", Settings::cll()), Err(UnstressablePreBrivlaStart("fry".into())));
}
#[test]
fn frtahe() {
    assert_eq!(unitify("frta'e", Settings::cll()), Err(UnstressablePreBrivlaStart("fr".into())));
}
#[test]
fn fytahe() {
    assert_eq!(unitify("fyta'e", Settings::cll()), Err(UnstressablePreBrivlaStart("fy".into())));
}
#[test]
fn frtable() {
    assert_eq!(unitify("frtable", Settings::cll()), Err(UnstressablePreBrivlaStart("fr".into())));
}
#[test]
fn pafrtahe() {
    assert_eq!(
        unitify("pafrta'e", Settings::cll()),
        Ok(vec![Normal {
            syllables: VecDeque::from([
                syl("p", "a"),
                syl("f", "r"),
                syl("t", "á"),
                syl("'", "e")
            ]),
            pre_brivla_start: Some(0)
        }])
    );
}
#[test]
fn pafrtable() {
    assert_eq!(
        unitify("pafrtable", Settings::cll()),
        Ok(vec![Normal {
            syllables: VecDeque::from([
                syl("p", "a"),
                syl("f", "r"),
                syl("t", "á"),
                syl("bl", "e")
            ]),
            pre_brivla_start: Some(0)
        }])
    );
}

#[allow(non_snake_case)]
#[test]
fn bAcrUda() {
    assert_eq!(
        unitify("bácrúda", Settings::cll()),
        Ok(vec![Normal {
            syllables: VecDeque::from([syl("b", "á"), syl("cr", "ú"), syl("d", "a")]),
            pre_brivla_start: Some(1)
        }])
    );
}
#[allow(non_snake_case)]
#[test]
fn bAcruda() {
    assert_eq!(
        unitify("bácruda", Settings::cll()),
        Ok(vec![
            Normal {
                syllables: VecDeque::from([syl("b", "á"), syl("cr", "u")]),
                pre_brivla_start: Some(0)
            },
            Normal { syllables: VecDeque::from([syl("d", "a")]), pre_brivla_start: None }
        ])
    );
}
#[allow(non_snake_case)]
#[test]
fn bAcrudArno() {
    assert_eq!(
        unitify("bácrudárno", Settings::cll()),
        Ok(vec![
            Normal {
                syllables: VecDeque::from([syl("b", "á"), syl("cr", "u")]),
                pre_brivla_start: Some(0)
            },
            Normal {
                syllables: VecDeque::from([syl_coda("d", "á", 'r'), syl("n", "o")]),
                pre_brivla_start: Some(0)
            }
        ])
    );
}

#[allow(non_snake_case)]
#[test]
fn mAlblAnu() {
    assert_eq!(unitify("málblánu", Settings::cll()), Err(InvalidStressPosition("mál".into())));
}

#[allow(non_snake_case)]
#[test]
fn cIcozvAtiti() {
    assert_eq!(
        unitify("cícozvátiti", Settings::cll()),
        Ok(vec![
            Normal {
                syllables: VecDeque::from([
                    syl("c", "í"),
                    syl("c", "o"),
                    syl("zv", "á"),
                    syl("t", "i")
                ]),
                pre_brivla_start: Some(2)
            },
            Normal { syllables: VecDeque::from([syl("t", "i")]), pre_brivla_start: None }
        ])
    );
}

#[allow(non_snake_case)]
#[test]
fn mAblanUtrocIcozvAtiti() {
    assert_eq!(
        unitify("máblanútrocícozvátiti", Settings::cll()),
        Ok(vec![
            Normal {
                syllables: VecDeque::from([syl("m", "á"), syl("bl", "a")]),
                pre_brivla_start: Some(0)
            },
            Normal {
                syllables: VecDeque::from([syl("n", "ú"), syl("tr", "o")]),
                pre_brivla_start: Some(0)
            },
            Normal {
                syllables: VecDeque::from([
                    syl("c", "í"),
                    syl("c", "o"),
                    syl("zv", "á"),
                    syl("t", "i")
                ]),
                pre_brivla_start: Some(2)
            },
            Normal { syllables: VecDeque::from([syl("t", "i")]), pre_brivla_start: None }
        ])
    );
}
#[allow(non_snake_case)]
#[test]
fn mAblAnu() {
    assert_eq!(
        unitify("máblánu", Settings::cll()),
        Ok(vec![Normal {
            syllables: VecDeque::from([syl("m", "á"), syl("bl", "á"), syl("n", "u")]),
            pre_brivla_start: Some(1)
        }])
    );
}

#[test]
fn mablaxekri() {
    assert_eq!(
        unitify("mablaxekri", Settings::cll()),
        Ok(vec![Normal {
            syllables: VecDeque::from([
                syl("m", "a"),
                syl("bl", "a"),
                syl("x", "é"),
                syl("kr", "i"),
            ]),
            pre_brivla_start: Some(1)
        }])
    );
}
#[test]
fn ma_blaxekri() {
    assert_eq!(unitify("ma blaxekri", Settings::cll()), unitify("mablaxekri", Settings::cll()));
}
#[allow(non_snake_case)]
#[test]
fn mAblaxekri() {
    assert_eq!(
        unitify("máblaxekri", Settings::cll()),
        Ok(vec![
            Normal {
                syllables: VecDeque::from([syl("m", "á"), syl("bl", "a")]),
                pre_brivla_start: Some(0)
            },
            Normal {
                syllables: VecDeque::from([syl("x", "é"), syl("kr", "i")]),
                pre_brivla_start: Some(0)
            }
        ])
    );
}
#[allow(non_snake_case)]
#[test]
fn mA_blaxekri() {
    assert_eq!(
        unitify("má blaxekri", Settings::cll()),
        Ok(vec![
            Normal { syllables: VecDeque::from([syl("m", "á")]), pre_brivla_start: None },
            Normal {
                syllables: VecDeque::from([syl("bl", "a"), syl("x", "é"), syl("kr", "i")]),
                pre_brivla_start: Some(0)
            }
        ])
    );
}
#[allow(non_snake_case)]
#[test]
fn mA_bla() {
    assert_eq!(unitify("má bla", Settings::cll()), Err(NotEnoughSyllables("bla".into())));
}
#[allow(non_snake_case)]
#[test]
fn mAba() {
    assert_eq!(
        unitify("mába", Settings::cll()),
        Ok(vec![Normal {
            syllables: VecDeque::from([syl("m", "á"), syl("b", "a")]),
            pre_brivla_start: None
        }])
    );
}
#[allow(non_snake_case)]
#[test]
fn mA_ba() {
    assert_eq!(unitify("má ba", Settings::cll()), unitify("mába", Settings::cll()));
}
#[allow(non_snake_case)]
#[test]
fn mAbA() {
    assert_eq!(
        unitify("mábá", Settings::cll()),
        Ok(vec![Normal {
            syllables: VecDeque::from([syl("m", "á"), syl("b", "á")]),
            pre_brivla_start: None
        }])
    );
}
#[allow(non_snake_case)]
#[test]
fn mA_bA() {
    assert_eq!(unitify("má bá", Settings::cll()), unitify("mábá", Settings::cll()));
}

#[allow(non_snake_case)]
#[test]
fn mInelcido() {
    assert_eq!(
        unitify("mínelcido", Settings::cll()),
        Ok(vec![Normal {
            syllables: VecDeque::from([
                syl("m", "í"),
                syl_coda("n", "e", 'l'),
                syl("c", "í"),
                syl("d", "o"),
            ]),
            pre_brivla_start: Some(1)
        }])
    );
}
#[allow(non_snake_case)]
#[test]
fn mI_nelcido() {
    assert_eq!(unitify("mí nelcido", Settings::cll()), unitify("mínelcido", Settings::cll()));
}

#[test]
fn bangy() {
    assert_eq!(unitify("bangy", Settings::cll()), Err(UnstressablePreBrivlaEnd("gy".into())));
}
#[test]
fn vragy() {
    assert_eq!(unitify("vragy", Settings::cll()), Err(UnstressablePreBrivlaEnd("gy".into())));
}

#[test]
fn mi1() {
    assert_eq!(unitify("mi1", Settings::cll()), Err(NonLojbanCharacter('1')));
}

#[test]
fn akkan() {
    assert_eq!(unitify("akkan", Settings::cll()), Err(Invalid { what: What::Cluster, value: "kk".into() }));
}
#[test]
fn aan() {
    assert_eq!(unitify("aan", Settings::cll()), Err(Invalid { what: What::Nucleus, value: "aa".into() }));
}
#[test]
fn ahhan() {
    assert_eq!(
        unitify("a''an", Settings::cll()),
        Err(MisplacedApostrophe { before: Some('a'), after: Some('\'') })
    );
}

#[test]
fn blahi() {
    assert_eq!(unitify("bla'i", Settings::cll()), Err(Slinkuhi("bla'i".into())));
}

#[allow(non_snake_case)]
#[test]
fn Iafak() {
    // non cmevla results in "{ía} is not a valid nucleus" instead
    assert_eq!(unitify("íafak", Settings::cll()), Err(StressOnUnstressable("í".into())));
}
