use jvot3::prewords::{is_some_cmavo, mark_glides, syllabify};
use jvot3::settings::Settings;

#[test]
fn plukauaii_ok() {
    assert_eq!(mark_glides("plukauaii"), Ok("plukawaqi".to_string()));
}

#[test]
fn u12_ok() {
    assert_eq!(mark_glides("uuuuuuuuuuuu"), Ok("wuwuwuwuwuwu".to_string()));
}

#[test]
fn u13_ok() {
    assert_eq!(mark_glides("uuuuuuuuuuuuu"), Ok("uwuwuwuwuwuwu".to_string()));
}

#[test]
fn auia_ok() {
    assert_eq!(mark_glides("auia"), Ok("aŭqa".to_string()));
}

#[test]
fn aiia_err() {
    let res = mark_glides("aiia");
    assert!(res.is_err(), "{res:?}");
}

#[test]
fn eu_err() {
    let res = mark_glides("eu");
    assert!(res.is_err(), "{res:?}");
}

#[test]
fn eua_ok() {
    assert_eq!(mark_glides("eua"), Ok("ewa".to_string()));
}

#[test]
fn latkerlo_ok() {
    assert_eq!(syllabify("latkerlo"), Ok(vec!["lat".to_string(), "ker".to_string(), "lo".to_string()]));
}

#[test]
fn sakprtlfmsngeha_ok() {
    assert_eq!(syllabify("sakprtlfmsnge'a"), Ok(vec!["sak".to_string(), "pr".to_string(), "tl".to_string(), "fm".to_string(), "sn".to_string(), "ge".to_string(), "'a".to_string()]));
}

#[test]
fn glek_ok() {
    assert_eq!(syllabify("glek"), Ok(vec!["glek".to_string()]));
}

#[test]
fn apba_err() {
    let res = syllabify("apba");
    assert!(res.is_err(), "{res:?}");
}

#[test]
fn apqa_err() {
    let res = syllabify("apqa");
    assert!(res.is_err(), "{res:?}");
}

#[test]
fn apyb_ok() {
    assert_eq!(syllabify("apyb"), Ok(vec!["a".to_string(), "pyb".to_string()]));
}

#[test]
fn apb_err() {
    let res = syllabify("apb");
    assert!(res.is_err(), "{res:?}");
}

#[test]
fn aplbra_ok() {
    assert_eq!(syllabify("aplbra"), Ok(vec!["a".to_string(), "pl".to_string(), "bra".to_string()]));
}

#[test]
fn aplua_err() {
    let res = syllabify("aplua");
    assert!(res.is_err(), "{res:?}");
}

#[test]
fn an_ok() {
    assert_eq!(syllabify("an"), Ok(vec!["an".to_string()]));
}

#[test]
fn ant_err() {
    let res = syllabify("ant");
    assert!(res.is_err(), "{res:?}");
}

#[test]
fn antka_err() {
    let res = syllabify("antka");
    assert!(res.is_err(), "{res:?}");
}

#[test]
fn cipnrstrigi_ok() {
    assert_eq!(syllabify("cipnrstrigi"), Ok(vec!["cip".to_string(), "nr".to_string(), "stri".to_string(), "gi".to_string()]));
}

#[test]
fn apcnli_ok() {
    assert_eq!(syllabify("apcnli"), Ok(vec!["ap".to_string(), "cn".to_string(), "li".to_string()]));
}

#[test]
fn nondza_err() {
    let res = syllabify("nondza");
    assert!(res.is_err(), "{res:?}");
}

#[test]
fn djarrspageti_err() {
    let res = syllabify("djarrspageti");
    assert!(res.is_err(), "{res:?}");
}

#[test]
fn ivllava_err() {
    let res = syllabify("ivllava");
    assert!(res.is_err(), "{res:?}");
}

#[test]
fn iesai_ok() {
    let settings: Settings = "x".parse().unwrap();
    assert!(is_some_cmavo("iesai", &settings));
}

#[test]
fn pahe_ok() {
    let settings: Settings = "x".parse().unwrap();
    assert!(is_some_cmavo("pa'e", &settings));
}

#[test]
fn yhy_ok() {
    let settings: Settings = "x".parse().unwrap();
    assert!(is_some_cmavo("y'y", &settings));
}

#[test]
fn anba_err() {
    let settings: Settings = "x".parse().unwrap();
    assert!(!is_some_cmavo("anba", &settings));
}

#[test]
fn bycydyfy_cll_ok() {
    let settings: Settings = "x".parse().unwrap();
    assert!(is_some_cmavo("bycydyfy", &settings));
}

#[test]
fn bycydyfy_r_ok() {
    let settings: Settings = "r".parse().unwrap();
    assert!(is_some_cmavo("bycydyfy", &settings));
}

#[test]
fn tehynahy_cll_ok() {
    let settings: Settings = "x".parse().unwrap();
    assert!(is_some_cmavo("te'yna'y", &settings));
}

#[test]
fn tehynahy_r_ok() {
    let settings: Settings = "r".parse().unwrap();
    assert!(is_some_cmavo("te'yna'y", &settings));
}

#[test]
fn bynahy_cll_err() {
    let settings: Settings = "x".parse().unwrap();
    assert!(!is_some_cmavo("byna'y", &settings));
}

#[test]
fn bynahy_r_ok() {
    let settings: Settings = "r".parse().unwrap();
    assert!(is_some_cmavo("byna'y", &settings));
}

#[test]
fn bavyteikehu_cll_err() {
    let settings: Settings = "x".parse().unwrap();
    assert!(!is_some_cmavo("bavyteike'u", &settings));
}

#[test]
fn bavyteikehu_r_err() {
    let settings: Settings = "r".parse().unwrap();
    assert!(!is_some_cmavo("bavyteike'u", &settings));
}

#[test]
fn bahyteikehu_cll_ok() {
    let settings: Settings = "x".parse().unwrap();
    assert!(is_some_cmavo("ba'yteike'u", &settings));
}

#[test]
fn bahyteikehu_r_err() {
    let settings: Settings = "r".parse().unwrap();
    assert!(!is_some_cmavo("ba'yteike'u", &settings));
}

#[test]
fn zihybalvi_cll_err() {
    let settings: Settings = "x".parse().unwrap();
    assert!(!is_some_cmavo("zi'ybalvi", &settings));
}

#[test]
fn zihybalvi_r_err() {
    let settings: Settings = "r".parse().unwrap();
    assert!(!is_some_cmavo("zi'ybalvi", &settings));
}
