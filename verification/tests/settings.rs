use jvot3::settings::{settings_label, HyphenSetting, Settings};

fn fields(s: Settings) -> (bool, HyphenSetting, bool, bool, bool) {
    (s.generate_cmevla, s.hyphens, s.arbitrary_cmavo_rafsi, s.allow_mz, s.no_slinkuhi)
}

#[test]
fn cll_settings_are_all_off() {
    assert_eq!(fields(Settings::cll()), (false, HyphenSetting::Standard, false, false, false));
}

#[test]
fn permissive_is_arz() {
    assert_eq!(fields(Settings::permissive()), (false, HyphenSetting::AllowY, true, true, false));
    let arz = Settings::from_flags("Arz").unwrap();
    assert_eq!(fields(arz), fields(Settings::permissive()));
}

#[test]
fn each_flag() {
    assert!(Settings::from_flags("c").unwrap().generate_cmevla);
    assert!(Settings::from_flags("r").unwrap().arbitrary_cmavo_rafsi);
    assert!(Settings::from_flags("z").unwrap().allow_mz);
    assert!(Settings::from_flags("n").unwrap().no_slinkuhi);
    assert_eq!(Settings::from_flags("A").unwrap().hyphens, HyphenSetting::AllowY);
    assert_eq!(Settings::from_flags("F").unwrap().hyphens, HyphenSetting::ForceY);
    assert_eq!(Settings::from_flags("FS").unwrap().hyphens, HyphenSetting::Standard);
    assert_eq!(Settings::from_flags("").map(fields), Some(fields(Settings::cll())));
}

#[test]
fn toggles_undo_themselves() {
    for f in ["cc", "rr", "zz", "nn", "AA", "FF"] {
        assert_eq!(Settings::from_flags(f).map(fields), Some(fields(Settings::cll())), "{f}");
    }
    let mut s = Settings::permissive();
    assert_eq!(s.apply_flags("zz"), Some(()));
    assert_eq!(fields(s), fields(Settings::permissive()));
    assert_eq!(s.apply_flags("AA"), Some(()));
    assert_eq!(fields(s), fields(Settings::permissive()));
}

#[test]
fn hyphen_flags_switch_between_each_other() {
    assert_eq!(Settings::from_flags("AF").unwrap().hyphens, HyphenSetting::ForceY);
    assert_eq!(Settings::from_flags("FA").unwrap().hyphens, HyphenSetting::AllowY);
}

#[test]
fn x_resets() {
    assert_eq!(Settings::from_flags("ArzcnFx").map(fields), Some(fields(Settings::cll())));
    let mut s = Settings::permissive();
    assert_eq!(s.apply_flags("x"), Some(()));
    assert_eq!(fields(s), fields(Settings::cll()));
    assert_eq!(Settings::from_flags("xc").unwrap().generate_cmevla, true);
}

#[test]
fn unknown_flag_is_refused_and_changes_nothing() {
    assert!(Settings::from_flags("q").is_none());
    assert!(Settings::from_flags("Arq").is_none());
    let mut s = Settings::cll();
    assert_eq!(s.apply_flags("cz?"), None);
    assert_eq!(fields(s), fields(Settings::cll()));
}

#[test]
fn settings_parse_from_str() {
    let s: Settings = "Arz".parse().unwrap();
    assert_eq!(fields(s), fields(Settings::permissive()));
    assert!("k".parse::<Settings>().is_err());
}

#[test]
fn labels() {
    assert_eq!(settings_label(Settings::cll()), "");
    assert_eq!(settings_label(Settings::permissive()), "allow-y arbitrary-cmavo-rafsi allow-mz");
    assert_eq!(settings_label(Settings::from_flags("F").unwrap()), "force-y");
    assert_eq!(settings_label(Settings::from_flags("c").unwrap()), "generate-cmevla");
    assert_eq!(
        settings_label(Settings::from_flags("cnFrz").unwrap()),
        "force-y generate-cmevla arbitrary-cmavo-rafsi allow-mz no-slinku'i"
    );
}
