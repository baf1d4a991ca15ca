use heshun::algebra::{xlit, Algebra};

#[test]
fn test_xlit() {
    assert_eq!(xlit("abcABC", "abc", "xyz"), "xyzABC");
    assert_eq!(xlit("hello", "a", "b"), "hello");
}

#[test]
fn test_parse_xform() {
    let rules = Algebra::from_strings(&["xform/iu$/Q/".into(), "xform/^zh/V/".into()]).unwrap();
    assert_eq!(rules.rules().len(), 2);
    assert_eq!(rules.transform("jiu"), "jQ");
    assert_eq!(rules.transform("zhong"), "Vong");
}

#[test]
fn test_parse_erase() {
    let rules = Algebra::from_strings(&["erase/^xx$/".into()]).unwrap();
    assert_eq!(rules.transform("xx"), "");
    assert_eq!(rules.transform("xi"), "xi");
}

#[test]
fn test_parse_derive() {
    let rules = Algebra::from_strings(&["derive/^([nl])ue$/$1ve/".into()]).unwrap();
    let derivs = rules.derivations("nue");
    assert!(derivs.contains(&"nve".to_string()));
}

#[test]
fn test_parse_abbrev() {
    let rules = Algebra::from_strings(&["abbrev/^([a-z]).+$/$1/".into()]).unwrap();
    let abbrs = rules.abbreviations("zhong");
    assert_eq!(abbrs, vec!["z"]);
}

#[test]
fn test_xform_with_capture() {
    let rules = Algebra::from_strings(&["xform/(.)en$/$1F/".into()]).unwrap();
    assert_eq!(rules.transform("ben"), "bF");
    assert_eq!(rules.transform("zhen"), "zhF");
}

#[test]
fn test_xlit_rule() {
    let rules = Algebra::from_strings(&["xlit/abc/xyz/".into()]).unwrap();
    assert_eq!(rules.transform("abc"), "xyz");
}

#[test]
fn test_double_pinyin_sample() {
    let rules = Algebra::from_strings(&[
        "erase/^xx$/".into(),
        "derive/^([jqxy])u$/$1v/".into(),
        "derive/^([aoe])([ioun])$/$1$1$2/".into(),
        "xform/^([aoe])(ng)?$/$1$1$2/".into(),
        "xform/iu$/Q/".into(),
        "xform/[iu]a$/W/".into(),
        "xform/[uv]an$/R/".into(),
        "xform/[uv]e$/T/".into(),
        "xform/ing$|uai$/Y/".into(),
        "xform/^sh/U/".into(),
        "xform/^ch/I/".into(),
        "xform/^zh/V/".into(),
        "xform/uo$/O/".into(),
    ])
    .unwrap();
    assert_eq!(rules.transform("zhong"), "Vong");
}

#[test]
fn test_full_natural_double_pinyin() {
    let rules = Algebra::from_strings(&[
        "erase/^xx$/".into(),
        "derive/^([jqxy])u$/$1v/".into(),
        "derive/^([aoe])([ioun])$/$1$1$2/".into(),
        "xform/^([aoe])(ng)?$/$1$1$2/".into(),
        "xform/iu$/Q/".into(),
        "xform/[iu]a$/W/".into(),
        "xform/[uv]an$/R/".into(),
        "xform/[uv]e$/T/".into(),
        "xform/ing$|uai$/Y/".into(),
        "xform/^sh/U/".into(),
        "xform/^ch/I/".into(),
        "xform/^zh/V/".into(),
        "xform/uo$/O/".into(),
        "xform/[uv]n$/P/".into(),
        "xform/i?ong$/S/".into(),
        "xform/[iu]ang$/D/".into(),
        "xform/(.)en$/$1F/".into(),
        "xform/(.)eng$/$1G/".into(),
        "xform/(.)ang$/$1H/".into(),
        "xform/ian$/M/".into(),
        "xform/(.)an$/$1J/".into(),
        "xform/iao$/C/".into(),
        "xform/(.)ao$/$1K/".into(),
        "xform/(.)ai$/$1L/".into(),
        "xform/(.)ei$/$1Z/".into(),
        "xform/ie$/X/".into(),
        "xform/ui$/V/".into(),
        "xform/(.)ou$/$1B/".into(),
        "xform/in$/N/".into(),
        "xlit/QWRTYUIOPSDFGHMJCKLZXVBN/qwrtyuiopsdfghmjcklzxvbn/".into(),
    ])
    .unwrap();
    let result = rules.transform("zhong");
    assert_eq!(result, "vs", "zhong → vs");
    assert_eq!(rules.transform("guo"), "go", "guo → go");
    assert_eq!(rules.transform("shu"), "uu", "shu → uu");
    assert_eq!(rules.transform("ru"), "ru", "ru → ru");
}

#[test]
fn unknown_rule_kind_is_an_error() {
    assert!(Algebra::from_strings(&["fuzz/a/b/".into()]).is_err());
    assert!(Algebra::from_strings(&["xform/(/x/".into()]).is_err());
}

#[test]
fn empty_algebra_is_identity() {
    let rules = Algebra::new();
    assert!(rules.is_empty());
    assert_eq!(rules.transform("zhong"), "zhong");
    assert_eq!(rules.derivations("zhong"), vec!["zhong".to_string()]);
}

#[test]
fn natural_code_maps_zhong() {
    let rules = Algebra::natural_code();
    assert_eq!(rules.transform("zhong"), "vs");
}
