use heshun::algebra::Algebra;
use heshun::zrm::ZrmMap;

#[test]
fn build_and_lookup() {
    let alg = Algebra::natural_code();
    let sylls = ["zhong".to_string(), "guo".to_string(), "shu".to_string(), "wo".to_string()];
    let map = ZrmMap::build(&sylls, &alg);
    assert!(map.len() >= 4);
    assert_eq!(map.lookup("vs"), Some("zhong"));
    assert_eq!(map.lookup("go"), Some("guo"));
    assert_eq!(map.lookup("uu"), Some("shu"));
    assert_eq!(map.lookup("wo"), Some("wo"));
}

#[test]
fn to_pinyin_sequence() {
    let alg = Algebra::natural_code();
    let sylls = ["zhong".to_string(), "guo".to_string()];
    let map = ZrmMap::build(&sylls, &alg);
    assert_eq!(map.to_pinyin("vsgo"), "zhongguo");
    assert_eq!(map.to_pinyin("vs"), "zhong");
}

#[test]
fn zrm_save_load_roundtrip() {
    let alg = Algebra::natural_code();
    let sylls = ["zhong".to_string(), "guo".to_string(), "shu".to_string()];
    let map = ZrmMap::build(&sylls, &alg);
    let mut buf = Vec::new();
    map.save(&mut buf).unwrap();
    let map2 = ZrmMap::load(&buf).unwrap();
    assert_eq!(map2.len(), map.len());
    assert_eq!(map2.lookup("vs"), Some("zhong"));
    assert_eq!(map2.lookup("go"), Some("guo"));
}

#[test]
fn zero_initial_syllables() {
    let alg = Algebra::natural_code();
    let sylls = ["a".to_string(), "o".to_string(), "e".to_string(), "ang".to_string(), "er".to_string()];
    let map = ZrmMap::build(&sylls, &alg);
    assert_eq!(map.lookup("aa"), Some("a"));
    assert_eq!(map.lookup("oo"), Some("o"));
    assert_eq!(map.lookup("ee"), Some("e"));
    assert_eq!(map.lookup("ah"), Some("ang"));
    assert_eq!(map.lookup("er"), Some("er"));
}

#[test]
fn unknown_keys_and_display() {
    let alg = Algebra::natural_code();
    let map = ZrmMap::build(&["zhong".to_string(), "guo".to_string()], &alg);
    assert_eq!(map.lookup("qq"), None);
    assert_eq!(map.to_pinyin_display("vsg"), "zhongg");
    assert!(map.accepts_key_char('v'));
    assert!(!map.accepts_key_char('1'));
}

#[test]
fn zrm_load_rejects_garbage() {
    assert!(ZrmMap::load(b"ZRM").is_err());
    assert!(ZrmMap::load(&[0u8; 12]).is_err());
}

#[test]
fn zrm_load_sorts_mappings_and_rejects_repeated_keys() {
    let alg = Algebra::natural_code();
    let sylls = ["zhong".to_string(), "guo".to_string(), "shu".to_string()];
    let map = ZrmMap::build(&sylls, &alg);
    let mut buf = Vec::new();
    map.save(&mut buf).unwrap();
    let last = map.len() - 1;
    let mut swapped = buf.clone();
    for k in 0..12 {
        swapped[16 + k] = buf[16 + last * 12 + k];
        swapped[16 + last * 12 + k] = buf[16 + k];
    }
    let map2 = ZrmMap::load(&swapped).unwrap();
    assert_eq!(map2.len(), map.len());
    assert_eq!(map2.lookup("vs"), Some("zhong"));
    assert_eq!(map2.lookup("go"), Some("guo"));
    assert_eq!(map2.lookup("uu"), Some("shu"));
    let mut repeated = buf.clone();
    for k in 0..12 {
        repeated[16 + k] = buf[16 + last * 12 + k];
    }
    assert!(ZrmMap::load(&repeated).is_err());
}
