use heshun::dict::{decode_code, encode_code, Dict};

#[test]
fn encode_decode_roundtrip() {
    for s in ["a", "aa", "jivv", "zzzz", "abcd"] {
        let v = encode_code(s).unwrap();
        assert_eq!(decode_code(v), s, "{s}");
    }
    assert!(encode_code("").is_none());
    assert!(encode_code("abcde").is_none());
    assert!(encode_code("aB").is_none());
    assert!(encode_code("a1").is_none());
}

#[test]
fn prefix_order_and_range() {
    let va = encode_code("a").unwrap();
    let vaa = encode_code("aa").unwrap();
    let vb = encode_code("b").unwrap();
    let shift = 27u32.pow(3);
    assert!(vaa >= va && vaa < va + shift);
    assert!(vb >= va + shift);
}

#[test]
fn exact_and_prefix() {
    let d = Dict::from_entries(vec![
        (encode_code("j").unwrap(), "中".into()),
        (encode_code("jivv").unwrap(), "中".into()),
        (encode_code("ji").unwrap(), "虫".into()),
        (encode_code("aa").unwrap(), "一下".into()),
    ]);
    assert_eq!(d.exact("j").len(), 1);
    assert_eq!(d.exact("jivv")[0].word, "中");
    let p = d.prefix("j", 0);
    assert_eq!(p.len(), 3);
    assert_eq!(p[0].code, "j");
    assert!(d.exact("zz").is_empty());
}

#[test]
fn dict_save_load_roundtrip() {
    let d = Dict::from_entries(vec![
        (encode_code("a").unwrap(), "一".into()),
        (encode_code("aa").unwrap(), "一下".into()),
    ]);
    let mut buf = Vec::new();
    d.save(&mut buf).unwrap();
    let d2 = Dict::load(&buf).unwrap();
    assert_eq!(d2.len(), 2);
    assert_eq!(d2.exact("a")[0].word, "一");
    assert_eq!(d2.exact("aa")[0].word, "一下");
}

#[test]
fn encode_code_values_are_base_27() {
    assert_eq!(encode_code("a"), Some(27u32.pow(3)));
    assert_eq!(encode_code("ab"), Some(27u32.pow(3) + 2 * 27u32.pow(2)));
    assert_eq!(decode_code(0), "");
}

#[test]
fn prefix_limit_keeps_first_matches() {
    let d = Dict::from_entries(vec![
        (encode_code("j").unwrap(), "中".into()),
        (encode_code("jivv").unwrap(), "中".into()),
        (encode_code("ji").unwrap(), "虫".into()),
    ]);
    let p = d.prefix("j", 2);
    assert_eq!(p.len(), 2);
    assert_eq!(p[0].code, "j");
    assert_eq!(p[1].code, "ji");
}

#[test]
fn codes_for_word_lists_every_code() {
    let d = Dict::from_entries(vec![
        (encode_code("j").unwrap(), "中".into()),
        (encode_code("jivv").unwrap(), "中".into()),
        (encode_code("ji").unwrap(), "虫".into()),
    ]);
    assert_eq!(d.codes_for_word("中"), vec!["j".to_string(), "jivv".to_string()]);
    assert!(d.codes_for_word("无").is_empty());
}

#[test]
fn load_rejects_bad_magic_and_truncation() {
    assert!(Dict::load(&[0u8; 4]).is_err());
    let d = Dict::from_entries(vec![(encode_code("a").unwrap(), "一".into())]);
    let mut buf = Vec::new();
    d.save(&mut buf).unwrap();
    let mut bad = buf.clone();
    bad[0] ^= 0xff;
    assert!(Dict::load(&bad).is_err());
    assert!(Dict::load(&buf[..buf.len() - 1]).is_err());
}

#[test]
fn table_load_sorts_records_written_out_of_order() {
    let d = Dict::from_entries(vec![
        (encode_code("a").unwrap(), "一".into()),
        (encode_code("aa").unwrap(), "一下".into()),
        (encode_code("b").unwrap(), "不".into()),
    ]);
    let mut buf = Vec::new();
    d.save(&mut buf).unwrap();
    let mut swapped = buf.clone();
    for k in 0..10 {
        swapped[16 + k] = buf[16 + 2 * 10 + k];
        swapped[16 + 2 * 10 + k] = buf[16 + k];
    }
    let d2 = Dict::load(&swapped).unwrap();
    assert_eq!(d2.len(), 3);
    assert_eq!(d2.exact("a")[0].word, "一");
    assert_eq!(d2.exact("aa")[0].word, "一下");
    assert_eq!(d2.exact("b")[0].word, "不");
}

#[test]
fn decode_code_past_four_letters_writes_the_lead_byte() {
    assert_eq!(decode_code(27 * 19683), "{");
    assert_eq!(decode_code(31 * 19683 + 729 + 27 + 1), "\u{7f}aaa");
    assert_eq!(decode_code(32 * 19683 + 2 * 729), "\u{FFFD}b");
    assert_eq!(decode_code(257 * 19683), "a");
}
