use heshun::source::{decode_source, front_matter_end, lines_of, pinyin_source, table_source, trim_chars};

fn s(v: &[char]) -> String {
    v.iter().collect()
}

#[test]
fn decode_source_handles_boms() {
    let mut utf8 = vec![0xEF, 0xBB, 0xBF];
    utf8.extend_from_slice("中a".as_bytes());
    assert_eq!(decode_source(&utf8).unwrap(), "中a");
    let le: Vec<u8> = vec![0xFF, 0xFE, 0x2D, 0x4E, 0x61, 0x00];
    assert_eq!(decode_source(&le).unwrap(), "中a");
    let be: Vec<u8> = vec![0xFE, 0xFF, 0x4E, 0x2D, 0x00, 0x61];
    assert_eq!(decode_source(&be).unwrap(), "中a");
    let pair: Vec<u8> = vec![0xFF, 0xFE, 0x3D, 0xD8, 0x00, 0xDE];
    assert_eq!(decode_source(&pair).unwrap(), "\u{1F600}");
    assert!(decode_source(&[0xFF, 0xFE, 0x00, 0xD8]).is_err());
    assert!(decode_source(&[0xC3, 0x28]).is_err());
}

#[test]
fn lines_and_trim_follow_str() {
    let text = "a\r\n\nb \t\nc";
    let ls: Vec<String> = lines_of(text).iter().map(|l| s(l)).collect();
    let expected: Vec<String> = text.lines().map(|l| l.to_string()).collect();
    assert_eq!(ls, expected);
    assert_eq!(lines_of("x\n").len(), 1);
    assert!(lines_of("").is_empty());
    let t: Vec<char> = " \u{3000}码 表\t".chars().collect();
    assert_eq!(s(&trim_chars(&t)), " \u{3000}码 表\t".trim());
}

#[test]
fn table_source_counts_skipped_lines() {
    let text = "a\t一\n\nab\t丁\nzzzzz\t错\nb\t\u{e000}\nc\n1a\t二\n";
    let r = table_source(text);
    assert_eq!(r.entries.len(), 2);
    assert_eq!(r.entries[0].1, "一");
    assert_eq!(r.entries[1].1, "丁");
    assert_eq!(r.private_use, 1);
    assert_eq!(r.skipped, 3);
    assert_eq!(r.invalid, vec![(4, "zzzzz".to_string()), (7, "1a".to_string())]);
}

#[test]
fn pinyin_source_skips_front_matter() {
    let text = "# comment\n---\nname: x\n...\n中\tzhong\t100%\n国\tguo\n\t\n中国\tzhong guo\t5\n";
    let ls = lines_of(text);
    assert_eq!(front_matter_end(&ls), 4);
    let r = pinyin_source(text);
    assert_eq!(
        r.entries,
        vec![
            ("zhong".to_string(), "中".to_string(), "100%".to_string()),
            ("guo".to_string(), "国".to_string(), String::new()),
            ("zhong guo".to_string(), "中国".to_string(), "5".to_string()),
        ]
    );
    assert_eq!(r.skipped, 0);
    assert_eq!(r.syllables, vec!["zhong", "guo", "zhong", "guo"]);
    let plain = pinyin_source("我\two\n\tx\n");
    assert_eq!(plain.entries.len(), 1);
    assert_eq!(plain.skipped, 1);
}
