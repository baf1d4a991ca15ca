use heshun::algebra::Algebra;
use heshun::pinyin::PinyinDict;
use heshun::projection::{format_preedit, project_full_pinyin, SpellingProjection};
use heshun::zrm::ZrmMap;

fn dict() -> PinyinDict {
    let mut dict = PinyinDict::from_entries(vec![
        ("zhong".into(), "中".into(), 100),
        ("guo".into(), "国".into(), 100),
    ]);
    let alg = Algebra::natural_code();
    dict = dict.with_zrm(ZrmMap::build(&["zhong".into(), "guo".into()], &alg));
    dict
}

#[test]
fn full_and_double_pinyin_share_projection_api() {
    let full = PinyinDict::from_entries(vec![("zhongguo".into(), "中国".into(), 100)]);
    assert_eq!(SpellingProjection::from_dict(&full).lookup("zhongguo"), "zhongguo");
    assert_eq!(SpellingProjection::from_dict(&dict()).lookup("vsgo"), "zhongguo");
}

#[test]
fn double_pinyin_display_keeps_incomplete_tail() {
    let d = dict();
    assert_eq!(format_preedit(&d, "vsg", 3), ("zhong'g".into(), 7));
}

#[test]
fn full_projection_records_ranges_and_boundaries() {
    let p = project_full_pinyin("zhong'guo");
    assert_eq!(p.input, "zhongguo");
    assert_eq!(p.original_ranges[0], (0, 1));
    assert_eq!(p.original_ranges[5], (6, 7));
    assert_eq!(p.delimiter_boundaries, vec![5]);
}

#[test]
fn double_projection_maps_pairs() {
    let d = dict();
    let proj = SpellingProjection::from_dict(&d);
    assert!(proj.is_double_pinyin());
    let p = proj.project("vs'go");
    assert_eq!(p.input, "zhongguo");
    assert_eq!(p.original_ranges[0], (0, 2));
    assert_eq!(p.original_ranges[5], (3, 5));
    assert_eq!(p.delimiter_boundaries, vec![5]);
    assert_eq!(proj.display("vsg"), "zhongg");
}

#[test]
fn full_projection_ranges_are_byte_ranges_per_byte() {
    let p = project_full_pinyin("中 ü'a");
    assert_eq!(p.input, "中üa");
    assert_eq!(p.original_ranges, vec![(0, 3), (0, 3), (0, 3), (4, 6), (4, 6), (7, 8)]);
    assert_eq!(p.delimiter_boundaries, vec![3, 5]);
}
