use photo_tagger::files::{force_reclassify_enabled, is_image};
use photo_tagger::prompt::{
    batch_prompt, extract_json_array, extract_json_object, group_prompt, has_json_part,
    material_prompt,
};
use photo_tagger::text::{chars_of, string_of};
use photo_tagger::timestamp::{parse_photo_timestamp, read_stamp_fields};

#[test]
fn parse_timestamp_from_filename() {
    let ts = parse_photo_timestamp("20260211_235409.jpg").unwrap();
    assert!(ts > 0);
}

#[test]
fn timestamps_are_seconds_in_utc() {
    assert_eq!(parse_photo_timestamp("20260211_235409.jpg"), Some(1770854049));
    assert_eq!(parse_photo_timestamp("19700101_000000.jpg"), Some(0));
    assert_eq!(parse_photo_timestamp("20150515_000000"), Some(1431648000));
    assert_eq!(parse_photo_timestamp("20150515_000000_2.x.jpg"), Some(1431648000));
    assert_eq!(parse_photo_timestamp("19691231_235959.png"), Some(-1));
}

#[test]
fn timestamps_need_a_date_and_a_time() {
    assert_eq!(parse_photo_timestamp(""), None);
    assert_eq!(parse_photo_timestamp("20260211.jpg"), None);
    assert_eq!(parse_photo_timestamp("20260211_2354.jpg"), None);
    assert_eq!(parse_photo_timestamp("2026021_1235409.jpg"), None);
    assert_eq!(parse_photo_timestamp("20260230_235409.jpg"), None);
    assert_eq!(parse_photo_timestamp("20260211_245409.jpg"), None);
    assert_eq!(parse_photo_timestamp("20260211_23540a.jpg"), None);
    assert_eq!(parse_photo_timestamp("2026.0211_235409"), None);
    assert_eq!(parse_photo_timestamp("IMG_0001.jpg"), None);
    assert_eq!(read_stamp_fields("+026+2+1_+3+4+9"), Some((26, 2, 1, 3, 4, 9)));
    assert_eq!(read_stamp_fields("-0260211_235409"), Some((-26, 2, 11, 23, 54, 9)));
    assert_eq!(read_stamp_fields("2026-211_235409"), None);
    assert_eq!(read_stamp_fields("20260211_235409"), Some((2026, 2, 11, 23, 54, 9)));
}

#[test]
fn images_by_extension() {
    assert!(is_image(Some("jpg")));
    assert!(is_image(Some("JPG")));
    assert!(is_image(Some("Jpeg")));
    assert!(is_image(Some("png")));
    assert!(is_image(Some("HEIC")));
    assert!(!is_image(Some("gif")));
    assert!(!is_image(Some("")));
    assert!(!is_image(Some("jpg ")));
    assert!(!is_image(Some("ｊｐｇ")));
    assert!(!is_image(None));
}

#[test]
fn switches_that_are_on() {
    assert!(force_reclassify_enabled(Some("1")));
    assert!(force_reclassify_enabled(Some(" TRUE\n")));
    assert!(force_reclassify_enabled(Some("Yes")));
    assert!(force_reclassify_enabled(Some("on")));
    assert!(!force_reclassify_enabled(Some("0")));
    assert!(!force_reclassify_enabled(Some("")));
    assert!(!force_reclassify_enabled(Some("o n")));
    assert!(!force_reclassify_enabled(None));
}

#[test]
fn json_parts_of_a_reply() {
    assert_eq!(extract_json_array("say [1, [2]] ok]"), Some("[1, [2]] ok]"));
    assert_eq!(extract_json_array("[]"), Some("[]"));
    assert_eq!(extract_json_array("]["), Some(""));
    assert_eq!(extract_json_array("no array"), None);
    assert_eq!(extract_json_array("only ["), None);
    assert_eq!(extract_json_array("only ]"), None);
    assert_eq!(extract_json_object("x {\"a\":{}} y"), Some("{\"a\":{}}"));
    assert_eq!(extract_json_object("「{あ}」"), Some("{あ}"));
    assert_eq!(extract_json_object("[]"), None);
    assert!(has_json_part("a [ b ]", '[', ']'));
    assert!(has_json_part("none", '[', ']'));
    assert!(has_json_part("][", '[', ']'));
    assert!(!has_json_part("] [", '[', ']'));
}

#[test]
fn prompts_name_the_files() {
    let cats = vec!["舗装".to_string(), "検査".to_string()];
    let p = batch_prompt(&["a.jpg", "b.jpg"], &cats);
    assert!(p.starts_with("以下の工事現場写真の黒板に書かれたテキストを読み取り"));
    assert!(p.contains("[{\"file\":\"filename\",\"tag\":\"?\",\"confidence\":0}, ...]\nファイル: a.jpg, b.jpg\nカテゴリ候補(必ずこの中から選べ):\n\"舗装\" \"検査\"\n黒板のテキスト"));
    assert!(p.ends_with("\nconfidence: 0.0~1.0"));
    let p = batch_prompt(&[], &[]);
    assert!(p.contains("ファイル: \nカテゴリ候補(必ずこの中から選べ):\n\n黒板"));
    let g = group_prompt(&["x.png"]);
    assert!(g.starts_with("工事現場の使用機械写真を分類せよ。各機械につき3枚1組"));
    assert!(g.contains("\"machine_id\":\"?\"}, ...]\nファイル: x.png\nrole: \"機械全景\" or "));
    assert!(g.ends_with("同一機械の3枚は同じmachine_idにせよ。"));
    let m = material_prompt("c.jpg");
    assert!(m.starts_with("次の画像について、写っている物体と文字情報だけを抽出せよ。推測や分類は不要。Output ONLY JSON object: {\"file\":\"c.jpg\",\"scene_type\":"));
    assert!(m.contains("\"notes\":\"\"}\n対象ファイル: c.jpg\nscene_type: 写真タイプは3択のみ"));
    assert!(m.contains("各要素は {label, bbox, area_ratio}。bboxは0..1の正規化座標。"));
    assert!(m.ends_with("notes: 事実ベースの補足（任意）"));
}

#[test]
fn characters_go_in_and_out_of_strings() {
    let v = chars_of("aあ\u{1F600}");
    assert_eq!(v, vec!['a', 'あ', '\u{1F600}']);
    assert_eq!(string_of(&v), "aあ\u{1F600}");
    assert_eq!(string_of(&Vec::new()), "");
}
