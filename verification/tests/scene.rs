use photo_tagger::lexicon::{load_measure_labels, parse_terms};
use photo_tagger::scene::{
    classify_by_areas, default_measure_labels, infer_scene_from_objects,
    infer_scene_from_objects_with_params, is_board_label, is_e_board_only, is_measure_label,
    is_noise_char, match_measure_labels, normalize_for_match, settle_scene_type, ObjectItem,
    SceneType,
};

fn object(label: &str, area_ppm: u32) -> ObjectItem {
    ObjectItem { label: label.to_string(), area_ppm, ..Default::default() }
}

#[test]
fn is_e_board_only_detects_e_board() {
    let objs = vec![
        ObjectItem { label: "電子小黒板".to_string(), ..Default::default() },
        ObjectItem { label: "道路".to_string(), ..Default::default() },
    ];
    assert!(is_e_board_only(&objs));
    let objs2 = vec![
        ObjectItem { label: "黒板".to_string(), ..Default::default() },
        ObjectItem { label: "電子小黒板".to_string(), ..Default::default() },
    ];
    assert!(!is_e_board_only(&objs2));
}

#[test]
fn e_board_only_needs_an_electronic_board() {
    assert!(!is_e_board_only(&Vec::new()));
    assert!(!is_e_board_only(&vec![object("道路", 0)]));
    assert!(is_e_board_only(&vec![object("電子黒板", 0)]));
    assert!(!is_e_board_only(&vec![object("電子黒板", 0), object("ホワイトボード", 0)]));
    assert!(!is_e_board_only(&vec![object("手書きボード", 0), object("電子小黒板", 0)]));
}

#[test]
fn infer_scene_board_with_measure() {
    let objects = vec![
        ObjectItem { label: "工事用黒板".to_string(), area_ppm: 180_000, ..Default::default() },
        ObjectItem { label: "メジャー".to_string(), area_ppm: 50_000, ..Default::default() },
    ];
    let scene = infer_scene_from_objects(&objects, false);
    assert_eq!(scene, "board_with_measure");
}

#[test]
fn infer_scene_measure_closeup() {
    let objects = vec![
        ObjectItem { label: "メジャー".to_string(), area_ppm: 320_000, ..Default::default() },
        ObjectItem { label: "舗装面".to_string(), area_ppm: 400_000, ..Default::default() },
    ];
    let scene = infer_scene_from_objects(&objects, false);
    assert_eq!(scene, "measure_closeup");
}

#[test]
fn infer_scene_overview_ignores_e_board_by_default() {
    let objects = vec![
        ObjectItem { label: "電子小黒板".to_string(), area_ppm: 220_000, ..Default::default() },
        ObjectItem { label: "道路".to_string(), area_ppm: 500_000, ..Default::default() },
    ];
    let scene = infer_scene_from_objects(&objects, false);
    assert_eq!(scene, "overview");
    let scene_include = infer_scene_from_objects(&objects, true);
    assert_eq!(scene_include, "board_with_measure");
}

#[test]
fn infer_scene_with_custom_thresholds() {
    let objects = vec![
        ObjectItem { label: "メジャー".to_string(), area_ppm: 200_000, ..Default::default() },
    ];
    let labels = vec!["メジャー".to_string()];
    let scene = infer_scene_from_objects_with_params(&objects, false, 100_000, 150_000, &labels);
    assert_eq!(scene, "measure_closeup");
}

#[test]
fn infer_scene_with_custom_measure_labels() {
    let objects = vec![
        ObjectItem { label: "レーザー距離計".to_string(), area_ppm: 300_000, ..Default::default() },
    ];
    let labels = vec!["レーザー距離計".to_string()];
    let scene = infer_scene_from_objects_with_params(&objects, false, 150_000, 250_000, &labels);
    assert_eq!(scene, "measure_closeup");
}

#[test]
fn infer_scene_with_normalized_labels() {
    let objects = vec![
        ObjectItem { label: "ﾒｼﾞｬｰ-12".to_string(), area_ppm: 300_000, ..Default::default() },
    ];
    let labels = vec!["メジャー".to_string()];
    let scene = infer_scene_from_objects_with_params(&objects, false, 150_000, 250_000, &labels);
    assert_eq!(scene, "measure_closeup");
}

#[test]
fn infer_scene_of_nothing_is_an_overview() {
    assert_eq!(infer_scene_from_objects(&Vec::new(), false), "overview");
    assert_eq!(infer_scene_from_objects(&Vec::new(), true), "overview");
    assert_eq!(infer_scene_from_objects(&vec![object("道路", 900_000)], true), "overview");
}

#[test]
fn infer_scene_at_the_thresholds() {
    let labels = default_measure_labels();
    let scene = |board: u32, measure: u32| {
        infer_scene_from_objects_with_params(
            &vec![object("黒板", board), object("巻尺", measure)],
            false,
            150_000,
            250_000,
            &labels,
        )
    };
    assert_eq!(scene(0, 250_000), "measure_closeup");
    assert_eq!(scene(900_000, 250_000), "measure_closeup");
    assert_eq!(scene(0, 249_999), "overview");
    assert_eq!(scene(1, 1), "board_with_measure");
    assert_eq!(scene(149_999, 0), "overview");
    assert_eq!(scene(150_000, 0), "board_with_measure");
    assert_eq!(scene(0, 0), "overview");
    let zero = infer_scene_from_objects_with_params(&Vec::new(), false, 150_000, 0, &labels);
    assert_eq!(zero, "measure_closeup");
    let zero = infer_scene_from_objects_with_params(&Vec::new(), false, 0, 1, &labels);
    assert_eq!(zero, "board_with_measure");
}

#[test]
fn infer_scene_takes_the_largest_of_each_kind() {
    let objects = vec![
        object("黒板", 10_000),
        object("ホワイトボード", 160_000),
        object("黒板", 20_000),
        object("電子黒板", 999_999),
    ];
    assert_eq!(infer_scene_from_objects(&objects, false), "board_with_measure");
    assert_eq!(classify_by_areas(160_000, 0, 150_000, 250_000), SceneType::BoardWithMeasure);
    assert_eq!(classify_by_areas(0, 0, 150_000, 250_000), SceneType::Overview);
    assert_eq!(classify_by_areas(0, 250_000, 150_000, 250_000), SceneType::MeasureCloseup);
}

#[test]
fn measure_label_matching_reports_labels() {
    let objects = vec![
        ObjectItem { label: "ﾒｼﾞｬｰ-12".to_string(), area_ppm: 100_000, ..Default::default() },
        ObjectItem { label: "道路".to_string(), area_ppm: 500_000, ..Default::default() },
    ];
    let labels = vec!["メジャー".to_string(), "レーザー距離計".to_string()];
    let matched = match_measure_labels(&objects, &labels);
    assert_eq!(matched, vec!["メジャー".to_string()]);
}

#[test]
fn measure_labels_match_in_the_order_of_the_lexicon() {
    let objects = vec![object("Steel Tape", 0), object("温度計（デジタル）", 0)];
    let labels = vec![
        "温度計".to_string(),
        " - ".to_string(),
        "steel-tape".to_string(),
        "定規".to_string(),
        "ＴＡＰＥ".to_string(),
    ];
    let matched = match_measure_labels(&objects, &labels);
    assert_eq!(matched, vec!["温度計".to_string(), "steel-tape".to_string(), "ＴＡＰＥ".to_string()]);
    assert!(match_measure_labels(&Vec::new(), &labels).is_empty());
    assert!(match_measure_labels(&objects, &Vec::new()).is_empty());
}

#[test]
fn labels_are_compared_in_a_folded_form() {
    let form: String = normalize_for_match("  Ｔape－Ｍeasure・No．１ ").into_iter().collect();
    assert_eq!(form, "tapemeasureno1");
    let form: String = normalize_for_match("ﾒｼﾞｬｰ").into_iter().collect();
    assert_eq!(form, "メシャ".replace("シ", "ジ"));
    assert!(normalize_for_match("【】「」〜 _/").is_empty());
    assert!(is_noise_char('ー'));
    assert!(is_noise_char('\u{3000}'));
    assert!(is_noise_char('~'));
    assert!(!is_noise_char('メ'));
    assert!(!is_noise_char('a'));
}

#[test]
fn measure_and_board_labels() {
    let labels = default_measure_labels();
    assert_eq!(labels.len(), 11);
    assert_eq!(labels[0], "メジャー");
    assert_eq!(labels[10], "測定");
    assert!(is_measure_label("クラック・スケール", &labels));
    assert!(is_measure_label("膜厚ゲージ", &labels));
    assert!(!is_measure_label("道路", &labels));
    assert!(!is_measure_label("", &labels));
    assert!(!is_measure_label("---", &vec!["".to_string()]));
    assert!(is_measure_label("TAPE", &vec!["tape".to_string()]));
    assert!(is_board_label("工事用黒板", false));
    assert!(is_board_label("ホワイトボード", false));
    assert!(is_board_label("手書きボード", false));
    assert!(!is_board_label("電子小黒板", false));
    assert!(is_board_label("電子小黒板", true));
    assert!(!is_board_label("電子黒板と黒板", false));
    assert!(!is_board_label("看板", true));
}

#[test]
fn load_measure_labels_from_file() {
    let data = "レーザー距離計\n# comment\n\nメジャー\n";
    let defaults = vec!["メジャー".to_string()];
    let labels = load_measure_labels(Some(data), defaults);
    assert_eq!(labels, vec!["レーザー距離計".to_string(), "メジャー".to_string()]);
}

#[test]
fn measure_lexicon_falls_back_to_the_defaults() {
    let defaults = vec!["メジャー".to_string()];
    assert_eq!(load_measure_labels(None, defaults.clone()), defaults);
    assert_eq!(load_measure_labels(Some("# only\n  \n"), defaults.clone()), defaults);
    assert_eq!(load_measure_labels(Some(""), defaults.clone()), defaults);
    assert_eq!(
        parse_terms("  a b \r\n#x\n  # y\nlast"),
        vec!["a b".to_string(), "last".to_string()]
    );
}

#[test]
fn reported_scene_yields_to_electronic_boards() {
    let e_only = vec![object("電子小黒板", 220_000), object("道路", 500_000)];
    let mixed = vec![object("電子小黒板", 220_000), object("黒板", 1)];
    let report = || "board_with_measure".to_string();
    assert_eq!(settle_scene_type(report(), &e_only, false), "overview");
    assert_eq!(settle_scene_type(report(), &e_only, true), "board_with_measure");
    assert_eq!(settle_scene_type(report(), &mixed, false), "board_with_measure");
    assert_eq!(settle_scene_type(report(), &Vec::new(), false), "board_with_measure");
}
