use photo_tagger::activity::{
    activities_of_rows, activity_name_from_fields, auto_activity_name_from_row, classify_activity,
    fixed_activity_of_row, focus_from_fields_or_text, infer_activity_with_gap, make_activity_name,
    name_row_by_fields, read_fields, select_focus_text, ActivityFrame, ActivityRow,
    ACTIVITY_GAP_MINUTES,
};
use photo_tagger::text::{chars_of, join_strings, replace_all};
use photo_tagger::keywords::extract_top_keywords;

#[test]
fn auto_name_from_keywords() {
    let name = make_activity_name(&["交通保安施設".into(), "設置状況".into()]);
    assert_eq!(name, "交通保安施設_設置状況");
}

#[test]
fn activity_name_of_one_and_of_no_keyword() {
    assert_eq!(make_activity_name(&["確認".to_string()]), "確認");
    assert_eq!(make_activity_name(&[]), "unclassified");
}

#[test]
fn select_focus_text_last_line() {
    let bt = "工事名 市道\n交通保安施設 設置状況\n";
    let text = select_focus_text(bt, "", "");
    assert_eq!(text, "交通保安施設 設置状況");
}

#[test]
fn select_focus_text_without_board_joins_all() {
    assert_eq!(select_focus_text(" \n\t", "plate", "note"), " \n\t\nplate\nnote");
    assert_eq!(select_focus_text("", "", ""), "\n\n");
    assert_eq!(select_focus_text("a\r\n  b  \r\n \r\n", "x", "y"), "b");
}

#[test]
fn focus_from_fields_uses_known_keys() {
    let row = ActivityRow {
        file: "a.jpg".into(),
        board_text: "".into(),
        board_lines: "".into(),
        board_fields: r#"{"処分状況":"社内検査"}"#.into(),
        other_text: "".into(),
        notes: "".into(),
    };
    let text = focus_from_fields_or_text(&row);
    assert_eq!(text, "処分状況_社内検査");
}

#[test]
fn focus_falls_back_to_text() {
    let row = ActivityRow {
        file: "a.jpg".into(),
        board_text: "工事名 市道\n積載量 確認".into(),
        board_lines: "".into(),
        board_fields: r#"{"工事名":"市道"}"#.into(),
        other_text: "".into(),
        notes: "".into(),
    };
    assert_eq!(focus_from_fields_or_text(&row), "積載量 確認");
}

#[test]
fn activity_name_from_fields_two_keys() {
    let map = vec![
        ("出荷指示".to_string(), "As混合物".to_string()),
        ("外観検査".to_string(), "".to_string()),
    ];
    let name = activity_name_from_fields(&map).unwrap();
    assert_eq!(name, "出荷指示_外観検査");
}

#[test]
fn activity_name_from_fields_takes_least_two_in_any_order() {
    let map = vec![
        ("c".to_string(), "".to_string()),
        ("ab".to_string(), "".to_string()),
        ("b".to_string(), "".to_string()),
        ("a".to_string(), "".to_string()),
    ];
    assert_eq!(activity_name_from_fields(&map).unwrap(), "a_ab");
}

#[test]
fn activity_name_from_fields_key_and_value() {
    let map = vec![("処分状況".to_string(), "社内検査".to_string())];
    let name = activity_name_from_fields(&map).unwrap();
    assert_eq!(name, "処分状況_社内検査");
}

#[test]
fn activity_name_from_fields_key_alone() {
    let map = vec![("処分状況".to_string(), "  ".to_string())];
    assert_eq!(activity_name_from_fields(&map).unwrap(), "処分状況");
    let map = vec![("処分状況".to_string(), " 社内 検査 ".to_string())];
    assert_eq!(activity_name_from_fields(&map).unwrap(), "処分状況_社内 検査");
}

#[test]
fn activity_name_from_fields_skips_numeric_and_person() {
    let map = vec![
        ("最大積載量".to_string(), "3.750 t".to_string()),
        ("社内検査員".to_string(), "池田 好敬".to_string()),
    ];
    let name = activity_name_from_fields(&map);
    assert!(name.is_none());
}

#[test]
fn activity_name_from_fields_skips_meta_and_blank() {
    let map = vec![
        ("工事名".to_string(), "市道".to_string()),
        ("  ".to_string(), "x".to_string()),
        ("測点".to_string(), "x".to_string()),
    ];
    assert!(activity_name_from_fields(&map).is_none());
    assert!(activity_name_from_fields(&Vec::new()).is_none());
}

#[test]
fn auto_activity_uses_board_lines_keywords() {
    let row = ActivityRow {
        file: "a.jpg".into(),
        board_text: "".into(),
        board_lines: "As混合物出荷指示 / 外観検査".into(),
        board_fields: "".into(),
        other_text: "".into(),
        notes: "".into(),
    };
    let name = auto_activity_name_from_row(&row, None, 10, 0);
    assert_eq!(name, "出荷指示_外観検査");
}

#[test]
fn auto_activity_uses_other_text_keywords() {
    let row = ActivityRow {
        file: "a.jpg".into(),
        board_text: "".into(),
        board_lines: "最大積載量 3.750 t".into(),
        board_fields: "".into(),
        other_text: "処分状況 社内検査".into(),
        notes: "".into(),
    };
    let name = auto_activity_name_from_row(&row, None, 10, 0);
    assert_eq!(name, "処分状況_社内検査");
}

#[test]
fn auto_activity_prefers_fields_then_notes_then_frame() {
    let mut row = ActivityRow {
        file: "a.jpg".into(),
        board_text: "積載量 確認".into(),
        board_lines: "".into(),
        board_fields: r#" {"処分状況":""} "#.into(),
        other_text: "".into(),
        notes: "".into(),
    };
    assert_eq!(auto_activity_name_from_row(&row, None, 10, 0), "処分状況");
    row.board_fields = "{}".into();
    assert_eq!(auto_activity_name_from_row(&row, None, 10, 0), "確認_積載量");
    row.board_text = "".into();
    row.notes = "計量状況".into();
    assert_eq!(auto_activity_name_from_row(&row, None, 10, 0), "計量状況");
    row.notes = "nothing known".into();
    assert_eq!(auto_activity_name_from_row(&row, None, 10, 0), "unclassified");
    let before = ActivityFrame { activity: "B".to_string(), ts: 0 };
    assert_eq!(auto_activity_name_from_row(&row, Some(&before), 10, 599), "B");
    assert_eq!(auto_activity_name_from_row(&row, Some(&before), 10, 600), "unclassified");
    row.notes = " ".into();
    let prev = ActivityFrame { activity: "A".to_string(), ts: 1000 };
    assert_eq!(auto_activity_name_from_row(&row, Some(&prev), 10, 1000 + 9 * 60), "A");
    assert_eq!(auto_activity_name_from_row(&row, Some(&prev), 10, 1000 + 10 * 60), "unclassified");
}

#[test]
fn classify_activity_keywords() {
    assert_eq!(
        classify_activity("交通保安施設 設置状況"),
        Some("交通保安施設_設置状況")
    );
    assert_eq!(classify_activity("積載量 確認"), Some("積載量_確認"));
    assert_eq!(classify_activity("unknown text"), None);
}

#[test]
fn classify_activity_every_name_in_order() {
    assert_eq!(
        classify_activity("計量状況のトラックスケール"),
        Some("トラックスケール_計量状況")
    );
    assert_eq!(classify_activity("社内検査 処分状況"), Some("処分状況_社内検査"));
    assert_eq!(classify_activity("出荷指示確認"), Some("出荷指示確認"));
    assert_eq!(classify_activity("積載量 出荷指示確認"), Some("積載量_確認"));
    assert_eq!(classify_activity("設置状況"), None);
}

#[test]
fn infer_activity_with_gap_inherits() {
    let prev = ActivityFrame {
        activity: "積載量_確認".to_string(),
        ts: 1000,
    };
    let curr = ActivityFrame {
        activity: String::new(),
        ts: 1000 + 9 * 60,
    };
    assert_eq!(infer_activity_with_gap(Some(&prev), &curr, 10), "積載量_確認");
}

#[test]
fn gap_carry_ends_at_the_gap() {
    let prev = ActivityFrame { activity: "A".to_string(), ts: 1000 };
    let at = |ts: i64| ActivityFrame { activity: String::new(), ts };
    assert_eq!(infer_activity_with_gap(Some(&prev), &at(1000 + 9 * 60), 10), "A");
    assert_eq!(infer_activity_with_gap(Some(&prev), &at(1000 + 11 * 60), 10), "unclassified");
    assert_eq!(infer_activity_with_gap(Some(&prev), &at(1000 + 10 * 60 - 1), 10), "A");
    assert_eq!(infer_activity_with_gap(Some(&prev), &at(1000 + 10 * 60), 10), "unclassified");
    assert_eq!(infer_activity_with_gap(Some(&prev), &at(0), 10), "A");
    assert_eq!(infer_activity_with_gap(None, &at(1000), 10), "unclassified");
    assert_eq!(ACTIVITY_GAP_MINUTES, 10);
    assert_eq!(infer_activity_with_gap(Some(&prev), &at(1599), ACTIVITY_GAP_MINUTES), "A");
}

#[test]
fn gap_carry_at_the_ends_of_the_range() {
    let prev = ActivityFrame { activity: "A".to_string(), ts: i64::MIN };
    let curr = ActivityFrame { activity: String::new(), ts: i64::MAX };
    assert_eq!(infer_activity_with_gap(Some(&prev), &curr, i64::MAX), "A");
    assert_eq!(infer_activity_with_gap(Some(&prev), &curr, 10), "unclassified");
    assert_eq!(infer_activity_with_gap(Some(&curr), &prev, i64::MIN), "unclassified");
}

#[test]
fn extract_top_keywords_basic() {
    let text = "交通保安施設 設置状況 交通保安施設";
    let kws = extract_top_keywords(text, 2);
    assert_eq!(kws, vec!["設置状況", "交通保安施設"]);
}

#[test]
fn extract_top_keywords_skips_stopwords() {
    let text = "工事名 市道 交通保安施設 設置状況";
    let kws = extract_top_keywords(text, 2);
    assert_eq!(kws, vec!["設置状況", "交通保安施設"]);
}

#[test]
fn extract_top_keywords_combined_terms() {
    let text = "トラックスケール計量状況";
    let kws = extract_top_keywords(text, 2);
    assert_eq!(kws, vec!["計量状況", "トラックスケール"]);
}

#[test]
fn extract_top_keywords_prefers_status_terms() {
    let text = "積載量 確認 処分状況 社内検査";
    let kws = extract_top_keywords(text, 2);
    assert_eq!(kws, vec!["処分状況", "社内検査"]);
}

#[test]
fn extract_top_keywords_counts_and_order_break_ties() {
    let kws = extract_top_keywords("積載量、交通保安施設。積載量,トラックスケール", 5);
    assert_eq!(kws, vec!["積載量", "交通保安施設", "トラックスケール"]);
    let kws = extract_top_keywords("計量状況 設置状況 処分状況 設置状況", 3);
    assert_eq!(kws, vec!["設置状況", "計量状況", "処分状況"]);
}

#[test]
fn extract_top_keywords_edges() {
    assert!(extract_top_keywords("", 2).is_empty());
    assert!(extract_top_keywords("積載量 確認", 0).is_empty());
    assert!(extract_top_keywords("積載量3 確認(済) 工事名", 2).is_empty());
    assert_eq!(extract_top_keywords("出荷指示確認", 5), vec!["出荷指示確認"]);
    assert_eq!(
        extract_top_keywords("As混合物出荷指示確認済", 5),
        vec!["出荷指示", "出荷指示確認", "確認"]
    );
    assert_eq!(extract_top_keywords("積載量\u{3000}確認\n外観検査", 1), vec!["外観検査"]);
}

#[test]
fn activities_follow_one_another() {
    let row = |board: &str| ActivityRow {
        file: "a.jpg".into(),
        board_text: board.into(),
        board_lines: "".into(),
        board_fields: "".into(),
        other_text: "".into(),
        notes: "".into(),
    };
    let rows = vec![
        (0, row("")),
        (100, row("積載量 確認")),
        (100 + 599, row("")),
        (100 + 599 + 599, row("")),
        (100 + 599 + 599 + 600, row("")),
    ];
    let fixed = activities_of_rows(&rows, 10, false);
    assert_eq!(fixed, vec!["unclassified", "積載量_確認", "積載量_確認", "積載量_確認", "unclassified"]);
    let auto = activities_of_rows(&rows, 10, true);
    assert_eq!(auto, vec!["unclassified", "確認_積載量", "確認_積載量", "確認_積載量", "unclassified"]);
    assert_eq!(fixed_activity_of_row(&rows[1].1, None, 10, 0), "積載量_確認");
}

#[test]
fn fields_are_read_from_a_json_object_of_strings() {
    let fields = read_fields(r#"{"b":"2","a":"1","b":"3"}"#);
    assert_eq!(fields, vec![("a".to_string(), "1".to_string()), ("b".to_string(), "3".to_string())]);
    assert!(read_fields("").is_empty());
    assert!(read_fields(" {} ").is_empty());
    assert!(read_fields("{ }").is_empty());
    assert!(read_fields(r#"{"a":1}"#).is_empty());
    assert!(read_fields(r#"["a"]"#).is_empty());
    assert!(read_fields("not json").is_empty());
    let row = ActivityRow {
        file: "a.jpg".into(),
        board_text: "".into(),
        board_lines: "".into(),
        board_fields: "broken {".into(),
        other_text: "".into(),
        notes: "計量状況".into(),
    };
    assert_eq!(auto_activity_name_from_row(&row, None, 10, 0), "計量状況");
    let fields = vec![("外観検査".to_string(), "良".to_string())];
    assert_eq!(name_row_by_fields(&fields, &row, None, 10, 0), "外観検査_良");
    assert_eq!(name_row_by_fields(&Vec::new(), &row, None, 10, 0), "計量状況");
}

#[test]
fn texts_are_replaced_and_joined() {
    let r = replace_all(&chars_of("a / b /  / c / "), &chars_of(" / "), &chars_of(" "));
    assert_eq!(r.into_iter().collect::<String>(), "a b  c ");
    let r = replace_all(&chars_of("aaa"), &chars_of("aa"), &chars_of("b"));
    assert_eq!(r.into_iter().collect::<String>(), "ba");
    let r = replace_all(&chars_of(""), &chars_of("x"), &chars_of("y"));
    assert!(r.is_empty());
    let items = vec!["a".to_string(), "".to_string(), "c".to_string()];
    assert_eq!(join_strings(&items, "; "), "a; ; c");
    assert_eq!(join_strings(&Vec::new(), "; "), "");
    assert_eq!(join_strings(&vec!["x".to_string()], " / "), "x");
}
