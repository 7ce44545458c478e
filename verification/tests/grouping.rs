use photo_tagger::grouping::{
    assign_groups, assign_groups_by_identity, assign_groups_with_gap, group_numbers,
};
use photo_tagger::pipeline::{apply_capture_times, find_time, run_grouping, run_grouping_with_gap};
use photo_tagger::propagate::{propagate_attachment_by_time, propagate_attachment_with_gap};
use photo_tagger::records::{GroupItem, GroupRecord, GroupRecords};
use photo_tagger::station::{extract_no, has_attachment_hint, normalize_machine_id};

fn record(id: &str, at: Option<i64>, text: &str, description: &str) -> GroupRecord {
    GroupRecord {
        role: "機械全景".to_string(),
        machine_type: "バックホウ".to_string(),
        machine_id: id.to_string(),
        group: 0,
        has_board: false,
        detected_text: text.to_string(),
        description: description.to_string(),
        captured_at: at,
    }
}

fn collection(entries: &[(&str, GroupRecord)]) -> GroupRecords {
    let mut records = GroupRecords::new();
    for (file, rec) in entries {
        records.insert(file.to_string(), rec.duplicate());
    }
    records
}

fn group_of(records: &GroupRecords, file: &str) -> u32 {
    records.get(file).unwrap().group
}

fn identity_of(records: &GroupRecords, file: &str) -> String {
    records.get(file).unwrap().machine_id.clone()
}

#[test]
fn station_number_from_every_marker() {
    assert_eq!(extract_no("No.12"), Some("No.12".to_string()));
    assert_eq!(extract_no("No 12"), Some("No.12".to_string()));
    assert_eq!(extract_no("NO.12"), Some("No.12".to_string()));
    assert_eq!(extract_no("NO 12"), Some("No.12".to_string()));
    assert_eq!(extract_no("No.abc"), None);
}

#[test]
fn station_number_edges() {
    assert_eq!(extract_no(""), None);
    assert_eq!(extract_no("no.12"), None);
    assert_eq!(extract_no("測点 No.x12y34"), Some("No.12".to_string()));
    assert_eq!(extract_no("No. NO.5"), Some("No.5".to_string()));
    assert_eq!(extract_no("NO.7 No.x"), Some("No.7".to_string()));
    assert_eq!(extract_no("No.1 No.2"), Some("No.1".to_string()));
    assert_eq!(extract_no("No.１２"), None);
    assert_eq!(extract_no("取付道路 No.003"), Some("No.003".to_string()));
    assert_eq!(extract_no("No."), None);
}

#[test]
fn attachment_hint_reads_identity_and_text() {
    assert!(has_attachment_hint(&record("取付道路 No.1", None, "", "")));
    assert!(has_attachment_hint(&record("x", None, "この取付部", "")));
    assert!(!has_attachment_hint(&record("x", None, "", "取付")));
    assert!(!has_attachment_hint(&record("取", None, "付", "")));
}

#[test]
fn normalize_rewrites_attachment_roads() {
    let mut rec = record("TZ-703", Some(5), "取付道路", "No.12 付近");
    normalize_machine_id(&mut rec);
    assert_eq!(rec.machine_id, "取付道路 No.12");
    assert_eq!(rec.detected_text, "取付道路");
    assert_eq!(rec.description, "No.12 付近");
    assert_eq!(rec.captured_at, Some(5));
    assert_eq!(rec.role, "機械全景");

    let mut rec = record("NO 7", None, "取付", "");
    normalize_machine_id(&mut rec);
    assert_eq!(rec.machine_id, "取付道路 No.7");

    let mut rec = record("No.7", None, "取", "付 No.9");
    normalize_machine_id(&mut rec);
    assert_eq!(rec.machine_id, "No.7");

    let mut rec = record("取付 No.7", None, "", "No.9");
    normalize_machine_id(&mut rec);
    assert_eq!(rec.machine_id, "取付 No.7");

    let mut rec = record("TZ-703", None, "取付道路", "番号なし");
    normalize_machine_id(&mut rec);
    assert_eq!(rec.machine_id, "TZ-703");
}

#[test]
fn normalize_twice_is_normalize_once() {
    let cases = [
        record("TZ-703", None, "取付道路", "No.12 付近"),
        record("NO 7", None, "取付", ""),
        record("No.7", None, "", ""),
        record("x No 4 y", Some(1), "取付 NO.", "no"),
        record("", None, "取付", "No.x"),
    ];
    for case in cases.iter() {
        let mut once = case.duplicate();
        normalize_machine_id(&mut once);
        let mut twice = once.duplicate();
        normalize_machine_id(&mut twice);
        assert_eq!(once.machine_id, twice.machine_id);
    }
}

#[test]
fn groups_are_numbered_by_the_first_photo_of_each_segment() {
    let mut records = collection(&[
        ("a1.jpg", record("X", Some(0), "", "")),
        ("a2.jpg", record("X", Some(100), "", "")),
        ("a3.jpg", record("X", Some(500), "", "")),
        ("b1.jpg", record("Y", Some(50), "", "")),
        ("c1.jpg", record("X", None, "", "")),
    ]);
    assert_eq!(group_numbers(&records, 300), vec![1, 1, 3, 2, 3]);
    assign_groups(&mut records);
    assert_eq!(group_of(&records, "a1.jpg"), 1);
    assert_eq!(group_of(&records, "a2.jpg"), 1);
    assert_eq!(group_of(&records, "b1.jpg"), 2);
    assert_eq!(group_of(&records, "a3.jpg"), 3);
    assert_eq!(group_of(&records, "c1.jpg"), 3);
    assert_eq!(identity_of(&records, "a3.jpg"), "X");
    assert_eq!(records.get("a3.jpg").unwrap().captured_at, Some(500));
    assert_eq!(records.len(), 5);
}

#[test]
fn groups_split_at_the_gap_and_at_a_change_of_hint() {
    let mut records = collection(&[
        ("m1.jpg", record("Z", Some(0), "", "")),
        ("m2.jpg", record("Z", Some(300), "", "")),
        ("m3.jpg", record("Z", Some(601), "", "")),
        ("m4.jpg", record("Z", Some(610), "取付道路", "")),
        ("m5.jpg", record("Z", Some(620), "", "")),
    ]);
    assign_groups(&mut records);
    assert_eq!(group_of(&records, "m1.jpg"), 1);
    assert_eq!(group_of(&records, "m2.jpg"), 1);
    assert_eq!(group_of(&records, "m3.jpg"), 2);
    assert_eq!(group_of(&records, "m4.jpg"), 3);
    assert_eq!(group_of(&records, "m5.jpg"), 4);
}

#[test]
fn groups_tie_by_identity_then_file_and_unknown_times_come_last() {
    let mut records = collection(&[
        ("u.jpg", record("A", None, "", "")),
        ("b.jpg", record("B", Some(10), "", "")),
        ("a.jpg", record("A", Some(10), "", "")),
        ("v.jpg", record("0", None, "", "")),
        ("a0.jpg", record("A", Some(10), "取付", "")),
    ]);
    assign_groups(&mut records);
    assert_eq!(group_of(&records, "a.jpg"), 1);
    assert_eq!(group_of(&records, "a0.jpg"), 2);
    assert_eq!(group_of(&records, "b.jpg"), 3);
    assert_eq!(group_of(&records, "v.jpg"), 4);
    assert_eq!(group_of(&records, "u.jpg"), 5);
}

#[test]
fn groups_of_no_photo_and_of_one() {
    let mut none = GroupRecords::new();
    assign_groups(&mut none);
    assert_eq!(none.len(), 0);
    let mut one = collection(&[("only.jpg", record("", None, "", ""))]);
    assign_groups(&mut one);
    assert_eq!(group_of(&one, "only.jpg"), 1);
}

#[test]
fn groups_use_every_number_once_from_one() {
    let mut entries = Vec::new();
    for i in 0..40i64 {
        let id = format!("M{}", i % 3);
        let at = if i % 7 == 0 { None } else { Some((i * 97) % 2000) };
        let text = if i % 5 == 0 { "取付" } else { "" };
        entries.push((format!("f{i:02}.jpg"), record(&id, at, text, "")));
    }
    let mut records = GroupRecords::new();
    for (file, rec) in entries.iter() {
        records.insert(file.clone(), rec.duplicate());
    }
    assign_groups(&mut records);
    let mut used: Vec<u32> = records.entries.iter().map(|e| e.record.group).collect();
    assert!(used.iter().all(|g| *g >= 1));
    used.sort();
    used.dedup();
    let expected: Vec<u32> = (1..=used.len() as u32).collect();
    assert_eq!(used, expected);
}

#[test]
fn groups_do_not_depend_on_the_order_of_the_photos() {
    let mut entries = Vec::new();
    for i in 0..30i64 {
        let id = format!("M{}", i % 4);
        let at = if i % 6 == 0 { None } else { Some((i * 131) % 1500) };
        let text = if i % 4 == 1 { "取付" } else { "" };
        entries.push((format!("f{i:02}.jpg"), record(&id, at, text, "")));
    }
    let mut forward = GroupRecords::new();
    for (file, rec) in entries.iter() {
        forward.insert(file.clone(), rec.duplicate());
    }
    let mut backward = GroupRecords::new();
    for (file, rec) in entries.iter().rev() {
        backward.insert(file.clone(), rec.duplicate());
    }
    let mut shuffled = GroupRecords::new();
    for k in 0..30usize {
        let (file, rec) = &entries[(k * 7) % 30];
        shuffled.insert(file.clone(), rec.duplicate());
    }
    assign_groups(&mut forward);
    assign_groups(&mut backward);
    assign_groups(&mut shuffled);
    for (file, _) in entries.iter() {
        assert_eq!(group_of(&forward, file), group_of(&backward, file));
        assert_eq!(group_of(&forward, file), group_of(&shuffled, file));
    }
}

#[test]
fn attachment_spreads_over_a_chunk_of_one_station() {
    let mut records = collection(&[
        ("p1.jpg", record("No.3", Some(0), "取付道路 No.3", "")),
        ("p2.jpg", record("No.3", Some(100), "", "")),
        ("p3.jpg", record("machine", Some(200), "", "at No 3")),
        ("p4.jpg", record("No.3", Some(1000), "", "")),
        ("p5.jpg", record("No.4", Some(50), "", "")),
        ("p6.jpg", record("plain", Some(60), "取付", "")),
    ]);
    propagate_attachment_by_time(&mut records);
    assert_eq!(identity_of(&records, "p1.jpg"), "取付道路 No.3");
    assert_eq!(identity_of(&records, "p2.jpg"), "取付道路 No.3");
    assert_eq!(identity_of(&records, "p3.jpg"), "取付道路 No.3");
    assert_eq!(identity_of(&records, "p4.jpg"), "No.3");
    assert_eq!(identity_of(&records, "p5.jpg"), "No.4");
    assert_eq!(identity_of(&records, "p6.jpg"), "plain");
    assert_eq!(records.get("p3.jpg").unwrap().description, "at No 3");
    assert_eq!(records.get("p3.jpg").unwrap().group, 0);
}

#[test]
fn attachment_spreads_backwards_and_over_unknown_times() {
    let mut records = collection(&[
        ("q1.jpg", record("NO.8", Some(0), "", "")),
        ("q2.jpg", record("NO 8", Some(300), "", "")),
        ("q3.jpg", record("取付 No.8", Some(600), "", "")),
        ("q4.jpg", record("No.8", None, "", "")),
        ("q5.jpg", record("No.8", Some(900), "", "")),
    ]);
    propagate_attachment_by_time(&mut records);
    for file in ["q1.jpg", "q2.jpg", "q3.jpg", "q4.jpg", "q5.jpg"] {
        assert_eq!(identity_of(&records, file), "取付道路 No.8");
    }
}

#[test]
fn attachment_stays_within_its_chunk() {
    let mut records = collection(&[
        ("r1.jpg", record("No.8", Some(0), "", "")),
        ("r2.jpg", record("取付 No.8", Some(301), "", "")),
        ("r3.jpg", record("No.8", Some(700), "", "")),
    ]);
    propagate_attachment_by_time(&mut records);
    assert_eq!(identity_of(&records, "r1.jpg"), "No.8");
    assert_eq!(identity_of(&records, "r2.jpg"), "取付道路 No.8");
    assert_eq!(identity_of(&records, "r3.jpg"), "No.8");
}

#[test]
fn capture_times_fill_unknown_times_only() {
    let times = vec![
        ("a.jpg".to_string(), 111),
        ("b.jpg".to_string(), 222),
        ("a.jpg".to_string(), 333),
    ];
    assert_eq!(find_time(&times, "a.jpg"), Some(111));
    assert_eq!(find_time(&times, "c.jpg"), None);
    let mut records = collection(&[
        ("a.jpg", record("X", None, "取付", "No.2")),
        ("b.jpg", record("X", Some(5), "", "")),
        ("c.jpg", record("X", None, "", "")),
    ]);
    apply_capture_times(&mut records, &times);
    assert_eq!(records.get("a.jpg").unwrap().captured_at, Some(111));
    assert_eq!(records.get("b.jpg").unwrap().captured_at, Some(5));
    assert_eq!(records.get("c.jpg").unwrap().captured_at, None);
    assert_eq!(identity_of(&records, "a.jpg"), "取付道路 No.2");
    assert_eq!(identity_of(&records, "b.jpg"), "X");
}

#[test]
fn grouping_runs_every_pass_in_turn() {
    let mut records = collection(&[
        ("s1.jpg", record("TZ-703", None, "取付道路 No.5", "")),
        ("s2.jpg", record("No.5", None, "", "")),
        ("s3.jpg", record("TZ-703", None, "", "")),
        ("s4.jpg", record("No.5", None, "", "")),
    ]);
    let times = vec![
        ("s1.jpg".to_string(), 1000),
        ("s2.jpg".to_string(), 1100),
        ("s3.jpg".to_string(), 900),
        ("s4.jpg".to_string(), 5000),
    ];
    run_grouping(&mut records, &times);
    assert_eq!(identity_of(&records, "s1.jpg"), "取付道路 No.5");
    assert_eq!(identity_of(&records, "s2.jpg"), "取付道路 No.5");
    assert_eq!(identity_of(&records, "s3.jpg"), "TZ-703");
    assert_eq!(identity_of(&records, "s4.jpg"), "No.5");
    assert_eq!(group_of(&records, "s3.jpg"), 1);
    assert_eq!(group_of(&records, "s1.jpg"), 2);
    assert_eq!(group_of(&records, "s2.jpg"), 2);
    assert_eq!(group_of(&records, "s4.jpg"), 3);
}

#[test]
fn records_keep_one_annotation_per_file() {
    let mut records = GroupRecords::new();
    let item = GroupItem {
        file: "a.jpg".to_string(),
        role: "機械全景".to_string(),
        machine_type: "バックホウ".to_string(),
        machine_id: "HA60C-2".to_string(),
        has_board: true,
        detected_text: "text".to_string(),
        description: "desc".to_string(),
    };
    records.insert(item.file.clone(), GroupRecord::from_item(&item));
    records.insert("b.jpg".to_string(), record("B", Some(1), "", ""));
    records.insert("a.jpg".to_string(), record("A2", Some(2), "", ""));
    assert_eq!(records.len(), 2);
    assert_eq!(records.position("a.jpg"), Some(0));
    assert_eq!(records.position("b.jpg"), Some(1));
    assert_eq!(records.position("c.jpg"), None);
    assert_eq!(identity_of(&records, "a.jpg"), "A2");
    assert!(records.get("c.jpg").is_none());
    let first = GroupRecord::from_item(&item);
    assert_eq!(first.machine_id, "HA60C-2");
    assert_eq!(first.group, 0);
    assert_eq!(first.captured_at, None);
    assert!(first.has_board);
    assert_eq!(first.detected_text, "text");
    assert_eq!(first.description, "desc");
}

#[test]
fn groups_by_identity_alone() {
    let mut records = collection(&[
        ("f1.jpg", record("TZ-703", Some(0), "", "")),
        ("f2.jpg", record("HA60C-2", Some(9000), "", "")),
        ("f3.jpg", record("TZ-703", Some(5000), "取付", "")),
        ("f4.jpg", record("", None, "", "")),
        ("f5.jpg", record("HA60C-2", None, "", "")),
    ]);
    assign_groups_by_identity(&mut records);
    assert_eq!(group_of(&records, "f4.jpg"), 1);
    assert_eq!(group_of(&records, "f2.jpg"), 2);
    assert_eq!(group_of(&records, "f5.jpg"), 2);
    assert_eq!(group_of(&records, "f1.jpg"), 3);
    assert_eq!(group_of(&records, "f3.jpg"), 3);
    assert_eq!(identity_of(&records, "f3.jpg"), "TZ-703");
    let mut none = GroupRecords::new();
    assign_groups_by_identity(&mut none);
    assert_eq!(none.len(), 0);
}

#[test]
fn the_gap_is_the_callers_to_set() {
    let photos = || {
        collection(&[
            ("g1.jpg", record("No.1", Some(0), "取付", "")),
            ("g2.jpg", record("No.1", Some(100), "", "")),
            ("g3.jpg", record("No.1", None, "", "")),
        ])
    };
    let mut wide = photos();
    assign_groups_with_gap(&mut wide, 100);
    assert_eq!(group_numbers(&wide, 100), vec![1, 2, 2]);
    assert_eq!(group_of(&wide, "g1.jpg"), 1);
    assert_eq!(group_of(&wide, "g2.jpg"), 2);
    assert_eq!(group_of(&wide, "g3.jpg"), 2);

    let same = |gap: i64| {
        let mut r = collection(&[
            ("h1.jpg", record("X", Some(0), "", "")),
            ("h2.jpg", record("X", Some(100), "", "")),
            ("h3.jpg", record("X", None, "", "")),
        ]);
        assign_groups_with_gap(&mut r, gap);
        r.entries.iter().map(|e| e.record.group).collect::<Vec<u32>>()
    };
    assert_eq!(same(100), vec![1, 1, 1]);
    assert_eq!(same(99), vec![1, 2, 2]);
    assert_eq!(same(0), vec![1, 2, 2]);
    assert_eq!(same(-1), vec![1, 2, 3]);

    let mut near = photos();
    propagate_attachment_with_gap(&mut near, 99);
    assert_eq!(identity_of(&near, "g1.jpg"), "取付道路 No.1");
    assert_eq!(identity_of(&near, "g2.jpg"), "No.1");
    assert_eq!(identity_of(&near, "g3.jpg"), "No.1");
    let mut far = photos();
    propagate_attachment_with_gap(&mut far, 100);
    assert_eq!(identity_of(&far, "g2.jpg"), "取付道路 No.1");
    assert_eq!(identity_of(&far, "g3.jpg"), "取付道路 No.1");

    let mut all = photos();
    run_grouping_with_gap(&mut all, &Vec::new(), 99);
    assert_eq!(identity_of(&all, "g1.jpg"), "取付道路 No.1");
    assert_eq!(identity_of(&all, "g2.jpg"), "No.1");
    assert_eq!(group_of(&all, "g1.jpg"), 1);
    assert_eq!(group_of(&all, "g2.jpg"), 2);
    assert_eq!(group_of(&all, "g3.jpg"), 2);
}
