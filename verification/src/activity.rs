use vstd::prelude::*;
use crate::keywords::{
    credits_of, extract_top_keywords, is_top_ranking, lemma_top_ranking_unique, named_terms,
    tokens_of,
};
use crate::order::{chars_leq, lemma_lex_order, lex_leq};
use crate::text::{
    blank_chars, char_is_digit, chars_equal, chars_of, contains_seq, is_blank, is_digit, push_all,
    push_str, replace_all, replaced_from, slice_of, str_contains, string_of, string_views,
    trim_bounds, trim_chars, trim_end_at, trim_start_at, trimmed,
};

verus! {

/// The minutes within which a photo without a name of its own takes the
/// activity of the photo before, unless the caller sets another gap.
pub const ACTIVITY_GAP_MINUTES: i64 = 10;

/// The activity that the photo before was given, and when that photo was
/// taken.
#[derive(Debug)]
pub struct ActivityFrame {
    pub activity: String,
    pub ts: i64,
}

/// The texts of one photo from which its activity is named. `board_fields`
/// holds the labelled fields of the board as a JSON object of strings;
/// `board_lines` holds the lines of the board with ` / ` between them.
#[derive(Debug)]
pub struct ActivityRow {
    pub file: String,
    pub board_text: String,
    pub board_lines: String,
    pub board_fields: String,
    pub other_text: String,
    pub notes: String,
}

/// The labels and values of the JSON object of strings that a text holds,
/// ordered by label; none where the text is no such object.
pub uninterp spec fn json_fields(s: Seq<char>) -> Option<Seq<(Seq<char>, Seq<char>)>>;

/// `serde_json::from_str` into a `BTreeMap<String, String>`, whose entries
/// are then listed in the order of the map. The contract only gives the
/// result its name.
#[verifier::external_body]
fn parse_fields(s: &str) -> (r: Option<Vec<(String, String)>>)
    ensures
        match r {
            Some(v) => json_fields(s@) == Some(field_views(v@)),
            None => json_fields(s@) is None,
        },
{
    match serde_json::from_str::<std::collections::BTreeMap<String, String>>(s) {
        Ok(m) => Some(m.into_iter().collect()),
        Err(_) => None,
    }
}

/// The labelled fields of a row: those that its field text holds; none
/// where that text is blank, is `{}`, or is no JSON object of strings.
pub open spec fn fields_of_text(raw: Seq<char>) -> Seq<(Seq<char>, Seq<char>)> {
    if is_blank(raw) || trimmed(raw) == "{}"@ {
        Seq::empty()
    } else {
        match json_fields(raw) {
            Some(f) => f,
            None => Seq::empty(),
        }
    }
}

/// The labelled fields of a row.
pub fn read_fields(raw: &str) -> (r: Vec<(String, String)>)
    ensures
        field_views(r@) == fields_of_text(raw@),
{
    let t = trim_chars(&chars_of(raw));
    if t.len() == 0 || chars_equal(&t, &chars_of("{}")) {
        let v: Vec<(String, String)> = Vec::new();
        assert(field_views(v@) =~= Seq::empty());
        return v;
    }
    match parse_fields(raw) {
        Some(v) => v,
        None => {
            let v: Vec<(String, String)> = Vec::new();
            assert(field_views(v@) =~= Seq::empty());
            v
        },
    }
}

/// The name given to a photo whose activity cannot be told.
pub open spec fn unclassified() -> Seq<char> {
    "unclassified"@
}

/// The activity that a text names outright.
pub open spec fn activity_of(text: Seq<char>) -> Option<Seq<char>> {
    if contains_seq(text, "交通保安施設"@) && contains_seq(text, "設置状況"@) {
        Some("交通保安施設_設置状況"@)
    } else if contains_seq(text, "トラックスケール"@) && contains_seq(text, "計量状況"@) {
        Some("トラックスケール_計量状況"@)
    } else if contains_seq(text, "積載量"@) && contains_seq(text, "確認"@) {
        Some("積載量_確認"@)
    } else if contains_seq(text, "処分状況"@) && contains_seq(text, "社内検査"@) {
        Some("処分状況_社内検査"@)
    } else if contains_seq(text, "出荷指示確認"@) {
        Some("出荷指示確認"@)
    } else {
        None
    }
}

/// The activity that a text names outright, if it names one.
pub fn classify_activity(text: &str) -> (r: Option<&'static str>)
    ensures
        match r {
            Some(name) => activity_of(text@) == Some(name@),
            None => activity_of(text@) is None,
        },
{
    if str_contains(text, "交通保安施設") && str_contains(text, "設置状況") {
        return Some("交通保安施設_設置状況");
    }
    if str_contains(text, "トラックスケール") && str_contains(text, "計量状況") {
        return Some("トラックスケール_計量状況");
    }
    if str_contains(text, "積載量") && str_contains(text, "確認") {
        return Some("積載量_確認");
    }
    if str_contains(text, "処分状況") && str_contains(text, "社内検査") {
        return Some("処分状況_社内検査");
    }
    if str_contains(text, "出荷指示確認") {
        return Some("出荷指示確認");
    }
    None
}

/// The activity of a photo that names none itself: that of the photo before,
/// where that one was taken less than `gap_min` minutes earlier.
pub open spec fn carried_activity(prev: Option<(Seq<char>, int)>, ts: int, gap_min: int) -> Seq<
    char,
> {
    match prev {
        Some(p) => if ts - p.1 < gap_min * 60 {
            p.0
        } else {
            unclassified()
        },
        None => unclassified(),
    }
}

/// What `carried_activity` reads of a frame.
pub open spec fn frame_view(prev: Option<&ActivityFrame>) -> Option<(Seq<char>, int)> {
    match prev {
        Some(p) => Some((p.activity@, p.ts as int)),
        None => None,
    }
}

/// The activity of a photo that names none itself.
pub fn infer_activity_with_gap(prev: Option<&ActivityFrame>, curr: &ActivityFrame, gap_min: i64) -> (r:
    String)
    ensures
        r@ == carried_activity(frame_view(prev), curr.ts as int, gap_min as int),
{
    match prev {
        Some(p) => {
            let passed: i128 = curr.ts as i128 - p.ts as i128;
            let limit: i128 = gap_min as i128 * 60;
            if passed < limit {
                return p.activity.clone();
            }
        },
        None => {},
    }
    string_of(&chars_of("unclassified"))
}

/// The name made of the best keywords: the first two joined by `_`, the only
/// one alone, or the name of the unclassified where there is none.
pub open spec fn joined_name(keywords: Seq<Seq<char>>) -> Seq<char> {
    if keywords.len() == 0 {
        unclassified()
    } else if keywords.len() == 1 {
        keywords[0]
    } else {
        keywords[0] + "_"@ + keywords[1]
    }
}

/// The name made of the best keywords.
pub fn make_activity_name(keywords: &[String]) -> (r: String)
    ensures
        r@ == joined_name(string_views(keywords@)),
{
    if keywords.len() == 0 {
        return string_of(&chars_of("unclassified"));
    }
    assert(string_views(keywords@)[0] == keywords@[0]@);
    if keywords.len() == 1 {
        return keywords[0].clone();
    }
    assert(string_views(keywords@)[1] == keywords@[1]@);
    let mut out = chars_of(keywords[0].as_str());
    push_str(&mut out, "_");
    push_str(&mut out, keywords[1].as_str());
    string_of(&out)
}

/// Where the line begins that ends at `end`.
pub open spec fn line_start(s: Seq<char>, end: int) -> int
    decreases end,
{
    if end <= 0 {
        0
    } else if s[end - 1] == '\n' {
        end
    } else {
        line_start(s, end - 1)
    }
}

/// The last line at or before `end` that holds more than white space, without
/// the white space at its ends.
pub open spec fn filled_line_before(s: Seq<char>, end: int) -> Option<Seq<char>>
    decreases end,
{
    let a = line_start(s, end);
    let x = trim_start_at(s, a, end);
    let y = trim_end_at(s, x, end);
    if end < 0 {
        None
    } else if x < y {
        Some(s.subrange(x, y))
    } else if a <= 0 || a > end {
        None
    } else {
        filled_line_before(s, a - 1)
    }
}

/// The text on which the activity is read: the last filled line of the
/// board, or, where the board has none, all three texts on a line each.
pub open spec fn focus_text(board: Seq<char>, other: Seq<char>, notes: Seq<char>) -> Seq<char> {
    match filled_line_before(board, board.len() as int) {
        Some(line) => line,
        None => board + "\n"@ + other + "\n"@ + notes,
    }
}

proof fn lemma_line_start(s: Seq<char>, end: int)
    requires
        0 <= end <= s.len(),
    ensures
        0 <= line_start(s, end) <= end,
    decreases end,
{
    if end > 0 && s[end - 1] != '\n' {
        lemma_line_start(s, end - 1);
    }
}

fn last_filled_line(s: &Vec<char>) -> (r: Option<Vec<char>>)
    ensures
        match r {
            Some(line) => filled_line_before(s@, s@.len() as int) == Some(line@),
            None => filled_line_before(s@, s@.len() as int) is None,
        },
{
    let mut end: usize = s.len();
    loop
        invariant
            end <= s.len(),
            filled_line_before(s@, s@.len() as int) == filled_line_before(s@, end as int),
        decreases end,
    {
        let mut a: usize = end;
        while a > 0 && s[a - 1] != '\n'
            invariant
                a <= end <= s.len(),
                line_start(s@, end as int) == line_start(s@, a as int),
            decreases a,
        {
            a -= 1;
        }
        proof {
            lemma_line_start(s@, end as int);
        }
        let (x, y) = trim_bounds(s, a, end);
        if x < y {
            return Some(slice_of(s, x, y));
        }
        if a == 0 {
            return None;
        }
        end = a - 1;
    }
}

/// The text on which the activity of a photo is read.
pub fn select_focus_text(board_text: &str, other_text: &str, notes: &str) -> (r: String)
    ensures
        r@ == focus_text(board_text@, other_text@, notes@),
{
    let board = chars_of(board_text);
    match last_filled_line(&board) {
        Some(line) => string_of(&line),
        None => {
            let mut out = board;
            push_str(&mut out, "\n");
            push_str(&mut out, other_text);
            push_str(&mut out, "\n");
            push_str(&mut out, notes);
            string_of(&out)
        },
    }
}

/// The labels of a board that say nothing of the activity.
pub open spec fn is_meta_label(k: Seq<char>) -> bool {
    k == "工事名"@ || k == "工種"@ || k == "測点"@ || k == "年月日"@ || k == "撮影"@ || k
        == "写真"@
}

pub open spec fn holds_digit(s: Seq<char>) -> bool {
    exists|i: int| 0 <= i < s.len() && is_digit(#[trigger] s[i])
}

/// A field that may name the activity: its label is not blank, is no label
/// of the board's header and does not end in the sign for a person, and its
/// value holds no digit.
pub open spec fn names_activity(f: (Seq<char>, Seq<char>)) -> bool {
    !is_blank(f.0) && !is_meta_label(f.0) && !(f.0.len() > 0 && f.0.last() == '員') && !holds_digit(
        f.1,
    )
}

/// The name that a single field gives: its label and its value, or the label
/// alone where the value is blank.
pub open spec fn single_name(f: (Seq<char>, Seq<char>)) -> Seq<char> {
    if is_blank(f.1) {
        f.0
    } else {
        f.0 + "_"@ + trimmed(f.1)
    }
}

/// Field `a` names the activity and no such field has a label before its own.
pub open spec fn is_least_field(fields: Seq<(Seq<char>, Seq<char>)>, a: int, but: int) -> bool {
    &&& 0 <= a < fields.len()
    &&& a != but
    &&& names_activity(fields[a])
    &&& forall|i: int|
        0 <= i < fields.len() && i != but && names_activity(#[trigger] fields[i]) ==> lex_leq(
            fields[a].0,
            fields[i].0,
            0,
        )
}

/// `r` is the name that the fields of a board give to the activity: none
/// where no field names it; the two least labels joined by `_` where two or
/// more do; else what the single field gives.
pub open spec fn is_fields_name(fields: Seq<(Seq<char>, Seq<char>)>, r: Option<Seq<char>>) -> bool {
    match r {
        None => forall|i: int| 0 <= i < fields.len() ==> !names_activity(#[trigger] fields[i]),
        Some(name) => exists|a: int| #[trigger]
            is_least_field(fields, a, -1) && ((exists|b: int| #[trigger]
                is_least_field(fields, b, a) && name == fields[a].0 + "_"@ + fields[b].0) || ((
            forall|i: int|
                0 <= i < fields.len() && i != a ==> !names_activity(#[trigger] fields[i])) && name
                == single_name(fields[a]))),
    }
}

/// The fields of a board give the activity one name at most.
pub proof fn lemma_fields_name_unique(
    fields: Seq<(Seq<char>, Seq<char>)>,
    r1: Option<Seq<char>>,
    r2: Option<Seq<char>>,
)
    requires
        is_fields_name(fields, r1),
        is_fields_name(fields, r2),
    ensures
        r1 == r2,
{
    if r1 is Some && r2 is Some {
        let n1 = r1->0;
        let n2 = r2->0;
        let a1 = choose|a: int| #[trigger]
            is_least_field(fields, a, -1) && ((exists|b: int| #[trigger]
                is_least_field(fields, b, a) && n1 == fields[a].0 + "_"@ + fields[b].0) || ((
            forall|i: int|
                0 <= i < fields.len() && i != a ==> !names_activity(#[trigger] fields[i])) && n1
                == single_name(fields[a])));
        let a2 = choose|a: int| #[trigger]
            is_least_field(fields, a, -1) && ((exists|b: int| #[trigger]
                is_least_field(fields, b, a) && n2 == fields[a].0 + "_"@ + fields[b].0) || ((
            forall|i: int|
                0 <= i < fields.len() && i != a ==> !names_activity(#[trigger] fields[i])) && n2
                == single_name(fields[a])));
        let k1 = fields[a1].0;
        let k2 = fields[a2].0;
        assert(names_activity(fields[a1]) && names_activity(fields[a2]));
        lemma_lex_order(k1, k2, k1);
        assert(k1 == k2);
        let pair1 = exists|b: int| #[trigger]
            is_least_field(fields, b, a1) && n1 == fields[a1].0 + "_"@ + fields[b].0;
        let pair2 = exists|b: int| #[trigger]
            is_least_field(fields, b, a2) && n2 == fields[a2].0 + "_"@ + fields[b].0;
        if pair1 && pair2 {
            let b1 = choose|b: int| #[trigger]
                is_least_field(fields, b, a1) && n1 == fields[a1].0 + "_"@ + fields[b].0;
            let b2 = choose|b: int| #[trigger]
                is_least_field(fields, b, a2) && n2 == fields[a2].0 + "_"@ + fields[b].0;
            assert(names_activity(fields[b1]) && names_activity(fields[b2]));
            if a1 == a2 {
                lemma_lex_order(fields[b1].0, fields[b2].0, fields[b1].0);
            } else {
                lemma_lex_order(fields[b1].0, k1, fields[b1].0);
                lemma_lex_order(fields[b2].0, k1, fields[b2].0);
            }
            assert(fields[b1].0 == fields[b2].0);
        } else if pair1 {
            let b1 = choose|b: int| #[trigger]
                is_least_field(fields, b, a1) && n1 == fields[a1].0 + "_"@ + fields[b].0;
            assert(names_activity(fields[b1]) && names_activity(fields[a1]));
            assert(b1 == a2 && a1 == a2);
        } else if pair2 {
            let b2 = choose|b: int| #[trigger]
                is_least_field(fields, b, a2) && n2 == fields[a2].0 + "_"@ + fields[b].0;
            assert(names_activity(fields[b2]) && names_activity(fields[a2]));
            assert(b2 == a1 && a1 == a2);
        } else {
            assert(a1 == a2);
        }
    } else if r1 is Some {
        let a = choose|a: int| #[trigger] is_least_field(fields, a, -1);
        assert(names_activity(fields[a]));
    } else if r2 is Some {
        let a = choose|a: int| #[trigger] is_least_field(fields, a, -1);
        assert(names_activity(fields[a]));
    }
}

pub open spec fn field_views(v: Seq<(String, String)>) -> Seq<(Seq<char>, Seq<char>)> {
    v.map_values(|f: (String, String)| (f.0@, f.1@))
}

/// The view of a name that may be missing.
pub open spec fn name_view(r: Option<String>) -> Option<Seq<char>> {
    match r {
        Some(name) => Some(name@),
        None => None,
    }
}

fn has_digit(s: &Vec<char>) -> (r: bool)
    ensures
        r == holds_digit(s@),
{
    let mut i: usize = 0;
    while i < s.len()
        invariant
            i <= s.len(),
            forall|j: int| 0 <= j < i ==> !is_digit(#[trigger] s@[j]),
        decreases s.len() - i,
    {
        if char_is_digit(s[i]) {
            return true;
        }
        i += 1;
    }
    false
}

fn is_meta(k: &Vec<char>) -> (r: bool)
    ensures
        r == is_meta_label(k@),
{
    chars_equal(k, &chars_of("工事名")) || chars_equal(k, &chars_of("工種")) || chars_equal(
        k,
        &chars_of("測点"),
    ) || chars_equal(k, &chars_of("年月日")) || chars_equal(k, &chars_of("撮影")) || chars_equal(
        k,
        &chars_of("写真"),
    )
}

fn field_names_activity(label: &Vec<char>, value: &Vec<char>) -> (r: bool)
    ensures
        r == names_activity((label@, value@)),
{
    if blank_chars(label) || is_meta(label) {
        return false;
    }
    if label.len() > 0 && label[label.len() - 1] == '員' {
        return false;
    }
    !has_digit(value)
}

/// The least of the fields that name the activity, leaving out field `but`.
fn least_field(labels: &Vec<Vec<char>>, ok: &Vec<bool>, but: Option<usize>, Ghost(fields): Ghost<
    Seq<(Seq<char>, Seq<char>)>,
>) -> (r: Option<usize>)
    requires
        labels.len() == fields.len(),
        ok.len() == fields.len(),
        forall|i: int| 0 <= i < fields.len() ==> labels[i]@ == (#[trigger] fields[i]).0,
        forall|i: int| 0 <= i < fields.len() ==> ok[i] == names_activity(#[trigger] fields[i]),
    ensures
        match r {
            Some(a) => is_least_field(
                fields,
                a as int,
                match but {
                    Some(b) => b as int,
                    None => -1,
                },
            ),
            None => forall|i: int|
                0 <= i < fields.len() && Some(i as usize) != but ==> !names_activity(
                    #[trigger] fields[i],
                ),
        },
{
    let ghost skip: int = match but {
        Some(b) => b as int,
        None => -1,
    };
    let mut best: Option<usize> = None;
    let mut i: usize = 0;
    while i < labels.len()
        invariant
            i <= labels.len(),
            labels.len() == fields.len(),
            ok.len() == fields.len(),
            skip == match but {
                Some(b) => b as int,
                None => -1,
            },
            forall|j: int| 0 <= j < fields.len() ==> labels[j]@ == (#[trigger] fields[j]).0,
            forall|j: int| 0 <= j < fields.len() ==> ok[j] == names_activity(#[trigger] fields[j]),
            match best {
                Some(a) => a < i && a != skip && names_activity(fields[a as int]) && forall|j: int|
                    0 <= j < i && j != skip && names_activity(#[trigger] fields[j]) ==> lex_leq(
                        fields[a as int].0,
                        fields[j].0,
                        0,
                    ),
                None => forall|j: int|
                    0 <= j < i && j != skip ==> !names_activity(#[trigger] fields[j]),
            },
        decreases labels.len() - i,
    {
        let skipped = match but {
            Some(b) => b == i,
            None => false,
        };
        if ok[i] && !skipped {
            match best {
                None => {
                    proof {
                        lemma_lex_order(fields[i as int].0, fields[i as int].0, fields[i as int].0);
                    }
                    best = Some(i);
                },
                Some(a) => {
                    if !chars_leq(&labels[a], &labels[i]) {
                        proof {
                            assert forall|j: int|
                                0 <= j < i + 1 && j != skip && names_activity(
                                    #[trigger] fields[j],
                                ) implies lex_leq(fields[i as int].0, fields[j].0, 0) by {
                                lemma_lex_order(
                                    fields[i as int].0,
                                    fields[a as int].0,
                                    fields[j].0,
                                );
                            }
                        }
                        best = Some(i);
                    }
                },
            }
        }
        i += 1;
    }
    best
}

/// The name that the labelled fields of a board give to the activity.
pub fn activity_name_from_fields(fields: &Vec<(String, String)>) -> (r: Option<String>)
    ensures
        is_fields_name(field_views(fields@), name_view(r)),
{
    let ghost fs = field_views(fields@);
    let mut labels: Vec<Vec<char>> = Vec::new();
    let mut ok: Vec<bool> = Vec::new();
    let mut i: usize = 0;
    while i < fields.len()
        invariant
            i <= fields.len(),
            fs == field_views(fields@),
            labels.len() == i,
            ok.len() == i,
            forall|j: int| 0 <= j < i ==> labels[j]@ == (#[trigger] fs[j]).0,
            forall|j: int| 0 <= j < i ==> ok[j] == names_activity(#[trigger] fs[j]),
        decreases fields.len() - i,
    {
        assert(fs[i as int] == (fields@[i as int].0@, fields@[i as int].1@));
        let label = chars_of(fields[i].0.as_str());
        let value = chars_of(fields[i].1.as_str());
        ok.push(field_names_activity(&label, &value));
        labels.push(label);
        i += 1;
    }
    match least_field(&labels, &ok, None, Ghost(fs)) {
        None => None,
        Some(a) => {
            assert(fs[a as int] == (fields@[a as int].0@, fields@[a as int].1@));
            let mut out: Vec<char> = Vec::new();
            push_all(&mut out, &labels[a]);
            match least_field(&labels, &ok, Some(a), Ghost(fs)) {
                Some(b) => {
                    push_str(&mut out, "_");
                    push_all(&mut out, &labels[b]);
                    assert(out@ =~= fs[a as int].0 + "_"@ + fs[b as int].0);
                    assert(is_least_field(fs, b as int, a as int));
                },
                None => {
                    let value = chars_of(fields[a].1.as_str());
                    if !blank_chars(&value) {
                        push_str(&mut out, "_");
                        push_all(&mut out, &trim_chars(&value));
                    }
                    assert(out@ =~= single_name(fs[a as int]));
                    assert forall|i: int| 0 <= i < fs.len() && i != a implies !names_activity(
                        #[trigger] fs[i],
                    ) by {
                        assert(Some(i as usize) != Some(a));
                    }
                },
            }
            assert(is_least_field(fs, a as int, -1));
            Some(string_of(&out))
        },
    }
}

/// What the namer reads of a row.
pub struct RowView {
    pub board_text: Seq<char>,
    pub board_lines: Seq<char>,
    pub board_fields: Seq<char>,
    pub other_text: Seq<char>,
    pub notes: Seq<char>,
}

impl View for ActivityRow {
    type V = RowView;

    open spec fn view(&self) -> RowView {
        RowView {
            board_text: self.board_text@,
            board_lines: self.board_lines@,
            board_fields: self.board_fields@,
            other_text: self.other_text@,
            notes: self.notes@,
        }
    }
}

/// The text of a row in which keywords are sought: with the lines of the
/// board where those are given; else the text of the board and the other
/// text where one of them is; else the notes.
pub open spec fn keyword_text(row: RowView) -> Seq<char> {
    if !is_blank(row.board_lines) {
        row.other_text + " "@ + replaced_from(row.board_lines, " / "@, " "@, 0) + " "@
            + row.board_text + " "@ + row.notes
    } else if !is_blank(row.board_text) || !is_blank(row.other_text) {
        row.other_text + " "@ + row.board_text
    } else {
        row.notes
    }
}

/// `name` is the activity that a text gives: its best two keywords joined;
/// the activity of the photo before, where that is near enough in time, for a
/// text without any keyword.
pub open spec fn is_text_name(
    text: Seq<char>,
    prev: Option<(Seq<char>, int)>,
    gap_min: int,
    ts: int,
    name: Seq<char>,
) -> bool {
    exists|idx: Seq<usize>| #[trigger]
        is_top_ranking(credits_of(tokens_of(text)), 2, idx) && name == (if idx.len() == 0 {
            carried_activity(prev, ts, gap_min)
        } else {
            joined_name(named_terms(idx))
        })
}

/// `name` is the activity of a row: what the fields of its board give; else
/// what the best keywords of its texts give; the activity of the photo
/// before, where it is near enough in time, for a row without any keyword.
pub open spec fn is_activity_name(
    row: RowView,
    prev: Option<(Seq<char>, int)>,
    gap_min: int,
    ts: int,
    name: Seq<char>,
) -> bool {
    is_activity_name_by(fields_of_text(row.board_fields), row, prev, gap_min, ts, name)
}

/// `name` is the activity of a row whose board has the labelled fields
/// `fields`.
pub open spec fn is_activity_name_by(
    fields: Seq<(Seq<char>, Seq<char>)>,
    row: RowView,
    prev: Option<(Seq<char>, int)>,
    gap_min: int,
    ts: int,
    name: Seq<char>,
) -> bool {
    exists|by_fields: Option<Seq<char>>| #[trigger]
        is_fields_name(fields, by_fields) && match by_fields {
            Some(n) => name == n,
            None => is_text_name(keyword_text(row), prev, gap_min, ts, name),
        }
}

/// A row has one activity.
pub proof fn lemma_activity_name_unique(
    fields: Seq<(Seq<char>, Seq<char>)>,
    row: RowView,
    prev: Option<(Seq<char>, int)>,
    gap_min: int,
    ts: int,
    n1: Seq<char>,
    n2: Seq<char>,
)
    requires
        is_activity_name_by(fields, row, prev, gap_min, ts, n1),
        is_activity_name_by(fields, row, prev, gap_min, ts, n2),
    ensures
        n1 == n2,
{
    let text = keyword_text(row);
    let f1 = choose|f: Option<Seq<char>>| #[trigger]
        is_fields_name(fields, f) && match f {
            Some(n) => n1 == n,
            None => is_text_name(text, prev, gap_min, ts, n1),
        };
    let f2 = choose|f: Option<Seq<char>>| #[trigger]
        is_fields_name(fields, f) && match f {
            Some(n) => n2 == n,
            None => is_text_name(text, prev, gap_min, ts, n2),
        };
    lemma_fields_name_unique(fields, f1, f2);
    if f1 is None {
        let cs = credits_of(tokens_of(text));
        let i1 = choose|idx: Seq<usize>| #[trigger]
            is_top_ranking(cs, 2, idx) && n1 == (if idx.len() == 0 {
                carried_activity(prev, ts, gap_min)
            } else {
                joined_name(named_terms(idx))
            });
        let i2 = choose|idx: Seq<usize>| #[trigger]
            is_top_ranking(cs, 2, idx) && n2 == (if idx.len() == 0 {
                carried_activity(prev, ts, gap_min)
            } else {
                joined_name(named_terms(idx))
            });
        lemma_top_ranking_unique(cs, 2, i1, i2);
    }
}

fn keyword_text_of(row: &ActivityRow) -> (r: Vec<char>)
    ensures
        r@ == keyword_text(row@),
{
    let lines = chars_of(row.board_lines.as_str());
    let board = chars_of(row.board_text.as_str());
    let other = chars_of(row.other_text.as_str());
    if !blank_chars(&lines) {
        let mut out = other;
        push_str(&mut out, " ");
        let pat = chars_of(" / ");
        proof {
            reveal_strlit(" / ");
        }
        push_all(&mut out, &replace_all(&lines, &pat, &chars_of(" ")));
        push_str(&mut out, " ");
        push_all(&mut out, &board);
        push_str(&mut out, " ");
        push_str(&mut out, row.notes.as_str());
        out
    } else if !blank_chars(&board) || !blank_chars(&other) {
        let mut out = other;
        push_str(&mut out, " ");
        push_all(&mut out, &board);
        out
    } else {
        chars_of(row.notes.as_str())
    }
}

/// The activity of a row, named from its own texts where they name one.
pub fn auto_activity_name_from_row(
    row: &ActivityRow,
    prev: Option<&ActivityFrame>,
    gap_min: i64,
    ts: i64,
) -> (r: String)
    ensures
        is_activity_name(row@, frame_view(prev), gap_min as int, ts as int, r@),
{
    let fields = read_fields(row.board_fields.as_str());
    name_row_by_fields(&fields, row, prev, gap_min, ts)
}

/// The activity of a row whose board has the labelled fields `fields`.
pub fn name_row_by_fields(
    fields: &Vec<(String, String)>,
    row: &ActivityRow,
    prev: Option<&ActivityFrame>,
    gap_min: i64,
    ts: i64,
) -> (r: String)
    ensures
        is_activity_name_by(
            field_views(fields@),
            row@,
            frame_view(prev),
            gap_min as int,
            ts as int,
            r@,
        ),
{
    let by_fields = activity_name_from_fields(fields);
    let ghost witness = name_view(by_fields);
    match by_fields {
        Some(name) => {
            assert(is_fields_name(field_views(fields@), witness));
            return name;
        },
        None => {},
    }
    assert(is_fields_name(field_views(fields@), witness));
    let text = keyword_text_of(row);
    let keywords = extract_top_keywords(string_of(&text).as_str(), 2);
    proof {
        let idx = choose|idx: Seq<usize>|
            is_top_ranking(credits_of(tokens_of(text@)), 2, idx) && string_views(keywords@)
                == named_terms(idx);
        assert(is_top_ranking(credits_of(tokens_of(text@)), 2, idx));
        assert(string_views(keywords@).len() == keywords@.len());
        assert(named_terms(idx).len() == idx.len());
    }
    if keywords.len() == 0 {
        let frame = ActivityFrame { activity: String::new(), ts };
        return infer_activity_with_gap(prev, &frame, gap_min);
    }
    make_activity_name(keywords.as_slice())
}

/// The text on which the activity of a row is read: the name that the fields
/// of its board give, or its focus text.
pub open spec fn is_row_focus(row: RowView, text: Seq<char>) -> bool {
    exists|by_fields: Option<Seq<char>>| #[trigger]
        is_fields_name(fields_of_text(row.board_fields), by_fields) && match by_fields {
            Some(n) => text == n,
            None => text == focus_text(row.board_text, row.other_text, row.notes),
        }
}

/// The text on which the activity of a row is read.
pub fn focus_from_fields_or_text(row: &ActivityRow) -> (r: String)
    ensures
        is_row_focus(row@, r@),
{
    let fields = read_fields(row.board_fields.as_str());
    let by_fields = activity_name_from_fields(&fields);
    let ghost witness = name_view(by_fields);
    assert(is_fields_name(fields_of_text(row@.board_fields), witness));
    match by_fields {
        Some(name) => name,
        None => select_focus_text(
            row.board_text.as_str(),
            row.other_text.as_str(),
            row.notes.as_str(),
        ),
    }
}

/// The activity of a row by the fixed names: the activity that its focus text
/// names outright, else the activity of the photo before where it is near
/// enough in time.
pub open spec fn is_fixed_activity(
    row: RowView,
    prev: Option<(Seq<char>, int)>,
    gap_min: int,
    ts: int,
    name: Seq<char>,
) -> bool {
    exists|focus: Seq<char>| #[trigger]
        is_row_focus(row, focus) && name == (match activity_of(focus) {
            Some(n) => n,
            None => carried_activity(prev, ts, gap_min),
        })
}

/// The activity of a row by the fixed names.
pub fn fixed_activity_of_row(
    row: &ActivityRow,
    prev: Option<&ActivityFrame>,
    gap_min: i64,
    ts: i64,
) -> (r: String)
    ensures
        is_fixed_activity(row@, frame_view(prev), gap_min as int, ts as int, r@),
{
    let focus = focus_from_fields_or_text(row);
    let r = match classify_activity(focus.as_str()) {
        Some(name) => string_of(&chars_of(name)),
        None => {
            let frame = ActivityFrame { activity: String::new(), ts };
            infer_activity_with_gap(prev, &frame, gap_min)
        },
    };
    assert(is_row_focus(row@, focus@));
    r
}

/// The frame before row `i`: the activity given to the row before it and the
/// time of that row; none before the first row.
pub open spec fn frame_before(times: Seq<int>, names: Seq<Seq<char>>, i: int) -> Option<
    (Seq<char>, int),
> {
    if i <= 0 {
        None
    } else {
        Some((names[i - 1], times[i - 1]))
    }
}

/// `names` are the activities of the rows, taken in their order: each row is
/// named with the row before it as its frame, from its own texts where
/// `auto`, else by the fixed names.
pub open spec fn are_activities(
    times: Seq<int>,
    rows: Seq<RowView>,
    gap_min: int,
    auto: bool,
    names: Seq<Seq<char>>,
) -> bool {
    &&& names.len() == rows.len()
    &&& forall|i: int|
        0 <= i < rows.len() ==> if auto {
            is_activity_name(
                rows[i],
                frame_before(times, names, i),
                gap_min,
                times[i],
                #[trigger] names[i],
            )
        } else {
            is_fixed_activity(rows[i], frame_before(times, names, i), gap_min, times[i], names[i])
        }
}

pub open spec fn row_times(rows: Seq<(i64, ActivityRow)>) -> Seq<int> {
    rows.map_values(|r: (i64, ActivityRow)| r.0 as int)
}

pub open spec fn row_views(rows: Seq<(i64, ActivityRow)>) -> Seq<RowView> {
    rows.map_values(|r: (i64, ActivityRow)| r.1@)
}

/// The activity of every row, the rows taken in the order given; each row
/// comes with the time at which its photo was taken.
pub fn activities_of_rows(rows: &Vec<(i64, ActivityRow)>, gap_min: i64, auto: bool) -> (r: Vec<
    String,
>)
    ensures
        are_activities(
            row_times(rows@),
            row_views(rows@),
            gap_min as int,
            auto,
            string_views(r@),
        ),
{
    let ghost times = row_times(rows@);
    let ghost views = row_views(rows@);
    let mut out: Vec<String> = Vec::new();
    let mut prev: Option<ActivityFrame> = None;
    let mut i: usize = 0;
    while i < rows.len()
        invariant
            i <= rows.len(),
            times == row_times(rows@),
            views == row_views(rows@),
            out.len() == i,
            match prev {
                Some(p) => i > 0 && p.activity@ == out[i - 1]@ && p.ts == times[i - 1],
                None => i == 0,
            },
            forall|j: int|
                0 <= j < i ==> if auto {
                    is_activity_name(
                        views[j],
                        frame_before(times, string_views(out@), j),
                        gap_min as int,
                        times[j],
                        #[trigger] string_views(out@)[j],
                    )
                } else {
                    is_fixed_activity(
                        views[j],
                        frame_before(times, string_views(out@), j),
                        gap_min as int,
                        times[j],
                        string_views(out@)[j],
                    )
                },
        decreases rows.len() - i,
    {
        let ts = rows[i].0;
        let row = &rows[i].1;
        let ghost before = out@;
        let frame: Option<&ActivityFrame> = match &prev {
            Some(p) => Some(p),
            None => None,
        };
        assert(frame_view(frame) == frame_before(times, string_views(before), i as int));
        let name = if auto {
            auto_activity_name_from_row(row, frame, gap_min, ts)
        } else {
            fixed_activity_of_row(row, frame, gap_min, ts)
        };
        prev = Some(ActivityFrame { activity: name.clone(), ts });
        out.push(name);
        proof {
            assert(views[i as int] == rows@[i as int].1@);
            assert(times[i as int] == ts);
            assert forall|j: int| 0 <= j < i + 1 implies string_views(out@)[j] == (if j < i {
                string_views(before)[j]
            } else {
                name@
            }) by {}
            assert forall|j: int| 0 <= j < i + 1 implies frame_before(
                times,
                string_views(out@),
                j,
            ) == frame_before(times, string_views(before), j) by {
                if j > 0 {
                    assert(string_views(out@)[j - 1] == string_views(before)[j - 1]);
                }
            }
        }
        i += 1;
    }
    out
}

} // verus!
