use vstd::prelude::*;
use crate::text::{
    char_is_punctuation, char_is_space, chars_of, contains_chars, contains_seq, is_punctuation,
    is_space, str_contains, string_of, string_views, views,
};

verus! {

/// One object that was found in a photo: what it is called, and the share of
/// the picture that it covers, in millionths.
#[derive(Debug)]
pub struct ObjectItem {
    pub label: String,
    pub bbox: ObjectBBox,
    pub area_ppm: u32,
}

/// Where an object lies in the picture, each measure in millionths of the
/// picture's width or height.
#[derive(Clone, Copy, Debug, PartialEq, Eq, Structural)]
pub struct ObjectBBox {
    pub x: u32,
    pub y: u32,
    pub w: u32,
    pub h: u32,
}

/// An `ObjectItem` as the classifier reads it.
pub struct ObjectView {
    pub label: Seq<char>,
    pub area: int,
}

impl View for ObjectItem {
    type V = ObjectView;

    open spec fn view(&self) -> ObjectView {
        ObjectView { label: self.label@, area: self.area_ppm as int }
    }
}

pub open spec fn object_views(v: Seq<ObjectItem>) -> Seq<ObjectView> {
    v.map_values(|o: ObjectItem| o@)
}

impl Default for ObjectBBox {
    fn default() -> (r: ObjectBBox)
        ensures
            r == (ObjectBBox { x: 0, y: 0, w: 0, h: 0 }),
    {
        ObjectBBox { x: 0, y: 0, w: 0, h: 0 }
    }
}

impl Default for ObjectItem {
    fn default() -> (r: ObjectItem)
        ensures
            r@ == (ObjectView { label: Seq::empty(), area: 0 }),
    {
        ObjectItem { label: String::new(), bbox: ObjectBBox { x: 0, y: 0, w: 0, h: 0 }, area_ppm: 0 }
    }
}

/// The kinds of photo that the classifier tells apart.
#[derive(Clone, Copy, Debug, PartialEq, Eq, Structural)]
pub enum SceneType {
    Overview,
    BoardWithMeasure,
    MeasureCloseup,
}

/// The share of the picture, in millionths, that a board must cover.
pub const BOARD_THRESHOLD_PPM: u32 = 150_000;

/// The share of the picture, in millionths, that a measuring tool must cover
/// for a close-up.
pub const MEASURE_THRESHOLD_PPM: u32 = 250_000;

/// The Unicode text in Normalization Form KC of a text.
pub uninterp spec fn nfkc_of(s: Seq<char>) -> Seq<char>;

/// The lowercase form of a text, by the Unicode case mapping.
pub uninterp spec fn lowercase_of(s: Seq<char>) -> Seq<char>;

/// `unicode_normalization::UnicodeNormalization::nfkc` on a string slice,
/// collected: the text in Normalization Form KC. The contract only gives the
/// result its name.
#[verifier::external_body]
fn nfkc_string(s: &str) -> (r: String)
    ensures
        r@ == nfkc_of(s@),
{
    unicode_normalization::UnicodeNormalization::nfkc(s).collect()
}

/// `str::to_lowercase`: the lowercase form of the text. The contract only
/// gives the result its name.
#[verifier::external_body]
fn lowercase_string(s: &str) -> (r: String)
    ensures
        r@ == lowercase_of(s@),
{
    s.to_lowercase()
}

/// Characters that carry no meaning when two labels are compared: white
/// space, ASCII punctuation, and the dashes, dots, separators and brackets of
/// Japanese and full-width text.
pub open spec fn is_noise(c: char) -> bool {
    ||| is_space(c)
    ||| is_punctuation(c)
    ||| c == '\u{2010}'
    ||| c == '\u{2011}'
    ||| c == '\u{2012}'
    ||| c == '\u{2013}'
    ||| c == '\u{2014}'
    ||| c == '\u{2015}'
    ||| c == '\u{ff0d}'
    ||| c == '\u{ff70}'
    ||| c == '\u{30fc}'
    ||| c == '\u{30fb}'
    ||| c == '\u{ff65}'
    ||| c == '\u{ff0f}'
    ||| c == '\u{ff5c}'
    ||| c == '\u{ff0e}'
    ||| c == '\u{3002}'
    ||| c == '\u{3001}'
    ||| c == '\u{ff0c}'
    ||| c == '\u{ff64}'
    ||| c == '\u{ff1a}'
    ||| c == '\u{ff1b}'
    ||| c == '\u{ff08}'
    ||| c == '\u{ff09}'
    ||| c == '\u{3010}'
    ||| c == '\u{3011}'
    ||| c == '\u{300c}'
    ||| c == '\u{300d}'
    ||| c == '\u{300e}'
    ||| c == '\u{300f}'
    ||| c == '\u{3008}'
    ||| c == '\u{3009}'
    ||| c == '\u{300a}'
    ||| c == '\u{300b}'
    ||| c == '\u{301c}'
}

/// `s` without its noise characters.
pub open spec fn without_noise(s: Seq<char>) -> Seq<char>
    decreases s.len(),
{
    if s.len() == 0 {
        Seq::empty()
    } else if is_noise(s.last()) {
        without_noise(s.drop_last())
    } else {
        without_noise(s.drop_last()).push(s.last())
    }
}

/// The form in which labels are compared: width and compatibility variants
/// folded, in lowercase, without noise characters.
pub open spec fn match_form(s: Seq<char>) -> Seq<char> {
    without_noise(lowercase_of(nfkc_of(s)))
}

pub open spec fn match_forms(labels: Seq<Seq<char>>) -> Seq<Seq<char>> {
    labels.map_values(|l: Seq<char>| match_form(l))
}

/// The label, in the form in which labels are compared, names one of the
/// terms: it is not empty and a term that is not empty occurs in it.
pub open spec fn names_term(label: Seq<char>, terms: Seq<Seq<char>>) -> bool {
    label.len() > 0 && exists|k: int|
        0 <= k < terms.len() && (#[trigger] terms[k]).len() > 0 && contains_seq(label, terms[k])
}

/// The label names a measuring tool of the lexicon.
pub open spec fn measure_label(label: Seq<char>, lexicon: Seq<Seq<char>>) -> bool {
    names_term(match_form(label), match_forms(lexicon))
}

/// The label names an electronic board.
pub open spec fn electronic_label(label: Seq<char>) -> bool {
    contains_seq(label, "電子小黒板"@) || contains_seq(label, "電子黒板"@)
}

/// The label names a board of some kind.
pub open spec fn board_family(label: Seq<char>) -> bool {
    contains_seq(label, "黒板"@) || contains_seq(label, "ホワイトボード"@) || contains_seq(
        label,
        "工事用黒板"@,
    ) || contains_seq(label, "手書きボード"@)
}

/// The label names a board that counts: any board, but an electronic one only
/// where those are included.
pub open spec fn board_label(label: Seq<char>, include_e_board: bool) -> bool {
    board_family(label) && (include_e_board || !electronic_label(label))
}

/// The label names a board that is not electronic.
pub open spec fn physical_label(label: Seq<char>) -> bool {
    (contains_seq(label, "黒板"@) && !contains_seq(label, "電子"@)) || contains_seq(
        label,
        "ホワイトボード"@,
    ) || contains_seq(label, "工事用黒板"@) || contains_seq(label, "手書きボード"@)
}

/// The largest area among the first `n` objects that are boards; 0 if none is.
pub open spec fn max_board_area(objects: Seq<ObjectView>, include_e_board: bool, n: int) -> int
    decreases n,
{
    if n <= 0 {
        0
    } else if board_label(objects[n - 1].label, include_e_board) && objects[n - 1].area
        > max_board_area(objects, include_e_board, n - 1) {
        objects[n - 1].area
    } else {
        max_board_area(objects, include_e_board, n - 1)
    }
}

/// The largest area among the first `n` objects that are measuring tools; 0
/// if none is.
pub open spec fn max_measure_area(objects: Seq<ObjectView>, lexicon: Seq<Seq<char>>, n: int) -> int
    decreases n,
{
    if n <= 0 {
        0
    } else if measure_label(objects[n - 1].label, lexicon) && objects[n - 1].area
        > max_measure_area(objects, lexicon, n - 1) {
        objects[n - 1].area
    } else {
        max_measure_area(objects, lexicon, n - 1)
    }
}

/// The kind of photo, by the largest board and the largest measuring tool.
pub open spec fn scene_by_areas(
    max_board: int,
    max_measure: int,
    board_threshold: int,
    measure_threshold: int,
) -> SceneType {
    if max_measure >= measure_threshold {
        SceneType::MeasureCloseup
    } else if max_board >= board_threshold || (max_board > 0 && max_measure > 0) {
        SceneType::BoardWithMeasure
    } else {
        SceneType::Overview
    }
}

/// The kind of photo that the objects found in it make.
pub open spec fn scene_of(
    objects: Seq<ObjectView>,
    include_e_board: bool,
    board_threshold: int,
    measure_threshold: int,
    lexicon: Seq<Seq<char>>,
) -> SceneType {
    scene_by_areas(
        max_board_area(objects, include_e_board, objects.len() as int),
        max_measure_area(objects, lexicon, objects.len() as int),
        board_threshold,
        measure_threshold,
    )
}

/// The name under which a kind of photo is recorded.
pub open spec fn scene_name(t: SceneType) -> Seq<char> {
    match t {
        SceneType::Overview => "overview"@,
        SceneType::BoardWithMeasure => "board_with_measure"@,
        SceneType::MeasureCloseup => "measure_closeup"@,
    }
}

/// The built-in names of measuring tools.
pub open spec fn default_lexicon() -> Seq<Seq<char>> {
    seq![
        "メジャー"@,
        "巻尺"@,
        "定規"@,
        "スケール"@,
        "ノギス"@,
        "クラックスケール"@,
        "厚さ"@,
        "ゲージ"@,
        "温度計"@,
        "計測"@,
        "測定"@,
    ]
}

/// The terms among the first `n` of the lexicon that some object names, in
/// the order of the lexicon.
pub open spec fn matched_terms(labels: Seq<Seq<char>>, lexicon: Seq<Seq<char>>, n: int) -> Seq<
    Seq<char>,
>
    decreases n,
{
    if n <= 0 {
        Seq::empty()
    } else if term_is_named(match_forms(labels), match_form(lexicon[n - 1])) {
        matched_terms(labels, lexicon, n - 1).push(lexicon[n - 1])
    } else {
        matched_terms(labels, lexicon, n - 1)
    }
}

/// The term, in the form in which labels are compared, is not empty and
/// occurs in one of the labels.
pub open spec fn term_is_named(labels: Seq<Seq<char>>, term: Seq<char>) -> bool {
    term.len() > 0 && exists|j: int| 0 <= j < labels.len() && contains_seq(#[trigger] labels[j], term)
}

pub open spec fn labels_of(objects: Seq<ObjectView>) -> Seq<Seq<char>> {
    objects.map_values(|o: ObjectView| o.label)
}

/// Only electronic boards are among the objects: one of them is an
/// electronic board and none is a physical one.
pub open spec fn e_board_only(objects: Seq<ObjectView>) -> bool {
    (exists|i: int| 0 <= i < objects.len() && electronic_label((#[trigger] objects[i]).label))
        && forall|i: int| 0 <= i < objects.len() ==> !physical_label((#[trigger] objects[i]).label)
}

pub fn is_noise_char(c: char) -> (r: bool)
    ensures
        r == is_noise(c),
{
    char_is_space(c) || char_is_punctuation(c) || c == '\u{2010}' || c == '\u{2011}' || c == '\u{2012}' || c == '\u{2013}' || c == '\u{2014}' || c == '\u{2015}' || c == '\u{ff0d}' || c == '\u{ff70}' || c == '\u{30fc}' || c == '\u{30fb}' || c == '\u{ff65}' || c == '\u{ff0f}' || c == '\u{ff5c}' || c == '\u{ff0e}' || c == '\u{3002}' || c == '\u{3001}' || c == '\u{ff0c}' || c == '\u{ff64}' || c == '\u{ff1a}' || c == '\u{ff1b}' || c == '\u{ff08}' || c == '\u{ff09}' || c == '\u{3010}' || c == '\u{3011}' || c == '\u{300c}' || c == '\u{300d}' || c == '\u{300e}' || c == '\u{300f}' || c == '\u{3008}' || c == '\u{3009}' || c == '\u{300a}' || c == '\u{300b}' || c == '\u{301c}'
}

/// `s` without its noise characters.
pub fn strip_noise(s: &Vec<char>) -> (r: Vec<char>)
    ensures
        r@ == without_noise(s@),
{
    let mut out: Vec<char> = Vec::new();
    let mut i: usize = 0;
    while i < s.len()
        invariant
            i <= s.len(),
            out@ == without_noise(s@.take(i as int)),
        decreases s.len() - i,
    {
        assert(s@.take(i as int + 1).drop_last() == s@.take(i as int));
        if !is_noise_char(s[i]) {
            out.push(s[i]);
        }
        i += 1;
    }
    assert(s@.take(s.len() as int) == s@);
    out
}

/// The form of `s` in which labels are compared.
pub fn normalize_for_match(s: &str) -> (r: Vec<char>)
    ensures
        r@ == match_form(s@),
{
    let folded = nfkc_string(s);
    let lowered = lowercase_string(folded.as_str());
    strip_noise(&chars_of(lowered.as_str()))
}

/// The forms of `labels` in which labels are compared.
pub fn normalize_all(labels: &Vec<String>) -> (r: Vec<Vec<char>>)
    ensures
        views(r@) == match_forms(string_views(labels@)),
{
    let mut out: Vec<Vec<char>> = Vec::new();
    let mut i: usize = 0;
    while i < labels.len()
        invariant
            i <= labels.len(),
            out.len() == i,
            forall|j: int| 0 <= j < i ==> out[j]@ == match_form(labels[j]@),
        decreases labels.len() - i,
    {
        out.push(normalize_for_match(labels[i].as_str()));
        i += 1;
    }
    assert(views(out@) =~= match_forms(string_views(labels@)));
    out
}

/// Whether a label names one of the terms, both in the form in which labels
/// are compared.
pub fn label_names_term(label: &Vec<char>, terms: &Vec<Vec<char>>) -> (r: bool)
    ensures
        r == names_term(label@, views(terms@)),
{
    if label.len() == 0 {
        return false;
    }
    let mut k: usize = 0;
    while k < terms.len()
        invariant
            k <= terms.len(),
            label@.len() > 0,
            forall|j: int|
                0 <= j < k ==> !((#[trigger] views(terms@)[j]).len() > 0 && contains_seq(
                    label@,
                    views(terms@)[j],
                )),
        decreases terms.len() - k,
    {
        assert(views(terms@)[k as int] == terms@[k as int]@);
        if terms[k].len() > 0 && contains_chars(label, &terms[k]) {
            return true;
        }
        k += 1;
    }
    false
}

/// Whether a term is named by one of the labels, both in the form in which
/// labels are compared.
pub fn term_named_by(labels: &Vec<Vec<char>>, term: &Vec<char>) -> (r: bool)
    ensures
        r == term_is_named(views(labels@), term@),
{
    if term.len() == 0 {
        return false;
    }
    let mut j: usize = 0;
    while j < labels.len()
        invariant
            j <= labels.len(),
            term@.len() > 0,
            forall|i: int| 0 <= i < j ==> !contains_seq(#[trigger] views(labels@)[i], term@),
        decreases labels.len() - j,
    {
        assert(views(labels@)[j as int] == labels@[j as int]@);
        if contains_chars(&labels[j], term) {
            return true;
        }
        j += 1;
    }
    false
}

/// Whether the label names a measuring tool of the lexicon.
pub fn is_measure_label(label: &str, measure_labels: &Vec<String>) -> (r: bool)
    ensures
        r == measure_label(label@, string_views(measure_labels@)),
{
    let terms = normalize_all(measure_labels);
    label_names_term(&normalize_for_match(label), &terms)
}

fn is_electronic_label(label: &str) -> (r: bool)
    ensures
        r == electronic_label(label@),
{
    str_contains(label, "電子小黒板") || str_contains(label, "電子黒板")
}

fn is_physical_label(label: &str) -> (r: bool)
    ensures
        r == physical_label(label@),
{
    (str_contains(label, "黒板") && !str_contains(label, "電子")) || str_contains(
        label,
        "ホワイトボード",
    ) || str_contains(label, "工事用黒板") || str_contains(label, "手書きボード")
}

/// Whether the label names a board that counts.
pub fn is_board_label(label: &str, include_e_board: bool) -> (r: bool)
    ensures
        r == board_label(label@, include_e_board),
{
    if str_contains(label, "黒板") || str_contains(label, "ホワイトボード") || str_contains(
        label,
        "工事用黒板",
    ) || str_contains(label, "手書きボード") {
        include_e_board || !is_electronic_label(label)
    } else {
        false
    }
}

/// Whether the only boards among the objects are electronic ones.
pub fn is_e_board_only(objects: &Vec<ObjectItem>) -> (r: bool)
    ensures
        r == e_board_only(object_views(objects@)),
{
    let ghost objs = object_views(objects@);
    let mut has_e: bool = false;
    let mut i: usize = 0;
    while i < objects.len()
        invariant
            i <= objects.len(),
            objs == object_views(objects@),
            has_e == exists|j: int| 0 <= j < i && electronic_label((#[trigger] objs[j]).label),
            forall|j: int| 0 <= j < i ==> !physical_label((#[trigger] objs[j]).label),
        decreases objects.len() - i,
    {
        assert(objs[i as int].label == objects@[i as int].label@);
        if is_physical_label(objects[i].label.as_str()) {
            return false;
        }
        if is_electronic_label(objects[i].label.as_str()) {
            has_e = true;
        }
        i += 1;
    }
    has_e
}

/// The kind of photo that a record keeps as reported: an overview where the
/// only boards in it are electronic and those are not included; else what
/// was reported.
pub open spec fn settled_scene(
    reported: Seq<char>,
    objects: Seq<ObjectView>,
    include_e_board: bool,
) -> Seq<char> {
    if !include_e_board && e_board_only(objects) {
        scene_name(SceneType::Overview)
    } else {
        reported
    }
}

/// The kind of photo that a record keeps as reported.
pub fn settle_scene_type(reported: String, objects: &Vec<ObjectItem>, include_e_board: bool) -> (r:
    String)
    ensures
        r@ == settled_scene(reported@, object_views(objects@), include_e_board),
{
    if !include_e_board && is_e_board_only(objects) {
        scene_label(SceneType::Overview)
    } else {
        reported
    }
}

/// The built-in names of measuring tools.
pub fn default_measure_labels() -> (r: Vec<String>)
    ensures
        string_views(r@) == default_lexicon(),
{
    let mut v: Vec<String> = Vec::new();
    v.push(string_of(&chars_of("メジャー")));
    v.push(string_of(&chars_of("巻尺")));
    v.push(string_of(&chars_of("定規")));
    v.push(string_of(&chars_of("スケール")));
    v.push(string_of(&chars_of("ノギス")));
    v.push(string_of(&chars_of("クラックスケール")));
    v.push(string_of(&chars_of("厚さ")));
    v.push(string_of(&chars_of("ゲージ")));
    v.push(string_of(&chars_of("温度計")));
    v.push(string_of(&chars_of("計測")));
    v.push(string_of(&chars_of("測定")));
    assert(string_views(v@) =~= default_lexicon());
    v
}

/// The kind of photo, given the largest board and the largest measuring tool
/// in it.
pub fn classify_by_areas(
    max_board: u32,
    max_measure: u32,
    board_threshold: u32,
    measure_threshold: u32,
) -> (r: SceneType)
    ensures
        r == scene_by_areas(
            max_board as int,
            max_measure as int,
            board_threshold as int,
            measure_threshold as int,
        ),
{
    if max_measure >= measure_threshold {
        SceneType::MeasureCloseup
    } else if max_board >= board_threshold || (max_board > 0 && max_measure > 0) {
        SceneType::BoardWithMeasure
    } else {
        SceneType::Overview
    }
}

/// The name under which a kind of photo is recorded.
pub fn scene_label(t: SceneType) -> (r: String)
    ensures
        r@ == scene_name(t),
{
    match t {
        SceneType::Overview => string_of(&chars_of("overview")),
        SceneType::BoardWithMeasure => string_of(&chars_of("board_with_measure")),
        SceneType::MeasureCloseup => string_of(&chars_of("measure_closeup")),
    }
}

/// The kind of photo that the objects make: a close-up where a measuring tool
/// covers enough of the picture; a board with a measure where a board does,
/// or where both a board and a measuring tool are seen; else an overview.
pub fn infer_scene_from_objects_with_params(
    objects: &Vec<ObjectItem>,
    include_e_board: bool,
    board_threshold: u32,
    measure_threshold: u32,
    measure_labels: &Vec<String>,
) -> (r: String)
    ensures
        r@ == scene_name(
            scene_of(
                object_views(objects@),
                include_e_board,
                board_threshold as int,
                measure_threshold as int,
                string_views(measure_labels@),
            ),
        ),
{
    let ghost objs = object_views(objects@);
    let ghost lexicon = string_views(measure_labels@);
    let terms = normalize_all(measure_labels);
    let mut max_board: u32 = 0;
    let mut max_measure: u32 = 0;
    let mut i: usize = 0;
    while i < objects.len()
        invariant
            i <= objects.len(),
            objs == object_views(objects@),
            lexicon == string_views(measure_labels@),
            views(terms@) == match_forms(lexicon),
            max_board == max_board_area(objs, include_e_board, i as int),
            max_measure == max_measure_area(objs, lexicon, i as int),
        decreases objects.len() - i,
    {
        assert(objs[i as int] == objects@[i as int]@);
        let label = objects[i].label.as_str();
        if is_board_label(label, include_e_board) && objects[i].area_ppm > max_board {
            max_board = objects[i].area_ppm;
        }
        if label_names_term(&normalize_for_match(label), &terms) && objects[i].area_ppm
            > max_measure {
            max_measure = objects[i].area_ppm;
        }
        i += 1;
    }
    scene_label(classify_by_areas(max_board, max_measure, board_threshold, measure_threshold))
}

/// The kind of photo that the objects make, by the built-in thresholds and
/// names of measuring tools.
pub fn infer_scene_from_objects(objects: &Vec<ObjectItem>, include_e_board: bool) -> (r: String)
    ensures
        r@ == scene_name(
            scene_of(
                object_views(objects@),
                include_e_board,
                BOARD_THRESHOLD_PPM as int,
                MEASURE_THRESHOLD_PPM as int,
                default_lexicon(),
            ),
        ),
{
    let labels = default_measure_labels();
    infer_scene_from_objects_with_params(
        objects,
        include_e_board,
        BOARD_THRESHOLD_PPM,
        MEASURE_THRESHOLD_PPM,
        &labels,
    )
}

/// The terms of the lexicon that some object names, in the order of the
/// lexicon.
pub fn match_measure_labels(objects: &Vec<ObjectItem>, measure_labels: &Vec<String>) -> (r: Vec<
    String,
>)
    ensures
        string_views(r@) == matched_terms(
            labels_of(object_views(objects@)),
            string_views(measure_labels@),
            measure_labels@.len() as int,
        ),
{
    let ghost labels = labels_of(object_views(objects@));
    let ghost lexicon = string_views(measure_labels@);
    let mut forms: Vec<Vec<char>> = Vec::new();
    let mut j: usize = 0;
    while j < objects.len()
        invariant
            j <= objects.len(),
            labels == labels_of(object_views(objects@)),
            forms.len() == j,
            forall|i: int| 0 <= i < j ==> forms[i]@ == match_form(labels[i]),
        decreases objects.len() - j,
    {
        assert(labels[j as int] == objects@[j as int].label@);
        forms.push(normalize_for_match(objects[j].label.as_str()));
        j += 1;
    }
    assert(views(forms@) =~= match_forms(labels));
    let mut out: Vec<String> = Vec::new();
    let mut n: usize = 0;
    assert(string_views(out@) =~= matched_terms(labels, lexicon, 0));
    while n < measure_labels.len()
        invariant
            n <= measure_labels.len(),
            lexicon == string_views(measure_labels@),
            views(forms@) == match_forms(labels),
            string_views(out@) == matched_terms(labels, lexicon, n as int),
        decreases measure_labels.len() - n,
    {
        assert(lexicon[n as int] == measure_labels@[n as int]@);
        let term = normalize_for_match(measure_labels[n].as_str());
        if term_named_by(&forms, &term) {
            let ghost before = out@;
            out.push(measure_labels[n].clone());
            assert(string_views(out@) =~= string_views(before).push(lexicon[n as int]));
        }
        n += 1;
    }
    out
}

} // verus!
