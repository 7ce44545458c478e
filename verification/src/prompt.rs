use vstd::prelude::*;
use vstd::string::StrSliceExecFns;
use crate::text::{chars_of, joined, push_str, string_of, string_views};

verus! {

/// Each of `items` between double quotes.
pub open spec fn quoted(items: Seq<Seq<char>>) -> Seq<Seq<char>> {
    items.map_values(|c: Seq<char>| "\""@ + c + "\""@)
}

pub open spec fn str_views(v: Seq<&str>) -> Seq<Seq<char>> {
    v.map_values(|s: &str| s@)
}

pub open spec fn batch_head() -> Seq<char> {
    "以下の工事現場写真の黒板に書かれたテキストを読み取り、最も近いカテゴリに分類せよ。Output ONLY JSON array: [{\"file\":\"filename\",\"tag\":\"?\",\"confidence\":0}, ...]\nファイル: "@
}

pub open spec fn batch_middle() -> Seq<char> {
    "\nカテゴリ候補(必ずこの中から選べ):\n"@
}

pub open spec fn batch_tail() -> Seq<char> {
    "\n黒板のテキストとカテゴリ名を照合し、最も一致するものを選べ。\nconfidence: 0.0~1.0"@
}

pub open spec fn group_head() -> Seq<char> {
    "工事現場の使用機械写真を分類せよ。各機械につき3枚1組: 機械全景/特定自主検査証票(またはナンバープレート)/排ガス対策型・低騒音型機械証票。Output ONLY JSON array: [{\"file\":\"filename\",\"role\":\"?\",\"machine_type\":\"?\",\"machine_id\":\"?\"}, ...]\nファイル: "@
}

pub open spec fn group_tail() -> Seq<char> {
    "\nrole: \"機械全景\" or \"特定自主検査証票\" or \"排ガス対策型・低騒音型機械証票\" or \"ナンバープレート\"\nmachine_type: 機械の種類(例: タイヤローラー, アスファルトフィニッシャー, バックホウ)\nmachine_id: 型式番号(例: TZ-703, HA60C-2)。証票や銘板から読み取れ。同一機械の3枚は同じmachine_idにせよ。"@
}

pub open spec fn material_head() -> Seq<char> {
    "次の画像について、写っている物体と文字情報だけを抽出せよ。推測や分類は不要。Output ONLY JSON object: {\"file\":\""@
}

pub open spec fn material_middle() -> Seq<char> {
    "\",\"scene_type\":\"overview|board_with_measure|measure_closeup\",\"objects\":[{\"label\":\"\",\"bbox\":{\"x\":0,\"y\":0,\"w\":0,\"h\":0},\"area_ratio\":0}],\"board_text\":\"\",\"other_text\":\"\",\"notes\":\"\"}\n対象ファイル: "@
}

pub open spec fn material_tail() -> Seq<char> {
    "\nscene_type: 写真タイプは3択のみ (overview / board_with_measure / measure_closeup)\nobjects: 写っている主要物体を最大8件。各要素は {label, bbox, area_ratio}。bboxは0..1の正規化座標。\nboard_text: 黒板があればその文字をそのまま\nboard_lines: 黒板の各行を配列で返す\nboard_fields: 黒板のラベル(例: 工事名, 工種, 測点, 処分状況)をキーにした辞書\nother_text: 黒板以外の文字（標識、銘板、番号など）\nnotes: 事実ベースの補足（任意）"@
}

/// The request that asks for the category of each of the named photos.
pub open spec fn batch_prompt_text(filenames: Seq<Seq<char>>, categories: Seq<Seq<char>>) -> Seq<
    char,
> {
    batch_head() + joined(filenames, ", "@, filenames.len() as int) + batch_middle() + joined(
        quoted(categories),
        " "@,
        categories.len() as int,
    ) + batch_tail()
}

/// The request that asks for the machine on each of the named photos.
pub open spec fn group_prompt_text(filenames: Seq<Seq<char>>) -> Seq<char> {
    group_head() + joined(filenames, ", "@, filenames.len() as int) + group_tail()
}

/// The request that asks for the objects and texts on the named photo.
pub open spec fn material_prompt_text(file: Seq<char>) -> Seq<char> {
    material_head() + file + material_middle() + file + material_tail()
}

fn push_names(out: &mut Vec<char>, names: &[&str])
    ensures
        final(out)@ == old(out)@ + joined(str_views(names@), ", "@, names@.len() as int),
{
    let ghost items = str_views(names@);
    let mut i: usize = 0;
    assert(old(out)@ + joined(items, ", "@, 0) =~= old(out)@);
    while i < names.len()
        invariant
            i <= names.len(),
            items == str_views(names@),
            out@ == old(out)@ + joined(items, ", "@, i as int),
        decreases names.len() - i,
    {
        assert(items[i as int] == names@[i as int]@);
        let ghost before = out@;
        if i > 0 {
            push_str(out, ", ");
        }
        push_str(out, names[i]);
        assert(out@ =~= old(out)@ + joined(items, ", "@, i as int + 1));
        i += 1;
    }
}

fn push_quoted(out: &mut Vec<char>, names: &[String])
    ensures
        final(out)@ == old(out)@ + joined(
            quoted(string_views(names@)),
            " "@,
            names@.len() as int,
        ),
{
    let ghost items = quoted(string_views(names@));
    let mut i: usize = 0;
    assert(old(out)@ + joined(items, " "@, 0) =~= old(out)@);
    while i < names.len()
        invariant
            i <= names.len(),
            items == quoted(string_views(names@)),
            out@ == old(out)@ + joined(items, " "@, i as int),
        decreases names.len() - i,
    {
        assert(items[i as int] == "\""@ + names@[i as int]@ + "\""@);
        if i > 0 {
            push_str(out, " ");
        }
        push_str(out, "\"");
        push_str(out, names[i].as_str());
        push_str(out, "\"");
        assert(out@ =~= old(out)@ + joined(items, " "@, i as int + 1));
        i += 1;
    }
}

/// The request that asks for the category of each of the named photos.
pub fn batch_prompt(filenames: &[&str], categories: &[String]) -> (r: String)
    ensures
        r@ == batch_prompt_text(str_views(filenames@), string_views(categories@)),
{
    let mut out = chars_of(
        "以下の工事現場写真の黒板に書かれたテキストを読み取り、最も近いカテゴリに分類せよ。Output ONLY JSON array: [{\"file\":\"filename\",\"tag\":\"?\",\"confidence\":0}, ...]\nファイル: ",
    );
    push_names(&mut out, filenames);
    push_str(&mut out, "\nカテゴリ候補(必ずこの中から選べ):\n");
    push_quoted(&mut out, categories);
    push_str(
        &mut out,
        "\n黒板のテキストとカテゴリ名を照合し、最も一致するものを選べ。\nconfidence: 0.0~1.0",
    );
    string_of(&out)
}

/// The request that asks for the machine on each of the named photos.
pub fn group_prompt(filenames: &[&str]) -> (r: String)
    ensures
        r@ == group_prompt_text(str_views(filenames@)),
{
    let mut out = chars_of(
        "工事現場の使用機械写真を分類せよ。各機械につき3枚1組: 機械全景/特定自主検査証票(またはナンバープレート)/排ガス対策型・低騒音型機械証票。Output ONLY JSON array: [{\"file\":\"filename\",\"role\":\"?\",\"machine_type\":\"?\",\"machine_id\":\"?\"}, ...]\nファイル: ",
    );
    push_names(&mut out, filenames);
    push_str(
        &mut out,
        "\nrole: \"機械全景\" or \"特定自主検査証票\" or \"排ガス対策型・低騒音型機械証票\" or \"ナンバープレート\"\nmachine_type: 機械の種類(例: タイヤローラー, アスファルトフィニッシャー, バックホウ)\nmachine_id: 型式番号(例: TZ-703, HA60C-2)。証票や銘板から読み取れ。同一機械の3枚は同じmachine_idにせよ。",
    );
    string_of(&out)
}

/// The request that asks for the objects and texts on the named photo.
pub fn material_prompt(file: &str) -> (r: String)
    ensures
        r@ == material_prompt_text(file@),
{
    let mut out = chars_of(
        "次の画像について、写っている物体と文字情報だけを抽出せよ。推測や分類は不要。Output ONLY JSON object: {\"file\":\"",
    );
    push_str(&mut out, file);
    push_str(
        &mut out,
        "\",\"scene_type\":\"overview|board_with_measure|measure_closeup\",\"objects\":[{\"label\":\"\",\"bbox\":{\"x\":0,\"y\":0,\"w\":0,\"h\":0},\"area_ratio\":0}],\"board_text\":\"\",\"other_text\":\"\",\"notes\":\"\"}\n対象ファイル: ",
    );
    push_str(&mut out, file);
    push_str(
        &mut out,
        "\nscene_type: 写真タイプは3択のみ (overview / board_with_measure / measure_closeup)\nobjects: 写っている主要物体を最大8件。各要素は {label, bbox, area_ratio}。bboxは0..1の正規化座標。\nboard_text: 黒板があればその文字をそのまま\nboard_lines: 黒板の各行を配列で返す\nboard_fields: 黒板のラベル(例: 工事名, 工種, 測点, 処分状況)をキーにした辞書\nother_text: 黒板以外の文字（標識、銘板、番号など）\nnotes: 事実ベースの補足（任意）",
    );
    string_of(&out)
}

/// The first position of `s` that holds `c`, or the length of `s`.
pub open spec fn first_of(s: Seq<char>, c: char, from: int) -> int
    decreases s.len() - from,
{
    if from >= s.len() || s[from] == c {
        from
    } else {
        first_of(s, c, from + 1)
    }
}

/// The position behind the last `c` among the first `end` characters of `s`,
/// or 0 if `c` is not among them.
pub open spec fn end_of_last(s: Seq<char>, c: char, end: int) -> int
    decreases end,
{
    if end <= 0 || s[end - 1] == c {
        end
    } else {
        end_of_last(s, c, end - 1)
    }
}

/// `s` holds `open` and `close`, and its last `close` does not end before
/// its first `open`.
pub open spec fn is_bracketed(s: Seq<char>, open: char, close: char) -> bool {
    first_of(s, open, 0) < s.len() && 0 < end_of_last(s, close, s.len() as int) && first_of(
        s,
        open,
        0,
    ) <= end_of_last(s, close, s.len() as int)
}

/// `s` holds neither `open` nor `close`, or not both.
pub open spec fn lacks_bracket(s: Seq<char>, open: char, close: char) -> bool {
    first_of(s, open, 0) >= s.len() || end_of_last(s, close, s.len() as int) <= 0
}

/// The part of `s` from its first `open` to its last `close`.
pub open spec fn bracketed(s: Seq<char>, open: char, close: char) -> Seq<char> {
    s.subrange(first_of(s, open, 0), end_of_last(s, close, s.len() as int))
}

fn between(s: &str, open: char, close: char) -> (r: Option<&str>)
    requires
        is_bracketed(s@, open, close) || lacks_bracket(s@, open, close),
    ensures
        match r {
            Some(part) => is_bracketed(s@, open, close) && part@ == bracketed(s@, open, close),
            None => lacks_bracket(s@, open, close),
        },
{
    let chars = chars_of(s);
    let mut a: usize = 0;
    while a < chars.len() && chars[a] != open
        invariant
            a <= chars.len(),
            first_of(chars@, open, 0) == first_of(chars@, open, a as int),
        decreases chars.len() - a,
    {
        a += 1;
    }
    if a >= chars.len() {
        return None;
    }
    let mut b: usize = chars.len();
    while b > 0 && chars[b - 1] != close
        invariant
            b <= chars.len(),
            end_of_last(chars@, close, chars@.len() as int) == end_of_last(chars@, close, b as int),
        decreases b,
    {
        b -= 1;
    }
    if b == 0 {
        return None;
    }
    Some(s.substring_char(a, b))
}

/// The JSON array in a reply: the text from its first `[` to its last `]`.
/// A reply whose last `]` stands before its first `[` is not taken.
pub fn extract_json_array(s: &str) -> (r: Option<&str>)
    requires
        is_bracketed(s@, '[', ']') || lacks_bracket(s@, '[', ']'),
    ensures
        match r {
            Some(part) => is_bracketed(s@, '[', ']') && part@ == bracketed(s@, '[', ']'),
            None => lacks_bracket(s@, '[', ']'),
        },
{
    between(s, '[', ']')
}

/// The JSON object in a reply: the text from its first `{` to its last `}`.
/// A reply whose last `}` stands before its first `{` is not taken.
pub fn extract_json_object(s: &str) -> (r: Option<&str>)
    requires
        is_bracketed(s@, '{', '}') || lacks_bracket(s@, '{', '}'),
    ensures
        match r {
            Some(part) => is_bracketed(s@, '{', '}') && part@ == bracketed(s@, '{', '}'),
            None => lacks_bracket(s@, '{', '}'),
        },
{
    between(s, '{', '}')
}

/// Whether a reply can be searched for its JSON part.
pub fn has_json_part(s: &str, open: char, close: char) -> (r: bool)
    ensures
        r == (is_bracketed(s@, open, close) || lacks_bracket(s@, open, close)),
{
    let chars = chars_of(s);
    let mut a: usize = 0;
    while a < chars.len() && chars[a] != open
        invariant
            a <= chars.len(),
            first_of(chars@, open, 0) == first_of(chars@, open, a as int),
        decreases chars.len() - a,
    {
        a += 1;
    }
    let mut b: usize = chars.len();
    while b > 0 && chars[b - 1] != close
        invariant
            b <= chars.len(),
            end_of_last(chars@, close, chars@.len() as int) == end_of_last(chars@, close, b as int),
        decreases b,
    {
        b -= 1;
    }
    a >= chars.len() || b == 0 || a <= b
}

} // verus!
