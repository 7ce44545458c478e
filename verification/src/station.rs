use vstd::prelude::*;
use crate::records::{GroupRecord, RecordView};
use crate::text::{
    chars_of, char_is_digit, contains_chars, contains_seq, find_seq, first_occurrence, is_digit,
    occurs_at, push_all, push_str, string_of,
};

verus! {

/// The word by which a text tells of an attachment road.
pub open spec fn attachment_word() -> Seq<char> {
    "取付"@
}

/// What the identity of every photo of an attachment road begins with.
pub open spec fn attachment_prefix() -> Seq<char> {
    "取付道路 "@
}

/// The first position from `from` on that holds a digit, or the end of `s`.
pub open spec fn digits_start(s: Seq<char>, from: int) -> int
    decreases s.len() - from,
{
    if from >= s.len() || is_digit(s[from]) {
        from
    } else {
        digits_start(s, from + 1)
    }
}

/// The first position from `from` on that holds no digit, or the end of `s`.
pub open spec fn digits_end(s: Seq<char>, from: int) -> int
    decreases s.len() - from,
{
    if from >= s.len() || !is_digit(s[from]) {
        from
    } else {
        digits_end(s, from + 1)
    }
}

/// The first run of digits in `s` from `from` on; empty if there is none.
pub open spec fn number_after(s: Seq<char>, from: int) -> Seq<char> {
    let a = digits_start(s, from);
    s.subrange(a, digits_end(s, a))
}

/// The station number that follows the first occurrence of `marker` in `s`.
pub open spec fn marker_number(s: Seq<char>, marker: Seq<char>) -> Option<Seq<char>> {
    if contains_seq(s, marker) {
        let at = choose|at: int| first_occurrence(s, marker, at);
        let d = number_after(s, at + marker.len());
        if d.len() > 0 {
            Some("No."@ + d)
        } else {
            None
        }
    } else {
        None
    }
}

/// The station number of a text: that of the first of the markers `No.`,
/// `No `, `NO.`, `NO ` whose first occurrence a run of digits follows.
pub open spec fn station_number(s: Seq<char>) -> Option<Seq<char>> {
    if marker_number(s, "No."@) is Some {
        marker_number(s, "No."@)
    } else if marker_number(s, "No "@) is Some {
        marker_number(s, "No "@)
    } else if marker_number(s, "NO."@) is Some {
        marker_number(s, "NO."@)
    } else {
        marker_number(s, "NO "@)
    }
}

/// The station number of a record: that of its identity, else of the text
/// read from it, else of its description.
pub open spec fn record_station(r: RecordView) -> Option<Seq<char>> {
    if station_number(r.machine_id) is Some {
        station_number(r.machine_id)
    } else if station_number(r.detected_text) is Some {
        station_number(r.detected_text)
    } else {
        station_number(r.description)
    }
}

/// Whether a record tells of an attachment road, in its identity or in the
/// text read from it.
pub open spec fn attachment_hint(r: RecordView) -> bool {
    contains_seq(r.machine_id, attachment_word()) || contains_seq(
        r.detected_text,
        attachment_word(),
    )
}

/// The identity that a record should carry, by what its own texts say.
pub open spec fn normalized_identity(
    identity: Seq<char>,
    detected: Seq<char>,
    description: Seq<char>,
) -> Seq<char> {
    let merged = detected + " "@ + description;
    if !contains_seq(merged, attachment_word()) {
        identity
    } else if station_number(merged) is Some {
        attachment_prefix() + station_number(merged)->0
    } else if station_number(identity) is Some {
        attachment_prefix() + station_number(identity)->0
    } else {
        identity
    }
}

/// A non-empty run of digits.
pub open spec fn is_number(d: Seq<char>) -> bool {
    d.len() > 0 && forall|i: int| 0 <= i < d.len() ==> is_digit(#[trigger] d[i])
}

proof fn lemma_digits(s: Seq<char>, from: int)
    requires
        0 <= from <= s.len(),
    ensures
        from <= digits_start(s, from) <= s.len(),
        from <= digits_end(s, from) <= s.len(),
        forall|i: int| from <= i < digits_end(s, from) ==> is_digit(#[trigger] s[i]),
        (forall|i: int| from <= i < s.len() ==> is_digit(#[trigger] s[i])) ==> digits_end(s, from)
            == s.len(),
    decreases s.len() - from,
{
    if from < s.len() {
        lemma_digits(s, from + 1);
    }
}

proof fn lemma_least_occurrence(s: Seq<char>, marker: Seq<char>, k: int)
    requires
        occurs_at(s, marker, k),
    ensures
        exists|at: int| first_occurrence(s, marker, at),
    decreases k,
{
    if exists|j: int| 0 <= j < k && occurs_at(s, marker, j) {
        let j = choose|j: int| 0 <= j < k && occurs_at(s, marker, j);
        lemma_least_occurrence(s, marker, j);
    } else {
        assert(first_occurrence(s, marker, k));
    }
}

proof fn lemma_marker_shape(s: Seq<char>, marker: Seq<char>)
    ensures
        marker_number(s, marker) is Some ==> exists|d: Seq<char>|
            is_number(d) && marker_number(s, marker) == Some("No."@ + d),
{
    if marker_number(s, marker) is Some {
        let k = choose|k: int| occurs_at(s, marker, k);
        lemma_least_occurrence(s, marker, k);
        let at = choose|at: int| first_occurrence(s, marker, at);
        let a = digits_start(s, at + marker.len());
        lemma_digits(s, at + marker.len());
        lemma_digits(s, a);
        let d = number_after(s, at + marker.len());
        assert(is_number(d));
    }
}

/// A station number is `No.` and a non-empty run of digits.
pub proof fn lemma_station_shape(s: Seq<char>)
    ensures
        station_number(s) is Some ==> exists|d: Seq<char>|
            is_number(d) && station_number(s) == Some("No."@ + d),
{
    lemma_marker_shape(s, "No."@);
    lemma_marker_shape(s, "No "@);
    lemma_marker_shape(s, "NO."@);
    lemma_marker_shape(s, "NO "@);
}

/// The identity of an attachment road yields the station number that it was
/// made of.
pub proof fn lemma_station_of_attachment(d: Seq<char>)
    requires
        is_number(d),
    ensures
        station_number(attachment_prefix() + ("No."@ + d)) == Some("No."@ + d),
{
    reveal_strlit("取付道路 ");
    reveal_strlit("No.");
    let m = "No."@;
    let x = attachment_prefix() + (m + d);
    assert(x.len() == 8 + d.len());
    assert(x.subrange(5, 8) =~= m);
    assert(occurs_at(x, m, 5));
    assert forall|j: int| 0 <= j < 5 implies !occurs_at(x, m, j) by {
        if occurs_at(x, m, j) {
            assert(x.subrange(j, j + 3)[0] == m[0]);
        }
    }
    assert(first_occurrence(x, m, 5));
    let at = choose|at: int| first_occurrence(x, m, at);
    assert(at == 5) by {
        if at < 5 {
            assert(!occurs_at(x, m, at));
        }
    }
    assert(x[8] == d[0]);
    assert forall|i: int| 8 <= i < x.len() implies is_digit(#[trigger] x[i]) by {
        assert(x[i] == d[i - 8]);
    }
    lemma_digits(x, 8);
    assert(number_after(x, 8) =~= d);
}

/// Normalising an identity twice gives what normalising it once gives.
pub proof fn lemma_normalize_idempotent(
    identity: Seq<char>,
    detected: Seq<char>,
    description: Seq<char>,
)
    ensures
        normalized_identity(
            normalized_identity(identity, detected, description),
            detected,
            description,
        ) == normalized_identity(identity, detected, description),
{
    let merged = detected + " "@ + description;
    if contains_seq(merged, attachment_word()) && station_number(merged) is None && station_number(
        identity,
    ) is Some {
        lemma_station_shape(identity);
        let d = choose|d: Seq<char>| is_number(d) && station_number(identity) == Some("No."@ + d);
        lemma_station_of_attachment(d);
    }
}

fn marker_number_of(s: &Vec<char>, marker: &Vec<char>) -> (r: Option<Vec<char>>)
    ensures
        match r {
            Some(no) => marker_number(s@, marker@) == Some(no@),
            None => marker_number(s@, marker@) is None,
        },
{
    match find_seq(s, marker) {
        None => None,
        Some(at) => {
            proof {
                let c = choose|c: int| first_occurrence(s@, marker@, c);
                assert(occurs_at(s@, marker@, at as int));
                assert(c == at) by {
                    if c < at {
                        assert(!occurs_at(s@, marker@, c));
                    }
                    if at < c {
                        assert(!occurs_at(s@, marker@, at as int));
                    }
                }
            }
            assert(at + marker.len() <= s.len());
            let from: usize = at + marker.len();
            let mut a: usize = from;
            while a < s.len() && !char_is_digit(s[a])
                invariant
                    from <= a <= s.len(),
                    digits_start(s@, from as int) == digits_start(s@, a as int),
                decreases s.len() - a,
            {
                a += 1;
            }
            let mut b: usize = a;
            while b < s.len() && char_is_digit(s[b])
                invariant
                    a <= b <= s.len(),
                    digits_end(s@, a as int) == digits_end(s@, b as int),
                decreases s.len() - b,
            {
                b += 1;
            }
            if b > a {
                let mut out: Vec<char> = Vec::new();
                push_str(&mut out, "No.");
                let mut i: usize = a;
                while i < b
                    invariant
                        a <= i <= b <= s.len(),
                        out@ == "No."@ + s@.subrange(a as int, i as int),
                    decreases b - i,
                {
                    out.push(s[i]);
                    assert(s@.subrange(a as int, i as int + 1) == s@.subrange(
                        a as int,
                        i as int,
                    ).push(s@[i as int]));
                    assert(("No."@ + s@.subrange(a as int, i as int)).push(s@[i as int]) =~= "No."@
                        + s@.subrange(a as int, i as int).push(s@[i as int]));
                    i += 1;
                }
                Some(out)
            } else {
                None
            }
        },
    }
}

/// The station number of `s`, if it has one.
pub fn station_number_of(s: &Vec<char>) -> (r: Option<Vec<char>>)
    ensures
        match r {
            Some(no) => station_number(s@) == Some(no@),
            None => station_number(s@) is None,
        },
{
    let first = marker_number_of(s, &chars_of("No."));
    if first.is_some() {
        return first;
    }
    let second = marker_number_of(s, &chars_of("No "));
    if second.is_some() {
        return second;
    }
    let third = marker_number_of(s, &chars_of("NO."));
    if third.is_some() {
        return third;
    }
    marker_number_of(s, &chars_of("NO "))
}

/// The station number that `text` names, written as `No.` and its digits.
pub fn extract_no(text: &str) -> (r: Option<String>)
    ensures
        match r {
            Some(no) => station_number(text@) == Some(no@),
            None => station_number(text@) is None,
        },
{
    match station_number_of(&chars_of(text)) {
        Some(no) => Some(string_of(&no)),
        None => None,
    }
}

/// Whether the record tells of an attachment road.
pub fn has_attachment_hint(rec: &GroupRecord) -> (r: bool)
    ensures
        r == attachment_hint(rec@),
{
    let word = chars_of("取付");
    contains_chars(&chars_of(rec.machine_id.as_str()), &word) || contains_chars(
        &chars_of(rec.detected_text.as_str()),
        &word,
    )
}

/// The identity of an attachment road at station `no`.
pub fn attachment_identity(no: &Vec<char>) -> (r: String)
    ensures
        r@ == attachment_prefix() + no@,
{
    let mut out: Vec<char> = Vec::new();
    push_str(&mut out, "取付道路 ");
    push_all(&mut out, no);
    string_of(&out)
}

/// Rewrites the identity of a record whose own texts tell of an attachment
/// road and name a station; leaves every other record as it is.
pub fn normalize_machine_id(rec: &mut GroupRecord)
    ensures
        final(rec)@ == (RecordView {
            machine_id: normalized_identity(
                old(rec)@.machine_id,
                old(rec)@.detected_text,
                old(rec)@.description,
            ),
            ..old(rec)@
        }),
{
    let mut merged = chars_of(rec.detected_text.as_str());
    push_str(&mut merged, " ");
    push_str(&mut merged, rec.description.as_str());
    if contains_chars(&merged, &chars_of("取付")) {
        match station_number_of(&merged) {
            Some(no) => {
                rec.machine_id = attachment_identity(&no);
            },
            None => {
                match station_number_of(&chars_of(rec.machine_id.as_str())) {
                    Some(no) => {
                        rec.machine_id = attachment_identity(&no);
                    },
                    None => {},
                }
            },
        }
    }
}

} // verus!
