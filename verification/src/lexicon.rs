use vstd::prelude::*;
use crate::text::{
    chars_of, slice_of, string_of, string_views, trim_bounds, trim_end_at, trim_start_at,
};

verus! {

/// The term that the line of `s` between `a` and `b` gives: the line without
/// the white space at its ends, unless that is empty or begins with `#`.
pub open spec fn term_of_line(s: Seq<char>, a: int, b: int) -> Option<Seq<char>> {
    let x = trim_start_at(s, a, b);
    let y = trim_end_at(s, x, b);
    if x < y && s[x] != '#' {
        Some(s.subrange(x, y))
    } else {
        None
    }
}

/// `terms` with the term of the line between `a` and `b`, if it gives one.
pub open spec fn with_term(terms: Seq<Seq<char>>, s: Seq<char>, a: int, b: int) -> Seq<Seq<char>> {
    match term_of_line(s, a, b) {
        Some(t) => terms.push(t),
        None => terms,
    }
}

/// Where the line begins that is open after the first `n` characters of `s`.
pub open spec fn open_line_start(s: Seq<char>, n: int) -> int
    decreases n,
{
    if n <= 0 {
        0
    } else if s[n - 1] == '\n' {
        n
    } else {
        open_line_start(s, n - 1)
    }
}

/// The terms that the lines ended among the first `n` characters of `s` give.
pub open spec fn closed_terms(s: Seq<char>, n: int) -> Seq<Seq<char>>
    decreases n,
{
    if n <= 0 {
        Seq::empty()
    } else if s[n - 1] == '\n' {
        with_term(closed_terms(s, n - 1), s, open_line_start(s, n - 1), n - 1)
    } else {
        closed_terms(s, n - 1)
    }
}

/// The terms that a text lists, one on a line; empty lines and lines that
/// begin with `#` list none.
pub open spec fn listed_terms(s: Seq<char>) -> Seq<Seq<char>> {
    with_term(
        closed_terms(s, s.len() as int),
        s,
        open_line_start(s, s.len() as int),
        s.len() as int,
    )
}

/// The measure lexicon in use: the terms that the text lists, or the
/// defaults where there is no text or it lists none.
pub open spec fn lexicon_in_use(data: Option<Seq<char>>, defaults: Seq<Seq<char>>) -> Seq<
    Seq<char>,
> {
    match data {
        Some(s) => if listed_terms(s).len() > 0 {
            listed_terms(s)
        } else {
            defaults
        },
        None => defaults,
    }
}

proof fn lemma_open_line(s: Seq<char>, n: int)
    requires
        0 <= n <= s.len(),
    ensures
        0 <= open_line_start(s, n) <= n,
    decreases n,
{
    if n > 0 && s[n - 1] != '\n' {
        lemma_open_line(s, n - 1);
    }
}

fn push_term(out: &mut Vec<String>, s: &Vec<char>, a: usize, b: usize)
    requires
        a <= b <= s.len(),
    ensures
        string_views(final(out)@) == with_term(string_views(old(out)@), s@, a as int, b as int),
{
    let (x, y) = trim_bounds(s, a, b);
    if x < y && s[x] != '#' {
        let ghost before = out@;
        out.push(string_of(&slice_of(s, x, y)));
        assert(string_views(out@) =~= string_views(before).push(s@.subrange(x as int, y as int)));
    }
}

/// The terms that a text lists.
pub fn parse_terms(data: &str) -> (r: Vec<String>)
    ensures
        string_views(r@) == listed_terms(data@),
{
    let s = chars_of(data);
    let mut out: Vec<String> = Vec::new();
    let mut start: usize = 0;
    let mut i: usize = 0;
    assert(string_views(out@) =~= closed_terms(s@, 0));
    while i < s.len()
        invariant
            i <= s.len(),
            start <= i,
            start == open_line_start(s@, i as int),
            string_views(out@) == closed_terms(s@, i as int),
        decreases s.len() - i,
    {
        if s[i] == '\n' {
            push_term(&mut out, &s, start, i);
            start = i + 1;
        }
        i += 1;
    }
    push_term(&mut out, &s, start, i);
    out
}

/// The measure lexicon in use.
pub fn load_measure_labels(data: Option<&str>, defaults: Vec<String>) -> (r: Vec<String>)
    ensures
        string_views(r@) == lexicon_in_use(
            match data {
                Some(s) => Some(s@),
                None => None,
            },
            string_views(defaults@),
        ),
{
    match data {
        None => defaults,
        Some(s) => {
            let terms = parse_terms(s);
            if terms.len() == 0 {
                defaults
            } else {
                terms
            }
        },
    }
}

} // verus!
