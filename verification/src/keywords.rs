use vstd::prelude::*;
use crate::text::{
    chars_equal, chars_of, char_is_digit, char_is_punctuation, char_is_space, contains_chars,
    contains_seq, is_digit, is_punctuation, is_space, string_of, string_views, views,
};

verus! {

/// Characters that end a token: white space, the comma, and the Japanese
/// comma and full stop.
pub open spec fn is_separator(c: char) -> bool {
    is_space(c) || c == ',' || c == '、' || c == '。'
}

/// The run of non-separator characters that ends `s`; empty if `s` is empty
/// or ends in a separator.
pub open spec fn open_token(s: Seq<char>) -> Seq<char>
    decreases s.len(),
{
    if s.len() == 0 {
        Seq::empty()
    } else if is_separator(s.last()) {
        Seq::empty()
    } else {
        open_token(s.drop_last()).push(s.last())
    }
}

/// The non-empty runs of non-separator characters in `s` that a separator
/// ends, from left to right.
pub open spec fn closed_tokens(s: Seq<char>) -> Seq<Seq<char>>
    decreases s.len(),
{
    if s.len() == 0 {
        Seq::empty()
    } else if is_separator(s.last()) && open_token(s.drop_last()).len() > 0 {
        closed_tokens(s.drop_last()).push(open_token(s.drop_last()))
    } else {
        closed_tokens(s.drop_last())
    }
}

/// The tokens of `s`: its maximal non-empty runs of non-separator characters.
pub open spec fn tokens_of(s: Seq<char>) -> Seq<Seq<char>> {
    if open_token(s).len() > 0 {
        closed_tokens(s).push(open_token(s))
    } else {
        closed_tokens(s)
    }
}

/// Generic terms of a board's header, which name no activity.
pub open spec fn stop_terms() -> Seq<Seq<char>> {
    seq![
        "工事名"@,
        "市道"@,
        "舗装補修工事"@,
        "工種"@,
        "測点"@,
        "年月日"@,
        "撮影"@,
        "写真"@,
    ]
}

/// The terms that may name an activity, in their fixed order.
pub open spec fn allow_terms() -> Seq<Seq<char>> {
    seq![
        "交通保安施設"@,
        "設置状況"@,
        "トラックスケール"@,
        "計量状況"@,
        "積載量"@,
        "確認"@,
        "処分状況"@,
        "社内検査"@,
        "出荷指示"@,
        "出荷指示確認"@,
        "外観検査"@,
    ]
}

/// A token that is dropped: a stop term, or one that holds an ASCII digit or
/// an ASCII punctuation character.
pub open spec fn is_dropped(tok: Seq<char>) -> bool {
    stop_terms().contains(tok) || exists|i: int|
        0 <= i < tok.len() && (is_digit(#[trigger] tok[i]) || is_punctuation(tok[i]))
}

/// The least index from `from` on at which `terms` holds `tok`, or the length
/// of `terms` if there is none.
pub open spec fn first_match(terms: Seq<Seq<char>>, tok: Seq<char>, from: int) -> int
    decreases terms.len() - from,
{
    if from >= terms.len() {
        terms.len() as int
    } else if terms[from] == tok {
        from
    } else {
        first_match(terms, tok, from + 1)
    }
}

/// The indices below `n` of the terms that occur inside `tok`, ascending.
pub open spec fn contained_terms(terms: Seq<Seq<char>>, tok: Seq<char>, n: int) -> Seq<usize>
    decreases n,
{
    if n <= 0 {
        Seq::empty()
    } else if contains_seq(tok, terms[n - 1]) {
        contained_terms(terms, tok, n - 1).push((n - 1) as usize)
    } else {
        contained_terms(terms, tok, n - 1)
    }
}

/// The terms, by index, that one token counts for: none if the token is
/// dropped; the term itself if the token is one; else every term that occurs
/// inside the token.
pub open spec fn token_credits(tok: Seq<char>) -> Seq<usize> {
    if is_dropped(tok) {
        Seq::empty()
    } else if first_match(allow_terms(), tok, 0) < allow_terms().len() {
        seq![first_match(allow_terms(), tok, 0) as usize]
    } else {
        contained_terms(allow_terms(), tok, allow_terms().len() as int)
    }
}

/// The terms that the tokens count for, in the order in which they are met.
pub open spec fn credits_of(tokens: Seq<Seq<char>>) -> Seq<usize>
    decreases tokens.len(),
{
    if tokens.len() == 0 {
        Seq::empty()
    } else {
        credits_of(tokens.drop_last()) + token_credits(tokens.last())
    }
}

/// How often `j` occurs in `cs`.
pub open spec fn occurrences(cs: Seq<usize>, j: usize) -> nat
    decreases cs.len(),
{
    if cs.len() == 0 {
        0
    } else if cs.last() == j {
        occurrences(cs.drop_last(), j) + 1
    } else {
        occurrences(cs.drop_last(), j)
    }
}

/// The position of the first `j` in `cs`, or the length of `cs` if it holds
/// none.
pub open spec fn first_at(cs: Seq<usize>, j: usize) -> int
    decreases cs.len(),
{
    if cs.len() == 0 {
        0
    } else if first_at(cs.drop_last(), j) < cs.len() - 1 {
        first_at(cs.drop_last(), j)
    } else if cs.last() == j {
        cs.len() - 1
    } else {
        cs.len() as int
    }
}

/// The weight of a term by its kind: a state of the works counts most, an
/// inspection or an instruction next, a confirmation last.
pub open spec fn relevance(term: Seq<char>) -> int {
    if contains_seq(term, "状況"@) {
        3
    } else if contains_seq(term, "検査"@) || contains_seq(term, "指示"@) {
        2
    } else if contains_seq(term, "確認"@) {
        1
    } else {
        0
    }
}

/// Term `a` ranks before term `b`: by weight, then by the number of
/// occurrences, then by which was met first.
pub open spec fn ranks_before(cs: Seq<usize>, a: usize, b: usize) -> bool {
    let wa = relevance(allow_terms()[a as int]);
    let wb = relevance(allow_terms()[b as int]);
    wa > wb || (wa == wb && (occurrences(cs, a) > occurrences(cs, b) || (occurrences(cs, a)
        == occurrences(cs, b) && first_at(cs, a) < first_at(cs, b))))
}

/// `r` lists the best `k` of the terms that occur in `cs`, best first; all
/// of them where they are fewer than `k`.
pub open spec fn is_top_ranking(cs: Seq<usize>, k: int, r: Seq<usize>) -> bool {
    &&& r.len() <= k
    &&& forall|i: int|
        0 <= i < r.len() ==> (#[trigger] r[i]) < allow_terms().len() && occurrences(cs, r[i]) > 0
    &&& forall|i: int, j: int| 0 <= i < j < r.len() ==> ranks_before(cs, r[i], r[j])
    &&& forall|t: usize|
        t < allow_terms().len() && occurrences(cs, t) > 0 && !r.contains(t) ==> r.len() == k
            && forall|i: int| 0 <= i < r.len() ==> ranks_before(cs, #[trigger] r[i], t)
}

/// The terms named by the indices in `r`.
pub open spec fn named_terms(r: Seq<usize>) -> Seq<Seq<char>> {
    Seq::new(r.len(), |i: int| allow_terms()[r[i] as int])
}

pub proof fn lemma_first_at(cs: Seq<usize>, j: usize)
    ensures
        0 <= first_at(cs, j) <= cs.len(),
        occurrences(cs, j) > 0 <==> first_at(cs, j) < cs.len(),
        first_at(cs, j) < cs.len() ==> cs[first_at(cs, j)] == j,
    decreases cs.len(),
{
    if cs.len() > 0 {
        lemma_first_at(cs.drop_last(), j);
    }
}

/// The best `k` terms are determined: two lists that both hold them are one
/// list.
pub proof fn lemma_top_ranking_unique(cs: Seq<usize>, k: int, a: Seq<usize>, b: Seq<usize>)
    requires
        is_top_ranking(cs, k, a),
        is_top_ranking(cs, k, b),
    ensures
        a == b,
{
    lemma_same_prefix(cs, k, a, b, if a.len() <= b.len() {
        a.len() as int
    } else {
        b.len() as int
    });
    lemma_no_more(cs, k, a, b);
    lemma_no_more(cs, k, b, a);
    assert(a =~= b);
}

proof fn lemma_no_more(cs: Seq<usize>, k: int, a: Seq<usize>, b: Seq<usize>)
    requires
        is_top_ranking(cs, k, a),
        is_top_ranking(cs, k, b),
        forall|i: int| 0 <= i < a.len() && i < b.len() ==> a[i] == b[i],
    ensures
        b.len() <= a.len(),
{
    if a.len() < b.len() {
        let t = b[a.len() as int];
        if a.contains(t) {
            let j = choose|j: int| 0 <= j < a.len() && a[j] == t;
            assert(b[j] == t);
            assert(ranks_before(cs, b[j], b[a.len() as int]));
        }
    }
}

proof fn lemma_same_prefix(cs: Seq<usize>, k: int, a: Seq<usize>, b: Seq<usize>, n: int)
    requires
        is_top_ranking(cs, k, a),
        is_top_ranking(cs, k, b),
        0 <= n <= a.len(),
        n <= b.len(),
    ensures
        forall|i: int| 0 <= i < n ==> a[i] == b[i],
    decreases n,
{
    if n > 0 {
        lemma_same_prefix(cs, k, a, b, n - 1);
        let i = n - 1;
        let x = a[i];
        let y = b[i];
        if x != y {
            // x comes before y: it stands before it in `a`, or `a` is full of better terms
            assert(ranks_before(cs, x, y)) by {
                if a.contains(y) {
                    let j = choose|j: int| 0 <= j < a.len() && a[j] == y;
                    if j < i {
                        assert(b[j] == y);
                        assert(ranks_before(cs, b[j], b[i]));
                    } else {
                        assert(ranks_before(cs, a[i], a[j]));
                    }
                } else {
                    assert(ranks_before(cs, a[i], y));
                }
            }
            assert(ranks_before(cs, y, x)) by {
                if b.contains(x) {
                    let j = choose|j: int| 0 <= j < b.len() && b[j] == x;
                    if j < i {
                        assert(a[j] == x);
                        assert(ranks_before(cs, a[j], a[i]));
                    } else {
                        assert(ranks_before(cs, b[i], b[j]));
                    }
                } else {
                    assert(ranks_before(cs, b[i], x));
                }
            }
        }
    }
}

proof fn lemma_first_match(terms: Seq<Seq<char>>, tok: Seq<char>, from: int, j: int)
    requires
        0 <= from <= j <= terms.len(),
        forall|i: int| from <= i < j ==> terms[i] != tok,
        j == terms.len() || terms[j] == tok,
    ensures
        first_match(terms, tok, from) == j,
    decreases j - from,
{
    if from < j {
        lemma_first_match(terms, tok, from + 1, j);
    }
}

fn is_separator_char(c: char) -> (r: bool)
    ensures
        r == is_separator(c),
{
    char_is_space(c) || c == ',' || c == '、' || c == '。'
}

/// Splits `s` into its tokens.
pub fn split_tokens(s: &Vec<char>) -> (r: Vec<Vec<char>>)
    ensures
        views(r@) == tokens_of(s@),
{
    let mut done: Vec<Vec<char>> = Vec::new();
    let mut cur: Vec<char> = Vec::new();
    let mut i: usize = 0;
    assert(views(done@) =~= closed_tokens(s@.take(0)));
    while i < s.len()
        invariant
            i <= s.len(),
            views(done@) == closed_tokens(s@.take(i as int)),
            cur@ == open_token(s@.take(i as int)),
        decreases s.len() - i,
    {
        let c = s[i];
        proof {
            let p = s@.take(i as int + 1);
            assert(p.drop_last() == s@.take(i as int));
            assert(p.last() == c);
        }
        if is_separator_char(c) {
            if cur.len() > 0 {
                proof {
                    assert(views(done@.push(cur)) =~= views(done@).push(cur@));
                }
                done.push(cur);
            }
            cur = Vec::new();
        } else {
            cur.push(c);
        }
        i += 1;
    }
    assert(s@.take(s.len() as int) == s@);
    if cur.len() > 0 {
        proof {
            assert(views(done@.push(cur)) =~= views(done@).push(cur@));
        }
        done.push(cur);
    }
    done
}

fn stop_list() -> (r: Vec<Vec<char>>)
    ensures
        views(r@) == stop_terms(),
{
    let mut v: Vec<Vec<char>> = Vec::new();
    v.push(chars_of("工事名"));
    v.push(chars_of("市道"));
    v.push(chars_of("舗装補修工事"));
    v.push(chars_of("工種"));
    v.push(chars_of("測点"));
    v.push(chars_of("年月日"));
    v.push(chars_of("撮影"));
    v.push(chars_of("写真"));
    assert(views(v@) =~= stop_terms());
    v
}

fn allow_list() -> (r: Vec<Vec<char>>)
    ensures
        views(r@) == allow_terms(),
{
    let mut v: Vec<Vec<char>> = Vec::new();
    v.push(chars_of("交通保安施設"));
    v.push(chars_of("設置状況"));
    v.push(chars_of("トラックスケール"));
    v.push(chars_of("計量状況"));
    v.push(chars_of("積載量"));
    v.push(chars_of("確認"));
    v.push(chars_of("処分状況"));
    v.push(chars_of("社内検査"));
    v.push(chars_of("出荷指示"));
    v.push(chars_of("出荷指示確認"));
    v.push(chars_of("外観検査"));
    assert(views(v@) =~= allow_terms());
    v
}

/// Whether `list` holds `tok`.
pub fn list_holds(list: &Vec<Vec<char>>, tok: &Vec<char>) -> (r: bool)
    ensures
        r == views(list@).contains(tok@),
{
    let mut i: usize = 0;
    while i < list.len()
        invariant
            i <= list.len(),
            forall|j: int| 0 <= j < i ==> views(list@)[j] != tok@,
        decreases list.len() - i,
    {
        if chars_equal(&list[i], tok) {
            assert(views(list@)[i as int] == tok@);
            return true;
        }
        i += 1;
    }
    false
}

fn holds_digit_or_punctuation(tok: &Vec<char>) -> (r: bool)
    ensures
        r == exists|i: int|
            0 <= i < tok@.len() && (is_digit(#[trigger] tok@[i]) || is_punctuation(tok@[i])),
{
    let mut i: usize = 0;
    while i < tok.len()
        invariant
            i <= tok.len(),
            forall|j: int| 0 <= j < i ==> !(is_digit(#[trigger] tok@[j]) || is_punctuation(tok@[j])),
        decreases tok.len() - i,
    {
        if char_is_digit(tok[i]) || char_is_punctuation(tok[i]) {
            return true;
        }
        i += 1;
    }
    false
}

fn credit_token(stop: &Vec<Vec<char>>, allow: &Vec<Vec<char>>, tok: &Vec<char>, out: &mut Vec<usize>)
    requires
        views(stop@) == stop_terms(),
        views(allow@) == allow_terms(),
    ensures
        final(out)@ == old(out)@ + token_credits(tok@),
{
    let ghost terms = allow_terms();
    assert(terms.len() == 11);
    if list_holds(stop, tok) || holds_digit_or_punctuation(tok) {
        assert(old(out)@ + Seq::<usize>::empty() =~= old(out)@);
        return ;
    }
    let mut j: usize = 0;
    while j < allow.len()
        invariant
            j <= allow.len(),
            allow.len() == 11,
            views(allow@) == terms,
            out@ == old(out)@,
            terms == allow_terms(),
            !is_dropped(tok@),
            forall|i: int| 0 <= i < j ==> terms[i] != tok@,
        decreases allow.len() - j,
    {
        if chars_equal(&allow[j], tok) {
            proof {
                assert(views(allow@)[j as int] == tok@);
                lemma_first_match(terms, tok@, 0, j as int);
                assert(old(out)@ + seq![j] =~= old(out)@.push(j));
            }
            out.push(j);
            return ;
        }
        assert(views(allow@)[j as int] == allow@[j as int]@);
        j += 1;
    }
    proof {
        lemma_first_match(terms, tok@, 0, 11);
    }
    let mut n: usize = 0;
    assert(old(out)@ + contained_terms(terms, tok@, 0) =~= old(out)@);
    while n < allow.len()
        invariant
            n <= allow.len(),
            allow.len() == 11,
            views(allow@) == terms,
            out@ == old(out)@ + contained_terms(terms, tok@, n as int),
            terms == allow_terms(),
            !is_dropped(tok@),
            first_match(terms, tok@, 0) == 11,
        decreases allow.len() - n,
    {
        assert(views(allow@)[n as int] == allow@[n as int]@);
        if contains_chars(tok, &allow[n]) {
            assert(old(out)@ + contained_terms(terms, tok@, n as int).push(n) =~= (old(out)@
                + contained_terms(terms, tok@, n as int)).push(n));
            out.push(n);
        }
        n += 1;
    }
}

fn tally(cs: &Vec<usize>, j: usize) -> (r: (usize, usize))
    ensures
        r.0 == occurrences(cs@, j),
        r.1 == first_at(cs@, j),
{
    let mut count: usize = 0;
    let mut first: usize = 0;
    let mut i: usize = 0;
    while i < cs.len()
        invariant
            i <= cs.len(),
            count == occurrences(cs@.take(i as int), j),
            first == first_at(cs@.take(i as int), j),
            count <= i,
        decreases cs.len() - i,
    {
        proof {
            let p = cs@.take(i as int + 1);
            assert(p.drop_last() == cs@.take(i as int));
            lemma_first_at(cs@.take(i as int), j);
        }
        if cs[i] == j {
            count += 1;
        } else if first == i {
            first = i + 1;
        }
        i += 1;
    }
    assert(cs@.take(cs.len() as int) == cs@);
    (count, first)
}

fn term_relevance(term: &Vec<char>) -> (r: usize)
    ensures
        r == relevance(term@),
{
    if contains_chars(term, &chars_of("状況")) {
        3
    } else if contains_chars(term, &chars_of("検査")) || contains_chars(term, &chars_of("指示")) {
        2
    } else if contains_chars(term, &chars_of("確認")) {
        1
    } else {
        0
    }
}

/// The terms that the tokens of `tokens` count for, in order.
pub fn collect_credits(tokens: &Vec<Vec<char>>) -> (cs: Vec<usize>)
    ensures
        cs@ == credits_of(views(tokens@)),
{
    let stop = stop_list();
    let allow = allow_list();
    let mut cs: Vec<usize> = Vec::new();
    let mut t: usize = 0;
    while t < tokens.len()
        invariant
            t <= tokens.len(),
            views(stop@) == stop_terms(),
            views(allow@) == allow_terms(),
            cs@ == credits_of(views(tokens@).take(t as int)),
        decreases tokens.len() - t,
    {
        proof {
            let p = views(tokens@).take(t as int + 1);
            assert(p.drop_last() == views(tokens@).take(t as int));
            assert(p.last() == tokens@[t as int]@);
        }
        credit_token(&stop, &allow, &tokens[t], &mut cs);
        t += 1;
    }
    assert(views(tokens@).take(tokens.len() as int) == views(tokens@));
    cs
}

spec fn table_before(w: Seq<usize>, n: Seq<usize>, f: Seq<usize>, a: int, b: int) -> bool {
    w[a] > w[b] || (w[a] == w[b] && (n[a] > n[b] || (n[a] == n[b] && f[a] < f[b])))
}

fn pick_best(w: &Vec<usize>, n: &Vec<usize>, f: &Vec<usize>, taken: &Vec<bool>) -> (r: Option<
    usize,
>)
    requires
        w.len() == 11,
        n.len() == 11,
        f.len() == 11,
        taken.len() == 11,
        forall|a: int, b: int|
            0 <= a < 11 && 0 <= b < 11 && a != b && n[a] > 0 && n[b] > 0 ==> f[a] != f[b],
    ensures
        match r {
            Some(b) => b < 11 && !taken[b as int] && n[b as int] > 0 && forall|t: int|
                0 <= t < 11 && t != b && !taken[t] && n[t] > 0 ==> table_before(
                    w@,
                    n@,
                    f@,
                    b as int,
                    t,
                ),
            None => forall|t: int| 0 <= t < 11 ==> taken[t] || n[t] == 0,
        },
{
    let mut best: Option<usize> = None;
    let mut j: usize = 0;
    while j < 11
        invariant
            j <= 11,
            w.len() == 11,
            n.len() == 11,
            f.len() == 11,
            taken.len() == 11,
            forall|a: int, b: int|
                0 <= a < 11 && 0 <= b < 11 && a != b && n[a] > 0 && n[b] > 0 ==> f[a] != f[b],
            match best {
                Some(b) => b < j && !taken[b as int] && n[b as int] > 0 && forall|t: int|
                    0 <= t < j && t != b && !taken[t] && n[t] > 0 ==> table_before(
                        w@,
                        n@,
                        f@,
                        b as int,
                        t,
                    ),
                None => forall|t: int| 0 <= t < j ==> taken[t] || n[t] == 0,
            },
        decreases 11 - j,
    {
        if !taken[j] && n[j] > 0 {
            match best {
                None => {
                    best = Some(j);
                },
                Some(b) => {
                    if w[j] > w[b] || (w[j] == w[b] && (n[j] > n[b] || (n[j] == n[b] && f[j]
                        < f[b]))) {
                        best = Some(j);
                    }
                },
            }
        }
        j += 1;
    }
    best
}

/// The indices of the best `k` terms among those that occur in `cs`.
pub fn rank_terms(cs: &Vec<usize>, k: usize) -> (r: Vec<usize>)
    ensures
        is_top_ranking(cs@, k as int, r@),
{
    let allow = allow_list();
    let ghost terms = allow_terms();
    assert(terms.len() == 11);
    let mut w: Vec<usize> = Vec::new();
    let mut n: Vec<usize> = Vec::new();
    let mut f: Vec<usize> = Vec::new();
    let mut taken: Vec<bool> = Vec::new();
    let mut j: usize = 0;
    while j < 11
        invariant
            j <= 11,
            allow.len() == 11,
            views(allow@) == terms,
            w.len() == j,
            n.len() == j,
            f.len() == j,
            taken.len() == j,
            forall|t: int| 0 <= t < j ==> !taken[t],
            forall|t: int| 0 <= t < j ==> w[t] == relevance(terms[t]),
            forall|t: int| 0 <= t < j ==> n[t] == occurrences(cs@, t as usize),
            forall|t: int| 0 <= t < j ==> f[t] == first_at(cs@, t as usize),
        decreases 11 - j,
    {
        assert(views(allow@)[j as int] == allow@[j as int]@);
        let (count, first) = tally(cs, j);
        w.push(term_relevance(&allow[j]));
        n.push(count);
        f.push(first);
        taken.push(false);
        j += 1;
    }
    proof {
        assert forall|a: int, b: int|
            0 <= a < 11 && 0 <= b < 11 && a != b && n[a] > 0 && n[b] > 0 implies f[a] != f[b] by {
            lemma_first_at(cs@, a as usize);
            lemma_first_at(cs@, b as usize);
        }
        assert forall|a: int, b: int| 0 <= a < 11 && 0 <= b < 11 implies table_before(
            w@,
            n@,
            f@,
            a,
            b,
        ) == ranks_before(cs@, a as usize, b as usize) by {}
    }
    let mut out: Vec<usize> = Vec::new();
    let mut more: bool = true;
    while more && out.len() < k
        invariant
            w.len() == 11,
            n.len() == 11,
            f.len() == 11,
            taken.len() == 11,
            terms == allow_terms(),
            terms.len() == 11,
            out.len() <= k,
            forall|t: int| 0 <= t < 11 ==> n[t] == occurrences(cs@, t as usize),
            forall|a: int, b: int|
                0 <= a < 11 && 0 <= b < 11 && a != b && n[a] > 0 && n[b] > 0 ==> f[a] != f[b],
            forall|a: int, b: int|
                0 <= a < 11 && 0 <= b < 11 ==> table_before(w@, n@, f@, a, b) == ranks_before(
                    cs@,
                    a as usize,
                    b as usize,
                ),
            forall|t: int| 0 <= t < 11 ==> (taken[t] <==> out@.contains(t as usize)),
            forall|i: int| 0 <= i < out.len() ==> (#[trigger] out[i]) < 11 && n[out[i] as int] > 0,
            forall|i: int, j: int|
                0 <= i < j < out.len() ==> ranks_before(cs@, out[i], out[j]),
            forall|i: int, t: int|
                0 <= i < out.len() && 0 <= t < 11 && !taken[t] && n[t] > 0 ==> ranks_before(
                    cs@,
                    #[trigger] out[i],
                    #[trigger] (t as usize),
                ),
            !more ==> forall|t: int| 0 <= t < 11 ==> taken[t] || n[t] == 0,
        decreases (if more { 1int } else { 0int }) + k - out.len(),
    {
        match pick_best(&w, &n, &f, &taken) {
            None => {
                more = false;
            },
            Some(b) => {
                let ghost before = out@;
                let ghost taken_before = taken@;
                taken.set(b, true);
                out.push(b);
                proof {
                    assert forall|t: int| 0 <= t < 11 implies (taken[t] <==> out@.contains(
                        t as usize,
                    )) by {
                        if t == b {
                            assert(out@[before.len() as int] == b);
                        } else if taken_before[t] {
                            let i = choose|i: int| 0 <= i < before.len() && before[i] == t as usize;
                            assert(out@[i] == t as usize);
                        } else if out@.contains(t as usize) {
                            let i = choose|i: int| 0 <= i < out@.len() && out@[i] == t as usize;
                            assert(before[i] == t as usize);
                        }
                    }
                    assert forall|i: int, j: int| 0 <= i < j < out.len() implies ranks_before(
                        cs@,
                        out[i],
                        out[j],
                    ) by {
                        if j == before.len() {
                            assert(out[i] == before[i]);
                            assert(b as int as usize == b);
                        } else {
                            assert(out[i] == before[i] && out[j] == before[j]);
                        }
                    }
                    assert forall|i: int, t: int|
                        0 <= i < out.len() && 0 <= t < 11 && !taken[t] && n[t] > 0 implies ranks_before(
                        cs@,
                        #[trigger] out[i],
                        #[trigger] (t as usize),
                    ) by {
                        if i == before.len() {
                            assert(table_before(w@, n@, f@, b as int, t));
                        } else {
                            assert(out[i] == before[i]);
                        }
                    }
                }
            },
        }
    }
    proof {
        assert forall|t: usize|
            t < allow_terms().len() && occurrences(cs@, t) > 0 && !out@.contains(t) implies out@.len()
            == k && forall|i: int| 0 <= i < out@.len() ==> ranks_before(cs@, #[trigger] out@[i], t) by {
            assert(!taken[t as int]);
            assert(n[t as int] > 0);
            assert(t as int as usize == t);
        }
    }
    out
}

/// The `k` terms of the activity vocabulary that weigh most in `text`, the
/// weightiest first.
pub fn extract_top_keywords(text: &str, k: usize) -> (r: Vec<String>)
    ensures
        r@.len() <= k,
        exists|idx: Seq<usize>|
            is_top_ranking(credits_of(tokens_of(text@)), k as int, idx) && string_views(r@)
                == named_terms(idx),
{
    let chars = chars_of(text);
    let tokens = split_tokens(&chars);
    let cs = collect_credits(&tokens);
    let idx = rank_terms(&cs, k);
    let allow = allow_list();
    let mut out: Vec<String> = Vec::new();
    let mut i: usize = 0;
    while i < idx.len()
        invariant
            i <= idx.len(),
            allow.len() == 11,
            views(allow@) == allow_terms(),
            is_top_ranking(cs@, k as int, idx@),
            out.len() == i,
            forall|j: int| 0 <= j < i ==> out[j]@ == allow_terms()[idx[j] as int],
        decreases idx.len() - i,
    {
        assert(idx@[i as int] < 11);
        assert(views(allow@)[idx@[i as int] as int] == allow@[idx@[i as int] as int]@);
        out.push(string_of(&allow[idx[i]]));
        i += 1;
    }
    assert(string_views(out@) =~= named_terms(idx@));
    out
}

} // verus!
