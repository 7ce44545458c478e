use vstd::prelude::*;
use vstd::relations::{sorted_by, total_ordering};
use vstd::seq_lib::lemma_sorted_unique;
use crate::text::chars_equal;

verus! {

/// What grouping reads of one photo: the identity it was given, when it was
/// taken (the largest time where that is unknown), its file name, and whether
/// it hints at an attachment road.
pub struct PhotoKey {
    pub identity: Seq<char>,
    pub time: int,
    pub file: Seq<char>,
    pub hint: bool,
}

/// A `PhotoKey` in executable form.
pub struct SortKey {
    pub identity: Vec<char>,
    pub time: i64,
    pub file: Vec<char>,
    pub hint: bool,
}

impl View for SortKey {
    type V = PhotoKey;

    open spec fn view(&self) -> PhotoKey {
        PhotoKey { identity: self.identity@, time: self.time as int, file: self.file@, hint: self.hint }
    }
}

/// The views of a vector of keys.
pub open spec fn key_views(v: Seq<SortKey>) -> Seq<PhotoKey> {
    v.map_values(|k: SortKey| k@)
}

/// The keys that the indices in `idx` select from `ks`, in the order of `idx`.
pub open spec fn picked(ks: Seq<PhotoKey>, idx: Seq<usize>) -> Seq<PhotoKey> {
    Seq::new(idx.len(), |i: int| ks[idx[i] as int])
}

/// `a` comes no later than `b` in dictionary order by code point, both read
/// from position `from` on.
pub open spec fn lex_leq(a: Seq<char>, b: Seq<char>, from: int) -> bool
    decreases a.len() - from,
{
    if from >= a.len() {
        true
    } else if from >= b.len() {
        false
    } else if a[from] != b[from] {
        a[from] < b[from]
    } else {
        lex_leq(a, b, from + 1)
    }
}

/// The order of two keys: by identity, time, file name and hint; with
/// `time_first`, by time, identity, file name and hint.
pub open spec fn key_leq(time_first: bool, x: PhotoKey, y: PhotoKey) -> bool {
    if time_first && x.time != y.time {
        x.time < y.time
    } else if x.identity != y.identity {
        lex_leq(x.identity, y.identity, 0)
    } else if x.time != y.time {
        x.time < y.time
    } else if x.file != y.file {
        lex_leq(x.file, y.file, 0)
    } else {
        !x.hint || y.hint
    }
}

pub open spec fn key_order(time_first: bool) -> spec_fn(PhotoKey, PhotoKey) -> bool {
    |x: PhotoKey, y: PhotoKey| key_leq(time_first, x, y)
}

proof fn lemma_lex_total(a: Seq<char>, b: Seq<char>, from: int)
    requires
        0 <= from,
    ensures
        lex_leq(a, b, from) || lex_leq(b, a, from),
        lex_leq(a, a, from),
    decreases a.len() - from,
{
    if from < a.len() {
        lemma_lex_total(a, b, from + 1);
    }
}

proof fn lemma_lex_trans(a: Seq<char>, b: Seq<char>, c: Seq<char>, from: int)
    requires
        0 <= from,
        lex_leq(a, b, from),
        lex_leq(b, c, from),
    ensures
        lex_leq(a, c, from),
    decreases a.len() - from,
{
    if from < a.len() && a[from] == b[from] && b[from] == c[from] {
        lemma_lex_trans(a, b, c, from + 1);
    }
}

proof fn lemma_lex_antisym(a: Seq<char>, b: Seq<char>, from: int)
    requires
        0 <= from <= a.len(),
        from <= b.len(),
        lex_leq(a, b, from),
        lex_leq(b, a, from),
        forall|i: int| 0 <= i < from ==> a[i] == b[i],
    ensures
        a == b,
    decreases a.len() - from,
{
    if from < a.len() {
        lemma_lex_antisym(a, b, from + 1);
    } else {
        assert(a =~= b);
    }
}

/// The dictionary order is an order: it is transitive, two texts that
/// compare both ways are one text, and any two texts compare.
pub proof fn lemma_lex_order(a: Seq<char>, b: Seq<char>, c: Seq<char>)
    ensures
        lex_leq(a, b, 0) && lex_leq(b, c, 0) ==> lex_leq(a, c, 0),
        lex_leq(a, b, 0) && lex_leq(b, a, 0) ==> a == b,
        lex_leq(b, c, 0) && lex_leq(c, b, 0) ==> b == c,
        lex_leq(a, b, 0) || lex_leq(b, a, 0),
        lex_leq(a, a, 0),
{
    lemma_lex_total(a, b, 0);
    if lex_leq(a, b, 0) && lex_leq(b, c, 0) {
        lemma_lex_trans(a, b, c, 0);
    }
    if lex_leq(a, b, 0) && lex_leq(b, a, 0) {
        lemma_lex_antisym(a, b, 0);
    }
    if lex_leq(b, c, 0) && lex_leq(c, b, 0) {
        lemma_lex_antisym(b, c, 0);
    }
}

/// Either order of the keys is total: any two keys compare, and two that
/// compare both ways are one key.
pub proof fn lemma_key_order_total(time_first: bool)
    ensures
        total_ordering(key_order(time_first)),
{
    let r = key_order(time_first);
    assert forall|x: PhotoKey| #[trigger] r(x, x) by {}
    assert forall|x: PhotoKey, y: PhotoKey| #[trigger] r(x, y) && #[trigger] r(y, x) implies x
        == y by {
        if x.identity != y.identity {
            lemma_lex_antisym(x.identity, y.identity, 0);
        }
        if x.file != y.file {
            lemma_lex_antisym(x.file, y.file, 0);
        }
    }
    assert forall|x: PhotoKey, y: PhotoKey, z: PhotoKey| #[trigger]
        r(x, y) && #[trigger] r(y, z) implies r(x, z) by {
        lemma_lex_order(x.identity, y.identity, z.identity);
        lemma_lex_order(x.file, y.file, z.file);
    }
    assert forall|x: PhotoKey, y: PhotoKey| #[trigger] r(x, y) || #[trigger] r(y, x) by {
        lemma_lex_total(x.identity, y.identity, 0);
        lemma_lex_total(x.file, y.file, 0);
    }
}

/// What is made of the same items, taken in another order, is made of the
/// same items again: `f` applied to each item of `a` gives what `f` applied
/// to each item of `b` gives, but for the order.
pub proof fn lemma_map_same_items<A, B>(a: Seq<A>, b: Seq<A>, f: spec_fn(A) -> B)
    requires
        a.to_multiset() == b.to_multiset(),
    ensures
        a.map_values(f).to_multiset() == b.map_values(f).to_multiset(),
    decreases a.len(),
{
    broadcast use vstd::seq_lib::group_to_multiset_ensures;

    vstd::seq_lib::to_multiset_len(a);
    vstd::seq_lib::to_multiset_len(b);
    if a.len() == 0 {
        assert(a.map_values(f) =~= b.map_values(f));
    } else {
        let x = a.last();
        let rest = a.drop_last();
        assert(a =~= rest.push(x));
        vstd::seq_lib::to_multiset_build(rest, x);
        assert(a.to_multiset().count(x) > 0);
        assert(b.contains(x));
        let j = choose|j: int| 0 <= j < b.len() && b[j] == x;
        let others = b.remove(j);
        vstd::seq_lib::to_multiset_remove(b, j);
        assert(rest.to_multiset() =~= a.to_multiset().remove(x));
        assert(others.to_multiset() =~= rest.to_multiset());
        lemma_map_same_items(rest, others, f);
        assert(a.map_values(f) =~= rest.map_values(f).push(f(x)));
        assert(b.map_values(f) =~= others.map_values(f).insert(j, f(x)));
        vstd::seq_lib::to_multiset_build(rest.map_values(f), f(x));
        vstd::seq_lib::to_multiset_insert(others.map_values(f), j, f(x));
    }
}

/// Whether `a` comes no later than `b` in dictionary order.
pub fn chars_leq(a: &Vec<char>, b: &Vec<char>) -> (r: bool)
    ensures
        r == lex_leq(a@, b@, 0),
{
    let mut i: usize = 0;
    while i < a.len()
        invariant
            i <= a.len(),
            lex_leq(a@, b@, 0) == lex_leq(a@, b@, i as int),
        decreases a.len() - i,
    {
        if i >= b.len() {
            return false;
        }
        if a[i] != b[i] {
            return a[i] < b[i];
        }
        i += 1;
    }
    true
}

/// Whether `x` comes no later than `y` in the order that `time_first` names.
pub fn key_leq_of(time_first: bool, x: &SortKey, y: &SortKey) -> (r: bool)
    ensures
        r == key_leq(time_first, x@, y@),
{
    if time_first && x.time != y.time {
        x.time < y.time
    } else if !chars_equal(&x.identity, &y.identity) {
        chars_leq(&x.identity, &y.identity)
    } else if x.time != y.time {
        x.time < y.time
    } else if !chars_equal(&x.file, &y.file) {
        chars_leq(&x.file, &y.file)
    } else {
        !x.hint || y.hint
    }
}

/// Sorts the indices in `items` by the keys that they select.
pub fn sort_positions(keys: &Vec<SortKey>, items: &Vec<usize>, time_first: bool) -> (out: Vec<
    usize,
>)
    requires
        forall|i: int| 0 <= i < items.len() ==> items[i] < keys.len(),
    ensures
        out@.to_multiset() == items@.to_multiset(),
        out.len() == items.len(),
        forall|i: int| 0 <= i < out.len() ==> out[i] < keys.len(),
        picked(key_views(keys@), out@) == picked(key_views(keys@), items@).sort_by(
            key_order(time_first),
        ),
{
    broadcast use vstd::seq_lib::group_to_multiset_ensures;

    let ghost ks = key_views(keys@);
    let ghost leq = key_order(time_first);
    proof {
        lemma_key_order_total(time_first);
    }
    let mut out: Vec<usize> = Vec::new();
    let mut i: usize = 0;
    assert(items@.take(0) =~= Seq::<usize>::empty());
    assert(picked(ks, items@.take(0)) =~= picked(ks, out@));
    while i < items.len()
        invariant
            i <= items.len(),
            ks == key_views(keys@),
            leq == key_order(time_first),
            total_ordering(leq),
            forall|j: int| 0 <= j < items.len() ==> items[j] < keys.len(),
            out.len() == i,
            forall|j: int| 0 <= j < out.len() ==> out[j] < keys.len(),
            out@.to_multiset() == items@.take(i as int).to_multiset(),
            picked(ks, out@).to_multiset() == picked(ks, items@.take(i as int)).to_multiset(),
            sorted_by(picked(ks, out@), leq),
        decreases items.len() - i,
    {
        let x = items[i];
        let mut p: usize = 0;
        while p < out.len() && key_leq_of(time_first, &keys[out[p]], &keys[x])
            invariant
                p <= out.len(),
                x < keys.len(),
                ks == key_views(keys@),
                leq == key_order(time_first),
                forall|j: int| 0 <= j < out.len() ==> out[j] < keys.len(),
                forall|j: int| 0 <= j < p ==> leq(ks[out[j] as int], ks[x as int]),
            decreases out.len() - p,
        {
            p += 1;
        }
        let ghost before = out@;
        out.insert(p, x);
        proof {
            let old_keys = picked(ks, before);
            let new_keys = picked(ks, out@);
            assert(new_keys =~= old_keys.insert(p as int, ks[x as int]));
            vstd::seq_lib::to_multiset_insert(old_keys, p as int, ks[x as int]);
            vstd::seq_lib::to_multiset_insert(before, p as int, x);
            vstd::seq_lib::to_multiset_build(items@.take(i as int), x);
            vstd::seq_lib::to_multiset_build(picked(ks, items@.take(i as int)), ks[x as int]);
            assert(items@.take(i as int + 1) =~= items@.take(i as int).push(x));
            assert(picked(ks, items@.take(i as int + 1)) =~= picked(ks, items@.take(i as int)).push(
                ks[x as int],
            ));
            assert forall|a: int, b: int| 0 <= a < b < new_keys.len() implies leq(
                new_keys[a],
                new_keys[b],
            ) by {
                if a == p {
                    assert(new_keys[b] == old_keys[b - 1]);
                    assert(!leq(old_keys[p as int], ks[x as int]));
                    assert(leq(ks[x as int], old_keys[p as int]));
                    if b - 1 > p {
                        assert(leq(old_keys[p as int], old_keys[b - 1]));
                    }
                } else if b == p {
                    assert(new_keys[a] == old_keys[a]);
                } else if a < p && b < p {
                    assert(new_keys[a] == old_keys[a] && new_keys[b] == old_keys[b]);
                } else if a < p {
                    assert(new_keys[a] == old_keys[a] && new_keys[b] == old_keys[b - 1]);
                } else {
                    assert(new_keys[a] == old_keys[a - 1] && new_keys[b] == old_keys[b - 1]);
                }
            }
        }
        i += 1;
    }
    proof {
        assert(items@.take(items.len() as int) == items@);
        let want = picked(ks, items@).sort_by(leq);
        picked(ks, items@).lemma_sort_by_ensures(leq);
        lemma_sorted_unique(picked(ks, out@), want, leq);
    }
    out
}

} // verus!
