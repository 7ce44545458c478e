use vstd::prelude::*;
use crate::grouping::{seconds_between, lemma_same_items, time_of, GROUP_GAP_SECS};
use vstd::seq_lib::lemma_sorted_unique;
use crate::order::{
    key_order, key_views, lemma_key_order_total, picked, sort_positions, PhotoKey, SortKey,
};
use crate::records::{GroupRecord, GroupRecords, PhotoEntry, RecordView};
use crate::station::{
    attachment_hint, attachment_identity, attachment_prefix, has_attachment_hint, record_station,
    station_number_of,
};
use crate::text::{chars_equal, chars_of, push_all};

verus! {

/// The station number of an entry; empty where it has none.
pub open spec fn station_or_empty(r: RecordView) -> Seq<char> {
    match record_station(r) {
        Some(no) => no,
        None => Seq::empty(),
    }
}

/// What the propagation of attachment roads reads of one entry: its station
/// number in the place of its identity.
pub open spec fn station_key(e: (Seq<char>, RecordView)) -> PhotoKey {
    PhotoKey {
        identity: station_or_empty(e.1),
        time: time_of(e.1),
        file: e.0,
        hint: attachment_hint(e.1),
    }
}

pub open spec fn station_keys(s: Seq<(Seq<char>, RecordView)>) -> Seq<PhotoKey> {
    s.map_values(|e: (Seq<char>, RecordView)| station_key(e))
}

/// The positions below `n` of the entries that have a station number.
pub open spec fn station_items(s: Seq<(Seq<char>, RecordView)>, n: int) -> Seq<usize>
    decreases n,
{
    if n <= 0 {
        Seq::empty()
    } else if record_station(s[n - 1].1) is Some {
        station_items(s, n - 1).push((n - 1) as usize)
    } else {
        station_items(s, n - 1)
    }
}

/// The entries that have a station number, ordered by station number, then
/// time, then file name.
pub open spec fn by_station(s: Seq<(Seq<char>, RecordView)>) -> Seq<PhotoKey> {
    picked(station_keys(s), station_items(s, s.len() as int)).sort_by(key_order(false))
}

/// Two photos that follow each other lie in different chunks: their station
/// numbers differ or they lie too far apart in time.
pub open spec fn breaks(a: PhotoKey, b: PhotoKey, gap: int) -> bool {
    a.identity != b.identity || seconds_between(a.time, b.time) > gap
}

/// No chunk ends between the positions `a` and `b` of `s`.
pub open spec fn linked(s: Seq<PhotoKey>, a: int, b: int, gap: int) -> bool {
    forall|j: int| a < j <= b ==> !breaks(s[j - 1], #[trigger] s[j], gap)
}

/// Some photo in the chunk of position `p` tells of an attachment road.
pub open spec fn chunk_tells(s: Seq<PhotoKey>, p: int, gap: int) -> bool {
    exists|q: int|
        0 <= q < s.len() && (#[trigger] s[q]).hint && (if q <= p {
            linked(s, q, p, gap)
        } else {
            linked(s, p, q, gap)
        })
}

/// The photo `k` lies in a chunk of `s` that tells of an attachment road.
pub open spec fn told(s: Seq<PhotoKey>, k: PhotoKey, gap: int) -> bool {
    exists|p: int| 0 <= p < s.len() && #[trigger] s[p] == k && chunk_tells(s, p, gap)
}

/// The identity of entry `e` after propagation among the entries `all`: that
/// of the attachment road at its station, where a photo of its chunk tells of
/// one; else its own.
pub open spec fn propagated_identity(
    all: Seq<(Seq<char>, RecordView)>,
    e: (Seq<char>, RecordView),
    gap: int,
) -> Seq<char> {
    if record_station(e.1) is Some && told(by_station(all), station_key(e), gap) {
        attachment_prefix() + record_station(e.1)->0
    } else {
        e.1.machine_id
    }
}

/// The entries after propagation.
pub open spec fn propagation_of(all: Seq<(Seq<char>, RecordView)>, gap: int) -> Seq<(Seq<char>, RecordView)> {
    all.map_values(
        |e: (Seq<char>, RecordView)|
            (e.0, RecordView { machine_id: propagated_identity(all, e, gap), ..e.1 }),
    )
}

/// The keys of the entries among the first `n` that have a station number.
spec fn stationed(s: Seq<(Seq<char>, RecordView)>, n: int) -> Seq<PhotoKey>
    decreases n,
{
    if n <= 0 {
        Seq::empty()
    } else if record_station(s[n - 1].1) is Some {
        stationed(s, n - 1).push(station_key(s[n - 1]))
    } else {
        stationed(s, n - 1)
    }
}

proof fn lemma_stationed_is_picked(s: Seq<(Seq<char>, RecordView)>, n: int)
    requires
        0 <= n <= s.len() <= usize::MAX,
    ensures
        picked(station_keys(s), station_items(s, n)) == stationed(s, n),
    decreases n,
{
    if n > 0 {
        lemma_stationed_is_picked(s, n - 1);
        let before = station_items(s, n - 1);
        if record_station(s[n - 1].1) is Some {
            assert(picked(station_keys(s), before.push((n - 1) as usize)) =~= picked(
                station_keys(s),
                before,
            ).push(station_key(s[n - 1])));
        }
    } else {
        assert(picked(station_keys(s), station_items(s, n)) =~= stationed(s, n));
    }
}

proof fn lemma_stationed_prefix(
    s: Seq<(Seq<char>, RecordView)>,
    t: Seq<(Seq<char>, RecordView)>,
    n: int,
)
    requires
        0 <= n <= s.len(),
        n <= t.len(),
        forall|i: int| 0 <= i < n ==> s[i] == t[i],
    ensures
        stationed(s, n) == stationed(t, n),
    decreases n,
{
    if n > 0 {
        lemma_stationed_prefix(s, t, n - 1);
    }
}

/// The multiset `m` with the key of `x`, if `x` has a station number.
spec fn with_stationed(m: vstd::multiset::Multiset<PhotoKey>, x: (Seq<char>, RecordView)) -> vstd::multiset::Multiset<
    PhotoKey,
> {
    if record_station(x.1) is Some {
        m.insert(station_key(x))
    } else {
        m
    }
}

proof fn lemma_stationed_insert(s: Seq<(Seq<char>, RecordView)>, j: int, x: (Seq<char>, RecordView))
    requires
        0 <= j <= s.len(),
    ensures
        stationed(s.insert(j, x), s.len() as int + 1).to_multiset() == with_stationed(
            stationed(s, s.len() as int).to_multiset(),
            x,
        ),
    decreases s.len(),
{
    let n = s.len() as int;
    let t = s.insert(j, x);
    if j == n {
        lemma_stationed_prefix(t, s, n);
        if record_station(x.1) is Some {
            vstd::seq_lib::to_multiset_build(stationed(s, n), station_key(x));
        }
    } else {
        let l = s.last();
        let r = s.drop_last();
        let u = r.insert(j, x);
        lemma_stationed_insert(r, j, x);
        lemma_stationed_prefix(t, u, n);
        lemma_stationed_prefix(s, r, n - 1);
        assert(t[n] == l);
        if record_station(l.1) is Some {
            vstd::seq_lib::to_multiset_build(stationed(u, n), station_key(l));
            vstd::seq_lib::to_multiset_build(stationed(r, n - 1), station_key(l));
        }
        assert(stationed(t, n + 1).to_multiset() =~= with_stationed(
            stationed(s, n).to_multiset(),
            x,
        ));
    }
}

proof fn lemma_stationed_same(a: Seq<(Seq<char>, RecordView)>, b: Seq<(Seq<char>, RecordView)>)
    requires
        a.to_multiset() == b.to_multiset(),
    ensures
        stationed(a, a.len() as int).to_multiset() == stationed(b, b.len() as int).to_multiset(),
    decreases a.len(),
{
    broadcast use vstd::seq_lib::group_to_multiset_ensures;

    vstd::seq_lib::to_multiset_len(a);
    vstd::seq_lib::to_multiset_len(b);
    if a.len() == 0 {
    } else {
        let x = a.last();
        let rest = a.drop_last();
        assert(a =~= rest.insert(rest.len() as int, x));
        assert(a =~= rest.push(x));
        vstd::seq_lib::to_multiset_build(rest, x);
        assert(a.to_multiset().count(x) > 0);
        assert(b.contains(x));
        let j = choose|j: int| 0 <= j < b.len() && b[j] == x;
        let others = b.remove(j);
        vstd::seq_lib::to_multiset_remove(b, j);
        assert(rest.to_multiset() =~= a.to_multiset().remove(x));
        assert(others.to_multiset() =~= rest.to_multiset());
        assert(b =~= others.insert(j, x));
        lemma_stationed_same(rest, others);
        lemma_stationed_insert(rest, rest.len() as int, x);
        lemma_stationed_insert(others, j, x);
    }
}

/// Propagation does not depend on the order in which the photos are given:
/// two collections that hold the same photos give a photo the same identity.
pub proof fn lemma_propagation_ignores_order(
    a: Seq<(Seq<char>, RecordView)>,
    b: Seq<(Seq<char>, RecordView)>,
    e: (Seq<char>, RecordView),
    gap: int,
)
    requires
        a.to_multiset() == b.to_multiset(),
        a.len() <= usize::MAX,
    ensures
        by_station(a) == by_station(b),
        propagated_identity(a, e, gap) == propagated_identity(b, e, gap),
{
    vstd::seq_lib::to_multiset_len(a);
    vstd::seq_lib::to_multiset_len(b);
    lemma_stationed_is_picked(a, a.len() as int);
    lemma_stationed_is_picked(b, b.len() as int);
    lemma_stationed_same(a, b);
    let order = key_order(false);
    lemma_key_order_total(false);
    stationed(a, a.len() as int).lemma_sort_by_ensures(order);
    stationed(b, b.len() as int).lemma_sort_by_ensures(order);
    lemma_sorted_unique(by_station(a), by_station(b), order);
}

/// The station number of a record, if it has one.
pub fn station_of(rec: &GroupRecord) -> (r: Option<Vec<char>>)
    ensures
        match r {
            Some(no) => record_station(rec@) == Some(no@),
            None => record_station(rec@) is None,
        },
{
    let first = station_number_of(&chars_of(rec.machine_id.as_str()));
    if first.is_some() {
        return first;
    }
    let second = station_number_of(&chars_of(rec.detected_text.as_str()));
    if second.is_some() {
        return second;
    }
    station_number_of(&chars_of(rec.description.as_str()))
}

fn breaks_of(a: &SortKey, b: &SortKey, gap_secs: i64) -> (r: bool)
    ensures
        r == breaks(a@, b@, gap_secs as int),
{
    if !chars_equal(&a.identity, &b.identity) {
        return true;
    }
    let x: i128 = a.time as i128;
    let y: i128 = b.time as i128;
    let d: i128 = if a.time == i64::MAX || b.time == i64::MAX {
        0
    } else if x <= y {
        y - x
    } else {
        x - y
    };
    d > gap_secs as i128
}

/// Whether some photo in the chunk of position `p` tells of an attachment
/// road, the photos taken in the order `perm`.
fn tells_at(keys: &Vec<SortKey>, perm: &Vec<usize>, p: usize, gap_secs: i64) -> (r: bool)
    requires
        p < perm.len(),
        forall|q: int| 0 <= q < perm.len() ==> perm[q] < keys.len(),
    ensures
        r == chunk_tells(picked(key_views(keys@), perm@), p as int, gap_secs as int),
{
    let ghost ks = key_views(keys@);
    let ghost s = picked(ks, perm@);
    assert forall|q: int| 0 <= q < perm.len() implies #[trigger] s[q] == keys@[perm@[q] as int]@ by {
        assert(ks[perm@[q] as int] == keys@[perm@[q] as int]@);
    }
    let mut l: usize = p;
    let mut open: bool = true;
    while open
        invariant
            l <= p < perm.len(),
            s == picked(key_views(keys@), perm@),
            s.len() == perm.len(),
            forall|q: int| 0 <= q < perm.len() ==> perm[q] < keys.len(),
            forall|q: int| 0 <= q < perm.len() ==> #[trigger] s[q] == keys@[perm@[q] as int]@,
            linked(s, l as int, p as int, gap_secs as int),
            forall|j: int| l < j <= p ==> !(#[trigger] s[j]).hint,
            !open ==> !s[l as int].hint && (l == 0 || breaks(s[l - 1], s[l as int], gap_secs as int)),
        decreases l + (if open { 1int } else { 0int }),
    {
        if keys[perm[l]].hint {
            assert(s[l as int].hint);
            return true;
        }
        if l == 0 || breaks_of(&keys[perm[l - 1]], &keys[perm[l]], gap_secs) {
            open = false;
        } else {
            l -= 1;
        }
    }
    let mut h: usize = p;
    open = true;
    while open
        invariant
            l <= p <= h < perm.len(),
            s == picked(key_views(keys@), perm@),
            s.len() == perm.len(),
            forall|q: int| 0 <= q < perm.len() ==> perm[q] < keys.len(),
            forall|q: int| 0 <= q < perm.len() ==> #[trigger] s[q] == keys@[perm@[q] as int]@,
            linked(s, p as int, h as int, gap_secs as int),
            forall|j: int| p <= j <= h ==> !(#[trigger] s[j]).hint,
            !open ==> (h + 1 == perm.len() || breaks(s[h as int], s[h + 1], gap_secs as int)),
        decreases perm.len() - h + (if open { 1int } else { 0int }),
    {
        if h + 1 == perm.len() || breaks_of(&keys[perm[h]], &keys[perm[h + 1]], gap_secs) {
            open = false;
        } else {
            h += 1;
            if keys[perm[h]].hint {
                assert(s[h as int].hint);
                return true;
            }
        }
    }
    proof {
        assert forall|q: int| 0 <= q < s.len() && (#[trigger] s[q]).hint implies !(if q <= p {
            linked(s, q, p as int, gap_secs as int)
        } else {
            linked(s, p as int, q, gap_secs as int)
        }) by {
            if q < l {
                if linked(s, q, p as int, gap_secs as int) {
                    assert(!breaks(s[l - 1], s[l as int], gap_secs as int));
                }
            } else if q > h {
                if linked(s, p as int, q, gap_secs as int) {
                    assert(!breaks(s[h as int], s[h + 1], gap_secs as int));
                }
            }
        }
    }
    false
}

/// A copy of `rec` with the identity `identity`.
fn with_identity(rec: &GroupRecord, identity: String) -> (r: GroupRecord)
    ensures
        r@ == (RecordView { machine_id: identity@, ..rec@ }),
{
    let mut out = rec.duplicate();
    out.machine_id = identity;
    out
}

/// Carries the identity of an attachment road to the photos that were taken
/// with one: the photos that share a station number are cut into chunks by
/// time, and where one photo of a chunk tells of an attachment road, every
/// photo of the chunk gets the identity of the attachment road at that
/// station. Photos without a station number stay as they are. A chunk ends
/// where two photos lie more than `gap_secs` seconds apart.
pub fn propagate_attachment_with_gap(records: &mut GroupRecords, gap_secs: i64)
    requires
        old(records).wf(),
    ensures
        final(records)@ == propagation_of(old(records)@, gap_secs as int),
        final(records).wf(),
{
    let n = records.entries.len();
    let ghost all = records@;
    let mut keys: Vec<SortKey> = Vec::new();
    let mut stations: Vec<Option<Vec<char>>> = Vec::new();
    let mut items: Vec<usize> = Vec::new();
    let mut i: usize = 0;
    while i < n
        invariant
            i <= n,
            n == records.entries.len(),
            all == records@,
            keys.len() == i,
            stations.len() == i,
            items@ == station_items(all, i as int),
            forall|t: int| 0 <= t < items.len() ==> (#[trigger] items[t]) < i,
            forall|t: int, u: int| 0 <= t < u < items.len() ==> items[t] < items[u],
            forall|t: int| 0 <= t < items.len() ==> record_station(all[items[t] as int].1) is Some,
            forall|j: int|
                0 <= j < i && record_station(all[j].1) is Some ==> items@.contains(j as usize),
            forall|j: int| 0 <= j < i ==> (#[trigger] keys[j])@ == station_key(all[j]),
            forall|j: int|
                0 <= j < i ==> match #[trigger] stations[j] {
                    Some(no) => record_station(all[j].1) == Some(no@),
                    None => record_station(all[j].1) is None,
                },
        decreases n - i,
    {
        let rec = &records.entries[i].record;
        let station = station_of(rec);
        let ghost items_before = items@;
        let identity = match &station {
            Some(no) => {
                items.push(i);
                proof {
                    assert(items@[items_before.len() as int] == i);
                    assert forall|j: int|
                        0 <= j < i + 1 && record_station(all[j].1) is Some implies items@.contains(
                        j as usize,
                    ) by {
                        if j < i {
                            let t = choose|t: int|
                                0 <= t < items_before.len() && items_before[t] == j as usize;
                            assert(items@[t] == j as usize);
                        }
                    }
                }
                let mut copy: Vec<char> = Vec::new();
                push_all(&mut copy, no);
                copy
            },
            None => {
                assert forall|j: int|
                    0 <= j < i + 1 && record_station(all[j].1) is Some implies items@.contains(
                    j as usize,
                ) by {}
                Vec::new()
            },
        };
        keys.push(
            SortKey {
                identity,
                time: match rec.captured_at {
                    Some(t) => t,
                    None => i64::MAX,
                },
                file: chars_of(records.entries[i].file.as_str()),
                hint: has_attachment_hint(rec),
            },
        );
        stations.push(station);
        i += 1;
    }
    let ghost ks = key_views(keys@);
    assert(ks =~= station_keys(all));
    let perm = sort_positions(&keys, &items, false);
    let ghost s = picked(ks, perm@);
    proof {
        assert(items@.no_duplicates());
        lemma_same_items(items@, perm@);
        assert(s == by_station(all));
        assert forall|p: int, q: int| 0 <= p < q < s.len() implies s[p] != s[q] by {
            let a = perm@[p] as int;
            let b = perm@[q] as int;
            assert(a != b);
            assert(all[a].0 != all[b].0) by {
                if a < b {
                    assert(all[a].0 != all[b].0);
                } else {
                    assert(all[b].0 != all[a].0);
                }
            }
        }
    }
    let mut rewrite: Vec<bool> = Vec::new();
    let mut i: usize = 0;
    while i < n
        invariant
            i <= n,
            rewrite.len() == i,
            forall|j: int| 0 <= j < i ==> !rewrite[j],
        decreases n - i,
    {
        rewrite.push(false);
        i += 1;
    }
    let mut p: usize = 0;
    while p < perm.len()
        invariant
            p <= perm.len(),
            rewrite.len() == n,
            keys.len() == n,
            s == picked(key_views(keys@), perm@),
            perm@.no_duplicates(),
            forall|q: int| 0 <= q < perm.len() ==> perm[q] < keys.len(),
            forall|q: int| 0 <= q < p ==> rewrite[perm[q] as int] == chunk_tells(s, q, gap_secs as int),
            forall|j: int| 0 <= j < n && rewrite[j] ==> perm@.contains(j as usize),
        decreases perm.len() - p,
    {
        let tells = tells_at(&keys, &perm, p, gap_secs);
        rewrite.set(perm[p], tells);
        p += 1;
    }
    proof {
        assert forall|j: int| 0 <= j < n implies rewrite[j] == (record_station(all[j].1) is Some
            && told(s, station_key(all[j]), gap_secs as int)) by {
            if perm@.contains(j as usize) {
                let q = choose|q: int| 0 <= q < perm.len() && perm[q] == j as usize;
                assert(s[q] == ks[j]);
                assert(items@.contains(j as usize));
                if told(s, station_key(all[j]), gap_secs as int) {
                    let q2 = choose|q2: int|
                        0 <= q2 < s.len() && #[trigger] s[q2] == station_key(all[j]) && chunk_tells(
                            s,
                            q2,
                            gap_secs as int,
                        );
                    assert(q2 == q);
                }
            } else {
                assert(!items@.contains(j as usize));
            }
        }
    }
    let mut i: usize = 0;
    while i < n
        invariant
            i <= n,
            n == records.entries.len(),
            rewrite.len() == n,
            stations.len() == n,
            all.len() == n,
            records@.len() == n,
            forall|j: int|
                0 <= j < n ==> rewrite[j] == (record_station(all[j].1) is Some && told(
                    by_station(all),
                    station_key(all[j]),
                    gap_secs as int,
                )),
            forall|j: int|
                0 <= j < n ==> match #[trigger] stations[j] {
                    Some(no) => record_station(all[j].1) == Some(no@),
                    None => record_station(all[j].1) is None,
                },
            forall|j: int| 0 <= j < i ==> #[trigger] records@[j] == propagation_of(all, gap_secs as int)[j],
            forall|j: int| i <= j < n ==> #[trigger] records@[j] == all[j],
        decreases n - i,
    {
        if rewrite[i] {
            match &stations[i] {
                Some(no) => {
                    let entry = PhotoEntry {
                        file: records.entries[i].file.clone(),
                        record: with_identity(&records.entries[i].record, attachment_identity(no)),
                    };
                    let ghost before = records@;
                    records.entries.set(i, entry);
                    assert(records@ =~= before.update(i as int, (entry.file@, entry.record@)));
                },
                None => {},
            }
        } else {
            assert(records@[i as int].1 == (RecordView {
                machine_id: records@[i as int].1.machine_id,
                ..records@[i as int].1
            }));
        }
        i += 1;
    }
    assert(records@ =~= propagation_of(all, gap_secs as int));
}

/// Carries the identity of an attachment road to the photos taken with one,
/// by the usual gap of five minutes.
pub fn propagate_attachment_by_time(records: &mut GroupRecords)
    requires
        old(records).wf(),
    ensures
        final(records)@ == propagation_of(old(records)@, GROUP_GAP_SECS as int),
        final(records).wf(),
{
    propagate_attachment_with_gap(records, GROUP_GAP_SECS);
}

} // verus!
