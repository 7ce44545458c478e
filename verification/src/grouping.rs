use vstd::prelude::*;
use vstd::relations::sorted_by;
use vstd::seq_lib::lemma_sorted_unique;
use crate::order::{
    key_order, key_views, lemma_key_order_total, lemma_lex_order, lemma_map_same_items, picked,
    sort_positions, PhotoKey, SortKey,
};
use crate::records::{distinct_files, GroupRecord, GroupRecords, PhotoEntry, RecordView};
use crate::station::{attachment_hint, has_attachment_hint};
use crate::text::{chars_equal, chars_of};

verus! {

/// Two photos of one identity taken more than this many seconds apart belong
/// to different groups, unless the caller sets another gap.
pub const GROUP_GAP_SECS: i64 = 300;

/// When a photo was taken; a photo of unknown time counts as taken last.
pub open spec fn time_of(r: RecordView) -> int {
    match r.captured_at {
        Some(t) => t as int,
        None => i64::MAX as int,
    }
}

/// What grouping reads of one entry.
pub open spec fn key_of(e: (Seq<char>, RecordView)) -> PhotoKey {
    PhotoKey { identity: e.1.machine_id, time: time_of(e.1), file: e.0, hint: attachment_hint(e.1) }
}

pub open spec fn keys_of(s: Seq<(Seq<char>, RecordView)>) -> Seq<PhotoKey> {
    s.map_values(|e: (Seq<char>, RecordView)| key_of(e))
}

/// The seconds between two times; none where either is unknown.
pub open spec fn seconds_between(a: int, b: int) -> int {
    if a == i64::MAX || b == i64::MAX {
        0
    } else if a <= b {
        b - a
    } else {
        a - b
    }
}

/// Two photos that follow each other cannot share a segment: their identities
/// differ, they lie too far apart in time, or only one of them tells of an
/// attachment road.
pub open spec fn splits(a: PhotoKey, b: PhotoKey, gap: int) -> bool {
    a.identity != b.identity || seconds_between(a.time, b.time) > gap || a.hint != b.hint
}

/// The photo at position `p` of `s` opens a segment.
pub open spec fn is_head(s: Seq<PhotoKey>, p: int, gap: int) -> bool {
    p == 0 || splits(s[p - 1], s[p], gap)
}

/// The photo that opens the segment of the photo at position `p` of `s`.
pub open spec fn head_of(s: Seq<PhotoKey>, p: int, gap: int) -> PhotoKey
    decreases p,
{
    if p <= 0 || is_head(s, p, gap) {
        s[p]
    } else {
        head_of(s, p - 1, gap)
    }
}

/// The photos among the first `n` of `s` that open a segment, in order.
pub open spec fn heads_upto(s: Seq<PhotoKey>, n: int, gap: int) -> Seq<PhotoKey>
    decreases n,
{
    if n <= 0 {
        Seq::empty()
    } else if is_head(s, n - 1, gap) {
        heads_upto(s, n - 1, gap).push(s[n - 1])
    } else {
        heads_upto(s, n - 1, gap)
    }
}

/// The photos ordered by identity, then time, then file name.
pub open spec fn by_identity(ks: Seq<PhotoKey>) -> Seq<PhotoKey> {
    ks.sort_by(key_order(false))
}

/// The photos that open a segment, ordered by time, then identity, then file
/// name: the segment that the first of them opens is group 1, and so on.
pub open spec fn segments(ks: Seq<PhotoKey>, gap: int) -> Seq<PhotoKey> {
    heads_upto(by_identity(ks), by_identity(ks).len() as int, gap).sort_by(key_order(true))
}

/// `g` is the number of the group of photo `k` among the photos `ks`.
pub open spec fn is_group_of(ks: Seq<PhotoKey>, k: PhotoKey, g: int, gap: int) -> bool {
    &&& 1 <= g <= segments(ks, gap).len()
    &&& exists|p: int|
        0 <= p < by_identity(ks).len() && by_identity(ks)[p] == k && segments(ks, gap)[g - 1] == head_of(
            by_identity(ks),
            p,
            gap,
        )
}

/// Some position of `groups` holds `g`.
pub open spec fn number_in_use(groups: Seq<u32>, g: int) -> bool {
    exists|i: int| 0 <= i < groups.len() && #[trigger] groups[i] == g
}

/// Some photo has the group `g`.
pub open spec fn group_in_use(s: Seq<(Seq<char>, RecordView)>, g: int) -> bool {
    exists|i: int| 0 <= i < s.len() && (#[trigger] s[i]).1.group == g
}

/// `after` holds the photos of `before`, each with the number of its group.
pub open spec fn is_grouping_of(
    before: Seq<(Seq<char>, RecordView)>,
    after: Seq<(Seq<char>, RecordView)>,
    gap: int,
) -> bool {
    &&& after.len() == before.len()
    &&& forall|i: int|
        0 <= i < before.len() ==> (#[trigger] after[i]).0 == before[i].0 && after[i].1 == (
        RecordView { group: after[i].1.group, ..before[i].1 }) && is_group_of(
            keys_of(before),
            key_of(before[i]),
            after[i].1.group as int,
            gap,
        )
    &&& forall|g: int|
        1 <= g <= segments(keys_of(before), gap).len() ==> #[trigger] group_in_use(after, g)
}

fn splits_of(a: &SortKey, b: &SortKey, gap_secs: i64) -> (r: bool)
    ensures
        r == splits(a@, b@, gap_secs as int),
{
    if !chars_equal(&a.identity, &b.identity) || a.hint != b.hint {
        return true;
    }
    let x: i128 = a.time as i128;
    let y: i128 = b.time as i128;
    let d: i128 = if a.time == i64::MAX || b.time == i64::MAX {
        0
    } else if x <= y {
        y - x
    } else {
        x - y
    };
    d > gap_secs as i128
}

/// The key of a record under the file name `file`.
pub fn key_of_entry(file: &String, rec: &GroupRecord) -> (k: SortKey)
    ensures
        k@ == key_of((file@, rec@)),
{
    SortKey {
        identity: chars_of(rec.machine_id.as_str()),
        time: match rec.captured_at {
            Some(t) => t,
            None => i64::MAX,
        },
        file: chars_of(file.as_str()),
        hint: has_attachment_hint(rec),
    }
}

fn build_keys(records: &GroupRecords) -> (keys: Vec<SortKey>)
    ensures
        key_views(keys@) == keys_of(records@),
{
    let mut keys: Vec<SortKey> = Vec::new();
    let mut i: usize = 0;
    while i < records.entries.len()
        invariant
            i <= records.entries.len(),
            keys.len() == i,
            forall|j: int| 0 <= j < i ==> keys[j]@ == key_of(records@[j]),
        decreases records.entries.len() - i,
    {
        keys.push(key_of_entry(&records.entries[i].file, &records.entries[i].record));
        i += 1;
    }
    assert(key_views(keys@) =~= keys_of(records@));
    keys
}

fn count_up(n: usize) -> (v: Vec<usize>)
    ensures
        v.len() == n,
        forall|i: int| 0 <= i < n ==> v[i] == i,
{
    let mut v: Vec<usize> = Vec::new();
    let mut i: usize = 0;
    while i < n
        invariant
            i <= n,
            v.len() == i,
            forall|j: int| 0 <= j < i ==> v[j] == j,
        decreases n - i,
    {
        v.push(i);
        i += 1;
    }
    v
}

pub proof fn lemma_same_items(a: Seq<usize>, b: Seq<usize>)
    requires
        a.to_multiset() == b.to_multiset(),
        a.no_duplicates(),
    ensures
        b.no_duplicates(),
        forall|x: usize| a.contains(x) <==> b.contains(x),
{
    broadcast use vstd::seq_lib::group_to_multiset_ensures;

    a.lemma_multiset_has_no_duplicates();
    b.lemma_multiset_has_no_duplicates_conv();
    assert forall|x: usize| a.contains(x) <==> b.contains(x) by {
        assert(a.contains(x) <==> a.to_multiset().count(x) > 0);
        assert(b.contains(x) <==> b.to_multiset().count(x) > 0);
    }
}

/// Walks the photos in the order `perm` and cuts them into segments: `heads`
/// lists the photos that open one, `seg` tells for each position the segment
/// that it falls into, and `at` the position of each head.
fn mark_segments(keys: &Vec<SortKey>, perm: &Vec<usize>, gap_secs: i64) -> (r: (
    Vec<usize>,
    Vec<usize>,
    Ghost<Seq<int>>,
))
    requires
        forall|q: int| 0 <= q < perm.len() ==> perm[q] < keys.len(),
    ensures
        ({
            let ks = key_views(keys@);
            let s = picked(ks, perm@);
            let (heads, seg, at) = r;
            &&& seg.len() == perm.len()
            &&& heads.len() <= perm.len()
            &&& at@.len() == heads.len()
            &&& picked(ks, heads@) == heads_upto(s, s.len() as int, gap_secs as int)
            &&& forall|t: int| 0 <= t < heads.len() ==> heads[t] < keys.len()
            &&& forall|q: int|
                0 <= q < seg.len() ==> (#[trigger] seg[q]) < heads.len() && ks[heads[seg[q] as int] as int]
                    == head_of(s, q, gap_secs as int)
            &&& forall|t: int|
                0 <= t < heads.len() ==> 0 <= (#[trigger] at@[t]) < perm.len() && perm[at@[t]]
                    == heads[t] && seg[at@[t]] == t
            &&& forall|t: int, u: int| 0 <= t < u < heads.len() ==> at@[t] < at@[u]
        }),
{
    let ghost ks = key_views(keys@);
    let ghost s = picked(ks, perm@);
    let mut heads: Vec<usize> = Vec::new();
    let mut seg: Vec<usize> = Vec::new();
    let ghost mut at: Seq<int> = Seq::empty();
    let mut q: usize = 0;
    assert(picked(ks, heads@) =~= heads_upto(s, 0, gap_secs as int));
    while q < perm.len()
        invariant
            q <= perm.len(),
            ks == key_views(keys@),
            s == picked(ks, perm@),
            forall|j: int| 0 <= j < perm.len() ==> perm[j] < keys.len(),
            seg.len() == q,
            heads.len() <= q,
            q > 0 ==> heads.len() > 0,
            at.len() == heads.len(),
            picked(ks, heads@) == heads_upto(s, q as int, gap_secs as int),
            forall|t: int| 0 <= t < heads.len() ==> heads[t] < keys.len(),
            q > 0 ==> seg[q - 1] == heads.len() - 1,
            forall|j: int|
                0 <= j < q ==> (#[trigger] seg[j]) < heads.len() && ks[heads[seg[j] as int] as int]
                    == head_of(s, j, gap_secs as int),
            forall|t: int|
                0 <= t < heads.len() ==> 0 <= (#[trigger] at[t]) < q && perm[at[t]] == heads[t]
                    && seg[at[t]] == t,
            forall|t: int, u: int| 0 <= t < u < heads.len() ==> at[t] < at[u],
        decreases perm.len() - q,
    {
        let cur = perm[q];
        assert(s[q as int] == ks[cur as int]);
        assert(ks[cur as int] == keys@[cur as int]@);
        let opens = if q == 0 {
            true
        } else {
            let prev = perm[q - 1];
            assert(s[q - 1] == ks[prev as int]);
            assert(ks[prev as int] == keys@[prev as int]@);
            splits_of(&keys[prev], &keys[cur], gap_secs)
        };
        assert(opens == is_head(s, q as int, gap_secs as int));
        let ghost heads_before = heads@;
        let ghost seg_before = seg@;
        let ghost at_before = at;
        if opens {
            heads.push(cur);
            proof {
                at = at.push(q as int);
                assert(picked(ks, heads@) =~= picked(ks, heads_before).push(ks[cur as int]));
            }
        }
        seg.push(heads.len() - 1);
        proof {
            assert forall|j: int| 0 <= j < q + 1 implies (#[trigger] seg[j]) < heads.len()
                && ks[heads[seg[j] as int] as int] == head_of(s, j, gap_secs as int) by {
                if j < q {
                    assert(seg[j] == seg_before[j]);
                    assert(seg_before[j] < heads_before.len());
                    assert(heads[seg[j] as int] == heads_before[seg_before[j] as int]);
                } else if !opens {
                    assert(seg_before[q - 1] == heads_before.len() - 1);
                    assert(head_of(s, q as int, gap_secs as int) == head_of(s, q - 1, gap_secs as int));
                }
            }
            assert forall|t: int| 0 <= t < heads.len() implies 0 <= (#[trigger] at[t]) < q + 1
                && perm[at[t]] == heads[t] && seg[at[t]] == t by {
                if t < heads_before.len() {
                    assert(at[t] == at_before[t]);
                    assert(heads[t] == heads_before[t]);
                    assert(seg[at[t]] == seg_before[at_before[t]]);
                }
            }
            assert forall|t: int, u: int| 0 <= t < u < heads.len() implies at[t] < at[u] by {
                if u < heads_before.len() {
                    assert(at[t] == at_before[t] && at[u] == at_before[u]);
                } else {
                    assert(at[t] == at_before[t]);
                }
            }
        }
        q += 1;
    }
    (heads, seg, Ghost(at))
}

/// Numbers the segments and gives every photo the number of its segment:
/// the result holds the group of each entry of `records`, by position. Photos
/// of one identity more than `gap_secs` seconds apart fall into different
/// segments.
pub fn group_numbers(records: &GroupRecords, gap_secs: i64) -> (groups: Vec<u32>)
    requires
        records@.len() <= u32::MAX,
    ensures
        groups.len() == records@.len(),
        forall|i: int|
            0 <= i < groups.len() ==> is_group_of(
                keys_of(records@),
                key_of(#[trigger] records@[i]),
                groups[i] as int,
                gap_secs as int,
            ),
        forall|g: int|
            1 <= g <= segments(keys_of(records@), gap_secs as int).len() ==> #[trigger] number_in_use(groups@, g),
{
    let n = records.entries.len();
    let keys = build_keys(records);
    let ghost ks = key_views(keys@);
    assert(keys.len() == n) by {
        assert(key_views(keys@).len() == keys@.len());
    }
    let all = count_up(n);
    let perm = sort_positions(&keys, &all, false);
    let ghost s = picked(ks, perm@);
    proof {
        assert(picked(ks, all@) =~= ks);
        lemma_same_items(all@, perm@);
    }
    let (heads, seg, Ghost(at)) = mark_segments(&keys, &perm, gap_secs);
    let ranked = sort_positions(&keys, &heads, true);
    proof {
        assert(heads@.no_duplicates()) by {
            assert forall|t: int, u: int| 0 <= t < u < heads.len() implies heads[t] != heads[u] by {
                assert(perm@[at[t]] == heads[t] && perm@[at[u]] == heads[u]);
            }
        }
        lemma_same_items(heads@, ranked@);
        assert(picked(ks, ranked@) == segments(ks, gap_secs as int));
    }
    let mut rank: Vec<u32> = Vec::new();
    let mut i: usize = 0;
    while i < n
        invariant
            i <= n,
            rank.len() == i,
        decreases n - i,
    {
        rank.push(0);
        i += 1;
    }
    let mut r: usize = 0;
    while r < ranked.len()
        invariant
            r <= ranked.len(),
            ranked.len() == heads.len(),
            heads.len() <= perm.len(),
            perm.len() == n,
            n <= u32::MAX,
            keys.len() == n,
            rank.len() == n,
            ranked@.no_duplicates(),
            forall|j: int| 0 <= j < ranked.len() ==> ranked[j] < keys.len(),
            forall|j: int| 0 <= j < r ==> rank[ranked[j] as int] == j + 1,
        decreases ranked.len() - r,
    {
        rank.set(ranked[r], (r + 1) as u32);
        r += 1;
    }
    let mut groups: Vec<u32> = Vec::new();
    let mut i: usize = 0;
    while i < n
        invariant
            i <= n,
            groups.len() == i,
        decreases n - i,
    {
        groups.push(0);
        i += 1;
    }
    let mut q: usize = 0;
    while q < n
        invariant
            q <= n,
            perm.len() == n,
            seg.len() == n,
            rank.len() == n,
            groups.len() == n,
            keys.len() == n,
            perm@.no_duplicates(),
            forall|j: int| 0 <= j < n ==> perm[j] < n,
            forall|j: int| 0 <= j < n ==> seg[j] < heads.len(),
            forall|t: int| 0 <= t < heads.len() ==> heads[t] < n,
            forall|j: int|
                0 <= j < q ==> groups[perm[j] as int] == rank[heads[seg[j] as int] as int],
        decreases n - q,
    {
        groups.set(perm[q], rank[heads[seg[q]]]);
        q += 1;
    }
    proof {
        assert forall|i: int| 0 <= i < groups.len() implies is_group_of(
            keys_of(records@),
            key_of(#[trigger] records@[i]),
            groups[i] as int,
            gap_secs as int,
        ) by {
            assert(all@[i] == i as usize);
            assert(perm@.contains(i as usize));
            let p = choose|p: int| 0 <= p < perm.len() && perm[p] == i as usize;
            let h = heads[seg[p] as int];
            assert(heads@.contains(h));
            let j = choose|j: int| 0 <= j < ranked.len() && ranked[j] == h;
            assert(groups[i] == j + 1);
            assert(s[p] == ks[i]);
            assert(segments(ks, gap_secs as int)[j] == ks[h as int]);
            assert(by_identity(ks) == s);
        }
        assert forall|g: int|
            1 <= g <= segments(keys_of(records@), gap_secs as int).len() implies #[trigger] number_in_use(
            groups@,
            g,
        ) by {
            let i = ranked[g - 1];
            assert(ranked@.contains(i));
            let t = choose|t: int| 0 <= t < heads.len() && heads[t] == i;
            let p = at[t];
            assert(perm[p] == i && seg[p] == t);
            assert(groups[i as int] == g);
        }
    }
    groups
}

/// A copy of `rec` with the group `g`.
fn with_group(rec: &GroupRecord, g: u32) -> (r: GroupRecord)
    ensures
        r@ == (RecordView { group: g, ..rec@ }),
{
    let mut out = rec.duplicate();
    out.group = g;
    out
}

/// Gives every photo its group: the segments, numbered from 1 in the order of
/// the time, identity and file name of the photo that opens each. Photos of
/// one identity more than `gap_secs` seconds apart fall into different
/// segments.
pub fn assign_groups_with_gap(records: &mut GroupRecords, gap_secs: i64)
    requires
        old(records)@.len() <= u32::MAX,
    ensures
        is_grouping_of(old(records)@, final(records)@, gap_secs as int),
        forall|i: int| 0 <= i < final(records)@.len() ==> (#[trigger] final(records)@[i]).1.group >= 1,
        old(records).wf() ==> final(records).wf(),
{
    let groups = group_numbers(records, gap_secs);
    let n = records.entries.len();
    let mut i: usize = 0;
    while i < n
        invariant
            i <= n,
            n == records.entries.len(),
            groups.len() == n,
            records@.len() == old(records)@.len(),
            forall|j: int|
                0 <= j < i ==> (#[trigger] records@[j]).0 == old(records)@[j].0 && records@[j].1 == (
                RecordView { group: groups[j], ..old(records)@[j].1 }),
            forall|j: int| i <= j < n ==> records@[j] == old(records)@[j],
        decreases n - i,
    {
        let entry = PhotoEntry {
            file: records.entries[i].file.clone(),
            record: with_group(&records.entries[i].record, groups[i]),
        };
        let ghost before = records@;
        records.entries.set(i, entry);
        assert(records@ =~= before.update(i as int, (entry.file@, entry.record@)));
        i += 1;
    }
    proof {
        assert forall|g: int|
            1 <= g <= segments(keys_of(old(records)@), gap_secs as int).len() implies #[trigger] group_in_use(
            records@,
            g,
        ) by {
            assert(number_in_use(groups@, g));
            let i = choose|i: int| 0 <= i < groups.len() && #[trigger] groups[i] == g;
            assert(records@[i].1.group == g);
        }
    }
}

/// Gives every photo its group, by the usual gap of five minutes.
pub fn assign_groups(records: &mut GroupRecords)
    requires
        old(records)@.len() <= u32::MAX,
    ensures
        is_grouping_of(old(records)@, final(records)@, GROUP_GAP_SECS as int),
        forall|i: int| 0 <= i < final(records)@.len() ==> (#[trigger] final(records)@[i]).1.group >= 1,
        old(records).wf() ==> final(records).wf(),
{
    assign_groups_with_gap(records, GROUP_GAP_SECS);
}

/// The number of the identity of the photo at position `p` of `s`, the
/// identities of `s` counted from 1 in their order.
pub open spec fn identity_rank(s: Seq<PhotoKey>, p: int) -> int
    decreases p,
{
    if p <= 0 {
        1
    } else if s[p].identity != s[p - 1].identity {
        identity_rank(s, p - 1) + 1
    } else {
        identity_rank(s, p - 1)
    }
}

/// `g` is the number of the identity of photo `k` among the identities of
/// the photos `ks`, taken in dictionary order.
pub open spec fn is_identity_group(ks: Seq<PhotoKey>, k: PhotoKey, g: int) -> bool {
    exists|p: int|
        0 <= p < by_identity(ks).len() && by_identity(ks)[p] == k && g == identity_rank(
            by_identity(ks),
            p,
        )
}

/// Gives every photo the number of its identity: the photos of the first
/// identity in dictionary order are group 1, those of the next group 2, and
/// so on. Time plays no part.
pub fn assign_groups_by_identity(records: &mut GroupRecords)
    requires
        old(records)@.len() <= u32::MAX,
    ensures
        final(records)@.len() == old(records)@.len(),
        forall|i: int|
            0 <= i < old(records)@.len() ==> (#[trigger] final(records)@[i]).0 == old(records)@[i].0
                && final(records)@[i].1 == (RecordView {
                group: final(records)@[i].1.group,
                ..old(records)@[i].1
            }) && is_identity_group(
                keys_of(old(records)@),
                key_of(old(records)@[i]),
                final(records)@[i].1.group as int,
            ),
        old(records).wf() ==> final(records).wf(),
{
    let n = records.entries.len();
    let keys = build_keys(records);
    let ghost ks = key_views(keys@);
    assert(keys.len() == n) by {
        assert(key_views(keys@).len() == keys@.len());
    }
    let all = count_up(n);
    let perm = sort_positions(&keys, &all, false);
    let ghost s = picked(ks, perm@);
    proof {
        assert(picked(ks, all@) =~= ks);
        lemma_same_items(all@, perm@);
        assert(s == by_identity(ks));
    }
    let mut groups: Vec<u32> = Vec::new();
    let mut i: usize = 0;
    while i < n
        invariant
            i <= n,
            groups.len() == i,
        decreases n - i,
    {
        groups.push(0);
        i += 1;
    }
    let mut rank: u32 = 1;
    let mut p: usize = 0;
    while p < n
        invariant
            p <= n,
            n <= u32::MAX,
            perm.len() == n,
            keys.len() == n,
            groups.len() == n,
            ks == key_views(keys@),
            s == picked(ks, perm@),
            perm@.no_duplicates(),
            forall|j: int| 0 <= j < n ==> perm[j] < n,
            p > 0 ==> rank == identity_rank(s, p - 1),
            p == 0 ==> rank == 1,
            p > 0 ==> rank <= p,
            forall|j: int| 0 <= j < p ==> groups[perm[j] as int] == identity_rank(s, j),
        decreases n - p,
    {
        assert(s[p as int] == ks[perm[p as int] as int]);
        assert(ks[perm[p as int] as int] == keys@[perm[p as int] as int]@);
        if p > 0 {
            assert(s[p - 1] == ks[perm[p - 1] as int]);
            assert(ks[perm[p - 1] as int] == keys@[perm[p - 1] as int]@);
            if !chars_equal(&keys[perm[p]].identity, &keys[perm[p - 1]].identity) {
                rank += 1;
            }
        }
        groups.set(perm[p], rank);
        p += 1;
    }
    let mut i: usize = 0;
    while i < n
        invariant
            i <= n,
            n == records.entries.len(),
            groups.len() == n,
            records@.len() == old(records)@.len(),
            forall|j: int|
                0 <= j < i ==> (#[trigger] records@[j]).0 == old(records)@[j].0 && records@[j].1 == (
                RecordView { group: groups[j], ..old(records)@[j].1 }),
            forall|j: int| i <= j < n ==> records@[j] == old(records)@[j],
        decreases n - i,
    {
        let entry = PhotoEntry {
            file: records.entries[i].file.clone(),
            record: with_group(&records.entries[i].record, groups[i]),
        };
        let ghost before = records@;
        records.entries.set(i, entry);
        assert(records@ =~= before.update(i as int, (entry.file@, entry.record@)));
        i += 1;
    }
    proof {
        assert forall|i: int| 0 <= i < n implies is_identity_group(
            keys_of(old(records)@),
            key_of(old(records)@[i]),
            (#[trigger] records@[i]).1.group as int,
        ) by {
            assert(all@[i] == i as usize);
            assert(perm@.contains(i as usize));
            let q = choose|q: int| 0 <= q < perm.len() && perm[q] == i as usize;
            assert(s[q] == ks[i]);
            assert(groups[i] == identity_rank(s, q));
        }
    }
}

proof fn lemma_rank_grows(s: Seq<PhotoKey>, p: int, q: int)
    requires
        sorted_by(s, key_order(false)),
        0 <= p <= q < s.len(),
    ensures
        identity_rank(s, p) <= identity_rank(s, q),
        identity_rank(s, p) == identity_rank(s, q) <==> s[p].identity == s[q].identity,
    decreases q - p,
{
    if p < q {
        lemma_rank_grows(s, p, q - 1);
        assert(key_order(false)(s[p], s[q - 1]));
        assert(key_order(false)(s[q - 1], s[q]));
        lemma_lex_order(s[p].identity, s[q - 1].identity, s[q].identity);
    }
}

/// Photos of one identity have one number, and photos of different
/// identities different numbers.
pub proof fn lemma_identity_groups(
    ks: Seq<PhotoKey>,
    k1: PhotoKey,
    g1: int,
    k2: PhotoKey,
    g2: int,
)
    requires
        is_identity_group(ks, k1, g1),
        is_identity_group(ks, k2, g2),
    ensures
        g1 == g2 <==> k1.identity == k2.identity,
{
    let s = by_identity(ks);
    lemma_key_order_total(false);
    ks.lemma_sort_by_ensures(key_order(false));
    let p = choose|p: int| 0 <= p < s.len() && s[p] == k1 && g1 == identity_rank(s, p);
    let q = choose|q: int| 0 <= q < s.len() && s[q] == k2 && g2 == identity_rank(s, q);
    if p <= q {
        lemma_rank_grows(s, p, q);
    } else {
        lemma_rank_grows(s, q, p);
    }
}

/// No two of the photos share a file name.
pub open spec fn distinct_names(ks: Seq<PhotoKey>) -> bool {
    forall|i: int, j: int| 0 <= i < j < ks.len() ==> ks[i].file != ks[j].file
}

proof fn lemma_sorted_distinct(ks: Seq<PhotoKey>, time_first: bool)
    requires
        ks.no_duplicates(),
    ensures
        ks.sort_by(key_order(time_first)).no_duplicates(),
{
    lemma_key_order_total(time_first);
    ks.lemma_sort_by_ensures(key_order(time_first));
    ks.lemma_multiset_has_no_duplicates();
    ks.sort_by(key_order(time_first)).lemma_multiset_has_no_duplicates_conv();
}

proof fn lemma_heads_distinct(s: Seq<PhotoKey>, n: int, gap: int)
    requires
        s.no_duplicates(),
        0 <= n <= s.len(),
    ensures
        heads_upto(s, n, gap).no_duplicates(),
        forall|t: int|
            0 <= t < heads_upto(s, n, gap).len() ==> exists|p: int|
                0 <= p < n && s[p] == #[trigger] heads_upto(s, n, gap)[t],
    decreases n,
{
    if n > 0 {
        lemma_heads_distinct(s, n - 1, gap);
        let before = heads_upto(s, n - 1, gap);
        let now = heads_upto(s, n, gap);
        assert forall|t: int| 0 <= t < now.len() implies exists|p: int|
            0 <= p < n && s[p] == #[trigger] now[t] by {
            if t < before.len() {
                let p = choose|p: int| 0 <= p < n - 1 && s[p] == before[t];
                assert(s[p] == now[t]);
            } else {
                assert(s[n - 1] == now[t]);
            }
        }
        assert forall|t: int, u: int| 0 <= t < u < now.len() implies now[t] != now[u] by {
            let p = choose|p: int| 0 <= p < n - 1 && s[p] == before[t];
            if u < before.len() {
                assert(before[t] != before[u]);
            } else {
                assert(now[u] == s[n - 1]);
            }
        }
    }
}

/// Among photos of distinct file names, a photo has one group number.
pub proof fn lemma_group_unique(ks: Seq<PhotoKey>, k: PhotoKey, g: int, h: int, gap: int)
    requires
        distinct_names(ks),
        is_group_of(ks, k, g, gap),
        is_group_of(ks, k, h, gap),
    ensures
        g == h,
{
    let s = by_identity(ks);
    lemma_sorted_distinct(ks, false);
    lemma_heads_distinct(s, s.len() as int, gap);
    lemma_sorted_distinct(heads_upto(s, s.len() as int, gap), true);
    let p = choose|p: int| 0 <= p < s.len() && s[p] == k && segments(ks, gap)[g - 1] == head_of(s, p, gap);
    let q = choose|q: int| 0 <= q < s.len() && s[q] == k && segments(ks, gap)[h - 1] == head_of(s, q, gap);
    assert(p == q);
    assert(segments(ks, gap)[g - 1] == segments(ks, gap)[h - 1]);
}

/// The group numbers do not depend on the order in which the photos are
/// given: two collections that hold the same photos number each photo alike.
pub proof fn lemma_grouping_ignores_order(a: Seq<PhotoKey>, b: Seq<PhotoKey>, k: PhotoKey, g: int, gap: int)
    requires
        a.to_multiset() == b.to_multiset(),
    ensures
        by_identity(a) == by_identity(b),
        segments(a, gap) == segments(b, gap),
        is_group_of(a, k, g, gap) == is_group_of(b, k, g, gap),
{
    lemma_key_order_total(false);
    a.lemma_sort_by_ensures(key_order(false));
    b.lemma_sort_by_ensures(key_order(false));
    lemma_sorted_unique(by_identity(a), by_identity(b), key_order(false));
}

proof fn lemma_keys_of_same_photos(
    a: Seq<(Seq<char>, RecordView)>,
    b: Seq<(Seq<char>, RecordView)>,
)
    requires
        a.to_multiset() == b.to_multiset(),
    ensures
        keys_of(a).to_multiset() == keys_of(b).to_multiset(),
{
    let f = |e: (Seq<char>, RecordView)| key_of(e);
    lemma_map_same_items(a, b, f);
    assert(keys_of(a) =~= a.map_values(f));
    assert(keys_of(b) =~= b.map_values(f));
}

/// Two collections that hold the same photos, in whatever order, give each
/// photo the same group: where `grouped_a` is a grouping of `a` and
/// `grouped_b` one of `b`, a file has one group number in both.
pub proof fn lemma_same_photos_same_groups(
    a: Seq<(Seq<char>, RecordView)>,
    grouped_a: Seq<(Seq<char>, RecordView)>,
    b: Seq<(Seq<char>, RecordView)>,
    grouped_b: Seq<(Seq<char>, RecordView)>,
    i: int,
    j: int,
    gap: int,
)
    requires
        distinct_files(a),
        a.to_multiset() == b.to_multiset(),
        is_grouping_of(a, grouped_a, gap),
        is_grouping_of(b, grouped_b, gap),
        0 <= i < a.len(),
        0 <= j < b.len(),
        a[i].0 == b[j].0,
    ensures
        grouped_a[i].1.group == grouped_b[j].1.group,
{
    broadcast use vstd::seq_lib::group_to_multiset_ensures;

    lemma_keys_of_same_photos(a, b);
    assert(b.to_multiset().count(b[j]) > 0);
    assert(a.contains(b[j]));
    let m = choose|m: int| 0 <= m < a.len() && a[m] == b[j];
    assert(m == i) by {
        if m < i {
            assert(a[m].0 != a[i].0);
        }
        if i < m {
            assert(a[i].0 != a[m].0);
        }
    }
    let k = key_of(a[i]);
    let g = grouped_a[i].1.group as int;
    let h = grouped_b[j].1.group as int;
    assert(is_group_of(keys_of(a), k, g, gap));
    assert(is_group_of(keys_of(b), k, h, gap));
    lemma_grouping_ignores_order(keys_of(a), keys_of(b), k, h, gap);
    assert(distinct_names(keys_of(a))) by {
        assert forall|x: int, y: int| 0 <= x < y < keys_of(a).len() implies keys_of(a)[x].file
            != keys_of(a)[y].file by {
            assert(a[x].0 != a[y].0);
        }
    }
    lemma_group_unique(keys_of(a), k, g, h, gap);
}

/// Every group number from 1 to the number of segments is in use, and no
/// other: the groups of the photos are numbered without a gap.
pub proof fn lemma_groups_dense(
    before: Seq<(Seq<char>, RecordView)>,
    after: Seq<(Seq<char>, RecordView)>,
    g: int,
    gap: int,
)
    requires
        is_grouping_of(before, after, gap),
    ensures
        group_in_use(after, g) <==> 1 <= g <= segments(keys_of(before), gap).len(),
{
    if group_in_use(after, g) {
        let i = choose|i: int| 0 <= i < after.len() && (#[trigger] after[i]).1.group == g;
        assert(is_group_of(keys_of(before), key_of(before[i]), after[i].1.group as int, gap));
    }
}

} // verus!
