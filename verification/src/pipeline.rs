use vstd::prelude::*;
use crate::grouping::{
    assign_groups_with_gap, is_grouping_of, lemma_same_photos_same_groups, GROUP_GAP_SECS,
};
use crate::order::lemma_map_same_items;
use crate::propagate::{
    lemma_propagation_ignores_order, propagate_attachment_with_gap, propagated_identity,
    propagation_of,
};
use crate::records::{distinct_files, GroupRecords, PhotoEntry, RecordView};
use crate::station::{normalize_machine_id, normalized_identity};
use crate::text::{chars_equal, chars_of};

verus! {

/// The views of a list of file names with the time at which each was taken.
pub open spec fn time_views(v: Seq<(String, i64)>) -> Seq<(Seq<char>, i64)> {
    v.map_values(|t: (String, i64)| (t.0@, t.1))
}

/// The time that the first entry of `times` from `from` on gives for `file`.
pub open spec fn lookup_time(times: Seq<(Seq<char>, i64)>, file: Seq<char>, from: int) -> Option<
    i64,
>
    decreases times.len() - from,
{
    if from >= times.len() {
        None
    } else if times[from].0 == file {
        Some(times[from].1)
    } else {
        lookup_time(times, file, from + 1)
    }
}

/// An entry made ready for grouping: its identity normalised, and its time
/// taken from `times` where it had none.
pub open spec fn prepared_entry(e: (Seq<char>, RecordView), times: Seq<(Seq<char>, i64)>) -> (
    Seq<char>,
    RecordView,
) {
    (
        e.0,
        RecordView {
            machine_id: normalized_identity(e.1.machine_id, e.1.detected_text, e.1.description),
            captured_at: if e.1.captured_at is None {
                lookup_time(times, e.0, 0)
            } else {
                e.1.captured_at
            },
            ..e.1
        },
    )
}

pub open spec fn prepared(s: Seq<(Seq<char>, RecordView)>, times: Seq<(Seq<char>, i64)>) -> Seq<
    (Seq<char>, RecordView),
> {
    s.map_values(|e: (Seq<char>, RecordView)| prepared_entry(e, times))
}

/// Grouping a folder does not depend on the order in which its photos are
/// given: two collections that hold the same photos, in whatever order, give
/// each file the same group.
pub proof fn lemma_run_grouping_ignores_order(
    a: Seq<(Seq<char>, RecordView)>,
    b: Seq<(Seq<char>, RecordView)>,
    times: Seq<(Seq<char>, i64)>,
    gap: int,
    grouped_a: Seq<(Seq<char>, RecordView)>,
    grouped_b: Seq<(Seq<char>, RecordView)>,
    i: int,
    j: int,
)
    requires
        distinct_files(a),
        a.to_multiset() == b.to_multiset(),
        a.len() <= usize::MAX,
        is_grouping_of(propagation_of(prepared(a, times), gap), grouped_a, gap),
        is_grouping_of(propagation_of(prepared(b, times), gap), grouped_b, gap),
        0 <= i < a.len(),
        0 <= j < b.len(),
        a[i].0 == b[j].0,
    ensures
        grouped_a[i].1.group == grouped_b[j].1.group,
{
    let ready = |e: (Seq<char>, RecordView)| prepared_entry(e, times);
    lemma_map_same_items(a, b, ready);
    let pa = prepared(a, times);
    let pb = prepared(b, times);
    assert(pa =~= a.map_values(ready));
    assert(pb =~= b.map_values(ready));
    let carried = |e: (Seq<char>, RecordView)|
        (e.0, RecordView { machine_id: propagated_identity(pa, e, gap), ..e.1 });
    lemma_map_same_items(pa, pb, carried);
    let qa = propagation_of(pa, gap);
    let qb = propagation_of(pb, gap);
    assert(qa =~= pa.map_values(carried));
    assert(qb =~= pb.map_values(carried)) by {
        assert forall|k: int| 0 <= k < pb.len() implies qb[k] == carried(pb[k]) by {
            lemma_propagation_ignores_order(pa, pb, pb[k], gap);
        }
    }
    assert(distinct_files(qa)) by {
        assert forall|x: int, y: int| 0 <= x < y < qa.len() implies qa[x].0 != qa[y].0 by {
            assert(a[x].0 != a[y].0);
        }
    }
    lemma_same_photos_same_groups(qa, grouped_a, qb, grouped_b, i, j, gap);
}

/// The time that `times` gives for `file`, if it gives one.
pub fn find_time(times: &Vec<(String, i64)>, file: &str) -> (r: Option<i64>)
    ensures
        r == lookup_time(time_views(times@), file@, 0),
{
    let name = chars_of(file);
    let mut i: usize = 0;
    while i < times.len()
        invariant
            i <= times.len(),
            name@ == file@,
            lookup_time(time_views(times@), file@, 0) == lookup_time(
                time_views(times@),
                file@,
                i as int,
            ),
        decreases times.len() - i,
    {
        assert(time_views(times@)[i as int] == (times@[i as int].0@, times@[i as int].1));
        if chars_equal(&chars_of(times[i].0.as_str()), &name) {
            return Some(times[i].1);
        }
        i += 1;
    }
    None
}

/// Makes every record ready for grouping, then carries the identities of
/// attachment roads to the photos taken with them, `gap_secs` seconds being
/// the gap that ends a chunk.
pub fn apply_capture_times_with_gap(
    records: &mut GroupRecords,
    capture_times: &Vec<(String, i64)>,
    gap_secs: i64,
)
    requires
        old(records).wf(),
    ensures
        final(records)@ == propagation_of(prepared(old(records)@, time_views(capture_times@)), gap_secs as int),
        final(records).wf(),
{
    let n = records.entries.len();
    let ghost times = time_views(capture_times@);
    let mut i: usize = 0;
    while i < n
        invariant
            i <= n,
            n == records.entries.len(),
            times == time_views(capture_times@),
            records@.len() == old(records)@.len(),
            forall|j: int|
                0 <= j < i ==> #[trigger] records@[j] == prepared_entry(old(records)@[j], times),
            forall|j: int| i <= j < n ==> #[trigger] records@[j] == old(records)@[j],
        decreases n - i,
    {
        assert(records@[i as int] == old(records)@[i as int]);
        let mut rec = records.entries[i].record.duplicate();
        normalize_machine_id(&mut rec);
        if rec.captured_at.is_none() {
            rec.captured_at = find_time(capture_times, records.entries[i].file.as_str());
        }
        let entry = PhotoEntry { file: records.entries[i].file.clone(), record: rec };
        let ghost before = records@;
        records.entries.set(i, entry);
        assert(records@ =~= before.update(i as int, (entry.file@, entry.record@)));
        i += 1;
    }
    assert(records@ =~= prepared(old(records)@, times));
    propagate_attachment_with_gap(records, gap_secs);
}

/// Groups the photos of a folder: makes the records ready, carries the
/// identities of attachment roads over, and gives every photo the number of
/// its group, `gap_secs` seconds being the gap that ends a chunk and a
/// segment.
pub fn run_grouping_with_gap(
    records: &mut GroupRecords,
    capture_times: &Vec<(String, i64)>,
    gap_secs: i64,
)
    requires
        old(records).wf(),
        old(records)@.len() <= u32::MAX,
    ensures
        is_grouping_of(
            propagation_of(prepared(old(records)@, time_views(capture_times@)), gap_secs as int),
            final(records)@,
            gap_secs as int,
        ),
        forall|i: int| 0 <= i < final(records)@.len() ==> (#[trigger] final(records)@[i]).1.group >= 1,
        final(records).wf(),
{
    apply_capture_times_with_gap(records, capture_times, gap_secs);
    assign_groups_with_gap(records, gap_secs);
}

/// Makes every record ready for grouping and carries the identities of
/// attachment roads over, by the usual gap of five minutes.
pub fn apply_capture_times(records: &mut GroupRecords, capture_times: &Vec<(String, i64)>)
    requires
        old(records).wf(),
    ensures
        final(records)@ == propagation_of(
            prepared(old(records)@, time_views(capture_times@)),
            GROUP_GAP_SECS as int,
        ),
        final(records).wf(),
{
    apply_capture_times_with_gap(records, capture_times, GROUP_GAP_SECS);
}

/// Groups the photos of a folder, by the usual gap of five minutes.
pub fn run_grouping(records: &mut GroupRecords, capture_times: &Vec<(String, i64)>)
    requires
        old(records).wf(),
        old(records)@.len() <= u32::MAX,
    ensures
        is_grouping_of(
            propagation_of(
                prepared(old(records)@, time_views(capture_times@)),
                GROUP_GAP_SECS as int,
            ),
            final(records)@,
            GROUP_GAP_SECS as int,
        ),
        forall|i: int| 0 <= i < final(records)@.len() ==> (#[trigger] final(records)@[i]).1.group >= 1,
        final(records).wf(),
{
    run_grouping_with_gap(records, capture_times, GROUP_GAP_SECS);
}

} // verus!
