//! The stream aligner: merge several independently-sampled series into one
//! time-ordered, forward-filled, change-driven table.

use vstd::prelude::*;

use crate::timeseries::{sorted_points, DataPoint, DataSeries, DataValue};

verus! {

/// One row of the aligned table: the state of every tag as of `timestamp`
/// (and until superseded by the next row). `values` is indexed by the tag's
/// position in the aligned series list.
#[derive(Debug)]
pub struct AlignedRow {
    pub timestamp: i64,
    pub values: Vec<Option<DataValue>>,
}

/// Every series in the list satisfies the ordering invariant.
pub open spec fn all_wf(list: Seq<DataSeries>) -> bool {
    forall|j: int| 0 <= j < list.len() ==> (#[trigger] list[j]).wf()
}

/// The value forward-fill carries for samples `s` at instant `t`: the value
/// of the last sample at or before `t`, absent while there is none yet.
/// Unlike the point query this does not clamp low.
pub open spec fn snapshot_at(s: Seq<DataPoint>, t: i64) -> Option<DataValue>
    decreases s.len(),
{
    if s.len() == 0 {
        None
    } else if s[s.len() - 1].timestamp <= t {
        s[s.len() - 1].value
    } else {
        snapshot_at(s.drop_last(), t)
    }
}

/// Some series in `list` has a sample exactly at instant `t`.
pub open spec fn is_sample_time(list: Seq<DataSeries>, t: int) -> bool {
    exists|j: int, k: int|
        0 <= j < list.len() && 0 <= k < list[j].data@.len() && list[j].data@[k].timestamp == t
}

/// Some series in `list` has a sample strictly after instant `t`.
pub open spec fn has_later_sample(list: Seq<DataSeries>, t: int) -> bool {
    exists|j: int, k: int|
        0 <= j < list.len() && 0 <= k < list[j].data@.len() && list[j].data@[k].timestamp > t
}

/// Instants at which the sweep can emit a row: the start instant, or a
/// sample instant strictly after it.
pub open spec fn legit_row_time(list: Seq<DataSeries>, start: i64, t: i64) -> bool {
    t == start || (start < t && is_sample_time(list, t as int))
}

/// Exactly the instants at which `align` emits a row. The base sweep emits
/// a row only when a strictly later sample supersedes it; with `emit_final`
/// the last pending state is emitted as well, so every legit instant
/// appears.
pub open spec fn is_row_time(list: Seq<DataSeries>, start: i64, emit_final: bool, t: i64) -> bool {
    legit_row_time(list, start, t) && (emit_final || has_later_sample(list, t as int))
}

/// The whole contract of `align`: rows are strictly ascending in time,
/// appear exactly at the row instants, each row has one entry per series,
/// and each entry is the forward-filled snapshot of its series at the row's
/// instant.
pub open spec fn aligned(
    list: Seq<DataSeries>,
    start: i64,
    emit_final: bool,
    rows: Seq<AlignedRow>,
) -> bool {
    &&& forall|i: int| 0 <= i < rows.len() ==> (#[trigger] rows[i]).values@.len() == list.len()
    &&& forall|i1: int, i2: int|
        0 <= i1 < i2 < rows.len() ==> rows[i1].timestamp < rows[i2].timestamp
    &&& forall|i: int, j: int|
        0 <= i < rows.len() && 0 <= j < list.len() ==> (#[trigger] rows[i].values@[j])
            == snapshot_at(list[j].data@, rows[i].timestamp)
    &&& forall|i: int|
        0 <= i < rows.len() ==> is_row_time(list, start, emit_final, (#[trigger] rows[i]).timestamp)
    &&& forall|t: i64|
        #[trigger] is_row_time(list, start, emit_final, t) ==> exists|i: int|
            0 <= i < rows.len() && rows[i].timestamp == t
}

/// If the samples at or before `t` are exactly the first `pos` of a sorted
/// sequence, the snapshot at `t` is the last of those (absent when `pos` is
/// zero).
pub proof fn lemma_snapshot_prefix(s: Seq<DataPoint>, t: i64, pos: int)
    requires
        sorted_points(s),
        0 <= pos <= s.len(),
        forall|k: int| 0 <= k < s.len() ==> (k < pos <==> #[trigger] s[k].timestamp <= t),
    ensures
        snapshot_at(s, t) == if pos == 0 {
            None::<DataValue>
        } else {
            s[pos - 1].value
        },
    decreases s.len(),
{
    if s.len() == 0 {
    } else if s[s.len() - 1].timestamp <= t {
        assert(s.len() - 1 < pos);
    } else {
        let sub = s.drop_last();
        assert(pos < s.len());
        assert(sorted_points(sub));
        assert(forall|k: int| 0 <= k < sub.len() ==> (k < pos <==> #[trigger] sub[k].timestamp <= t));
        lemma_snapshot_prefix(sub, t, pos);
    }
}

/// Where a tag already has a sample at or before `t`, the forward-filled
/// snapshot agrees with the point query: aligned rows never reorder, drop
/// or invent a change. (Before a tag's first sample the two differ by
/// design: the snapshot is absent, the point query clamps low.)
pub proof fn lemma_snapshot_is_value_at(s: Seq<DataPoint>, t: i64)
    requires
        sorted_points(s),
        s.len() > 0,
        s[0].timestamp <= t,
    ensures
        snapshot_at(s, t) == crate::timeseries::value_at_spec(s, t),
    decreases s.len(),
{
    if s.len() == 1 {
    } else if s[s.len() - 1].timestamp <= t {
    } else {
        let sub = s.drop_last();
        assert(sorted_points(sub));
        lemma_snapshot_is_value_at(sub, t);
    }
}

/// At a sample's own instant the forward-filled snapshot is exactly that
/// sample's value.
pub proof fn lemma_snapshot_exact(s: Seq<DataPoint>, k: int)
    requires
        sorted_points(s),
        0 <= k < s.len(),
    ensures
        snapshot_at(s, s[k].timestamp) == s[k].value,
{
    let t = s[k].timestamp;
    assert forall|k2: int| 0 <= k2 < s.len() implies (k2 < k + 1 <==> #[trigger] s[k2].timestamp
        <= t) by {
        if k2 < k {
            assert(s[k2].timestamp < t);
        } else if k2 > k {
            assert(s[k2].timestamp > t);
        }
    }
    lemma_snapshot_prefix(s, t, k + 1);
}

/// Forward-fill never drops or reorders a change: with `emit_final` set,
/// every sample strictly after the start instant has a row at its own
/// instant, and that row's column for the sample's tag carries exactly the
/// sample's value.
pub proof fn lemma_align_keeps_changes(
    list: Seq<DataSeries>,
    start: i64,
    rows: Seq<AlignedRow>,
    j: int,
    k: int,
)
    requires
        aligned(list, start, true, rows),
        all_wf(list),
        0 <= j < list.len(),
        0 <= k < list[j].data@.len(),
        list[j].data@[k].timestamp > start,
    ensures
        exists|i: int|
            0 <= i < rows.len() && rows[i].timestamp == list[j].data@[k].timestamp
                && rows[i].values@[j] == list[j].data@[k].value,
{
    let t = list[j].data@[k].timestamp;
    assert(is_sample_time(list, t as int));
    assert(is_row_time(list, start, true, t));
    let i = choose|i: int| 0 <= i < rows.len() && rows[i].timestamp == t;
    assert(list[j].wf());
    lemma_snapshot_exact(list[j].data@, k);
    assert(rows[i].values@[j] == list[j].data@[k].value);
}

/// On every aligned row, each column agrees with the point query for its
/// tag as soon as the tag has a sample at or before the row's instant.
pub proof fn lemma_aligned_rows_match_point_query(
    list: Seq<DataSeries>,
    start: i64,
    emit_final: bool,
    rows: Seq<AlignedRow>,
    i: int,
    j: int,
)
    requires
        aligned(list, start, emit_final, rows),
        all_wf(list),
        0 <= i < rows.len(),
        0 <= j < list.len(),
        list[j].data@.len() > 0,
        list[j].data@[0].timestamp <= rows[i].timestamp,
    ensures
        rows[i].values@[j] == crate::timeseries::value_at_spec(list[j].data@, rows[i].timestamp),
{
    assert(list[j].wf());
    lemma_snapshot_is_value_at(list[j].data@, rows[i].timestamp);
}

/// `t` occurs in `s`.
pub open spec fn contains_time(s: Seq<i64>, t: i64) -> bool {
    exists|i: int| 0 <= i < s.len() && s[i] == t
}

proof fn lemma_incr_same_membership(a: Seq<i64>, b: Seq<i64>)
    requires
        forall|i1: int, i2: int| 0 <= i1 < i2 < a.len() ==> a[i1] < a[i2],
        forall|i1: int, i2: int| 0 <= i1 < i2 < b.len() ==> b[i1] < b[i2],
        forall|t: i64| contains_time(a, t) <==> #[trigger] contains_time(b, t),
    ensures
        a =~= b,
    decreases a.len(),
{
    if a.len() == 0 {
        if b.len() > 0 {
            assert(contains_time(b, b[0]));
            let i0 = choose|i: int| 0 <= i < a.len() && a[i] == b[0];
            assert(false);
        }
    } else {
        assert(contains_time(a, a[0]));
        if b.len() == 0 {
            assert(contains_time(b, a[0]));
            let i0 = choose|i: int| 0 <= i < b.len() && b[i] == a[0];
            assert(false);
        }
        assert(contains_time(b, a[0]));
        let ia = choose|i: int| 0 <= i < b.len() && b[i] == a[0];
        assert(contains_time(b, b[0]));
        assert(contains_time(a, b[0]));
        let ib = choose|i: int| 0 <= i < a.len() && a[i] == b[0];
        assert(b[0] <= b[ia]);
        assert(a[0] <= a[ib]);
        assert(a[0] == b[0]);
        let a1 = a.drop_first();
        let b1 = b.drop_first();
        assert forall|t: i64| contains_time(a1, t) <==> #[trigger] contains_time(b1, t) by {
            if contains_time(a1, t) {
                let i = choose|i: int| 0 <= i < a1.len() && a1[i] == t;
                assert(a[i + 1] == t);
                assert(contains_time(a, t));
                assert(contains_time(b, t));
                let j = choose|i: int| 0 <= i < b.len() && b[i] == t;
                assert(t > a[0]);
                assert(j != 0);
                assert(b1[j - 1] == t);
                assert(contains_time(b1, t));
            }
            if contains_time(b1, t) {
                let i = choose|i: int| 0 <= i < b1.len() && b1[i] == t;
                assert(b[i + 1] == t);
                assert(contains_time(b, t));
                assert(contains_time(a, t));
                let j = choose|i: int| 0 <= i < a.len() && a[i] == t;
                assert(t > b[0]);
                assert(j != 0);
                assert(a1[j - 1] == t);
                assert(contains_time(a1, t));
            }
        }
        lemma_incr_same_membership(a1, b1);
        assert forall|i: int| 0 <= i < a.len() implies a[i] == b[i] by {
            if i > 0 {
                assert(a1[i - 1] == b1[i - 1]);
            }
        }
    }
}

/// Alignment is deterministic: the contract pins the output down, so any
/// two results for the same series list, start instant and variant are the
/// same table. Running `align` twice on the same immutable input cannot
/// differ.
pub proof fn lemma_align_deterministic(
    list: Seq<DataSeries>,
    start: i64,
    emit_final: bool,
    rows1: Seq<AlignedRow>,
    rows2: Seq<AlignedRow>,
)
    requires
        aligned(list, start, emit_final, rows1),
        aligned(list, start, emit_final, rows2),
    ensures
        rows1.len() == rows2.len(),
        forall|i: int|
            0 <= i < rows1.len() ==> (#[trigger] rows1[i]).timestamp == rows2[i].timestamp
                && rows1[i].values@ == rows2[i].values@,
{
    let ta = rows1.map_values(|r: AlignedRow| r.timestamp);
    let tb = rows2.map_values(|r: AlignedRow| r.timestamp);
    assert forall|t: i64| contains_time(ta, t) <==> #[trigger] contains_time(tb, t) by {
        if contains_time(ta, t) {
            let i = choose|i: int| 0 <= i < ta.len() && ta[i] == t;
            assert(rows1[i].timestamp == t);
            assert(is_row_time(list, start, emit_final, t));
            let i2 = choose|i2: int| 0 <= i2 < rows2.len() && rows2[i2].timestamp == t;
            assert(tb[i2] == t);
            assert(contains_time(tb, t));
        }
        if contains_time(tb, t) {
            let i = choose|i: int| 0 <= i < tb.len() && tb[i] == t;
            assert(rows2[i].timestamp == t);
            assert(is_row_time(list, start, emit_final, t));
            let i2 = choose|i2: int| 0 <= i2 < rows1.len() && rows1[i2].timestamp == t;
            assert(ta[i2] == t);
            assert(contains_time(ta, t));
        }
    }
    lemma_incr_same_membership(ta, tb);
    assert forall|i: int|
        0 <= i < rows1.len() implies (#[trigger] rows1[i]).timestamp == rows2[i].timestamp
        && rows1[i].values@ == rows2[i].values@ by {
        assert(ta[i] == tb[i]);
        assert(rows1[i].values@ =~= rows2[i].values@);
    }
}

/// How many samples are still unprocessed when the cursor of series `j`
/// stands at `pos[j]`.
pub open spec fn total_remaining(list: Seq<DataSeries>, pos: Seq<usize>) -> int
    decreases list.len(),
{
    if list.len() == 0 {
        0
    } else {
        total_remaining(list.drop_last(), pos.drop_last()) + list.last().data@.len()
            - pos.last()
    }
}

proof fn lemma_remaining_nonneg(list: Seq<DataSeries>, pos: Seq<usize>)
    requires
        pos.len() == list.len(),
        forall|j: int| 0 <= j < list.len() ==> #[trigger] pos[j] <= list[j].data@.len(),
    ensures
        total_remaining(list, pos) >= 0,
    decreases list.len(),
{
    if list.len() > 0 {
        lemma_remaining_nonneg(list.drop_last(), pos.drop_last());
    }
}

proof fn lemma_remaining_le(list: Seq<DataSeries>, p1: Seq<usize>, p2: Seq<usize>)
    requires
        p1.len() == list.len(),
        p2.len() == list.len(),
        forall|j: int| 0 <= j < list.len() ==> #[trigger] p1[j] <= p2[j],
        forall|j: int| 0 <= j < list.len() ==> #[trigger] p2[j] <= list[j].data@.len(),
    ensures
        total_remaining(list, p2) <= total_remaining(list, p1),
    decreases list.len(),
{
    if list.len() > 0 {
        lemma_remaining_le(list.drop_last(), p1.drop_last(), p2.drop_last());
    }
}

proof fn lemma_remaining_lt(list: Seq<DataSeries>, p1: Seq<usize>, p2: Seq<usize>, jw: int)
    requires
        p1.len() == list.len(),
        p2.len() == list.len(),
        forall|j: int| 0 <= j < list.len() ==> #[trigger] p1[j] <= p2[j],
        forall|j: int| 0 <= j < list.len() ==> #[trigger] p2[j] <= list[j].data@.len(),
        0 <= jw < list.len(),
        p1[jw] < p2[jw],
    ensures
        total_remaining(list, p2) < total_remaining(list, p1),
    decreases list.len(),
{
    if jw == list.len() - 1 {
        lemma_remaining_le(list.drop_last(), p1.drop_last(), p2.drop_last());
    } else {
        lemma_remaining_lt(list.drop_last(), p1.drop_last(), p2.drop_last(), jw);
    }
}

fn clone_opt_value(v: &Option<DataValue>) -> (r: Option<DataValue>)
    ensures
        r == *v,
{
    match v {
        Some(x) => Some(x.clone()),
        None => None,
    }
}

fn clone_values(v: &Vec<Option<DataValue>>) -> (r: Vec<Option<DataValue>>)
    ensures
        r@ == v@,
{
    let mut out: Vec<Option<DataValue>> = Vec::new();
    let mut k: usize = 0;
    while k < v.len()
        invariant
            k == out@.len() <= v@.len(),
            forall|i: int| 0 <= i < k ==> out@[i] == v@[i],
        decreases v@.len() - k,
    {
        out.push(clone_opt_value(&v[k]));
        k = k + 1;
    }
    proof {
        assert(out@ =~= v@);
    }
    out
}

/// Merge the series into one change-driven table by a single forward sweep.
///
/// The sweep visits all samples in timestamp order (ties across series are
/// processed together, in series order, before anything later) and keeps the
/// most recent value of every series. Whenever a strictly later sample
/// instant arrives, the accumulated state is emitted as a row stamped with
/// the instant it became valid. The state accumulated when the sweep ends —
/// valid from the final pending instant onward — is emitted only when
/// `emit_final` is set; the base sweep ends without it.
#[verifier::loop_isolation(false)]
pub fn align(series_list: &Vec<DataSeries>, start: i64, emit_final: bool) -> (rows: Vec<
    AlignedRow,
>)
    requires
        all_wf(series_list@),
    ensures
        aligned(series_list@, start, emit_final, rows@),
{
    let ghost list = series_list@;
    let n = series_list.len();
    let mut pos: Vec<usize> = Vec::new();
    let mut current: Vec<Option<DataValue>> = Vec::new();
    let mut init: usize = 0;
    while init < n
        invariant
            init == pos@.len() <= n,
            current@.len() == init,
            forall|j: int| 0 <= j < init ==> #[trigger] pos@[j] == 0,
            forall|j: int| 0 <= j < init ==> #[trigger] current@[j] == None::<DataValue>,
        decreases n - init,
    {
        pos.push(0);
        current.push(None);
        init = init + 1;
    }
    let mut rows: Vec<AlignedRow> = Vec::new();
    let mut pending: i64 = start;
    let ghost frontier: int = i64::MIN - 1;
    proof {
        lemma_remaining_nonneg(list, pos@);
    }
    loop
        invariant
            pos@.len() == n,
            current@.len() == n,
            forall|j: int| 0 <= j < n ==> #[trigger] pos@[j] <= list[j].data@.len(),
            forall|j: int, k: int|
                0 <= j < n && 0 <= k < list[j].data@.len() ==> ((k < pos@[j]) <==> (#[trigger] list[
                    j
                ].data@[k]).timestamp <= frontier),
            pending as int == if frontier >= start as int {
                frontier
            } else {
                start as int
            },
            frontier == i64::MIN - 1 || is_sample_time(list, frontier),
            forall|j: int|
                0 <= j < n ==> #[trigger] current@[j] == (if pos@[j] == 0 {
                    None::<DataValue>
                } else {
                    list[j].data@[pos@[j] - 1].value
                }),
            forall|i: int| 0 <= i < rows@.len() ==> (#[trigger] rows@[i]).values@.len() == n,
            forall|i1: int, i2: int|
                0 <= i1 < i2 < rows@.len() ==> rows@[i1].timestamp < rows@[i2].timestamp,
            forall|i: int| 0 <= i < rows@.len() ==> (#[trigger] rows@[i]).timestamp < pending,
            forall|i: int|
                0 <= i < rows@.len() ==> legit_row_time(list, start, (#[trigger] rows@[i]).timestamp),
            forall|i: int, j: int|
                0 <= i < rows@.len() && 0 <= j < n ==> (#[trigger] rows@[i].values@[j])
                    == snapshot_at(list[j].data@, rows@[i].timestamp),
            forall|t2: i64|
                #[trigger] legit_row_time(list, start, t2) && t2 < pending ==> exists|i: int|
                    0 <= i < rows@.len() && rows@[i].timestamp == t2,
        decreases total_remaining(list, pos@),
    {
        // find the earliest unprocessed sample instant
        let mut found = false;
        let mut t: i64 = 0;
        let mut js: usize = 0;
        while js < n
            invariant
                js <= n,
                !found ==> forall|j: int| 0 <= j < js ==> #[trigger] pos@[j] == list[j].data@.len(),
                found ==> exists|j: int|
                    0 <= j < js && pos@[j] < list[j].data@.len() && list[j].data@[pos@[
                        j
                    ] as int].timestamp == t,
                found ==> forall|j: int|
                    0 <= j < js && pos@[j] < list[j].data@.len() ==> (#[trigger] list[j].data@[pos@[
                        j
                    ] as int]).timestamp >= t,
            decreases n - js,
        {
            if pos[js] < series_list[js].data.len() {
                let ts = series_list[js].data[pos[js]].timestamp;
                if !found || ts < t {
                    found = true;
                    t = ts;
                }
            }
            js = js + 1;
        }
        if !found {
            break;
        }
        proof {
            // every unprocessed sample is at or after t, and t itself is
            // unprocessed, hence after the frontier
            assert forall|j: int, k: int|
                0 <= j < n && pos@[j] <= k < list[j].data@.len() implies (#[trigger] list[
                j
            ].data@[k]).timestamp >= t by {
                assert(list[j].wf());
                if k > pos@[j] {
                    assert(list[j].data@[pos@[j] as int].timestamp < list[j].data@[k].timestamp);
                }
            }
            assert(frontier < t);
        }
        if t > pending {
            let vals = clone_values(&current);
            proof {
                assert forall|j: int| 0 <= j < n implies current@[j] == snapshot_at(
                    list[j].data@,
                    pending,
                ) by {
                    assert forall|k: int| 0 <= k < list[j].data@.len() implies ((k < pos@[j])
                        <==> (#[trigger] list[j].data@[k]).timestamp <= pending) by {
                        if k >= pos@[j] {
                            assert(list[j].data@[k].timestamp >= t);
                        }
                    }
                    lemma_snapshot_prefix(list[j].data@, pending, pos@[j] as int);
                }
            }
            let ghost rows0 = rows@;
            rows.push(AlignedRow { timestamp: pending, values: vals });
            proof {
                assert(legit_row_time(list, start, pending));
                assert(rows@.len() == rows0.len() + 1);
                assert(rows@[rows0.len() as int].timestamp == pending);
                assert(forall|i: int| 0 <= i < rows0.len() ==> rows@[i] == rows0[i]);
                assert forall|t2: i64|
                    #[trigger] legit_row_time(list, start, t2) && t2 < t implies exists|i: int|
                    0 <= i < rows@.len() && rows@[i].timestamp == t2 by {
                    if t2 < pending {
                        let i0 = choose|i: int|
                            0 <= i < rows0.len() && rows0[i].timestamp == t2;
                        assert(rows@[i0].timestamp == t2);
                    } else if t2 == pending {
                        assert(rows@[rows0.len() as int].timestamp == t2);
                    } else {
                        // no sample instant lies strictly between pending and t
                        assert(start < t2 && is_sample_time(list, t2 as int));
                        let (j, k): (int, int) = choose|j: int, k: int|
                            0 <= j < list.len() && 0 <= k < list[j].data@.len() && list[
                                j
                            ].data@[k].timestamp == t2;
                        if k < pos@[j] {
                            assert(list[j].data@[k].timestamp <= frontier);
                        } else {
                            assert(list[j].data@[k].timestamp >= t);
                        }
                        assert(false);
                    }
                }
            }
            pending = t;
        }
        // consume every sample at exactly t, in series order
        let ghost old_pos = pos@;
        let mut new_pos: Vec<usize> = Vec::new();
        let mut new_cur: Vec<Option<DataValue>> = Vec::new();
        let mut j2: usize = 0;
        while j2 < n
            invariant
                j2 == new_pos@.len() <= n,
                new_cur@.len() == j2,
                forall|j: int| 0 <= j < j2 ==> #[trigger] new_pos@[j] >= pos@[j],
                forall|j: int| 0 <= j < j2 ==> #[trigger] new_pos@[j] <= list[j].data@.len(),
                forall|j: int, k: int|
                    0 <= j < j2 && 0 <= k < list[j].data@.len() ==> ((k < new_pos@[j]) <==> (
                    #[trigger] list[j].data@[k]).timestamp <= t),
                forall|j: int|
                    0 <= j < j2 ==> #[trigger] new_cur@[j] == (if new_pos@[j] == 0 {
                        None::<DataValue>
                    } else {
                        list[j].data@[new_pos@[j] - 1].value
                    }),
                exists|j: int|
                    0 <= j < n && pos@[j] < list[j].data@.len() && list[j].data@[pos@[
                        j
                    ] as int].timestamp == t,
            decreases n - j2,
        {
            let sj = &series_list[j2];
            if pos[j2] < sj.data.len() && sj.data[pos[j2]].timestamp == t {
                new_cur.push(clone_opt_value(&sj.data[pos[j2]].value));
                new_pos.push(pos[j2] + 1);
                proof {
                    assert(list[j2 as int].wf());
                    assert forall|k: int| 0 <= k < list[j2 as int].data@.len() implies ((k
                        < new_pos@[j2 as int]) <==> (#[trigger] list[j2 as int].data@[k]).timestamp
                        <= t) by {
                        if k < pos@[j2 as int] {
                            assert(list[j2 as int].data@[k].timestamp <= frontier);
                        } else if k > pos@[j2 as int] {
                            assert(list[j2 as int].data@[pos@[j2 as int] as int].timestamp < list[
                                j2 as int
                            ].data@[k].timestamp);
                        }
                    }
                }
            } else {
                new_cur.push(clone_opt_value(&current[j2]));
                new_pos.push(pos[j2]);
                proof {
                    assert forall|k: int| 0 <= k < list[j2 as int].data@.len() implies ((k
                        < new_pos@[j2 as int]) <==> (#[trigger] list[j2 as int].data@[k]).timestamp
                        <= t) by {
                        if k >= pos@[j2 as int] {
                            assert(list[j2 as int].data@[k].timestamp >= t);
                            if list[j2 as int].data@[k].timestamp == t {
                                assert(k == pos@[j2 as int]);
                                assert(false);
                            }
                        } else {
                            assert(list[j2 as int].data@[k].timestamp <= frontier);
                        }
                    }
                }
            }
            j2 = j2 + 1;
        }
        pos = new_pos;
        current = new_cur;
        proof {
            frontier = t as int;
        }
        proof {
            let jw: int = choose|j: int|
                0 <= j < n && old_pos[j] < list[j].data@.len() && list[j].data@[old_pos[
                    j
                ] as int].timestamp == t;
            assert(pos@[jw] > old_pos[jw]);
            lemma_remaining_lt(list, old_pos, pos@, jw);
            lemma_remaining_nonneg(list, pos@);
            assert(is_sample_time(list, t as int));
        }
    }
    if emit_final {
        proof {
            assert forall|j: int| 0 <= j < n implies current@[j] == snapshot_at(
                list[j].data@,
                pending,
            ) by {
                assert forall|k: int| 0 <= k < list[j].data@.len() implies ((k < pos@[j]) <==> (
                #[trigger] list[j].data@[k]).timestamp <= pending) by {
                    assert(list[j].data@[k].timestamp <= frontier);
                }
                lemma_snapshot_prefix(list[j].data@, pending, pos@[j] as int);
            }
            assert(legit_row_time(list, start, pending));
        }
        let ghost rows0 = rows@;
        rows.push(AlignedRow { timestamp: pending, values: current });
        proof {
            assert(rows@.len() == rows0.len() + 1);
            assert(rows@[rows0.len() as int].timestamp == pending);
            assert(forall|i: int| 0 <= i < rows0.len() ==> rows@[i] == rows0[i]);
            assert forall|t2: i64| #[trigger] is_row_time(list, start, emit_final, t2) implies exists|
                i: int,
            | 0 <= i < rows@.len() && rows@[i].timestamp == t2 by {
                assert(legit_row_time(list, start, t2));
                if t2 < pending {
                    let i0 = choose|i: int| 0 <= i < rows0.len() && rows0[i].timestamp == t2;
                    assert(rows@[i0].timestamp == t2);
                } else if t2 == pending {
                    assert(rows@[rows0.len() as int].timestamp == t2);
                } else {
                    assert(start < t2 && is_sample_time(list, t2 as int));
                    let (j, k): (int, int) = choose|j: int, k: int|
                        0 <= j < list.len() && 0 <= k < list[j].data@.len() && list[
                            j
                        ].data@[k].timestamp == t2;
                    assert(pos@[j] == list[j].data@.len());
                    assert(k < pos@[j]);
                    assert(list[j].data@[k].timestamp <= frontier);
                    assert(false);
                }
            }
        }
    } else {
        proof {
            assert forall|i: int| 0 <= i < rows@.len() implies is_row_time(
                list,
                start,
                emit_final,
                (#[trigger] rows@[i]).timestamp,
            ) by {
                // the frontier supersedes every emitted row
                assert(rows@[i].timestamp < pending);
                if frontier >= start as int {
                    let (j, k): (int, int) = choose|j: int, k: int|
                        0 <= j < list.len() && 0 <= k < list[j].data@.len() && list[
                            j
                        ].data@[k].timestamp == frontier;
                    assert(list[j].data@[k].timestamp > rows@[i].timestamp);
                } else {
                    assert(rows@[i].timestamp < start);
                    assert(false);
                }
            }
            assert forall|t2: i64| #[trigger] is_row_time(list, start, emit_final, t2) implies exists|
                i: int,
            | 0 <= i < rows@.len() && rows@[i].timestamp == t2 by {
                assert(legit_row_time(list, start, t2));
                assert(has_later_sample(list, t2 as int));
                let (j, k): (int, int) = choose|j: int, k: int|
                    0 <= j < list.len() && 0 <= k < list[j].data@.len() && list[
                        j
                    ].data@[k].timestamp > t2;
                assert(pos@[j] == list[j].data@.len());
                assert(k < pos@[j]);
                assert(list[j].data@[k].timestamp <= frontier);
                assert(frontier <= pending as int);
                assert(t2 < pending);
            }
        }
    }
    rows
}

} // verus!
