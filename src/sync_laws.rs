//! Properties of merging that relate several merges or several inputs.
use vstd::prelude::*;

use crate::sync::{
    conflict_of, conflicts_along, in_conflict, is_scan_order, is_winner, key_lt, key_of,
    lemma_key_lt_asymmetric, reconciles, scan_lt, won_in, SyncConflict, SyncOp,
};
use crate::text::lemma_chars_lt_irreflexive;

verus! {

/// No two devices edited one field of one entity at the same timestamp.
pub open spec fn no_simultaneous_edits(all: Seq<SyncOp>) -> bool {
    forall|i: int, j: int|
        0 <= i < all.len() && 0 <= j < all.len() && key_of(all[i]) == key_of(all[j])
            && all[i].timestamp == all[j].timestamp ==> all[i].device_id == all[j].device_id
}

/// Every edit of a field at a given timestamp is one and the same edit.
pub open spec fn one_edit_per_instant(all: Seq<SyncOp>) -> bool {
    forall|x: SyncOp, y: SyncOp|
        all.contains(x) && all.contains(y) && key_of(x) == key_of(y) && x.timestamp
            == y.timestamp ==> x == y
}

/// A scan meets no conflict when no two devices edited a field at one timestamp.
pub proof fn lemma_no_conflicts(all: Seq<SyncOp>, o: Seq<usize>)
    requires
        no_simultaneous_edits(all),
        forall|p: int| 0 <= p < o.len() ==> o[p] < all.len(),
    ensures
        conflicts_along(all, o) == Seq::<SyncConflict>::empty(),
    decreases o.len(),
{
    if o.len() >= 2 {
        lemma_no_conflicts(all, o.drop_last());
        let a = all[o[o.len() - 2] as int];
        let b = all[o[o.len() - 1] as int];
        assert(!in_conflict(a, b));
    }
}

/// Merging a log with an empty log keeps exactly the log's own last edit of
/// each field, and reports no conflict when no two devices edited a field at
/// one timestamp.
pub proof fn lemma_merge_with_empty(log: Seq<SyncOp>, merged: Seq<SyncOp>, o: Seq<usize>)
    requires
        no_simultaneous_edits(log),
        reconciles(log + Seq::<SyncOp>::empty(), merged),
        is_scan_order(log + Seq::<SyncOp>::empty(), o),
    ensures
        reconciles(log, merged),
        conflicts_along(log + Seq::<SyncOp>::empty(), o) == Seq::<SyncConflict>::empty(),
{
    assert(log + Seq::<SyncOp>::empty() =~= log);
    lemma_no_conflicts(log, o);
}

proof fn lemma_winner_of_doubled(log: Seq<SyncOp>, j: int)
    ensures
        is_winner(log + log, j) <==> (j >= log.len() && is_winner(log, j - log.len())),
{
    let n = log.len();
    let d = log + log;
    if is_winner(d, j) {
        if j < n {
            assert(key_of(d[j + n]) == key_of(d[j]));
        }
        let jn = j - n;
        assert forall|i: int| 0 <= i < n && key_of(#[trigger] log[i]) == key_of(log[jn]) implies (
        log[i].timestamp < log[jn].timestamp || (log[i].timestamp == log[jn].timestamp && i
            <= jn)) by {
            assert(d[i + n] == log[i]);
        }
    }
    if j >= n && is_winner(log, j - n) {
        assert forall|i: int| 0 <= i < d.len() && key_of(d[i]) == key_of(d[j]) implies (
        d[i].timestamp < d[j].timestamp || (d[i].timestamp == d[j].timestamp && i <= j)) by {
            if i < n {
                assert(d[i] == log[i]);
            } else {
                assert(d[i] == log[i - n]);
            }
        }
    }
}

/// Merging a log with itself gives the log's own last edit of each field, and
/// no conflict when no two devices edited a field at one timestamp: an edit
/// met twice is not in conflict with itself.
pub proof fn lemma_merge_with_itself(log: Seq<SyncOp>, merged: Seq<SyncOp>, o: Seq<usize>)
    requires
        no_simultaneous_edits(log),
        reconciles(log + log, merged),
        is_scan_order(log + log, o),
    ensures
        reconciles(log, merged),
        conflicts_along(log + log, o) == Seq::<SyncConflict>::empty(),
{
    let n = log.len();
    let d = log + log;
    assert forall|m: int| 0 <= m < merged.len() implies #[trigger] won_in(log, merged[m]) by {
        assert(won_in(d, merged[m]));
        let j = choose|j: int| is_winner(d, j) && d[j] == merged[m];
        lemma_winner_of_doubled(log, j);
        assert(is_winner(log, j - n) && log[j - n] == merged[m]);
    }
    assert forall|j: int| #[trigger] is_winner(log, j) implies (exists|m: int|
        0 <= m < merged.len() && merged[m] == log[j]) by {
        lemma_winner_of_doubled(log, j + n);
        assert(is_winner(d, j + n));
        assert(d[j + n] == log[j]);
    }
    assert forall|i: int, j: int|
        0 <= i < d.len() && 0 <= j < d.len() && key_of(d[i]) == key_of(d[j]) && d[i].timestamp
            == d[j].timestamp implies d[i].device_id == d[j].device_id by {
        let i0 = if i < n { i } else { i - n };
        let j0 = if j < n { j } else { j - n };
        assert(d[i] == log[i0]);
        assert(d[j] == log[j0]);
    }
    lemma_no_conflicts(d, o);
}

proof fn lemma_last_index(s: Seq<SyncOp>, x: SyncOp, j: int) -> (k: int)
    requires
        0 <= j < s.len(),
        s[j] == x,
    ensures
        j <= k < s.len(),
        s[k] == x,
        forall|i: int| k < i < s.len() ==> s[i] != x,
    decreases s.len() - j,
{
    if exists|i: int| j < i < s.len() && s[i] == x {
        let i = choose|i: int| j < i < s.len() && s[i] == x;
        lemma_last_index(s, x, i)
    } else {
        j
    }
}

/// With one edit per field and timestamp, an edit wins exactly when it is in
/// the log and no edit of its field is later.
proof fn lemma_won_in_latest(s: Seq<SyncOp>, x: SyncOp)
    requires
        one_edit_per_instant(s),
    ensures
        won_in(s, x) <==> (s.contains(x) && forall|y: SyncOp|
            s.contains(y) && key_of(y) == key_of(x) ==> y.timestamp <= x.timestamp),
{
    if won_in(s, x) {
        let j = choose|j: int| is_winner(s, j) && s[j] == x;
        assert forall|y: SyncOp| s.contains(y) && key_of(y) == key_of(x) implies y.timestamp
            <= x.timestamp by {
            let i = choose|i: int| 0 <= i < s.len() && s[i] == y;
        }
    }
    if s.contains(x) && forall|y: SyncOp|
        s.contains(y) && key_of(y) == key_of(x) ==> y.timestamp <= x.timestamp {
        let j0 = choose|j: int| 0 <= j < s.len() && s[j] == x;
        let k = lemma_last_index(s, x, j0);
        assert forall|i: int| 0 <= i < s.len() && key_of(s[i]) == key_of(s[k]) implies (
        s[i].timestamp < s[k].timestamp || (s[i].timestamp == s[k].timestamp && i <= k)) by {
            assert(s.contains(s[i]));
            if s[i].timestamp == s[k].timestamp {
                assert(s[i] == x);
            }
        }
        assert(is_winner(s, k));
    }
}

proof fn lemma_reconciled_members(s: Seq<SyncOp>, merged: Seq<SyncOp>, x: SyncOp)
    requires
        reconciles(s, merged),
    ensures
        merged.contains(x) <==> won_in(s, x),
{
    if merged.contains(x) {
        let m = choose|m: int| 0 <= m < merged.len() && merged[m] == x;
        assert(won_in(s, merged[m]));
    }
    if won_in(s, x) {
        let j = choose|j: int| is_winner(s, j) && s[j] == x;
        let m = choose|m: int| 0 <= m < merged.len() && merged[m] == s[j];
    }
}

/// The order of the two logs does not change which edits are kept, when no
/// field was edited twice at one timestamp; neither merge then reports a conflict.
pub proof fn lemma_merge_symmetric(
    a: Seq<SyncOp>,
    b: Seq<SyncOp>,
    ab: Seq<SyncOp>,
    ba: Seq<SyncOp>,
    o_ab: Seq<usize>,
    o_ba: Seq<usize>,
)
    requires
        one_edit_per_instant(a + b),
        reconciles(a + b, ab),
        reconciles(b + a, ba),
        is_scan_order(a + b, o_ab),
        is_scan_order(b + a, o_ba),
    ensures
        forall|x: SyncOp| ab.contains(x) <==> ba.contains(x),
        conflicts_along(a + b, o_ab) == Seq::<SyncConflict>::empty(),
        conflicts_along(b + a, o_ba) == Seq::<SyncConflict>::empty(),
{
    let s = a + b;
    let t = b + a;
    assert forall|x: SyncOp| s.contains(x) <==> t.contains(x) by {
        if s.contains(x) {
            let i = choose|i: int| 0 <= i < s.len() && s[i] == x;
            if i < a.len() {
                assert(t[i + b.len()] == x);
            } else {
                assert(t[i - a.len()] == x);
            }
        }
        if t.contains(x) {
            let i = choose|i: int| 0 <= i < t.len() && t[i] == x;
            if i < b.len() {
                assert(s[i + a.len()] == x);
            } else {
                assert(s[i - b.len()] == x);
            }
        }
    }
    assert(one_edit_per_instant(t));
    assert forall|x: SyncOp| ab.contains(x) <==> ba.contains(x) by {
        lemma_reconciled_members(s, ab, x);
        lemma_reconciled_members(t, ba, x);
        lemma_won_in_latest(s, x);
        lemma_won_in_latest(t, x);
    }
    assert forall|i: int, j: int|
        0 <= i < s.len() && 0 <= j < s.len() && key_of(s[i]) == key_of(s[j]) && s[i].timestamp
            == s[j].timestamp implies s[i].device_id == s[j].device_id by {
        assert(s.contains(s[i]) && s.contains(s[j]));
    }
    assert forall|i: int, j: int|
        0 <= i < t.len() && 0 <= j < t.len() && key_of(t[i]) == key_of(t[j]) && t[i].timestamp
            == t[j].timestamp implies t[i].device_id == t[j].device_id by {
        assert(t.contains(t[i]) && t.contains(t[j]));
    }
    lemma_no_conflicts(s, o_ab);
    lemma_no_conflicts(t, o_ba);
}

/// Two edits of one field at one timestamp from different devices, one in
/// each log, give exactly one conflict, which names both edits.
pub proof fn lemma_simultaneous_edits_conflict(a: SyncOp, b: SyncOp, o: Seq<usize>)
    requires
        key_of(a) == key_of(b),
        a.timestamp == b.timestamp,
        a.device_id != b.device_id,
        is_scan_order(seq![a] + seq![b], o),
    ensures
        conflicts_along(seq![a] + seq![b], o) == seq![conflict_of(a, b)],
{
    let all = seq![a] + seq![b];
    let k = key_of(a);
    lemma_chars_lt_irreflexive(k.0);
    lemma_chars_lt_irreflexive(k.2);
    assert(!key_lt(k, k));
    assert(all[0] == a && all[1] == b);
    assert(crate::sync::pos_lt(all, false, o[0] as int, o[1] as int));
    assert(key_of(all[o[0] as int]) == k);
    assert(key_of(all[o[1] as int]) == k);
    assert(o[0] < o[1]);
    assert(o =~= seq![0usize, 1usize]);
    assert(o.drop_last().len() == 1);
    assert(conflicts_along(all, o.drop_last()) == Seq::<SyncConflict>::empty());
    assert(in_conflict(a, b));
    assert(seq![conflict_of(a, b)] =~= Seq::<SyncConflict>::empty().push(conflict_of(a, b)));
}

/// Field and timestamp at which a conflict arose.
pub open spec fn conflict_instant(c: SyncConflict) -> ((Seq<char>, u128, Seq<char>), i64) {
    (key_of(c.right), c.right.timestamp)
}

/// Two devices edited field `k` at timestamp `t`.
pub open spec fn contested(all: Seq<SyncOp>, k: (Seq<char>, u128, Seq<char>), t: i64) -> bool {
    exists|i: int, j: int|
        0 <= i < all.len() && 0 <= j < all.len() && key_of(all[i]) == k && key_of(all[j]) == k
            && all[i].timestamp == t && all[j].timestamp == t && all[i].device_id
            != all[j].device_id
}

/// Some reported conflict arose on field `k` at timestamp `t`.
pub open spec fn reported_at(
    conflicts: Seq<SyncConflict>,
    k: (Seq<char>, u128, Seq<char>),
    t: i64,
) -> bool {
    exists|c: int| 0 <= c < conflicts.len() && conflict_instant(conflicts[c]) == (k, t)
}

proof fn lemma_reported_were_contested(all: Seq<SyncOp>, o: Seq<usize>)
    requires
        forall|p: int| 0 <= p < o.len() ==> o[p] < all.len(),
    ensures
        forall|k: (Seq<char>, u128, Seq<char>), t: i64|
            reported_at(conflicts_along(all, o), k, t) ==> contested(all, k, t),
    decreases o.len(),
{
    if o.len() >= 2 {
        lemma_reported_were_contested(all, o.drop_last());
        let prev = conflicts_along(all, o.drop_last());
        let x = o[o.len() - 2] as int;
        let y = o[o.len() - 1] as int;
        assert forall|k: (Seq<char>, u128, Seq<char>), t: i64|
            reported_at(conflicts_along(all, o), k, t) implies contested(all, k, t) by {
            let cs = conflicts_along(all, o);
            let c = choose|c: int| 0 <= c < cs.len() && conflict_instant(cs[c]) == (k, t);
            if c < prev.len() {
                assert(cs[c] == prev[c]);
                assert(reported_at(prev, k, t));
            } else {
                assert(in_conflict(all[x], all[y]));
                assert(cs[c] == conflict_of(all[x], all[y]));
                assert(key_of(all[x]) == k && key_of(all[y]) == k);
            }
        }
    }
}

proof fn lemma_adjacent_reported(all: Seq<SyncOp>, o: Seq<usize>, r: int)
    requires
        forall|p: int| 0 <= p < o.len() ==> o[p] < all.len(),
        0 <= r,
        r + 1 < o.len(),
        in_conflict(all[o[r] as int], all[o[r + 1] as int]),
    ensures
        reported_at(
            conflicts_along(all, o),
            key_of(all[o[r + 1] as int]),
            all[o[r + 1] as int].timestamp,
        ),
    decreases o.len(),
{
    let cs = conflicts_along(all, o);
    let k = key_of(all[o[r + 1] as int]);
    let t = all[o[r + 1] as int].timestamp;
    if r + 2 == o.len() {
        assert(cs.last() == conflict_of(all[o[r] as int], all[o[r + 1] as int]));
        assert(conflict_instant(cs[cs.len() - 1]) == (k, t));
    } else {
        let d = o.drop_last();
        assert(d[r] == o[r] && d[r + 1] == o[r + 1]);
        lemma_adjacent_reported(all, d, r);
        let prev = conflicts_along(all, d);
        let c = choose|c: int| 0 <= c < prev.len() && conflict_instant(prev[c]) == (k, t);
        assert(cs[c] == prev[c]);
    }
}

proof fn lemma_between_same_instant(all: Seq<SyncOp>, x: int, m: int, y: int)
    requires
        0 <= x < all.len(),
        0 <= m < all.len(),
        0 <= y < all.len(),
        scan_lt(all, x, m),
        scan_lt(all, m, y),
        key_of(all[x]) == key_of(all[y]),
        all[x].timestamp == all[y].timestamp,
    ensures
        key_of(all[m]) == key_of(all[x]),
        all[m].timestamp == all[x].timestamp,
{
    lemma_key_lt_asymmetric(key_of(all[x]), key_of(all[m]));
}

proof fn lemma_find_adjacent(all: Seq<SyncOp>, o: Seq<usize>, p: int, q: int) -> (r: int)
    requires
        is_scan_order(all, o),
        0 <= p < q < o.len(),
        key_of(all[o[p] as int]) == key_of(all[o[q] as int]),
        all[o[p] as int].timestamp == all[o[q] as int].timestamp,
        all[o[p] as int].device_id != all[o[q] as int].device_id,
    ensures
        p <= r < q,
        in_conflict(all[o[r] as int], all[o[r + 1] as int]),
        key_of(all[o[r + 1] as int]) == key_of(all[o[p] as int]),
        all[o[r + 1] as int].timestamp == all[o[p] as int].timestamp,
    decreases q - p,
{
    let (a, b) = (o[p] as int, o[p + 1] as int);
    if p + 1 < q {
        assert(crate::sync::pos_lt(all, false, a, b));
        assert(crate::sync::pos_lt(all, false, b, o[q] as int));
        lemma_between_same_instant(all, a, b, o[q] as int);
    }
    if all[a].device_id != all[b].device_id {
        p
    } else {
        lemma_find_adjacent(all, o, p + 1, q)
    }
}

proof fn lemma_contested_reported(all: Seq<SyncOp>, o: Seq<usize>, k: (Seq<char>, u128, Seq<char>), t: i64)
    requires
        is_scan_order(all, o),
        contested(all, k, t),
        all.len() <= usize::MAX,
    ensures
        reported_at(conflicts_along(all, o), k, t),
{
    let (i, j) = choose|i: int, j: int|
        0 <= i < all.len() && 0 <= j < all.len() && key_of(all[i]) == k && key_of(all[j]) == k
            && all[i].timestamp == t && all[j].timestamp == t && all[i].device_id
            != all[j].device_id;
    assert(o.contains(i as usize));
    assert(o.contains(j as usize));
    let p = choose|p: int| 0 <= p < o.len() && o[p] == i as usize;
    let q = choose|q: int| 0 <= q < o.len() && o[q] == j as usize;
    assert(o[p] as int == i && o[q] as int == j);
    assert(p != q);
    let r = if p < q {
        lemma_find_adjacent(all, o, p, q)
    } else {
        lemma_find_adjacent(all, o, q, p)
    };
    lemma_adjacent_reported(all, o, r);
}

/// Whichever log comes first, the merges report conflicts at the same fields
/// and timestamps: those where two devices made an edit.
pub proof fn lemma_conflict_instants_symmetric(
    a: Seq<SyncOp>,
    b: Seq<SyncOp>,
    o_ab: Seq<usize>,
    o_ba: Seq<usize>,
    k: (Seq<char>, u128, Seq<char>),
    t: i64,
)
    requires
        is_scan_order(a + b, o_ab),
        is_scan_order(b + a, o_ba),
        a.len() + b.len() <= usize::MAX,
    ensures
        reported_at(conflicts_along(a + b, o_ab), k, t) <==> contested(a + b, k, t),
        reported_at(conflicts_along(a + b, o_ab), k, t) <==> reported_at(
            conflicts_along(b + a, o_ba),
            k,
            t,
        ),
{
    let s = a + b;
    let u = b + a;
    lemma_reported_were_contested(s, o_ab);
    lemma_reported_were_contested(u, o_ba);
    if contested(s, k, t) {
        lemma_contested_reported(s, o_ab, k, t);
        let (i, j) = choose|i: int, j: int|
            0 <= i < s.len() && 0 <= j < s.len() && key_of(s[i]) == k && key_of(s[j]) == k
                && s[i].timestamp == t && s[j].timestamp == t && s[i].device_id != s[j].device_id;
        let i2 = if i < a.len() { i + b.len() } else { i - a.len() };
        let j2 = if j < a.len() { j + b.len() } else { j - a.len() };
        assert(u[i2] == s[i] && u[j2] == s[j]);
        lemma_contested_reported(u, o_ba, k, t);
    }
    if contested(u, k, t) {
        let (i, j) = choose|i: int, j: int|
            0 <= i < u.len() && 0 <= j < u.len() && key_of(u[i]) == k && key_of(u[j]) == k
                && u[i].timestamp == t && u[j].timestamp == t && u[i].device_id != u[j].device_id;
        let i2 = if i < b.len() { i + a.len() } else { i - b.len() };
        let j2 = if j < b.len() { j + a.len() } else { j - b.len() };
        assert(s[i2] == u[i] && s[j2] == u[j]);
        lemma_contested_reported(s, o_ab, k, t);
    }
}

} // verus!
