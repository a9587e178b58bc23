//! Reconciliation of two devices' field-level edit logs.
use vstd::prelude::*;

use crate::text::{
    chars_lt, compare_text, lemma_chars_lt_asymmetric, lemma_chars_lt_irreflexive,
    lemma_chars_lt_total, lemma_chars_lt_transitive,
};

verus! {

/// The JSON value an edit writes: carried through a merge, never examined.
#[verifier::external_type_specification]
#[verifier::external_body]
pub struct ExJsonValue(serde_json::Value);

/// Relies on serde_json's derived `Clone` for `Value`: the copy is the same value.
pub assume_specification[ <serde_json::Value as Clone>::clone ](v: &serde_json::Value) -> (r:
    serde_json::Value)
    ensures
        r == *v,
;

/// One field-level edit made on one device. Identifiers are UUIDs as 128-bit integers.
#[derive(Clone, Debug, PartialEq)]
pub struct SyncOp {
    pub id: u128,
    pub entity: String,
    pub entity_id: u128,
    pub field: String,
    pub value: serde_json::Value,
    pub timestamp: i64,
    pub device_id: u128,
}

/// One device's log, in order of arrival.
#[derive(Clone, Debug, PartialEq)]
pub struct SyncEnvelope {
    pub device_id: u128,
    pub ops: Vec<SyncOp>,
}

/// Two edits of one field with the same timestamp from different devices.
#[derive(Clone, Debug, PartialEq)]
pub struct SyncConflict {
    pub entity: String,
    pub entity_id: u128,
    pub field: String,
    pub left: SyncOp,
    pub right: SyncOp,
}

/// The reconciled edits, one per field, and the conflicts met on the way.
#[derive(Clone, Debug, PartialEq)]
pub struct MergeResult {
    pub merged_ops: Vec<SyncOp>,
    pub conflicts: Vec<SyncConflict>,
}

impl SyncOp {
    /// A copy of the edit.
    pub fn duplicate(&self) -> (r: SyncOp)
        ensures
            r == *self,
    {
        SyncOp {
            id: self.id,
            entity: self.entity.clone(),
            entity_id: self.entity_id,
            field: self.field.clone(),
            value: self.value.clone(),
            timestamp: self.timestamp,
            device_id: self.device_id,
        }
    }
}

/// The logical field an edit targets.
pub open spec fn key_of(op: SyncOp) -> (Seq<char>, u128, Seq<char>) {
    (op.entity@, op.entity_id, op.field@)
}

/// Order of keys: by entity name, then entity id, then field name.
pub open spec fn key_lt(a: (Seq<char>, u128, Seq<char>), b: (Seq<char>, u128, Seq<char>)) -> bool {
    chars_lt(a.0, b.0) || (a.0 == b.0 && (a.1 < b.1 || (a.1 == b.1 && chars_lt(a.2, b.2))))
}

/// Order in which the merge scans the working set: by key, then timestamp,
/// then position (the sort is stable).
pub open spec fn scan_lt(all: Seq<SyncOp>, i: int, j: int) -> bool {
    let (a, b) = (all[i], all[j]);
    key_lt(key_of(a), key_of(b)) || (key_of(a) == key_of(b) && (a.timestamp < b.timestamp || (
    a.timestamp == b.timestamp && i < j)))
}

/// Order of presentation of the reconciled ops: by timestamp, then position.
pub open spec fn time_lt(all: Seq<SyncOp>, i: int, j: int) -> bool {
    all[i].timestamp < all[j].timestamp || (all[i].timestamp == all[j].timestamp && i < j)
}

pub open spec fn pos_lt(all: Seq<SyncOp>, by_time: bool, i: int, j: int) -> bool {
    if by_time {
        time_lt(all, i, j)
    } else {
        scan_lt(all, i, j)
    }
}

pub open spec fn strictly_sorted(all: Seq<SyncOp>, by_time: bool, o: Seq<usize>) -> bool {
    forall|a: int, b: int|
        0 <= a < b < o.len() ==> #[trigger] pos_lt(all, by_time, o[a] as int, o[b] as int)
}

/// `o` lists every position of `all` once, in scan order.
pub open spec fn is_scan_order(all: Seq<SyncOp>, o: Seq<usize>) -> bool {
    &&& o.len() == all.len()
    &&& forall|p: int| 0 <= p < o.len() ==> o[p] < all.len()
    &&& forall|i: usize| i < all.len() ==> o.contains(i)
    &&& strictly_sorted(all, false, o)
}

/// `all[j]` is the last word on its key: no other edit of the key has a later
/// timestamp, and none with the same timestamp arrived after it.
pub open spec fn is_winner(all: Seq<SyncOp>, j: int) -> bool {
    &&& 0 <= j < all.len()
    &&& forall|i: int|
        0 <= i < all.len() && key_of(all[i]) == key_of(all[j]) ==> (all[i].timestamp
            < all[j].timestamp || (all[i].timestamp == all[j].timestamp && i <= j))
}

/// Two edits that conflict when they meet in the scan.
pub open spec fn in_conflict(a: SyncOp, b: SyncOp) -> bool {
    key_of(a) == key_of(b) && a.timestamp == b.timestamp && a.device_id != b.device_id
}

pub open spec fn conflict_of(a: SyncOp, b: SyncOp) -> SyncConflict {
    SyncConflict { entity: b.entity, entity_id: b.entity_id, field: b.field, left: a, right: b }
}

/// Conflicts met when `all` is scanned in the order `o`: each edit is compared
/// with the one scanned just before it.
pub open spec fn conflicts_along(all: Seq<SyncOp>, o: Seq<usize>) -> Seq<SyncConflict>
    decreases o.len(),
{
    if o.len() < 2 {
        seq![]
    } else {
        let prev = conflicts_along(all, o.drop_last());
        let a = all[o[o.len() - 2] as int];
        let b = all[o[o.len() - 1] as int];
        if in_conflict(a, b) {
            prev.push(conflict_of(a, b))
        } else {
            prev
        }
    }
}

/// `op` is the winning edit of its key in `all`.
pub open spec fn won_in(all: Seq<SyncOp>, op: SyncOp) -> bool {
    exists|j: int| is_winner(all, j) && all[j] == op
}

/// `merged` holds exactly the winners of `all`, one per key, by timestamp.
pub open spec fn reconciles(all: Seq<SyncOp>, merged: Seq<SyncOp>) -> bool {
    &&& forall|m: int| 0 <= m < merged.len() ==> #[trigger] won_in(all, merged[m])
    &&& forall|j: int|
        #[trigger] is_winner(all, j) ==> exists|m: int|
            #![trigger merged[m]]
            0 <= m < merged.len() && merged[m] == all[j]
    &&& forall|a: int, b: int|
        0 <= a < b < merged.len() ==> merged[a].timestamp <= merged[b].timestamp
    &&& forall|a: int, b: int|
        0 <= a < b < merged.len() ==> key_of(merged[a]) != key_of(merged[b])
}

proof fn lemma_key_lt_irreflexive(k: (Seq<char>, u128, Seq<char>))
    ensures
        !key_lt(k, k),
{
    lemma_chars_lt_irreflexive(k.0);
    lemma_chars_lt_irreflexive(k.2);
}

proof fn lemma_key_lt_transitive(
    a: (Seq<char>, u128, Seq<char>),
    b: (Seq<char>, u128, Seq<char>),
    c: (Seq<char>, u128, Seq<char>),
)
    requires
        key_lt(a, b),
        key_lt(b, c),
    ensures
        key_lt(a, c),
{
    lemma_chars_lt_irreflexive(a.0);
    lemma_chars_lt_irreflexive(b.0);
    if chars_lt(a.0, b.0) && chars_lt(b.0, c.0) {
        lemma_chars_lt_transitive(a.0, b.0, c.0);
    }
    if chars_lt(a.2, b.2) && chars_lt(b.2, c.2) {
        lemma_chars_lt_transitive(a.2, b.2, c.2);
    }
}

proof fn lemma_key_lt_total(a: (Seq<char>, u128, Seq<char>), b: (Seq<char>, u128, Seq<char>))
    requires
        a != b,
    ensures
        key_lt(a, b) || key_lt(b, a),
{
    if a.0 != b.0 {
        lemma_chars_lt_total(a.0, b.0);
    } else if a.1 == b.1 {
        if a.2 == b.2 {
            assert(a == b);
        }
        lemma_chars_lt_total(a.2, b.2);
    }
}

pub(crate) proof fn lemma_key_lt_asymmetric(a: (Seq<char>, u128, Seq<char>), b: (Seq<char>, u128, Seq<char>))
    ensures
        !(key_lt(a, b) && key_lt(b, a)),
{
    lemma_chars_lt_asymmetric(a.0, b.0);
    lemma_chars_lt_asymmetric(a.2, b.2);
    lemma_chars_lt_irreflexive(a.0);
    lemma_chars_lt_irreflexive(a.2);
}

/// `pos_lt` is a strict total order on the positions of `all`.
proof fn lemma_pos_lt_order(all: Seq<SyncOp>, by_time: bool, i: int, j: int, k: int)
    requires
        0 <= i < all.len(),
        0 <= j < all.len(),
        0 <= k < all.len(),
    ensures
        !pos_lt(all, by_time, i, i),
        i != j ==> pos_lt(all, by_time, i, j) || pos_lt(all, by_time, j, i),
        pos_lt(all, by_time, i, j) && pos_lt(all, by_time, j, k) ==> pos_lt(all, by_time, i, k),
        !(pos_lt(all, by_time, i, j) && pos_lt(all, by_time, j, i)),
{
    let (ki, kj, kk) = (key_of(all[i]), key_of(all[j]), key_of(all[k]));
    lemma_key_lt_irreflexive(ki);
    lemma_key_lt_irreflexive(kj);
    lemma_key_lt_asymmetric(ki, kj);
    if ki != kj {
        lemma_key_lt_total(ki, kj);
    }
    if key_lt(ki, kj) && key_lt(kj, kk) {
        lemma_key_lt_transitive(ki, kj, kk);
    }
}

/// Two orderings of the same positions, both strictly sorted, are one and the same.
proof fn lemma_sorted_unique(all: Seq<SyncOp>, by_time: bool, o1: Seq<usize>, o2: Seq<usize>)
    requires
        strictly_sorted(all, by_time, o1),
        strictly_sorted(all, by_time, o2),
        forall|p: int| 0 <= p < o1.len() ==> o1[p] < all.len(),
        forall|p: int| 0 <= p < o2.len() ==> o2[p] < all.len(),
        forall|x: usize| o1.contains(x) <==> o2.contains(x),
    ensures
        o1 == o2,
    decreases o1.len() + o2.len(),
{
    if o1.len() == 0 || o2.len() == 0 {
        if o2.len() > 0 {
            assert(o2.contains(o2[0]));
        }
        if o1.len() > 0 {
            assert(o1.contains(o1[0]));
        }
        assert(o1 =~= o2);
    } else {
        let x = o1[0];
        let y = o2[0];
        if x != y {
            assert(o1.contains(x));
            let q = choose|q: int| 0 <= q < o2.len() && o2[q] == x;
            assert(o2.contains(y));
            let r = choose|r: int| 0 <= r < o1.len() && o1[r] == y;
            assert(pos_lt(all, by_time, o2[0] as int, o2[q] as int));
            assert(pos_lt(all, by_time, o1[0] as int, o1[r] as int));
            lemma_pos_lt_order(all, by_time, x as int, y as int, x as int);
        }
        let t1 = o1.drop_first();
        let t2 = o2.drop_first();
        assert forall|z: usize| t1.contains(z) implies t2.contains(z) by {
            let k = choose|k: int| 0 <= k < t1.len() && t1[k] == z;
            assert(pos_lt(all, by_time, o1[0] as int, o1[k + 1] as int));
            lemma_pos_lt_order(all, by_time, x as int, x as int, x as int);
            assert(o1.contains(z));
            let q = choose|q: int| 0 <= q < o2.len() && o2[q] == z;
            assert(t2[q - 1] == z);
        }
        assert forall|z: usize| t2.contains(z) implies t1.contains(z) by {
            let k = choose|k: int| 0 <= k < t2.len() && t2[k] == z;
            assert(pos_lt(all, by_time, o2[0] as int, o2[k + 1] as int));
            lemma_pos_lt_order(all, by_time, y as int, y as int, y as int);
            assert(o2.contains(z));
            let q = choose|q: int| 0 <= q < o1.len() && o1[q] == z;
            assert(t1[q - 1] == z);
        }
        assert forall|a: int, b: int| 0 <= a < b < t1.len() implies #[trigger] pos_lt(
            all,
            by_time,
            t1[a] as int,
            t1[b] as int,
        ) by {
            assert(pos_lt(all, by_time, o1[a + 1] as int, o1[b + 1] as int));
        }
        assert forall|a: int, b: int| 0 <= a < b < t2.len() implies #[trigger] pos_lt(
            all,
            by_time,
            t2[a] as int,
            t2[b] as int,
        ) by {
            assert(pos_lt(all, by_time, o2[a + 1] as int, o2[b + 1] as int));
        }
        lemma_sorted_unique(all, by_time, t1, t2);
        assert(o1 =~= seq![x] + t1);
        assert(o2 =~= seq![y] + t2);
    }
}

/// There is one scan order of a log.
pub proof fn lemma_scan_order_unique(all: Seq<SyncOp>, o1: Seq<usize>, o2: Seq<usize>)
    requires
        is_scan_order(all, o1),
        is_scan_order(all, o2),
    ensures
        o1 == o2,
{
    assert forall|x: usize| o1.contains(x) <==> o2.contains(x) by {
        if o1.contains(x) {
            let k = choose|k: int| 0 <= k < o1.len() && o1[k] == x;
        }
        if o2.contains(x) {
            let k = choose|k: int| 0 <= k < o2.len() && o2[k] == x;
        }
    }
    lemma_sorted_unique(all, false, o1, o2);
}

fn same_key(a: &SyncOp, b: &SyncOp) -> (r: bool)
    ensures
        r == (key_of(*a) == key_of(*b)),
{
    a.entity_id == b.entity_id && compare_text(a.entity.as_str(), b.entity.as_str()) == 0
        && compare_text(a.field.as_str(), b.field.as_str()) == 0
}

fn positions_less(all: &Vec<SyncOp>, by_time: bool, i: usize, j: usize) -> (r: bool)
    requires
        i < all.len(),
        j < all.len(),
    ensures
        r == pos_lt(all@, by_time, i as int, j as int),
{
    let a = &all[i];
    let b = &all[j];
    let by_stamp = a.timestamp < b.timestamp || (a.timestamp == b.timestamp && i < j);
    if by_time {
        return by_stamp;
    }
    proof {
        lemma_chars_lt_asymmetric(a.entity@, b.entity@);
        lemma_chars_lt_asymmetric(a.field@, b.field@);
        lemma_chars_lt_irreflexive(a.entity@);
        lemma_chars_lt_irreflexive(a.field@);
    }
    let ce = compare_text(a.entity.as_str(), b.entity.as_str());
    if ce != 0 {
        return ce < 0;
    }
    if a.entity_id != b.entity_id {
        return a.entity_id < b.entity_id;
    }
    let cf = compare_text(a.field.as_str(), b.field.as_str());
    if cf != 0 {
        return cf < 0;
    }
    by_stamp
}

/// Sorts distinct positions of `all` by `pos_lt` (insertion sort).
fn sort_positions(all: &Vec<SyncOp>, pos: &Vec<usize>, by_time: bool) -> (r: Vec<usize>)
    requires
        forall|p: int| 0 <= p < pos.len() ==> pos[p] < all.len(),
        pos@.no_duplicates(),
    ensures
        r.len() == pos.len(),
        forall|p: int| 0 <= p < r.len() ==> r[p] < all.len(),
        forall|x: usize| r@.contains(x) <==> pos@.contains(x),
        strictly_sorted(all@, by_time, r@),
{
    let mut out: Vec<usize> = Vec::new();
    for k in 0..pos.len()
        invariant
            forall|p: int| 0 <= p < pos.len() ==> pos[p] < all.len(),
            pos@.no_duplicates(),
            out.len() == k,
            forall|p: int| 0 <= p < out.len() ==> out[p] < all.len(),
            forall|x: usize| out@.contains(x) <==> pos@.take(k as int).contains(x),
            strictly_sorted(all@, by_time, out@),
    {
        let x = pos[k];
        let mut p: usize = 0;
        while p < out.len() && positions_less(all, by_time, out[p], x)
            invariant
                p <= out.len(),
                x < all.len(),
                forall|q: int| 0 <= q < out.len() ==> out[q] < all.len(),
                forall|q: int| 0 <= q < p ==> pos_lt(all@, by_time, out[q] as int, x as int),
            decreases out.len() - p,
        {
            p = p + 1;
        }
        proof {
            assert(!pos@.take(k as int).contains(x)) by {
                if pos@.take(k as int).contains(x) {
                    let q = choose|q: int| 0 <= q < k && pos@.take(k as int)[q] == x;
                    assert(pos@[q] == pos@[k as int]);
                }
            }
            if p < out.len() {
                assert(out@.contains(out[p as int]));
                assert(out[p as int] != x);
                lemma_pos_lt_order(all@, by_time, x as int, out[p as int] as int, x as int);
                assert forall|b: int| p < b < out.len() implies pos_lt(
                    all@,
                    by_time,
                    x as int,
                    out[b] as int,
                ) by {
                    assert(pos_lt(all@, by_time, out[p as int] as int, out[b] as int));
                    lemma_pos_lt_order(all@, by_time, x as int, out[p as int] as int, out[b] as int);
                }
            }
        }
        let ghost before = out@;
        out.insert(p, x);
        proof {
            assert(out@ == before.insert(p as int, x));
            before.insert_ensures(p as int, x);
            assert(pos@.take(k + 1) =~= pos@.take(k as int).push(x));
            let t0 = pos@.take(k as int);
            let t1 = pos@.take(k + 1);
            assert forall|y: usize| out@.contains(y) implies t1.contains(y) by {
                let q = choose|q: int| 0 <= q < out.len() && out@[q] == y;
                if y == x {
                    assert(t1[k as int] == x);
                } else {
                    if q < p {
                        assert(before[q] == y);
                    } else {
                        assert(before[q - 1] == y);
                    }
                    assert(before.contains(y));
                    let q0 = choose|q0: int| 0 <= q0 < t0.len() && t0[q0] == y;
                    assert(t1[q0] == y);
                }
            }
            assert forall|y: usize| t1.contains(y) implies out@.contains(y) by {
                let q0 = choose|q0: int| 0 <= q0 < t1.len() && t1[q0] == y;
                if y == x {
                    assert(out@[p as int] == x);
                } else {
                    assert(q0 < k);
                    assert(t0[q0] == y);
                    assert(before.contains(y));
                    let q = choose|q: int| 0 <= q < before.len() && before[q] == y;
                    if q < p {
                        assert(out@[q] == y);
                    } else {
                        assert(out@[q + 1] == y);
                    }
                }
            }
            assert forall|a: int, b: int| 0 <= a < b < out.len() implies #[trigger] pos_lt(
                all@,
                by_time,
                out[a] as int,
                out[b] as int,
            ) by {
                if b < p {
                    assert(pos_lt(all@, by_time, before[a] as int, before[b] as int));
                } else if a > p {
                    assert(pos_lt(all@, by_time, before[a - 1] as int, before[b - 1] as int));
                } else if a < p && b > p {
                    assert(pos_lt(all@, by_time, before[a] as int, before[b - 1] as int));
                }
            }
        }
    }
    proof {
        assert(pos@.take(pos.len() as int) =~= pos@);
    }
    out
}

fn concat_logs(left: &[SyncOp], right: &[SyncOp]) -> (all: Vec<SyncOp>)
    requires
        left@.len() + right@.len() <= usize::MAX,
    ensures
        all@ == left@ + right@,
{
    let mut all: Vec<SyncOp> = Vec::new();
    for i in 0..left.len()
        invariant
            all@ == left@.take(i as int),
    {
        all.push(left[i].duplicate());
        proof {
            assert(left@.take(i + 1) =~= left@.take(i as int).push(left@[i as int]));
        }
    }
    proof {
        assert(left@.take(left@.len() as int) =~= left@);
    }
    for i in 0..right.len()
        invariant
            all@ == left@ + right@.take(i as int),
            left@.len() + right@.len() <= usize::MAX,
    {
        all.push(right[i].duplicate());
        proof {
            assert(right@.take(i + 1) =~= right@.take(i as int).push(right@[i as int]));
        }
    }
    proof {
        assert(right@.take(right@.len() as int) =~= right@);
        assert(all@ =~= left@ + right@);
    }
    all
}

fn scan_order(all: &Vec<SyncOp>) -> (o: Vec<usize>)
    ensures
        is_scan_order(all@, o@),
{
    let n = all.len();
    let mut every: Vec<usize> = Vec::new();
    for i in 0..n
        invariant
            every.len() == i,
            forall|q: int| 0 <= q < i ==> every[q] == q,
    {
        every.push(i);
    }
    proof {
        assert forall|a: int, b: int| 0 <= a < b < every.len() implies every[a] != every[b] by {}
    }
    let order = sort_positions(all, &every, false);
    proof {
        assert forall|i: usize| i < n implies order@.contains(i) by {
            assert(every@[i as int] == i);
            assert(every@.contains(i));
        }
    }
    order
}

fn scan_conflicts(all: &Vec<SyncOp>, order: &Vec<usize>) -> (c: Vec<SyncConflict>)
    requires
        is_scan_order(all@, order@),
    ensures
        c@ == conflicts_along(all@, order@),
{
    let n = all.len();
    let mut conflicts: Vec<SyncConflict> = Vec::new();
    for p in 0..n
        invariant
            n == all.len(),
            is_scan_order(all@, order@),
            conflicts@ == conflicts_along(all@, order@.take(p as int)),
    {
        let ghost t = order@.take(p + 1);
        proof {
            assert(t.drop_last() =~= order@.take(p as int));
        }
        if p > 0 && same_key(&all[order[p - 1]], &all[order[p]])
            && all[order[p - 1]].timestamp == all[order[p]].timestamp
            && all[order[p - 1]].device_id != all[order[p]].device_id {
            let a = &all[order[p - 1]];
            let b = &all[order[p]];
            conflicts.push(
                SyncConflict {
                    entity: b.entity.clone(),
                    entity_id: b.entity_id,
                    field: b.field.clone(),
                    left: a.duplicate(),
                    right: b.duplicate(),
                },
            );
        }
    }
    proof {
        assert(order@.take(n as int) =~= order@);
    }
    conflicts
}

fn is_winner_at(all: &Vec<SyncOp>, j: usize) -> (r: bool)
    requires
        j < all.len(),
    ensures
        r == is_winner(all@, j as int),
{
    let n = all.len();
    let mut i: usize = 0;
    while i < n
        invariant
            n == all.len(),
            j < n,
            i <= n,
            forall|k: int|
                0 <= k < i && key_of(all@[k]) == key_of(all@[j as int]) ==> (all@[k].timestamp
                    < all@[j as int].timestamp || (all@[k].timestamp == all@[j as int].timestamp
                    && k <= j)),
        decreases n - i,
    {
        if same_key(&all[i], &all[j]) && (all[i].timestamp > all[j].timestamp || (all[i].timestamp
            == all[j].timestamp && i > j)) {
            return false;
        }
        i = i + 1;
    }
    true
}

fn winners_of(all: &Vec<SyncOp>) -> (w: Vec<usize>)
    ensures
        forall|q: int| 0 <= q < w.len() ==> w[q] < all.len(),
        w@.no_duplicates(),
        forall|x: usize| w@.contains(x) <==> is_winner(all@, x as int),
{
    let n = all.len();
    let mut winners: Vec<usize> = Vec::new();
    for j in 0..n
        invariant
            n == all.len(),
            forall|q: int| 0 <= q < winners.len() ==> winners[q] < j,
            winners@.no_duplicates(),
            forall|x: usize| x < j ==> (winners@.contains(x) <==> is_winner(all@, x as int)),
    {
        let ghost before = winners@;
        let won = is_winner_at(all, j);
        if won {
            winners.push(j);
        }
        proof {
            assert forall|x: usize| x < j + 1 implies (winners@.contains(x) <==> is_winner(
                all@,
                x as int,
            )) by {
                if x < j {
                    if winners@.contains(x) && !before.contains(x) {
                        let q = choose|q: int| 0 <= q < winners.len() && winners@[q] == x;
                        assert(q == before.len());
                    }
                    if before.contains(x) {
                        let q = choose|q: int| 0 <= q < before.len() && before[q] == x;
                        assert(winners@[q] == x);
                    }
                } else {
                    if won {
                        assert(winners@[before.len() as int] == x);
                    } else {
                        assert(!before.contains(x));
                    }
                }
            }
        }
    }
    winners
}

proof fn lemma_presented(all: Seq<SyncOp>, winners: Seq<usize>, shown: Seq<usize>, merged: Seq<SyncOp>)
    requires
        forall|x: usize| winners.contains(x) <==> is_winner(all, x as int),
        forall|x: usize| shown.contains(x) <==> winners.contains(x),
        forall|q: int| 0 <= q < shown.len() ==> shown[q] < all.len(),
        strictly_sorted(all, true, shown),
        merged.len() == shown.len(),
        forall|q: int| 0 <= q < merged.len() ==> merged[q] == all[shown[q] as int],
        all.len() <= usize::MAX,
    ensures
        reconciles(all, merged),
{
    assert forall|m: int| 0 <= m < merged.len() implies #[trigger] won_in(all, merged[m]) by {
        let j = shown[m] as int;
        assert(shown.contains(shown[m]));
        assert(is_winner(all, j) && merged[m] == all[j]);
    }
    assert forall|j: int| #[trigger] is_winner(all, j) implies (exists|m: int|
        #![trigger merged[m]] 0 <= m < merged.len() && merged[m] == all[j]) by {
        let ju = j as usize;
        assert(ju as int == j);
        assert(shown.contains(ju));
        let m = choose|m: int| 0 <= m < shown.len() && shown[m] == ju;
        assert(merged[m] == all[j]);
    }
    assert forall|a: int, b: int| 0 <= a < b < merged.len() implies merged[a].timestamp
        <= merged[b].timestamp by {
        assert(pos_lt(all, true, shown[a] as int, shown[b] as int));
    }
    assert forall|a: int, b: int| 0 <= a < b < merged.len() implies key_of(merged[a]) != key_of(
        merged[b],
    ) by {
        assert(pos_lt(all, true, shown[a] as int, shown[b] as int));
        assert(shown.contains(shown[a]));
        assert(shown.contains(shown[b]));
        let (x, y) = (shown[a] as int, shown[b] as int);
        assert(is_winner(all, x));
        assert(is_winner(all, y));
        if key_of(all[x]) == key_of(all[y]) {
            assert(all[x].timestamp == all[y].timestamp);
            assert(x == y);
        }
    }
}

fn present(all: &Vec<SyncOp>) -> (merged: Vec<SyncOp>)
    ensures
        reconciles(all@, merged@),
{
    let winners = winners_of(all);
    let shown = sort_positions(all, &winners, true);
    let mut merged: Vec<SyncOp> = Vec::new();
    for m in 0..shown.len()
        invariant
            forall|q: int| 0 <= q < shown.len() ==> shown[q] < all.len(),
            merged.len() == m,
            forall|q: int| 0 <= q < m ==> merged@[q] == all@[shown[q] as int],
    {
        merged.push(all[shown[m]].duplicate());
    }
    proof {
        assert(all@.len() == all.len());
        lemma_presented(all@, winners@, shown@, merged@);
    }
    merged
}

/// Merges two logs: every key keeps its last edit, and edits of one key with
/// equal timestamps from different devices are reported as conflicts, in the
/// order in which a scan by key and timestamp meets them.
pub fn merge_logs(left: &[SyncOp], right: &[SyncOp]) -> (r: MergeResult)
    requires
        left@.len() + right@.len() <= usize::MAX,
    ensures
        reconciles(left@ + right@, r.merged_ops@),
        exists|o: Seq<usize>| is_scan_order(left@ + right@, o),
        forall|o: Seq<usize>|
            is_scan_order(left@ + right@, o) ==> r.conflicts@ == conflicts_along(left@ + right@, o),
{
    let all = concat_logs(left, right);
    let order = scan_order(&all);
    let conflicts = scan_conflicts(&all, &order);
    proof {
        assert forall|o: Seq<usize>| is_scan_order(all@, o) implies conflicts@ == conflicts_along(
            all@,
            o,
        ) by {
            lemma_scan_order_unique(all@, o, order@);
        }
    }
    let merged = present(&all);
    MergeResult { merged_ops: merged, conflicts }
}

} // verus!
