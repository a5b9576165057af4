//! The laws the replica obeys, stated and proved over the same spec-level
//! model that the executable functions' contracts use: entry views,
//! `spec_apply` and its pieces.
//!
//! Applying an operation keeps the entries sorted; identifiers allocated by
//! distinct sites differ; applying the same operation twice equals applying
//! it once; causally independent operations commute; and two replicas that
//! start empty and apply the same multiset of operations, each in some
//! causal order, end with identical entries. An insert followed by a delete
//! at the same position restores the stored sequence.

use vstd::prelude::*;
use crate::ident::{id_lt, lemma_id_lt_asymmetric, lemma_id_lt_irreflexive, Position};
use crate::{
    contains_id, lemma_contains_at_rank, lemma_rank_bounds, lemma_rank_split, payloads, rank,
    sorted_ids, spec_apply, spec_delete, spec_insert, EntryView, Op,
};

verus! {

/// The identifier an operation addresses.
pub open spec fn op_id<T>(op: Op<T>) -> Seq<Position> {
    match op {
        Op::Insert { id, dot, c } => id@,
        Op::Delete { remote, id, dot } => id@,
    }
}

/// Whether an operation is an insert.
pub open spec fn is_insert<T>(op: Op<T>) -> bool {
    match op {
        Op::Insert { id, dot, c } => true,
        Op::Delete { remote, id, dot } => false,
    }
}

/// The entry an insert operation carries.
pub open spec fn insert_triple<T>(op: Op<T>) -> EntryView<T> {
    match op {
        Op::Insert { id, dot, c } => (id@, dot, c),
        Op::Delete { remote, id, dot } => (id@, dot, arbitrary()),
    }
}

/// Identifiers allocated by sites with different ids differ, whatever the
/// bounds were: the final position carries the allocating site.
pub proof fn lemma_distinct_sites_distinct_ids(r1: Seq<Position>, r2: Seq<Position>)
    requires
        r1.len() > 0,
        r2.len() > 0,
        r1.last().site != r2.last().site,
    ensures
        r1 != r2,
{
}

/// Inserting an entry at a position and deleting at the same position
/// restores the stored sequence, payloads included. For an index within the
/// current length this is exactly what a local insert followed by a local
/// delete at that index does: `insert_index(i, x)` leaves the entries at
/// `old@.insert(i, t)` by its contract, and `delete_index(i)` then leaves
/// `remove(i)` of that. An index past the end appends instead, and the
/// following local delete at that index refuses, so the pair restores the
/// payloads only for indices within bounds.
pub proof fn lemma_insert_delete_round_trip<T>(s: Seq<EntryView<T>>, i: int, t: EntryView<T>)
    requires
        0 <= i <= s.len(),
    ensures
        s.insert(i, t).remove(i) == s,
        payloads(s.insert(i, t).remove(i)) == payloads(s),
{
    assert(s.insert(i, t).remove(i) =~= s);
}

/// What inserting does to membership of any entry.
pub proof fn lemma_insert_contains<T>(s: Seq<EntryView<T>>, t: EntryView<T>, t2: EntryView<T>)
    ensures
        spec_insert(s, t).contains(t2) <==> (s.contains(t2) || (!contains_id(s, t.0) && t2
            == t)),
{
    if !contains_id(s, t.0) {
        lemma_rank_bounds(s, t.0);
        let r = rank(s, t.0);
        s.insert_ensures(r, t);
        let s1 = s.insert(r, t);
        if s1.contains(t2) {
            let m = choose|m: int| 0 <= m < s1.len() && s1[m] == t2;
            if m != r {
                let m0: int = if m < r {
                    m
                } else {
                    m - 1
                };
                assert(s[m0] == t2);
            }
        }
        if s.contains(t2) {
            let m = choose|m: int| 0 <= m < s.len() && s[m] == t2;
            let m1: int = if m < r {
                m
            } else {
                m + 1
            };
            assert(s1[m1] == t2);
        }
        if t2 == t {
            assert(s1[r] == t2);
        }
    }
}

/// What inserting does to the set of identifiers present.
pub proof fn lemma_insert_contains_id<T>(s: Seq<EntryView<T>>, t: EntryView<T>, idv: Seq<Position>)
    ensures
        contains_id(spec_insert(s, t), idv) <==> (contains_id(s, idv) || (!contains_id(s, t.0)
            && idv == t.0)),
{
    if !contains_id(s, t.0) {
        lemma_rank_bounds(s, t.0);
        let r = rank(s, t.0);
        s.insert_ensures(r, t);
        let s1 = s.insert(r, t);
        if contains_id(s1, idv) {
            let m = choose|m: int| 0 <= m < s1.len() && s1[m].0 == idv;
            if m != r {
                let m0: int = if m < r {
                    m
                } else {
                    m - 1
                };
                assert(s[m0] == s1[m]);
            }
        }
        if contains_id(s, idv) {
            let m = choose|m: int| 0 <= m < s.len() && s[m].0 == idv;
            let m1: int = if m < r {
                m
            } else {
                m + 1
            };
            assert(s1[m1] == s[m]);
        }
        if idv == t.0 {
            assert(s1[r] == t);
        }
    }
}

/// What deleting does to membership of any entry, in a sorted sequence.
pub proof fn lemma_delete_contains<T>(s: Seq<EntryView<T>>, idv: Seq<Position>, t2: EntryView<T>)
    requires
        sorted_ids(s),
    ensures
        spec_delete(s, idv).contains(t2) <==> (s.contains(t2) && t2.0 != idv),
{
    lemma_id_lt_irreflexive(idv);
    if contains_id(s, idv) {
        lemma_rank_bounds(s, idv);
        lemma_contains_at_rank(s, idv);
        let r = rank(s, idv);
        s.remove_ensures(r);
        let s1 = s.remove(r);
        if s1.contains(t2) {
            let m = choose|m: int| 0 <= m < s1.len() && s1[m] == t2;
            let m0: int = if m < r {
                m
            } else {
                m + 1
            };
            assert(s[m0] == t2);
            if t2.0 == idv {
                // a second entry with the removed identifier would break order
                if m0 < r {
                    assert(id_lt(s[m0].0, s[r].0));
                } else {
                    assert(id_lt(s[r].0, s[m0].0));
                }
                assert(false);
            }
        }
        if s.contains(t2) && t2.0 != idv {
            let m = choose|m: int| 0 <= m < s.len() && s[m] == t2;
            assert(m != r);
            let m1: int = if m < r {
                m
            } else {
                m - 1
            };
            assert(s1[m1] == t2);
        }
    } else {
        if s.contains(t2) && t2.0 == idv {
            let m = choose|m: int| 0 <= m < s.len() && s[m] == t2;
            assert(s[m].0 == idv);
            assert(false);
        }
    }
}

/// What deleting does to the set of identifiers present, in a sorted
/// sequence.
pub proof fn lemma_delete_contains_id<T>(s: Seq<EntryView<T>>, dv: Seq<Position>, idv: Seq<Position>)
    requires
        sorted_ids(s),
    ensures
        contains_id(spec_delete(s, dv), idv) <==> (contains_id(s, idv) && idv != dv),
{
    lemma_id_lt_irreflexive(dv);
    if contains_id(s, dv) {
        lemma_rank_bounds(s, dv);
        lemma_contains_at_rank(s, dv);
        let r = rank(s, dv);
        s.remove_ensures(r);
        let s1 = s.remove(r);
        if contains_id(s1, idv) {
            let m = choose|m: int| 0 <= m < s1.len() && s1[m].0 == idv;
            let m0: int = if m < r {
                m
            } else {
                m + 1
            };
            assert(s[m0] == s1[m]);
            if idv == dv {
                if m0 < r {
                    assert(id_lt(s[m0].0, s[r].0));
                } else {
                    assert(id_lt(s[r].0, s[m0].0));
                }
                assert(false);
            }
        }
        if contains_id(s, idv) && idv != dv {
            let m = choose|m: int| 0 <= m < s.len() && s[m].0 == idv;
            assert(m != r);
            let m1: int = if m < r {
                m
            } else {
                m - 1
            };
            assert(s1[m1] == s[m]);
        }
    }
}

/// Applying an operation keeps the entries sorted.
pub proof fn lemma_apply_sorted<T>(s: Seq<EntryView<T>>, op: Op<T>)
    requires
        sorted_ids(s),
    ensures
        sorted_ids(spec_apply(s, op)),
{
    match op {
        Op::Insert { id, dot, c } => {
            lemma_spec_insert_sorted(s, (id@, dot, c));
        },
        Op::Delete { remote, id, dot } => {
            lemma_spec_delete_sorted(s, id@);
        },
    }
}

/// Inserting at the rank keeps the entries sorted.
pub proof fn lemma_spec_insert_sorted<T>(s: Seq<EntryView<T>>, t: EntryView<T>)
    requires
        sorted_ids(s),
    ensures
        sorted_ids(spec_insert(s, t)),
{
    if !contains_id(s, t.0) {
        lemma_rank_split(s, t.0);
        lemma_contains_at_rank(s, t.0);
        let ki = rank(s, t.0);
        s.insert_ensures(ki, t);
        let s1 = s.insert(ki, t);
        assert forall|i: int, j: int|
            0 <= i < j < s1.len() implies id_lt(#[trigger] s1[i].0, #[trigger] s1[j].0) by {
            if i == ki {
                assert(s1[j] == s[j - 1]);
                crate::ident::lemma_id_lt_connected(t.0, s[ki].0);
                assert(id_lt(t.0, s[ki].0));
                if j - 1 > ki {
                    crate::ident::lemma_id_lt_transitive(t.0, s[ki].0, s[j - 1].0);
                }
            } else if j == ki {
                assert(s1[i] == s[i]);
                assert(id_lt(s[i].0, t.0));
            } else {
                let i0: int = if i < ki {
                    i
                } else {
                    i - 1
                };
                let j0: int = if j < ki {
                    j
                } else {
                    j - 1
                };
                assert(s1[i] == s[i0]);
                assert(s1[j] == s[j0]);
                assert(id_lt(s[i0].0, s[j0].0));
            }
        }
    }
}

/// Removing at the rank keeps the entries sorted.
pub proof fn lemma_spec_delete_sorted<T>(s: Seq<EntryView<T>>, idv: Seq<Position>)
    requires
        sorted_ids(s),
    ensures
        sorted_ids(spec_delete(s, idv)),
{
    if contains_id(s, idv) {
        lemma_rank_bounds(s, idv);
        lemma_contains_at_rank(s, idv);
        let ki = rank(s, idv);
        s.remove_ensures(ki);
        let s1 = s.remove(ki);
        assert forall|i: int, j: int|
            0 <= i < j < s1.len() implies id_lt(#[trigger] s1[i].0, #[trigger] s1[j].0) by {
            let i0: int = if i < ki {
                i
            } else {
                i + 1
            };
            let j0: int = if j < ki {
                j
            } else {
                j + 1
            };
            assert(s1[i] == s[i0]);
            assert(s1[j] == s[j0]);
        }
    }
}

/// An entry sits in the tail exactly when it sits in the whole sequence and
/// is not the head; needs strict order, which forbids duplicates.
proof fn lemma_tail_contains<T>(s: Seq<EntryView<T>>, t: EntryView<T>)
    requires
        sorted_ids(s),
        s.len() > 0,
    ensures
        s.skip(1).contains(t) <==> (s.contains(t) && t != s[0]),
{
    let tail = s.skip(1);
    assert(forall|i: int| 0 <= i < tail.len() ==> tail[i] == s[i + 1]);
    if tail.contains(t) {
        let i = choose|i: int| 0 <= i < tail.len() && tail[i] == t;
        assert(s[i + 1] == t);
        if t == s[0] {
            assert(id_lt(s[0].0, s[i + 1].0));
            lemma_id_lt_irreflexive(t.0);
            assert(false);
        }
    }
    if s.contains(t) && t != s[0] {
        let m = choose|m: int| 0 <= m < s.len() && s[m] == t;
        assert(m >= 1);
        assert(tail[m - 1] == t);
    }
}

/// Two sorted sequences holding the same entries are the same sequence.
pub proof fn lemma_sorted_same_entries<T>(s1: Seq<EntryView<T>>, s2: Seq<EntryView<T>>)
    requires
        sorted_ids(s1),
        sorted_ids(s2),
        forall|t: EntryView<T>| s1.contains(t) <==> s2.contains(t),
    ensures
        s1 == s2,
    decreases s1.len(),
{
    if s1.len() == 0 {
        if s2.len() > 0 {
            assert(s2.contains(s2[0]));
            assert(false);
        }
        assert(s1 =~= s2);
    } else {
        assert(s1.contains(s1[0]));
        assert(s2.contains(s1[0]));
        let j = choose|j: int| 0 <= j < s2.len() && s2[j] == s1[0];
        assert(s2.contains(s2[0]));
        assert(s1.contains(s2[0]));
        let m = choose|m: int| 0 <= m < s1.len() && s1[m] == s2[0];
        if m > 0 {
            assert(id_lt(s1[0].0, s1[m].0));
            if j > 0 {
                assert(id_lt(s2[0].0, s2[j].0));
                lemma_id_lt_asymmetric(s1[0].0, s2[0].0);
                assert(false);
            } else {
                lemma_id_lt_irreflexive(s1[0].0);
                assert(false);
            }
        }
        assert(s1[0] == s2[0]);
        let t1 = s1.skip(1);
        let t2 = s2.skip(1);
        assert(forall|i: int| 0 <= i < t1.len() ==> t1[i] == s1[i + 1]);
        assert(forall|i: int| 0 <= i < t2.len() ==> t2[i] == s2[i + 1]);
        assert forall|i: int, j2: int|
            0 <= i < j2 < t1.len() implies id_lt(#[trigger] t1[i].0, #[trigger] t1[j2].0) by {
            assert(t1[i] == s1[i + 1]);
            assert(t1[j2] == s1[j2 + 1]);
        }
        assert forall|i: int, j2: int|
            0 <= i < j2 < t2.len() implies id_lt(#[trigger] t2[i].0, #[trigger] t2[j2].0) by {
            assert(t2[i] == s2[i + 1]);
            assert(t2[j2] == s2[j2 + 1]);
        }
        assert forall|t: EntryView<T>| t1.contains(t) <==> t2.contains(t) by {
            lemma_tail_contains(s1, t);
            lemma_tail_contains(s2, t);
        }
        lemma_sorted_same_entries(t1, t2);
        assert forall|i: int| 0 <= i < s1.len() implies s1[i] == s2[i] by {
            if i >= 1 {
                assert(t1[i - 1] == t2[i - 1]);
            }
        }
        assert(s1 =~= s2);
    }
}

/// What applying any operation does to membership of any entry.
pub proof fn lemma_apply_contains<T>(s: Seq<EntryView<T>>, op: Op<T>, t: EntryView<T>)
    requires
        sorted_ids(s),
    ensures
        spec_apply(s, op).contains(t) <==> match op {
            Op::Insert { id, dot, c } => s.contains(t) || (!contains_id(s, id@) && t == (
                id@,
                dot,
                c,
            )),
            Op::Delete { remote, id, dot } => s.contains(t) && t.0 != id@,
        },
{
    match op {
        Op::Insert { id, dot, c } => {
            lemma_insert_contains(s, (id@, dot, c), t);
        },
        Op::Delete { remote, id, dot } => {
            lemma_delete_contains(s, id@, t);
        },
    }
}

/// What applying any operation does to the set of identifiers present.
pub proof fn lemma_apply_contains_id<T>(s: Seq<EntryView<T>>, op: Op<T>, idv: Seq<Position>)
    requires
        sorted_ids(s),
    ensures
        contains_id(spec_apply(s, op), idv) <==> match op {
            Op::Insert { id, dot, c } => contains_id(s, idv) || (!contains_id(s, id@) && idv
                == id@),
            Op::Delete { remote, id, dot } => contains_id(s, idv) && idv != id@,
        },
{
    match op {
        Op::Insert { id, dot, c } => {
            lemma_insert_contains_id(s, (id@, dot, c), idv);
        },
        Op::Delete { remote, id, dot } => {
            lemma_delete_contains_id(s, id@, idv);
        },
    }
}

/// Two operations that are causally independent: they address different
/// identifiers, or both are deletes (a delete and its insert share the
/// identifier, as do an insert and a duplicate of itself).
pub open spec fn independent<T>(o1: Op<T>, o2: Op<T>) -> bool {
    op_id(o1) != op_id(o2) || (!is_insert(o1) && !is_insert(o2))
}

/// Causally independent operations commute: applying them in either order
/// leaves the replica in the same state.
pub proof fn lemma_apply_commutes<T>(s: Seq<EntryView<T>>, o1: Op<T>, o2: Op<T>)
    requires
        sorted_ids(s),
        independent(o1, o2),
    ensures
        spec_apply(spec_apply(s, o1), o2) == spec_apply(spec_apply(s, o2), o1),
{
    let a1 = spec_apply(s, o1);
    let a2 = spec_apply(s, o2);
    lemma_apply_sorted(s, o1);
    lemma_apply_sorted(s, o2);
    lemma_apply_sorted(a1, o2);
    lemma_apply_sorted(a2, o1);
    lemma_apply_contains_id(s, o1, op_id(o2));
    lemma_apply_contains_id(s, o2, op_id(o1));
    assert forall|t: EntryView<T>|
        spec_apply(a1, o2).contains(t) <==> spec_apply(a2, o1).contains(t) by {
        lemma_apply_contains(s, o1, t);
        lemma_apply_contains(s, o2, t);
        lemma_apply_contains(a1, o2, t);
        lemma_apply_contains(a2, o1, t);
    }
    lemma_sorted_same_entries(spec_apply(a1, o2), spec_apply(a2, o1));
}

/// Applying the same operation twice equals applying it once.
pub proof fn lemma_apply_idempotent<T>(s: Seq<EntryView<T>>, op: Op<T>)
    requires
        sorted_ids(s),
    ensures
        spec_apply(spec_apply(s, op), op) == spec_apply(s, op),
{
    match op {
        Op::Insert { id, dot, c } => {
            let t = (id@, dot, c);
            if !contains_id(s, t.0) {
                lemma_rank_bounds(s, t.0);
                s.insert_ensures(rank(s, t.0), t);
                let s1 = s.insert(rank(s, t.0), t);
                assert(s1[rank(s, t.0)] == t);
                assert(contains_id(s1, t.0));
            }
        },
        Op::Delete { remote, id, dot } => {
            lemma_spec_delete_sorted(s, id@);
            lemma_delete_contains_id(s, id@, id@);
        },
    }
}

/// Applying a sequence of operations in order, starting from a state.
pub open spec fn apply_ops<T>(s: Seq<EntryView<T>>, ops: Seq<Op<T>>) -> Seq<EntryView<T>>
    decreases ops.len(),
{
    if ops.len() == 0 {
        s
    } else {
        spec_apply(apply_ops(s, ops.drop_last()), ops.last())
    }
}

/// No two inserts address the same identifier: what globally unique
/// allocation guarantees of any set of operations.
pub open spec fn unique_inserts<T>(ops: Seq<Op<T>>) -> bool {
    forall|i: int, j: int|
        0 <= i < j < ops.len() && is_insert(#[trigger] ops[i]) && is_insert(#[trigger] ops[j])
            ==> op_id(ops[i]) != op_id(ops[j])
}

/// Every delete comes after an insert of the identifier it addresses: what
/// causal delivery guarantees of a delivery order.
pub open spec fn causally_ordered<T>(ops: Seq<Op<T>>) -> bool {
    forall|j: int|
        0 <= j < ops.len() && !is_insert(#[trigger] ops[j]) ==> exists|i: int|
            0 <= i < j && is_insert(#[trigger] ops[i]) && op_id(ops[i]) == op_id(ops[j])
}

/// Some insert among the operations carries exactly this entry.
pub open spec fn has_insert_of<T>(ops: Seq<Op<T>>, t: EntryView<T>) -> bool {
    exists|i: int| 0 <= i < ops.len() && is_insert(#[trigger] ops[i]) && insert_triple(ops[i]) == t
}

/// Some delete among the operations addresses this identifier.
pub open spec fn has_delete_of<T>(ops: Seq<Op<T>>, idv: Seq<Position>) -> bool {
    exists|j: int| 0 <= j < ops.len() && !is_insert(#[trigger] ops[j]) && op_id(ops[j]) == idv
}

/// An entry that the operations insert and never delete.
pub open spec fn live<T>(ops: Seq<Op<T>>, t: EntryView<T>) -> bool {
    has_insert_of(ops, t) && !has_delete_of(ops, t.0)
}

/// Applied from the empty state in any causal order, a set of operations
/// with unique insert identifiers leaves exactly its live entries, sorted.
pub proof fn lemma_apply_ops_live<T>(ops: Seq<Op<T>>)
    requires
        unique_inserts(ops),
        causally_ordered(ops),
    ensures
        sorted_ids(apply_ops(Seq::<EntryView<T>>::empty(), ops)),
        forall|t: EntryView<T>|
            apply_ops(Seq::<EntryView<T>>::empty(), ops).contains(t) <==> live(ops, t),
    decreases ops.len(),
{
    let st = apply_ops(Seq::<EntryView<T>>::empty(), ops);
    if ops.len() == 0 {
        assert forall|t: EntryView<T>| st.contains(t) <==> live(ops, t) by {
            if st.contains(t) {
                let i = choose|i: int| 0 <= i < st.len() && st[i] == t;
                assert(false);
            }
            if live(ops, t) {
                let i = choose|i: int|
                    0 <= i < ops.len() && is_insert(ops[i]) && insert_triple(ops[i]) == t;
                assert(false);
            }
        }
    } else {
        let n = ops.len() as int;
        let pre = ops.drop_last();
        let op = ops.last();
        assert(forall|i: int| 0 <= i < n - 1 ==> pre[i] == ops[i]);
        assert(op == ops[n - 1]);
        assert(unique_inserts(pre));
        assert forall|j: int|
            0 <= j < pre.len() && !is_insert(#[trigger] pre[j]) implies exists|i: int|
            0 <= i < j && is_insert(#[trigger] pre[i]) && op_id(pre[i]) == op_id(pre[j]) by {
            assert(!is_insert(ops[j]));
            let i = choose|i: int|
                0 <= i < j && is_insert(#[trigger] ops[i]) && op_id(ops[i]) == op_id(ops[j]);
            assert(pre[i] == ops[i]);
            assert(is_insert(pre[i]) && op_id(pre[i]) == op_id(pre[j]));
        }
        lemma_apply_ops_live(pre);
        let stp = apply_ops(Seq::<EntryView<T>>::empty(), pre);
        lemma_apply_sorted(stp, op);
        assert(st == spec_apply(stp, op));
        if is_insert(op) {
            // the last insert's identifier is fresh in the prefix state
            if contains_id(stp, op_id(op)) {
                let m = choose|m: int| 0 <= m < stp.len() && stp[m].0 == op_id(op);
                let tm = stp[m];
                assert(stp.contains(tm));
                assert(live(pre, tm));
                let i = choose|i: int|
                    0 <= i < pre.len() && is_insert(#[trigger] pre[i]) && insert_triple(pre[i])
                        == tm;
                assert(op_id(ops[i]) == tm.0);
                assert(is_insert(ops[i]) && is_insert(ops[n - 1]));
                assert(false);
            }
            // nothing in the prefix deletes it either
            if has_delete_of(pre, op_id(op)) {
                let j = choose|j: int|
                    0 <= j < pre.len() && !is_insert(#[trigger] pre[j]) && op_id(pre[j]) == op_id(
                        op,
                    );
                assert(!is_insert(ops[j]));
                let i = choose|i: int|
                    0 <= i < j && is_insert(#[trigger] ops[i]) && op_id(ops[i]) == op_id(ops[j]);
                assert(is_insert(ops[i]) && is_insert(ops[n - 1]));
                assert(false);
            }
        }
        assert forall|t: EntryView<T>| st.contains(t) <==> live(ops, t) by {
            lemma_apply_contains(stp, op, t);
            // an insert or delete among all the operations is the last one or
            // sits in the prefix
            assert(has_insert_of(ops, t) <==> (has_insert_of(pre, t) || (is_insert(op)
                && insert_triple(op) == t))) by {
                if has_insert_of(pre, t) {
                    let i = choose|i: int|
                        0 <= i < pre.len() && is_insert(#[trigger] pre[i]) && insert_triple(pre[i])
                            == t;
                    assert(is_insert(ops[i]) && insert_triple(ops[i]) == t);
                }
                if is_insert(op) && insert_triple(op) == t {
                    assert(is_insert(ops[n - 1]) && insert_triple(ops[n - 1]) == t);
                }
                if has_insert_of(ops, t) {
                    let i = choose|i: int|
                        0 <= i < ops.len() && is_insert(#[trigger] ops[i]) && insert_triple(ops[i])
                            == t;
                    if i < n - 1 {
                        assert(is_insert(pre[i]) && insert_triple(pre[i]) == t);
                    }
                }
            }
            assert(has_delete_of(ops, t.0) <==> (has_delete_of(pre, t.0) || (!is_insert(op)
                && op_id(op) == t.0))) by {
                if has_delete_of(pre, t.0) {
                    let j = choose|j: int|
                        0 <= j < pre.len() && !is_insert(#[trigger] pre[j]) && op_id(pre[j])
                            == t.0;
                    assert(!is_insert(ops[j]) && op_id(ops[j]) == t.0);
                }
                if !is_insert(op) && op_id(op) == t.0 {
                    assert(!is_insert(ops[n - 1]) && op_id(ops[n - 1]) == t.0);
                }
                if has_delete_of(ops, t.0) {
                    let j = choose|j: int|
                        0 <= j < ops.len() && !is_insert(#[trigger] ops[j]) && op_id(ops[j])
                            == t.0;
                    if j < n - 1 {
                        assert(!is_insert(pre[j]) && op_id(pre[j]) == t.0);
                    }
                }
            }
            match op {
                Op::Insert { id, dot, c } => {
                    assert(op_id(op) == id@);
                    assert(insert_triple(op) == (id@, dot, c));
                    if t == (id@, dot, c) {
                        assert(st.contains(t));
                        assert(live(ops, t));
                    } else {
                        if st.contains(t) {
                            assert(stp.contains(t));
                            assert(live(pre, t));
                            if has_delete_of(ops, t.0) {
                                assert(has_delete_of(pre, t.0));
                                assert(false);
                            }
                            assert(live(ops, t));
                        }
                        if live(ops, t) {
                            assert(has_insert_of(pre, t));
                            assert(live(pre, t));
                            assert(stp.contains(t));
                            assert(st.contains(t));
                        }
                    }
                },
                Op::Delete { remote, id, dot } => {
                    assert(op_id(op) == id@);
                    if st.contains(t) {
                        assert(stp.contains(t) && t.0 != id@);
                        assert(live(pre, t));
                        assert(!has_delete_of(ops, t.0));
                        assert(live(ops, t));
                    }
                    if live(ops, t) {
                        assert(t.0 != id@);
                        assert(has_insert_of(pre, t));
                        assert(!has_delete_of(pre, t.0));
                        assert(live(pre, t));
                        assert(stp.contains(t));
                        assert(st.contains(t));
                    }
                },
            }
        }
    }
}

/// An operation found in one sequence is found in any rearrangement of it.
proof fn lemma_multiset_transfer<T>(ops1: Seq<Op<T>>, ops2: Seq<Op<T>>, op: Op<T>)
    requires
        ops1.to_multiset() == ops2.to_multiset(),
        ops1.contains(op),
    ensures
        ops2.contains(op),
{
    broadcast use vstd::seq_lib::group_to_multiset_ensures;

    assert(ops1.to_multiset().count(op) > 0);
}

/// Convergence: two replicas that start empty and apply the same multiset
/// of operations, each in some causal order, hold identical entries.
pub proof fn lemma_convergence<T>(ops1: Seq<Op<T>>, ops2: Seq<Op<T>>)
    requires
        unique_inserts(ops1),
        causally_ordered(ops1),
        unique_inserts(ops2),
        causally_ordered(ops2),
        ops1.to_multiset() == ops2.to_multiset(),
    ensures
        apply_ops(Seq::<EntryView<T>>::empty(), ops1) == apply_ops(
            Seq::<EntryView<T>>::empty(),
            ops2,
        ),
{
    lemma_apply_ops_live(ops1);
    lemma_apply_ops_live(ops2);
    assert forall|t: EntryView<T>| live(ops1, t) <==> live(ops2, t) by {
        if has_insert_of(ops1, t) {
            let i = choose|i: int|
                0 <= i < ops1.len() && is_insert(#[trigger] ops1[i]) && insert_triple(ops1[i])
                    == t;
            lemma_multiset_transfer(ops1, ops2, ops1[i]);
            let j = choose|j: int| 0 <= j < ops2.len() && ops2[j] == ops1[i];
            assert(is_insert(ops2[j]) && insert_triple(ops2[j]) == t);
        }
        if has_insert_of(ops2, t) {
            let i = choose|i: int|
                0 <= i < ops2.len() && is_insert(#[trigger] ops2[i]) && insert_triple(ops2[i])
                    == t;
            lemma_multiset_transfer(ops2, ops1, ops2[i]);
            let j = choose|j: int| 0 <= j < ops1.len() && ops1[j] == ops2[i];
            assert(is_insert(ops1[j]) && insert_triple(ops1[j]) == t);
        }
        if has_delete_of(ops1, t.0) {
            let i = choose|i: int|
                0 <= i < ops1.len() && !is_insert(#[trigger] ops1[i]) && op_id(ops1[i]) == t.0;
            lemma_multiset_transfer(ops1, ops2, ops1[i]);
            let j = choose|j: int| 0 <= j < ops2.len() && ops2[j] == ops1[i];
            assert(!is_insert(ops2[j]) && op_id(ops2[j]) == t.0);
        }
        if has_delete_of(ops2, t.0) {
            let i = choose|i: int|
                0 <= i < ops2.len() && !is_insert(#[trigger] ops2[i]) && op_id(ops2[i]) == t.0;
            lemma_multiset_transfer(ops2, ops1, ops2[i]);
            let j = choose|j: int| 0 <= j < ops1.len() && ops1[j] == ops2[i];
            assert(!is_insert(ops1[j]) && op_id(ops1[j]) == t.0);
        }
    }
    assert forall|t: EntryView<T>|
        apply_ops(Seq::<EntryView<T>>::empty(), ops1).contains(t) <==> apply_ops(
            Seq::<EntryView<T>>::empty(),
            ops2,
        ).contains(t) by {
        assert(apply_ops(Seq::<EntryView<T>>::empty(), ops1).contains(t) <==> live(ops1, t));
        assert(live(ops1, t) <==> live(ops2, t));
        assert(apply_ops(Seq::<EntryView<T>>::empty(), ops2).contains(t) <==> live(ops2, t));
    }
    lemma_sorted_same_entries(
        apply_ops(Seq::<EntryView<T>>::empty(), ops1),
        apply_ops(Seq::<EntryView<T>>::empty(), ops2),
    );
}

} // verus!
