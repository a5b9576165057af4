//! An LSEQ sequence CRDT: a replicated ordered sequence that independent
//! sites edit concurrently and that converges once all operations have been
//! exchanged, with no central coordinator.
//!
//! Every element is addressed by a dense, totally ordered identifier minted
//! by the per-site allocator in [`ident`]. The replica here is a thin ordered
//! container: local edits pick neighbour identifiers, mint a fresh one in
//! between, and emit an operation; remote operations are applied by ordered
//! lookup, inserting only absent identifiers and removing only present ones,
//! which makes application idempotent and, under causal delivery,
//! commutative.

pub mod ident;
pub mod laws;

use vstd::prelude::*;
use crate::ident::{
    allocatable, begin_id, end_id, id_lt, lemma_id_lt_asymmetric, lemma_id_lt_irreflexive,
    lemma_id_lt_transitive, IdentGen, Identifier, Position,
};

verus! {

/// What one stored entry looks like in contracts: identifier path, origin
/// dot, payload.
pub type EntryView<T> = (Seq<Position>, Dot, T);

/// Actor naming a site. The value `0` is reserved for the sentinels.
#[derive(Debug, Hash, Clone, Copy, PartialEq, Eq, PartialOrd, Ord)]
pub struct SiteId(u32);

impl View for SiteId {
    type V = u32;

    closed spec fn view(&self) -> u32 {
        self.0
    }
}

impl SiteId {
    /// Create a `SiteId` from a `u32`.
    pub fn new(id: u32) -> (s: SiteId)
        ensures
            s@ == id,
    {
        SiteId(id)
    }

    /// The raw site value.
    pub fn id(&self) -> (r: u32)
        ensures
            r == self@,
    {
        self.0
    }
}

impl Default for SiteId {
    /// The reserved sentinel site.
    fn default() -> (s: SiteId)
        ensures
            s@ == 0,
    {
        SiteId(0)
    }
}

/// Origin of an operation: the issuing site and its counter at issue time.
#[derive(Debug, Clone, Copy, PartialEq, Eq)]
pub struct Dot {
    /// The issuing site.
    pub actor: SiteId,
    /// The site's counter when the operation was issued.
    pub counter: u64,
}

/// One stored element: the identifier is the key, the dot names the insert
/// that created it, `c` is the payload.
#[derive(Debug, Clone)]
pub struct Entry<T> {
    /// The identifier of the entry.
    pub id: Identifier,
    /// The dot of the insertion that created the entry.
    pub dot: Dot,
    /// The element held by the entry.
    pub c: T,
}

impl<T> View for Entry<T> {
    type V = EntryView<T>;

    open spec fn view(&self) -> EntryView<T> {
        (self.id@, self.dot, self.c)
    }
}

/// Operations that can be performed on an LSEQ replica.
#[derive(Debug, Clone)]
pub enum Op<T> {
    /// Insert an element.
    Insert {
        /// Identifier to insert at.
        id: Identifier,
        /// Dot of the site that issued the insertion.
        dot: Dot,
        /// Element to insert.
        c: T,
    },
    /// Delete an element.
    Delete {
        /// The dot of the insertion being undone.
        remote: Dot,
        /// Identifier to remove.
        id: Identifier,
        /// Dot of the site that issued the delete.
        dot: Dot,
    },
}

/// Entries strictly ordered by identifier.
pub open spec fn sorted_ids<T>(s: Seq<EntryView<T>>) -> bool {
    forall|i: int, j: int|
        0 <= i < j < s.len() ==> id_lt(#[trigger] s[i].0, #[trigger] s[j].0)
}

/// Some entry carries this identifier.
pub open spec fn contains_id<T>(s: Seq<EntryView<T>>, idv: Seq<Position>) -> bool {
    exists|i: int| 0 <= i < s.len() && (#[trigger] s[i]).0 == idv
}

/// How many leading entries order strictly below `idv`: in a sorted
/// sequence, the position where `idv` lives or would be inserted.
pub open spec fn rank<T>(s: Seq<EntryView<T>>, idv: Seq<Position>) -> int
    decreases s.len(),
{
    if s.len() == 0 {
        0
    } else if id_lt(s[0].0, idv) {
        1 + rank(s.skip(1), idv)
    } else {
        0
    }
}

/// Effect of applying an insert: new entry at its rank, unless the
/// identifier is already present, in which case nothing changes.
pub open spec fn spec_insert<T>(s: Seq<EntryView<T>>, t: EntryView<T>) -> Seq<EntryView<T>> {
    if contains_id(s, t.0) {
        s
    } else {
        s.insert(rank(s, t.0), t)
    }
}

/// Effect of applying a delete: the entry with this identifier goes, and an
/// absent identifier changes nothing.
pub open spec fn spec_delete<T>(s: Seq<EntryView<T>>, idv: Seq<Position>) -> Seq<EntryView<T>> {
    if contains_id(s, idv) {
        s.remove(rank(s, idv))
    } else {
        s
    }
}

/// Effect of applying any operation.
pub open spec fn spec_apply<T>(s: Seq<EntryView<T>>, op: Op<T>) -> Seq<EntryView<T>> {
    match op {
        Op::Insert { id, dot, c } => spec_insert(s, (id@, dot, c)),
        Op::Delete { remote, id, dot } => spec_delete(s, id@),
    }
}

/// An operation a replica may be asked to apply: an insert must carry an
/// identifier that allocation could have produced, strictly between the
/// sentinels; any delete is acceptable.
pub open spec fn op_ok<T>(op: Op<T>) -> bool {
    match op {
        Op::Insert { id, dot, c } => allocatable(id@) && id_lt(begin_id(), id@) && id_lt(
            id@,
            end_id(),
        ),
        Op::Delete { remote, id, dot } => true,
    }
}

/// Whether a replica may be asked to apply this operation: exactly the
/// condition `apply` requires of its argument, decided at run time for
/// callers that receive operations from outside.
pub fn op_applicable<T: Copy>(op: &Op<T>) -> (b: bool)
    ensures
        b == op_ok::<T>(*op),
{
    match op {
        Op::Insert { id, dot, c } => {
            let g = IdentGen::new(0);
            let lo = g.lower();
            let hi = g.upper();
            id.check_allocatable() && lo.lt(id) && id.lt(&hi)
        },
        Op::Delete { remote, id, dot } => true,
    }
}

/// The payloads of the entries, in storage order.
pub open spec fn payloads<T>(s: Seq<EntryView<T>>) -> Seq<T> {
    s.map_values(|t: EntryView<T>| t.2)
}

pub proof fn lemma_rank_bounds<T>(s: Seq<EntryView<T>>, idv: Seq<Position>)
    ensures
        0 <= rank(s, idv) <= s.len(),
    decreases s.len(),
{
    if s.len() > 0 && id_lt(s[0].0, idv) {
        lemma_rank_bounds(s.skip(1), idv);
    }
}

/// In a sorted sequence the rank splits the entries: everything before it is
/// strictly below `idv`, and the entry at it (if any) is not.
pub proof fn lemma_rank_split<T>(s: Seq<EntryView<T>>, idv: Seq<Position>)
    requires
        sorted_ids(s),
    ensures
        0 <= rank(s, idv) <= s.len(),
        forall|j: int| 0 <= j < rank(s, idv) ==> id_lt(#[trigger] s[j].0, idv),
        rank(s, idv) < s.len() ==> !id_lt(s[rank(s, idv)].0, idv),
    decreases s.len(),
{
    lemma_rank_bounds(s, idv);
    if s.len() > 0 && id_lt(s[0].0, idv) {
        assert(sorted_ids(s.skip(1))) by {
            assert(forall|i: int, j: int|
                0 <= i < j < s.skip(1).len() ==> id_lt(
                    #[trigger] s.skip(1)[i].0,
                    #[trigger] s.skip(1)[j].0,
                )) by {
                assert(forall|i: int| 0 <= i < s.skip(1).len() ==> s.skip(1)[i] == s[i + 1]);
            }
        }
        lemma_rank_split(s.skip(1), idv);
        assert(forall|j: int| 0 <= j < rank(s, idv) && j >= 1 ==> s[j] == s.skip(1)[j - 1]);
        assert(rank(s, idv) < s.len() ==> s[rank(s, idv)] == s.skip(1)[rank(s, idv) - 1]);
    }
}

/// The rank is the unique split point of a sorted sequence.
pub proof fn lemma_rank_is<T>(s: Seq<EntryView<T>>, idv: Seq<Position>, k: int)
    requires
        sorted_ids(s),
        0 <= k <= s.len(),
        forall|j: int| 0 <= j < k ==> id_lt(#[trigger] s[j].0, idv),
        k < s.len() ==> !id_lt(s[k].0, idv),
    ensures
        rank(s, idv) == k,
{
    lemma_rank_split(s, idv);
    let r = rank(s, idv);
    if r < k {
        assert(id_lt(s[r].0, idv));
        assert(false);
    }
    if k < r {
        assert(id_lt(s[k].0, idv));
        assert(false);
    }
}

/// In a sorted sequence, an identifier is present exactly when the entry at
/// its rank carries it.
pub proof fn lemma_contains_at_rank<T>(s: Seq<EntryView<T>>, idv: Seq<Position>)
    requires
        sorted_ids(s),
    ensures
        contains_id(s, idv) <==> (rank(s, idv) < s.len() && s[rank(s, idv)].0 == idv),
{
    lemma_rank_split(s, idv);
    let r = rank(s, idv);
    if contains_id(s, idv) {
        let m = choose|m: int| 0 <= m < s.len() && s[m].0 == idv;
        lemma_id_lt_irreflexive(idv);
        if m < r {
            assert(id_lt(s[m].0, idv));
            assert(false);
        }
        if m > r {
            assert(id_lt(s[r].0, s[m].0));
            lemma_id_lt_asymmetric(s[r].0, idv);
            assert(false);
        }
    }
}

/// An LSEQ replica: entries sorted by identifier, the site's allocator, and
/// the site's dot (the counter its next operation will carry).
pub struct LSeq<T> {
    seq: Vec<Entry<T>>,
    gen: IdentGen,
    dot: Dot,
}

impl<T: Copy> LSeq<T> {
    /// The entries as contracts speak of them, in storage order.
    pub closed spec fn view(&self) -> Seq<EntryView<T>> {
        self.seq@.map_values(|e: Entry<T>| e@)
    }

    /// The owning site.
    pub closed spec fn site(&self) -> u32 {
        self.gen.site()
    }

    /// The counter the next local operation will carry.
    pub closed spec fn counter(&self) -> u64 {
        self.dot.counter
    }

    /// Well-formedness: entries strictly sorted by identifier, every
    /// identifier allocatable and strictly between the sentinels, and the
    /// local dot anchored to the owning site.
    pub closed spec fn wf(&self) -> bool {
        &&& sorted_ids(self@)
        &&& forall|i: int|
            0 <= i < self@.len() ==> allocatable(#[trigger] self@[i].0) && id_lt(
                begin_id(),
                self@[i].0,
            ) && id_lt(self@[i].0, end_id())
        &&& self.dot.actor@ == self.gen.site()
    }

    /// Storage order is strict identifier order: adjacent entries ascend.
    pub proof fn lemma_wf_sorted(&self)
        requires
            self.wf(),
        ensures
            sorted_ids(self@),
            forall|i: int|
                0 <= i < self@.len() ==> allocatable(#[trigger] self@[i].0) && id_lt(
                    begin_id(),
                    self@[i].0,
                ) && id_lt(self@[i].0, end_id()),
    {
    }

    /// An empty replica owned by `site`.
    pub fn new(site: SiteId) -> (l: LSeq<T>)
        ensures
            l.wf(),
            l@ == Seq::<EntryView<T>>::empty(),
            l.site() == site@,
            l.counter() == 0,
    {
        let gen = IdentGen::new(site.0);
        let l = LSeq { seq: Vec::new(), gen, dot: Dot { actor: site, counter: 0 } };
        proof {
            assert(l@ =~= Seq::<EntryView<T>>::empty());
        }
        l
    }

    /// Binary search for the first storage position whose identifier is not
    /// below `id`.
    #[verifier::loop_isolation(false)]
    fn find_rank(&self, id: &Identifier) -> (k: usize)
        requires
            self.wf(),
        ensures
            k == rank(self@, id@),
    {
        let mut lo: usize = 0;
        let mut hi: usize = self.seq.len();
        while lo < hi
            invariant
                lo <= hi <= self@.len(),
                forall|j: int| 0 <= j < lo ==> id_lt(#[trigger] self@[j].0, id@),
                forall|j: int| hi <= j < self@.len() ==> !id_lt(#[trigger] self@[j].0, id@),
            decreases hi - lo,
        {
            let mid = lo + (hi - lo) / 2;
            if self.seq[mid].id.lt(id) {
                proof {
                    assert forall|j: int| 0 <= j < mid + 1 implies id_lt(
                        #[trigger] self@[j].0,
                        id@,
                    ) by {
                        if j < mid {
                            lemma_id_lt_transitive(self@[j].0, self@[mid as int].0, id@);
                        }
                    }
                }
                lo = mid + 1;
            } else {
                proof {
                    assert forall|j: int| mid <= j < self@.len() implies !id_lt(
                        #[trigger] self@[j].0,
                        id@,
                    ) by {
                        if j > mid && id_lt(self@[j].0, id@) {
                            lemma_id_lt_transitive(self@[mid as int].0, self@[j].0, id@);
                        }
                    }
                }
                hi = mid;
            }
        }
        proof {
            lemma_rank_is(self@, id@, lo as int);
        }
        lo
    }

    /// Insert an identifier, dot and element; a no-op when the identifier is
    /// already present.
    pub fn insert(&mut self, ix: Identifier, dot: Dot, c: T)
        requires
            old(self).wf(),
            allocatable(ix@),
            id_lt(begin_id(), ix@),
            id_lt(ix@, end_id()),
        ensures
            final(self).wf(),
            final(self)@ == spec_insert(old(self)@, (ix@, dot, c)),
            final(self).site() == old(self).site(),
            final(self).counter() == old(self).counter(),
    {
        let ghost s0 = self@;
        let k = self.find_rank(&ix);
        proof {
            lemma_rank_bounds(s0, ix@);
            lemma_contains_at_rank(s0, ix@);
        }
        if k < self.seq.len() && self.seq[k].id.same_as(&ix) {
            // present already: inserts only matter for absent identifiers
            assert(contains_id(s0, ix@));
        } else {
            assert(!contains_id(s0, ix@));
            let e = Entry { id: ix, dot, c };
            self.seq.insert(k, e);
            proof {
                let t = (e.id@, dot, c);
                assert(self@ =~= s0.insert(k as int, t)) by {
                    assert(forall|m: int|
                        0 <= m < self@.len() ==> self@[m] == (#[trigger] self.seq@[m])@);
                }
                assert(self@ == spec_insert(s0, t));
                crate::laws::lemma_spec_insert_sorted(s0, t);
            }
        }
    }

    /// Remove the entry carrying this identifier; a no-op when absent.
    pub fn delete(&mut self, ix: Identifier)
        requires
            old(self).wf(),
        ensures
            final(self).wf(),
            final(self)@ == spec_delete(old(self)@, ix@),
            final(self).site() == old(self).site(),
            final(self).counter() == old(self).counter(),
    {
        let ghost s0 = self@;
        let k = self.find_rank(&ix);
        proof {
            lemma_rank_bounds(s0, ix@);
            lemma_contains_at_rank(s0, ix@);
        }
        if k < self.seq.len() && self.seq[k].id.same_as(&ix) {
            assert(contains_id(s0, ix@));
            let _ = self.seq.remove(k);
            proof {
                assert(self@ =~= s0.remove(k as int)) by {
                    assert(forall|m: int|
                        0 <= m < self@.len() ==> self@[m] == (#[trigger] self.seq@[m])@);
                }
                assert(self@ == spec_delete(s0, ix@));
                crate::laws::lemma_spec_delete_sorted(s0, ix@);
            }
        } else {
            assert(!contains_id(s0, ix@));
        }
    }

    /// Apply an operation: insert only if absent, delete only if present.
    pub fn apply(&mut self, op: Op<T>)
        requires
            old(self).wf(),
            op_ok(op),
        ensures
            final(self).wf(),
            final(self)@ == spec_apply(old(self)@, op),
            final(self).site() == old(self).site(),
            final(self).counter() == old(self).counter(),
    {
        match op {
            Op::Insert { id, dot, c } => {
                self.insert(id, dot, c);
            },
            Op::Delete { remote, id, dot } => {
                self.delete(id);
            },
        }
    }

    /// Perform a local insertion of an element at a given position, apply it
    /// and return the operation for other replicas. An index past the end
    /// appends.
    pub fn insert_index(&mut self, ix: usize, c: T) -> (op: Op<T>)
        requires
            old(self).wf(),
            old(self).counter() < u64::MAX,
        ensures
            final(self).wf(),
            final(self).site() == old(self).site(),
            final(self).counter() == old(self).counter() + 1,
            match op {
                Op::Insert { id, dot, c: c2 } => {
                    &&& c2 == c
                    &&& dot.actor@ == old(self).site()
                    &&& dot.counter == old(self).counter()
                    &&& allocatable(id@)
                    &&& id_lt(begin_id(), id@)
                    &&& id_lt(id@, end_id())
                    &&& id@.last().site == old(self).site()
                    &&& !contains_id(old(self)@, id@)
                    &&& final(self)@ == old(self)@.insert(
                        if ix < old(self)@.len() {
                            ix as int
                        } else {
                            old(self)@.len() as int
                        },
                        (id@, dot, c),
                    )
                },
                Op::Delete { .. } => false,
            },
    {
        let ghost s0 = self@;
        let len = self.seq.len();
        let k: usize = if ix < len {
            ix
        } else {
            len
        };
        proof {
            assert(id_lt(begin_id(), end_id()));
        }
        let prev: Identifier = if k == 0 {
            self.gen.lower()
        } else {
            self.seq[k - 1].id.duplicate()
        };
        let next: Identifier = if k == len {
            self.gen.upper()
        } else {
            self.seq[k].id.duplicate()
        };
        proof {
            assert(forall|m: int| 0 <= m < s0.len() ==> (#[trigger] s0[m]) == self.seq@[m]@);
            if k > 0 {
                assert(prev@ == s0[k - 1].0);
            }
            if k < len {
                assert(next@ == s0[k as int].0);
            }
            if k > 0 && k < len {
                assert(id_lt(prev@, next@));
            }
        }
        let fresh = self.gen.allocate(&prev, &next);
        proof {
            // the fresh identifier lies strictly between the sentinels
            if k > 0 {
                lemma_id_lt_transitive(begin_id(), prev@, fresh@);
            }
            if k < len {
                lemma_id_lt_transitive(fresh@, next@, end_id());
            }
            // and strictly between all its predecessors and successors
            assert forall|j: int| 0 <= j < k implies id_lt(
                #[trigger] s0[j].0,
                fresh@,
            ) by {
                if j < k - 1 {
                    lemma_id_lt_transitive(s0[j].0, prev@, fresh@);
                }
            }
            if k < len {
                assert(!id_lt(s0[k as int].0, fresh@)) by {
                    lemma_id_lt_asymmetric(fresh@, next@);
                }
            }
            lemma_rank_is(s0, fresh@, k as int);
            lemma_contains_at_rank(s0, fresh@);
            if contains_id(s0, fresh@) {
                lemma_id_lt_irreflexive(fresh@);
                assert(false);
            }
        }
        let dot = self.dot;
        let id2 = fresh.duplicate();
        self.dot.counter = self.dot.counter + 1;
        self.insert(fresh, dot, c);
        Op::Insert { id: id2, dot, c }
    }

    /// Perform a local deletion at `ix`, apply it and return the operation
    /// for other replicas. An out-of-range index produces no operation.
    pub fn delete_index(&mut self, ix: usize) -> (r: Option<Op<T>>)
        requires
            old(self).wf(),
            old(self).counter() < u64::MAX,
        ensures
            final(self).wf(),
            final(self).site() == old(self).site(),
            ix < old(self)@.len() ==> {
                &&& final(self)@ == old(self)@.remove(ix as int)
                &&& final(self).counter() == old(self).counter() + 1
                &&& match r {
                    Some(Op::Delete { remote, id, dot }) => {
                        &&& id@ == old(self)@[ix as int].0
                        &&& remote == old(self)@[ix as int].1
                        &&& dot.actor@ == old(self).site()
                        &&& dot.counter == old(self).counter()
                    },
                    _ => false,
                }
            },
            ix >= old(self)@.len() ==> r is None && *final(self) == *old(self),
    {
        let ghost s0 = self@;
        if ix >= self.seq.len() {
            return None;
        }
        let id = self.seq[ix].id.duplicate();
        let id2 = self.seq[ix].id.duplicate();
        let remote = self.seq[ix].dot;
        let dot = self.dot;
        self.dot.counter = self.dot.counter + 1;
        proof {
            assert(forall|m: int| 0 <= m < s0.len() ==> (#[trigger] s0[m]) == self.seq@[m]@);
            assert(id@ == s0[ix as int].0);
            assert(id2@ == s0[ix as int].0);
            lemma_id_lt_irreflexive(id@);
            lemma_rank_is(s0, id@, ix as int);
            lemma_contains_at_rank(s0, id@);
        }
        self.delete(id);
        Some(Op::Delete { remote, id: id2, dot })
    }

    /// Perform a local insertion of an element at a given position; an index
    /// past the end appends.
    pub fn local_insert(&mut self, ix: usize, c: T) -> (op: Op<T>)
        requires
            old(self).wf(),
            old(self).counter() < u64::MAX,
        ensures
            final(self).wf(),
            final(self).site() == old(self).site(),
            final(self).counter() == old(self).counter() + 1,
            match op {
                Op::Insert { id, dot, c: c2 } => {
                    &&& c2 == c
                    &&& dot.actor@ == old(self).site()
                    &&& dot.counter == old(self).counter()
                    &&& allocatable(id@)
                    &&& id_lt(begin_id(), id@)
                    &&& id_lt(id@, end_id())
                    &&& id@.last().site == old(self).site()
                    &&& !contains_id(old(self)@, id@)
                    &&& final(self)@ == old(self)@.insert(
                        if ix < old(self)@.len() {
                            ix as int
                        } else {
                            old(self)@.len() as int
                        },
                        (id@, dot, c),
                    )
                },
                Op::Delete { .. } => false,
            },
    {
        self.insert_index(ix, c)
    }

    /// Perform a local deletion at `ix`; an out-of-range index produces no
    /// operation rather than deleting anything else.
    pub fn local_delete(&mut self, ix: usize) -> (r: Option<Op<T>>)
        requires
            old(self).wf(),
            old(self).counter() < u64::MAX,
        ensures
            final(self).wf(),
            final(self).site() == old(self).site(),
            ix < old(self)@.len() ==> {
                &&& final(self)@ == old(self)@.remove(ix as int)
                &&& final(self).counter() == old(self).counter() + 1
                &&& match r {
                    Some(Op::Delete { remote, id, dot }) => {
                        &&& id@ == old(self)@[ix as int].0
                        &&& remote == old(self)@[ix as int].1
                        &&& dot.actor@ == old(self).site()
                        &&& dot.counter == old(self).counter()
                    },
                    _ => false,
                }
            },
            ix >= old(self)@.len() ==> r is None && *final(self) == *old(self),
    {
        self.delete_index(ix)
    }

    /// The stored elements, in order.
    #[verifier::loop_isolation(false)]
    pub fn iter(&self) -> (r: Vec<T>)
        ensures
            r@ == payloads(self@),
    {
        let mut r: Vec<T> = Vec::new();
        let mut i: usize = 0;
        while i < self.seq.len()
            invariant
                i <= self@.len(),
                r@ =~= payloads(self@).take(i as int),
            decreases self@.len() - i,
        {
            r.push(self.seq[i].c);
            proof {
                assert(payloads(self@)[i as int] == self@[i as int].2);
            }
            i += 1;
        }
        proof {
            assert(payloads(self@).take(self@.len() as int) =~= payloads(self@));
        }
        r
    }

    /// The stored elements, in order.
    pub fn sequence(&self) -> (r: Vec<T>)
        ensures
            r@ == payloads(self@),
    {
        self.iter()
    }

    /// Access the internal representation of the replica.
    pub fn raw_entries(&self) -> (r: &Vec<Entry<T>>)
        ensures
            r@.len() == self@.len(),
            forall|i: int| 0 <= i < self@.len() ==> (#[trigger] r@[i])@ == self@[i],
    {
        &self.seq
    }

    /// Number of stored elements.
    pub fn len(&self) -> (n: usize)
        ensures
            n == self@.len(),
    {
        proof {
            assert(self@.len() == self.seq@.len());
        }
        self.seq.len()
    }

    /// Whether the replica stores nothing.
    pub fn is_empty(&self) -> (b: bool)
        ensures
            b == (self@.len() == 0),
    {
        self.len() == 0
    }
}

} // verus!
