//! Identifiers: dense, totally ordered paths into an exponential tree, and the
//! per-site allocator that mints a fresh identifier strictly between two others.
//!
//! An identifier is a non-empty sequence of positions. The position at depth
//! `k` carries an index drawn from `[0, width(k))`, where the width doubles
//! with each level, together with the site that allocated it. Identifiers are
//! compared lexicographically by position, a strict prefix ordering below its
//! extensions; positions compare by index first, then by site.

use vstd::prelude::*;
use vstd::arithmetic::power2::*;
use vstd::bits::*;
use rand::Rng;

verus! {

/// Bound on the random step taken from the chosen boundary of a gap.
pub const BOUNDARY: u64 = 10;

/// One level of an identifier path: a child index and the allocating site.
#[derive(Clone, Copy, PartialEq, Eq, Structural, Debug, Hash)]
pub struct Position {
    /// Child index at this depth; valid values lie in `[0, width(depth))`.
    pub index: u64,
    /// Site that allocated this position.
    pub site: u32,
}

/// Exponent of the index space at depth `d`, capped so widths fit in a `u64`.
pub open spec fn width_exp(d: int) -> nat {
    if d >= 59 {
        62
    } else if d >= 0 {
        (3 + d) as nat
    } else {
        3
    }
}

/// Size of the index space at depth `d`: `2^(3+d)`, capped at `2^62`.
pub open spec fn width(d: int) -> int {
    pow2(width_exp(d)) as int
}

pub proof fn lemma_width_bounds(d: int)
    ensures
        8 <= width(d) <= 0x4000000000000000,
{
    lemma2_to64();
    lemma2_to64_rest();
    if width_exp(d) > 3 {
        lemma_pow2_strictly_increases(3, width_exp(d));
    }
    if width_exp(d) < 62 {
        lemma_pow2_strictly_increases(width_exp(d), 62);
    }
}

/// Executable width of the index space at depth `d`.
pub fn width_at(d: usize) -> (w: u64)
    ensures
        w == width(d as int),
{
    let e: u64 = if d >= 59 {
        62
    } else {
        3 + (d as u64)
    };
    proof {
        lemma_u64_pow2_no_overflow(e as nat);
        lemma_u64_shl_is_mul(1u64, e);
        lemma_width_bounds(d as int);
    }
    1u64 << e
}

/// Strict order on positions: by index, then by site.
pub open spec fn pos_lt(a: Position, b: Position) -> bool {
    a.index < b.index || (a.index == b.index && a.site < b.site)
}

/// Strict lexicographic order on identifier paths; a strict prefix is smaller.
pub open spec fn id_lt(a: Seq<Position>, b: Seq<Position>) -> bool
    decreases a.len(),
{
    if a.len() == 0 {
        b.len() > 0
    } else if b.len() == 0 {
        false
    } else if a[0] == b[0] {
        id_lt(a.skip(1), b.skip(1))
    } else {
        pos_lt(a[0], b[0])
    }
}

/// Range validity: non-empty, and every index within the width of its depth.
pub open spec fn id_wf(a: Seq<Position>) -> bool {
    a.len() > 0 && forall|k: int| 0 <= k < a.len() ==> (#[trigger] a[k].index) < width(k)
}

/// An identifier that may serve as an upper allocation bound: its last
/// index is above the minimum, so room exists below it at its own depth.
pub open spec fn allocatable(a: Seq<Position>) -> bool {
    id_wf(a) && a.last().index >= 1
}

/// The low sentinel `[(0, 0)]`, below every allocated identifier.
pub open spec fn begin_id() -> Seq<Position> {
    seq![(Position { index: 0, site: 0 })]
}

/// The high sentinel `[(7, 0)]`, above every allocated identifier.
pub open spec fn end_id() -> Seq<Position> {
    seq![(Position { index: 7, site: 0 })]
}

pub proof fn lemma_id_lt_irreflexive(a: Seq<Position>)
    ensures
        !id_lt(a, a),
    decreases a.len(),
{
    if a.len() > 0 {
        lemma_id_lt_irreflexive(a.skip(1));
    }
}

pub proof fn lemma_id_lt_asymmetric(a: Seq<Position>, b: Seq<Position>)
    requires
        id_lt(a, b),
    ensures
        !id_lt(b, a),
    decreases a.len(),
{
    if a.len() > 0 && b.len() > 0 && a[0] == b[0] {
        lemma_id_lt_asymmetric(a.skip(1), b.skip(1));
    }
}

pub proof fn lemma_id_lt_transitive(a: Seq<Position>, b: Seq<Position>, c: Seq<Position>)
    requires
        id_lt(a, b),
        id_lt(b, c),
    ensures
        id_lt(a, c),
    decreases a.len(),
{
    if a.len() == 0 {
        if c.len() == 0 {
            assert(!id_lt(b, c));
        }
    } else if b.len() == 0 {
        assert(false);
    } else if c.len() == 0 {
        assert(!id_lt(b, c));
    } else {
        if a[0] == b[0] && b[0] == c[0] {
            lemma_id_lt_transitive(a.skip(1), b.skip(1), c.skip(1));
        }
    }
}

/// Two paths are either ordered one way, the other way, or equal.
pub proof fn lemma_id_lt_connected(a: Seq<Position>, b: Seq<Position>)
    ensures
        id_lt(a, b) || id_lt(b, a) || a == b,
    decreases a.len(),
{
    if a.len() == 0 {
        if b.len() == 0 {
            assert(a =~= b);
        }
    } else if b.len() == 0 {
    } else if a[0] == b[0] {
        lemma_id_lt_connected(a.skip(1), b.skip(1));
        if a.skip(1) == b.skip(1) {
            assert(a.skip(1).len() == b.skip(1).len());
            assert(a.len() == b.len());
            assert forall|i: int| 0 <= i < a.len() implies a[i] == b[i] by {
                if i >= 1 {
                    assert(a.skip(1)[i - 1] == a[i]);
                    assert(b.skip(1)[i - 1] == b[i]);
                }
            }
            assert(a =~= b);
        }
    }
}

/// A strict prefix is strictly below every extension of it.
pub proof fn lemma_prefix_lt(a: Seq<Position>, b: Seq<Position>)
    requires
        a.len() < b.len(),
        a == b.take(a.len() as int),
    ensures
        id_lt(a, b),
    decreases a.len(),
{
    if a.len() > 0 {
        assert(a[0] == b.take(a.len() as int)[0]);
        assert(a.skip(1) =~= b.skip(1).take(a.len() - 1));
        lemma_prefix_lt(a.skip(1), b.skip(1));
    }
}

/// Nothing is strictly below one of its own prefixes.
pub proof fn lemma_not_lt_prefix(a: Seq<Position>, b: Seq<Position>)
    requires
        b.len() <= a.len(),
        b == a.take(b.len() as int),
    ensures
        !id_lt(a, b),
{
    if b.len() == a.len() {
        assert(a =~= b);
        lemma_id_lt_irreflexive(a);
    } else {
        lemma_prefix_lt(b, a);
        lemma_id_lt_asymmetric(b, a);
    }
}

/// Paths that share a prefix and then diverge order by the first divergence.
pub proof fn lemma_diverge_lt(a: Seq<Position>, b: Seq<Position>, k: int)
    requires
        0 <= k < a.len(),
        k < b.len(),
        a.take(k) == b.take(k),
        pos_lt(a[k], b[k]),
    ensures
        id_lt(a, b),
    decreases k,
{
    if k == 0 {
        assert(a[0] != b[0]);
    } else {
        assert(a[0] == a.take(k)[0]);
        assert(a.take(k)[0] == b.take(k)[0]);
        assert(a.skip(1).take(k - 1) =~= a.take(k).skip(1));
        assert(b.skip(1).take(k - 1) =~= b.take(k).skip(1));
        assert(a.skip(1)[k - 1] == a[k]);
        lemma_diverge_lt(a.skip(1), b.skip(1), k - 1);
    }
}

/// A path whose positions run below `q` somewhere before either ends: every
/// extension of it stays below `q`.
pub open spec fn ext_lt(a: Seq<Position>, q: Seq<Position>) -> bool {
    exists|k: int|
        0 <= k < a.len() && k < q.len() && a.take(k) == q.take(k) && pos_lt(a[k], q[k])
}

pub proof fn lemma_ext_lt(a: Seq<Position>, q: Seq<Position>, r: Seq<Position>)
    requires
        ext_lt(a, q),
        a.len() <= r.len(),
        a == r.take(a.len() as int),
    ensures
        id_lt(r, q),
{
    let k = choose|k: int|
        0 <= k < a.len() && k < q.len() && a.take(k) == q.take(k) && pos_lt(a[k], q[k]);
    assert(r.take(k) =~= a.take(k));
    assert(r[k] == a[k]);
    lemma_diverge_lt(r, q, k);
}

pub proof fn lemma_ext_lt_push(a: Seq<Position>, q: Seq<Position>, x: Position)
    requires
        ext_lt(a, q),
    ensures
        ext_lt(a.push(x), q),
{
    let k = choose|k: int|
        0 <= k < a.len() && k < q.len() && a.take(k) == q.take(k) && pos_lt(a[k], q[k]);
    assert(a.push(x).take(k) =~= a.take(k));
    assert(a.push(x)[k] == a[k]);
}

/// Below the first divergence of two ordered paths, positions agree or order.
pub proof fn lemma_lt_at_common_prefix(a: Seq<Position>, b: Seq<Position>, k: int)
    requires
        id_lt(a, b),
        0 <= k < a.len(),
        k < b.len(),
        a.take(k) == b.take(k),
    ensures
        pos_lt(a[k], b[k]) || a[k] == b[k],
    decreases k,
{
    if a[k] != b[k] && !pos_lt(a[k], b[k]) {
        // then b[k] < a[k], so b < a, contradicting asymmetry
        assert(pos_lt(b[k], a[k]));
        assert(b.take(k) == a.take(k));
        lemma_diverge_lt(b, a, k);
        lemma_id_lt_asymmetric(a, b);
        assert(false);
    }
}

/// Why identifier construction can be refused.
#[derive(Clone, Copy, Debug, PartialEq, Eq, Structural)]
pub enum IdentError {
    /// An identifier must hold at least one position.
    Empty,
    /// A position's index does not fit the width of its depth.
    IndexOutOfRange,
}

/// A path from the root of the conceptual exponential tree: the stable,
/// globally unique address of one element of the sequence.
#[derive(Clone, Debug)]
pub struct Identifier {
    positions: Vec<Position>,
}

impl View for Identifier {
    type V = Seq<Position>;

    closed spec fn view(&self) -> Seq<Position> {
        self.positions@
    }
}

impl Identifier {
    /// Build an identifier from positions, refusing malformed paths.
    #[verifier::loop_isolation(false)]
    pub fn new(positions: Vec<Position>) -> (r: Result<Identifier, IdentError>)
        ensures
            match r {
                Ok(id) => id@ == positions@ && id_wf(positions@),
                Err(IdentError::Empty) => positions@.len() == 0,
                Err(IdentError::IndexOutOfRange) => !id_wf(positions@) && positions@.len() > 0,
            },
    {
        if positions.len() == 0 {
            return Err(IdentError::Empty);
        }
        let mut k: usize = 0;
        while k < positions.len()
            invariant
                k <= positions@.len(),
                forall|i: int| 0 <= i < k ==> (#[trigger] positions@[i].index) < width(i),
            decreases positions@.len() - k,
        {
            let w = width_at(k);
            if positions[k].index >= w {
                return Err(IdentError::IndexOutOfRange);
            }
            k += 1;
        }
        Ok(Identifier { positions })
    }

    /// The number of positions in the path.
    pub fn depth(&self) -> (n: usize)
        ensures
            n == self@.len(),
    {
        self.positions.len()
    }

    /// The position at depth `k`.
    pub fn position(&self, k: usize) -> (p: Position)
        requires
            k < self@.len(),
        ensures
            p == self@[k as int],
    {
        self.positions[k]
    }

    /// Whether this path could have come from allocation: well-formed, with
    /// a final index above the minimum.
    #[verifier::loop_isolation(false)]
    pub fn check_allocatable(&self) -> (b: bool)
        ensures
            b == allocatable(self@),
    {
        let n = self.positions.len();
        if n == 0 {
            return false;
        }
        let mut k: usize = 0;
        while k < n
            invariant
                k <= n,
                forall|i: int| 0 <= i < k ==> (#[trigger] self@[i].index) < width(i),
            decreases n - k,
        {
            let w = width_at(k);
            if self.positions[k].index >= w {
                assert(!id_wf(self@));
                return false;
            }
            k += 1;
        }
        self.positions[n - 1].index >= 1
    }

    /// An identical copy, position for position.
    #[verifier::loop_isolation(false)]
    pub fn duplicate(&self) -> (r: Identifier)
        ensures
            r@ == self@,
    {
        let mut positions: Vec<Position> = Vec::new();
        let mut k: usize = 0;
        while k < self.positions.len()
            invariant
                k <= self@.len(),
                positions@ =~= self@.take(k as int),
            decreases self@.len() - k,
        {
            positions.push(self.positions[k]);
            k += 1;
        }
        assert(positions@ =~= self@);
        Identifier { positions }
    }

    /// Strict comparison in the identifier order.
    #[verifier::loop_isolation(false)]
    pub fn lt(&self, other: &Identifier) -> (r: bool)
        ensures
            r == id_lt(self@, other@),
    {
        let a = &self.positions;
        let b = &other.positions;
        let n: usize = if a.len() < b.len() {
            a.len()
        } else {
            b.len()
        };
        let mut i: usize = 0;
        while i < n
            invariant
                n <= a@.len(),
                n <= b@.len(),
                i <= n,
                a@.take(i as int) == b@.take(i as int),
            decreases n - i,
        {
            let x = a[i];
            let y = b[i];
            if x.index < y.index || (x.index == y.index && x.site < y.site) {
                proof {
                    lemma_diverge_lt(a@, b@, i as int);
                }
                return true;
            }
            if y.index < x.index || (y.index == x.index && y.site < x.site) {
                proof {
                    lemma_diverge_lt(b@, a@, i as int);
                    lemma_id_lt_asymmetric(b@, a@);
                }
                return false;
            }
            proof {
                assert(a@.take(i + 1) =~= b@.take(i + 1));
            }
            i += 1;
        }
        if a.len() < b.len() {
            proof {
                assert(a@ =~= a@.take(n as int));
                lemma_prefix_lt(a@, b@);
            }
            true
        } else {
            proof {
                assert(b@ =~= b@.take(n as int));
                lemma_not_lt_prefix(a@, b@);
            }
            false
        }
    }

    /// Equality of the two paths.
    #[verifier::loop_isolation(false)]
    pub fn same_as(&self, other: &Identifier) -> (r: bool)
        ensures
            r == (self@ == other@),
    {
        let a = &self.positions;
        let b = &other.positions;
        if a.len() != b.len() {
            proof {
                assert(self@ != other@);
            }
            return false;
        }
        let mut i: usize = 0;
        while i < a.len()
            invariant
                a@.len() == b@.len(),
                i <= a@.len(),
                a@.take(i as int) == b@.take(i as int),
            decreases a@.len() - i,
        {
            let x = a[i];
            let y = b[i];
            if x.index != y.index || x.site != y.site {
                proof {
                    assert(a@[i as int] != b@[i as int]);
                }
                return false;
            }
            proof {
                assert(a@.take(i + 1) =~= b@.take(i + 1));
            }
            i += 1;
        }
        proof {
            assert forall|j: int| 0 <= j < a@.len() implies a@[j] == b@[j] by {
                assert(a@.take(a@.len() as int)[j] == b@.take(b@.len() as int)[j]);
            }
            assert(a@ =~= b@);
        }
        true
    }
}

/// Relies on rand::Rng::gen_range: a uniform sample from `[lo, hi)`; it
/// panics only when the range is empty, which the precondition rules out.
#[verifier::external_body]
fn sample_range(lo: u64, hi: u64) -> (r: u64)
    requires
        lo < hi,
    ensures
        lo <= r < hi,
{
    rand::thread_rng().gen_range(lo, hi)
}

/// Relies on rand::Rng::gen::<bool>: a random boolean; either value may come.
#[verifier::external_body]
fn coin_flip() -> bool {
    rand::thread_rng().gen()
}

/// Per-site identifier allocator: holds the owning site and the sticky
/// per-depth boundary strategy choices.
pub struct IdentGen {
    /// The site this allocator mints identifiers for.
    pub site_id: u32,
    /// Decided strategies by depth: `true` is boundary-plus, `false` is
    /// boundary-minus, `None` is not yet decided.
    strategies: Vec<Option<bool>>,
}

impl IdentGen {
    /// The owning site, as contracts speak of it.
    pub closed spec fn site(&self) -> u32 {
        self.site_id
    }

    /// A fresh allocator for `site_id`, with no strategy decided yet.
    pub fn new(site_id: u32) -> (g: IdentGen)
        ensures
            g.site() == site_id,
    {
        IdentGen { site_id, strategies: Vec::new() }
    }

    /// The low sentinel, below every identifier this allocator returns.
    pub fn lower(&self) -> (r: Identifier)
        ensures
            r@ == begin_id(),
            id_wf(r@),
    {
        let mut positions: Vec<Position> = Vec::new();
        positions.push(Position { index: 0, site: 0 });
        proof {
            assert(positions@ =~= begin_id());
            lemma_width_bounds(0);
        }
        Identifier { positions }
    }

    /// The high sentinel, above every identifier this allocator returns.
    pub fn upper(&self) -> (r: Identifier)
        ensures
            r@ == end_id(),
            allocatable(r@),
    {
        let mut positions: Vec<Position> = Vec::new();
        positions.push(Position { index: 7, site: 0 });
        proof {
            assert(positions@ =~= end_id());
            lemma_width_bounds(0);
        }
        Identifier { positions }
    }

    /// The strategy at depth `d`, deciding it by a coin flip the first time
    /// allocation commits at that depth; sticky thereafter.
    #[verifier::loop_isolation(false)]
    fn pick_strategy(&mut self, d: usize) -> (plus: bool)
        ensures
            final(self).site_id == old(self).site_id,
            final(self).site() == old(self).site(),
    {
        while self.strategies.len() <= d
            invariant
                self.site_id == old(self).site_id,
            decreases d + 1 - self.strategies@.len(),
        {
            self.strategies.push(None);
        }
        match self.strategies[d] {
            Some(b) => b,
            None => {
                let b = coin_flip();
                let _ = self.strategies.remove(d);
                self.strategies.insert(d, Some(b));
                b
            },
        }
    }

    /// Mint a fresh identifier strictly between `p` and `q`.
    ///
    /// Descends the tree level by level until a gap of at least two indices
    /// opens, then places a new position a bounded random step from the
    /// boundary that the depth's sticky strategy names. The result copies
    /// `p`'s positions above the target depth and carries this site in its
    /// final position, which makes identifiers of distinct sites distinct.
    pub fn allocate(&mut self, p: &Identifier, q: &Identifier) -> (r: Identifier)
        requires
            id_wf(p@),
            allocatable(q@),
            id_lt(p@, q@),
        ensures
            final(self).site() == old(self).site(),
            id_lt(p@, r@),
            id_lt(r@, q@),
            allocatable(r@),
            r@.last().site == old(self).site(),
            r@.len() <= (if p@.len() > q@.len() {
                p@.len()
            } else {
                q@.len()
            }) + 1,
    {
        let ghost pv = p@;
        let ghost qv = q@;
        let pn: usize = p.positions.len();
        let qn: usize = q.positions.len();
        let mut prefix: Vec<Position> = Vec::new();
        let mut d: usize = 0;
        let mut p_binds: bool = true;
        let mut q_binds: bool = true;
        let mut lo: u64 = 0;
        let mut hi: u64 = 0;
        loop
            invariant_except_break
                id_wf(pv),
                allocatable(qv),
                id_lt(pv, qv),
                p@ == pv,
                q@ == qv,
                pv.len() == pn,
                qv.len() == qn,
                self == old(self),
                prefix@.len() == d,
                forall|k: int| 0 <= k < d ==> (#[trigger] prefix@[k].index) < width(k),
                p_binds ==> d <= pv.len() && prefix@ == pv.take(d as int),
                !p_binds ==> d >= pv.len() && prefix@.take(pv.len() as int) == pv,
                q_binds ==> d < qv.len() && prefix@ == qv.take(d as int),
                !q_binds ==> ext_lt(prefix@, qv),
                d <= pv.len() + qv.len(),
                d <= (if pv.len() > qv.len() {
                    pv.len()
                } else {
                    qv.len()
                }),
            ensures
                self == old(self),
                prefix@.len() == d,
                forall|k: int| 0 <= k < d ==> (#[trigger] prefix@[k].index) < width(k),
                lo < hi,
                hi - lo >= 2,
                hi <= width(d as int),
                p_binds ==> d < pv.len() && prefix@ == pv.take(d as int) && lo == pv[d as int].index,
                !p_binds ==> d >= pv.len() && prefix@.take(pv.len() as int) == pv && lo == 0,
                q_binds ==> d < qv.len() && prefix@ == qv.take(d as int) && hi == qv[d as int].index,
                !q_binds ==> ext_lt(prefix@, qv),
                d <= (if pv.len() > qv.len() {
                    pv.len()
                } else {
                    qv.len()
                }),
            decreases pv.len() + qv.len() - d,
        {
            if p_binds && d == p.positions.len() {
                proof {
                    assert(prefix@.take(pv.len() as int) =~= pv);
                }
                p_binds = false;
            }
            let l: u64 = if p_binds {
                p.positions[d].index
            } else {
                0
            };
            let h: u64 = if q_binds {
                q.positions[d].index
            } else {
                width_at(d)
            };
            proof {
                lemma_width_bounds(d as int);
                if p_binds && q_binds {
                    lemma_lt_at_common_prefix(pv, qv, d as int);
                }
            }
            if h - l >= 2 {
                lo = l;
                hi = h;
                break;
            }
            // no room at this depth: descend, sharing the constraining prefix
            if p_binds {
                let pos = p.positions[d];
                let ghost pre = prefix@;
                prefix.push(pos);
                proof {
                    assert(prefix@ =~= pv.take(d + 1));
                }
                if q_binds {
                    let qpos = q.positions[d];
                    if pos.index == qpos.index && pos.site == qpos.site {
                        proof {
                            assert(pos == qpos);
                            assert(prefix@ =~= qv.take(d + 1));
                            if d + 1 == qv.len() {
                                assert(qv =~= pv.take(d + 1));
                                lemma_not_lt_prefix(pv, qv);
                                assert(false);
                            }
                        }
                    } else {
                        proof {
                            lemma_lt_at_common_prefix(pv, qv, d as int);
                            assert(pos_lt(pv[d as int], qv[d as int]));
                            assert(prefix@[d as int] == pv[d as int]);
                            assert(prefix@.take(d as int) =~= qv.take(d as int));
                            assert(ext_lt(prefix@, qv));
                        }
                        q_binds = false;
                    }
                } else {
                    proof {
                        lemma_ext_lt_push(pre, qv, pos);
                    }
                }
                d += 1;
            } else {
                proof {
                    if !q_binds {
                        assert(h == width(d as int));
                        assert(false);
                    }
                    assert(q_binds);
                    assert(d < qv.len());
                }
                let qpos = q.positions[d];
                let ghost pre = prefix@;
                if qpos.index == 0 && qpos.site == 0 {
                    prefix.push(Position { index: 0, site: 0 });
                    proof {
                        assert(prefix@ =~= qv.take(d + 1));
                        if d + 1 == qv.len() {
                            assert(qv.last() == qpos);
                            assert(false);
                        }
                        assert(prefix@.take(pv.len() as int) =~= pv);
                        lemma_width_bounds(d as int);
                    }
                } else {
                    let site: u32 = if qpos.index >= 1 {
                        self.site_id
                    } else {
                        0
                    };
                    prefix.push(Position { index: 0, site });
                    proof {
                        assert(pos_lt(prefix@[d as int], qv[d as int]));
                        assert(prefix@.take(d as int) =~= qv.take(d as int));
                        assert(ext_lt(prefix@, qv));
                        assert(prefix@.take(pv.len() as int) =~= pv);
                        lemma_width_bounds(d as int);
                    }
                    q_binds = false;
                }
                d += 1;
            }
        }
        let plus = self.pick_strategy(d);
        let span = hi - lo;
        let cap: u64 = if span - 1 < BOUNDARY {
            span - 1
        } else {
            BOUNDARY
        };
        let step = sample_range(1, cap + 1);
        let new_ix: u64 = if plus {
            lo + step
        } else {
            hi - step
        };
        assert(lo < new_ix < hi);
        let ghost pre = prefix@;
        prefix.push(Position { index: new_ix, site: self.site_id });
        let r = Identifier { positions: prefix };
        proof {
            let rv = r@;
            assert(rv == pre.push(Position { index: new_ix, site: old(self).site_id }));
            assert(rv.last().index == new_ix);
            // the path stays within every depth's width
            assert(id_wf(rv)) by {
                assert(forall|k: int|
                    0 <= k < d ==> (#[trigger] rv[k].index) < width(k)) by {
                    assert(forall|k: int| 0 <= k < d ==> rv[k] == pre[k]);
                }
                assert(rv[d as int].index < width(d as int));
            }
            // strictly above p
            if p_binds {
                assert(rv.take(d as int) =~= pv.take(d as int));
                assert(pos_lt(pv[d as int], rv[d as int]));
                lemma_diverge_lt(pv, rv, d as int);
            } else {
                assert(pv =~= rv.take(pv.len() as int));
                lemma_prefix_lt(pv, rv);
            }
            // strictly below q
            if q_binds {
                assert(rv.take(d as int) =~= qv.take(d as int));
                assert(pos_lt(rv[d as int], qv[d as int]));
                lemma_diverge_lt(rv, qv, d as int);
            } else {
                assert(pre =~= rv.take(pre.len() as int));
                lemma_ext_lt(pre, qv, rv);
            }
        }
        r
    }
}

} // verus!
