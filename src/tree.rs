//! The spatial deduplication index: entries bucketed by a one-dimensional key, so that
//! equivalent entries always fall in the same bucket or a neighbouring one.
use vstd::prelude::*;
use crate::arith::EPSILON;
use crate::primitives::{Vector, Line, abs_int};

verus! {

/// Width of a bucket, in key ticks; wider than the tolerance.
pub const CELL: i64 = 1_000_000;

/// Number of buckets; keys beyond the last one share it.
pub const BUCKETS: usize = 2048;

/// What the index holds: a value with a bucketing key and an equivalence test.
pub trait Entity: Copy + Sized {
    spec fn key_spec(&self) -> int;

    spec fn same_spec(&self, o: &Self) -> bool;

    fn key(&self) -> (r: i64)
        ensures
            r == self.key_spec();

    fn same(&self, o: &Self) -> (r: bool)
        ensures
            r == self.same_spec(o);

    /// Equivalent values have keys closer than a bucket's width.
    proof fn lemma_same_close(a: &Self, b: &Self)
        requires
            a.same_spec(b),
        ensures
            -CELL < a.key_spec() - b.key_spec() < CELL;

    proof fn lemma_same_refl(a: &Self)
        ensures
            a.same_spec(a);

    proof fn lemma_same_sym(a: &Self, b: &Self)
        ensures
            a.same_spec(b) == b.same_spec(a);
}

impl Entity for Vector {
    open spec fn key_spec(&self) -> int {
        self.x as int
    }

    open spec fn same_spec(&self, o: &Self) -> bool {
        self.equivalent_spec(*o)
    }

    fn key(&self) -> (r: i64) {
        self.x
    }

    fn same(&self, o: &Self) -> (r: bool) {
        self.equivalent(o)
    }

    proof fn lemma_same_close(a: &Self, b: &Self) {
    }

    proof fn lemma_same_refl(a: &Self) {
    }

    proof fn lemma_same_sym(a: &Self, b: &Self) {
    }
}

impl Entity for Line {
    open spec fn key_spec(&self) -> int {
        if self.d == i64::MIN { i64::MAX as int } else { abs_int(self.d as int) }
    }

    open spec fn same_spec(&self, o: &Self) -> bool {
        self.equivalent_spec(*o)
    }

    fn key(&self) -> (r: i64) {
        if self.d == i64::MIN { i64::MAX } else if self.d < 0 { -self.d } else { self.d }
    }

    fn same(&self, o: &Self) -> (r: bool) {
        self.equivalent(o)
    }

    proof fn lemma_same_close(a: &Self, b: &Self) {
    }

    proof fn lemma_same_refl(a: &Self) {
    }

    proof fn lemma_same_sym(a: &Self, b: &Self) {
    }
}

/// The bucket of a key: its cell, with keys outside the covered range clamped to the ends.
pub open spec fn bucket_of(k: int) -> int {
    let c = k / CELL as int;
    if c < 0 { 0 } else if c >= BUCKETS { BUCKETS - 1 } else { c }
}

proof fn lemma_bucket_close(k1: int, k2: int)
    requires
        -CELL < k1 - k2 < CELL,
    ensures
        -1 <= bucket_of(k1) - bucket_of(k2) <= 1,
{
    let c = CELL as int;
    vstd::arithmetic::div_mod::lemma_fundamental_div_mod(k1, c);
    vstd::arithmetic::div_mod::lemma_fundamental_div_mod(k2, c);
    let q1 = k1 / c;
    let q2 = k2 / c;
    assert(-1 <= q1 - q2 <= 1) by (nonlinear_arith)
        requires k1 == c * q1 + k1 % c, k2 == c * q2 + k2 % c, 0 <= k1 % c < c, 0 <= k2 % c < c,
            -c < k1 - k2 < c, c > 0;
}

/// The bucket of a key.
pub fn bucket_index(k: i64) -> (r: usize)
    ensures
        r == bucket_of(k as int),
        r < BUCKETS,
{
    if k < 0 {
        return 0;
    }
    let c: i64 = k / CELL;
    if c >= BUCKETS as i64 { BUCKETS - 1 } else { c as usize }
}

/// Adds one to a multiplicity, stopping at the largest count.
pub open spec fn bump(c: u64, by: u64) -> u64 {
    if c + by > u64::MAX { u64::MAX } else { (c + by) as u64 }
}

/// Entries with their multiplicities, in buckets.
pub struct Index<T> {
    pub buckets: Vec<Vec<(T, u64)>>,
}

/// The historical and per-round point index.
pub type QuadTree = Index<Vector>;

/// The historical and per-round line index.
pub type LineContainer = Index<Line>;

/// The values of a sequence of entries, without their multiplicities.
pub open spec fn values<T>(s: Seq<(T, u64)>) -> Seq<T> {
    s.map_values(|e: (T, u64)| e.0)
}

/// Sum of the multiplicities of a sequence of entries.
pub open spec fn sum_counts<T>(s: Seq<(T, u64)>) -> int
    decreases s.len(),
{
    if s.len() == 0 { 0 } else { sum_counts(s.drop_last()) + s.last().1 }
}

/// Sum of the multiplicities in the first `n` buckets.
pub open spec fn sum_cells<T>(cells: Seq<Seq<(T, u64)>>, n: int) -> int
    decreases n,
{
    if n <= 0 { 0 } else { sum_cells(cells, n - 1) + sum_counts(cells[n - 1]) }
}

/// Concatenation of the first `n` buckets.
pub open spec fn flat_upto<T>(cells: Seq<Seq<(T, u64)>>, n: int) -> Seq<(T, u64)>
    decreases n,
{
    if n <= 0 { seq![] } else { flat_upto(cells, n - 1) + cells[n - 1] }
}

/// The buckets of an empty index.
pub open spec fn empty_cells<T>() -> Seq<Seq<(T, u64)>> {
    Seq::new(BUCKETS as nat, |b: int| Seq::<(T, u64)>::empty())
}

impl<T: Entity> Index<T> {
    /// The contents, bucket by bucket.
    pub open spec fn cells(&self) -> Seq<Seq<(T, u64)>> {
        self.buckets@.map_values(|v: Vec<(T, u64)>| v@)
    }

    /// `(b, i)` is the position of an entry.
    pub open spec fn valid(&self, b: int, i: int) -> bool {
        0 <= b < self.cells().len() && 0 <= i < self.cells()[b].len()
    }

    /// The entry at `(b, i)`.
    pub open spec fn entry(&self, b: int, i: int) -> (T, u64) {
        self.cells()[b][i]
    }

    /// Every entry sits in the bucket of its key.
    pub open spec fn wf(&self) -> bool {
        &&& self.buckets@.len() == BUCKETS
        &&& forall|b: int, i: int| #[trigger] self.valid(b, i) ==> bucket_of(self.entry(b, i).0.key_spec()) == b
    }

    /// Sum of all multiplicities.
    pub open spec fn total(&self) -> int {
        sum_cells(self.cells(), self.cells().len() as int)
    }

    /// Every held value satisfies `p`.
    pub open spec fn all(&self, p: spec_fn(T) -> bool) -> bool {
        forall|b: int, i: int| #[trigger] self.valid(b, i) ==> p(self.entry(b, i).0)
    }

    /// `x` itself is one of the held values.
    pub open spec fn held(&self, x: T) -> bool {
        exists|b: int, i: int| #[trigger] self.valid(b, i) && self.entry(b, i).0 == x
    }

    /// No two entries are equivalent.
    pub open spec fn distinct(&self) -> bool {
        forall|b: int, i: int, c: int, j: int| #[trigger] self.valid(b, i) && #[trigger] self.valid(c, j)
            && (b != c || i != j) ==> !self.entry(b, i).0.same_spec(&self.entry(c, j).0)
    }

    /// No entry of `other` is equivalent to an entry of `self`.
    pub open spec fn separate(&self, other: Self) -> bool {
        forall|b: int, i: int| #[trigger] other.valid(b, i) ==> !self.has(other.entry(b, i).0)
    }

    /// Some entry is equivalent to `x`.
    pub open spec fn has(&self, x: T) -> bool {
        exists|b: int, i: int| #[trigger] self.valid(b, i) && self.entry(b, i).0.same_spec(&x)
    }

    /// All entries, bucket after bucket.
    pub open spec fn flat(&self) -> Seq<(T, u64)> {
        flat_upto(self.cells(), self.cells().len() as int)
    }

    /// `new` is `old` with the multiplicity of an entry equivalent to `x` raised by `by`.
    pub open spec fn counted(old: Self, new: Self, x: T, by: u64) -> bool {
        exists|b: int, i: int| #![trigger old.valid(b, i)] old.valid(b, i) && old.entry(b, i).0.same_spec(&x)
            && new.cells() == old.cells().update(b, old.cells()[b].update(i,
                (old.entry(b, i).0, bump(old.entry(b, i).1, by))))
    }

    /// `new` is `old` with `(x, c)` added at the end of the bucket of `x`.
    pub open spec fn added(old: Self, new: Self, x: T, c: u64) -> bool {
        let b = bucket_of(x.key_spec());
        new.cells() == old.cells().update(b, old.cells()[b].push((x, c)))
    }

    /// Insert-or-count of `x` took `old` to `new`.
    pub open spec fn inserted(old: Self, new: Self, x: T) -> bool {
        &&& old.has(x) ==> Self::counted(old, new, x, 1)
        &&& !old.has(x) ==> Self::added(old, new, x, 1)
    }

    /// `new` holds the same values as `old`, bucket by bucket and in order; only
    /// multiplicities may differ.
    pub open spec fn same_shape(old: Self, new: Self) -> bool {
        &&& new.cells().len() == old.cells().len()
        &&& forall|b: int| 0 <= b < old.cells().len() ==> values(#[trigger] new.cells()[b]) == values(old.cells()[b])
    }

    /// Every entry of `old` keeps its place and value in `new`, with no smaller multiplicity.
    pub open spec fn grows(old: Self, new: Self) -> bool {
        forall|b: int, i: int| #[trigger] old.valid(b, i) ==> new.valid(b, i)
            && new.entry(b, i).0 == old.entry(b, i).0 && new.entry(b, i).1 >= old.entry(b, i).1
    }

    /// An empty index.
    pub fn new() -> (r: Self)
        ensures
            r.wf(),
            r.cells() == empty_cells::<T>(),
            forall|p: spec_fn(T) -> bool| #[trigger] r.all(p),
    {
        let mut buckets: Vec<Vec<(T, u64)>> = Vec::new();
        let mut k: usize = 0;
        while k < BUCKETS
            invariant
                k <= BUCKETS,
                buckets@.len() == k,
                forall|b: int| 0 <= b < k ==> (#[trigger] buckets@[b])@.len() == 0,
            decreases BUCKETS - k,
        {
            buckets.push(Vec::new());
            k = k + 1;
        }
        let r = Index { buckets };
        assert forall|b: int| 0 <= b < BUCKETS implies r.cells()[b] =~= Seq::<(T, u64)>::empty() by {
            assert(buckets@[b]@.len() == 0);
        }
        assert(r.cells() =~= empty_cells::<T>());
        r
    }

    /// Position of an entry equivalent to `x`, searching the bucket of `x` and its neighbours.
    pub fn find(&self, x: &T) -> (r: Option<(usize, usize)>)
        requires
            self.wf(),
        ensures
            match r {
                Some((b, i)) => self.valid(b as int, i as int) && self.entry(b as int, i as int).0.same_spec(x),
                None => !self.has(*x),
            },
    {
        let home: usize = bucket_index(x.key());
        let lo: usize = if home == 0 { 0 } else { home - 1 };
        let hi: usize = if home + 1 >= BUCKETS { BUCKETS - 1 } else { home + 1 };
        let mut b: usize = lo;
        while b <= hi
            invariant
                self.wf(),
                lo <= b <= hi + 1,
                hi < BUCKETS,
                lo == (if home == 0 { 0 } else { home - 1 }),
                home == bucket_of(x.key_spec()),
                forall|bb: int, i: int| lo <= bb < b && #[trigger] self.valid(bb, i) ==> !self.entry(bb, i).0.same_spec(x),
            decreases hi + 1 - b,
        {
            let cell: &Vec<(T, u64)> = &self.buckets[b];
            let mut i: usize = 0;
            while i < cell.len()
                invariant
                    self.wf(),
                    b < BUCKETS,
                    *cell == self.buckets@[b as int],
                    i <= cell@.len(),
                    forall|j: int| 0 <= j < i ==> !(#[trigger] self.entry(b as int, j)).0.same_spec(x),
                decreases cell@.len() - i,
            {
                if cell[i].0.same(x) {
                    return Some((b, i));
                }
                i = i + 1;
            }
            b = b + 1;
        }
        proof {
            if self.has(*x) {
                let (bb, i) = choose|bb: int, i: int| #[trigger] self.valid(bb, i) && self.entry(bb, i).0.same_spec(x);
                T::lemma_same_close(&self.entry(bb, i).0, x);
                lemma_bucket_close(self.entry(bb, i).0.key_spec(), x.key_spec());
                assert(false);
            }
        }
        None
    }

    /// Adds `(x, c)` to the bucket of `x`, without looking for an equivalent entry.
    pub fn push_counted(&mut self, x: T, c: u64)
        requires
            old(self).wf(),
        ensures
            final(self).wf(),
            Self::added(*old(self), *final(self), x, c),
            Self::grows(*old(self), *final(self)),
            forall|p: spec_fn(T) -> bool| old(self).all(p) && p(x) ==> #[trigger] final(self).all(p),
            final(self).total() == old(self).total() + c,
    {
        let b: usize = bucket_index(x.key());
        let mut cell: Vec<(T, u64)> = Vec::new();
        self.buckets.set_and_swap(b, &mut cell);
        cell.push((x, c));
        self.buckets.set_and_swap(b, &mut cell);
        assert(self.cells() =~= old(self).cells().update(b as int, old(self).cells()[b as int].push((x, c))));
        assert forall|bb: int, i: int| #[trigger] self.valid(bb, i) implies bucket_of(self.entry(bb, i).0.key_spec()) == bb by {
            if bb != b || i < old(self).cells()[b as int].len() {
                assert(old(self).valid(bb, i));
            }
        }
        assert forall|p: spec_fn(T) -> bool| old(self).all(p) && p(x) implies #[trigger] self.all(p) by {
            assert forall|bb: int, i: int| #[trigger] self.valid(bb, i) implies p(self.entry(bb, i).0) by {
                if bb != b || i < old(self).cells()[b as int].len() {
                    assert(old(self).valid(bb, i));
                }
            }
        }
        proof {
            let oc = old(self).cells();
            lemma_sum_cells_update(oc, b as int, oc[b as int].push((x, c)), oc.len() as int);
            assert(oc[b as int].push((x, c)).drop_last() =~= oc[b as int]);
        }
    }

    /// Adds `x` with multiplicity one.
    pub fn push(&mut self, x: &T)
        requires
            old(self).wf(),
        ensures
            final(self).wf(),
            Self::added(*old(self), *final(self), *x, 1),
            Self::grows(*old(self), *final(self)),
            forall|p: spec_fn(T) -> bool| old(self).all(p) && p(*x) ==> #[trigger] final(self).all(p),
            final(self).total() == old(self).total() + 1,
    {
        self.push_counted(*x, 1);
    }

    /// Raises the multiplicity of an entry equivalent to `x` by `by`, if there is one.
    pub fn count_by(&mut self, x: &T, by: u64) -> (r: bool)
        requires
            old(self).wf(),
        ensures
            final(self).wf(),
            r == old(self).has(*x),
            r ==> Self::counted(*old(self), *final(self), *x, by),
            !r ==> final(self).cells() == old(self).cells(),
            Self::grows(*old(self), *final(self)),
            Self::same_shape(*old(self), *final(self)),
            forall|p: spec_fn(T) -> bool| old(self).all(p) ==> #[trigger] final(self).all(p),
            r && old(self).total() + by <= u64::MAX ==> final(self).total() == old(self).total() + by,
            !r ==> final(self).total() == old(self).total(),
    {
        match self.find(x) {
            None => false,
            Some((b, i)) => {
                let mut cell: Vec<(T, u64)> = Vec::new();
                self.buckets.set_and_swap(b, &mut cell);
                let e: (T, u64) = cell[i];
                let n: u64 = if e.1 > u64::MAX - by { u64::MAX } else { e.1 + by };
                cell.set(i, (e.0, n));
                self.buckets.set_and_swap(b, &mut cell);
                let ghost o = *old(self);
                assert(self.cells() =~= o.cells().update(b as int, o.cells()[b as int].update(i as int,
                    (o.entry(b as int, i as int).0, bump(o.entry(b as int, i as int).1, by)))));
                assert(o.valid(b as int, i as int));
                proof {
                    let oc = o.cells();
                    let ne = (o.entry(b as int, i as int).0, bump(o.entry(b as int, i as int).1, by));
                    lemma_sum_counts_update(oc[b as int], i as int, ne);
                    lemma_sum_cells_update(oc, b as int, oc[b as int].update(i as int, ne), oc.len() as int);
                }
                assert forall|bb: int, j: int| #[trigger] self.valid(bb, j) implies bucket_of(self.entry(bb, j).0.key_spec()) == bb by {
                    assert(o.valid(bb, j));
                }
                assert forall|bb: int| 0 <= bb < o.cells().len() implies values(#[trigger] self.cells()[bb]) == values(o.cells()[bb]) by {
                    assert(values(self.cells()[bb]) =~= values(o.cells()[bb]));
                }
                assert forall|p: spec_fn(T) -> bool| o.all(p) implies #[trigger] self.all(p) by {
                    assert forall|bb: int, j: int| #[trigger] self.valid(bb, j) implies p(self.entry(bb, j).0) by {
                        assert(o.valid(bb, j));
                    }
                }
                true
            },
        }
    }

    /// Counts `x` once more if an equivalent entry is held; says whether one was.
    pub fn duplicate_check(&mut self, x: &T) -> (r: bool)
        requires
            old(self).wf(),
        ensures
            final(self).wf(),
            r == old(self).has(*x),
            r ==> Self::counted(*old(self), *final(self), *x, 1),
            !r ==> final(self).cells() == old(self).cells(),
            Self::grows(*old(self), *final(self)),
            Self::same_shape(*old(self), *final(self)),
            forall|p: spec_fn(T) -> bool| old(self).all(p) ==> #[trigger] final(self).all(p),
            r && old(self).total() < u64::MAX ==> final(self).total() == old(self).total() + 1,
            !r ==> final(self).total() == old(self).total(),
    {
        self.count_by(x, 1)
    }

    /// Insert-or-count: counts `x` against an equivalent entry, or adds it with multiplicity one.
    pub fn insert(&mut self, x: &T)
        requires
            old(self).wf(),
        ensures
            final(self).wf(),
            Self::inserted(*old(self), *final(self), *x),
            old(self).has(*x) ==> Self::same_shape(*old(self), *final(self)),
            old(self).distinct() ==> final(self).distinct(),
            old(self).total() < u64::MAX ==> final(self).total() == old(self).total() + 1,
            Self::grows(*old(self), *final(self)),
            forall|p: spec_fn(T) -> bool| old(self).all(p) && p(*x) ==> #[trigger] final(self).all(p),
    {
        let ghost o = *old(self);
        if !self.duplicate_check(x) {
            self.push(x);
        }
        proof {
            if o.distinct() {
                lemma_inserted_distinct(o, *self, *x);
            }
        }
    }

    /// Folds `other` into `self`: each entry of `other` adds its multiplicity to an equivalent
    /// entry of `self`, or is added with its multiplicity when there is none.
    pub fn merge(&mut self, other: &Index<T>)
        requires
            old(self).wf(),
            other.wf(),
        ensures
            final(self).wf(),
            Self::grows(*old(self), *final(self)),
            forall|b: int, i: int| #[trigger] other.valid(b, i) ==> final(self).has(other.entry(b, i).0),
            forall|p: spec_fn(T) -> bool| old(self).all(p) && other.all(p) ==> #[trigger] final(self).all(p),
            old(self).total() + other.total() <= u64::MAX ==> final(self).total() == old(self).total() + other.total(),
    {
        let ghost ok = old(self).total() + other.total() <= u64::MAX;
        let ghost oc = other.cells();
        let ghost nb = oc.len() as int;
        let mut b: usize = 0;
        while b < other.buckets.len()
            invariant
                self.wf(),
                other.wf(),
                b <= other.buckets@.len(),
                Self::grows(*old(self), *self),
                forall|bb: int, i: int| #[trigger] other.valid(bb, i) && bb < b ==> self.has(other.entry(bb, i).0),
                oc == other.cells(),
                nb == oc.len(),
                ok == (old(self).total() + other.total() <= u64::MAX),
                ok ==> self.total() == old(self).total() + sum_cells(oc, b as int),
                forall|p: spec_fn(T) -> bool| old(self).all(p) && other.all(p) ==> #[trigger] self.all(p),
            decreases other.buckets@.len() - b,
        {
            let cell: &Vec<(T, u64)> = &other.buckets[b];
            let mut i: usize = 0;
            while i < cell.len()
                invariant
                    self.wf(),
                    other.wf(),
                    b < other.buckets@.len(),
                    *cell == other.buckets@[b as int],
                    i <= cell@.len(),
                    Self::grows(*old(self), *self),
                    forall|bb: int, j: int| #[trigger] other.valid(bb, j) && (bb < b || (bb == b && j < i))
                        ==> self.has(other.entry(bb, j).0),
                    oc == other.cells(),
                    nb == oc.len(),
                    ok == (old(self).total() + other.total() <= u64::MAX),
                    ok ==> self.total() == old(self).total() + sum_cells(oc, b as int) + sum_counts(oc[b as int].take(i as int)),
                    forall|p: spec_fn(T) -> bool| old(self).all(p) && other.all(p) ==> #[trigger] self.all(p),
                decreases cell@.len() - i,
            {
                let e: (T, u64) = cell[i];
                assert(other.valid(b as int, i as int));
                assert(e == other.entry(b as int, i as int));
                let ghost before = *self;
                proof {
                    lemma_sum_counts_take(oc[b as int], i as int);
                    lemma_sum_cells_mono(oc, b + 1, nb);
                    lemma_sum_counts_nonneg(oc[b as int].take(i as int));
                    assert(sum_cells(oc, b + 1) == sum_cells(oc, b as int) + sum_counts(oc[b as int]));
                    assert(e.1 == oc[b as int][i as int].1);
                    if ok {
                        assert(old(self).total() + sum_cells(oc, nb) <= u64::MAX);
                        assert(before.total() + e.1 <= u64::MAX);
                    }
                }
                if !self.count_by(&e.0, e.1) {
                    self.push_counted(e.0, e.1);
                    proof {
                        let hb = bucket_of(e.0.key_spec());
                        T::lemma_same_refl(&e.0);
                        assert(self.valid(hb, before.cells()[hb].len() as int));
                        assert(self.entry(hb, before.cells()[hb].len() as int).0 == e.0);
                    }
                }
                proof {
                    assert forall|bb: int, j: int| #[trigger] other.valid(bb, j) && (bb < b || (bb == b && j <= i))
                        implies self.has(other.entry(bb, j).0) by {
                        if bb < b || j < i {
                            let (hb, hi) = choose|hb: int, hi: int| #[trigger] before.valid(hb, hi)
                                && before.entry(hb, hi).0.same_spec(&other.entry(bb, j).0);
                            assert(self.valid(hb, hi));
                        } else if before.has(e.0) {
                            let (cb, ci) = choose|cb: int, ci: int| #![trigger before.valid(cb, ci)] before.valid(cb, ci)
                                && before.entry(cb, ci).0.same_spec(&e.0)
                                && self.cells() == before.cells().update(cb, before.cells()[cb].update(ci,
                                    (before.entry(cb, ci).0, bump(before.entry(cb, ci).1, e.1))));
                            assert(self.valid(cb, ci));
                        }
                    }
                    assert forall|p: spec_fn(T) -> bool| old(self).all(p) && other.all(p) implies #[trigger] self.all(p) by {
                        assert(before.all(p));
                        assert(p(e.0));
                    }
                }
                i = i + 1;
            }
            proof {
                assert(oc[b as int].take(i as int) =~= oc[b as int]);
            }
            b = b + 1;
        }
    }

    /// The first `limit` held values, bucket after bucket (all of them when there are fewer):
    /// the snapshot that a round builds from.
    pub fn sample(&self, limit: usize) -> (r: Vec<T>)
        requires
            self.wf(),
        ensures
            r@ == values(self.flat()).take(if limit < self.flat().len() { limit as int } else { self.flat().len() as int }),
            forall|k: int| 0 <= k < r@.len() ==> self.held(#[trigger] r@[k]),
    {
        let mut r: Vec<T> = Vec::new();
        let mut b: usize = 0;
        let ghost n = self.cells().len() as int;
        while b < self.buckets.len()
            invariant
                self.wf(),
                n == self.cells().len(),
                b <= self.buckets@.len(),
                r@.len() < limit || (r@.len() == limit && limit <= self.flat().len()
                    && r@ == values(self.flat()).take(limit as int)),
                r@.len() < limit ==> r@ == values(flat_upto(self.cells(), b as int)),
                forall|k: int| 0 <= k < r@.len() ==> self.held(#[trigger] r@[k]),
            decreases self.buckets@.len() - b,
        {
            if r.len() >= limit {
                proof { lemma_flat_prefix(self.cells(), b as int, n); }
                return r;
            }
            let cell: &Vec<(T, u64)> = &self.buckets[b];
            let mut i: usize = 0;
            while i < cell.len()
                invariant
                    self.wf(),
                    n == self.cells().len(),
                    b < self.buckets@.len(),
                    *cell == self.buckets@[b as int],
                    i <= cell@.len(),
                    r@.len() <= limit,
                    r@ == values(flat_upto(self.cells(), b as int) + cell@.subrange(0, i as int)),
                    forall|k: int| 0 <= k < r@.len() ==> self.held(#[trigger] r@[k]),
                decreases cell@.len() - i,
            {
                if r.len() >= limit {
                    proof {
                        lemma_flat_prefix(self.cells(), b + 1, n);
                        let pre = flat_upto(self.cells(), b as int) + cell@.subrange(0, i as int);
                        assert(flat_upto(self.cells(), b + 1) == flat_upto(self.cells(), b as int) + self.cells()[b as int]);
                        assert(pre =~= flat_upto(self.cells(), b + 1).subrange(0, pre.len() as int));
                        assert(values(self.flat()).take(limit as int) =~= values(pre));
                        assert(limit <= self.flat().len());
                    }
                    return r;
                }
                assert(self.valid(b as int, i as int));
                r.push(cell[i].0);
                assert(self.held(r@[r@.len() - 1]));
                i = i + 1;
                assert(values(flat_upto(self.cells(), b as int) + cell@.subrange(0, i as int))
                    =~= values(flat_upto(self.cells(), b as int) + cell@.subrange(0, i - 1)).push(cell@[i - 1].0));
            }
            assert(cell@.subrange(0, i as int) =~= self.cells()[b as int]);
            b = b + 1;
            proof {
                if r@.len() == limit {
                    lemma_flat_prefix(self.cells(), b as int, n);
                    assert(values(self.flat()).take(limit as int) =~= values(flat_upto(self.cells(), b as int)));
                }
            }
        }
        proof {
            if r@.len() < limit {
                assert(r@ == values(flat_upto(self.cells(), n)));
                assert(values(self.flat()).take(self.flat().len() as int) =~= values(self.flat()));
            }
        }
        r
    }

    /// Adds every entry of `other`, with its multiplicity, without looking for equivalents in
    /// `self`: the merge of two indexes that share no equivalent entries.
    pub fn append_from(&mut self, other: &Index<T>)
        requires
            old(self).wf(),
            other.wf(),
        ensures
            final(self).wf(),
            Self::grows(*old(self), *final(self)),
            forall|b: int, i: int| #[trigger] other.valid(b, i) ==> final(self).held(other.entry(b, i).0),
            forall|p: spec_fn(T) -> bool| old(self).all(p) && other.all(p) ==> #[trigger] final(self).all(p),
            final(self).cells().len() == old(self).cells().len(),
            forall|b: int| 0 <= b < old(self).cells().len() ==> #[trigger] final(self).cells()[b]
                == old(self).cells()[b] + other.cells()[b],
            final(self).total() == old(self).total() + other.total(),
    {
        let ghost oc = other.cells();
        let ghost nb = oc.len() as int;
        let mut b: usize = 0;
        while b < other.buckets.len()
            invariant
                self.wf(),
                other.wf(),
                b <= other.buckets@.len(),
                oc == other.cells(),
                nb == oc.len(),
                self.total() == old(self).total() + sum_cells(oc, b as int),
                self.cells().len() == old(self).cells().len(),
                forall|bb: int| 0 <= bb < old(self).cells().len() ==> #[trigger] self.cells()[bb]
                    == if bb < b { old(self).cells()[bb] + other.cells()[bb] } else { old(self).cells()[bb] },
                Self::grows(*old(self), *self),
                forall|bb: int, i: int| #[trigger] other.valid(bb, i) && bb < b ==> self.held(other.entry(bb, i).0),
                forall|p: spec_fn(T) -> bool| old(self).all(p) && other.all(p) ==> #[trigger] self.all(p),
            decreases other.buckets@.len() - b,
        {
            let cell: &Vec<(T, u64)> = &other.buckets[b];
            let mut i: usize = 0;
            while i < cell.len()
                invariant
                    self.wf(),
                    other.wf(),
                    b < other.buckets@.len(),
                    *cell == other.buckets@[b as int],
                    i <= cell@.len(),
                    Self::grows(*old(self), *self),
                    oc == other.cells(),
                    nb == oc.len(),
                    self.total() == old(self).total() + sum_cells(oc, b as int) + sum_counts(oc[b as int].take(i as int)),
                    self.cells().len() == old(self).cells().len(),
                    forall|bb: int| 0 <= bb < old(self).cells().len() ==> #[trigger] self.cells()[bb]
                        == if bb < b { old(self).cells()[bb] + other.cells()[bb] }
                            else if bb == b { old(self).cells()[bb] + other.cells()[bb].subrange(0, i as int) }
                            else { old(self).cells()[bb] },
                    forall|bb: int, j: int| #[trigger] other.valid(bb, j) && (bb < b || (bb == b && j < i))
                        ==> self.held(other.entry(bb, j).0),
                    forall|p: spec_fn(T) -> bool| old(self).all(p) && other.all(p) ==> #[trigger] self.all(p),
                decreases cell@.len() - i,
            {
                let e: (T, u64) = cell[i];
                assert(other.valid(b as int, i as int));
                let ghost before = *self;
                proof {
                    lemma_sum_counts_take(oc[b as int], i as int);
                    assert(e.1 == oc[b as int][i as int].1);
                }
                self.push_counted(e.0, e.1);
                proof {
                    let hb = bucket_of(e.0.key_spec());
                    assert(hb == b);
                    assert(other.cells()[b as int].subrange(0, i + 1) =~= other.cells()[b as int].subrange(0, i as int).push(e));
                    assert forall|bb: int| 0 <= bb < old(self).cells().len() implies #[trigger] self.cells()[bb]
                        == if bb < b { old(self).cells()[bb] + other.cells()[bb] }
                            else if bb == b { old(self).cells()[bb] + other.cells()[bb].subrange(0, i + 1) }
                            else { old(self).cells()[bb] } by {
                        if bb == b {
                            assert(self.cells()[bb] =~= old(self).cells()[bb] + other.cells()[bb].subrange(0, i + 1));
                        }
                    }
                    assert(self.valid(hb, before.cells()[hb].len() as int));
                    assert forall|bb: int, j: int| #[trigger] other.valid(bb, j) && (bb < b || (bb == b && j <= i))
                        implies self.held(other.entry(bb, j).0) by {
                        if bb < b || j < i {
                            let (hb2, hi2) = choose|hb2: int, hi2: int| #[trigger] before.valid(hb2, hi2)
                                && before.entry(hb2, hi2).0 == other.entry(bb, j).0;
                            assert(self.valid(hb2, hi2));
                        }
                    }
                    assert forall|p: spec_fn(T) -> bool| old(self).all(p) && other.all(p) implies #[trigger] self.all(p) by {
                        assert(before.all(p));
                        assert(p(e.0));
                    }
                }
                i = i + 1;
            }
            proof {
                assert(other.cells()[b as int].subrange(0, i as int) =~= other.cells()[b as int]);
                assert(oc[b as int].take(i as int) =~= oc[b as int]);
            }
            b = b + 1;
        }
    }

    /// All entries with their multiplicities, bucket after bucket.
    pub fn flatten(&self) -> (r: Vec<(T, u64)>)
        ensures
            r@ == self.flat(),
    {
        let mut r: Vec<(T, u64)> = Vec::new();
        let mut b: usize = 0;
        while b < self.buckets.len()
            invariant
                b <= self.buckets@.len(),
                r@ == flat_upto(self.cells(), b as int),
            decreases self.buckets@.len() - b,
        {
            let cell: &Vec<(T, u64)> = &self.buckets[b];
            let mut i: usize = 0;
            while i < cell.len()
                invariant
                    b < self.buckets@.len(),
                    *cell == self.buckets@[b as int],
                    i <= cell@.len(),
                    r@ == flat_upto(self.cells(), b as int) + cell@.subrange(0, i as int),
                decreases cell@.len() - i,
            {
                r.push(cell[i]);
                i = i + 1;
                assert(cell@.subrange(0, i as int) =~= cell@.subrange(0, i - 1) .push(cell@[i - 1]));
            }
            assert(cell@.subrange(0, i as int) =~= cell@);
            b = b + 1;
        }
        r
    }

    /// All held values, bucket after bucket.
    pub fn all_values(&self) -> (r: Vec<T>)
        ensures
            r@ == values(self.flat()),
    {
        let flat: Vec<(T, u64)> = self.flatten();
        let mut r: Vec<T> = Vec::new();
        let mut k: usize = 0;
        while k < flat.len()
            invariant
                flat@ == self.flat(),
                k <= flat@.len(),
                r@ == values(flat@.subrange(0, k as int)),
            decreases flat@.len() - k,
        {
            r.push(flat[k].0);
            k = k + 1;
            assert(values(flat@.subrange(0, k as int)) =~= values(flat@.subrange(0, k - 1)).push(flat@[k - 1].0));
        }
        assert(flat@.subrange(0, k as int) =~= flat@);
        r
    }

    /// Number of distinct entries.
    pub fn len(&self) -> (r: usize)
        ensures
            r == self.flat().len(),
    {
        self.flatten().len()
    }
}

/// Inserting `k` values into an empty index, each equivalent to the first, leaves exactly one
/// entry: the first value, with multiplicity `k`.
pub proof fn lemma_dedup_idempotent<T: Entity>(states: Seq<Index<T>>, xs: Seq<T>)
    requires
        xs.len() >= 1,
        xs.len() < u64::MAX,
        states.len() == xs.len() + 1,
        states[0].cells() == empty_cells::<T>(),
        forall|i: int| 1 <= i <= xs.len() ==> Index::inserted(states[i - 1], #[trigger] states[i], xs[i - 1]),
        forall|i: int| 0 <= i < xs.len() ==> xs[0].same_spec(#[trigger] &xs[i]),
    ensures
        states[xs.len() as int].cells()
            == empty_cells::<T>().update(bucket_of(xs[0].key_spec()), seq![(xs[0], xs.len() as u64)]),
{
    lemma_dedup_prefix(states, xs, xs.len() as int);
}

proof fn lemma_dedup_prefix<T: Entity>(states: Seq<Index<T>>, xs: Seq<T>, n: int)
    requires
        1 <= n <= xs.len(),
        xs.len() < u64::MAX,
        states.len() == xs.len() + 1,
        states[0].cells() == empty_cells::<T>(),
        forall|i: int| 1 <= i <= xs.len() ==> Index::inserted(states[i - 1], #[trigger] states[i], xs[i - 1]),
        forall|i: int| 0 <= i < xs.len() ==> xs[0].same_spec(#[trigger] &xs[i]),
    ensures
        states[n].cells() == empty_cells::<T>().update(bucket_of(xs[0].key_spec()), seq![(xs[0], n as u64)]),
    decreases n,
{
    let home = bucket_of(xs[0].key_spec());
    assert(0 <= home < BUCKETS);
    if n == 1 {
        let s0 = states[0];
        assert(Index::inserted(s0, states[1], xs[0]));
        assert(!s0.has(xs[0]));
        assert(empty_cells::<T>()[home].push((xs[0], 1u64)) =~= seq![(xs[0], 1u64)]);
    } else {
        lemma_dedup_prefix(states, xs, n - 1);
        let s = states[n - 1];
        let x = xs[n - 1];
        assert(Index::inserted(s, states[n], x));
        assert(xs[0].same_spec(&xs[n - 1]));
        assert(s.valid(home, 0));
        assert(s.entry(home, 0) == (xs[0], (n - 1) as u64));
        assert(s.has(x));
        let (b, i) = choose|b: int, i: int| #![trigger s.valid(b, i)] s.valid(b, i) && s.entry(b, i).0.same_spec(&x)
            && states[n].cells() == s.cells().update(b, s.cells()[b].update(i,
                (s.entry(b, i).0, bump(s.entry(b, i).1, 1))));
        if b != home {
            assert(s.cells()[b].len() == 0);
        }
        assert(b == home && i == 0);
        assert(seq![(xs[0], (n - 1) as u64)].update(0, (xs[0], n as u64)) =~= seq![(xs[0], n as u64)]);
        assert(states[n].cells() =~= empty_cells::<T>().update(home, seq![(xs[0], n as u64)]));
    }
}

/// An equivalent entry, once held, stays held as the index grows.
pub proof fn lemma_has_grows<T: Entity>(old: Index<T>, new: Index<T>, x: T)
    requires
        Index::grows(old, new),
        old.has(x),
    ensures
        new.has(x),
{
    let (b, i) = choose|b: int, i: int| #[trigger] old.valid(b, i) && old.entry(b, i).0.same_spec(&x);
    assert(new.valid(b, i));
}

/// A value satisfies what every held value satisfies.
pub proof fn lemma_held_all<T: Entity>(idx: Index<T>, p: spec_fn(T) -> bool, x: T)
    requires
        idx.all(p),
        idx.held(x),
    ensures
        p(x),
{
    let (b, i) = choose|b: int, i: int| #[trigger] idx.valid(b, i) && idx.entry(b, i).0 == x;
}

/// Growth of an index is transitive.
pub proof fn lemma_grows_trans<T: Entity>(a: Index<T>, b: Index<T>, c: Index<T>)
    requires
        Index::grows(a, b),
        Index::grows(b, c),
    ensures
        Index::grows(a, c),
{
    assert forall|i: int, j: int| #[trigger] a.valid(i, j) implies c.valid(i, j)
        && c.entry(i, j).0 == a.entry(i, j).0 && c.entry(i, j).1 >= a.entry(i, j).1 by {
        assert(b.valid(i, j));
    }
}

/// The first `a` buckets, concatenated, begin the first `b`.
pub proof fn lemma_flat_prefix<T>(cells: Seq<Seq<(T, u64)>>, a: int, b: int)
    requires
        0 <= a <= b,
    ensures
        flat_upto(cells, a).len() <= flat_upto(cells, b).len(),
        flat_upto(cells, b).subrange(0, flat_upto(cells, a).len() as int) == flat_upto(cells, a),
    decreases b - a,
{
    if a < b {
        lemma_flat_prefix(cells, a, b - 1);
        let fa = flat_upto(cells, a);
        let fb1 = flat_upto(cells, b - 1);
        assert(flat_upto(cells, b) == fb1 + cells[b - 1]);
        assert(flat_upto(cells, b).subrange(0, fa.len() as int) =~= fb1.subrange(0, fa.len() as int));
    } else {
        assert(flat_upto(cells, b).subrange(0, flat_upto(cells, a).len() as int) =~= flat_upto(cells, a));
    }
}

/// Indexes of the same shape list the same values.
pub proof fn lemma_same_shape_values<T: Entity>(a: Index<T>, b: Index<T>, n: int)
    requires
        Index::same_shape(a, b),
        0 <= n <= a.cells().len(),
    ensures
        values(flat_upto(a.cells(), n)) == values(flat_upto(b.cells(), n)),
    decreases n,
{
    if n > 0 {
        lemma_same_shape_values(a, b, n - 1);
        assert(values(b.cells()[n - 1]) == values(a.cells()[n - 1]));
        assert(values(flat_upto(a.cells(), n)) =~= values(flat_upto(a.cells(), n - 1)) + values(a.cells()[n - 1]));
        assert(values(flat_upto(b.cells(), n)) =~= values(flat_upto(b.cells(), n - 1)) + values(b.cells()[n - 1]));
    }
}

/// A value held up to equivalence by `l` or by `n` is held by `f`, when `f` grew from `l` and
/// holds every value of `n`.
pub proof fn lemma_has_after_append<T: Entity>(l: Index<T>, n: Index<T>, f: Index<T>, x: T)
    requires
        l.has(x) || n.has(x),
        Index::grows(l, f),
        forall|b: int, i: int| #[trigger] n.valid(b, i) ==> f.held(n.entry(b, i).0),
    ensures
        f.has(x),
{
    if l.has(x) {
        lemma_has_grows(l, f, x);
    } else {
        let (b, i) = choose|b: int, i: int| #[trigger] n.valid(b, i) && n.entry(b, i).0.same_spec(&x);
        assert(f.held(n.entry(b, i).0));
        let (fb, fi) = choose|fb: int, fi: int| #[trigger] f.valid(fb, fi) && f.entry(fb, fi).0 == n.entry(b, i).0;
    }
}

/// Each element of the concatenated buckets is an entry of the index.
pub proof fn lemma_flat_member<T: Entity>(idx: Index<T>, n: int, k: int)
    requires
        0 <= n <= idx.cells().len(),
        0 <= k < flat_upto(idx.cells(), n).len(),
    ensures
        exists|b: int, i: int| #[trigger] idx.valid(b, i) && flat_upto(idx.cells(), n)[k] == idx.entry(b, i),
    decreases n,
{
    let prev = flat_upto(idx.cells(), n - 1);
    assert(flat_upto(idx.cells(), n) == prev + idx.cells()[n - 1]);
    if k < prev.len() {
        lemma_flat_member(idx, n - 1, k);
        let (b, i) = choose|b: int, i: int| #[trigger] idx.valid(b, i) && prev[k] == idx.entry(b, i);
        assert(idx.valid(b, i));
    } else {
        assert(idx.valid(n - 1, k - prev.len()));
    }
}

/// Every listed value satisfies what every held value satisfies.
pub proof fn lemma_flat_all<T: Entity>(idx: Index<T>, p: spec_fn(T) -> bool, k: int)
    requires
        idx.all(p),
        0 <= k < values(idx.flat()).len(),
    ensures
        p(values(idx.flat())[k]),
{
    lemma_flat_member(idx, idx.cells().len() as int, k);
    let (b, i) = choose|b: int, i: int| #[trigger] idx.valid(b, i) && idx.flat()[k] == idx.entry(b, i);
}

/// Indexes of the same shape hold the same values up to equivalence, and are distinct together.
pub proof fn lemma_same_shape_has<T: Entity>(a: Index<T>, b: Index<T>)
    requires
        Index::same_shape(a, b),
    ensures
        forall|x: T| a.has(x) == #[trigger] b.has(x),
        a.distinct() == b.distinct(),
        forall|c: int, i: int| a.valid(c, i) == #[trigger] b.valid(c, i),
        forall|c: int, i: int| #[trigger] b.valid(c, i) ==> b.entry(c, i).0 == a.entry(c, i).0,
{
    assert forall|c: int, i: int| a.valid(c, i) == #[trigger] b.valid(c, i) by {
        if 0 <= c < a.cells().len() {
            assert(values(b.cells()[c]).len() == values(a.cells()[c]).len());
        }
    }
    assert forall|c: int, i: int| #[trigger] b.valid(c, i) implies b.entry(c, i).0 == a.entry(c, i).0 by {
        assert(values(b.cells()[c])[i] == values(a.cells()[c])[i]);
    }
    assert forall|x: T| a.has(x) == #[trigger] b.has(x) by {
        if a.has(x) {
            let (c, i) = choose|c: int, i: int| #[trigger] a.valid(c, i) && a.entry(c, i).0.same_spec(&x);
            assert(b.valid(c, i));
        }
        if b.has(x) {
            let (c, i) = choose|c: int, i: int| #[trigger] b.valid(c, i) && b.entry(c, i).0.same_spec(&x);
            assert(a.valid(c, i));
        }
    }
    if a.distinct() {
        assert forall|b1: int, i: int, c: int, j: int| #[trigger] b.valid(b1, i) && #[trigger] b.valid(c, j)
            && (b1 != c || i != j) implies !b.entry(b1, i).0.same_spec(&b.entry(c, j).0) by {
            assert(a.valid(b1, i) && a.valid(c, j));
        }
    }
    if b.distinct() {
        assert forall|b1: int, i: int, c: int, j: int| #[trigger] a.valid(b1, i) && #[trigger] a.valid(c, j)
            && (b1 != c || i != j) implies !a.entry(b1, i).0.same_spec(&a.entry(c, j).0) by {
            assert(b.valid(b1, i) && b.valid(c, j));
        }
    }
}

/// Inserting a value keeps the entries pairwise non-equivalent.
pub proof fn lemma_inserted_distinct<T: Entity>(old: Index<T>, new: Index<T>, x: T)
    requires
        old.wf(),
        old.distinct(),
        Index::inserted(old, new, x),
    ensures
        new.distinct(),
{
    if old.has(x) {
        let (b, i) = choose|b: int, i: int| #![trigger old.valid(b, i)] old.valid(b, i) && old.entry(b, i).0.same_spec(&x)
            && new.cells() == old.cells().update(b, old.cells()[b].update(i,
                (old.entry(b, i).0, bump(old.entry(b, i).1, 1))));
        assert forall|c: int| 0 <= c < old.cells().len() implies values(#[trigger] new.cells()[c]) == values(old.cells()[c]) by {
            assert(values(new.cells()[c]) =~= values(old.cells()[c]));
        }
        lemma_same_shape_has(old, new);
    } else {
        let h = bucket_of(x.key_spec());
        let l = old.cells()[h].len() as int;
        assert forall|b: int, i: int, c: int, j: int| #[trigger] new.valid(b, i) && #[trigger] new.valid(c, j)
            && (b != c || i != j) implies !new.entry(b, i).0.same_spec(&new.entry(c, j).0) by {
            let at_new_b = b == h && i == l;
            let at_new_c = c == h && j == l;
            if !at_new_b {
                assert(old.valid(b, i));
            }
            if !at_new_c {
                assert(old.valid(c, j));
            }
            if at_new_c && !at_new_b {
                assert(!old.entry(b, i).0.same_spec(&x));
            }
            if at_new_b && !at_new_c {
                assert(!old.entry(c, j).0.same_spec(&x));
                T::lemma_same_sym(&x, &old.entry(c, j).0);
            }
        }
    }
}

/// Appending an index that shares no equivalent entry keeps the entries pairwise
/// non-equivalent.
pub proof fn lemma_append_distinct<T: Entity>(a: Index<T>, o: Index<T>, f: Index<T>)
    requires
        a.wf(),
        o.wf(),
        a.distinct(),
        o.distinct(),
        a.separate(o),
        f.cells().len() == a.cells().len(),
        forall|b: int| 0 <= b < a.cells().len() ==> #[trigger] f.cells()[b] == a.cells()[b] + o.cells()[b],
    ensures
        f.distinct(),
{
    assert forall|b: int, i: int, c: int, j: int| #[trigger] f.valid(b, i) && #[trigger] f.valid(c, j)
        && (b != c || i != j) implies !f.entry(b, i).0.same_spec(&f.entry(c, j).0) by {
        let lb = a.cells()[b].len() as int;
        let lc = a.cells()[c].len() as int;
        assert(f.cells()[b] == a.cells()[b] + o.cells()[b]);
        assert(f.cells()[c] == a.cells()[c] + o.cells()[c]);
        if i < lb {
            assert(a.valid(b, i) && f.entry(b, i) == a.entry(b, i));
        } else {
            assert(o.valid(b, i - lb) && f.entry(b, i) == o.entry(b, i - lb));
        }
        if j < lc {
            assert(a.valid(c, j) && f.entry(c, j) == a.entry(c, j));
        } else {
            assert(o.valid(c, j - lc) && f.entry(c, j) == o.entry(c, j - lc));
        }
        if i < lb && j >= lc {
            assert(!a.has(o.entry(c, j - lc).0));
        }
        if i >= lb && j < lc {
            assert(!a.has(o.entry(b, i - lb).0));
            T::lemma_same_sym(&o.entry(b, i - lb).0, &a.entry(c, j).0);
        }
    }
}

/// Inserting into `n` a value that `l` does not hold keeps `l` and `n` separate.
pub proof fn lemma_insert_separate<T: Entity>(l: Index<T>, n0: Index<T>, n1: Index<T>, x: T)
    requires
        n0.wf(),
        l.separate(n0),
        Index::inserted(n0, n1, x),
        !l.has(x),
    ensures
        l.separate(n1),
{
    if n0.has(x) {
        let (b, i) = choose|b: int, i: int| #![trigger n0.valid(b, i)] n0.valid(b, i) && n0.entry(b, i).0.same_spec(&x)
            && n1.cells() == n0.cells().update(b, n0.cells()[b].update(i,
                (n0.entry(b, i).0, bump(n0.entry(b, i).1, 1))));
        assert forall|c: int, j: int| #[trigger] n1.valid(c, j) implies !l.has(n1.entry(c, j).0) by {
            assert(n0.valid(c, j));
        }
    } else {
        let h = bucket_of(x.key_spec());
        assert(0 <= h < n0.cells().len());
        assert forall|c: int, j: int| #[trigger] n1.valid(c, j) implies !l.has(n1.entry(c, j).0) by {
            if !(c == h && j == n0.cells()[h].len()) {
                assert(n0.valid(c, j));
            }
        }
    }
}

/// Separation depends only on the values that the first index holds.
pub proof fn lemma_shape_separate<T: Entity>(l0: Index<T>, l1: Index<T>, n: Index<T>)
    requires
        Index::same_shape(l0, l1),
        l0.separate(n),
    ensures
        l1.separate(n),
{
    lemma_same_shape_has(l0, l1);
    assert forall|c: int, j: int| #[trigger] n.valid(c, j) implies !l1.has(n.entry(c, j).0) by {
        assert(l0.has(n.entry(c, j).0) == l1.has(n.entry(c, j).0));
    }
}

/// Counting in `n` keeps `l` and `n` separate.
pub proof fn lemma_separate_shape_right<T: Entity>(l: Index<T>, n0: Index<T>, n1: Index<T>)
    requires
        Index::same_shape(n0, n1),
        l.separate(n0),
    ensures
        l.separate(n1),
{
    lemma_same_shape_has(n0, n1);
}

pub proof fn lemma_sum_counts_update<T>(s: Seq<(T, u64)>, i: int, e: (T, u64))
    requires
        0 <= i < s.len(),
    ensures
        sum_counts(s.update(i, e)) == sum_counts(s) - s[i].1 + e.1,
        0 <= s[i].1 <= sum_counts(s),
        sum_counts(s) >= 0,
    decreases s.len(),
{
    let t = s.update(i, e);
    if i < s.len() - 1 {
        lemma_sum_counts_update(s.drop_last(), i, e);
        assert(t.drop_last() =~= s.drop_last().update(i, e));
    } else {
        assert(t.drop_last() =~= s.drop_last());
        lemma_sum_counts_nonneg(s.drop_last());
    }
}

pub proof fn lemma_sum_counts_nonneg<T>(s: Seq<(T, u64)>)
    ensures
        sum_counts(s) >= 0,
    decreases s.len(),
{
    if s.len() > 0 {
        lemma_sum_counts_nonneg(s.drop_last());
    }
}

pub proof fn lemma_sum_cells_update<T>(cells: Seq<Seq<(T, u64)>>, b: int, t: Seq<(T, u64)>, n: int)
    requires
        0 <= b < cells.len(),
        0 <= n <= cells.len(),
    ensures
        sum_cells(cells.update(b, t), n) == sum_cells(cells, n) + if b < n { sum_counts(t) - sum_counts(cells[b]) } else { 0 },
        b < n ==> sum_counts(cells[b]) <= sum_cells(cells, n),
        sum_cells(cells, n) >= 0,
    decreases n,
{
    if n > 0 {
        lemma_sum_cells_update(cells, b, t, n - 1);
        lemma_sum_counts_nonneg(cells[n - 1]);
    }
}

pub proof fn lemma_sum_counts_take<T>(s: Seq<(T, u64)>, k: int)
    requires
        0 <= k < s.len(),
    ensures
        sum_counts(s.take(k + 1)) == sum_counts(s.take(k)) + s[k].1,
        sum_counts(s.take(k + 1)) <= sum_counts(s),
    decreases s.len() - k,
{
    assert(s.take(k + 1).drop_last() =~= s.take(k));
    if k + 1 < s.len() {
        lemma_sum_counts_take(s, k + 1);
    } else {
        assert(s.take(k + 1) =~= s);
    }
}

pub proof fn lemma_sum_cells_mono<T>(cells: Seq<Seq<(T, u64)>>, a: int, n: int)
    requires
        0 <= a <= n,
    ensures
        sum_cells(cells, a) <= sum_cells(cells, n),
    decreases n - a,
{
    if a < n {
        lemma_sum_cells_mono(cells, a, n - 1);
        lemma_sum_counts_nonneg(cells[n - 1]);
    }
}

pub proof fn lemma_total_nonneg<T: Entity>(idx: Index<T>)
    ensures
        idx.total() >= 0,
{
    lemma_sum_cells_mono(idx.cells(), 0, idx.cells().len() as int);
}

} // verus!
