use vstd::prelude::*;
use vstd::slice::slice_to_vec;

use crate::order::{
    bytes_lt, compare_bytes, lemma_bytes_lt_asymmetric, lemma_bytes_lt_total,
    lemma_bytes_lt_transitive,
};
use crate::temperature::fits_i16;

verus! {

/// The largest magnitude of an `i16` measurement.
pub const MAX_MAGNITUDE: i128 = 32768;

/// Running statistics of one key, as mathematical integers.
pub struct Stat {
    pub min: int,
    pub sum: int,
    pub count: nat,
    pub max: int,
}

/// The state of a key before its first measurement: minimum at the top of
/// the range, maximum at the bottom, nothing counted.
pub open spec fn seed() -> Stat {
    Stat { min: i16::MAX as int, sum: 0, count: 0, max: i16::MIN as int }
}

/// Folds one measurement into a key's statistics.
pub open spec fn step(s: Stat, v: int) -> Stat {
    Stat {
        min: if v < s.min { v } else { s.min },
        sum: s.sum + v,
        count: s.count + 1,
        max: if v > s.max { v } else { s.max },
    }
}

/// Running statistics of one key: minimum and maximum in tenths, the sum in a
/// wide integer, and the number of measurements.
#[derive(Clone, Copy, Debug)]
pub struct Accumulator {
    pub min: i16,
    pub sum: i128,
    pub count: u64,
    pub max: i16,
}

impl View for Accumulator {
    type V = Stat;

    open spec fn view(&self) -> Stat {
        Stat {
            min: self.min as int,
            sum: self.sum as int,
            count: self.count as nat,
            max: self.max as int,
        }
    }
}

impl Accumulator {
    /// The sum is bounded by what `count` measurements of an `i16` can add up to.
    pub open spec fn wf(&self) -> bool {
        -(self.count * MAX_MAGNITUDE) <= self.sum <= self.count * MAX_MAGNITUDE
    }

    /// An accumulator that has seen nothing yet.
    pub fn new() -> (r: Accumulator)
        ensures
            r@ == seed(),
            r.wf(),
    {
        Accumulator { min: i16::MAX, sum: 0, count: 0, max: i16::MIN }
    }

    /// Folds one measurement in.
    pub fn add(&mut self, v: i16)
        requires
            old(self).wf(),
            old(self).count < u64::MAX,
        ensures
            final(self)@ == step(old(self)@, v as int),
            final(self).wf(),
    {
        proof {
            assert(self.count * MAX_MAGNITUDE <= u64::MAX * MAX_MAGNITUDE) by (nonlinear_arith)
                requires
                    self.count <= u64::MAX,
            ;
            assert((self.count + 1) * MAX_MAGNITUDE == self.count * MAX_MAGNITUDE
                + MAX_MAGNITUDE) by (nonlinear_arith);
        }
        if v < self.min {
            self.min = v;
        }
        if v > self.max {
            self.max = v;
        }
        self.sum = self.sum + v as i128;
        self.count = self.count + 1;
    }
}

/// A table entry: a key and its statistics.
pub type Entry = (Seq<u8>, Stat);

/// The entries' keys are in strictly increasing byte-wise order.
pub open spec fn is_sorted(es: Seq<Entry>) -> bool {
    forall|i: int, j: int| 0 <= i < j < es.len() ==> bytes_lt(#[trigger] es[i].0, #[trigger] es[j].0)
}

/// The statistics of key `k`, if it has any.
pub open spec fn lookup(es: Seq<Entry>, k: Seq<u8>) -> Option<Stat>
    decreases es.len(),
{
    if es.len() == 0 {
        None
    } else if es.last().0 == k {
        Some(es.last().1)
    } else {
        lookup(es.drop_last(), k)
    }
}

/// Records measurement `v` of key `k` in a sorted table: the key's entry is
/// updated, or a new entry is made at its place in the order.
pub open spec fn insert_record(es: Seq<Entry>, k: Seq<u8>, v: int) -> Seq<Entry>
    decreases es.len(),
{
    if es.len() == 0 {
        seq![(k, step(seed(), v))]
    } else if es.last().0 == k {
        es.drop_last().push((k, step(es.last().1, v)))
    } else if bytes_lt(es.last().0, k) {
        es.push((k, step(seed(), v)))
    } else {
        insert_record(es.drop_last(), k, v).push(es.last())
    }
}

/// The table that a sequence of records leaves, starting from an empty one.
pub open spec fn aggregate(recs: Seq<(Seq<u8>, int)>) -> Seq<Entry>
    decreases recs.len(),
{
    if recs.len() == 0 {
        seq![]
    } else {
        insert_record(aggregate(recs.drop_last()), recs.last().0, recs.last().1)
    }
}

proof fn lemma_insert_found(es: Seq<Entry>, k: Seq<u8>, v: int, p: int)
    requires
        is_sorted(es),
        0 <= p < es.len(),
        es[p].0 == k,
    ensures
        insert_record(es, k, v) == es.update(p, (k, step(es[p].1, v))),
    decreases es.len(),
{
    let n = es.len() - 1;
    if p == n {
        assert(es.drop_last().push((k, step(es.last().1, v))) =~= es.update(
            p,
            (k, step(es[p].1, v)),
        ));
    } else {
        assert(bytes_lt(es[p].0, es[n].0));
        lemma_bytes_lt_asymmetric(k, es[n].0);
        let d = es.drop_last();
        assert(is_sorted(d));
        assert(d[p] == es[p]);
        lemma_insert_found(d, k, v, p);
        assert(d.update(p, (k, step(es[p].1, v))).push(es.last()) =~= es.update(
            p,
            (k, step(es[p].1, v)),
        ));
    }
}

proof fn lemma_insert_new(es: Seq<Entry>, k: Seq<u8>, v: int, p: int)
    requires
        0 <= p <= es.len(),
        forall|j: int| 0 <= j < p ==> bytes_lt(#[trigger] es[j].0, k),
        forall|j: int| p <= j < es.len() ==> bytes_lt(k, #[trigger] es[j].0),
    ensures
        insert_record(es, k, v) == es.insert(p, (k, step(seed(), v))),
    decreases es.len(),
{
    if es.len() == 0 {
        assert(seq![(k, step(seed(), v))] =~= es.insert(p, (k, step(seed(), v))));
    } else {
        let n = es.len() - 1;
        if p == es.len() {
            lemma_bytes_lt_asymmetric(es[n].0, k);
            assert(es.push((k, step(seed(), v))) =~= es.insert(p, (k, step(seed(), v))));
        } else {
            lemma_bytes_lt_asymmetric(k, es[n].0);
            let d = es.drop_last();
            assert forall|j: int| 0 <= j < p implies bytes_lt(#[trigger] d[j].0, k) by {
                assert(d[j] == es[j]);
            }
            assert forall|j: int| p <= j < d.len() implies bytes_lt(k, #[trigger] d[j].0) by {
                assert(d[j] == es[j]);
            }
            lemma_insert_new(d, k, v, p);
            assert(d.insert(p, (k, step(seed(), v))).push(es.last()) =~= es.insert(
                p,
                (k, step(seed(), v)),
            ));
        }
    }
}

/// The measurements of key `k`, in the order of the records.
pub open spec fn values_of(recs: Seq<(Seq<u8>, int)>, k: Seq<u8>) -> Seq<int>
    decreases recs.len(),
{
    if recs.len() == 0 {
        seq![]
    } else {
        let rest = values_of(recs.drop_last(), k);
        if recs.last().0 == k {
            rest.push(recs.last().1)
        } else {
            rest
        }
    }
}

/// The least of a non-empty sequence.
pub open spec fn seq_min(vs: Seq<int>) -> int
    decreases vs.len(),
{
    if vs.len() <= 1 {
        vs[0]
    } else {
        let m = seq_min(vs.drop_last());
        if vs.last() < m {
            vs.last()
        } else {
            m
        }
    }
}

/// The greatest of a non-empty sequence.
pub open spec fn seq_max(vs: Seq<int>) -> int
    decreases vs.len(),
{
    if vs.len() <= 1 {
        vs[0]
    } else {
        let m = seq_max(vs.drop_last());
        if vs.last() > m {
            vs.last()
        } else {
            m
        }
    }
}

pub open spec fn seq_sum(vs: Seq<int>) -> int
    decreases vs.len(),
{
    if vs.len() == 0 {
        0
    } else {
        seq_sum(vs.drop_last()) + vs.last()
    }
}

/// Minimum, sum, count and maximum of a sequence of measurements.
pub open spec fn stat_of(vs: Seq<int>) -> Stat {
    Stat { min: seq_min(vs), sum: seq_sum(vs), count: vs.len(), max: seq_max(vs) }
}

/// Every measurement fits the fixed-point type.
pub open spec fn values_fit(recs: Seq<(Seq<u8>, int)>) -> bool {
    forall|i: int| 0 <= i < recs.len() ==> fits_i16(#[trigger] recs[i].1)
}

proof fn lemma_insert_bounded(es: Seq<Entry>, k: Seq<u8>, v: int, b: Seq<u8>)
    requires
        forall|i: int| 0 <= i < es.len() ==> bytes_lt(#[trigger] es[i].0, b),
        bytes_lt(k, b),
    ensures
        forall|i: int|
            0 <= i < insert_record(es, k, v).len() ==> bytes_lt(
                #[trigger] insert_record(es, k, v)[i].0,
                b,
            ),
    decreases es.len(),
{
    let r = insert_record(es, k, v);
    if es.len() > 0 && es.last().0 != k && !bytes_lt(es.last().0, k) {
        let d = es.drop_last();
        assert forall|i: int| 0 <= i < d.len() implies bytes_lt(#[trigger] d[i].0, b) by {
            assert(d[i] == es[i]);
        }
        lemma_insert_bounded(d, k, v, b);
        assert forall|i: int| 0 <= i < r.len() implies bytes_lt(#[trigger] r[i].0, b) by {
            if i < r.len() - 1 {
                assert(r[i] == insert_record(d, k, v)[i]);
            }
        }
    } else if es.len() > 0 && es.last().0 == k {
        assert forall|i: int| 0 <= i < r.len() implies bytes_lt(#[trigger] r[i].0, b) by {
            if i < r.len() - 1 {
                assert(r[i] == es[i]);
            }
        }
    } else if es.len() > 0 {
        assert forall|i: int| 0 <= i < r.len() implies bytes_lt(#[trigger] r[i].0, b) by {
            if i < r.len() - 1 {
                assert(r[i] == es[i]);
            }
        }
    }
}

proof fn lemma_insert_sorted(es: Seq<Entry>, k: Seq<u8>, v: int)
    requires
        is_sorted(es),
    ensures
        is_sorted(insert_record(es, k, v)),
    decreases es.len(),
{
    let r = insert_record(es, k, v);
    if es.len() == 0 {
    } else if es.last().0 == k {
        assert forall|i: int, j: int| 0 <= i < j < r.len() implies bytes_lt(
            #[trigger] r[i].0,
            #[trigger] r[j].0,
        ) by {
            assert(r[i].0 == es[i].0);
            assert(r[j].0 == es[j].0);
        }
    } else if bytes_lt(es.last().0, k) {
        assert forall|i: int, j: int| 0 <= i < j < r.len() implies bytes_lt(
            #[trigger] r[i].0,
            #[trigger] r[j].0,
        ) by {
            assert(r[i] == es[i]);
            if j == es.len() {
                if i < es.len() - 1 {
                    lemma_bytes_lt_transitive(es[i].0, es.last().0, k);
                }
            } else {
                assert(r[j] == es[j]);
            }
        }
    } else {
        let last = es.last();
        let d = es.drop_last();
        lemma_bytes_lt_total(last.0, k);
        assert(is_sorted(d));
        lemma_insert_sorted(d, k, v);
        assert forall|i: int| 0 <= i < d.len() implies bytes_lt(#[trigger] d[i].0, last.0) by {
            assert(d[i] == es[i]);
        }
        lemma_insert_bounded(d, k, v, last.0);
        let r0 = insert_record(d, k, v);
        assert forall|i: int, j: int| 0 <= i < j < r.len() implies bytes_lt(
            #[trigger] r[i].0,
            #[trigger] r[j].0,
        ) by {
            assert(r[i] == r0[i]);
            if j < r0.len() {
                assert(r[j] == r0[j]);
            }
        }
    }
}

/// The table that any sequence of records leaves has its keys in strictly
/// increasing byte-wise order, so no key appears twice.
pub proof fn lemma_aggregate_sorted(recs: Seq<(Seq<u8>, int)>)
    ensures
        is_sorted(aggregate(recs)),
    decreases recs.len(),
{
    if recs.len() > 0 {
        lemma_aggregate_sorted(recs.drop_last());
        lemma_insert_sorted(aggregate(recs.drop_last()), recs.last().0, recs.last().1);
    }
}

proof fn lemma_lookup_absent(es: Seq<Entry>, k: Seq<u8>)
    requires
        forall|i: int| 0 <= i < es.len() ==> #[trigger] es[i].0 != k,
    ensures
        lookup(es, k) is None,
    decreases es.len(),
{
    if es.len() > 0 {
        let d = es.drop_last();
        assert forall|i: int| 0 <= i < d.len() implies #[trigger] d[i].0 != k by {
            assert(d[i] == es[i]);
        }
        lemma_lookup_absent(d, k);
    }
}

/// The statistics of `k` before a measurement of it; the seed when it has none.
pub open spec fn current(es: Seq<Entry>, k: Seq<u8>) -> Stat {
    match lookup(es, k) {
        Some(s) => s,
        None => seed(),
    }
}

proof fn lemma_lookup_insert(es: Seq<Entry>, k: Seq<u8>, v: int, k2: Seq<u8>)
    requires
        is_sorted(es),
    ensures
        lookup(insert_record(es, k, v), k2) == if k2 == k {
            Some(step(current(es, k), v))
        } else {
            lookup(es, k2)
        },
    decreases es.len(),
{
    let r = insert_record(es, k, v);
    if es.len() == 0 {
        assert(r.drop_last() =~= Seq::<Entry>::empty());
        assert(lookup(r.drop_last(), k2) is None);
        assert(current(es, k) == seed());
    } else if es.last().0 == k {
        assert(r.drop_last() == es.drop_last());
    } else if bytes_lt(es.last().0, k) {
        assert(r.drop_last() == es);
        if k2 == k {
            assert forall|i: int| 0 <= i < es.len() implies #[trigger] es[i].0 != k by {
                if i < es.len() - 1 {
                    lemma_bytes_lt_transitive(es[i].0, es.last().0, k);
                }
                lemma_bytes_lt_asymmetric(es[i].0, k);
            }
            lemma_lookup_absent(es, k);
        }
    } else {
        let d = es.drop_last();
        assert(is_sorted(d));
        lemma_lookup_insert(d, k, v, k2);
        assert(r.drop_last() == insert_record(d, k, v));
        assert(r.last() == es.last());
        assert(current(es, k) == current(d, k));
    }
}

/// After a sequence of records, each key's statistics are exactly the
/// minimum, sum, count and maximum of that key's measurements; a key without
/// measurements has no entry.
pub proof fn lemma_aggregate_lookup(recs: Seq<(Seq<u8>, int)>, k: Seq<u8>)
    requires
        values_fit(recs),
    ensures
        lookup(aggregate(recs), k) == if values_of(recs, k).len() == 0 {
            None
        } else {
            Some(stat_of(values_of(recs, k)))
        },
    decreases recs.len(),
{
    if recs.len() > 0 {
        let rs = recs.drop_last();
        let (k1, v) = recs.last();
        assert(fits_i16(recs[recs.len() - 1].1));
        assert(values_fit(rs)) by {
            assert forall|i: int| 0 <= i < rs.len() implies fits_i16(#[trigger] rs[i].1) by {
                assert(rs[i] == recs[i]);
            }
        }
        lemma_aggregate_lookup(rs, k);
        lemma_aggregate_sorted(rs);
        lemma_lookup_insert(aggregate(rs), k1, v, k);
        if k == k1 {
            let vs = values_of(rs, k);
            assert(values_of(recs, k) == vs.push(v));
            assert(vs.push(v).drop_last() == vs);
            if vs.len() == 0 {
                assert(vs.push(v).drop_last() =~= Seq::<int>::empty());
                assert(seq_sum(Seq::<int>::empty()) == 0);
                assert(stat_of(vs.push(v)) == step(seed(), v));
            } else {
                assert(stat_of(vs.push(v)) == step(stat_of(vs), v));
            }
        } else {
            assert(values_of(recs, k) == values_of(rs, k));
        }
    } else {
        assert(aggregate(recs) == Seq::<Entry>::empty());
    }
}

/// In a sorted table, `lookup` finds the entry that holds the key.
pub proof fn lemma_lookup_sorted(es: Seq<Entry>, p: int)
    requires
        is_sorted(es),
        0 <= p < es.len(),
    ensures
        lookup(es, es[p].0) == Some(es[p].1),
    decreases es.len(),
{
    let n = es.len() - 1;
    if p < n {
        lemma_bytes_lt_asymmetric(es[p].0, es[n].0);
        let d = es.drop_last();
        assert(is_sorted(d));
        assert(d[p] == es[p]);
        lemma_lookup_sorted(d, p);
    }
}

proof fn lemma_lookup_update(es: Seq<Entry>, p: int, s: Stat, k2: Seq<u8>)
    requires
        0 <= p < es.len(),
        k2 != es[p].0,
    ensures
        lookup(es.update(p, (es[p].0, s)), k2) == lookup(es, k2),
    decreases es.len(),
{
    let u = es.update(p, (es[p].0, s));
    if p < es.len() - 1 {
        lemma_lookup_update(es.drop_last(), p, s, k2);
        assert(u.drop_last() =~= es.drop_last().update(p, (es[p].0, s)));
    } else {
        assert(u.drop_last() =~= es.drop_last());
    }
}

proof fn lemma_lookup_insert_at(es: Seq<Entry>, p: int, e: Entry, k2: Seq<u8>)
    requires
        0 <= p <= es.len(),
        k2 != e.0,
    ensures
        lookup(es.insert(p, e), k2) == lookup(es, k2),
    decreases es.len(),
{
    let u = es.insert(p, e);
    if p < es.len() {
        lemma_lookup_insert_at(es.drop_last(), p, e, k2);
        assert(u.drop_last() =~= es.drop_last().insert(p, e));
    } else {
        assert(u.drop_last() =~= es);
    }
}

/// What `lookup` finds stands in the table; what it misses does not.
pub proof fn lemma_lookup_position(es: Seq<Entry>, k: Seq<u8>)
    ensures
        match lookup(es, k) {
            Some(s) => exists|i: int| 0 <= i < es.len() && #[trigger] es[i] == (k, s),
            None => forall|i: int| 0 <= i < es.len() ==> #[trigger] es[i].0 != k,
        },
    decreases es.len(),
{
    if es.len() > 0 {
        let d = es.drop_last();
        lemma_lookup_position(d, k);
        if es.last().0 == k {
            assert(es[es.len() - 1] == (k, es.last().1));
        } else {
            match lookup(d, k) {
                Some(s) => {
                    let i = choose|i: int| 0 <= i < d.len() && #[trigger] d[i] == (k, s);
                    assert(es[i] == d[i]);
                },
                None => {
                    assert forall|i: int| 0 <= i < es.len() implies #[trigger] es[i].0 != k by {
                        if i < d.len() {
                            assert(es[i] == d[i]);
                        }
                    }
                },
            }
        }
    }
}

/// Statistics per key, kept in byte-wise order of the keys.
pub struct StationTable {
    keys: Vec<Vec<u8>>,
    accs: Vec<Accumulator>,
}

impl View for StationTable {
    type V = Seq<Entry>;

    closed spec fn view(&self) -> Seq<Entry> {
        Seq::new(self.keys@.len(), |i: int| (self.keys@[i]@, self.accs@[i]@))
    }
}

impl StationTable {
    /// The keys are strictly increasing, and the accumulators are sound.
    pub open spec fn wf(&self) -> bool {
        is_sorted(self@) && self.parts_wf()
    }

    /// Keys and accumulators pair up, and every accumulator has seen at least
    /// one measurement and holds a sum within its bound.
    pub closed spec fn parts_wf(&self) -> bool {
        &&& self.keys@.len() == self.accs@.len()
        &&& forall|i: int| 0 <= i < self.accs@.len() ==> (#[trigger] self.accs@[i]).wf()
        &&& forall|i: int| 0 <= i < self.accs@.len() ==> (#[trigger] self.accs@[i]).count >= 1
    }

    /// Every count in the table is below `bound`.
    pub closed spec fn counts_below(&self, bound: int) -> bool {
        forall|i: int| 0 <= i < self.accs@.len() ==> (#[trigger] self.accs@[i]).count < bound
    }

    /// A bound on the counts holds of every larger bound.
    pub proof fn lemma_counts_below_larger(&self, a: int, b: int)
        requires
            self.counts_below(a),
            a <= b,
        ensures
            self.counts_below(b),
    {
    }

    /// An empty table.
    pub fn new() -> (r: StationTable)
        ensures
            r.wf(),
            r@ == Seq::<Entry>::empty(),
            r.counts_below(1),
    {
        let r = StationTable { keys: Vec::new(), accs: Vec::new() };
        assert(r@ =~= Seq::<Entry>::empty());
        r
    }

    /// The number of keys.
    pub fn len(&self) -> (r: usize)
        requires
            self.wf(),
        ensures
            r == self@.len(),
    {
        self.keys.len()
    }

    /// The key at position `i` in byte-wise order.
    pub fn key(&self, i: usize) -> (r: &[u8])
        requires
            self.wf(),
            i < self@.len(),
        ensures
            r@ == self@[i as int].0,
    {
        self.keys[i].as_slice()
    }

    /// The accumulator at position `i` in byte-wise order.
    pub fn accumulator(&self, i: usize) -> (r: Accumulator)
        requires
            self.wf(),
            i < self@.len(),
        ensures
            r@ == self@[i as int].1,
            r.wf(),
            r.count >= 1,
    {
        self.accs[i]
    }

    /// Where `k` stands: `Ok(p)` when the key at `p` is `k`; `Err(p)` when `k`
    /// is absent and belongs at `p`.
    fn search(&self, k: &[u8]) -> (r: Result<usize, usize>)
        requires
            self.wf(),
        ensures
            match r {
                Ok(p) => p < self@.len() && self@[p as int].0 == k@,
                Err(p) => {
                    &&& p <= self@.len()
                    &&& forall|j: int| 0 <= j < p ==> bytes_lt(#[trigger] self@[j].0, k@)
                    &&& forall|j: int| p <= j < self@.len() ==> bytes_lt(k@, #[trigger] self@[j].0)
                },
            },
    {
        let mut lo: usize = 0;
        let mut hi: usize = self.keys.len();
        while lo < hi
            invariant
                self.wf(),
                lo <= hi <= self@.len(),
                forall|j: int| 0 <= j < lo ==> bytes_lt(#[trigger] self@[j].0, k@),
                forall|j: int| hi <= j < self@.len() ==> bytes_lt(k@, #[trigger] self@[j].0),
            decreases hi - lo,
        {
            let mid = lo + (hi - lo) / 2;
            let c = compare_bytes(self.keys[mid].as_slice(), k);
            assert(self@[mid as int].0 == self.keys@[mid as int]@);
            match c {
                core::cmp::Ordering::Equal => {
                    return Ok(mid);
                },
                core::cmp::Ordering::Less => {
                    assert forall|j: int| 0 <= j < mid + 1 implies bytes_lt(
                        #[trigger] self@[j].0,
                        k@,
                    ) by {
                        if j < mid {
                            lemma_bytes_lt_transitive(self@[j].0, self@[mid as int].0, k@);
                        }
                    }
                    lo = mid + 1;
                },
                core::cmp::Ordering::Greater => {
                    assert forall|j: int| mid <= j < self@.len() implies bytes_lt(
                        k@,
                        #[trigger] self@[j].0,
                    ) by {
                        if j > mid {
                            lemma_bytes_lt_transitive(k@, self@[mid as int].0, self@[j].0);
                        }
                    }
                    hi = mid;
                },
            }
        }
        Err(lo)
    }

    /// The accumulator of key `k`, if the table has one.
    pub fn get(&self, k: &[u8]) -> (r: Option<Accumulator>)
        requires
            self.wf(),
        ensures
            match r {
                Some(a) => lookup(self@, k@) == Some(a@),
                None => lookup(self@, k@) is None,
            },
    {
        match self.search(k) {
            Ok(p) => {
                proof {
                    lemma_lookup_sorted(self@, p as int);
                }
                Some(self.accs[p])
            },
            Err(p) => {
                proof {
                    assert forall|i: int| 0 <= i < self@.len() implies #[trigger] self@[i].0
                        != k@ by {
                        if i < p {
                            lemma_bytes_lt_asymmetric(self@[i].0, k@);
                        } else {
                            lemma_bytes_lt_asymmetric(k@, self@[i].0);
                        }
                    }
                    lemma_lookup_absent(self@, k@);
                }
                None
            },
        }
    }

    /// Sets the accumulator of key `k`, adding the key if it is new.
    pub fn insert(&mut self, k: &[u8], a: Accumulator)
        requires
            old(self).wf(),
            a.wf(),
            a.count >= 1,
        ensures
            final(self).wf(),
            lookup(final(self)@, k@) == Some(a@),
            forall|k2: Seq<u8>| k2 != k@ ==> lookup(final(self)@, k2) == lookup(old(self)@, k2),
    {
        let ghost before = self@;
        match self.search(k) {
            Ok(p) => {
                self.accs.set(p, a);
                assert(self@ =~= before.update(p as int, (k@, a@)));
                assert forall|i: int, j: int| 0 <= i < j < self@.len() implies bytes_lt(
                    #[trigger] self@[i].0,
                    #[trigger] self@[j].0,
                ) by {
                    assert(self@[i].0 == before[i].0);
                    assert(self@[j].0 == before[j].0);
                }
                proof {
                    lemma_lookup_sorted(self@, p as int);
                    assert forall|k2: Seq<u8>| k2 != k@ implies lookup(self@, k2) == lookup(
                        before,
                        k2,
                    ) by {
                        lemma_lookup_update(before, p as int, a@, k2);
                    }
                }
            },
            Err(p) => {
                self.keys.insert(p, slice_to_vec(k));
                self.accs.insert(p, a);
                assert(self@ =~= before.insert(p as int, (k@, a@)));
                assert forall|i: int, j: int| 0 <= i < j < self@.len() implies bytes_lt(
                    #[trigger] self@[i].0,
                    #[trigger] self@[j].0,
                ) by {
                    if i < p && j > p {
                        lemma_bytes_lt_transitive(self@[i].0, k@, self@[j].0);
                    }
                }
                proof {
                    lemma_lookup_sorted(self@, p as int);
                    assert forall|k2: Seq<u8>| k2 != k@ implies lookup(self@, k2) == lookup(
                        before,
                        k2,
                    ) by {
                        lemma_lookup_insert_at(before, p as int, (k@, a@), k2);
                    }
                }
            },
        }
    }

    /// Records measurement `v` of key `k`.
    pub fn record(&mut self, k: &[u8], v: i16)
        requires
            old(self).wf(),
            old(self).counts_below(u64::MAX as int),
        ensures
            final(self).wf(),
            final(self)@ == insert_record(old(self)@, k@, v as int),
            forall|b: int|
                b >= 1 && old(self).counts_below(b) ==> #[trigger] final(self).counts_below(b + 1),
    {
        match self.search(k) {
            Ok(p) => {
                proof {
                    lemma_insert_found(self@, k@, v as int, p as int);
                }
                let mut acc = self.accs[p];
                acc.add(v);
                self.accs.set(p, acc);
                assert(self@ =~= insert_record(old(self)@, k@, v as int));
                assert(self.accs@ == old(self).accs@.update(p as int, acc));
            },
            Err(p) => {
                proof {
                    lemma_insert_new(self@, k@, v as int, p as int);
                }
                let mut acc = Accumulator::new();
                acc.add(v);
                let ghost before = self@;
                self.keys.insert(p, slice_to_vec(k));
                self.accs.insert(p, acc);
                assert(self@ =~= before.insert(p as int, (k@, step(seed(), v as int))));
                assert(self.accs@ == old(self).accs@.insert(p as int, acc));
                assert forall|i: int, j: int| 0 <= i < j < self@.len() implies bytes_lt(
                    #[trigger] self@[i].0,
                    #[trigger] self@[j].0,
                ) by {
                    if i < p && j > p {
                        lemma_bytes_lt_transitive(self@[i].0, k@, self@[j].0);
                    }
                }
            },
        }
    }
}

} // verus!
