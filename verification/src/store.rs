//! Watermark index store.
//!
//! A persistent map from fingerprint keys to watermark records.  Each record
//! holds the signed asset's storage path and the original (unthresholded)
//! soft-bit vector.  Insertion is last-write-wins on the fingerprint key, and
//! lookup is a linear scan for the stored vector with the least squared
//! distance to a probe, skipping records of a different length.  Ties break
//! on the earliest record in iteration order, which no caller may rely on.

use vstd::prelude::*;
use vstd::pervasive::VecAdditionalExecFns;
use crate::fingerprint::{fingerprint, fingerprint_spec};

verus! {

/// The mathematical content of one stored record.
pub struct RecordView {
    pub path: Seq<char>,
    pub bits: Seq<u32>,
}

/// One stored record: the signed asset's path and its original soft bits.
pub struct VideoRecord {
    pub path: String,
    pub message_bits: Vec<u32>,
}

impl View for VideoRecord {
    type V = RecordView;

    open spec fn view(&self) -> RecordView {
        RecordView { path: self.path@, bits: self.message_bits@ }
    }
}

/// Copies a soft-bit vector.
pub fn copy_bits(v: &Vec<u32>) -> (r: Vec<u32>)
    ensures
        r@ == v@,
{
    let mut r: Vec<u32> = Vec::new();
    let mut i: usize = 0;
    while i < v.len()
        invariant
            i <= v@.len(),
            r@ =~= v@.subrange(0, i as int),
        decreases v@.len() - i,
    {
        r.push(v[i]);
        i += 1;
    }
    assert(r@ =~= v@);
    r
}

impl VideoRecord {
    /// An independent copy with the same view.
    pub fn duplicate(&self) -> (r: Self)
        ensures
            r@ == self@,
    {
        VideoRecord { path: self.path.clone(), message_bits: copy_bits(&self.message_bits) }
    }
}

/// The square of an integer.
pub open spec fn sq(x: int) -> int {
    x * x
}

/// Sum of squared element-wise differences of two equal-length vectors.
pub open spec fn dist_spec(a: Seq<u32>, b: Seq<u32>) -> int
    decreases a.len(),
{
    if a.len() == 0 || b.len() == 0 {
        0
    } else {
        dist_spec(a.drop_last(), b.drop_last()) + sq(a.last() - b.last())
    }
}

/// The squared distance is nonnegative and zero exactly on equal vectors.
pub proof fn lemma_dist_zero(a: Seq<u32>, b: Seq<u32>)
    requires
        a.len() == b.len(),
    ensures
        dist_spec(a, b) >= 0,
        (dist_spec(a, b) == 0) <==> a == b,
    decreases a.len(),
{
    if a.len() == 0 {
        assert(a =~= b);
    } else {
        lemma_dist_zero(a.drop_last(), b.drop_last());
        let x = a.last() - b.last();
        assert(sq(x) >= 0 && (sq(x) == 0 <==> x == 0)) by (nonlinear_arith);
        assert(a =~= a.drop_last().push(a.last()));
        assert(b =~= b.drop_last().push(b.last()));
        if dist_spec(a, b) == 0 {
            assert(a.drop_last() == b.drop_last() && a.last() == b.last());
        }
        if a == b {
            assert(a.drop_last() =~= b.drop_last());
        }
    }
}

/// The squared distance between two equal-length soft-bit vectors.
pub fn sq_dist(a: &Vec<u32>, b: &Vec<u32>) -> (r: u128)
    requires
        a@.len() == b@.len(),
    ensures
        r == dist_spec(a@, b@),
{
    let mut sum: u128 = 0;
    let mut i: usize = 0;
    while i < a.len()
        invariant
            i <= a@.len(),
            a@.len() == b@.len(),
            sum == dist_spec(a@.subrange(0, i as int), b@.subrange(0, i as int)),
            sum <= i * 18446744065119617025,
        decreases a@.len() - i,
    {
        let x = a[i];
        let y = b[i];
        let diff: u64 = if x >= y { (x - y) as u64 } else { (y - x) as u64 };
        proof {
            assert(diff as int * diff as int <= 18446744065119617025) by (nonlinear_arith)
                requires diff <= 4294967295;
        }
        let d2: u128 = (diff as u128) * (diff as u128);
        proof {
            let pa = a@.subrange(0, i as int);
            let pb = b@.subrange(0, i as int);
            let ca = a@.subrange(0, i + 1);
            let cb = b@.subrange(0, i + 1);
            assert(ca.drop_last() =~= pa && cb.drop_last() =~= pb);
            assert(diff == x - y || diff == y - x);
            assert(d2 == sq(x - y) && 0 <= d2 <= 18446744065119617025) by (nonlinear_arith)
                requires
                    d2 == diff as int * diff as int,
                    (diff == x - y || diff == y - x),
                    x <= 4294967295 && y <= 4294967295;
            assert(dist_spec(ca, cb) == sum + d2);
        }
        sum = sum + d2;
        i += 1;
    }
    proof {
        assert(a@.subrange(0, a@.len() as int) =~= a@);
        assert(b@.subrange(0, b@.len() as int) =~= b@);
    }
    sum
}

/// A record whose stored vector can be compared against the probe.
pub open spec fn compatible(r: RecordView, probe: Seq<u32>) -> bool {
    r.bits.len() == probe.len()
}

/// The linear-scan winner over a record sequence: the index and squared
/// distance of the first length-compatible record with the least distance,
/// or `None` when no record is length-compatible.
pub open spec fn best_of(s: Seq<RecordView>, probe: Seq<u32>) -> Option<(int, int)>
    decreases s.len(),
{
    if s.len() == 0 {
        None
    } else {
        let pre = best_of(s.drop_last(), probe);
        let i = s.len() - 1;
        if compatible(s[i], probe) {
            let d = dist_spec(s[i].bits, probe);
            match pre {
                None => Some((i, d)),
                Some((j, dj)) => if d < dj { Some((i, d)) } else { Some((j, dj)) },
            }
        } else {
            pre
        }
    }
}

/// What the winner satisfies: it is a compatible record of least squared
/// distance, and the earliest such record in iteration order.
pub proof fn lemma_best_min(s: Seq<RecordView>, probe: Seq<u32>)
    ensures
        (best_of(s, probe) is None) <==> (forall|i: int| 0 <= i < s.len() ==> !compatible(#[trigger] s[i], probe)),
        best_of(s, probe) matches Some(p) ==> {
            &&& 0 <= p.0 < s.len()
            &&& compatible(s[p.0], probe)
            &&& p.1 == dist_spec(s[p.0].bits, probe)
            &&& forall|i: int| 0 <= i < s.len() && compatible(#[trigger] s[i], probe)
                ==> p.1 <= dist_spec(s[i].bits, probe)
            &&& forall|i: int| 0 <= i < p.0 && compatible(#[trigger] s[i], probe)
                ==> p.1 < dist_spec(s[i].bits, probe)
        },
    decreases s.len(),
{
    if s.len() > 0 {
        lemma_best_min(s.drop_last(), probe);
        assert(forall|i: int| 0 <= i < s.len() - 1 ==> s.drop_last()[i] == #[trigger] s[i]);
    }
}

/// One row of the persisted flat keyed structure: the fingerprint key and
/// the record it indexes.
pub struct IndexEntry {
    pub key: String,
    pub record: VideoRecord,
}

/// The watermark index store.
pub struct VideoStore {
    entries: Vec<IndexEntry>,
}

/// No two records share a fingerprint.
pub open spec fn distinct_fingerprints(s: Seq<RecordView>) -> bool {
    forall|i: int, j: int| #![trigger s[i], s[j]] 0 <= i < j < s.len()
        ==> fingerprint_spec(s[i].bits) != fingerprint_spec(s[j].bits)
}

/// Every stored vector is short enough for its fingerprint to be derived.
pub open spec fn bits_bounded(s: Seq<RecordView>) -> bool {
    forall|i: int| 0 <= i < s.len() ==> (#[trigger] s[i]).bits.len() < usize::MAX / 8
}

/// The position of the first record with the given fingerprint, or -1.
pub open spec fn fp_index(s: Seq<RecordView>, fp: Seq<char>) -> int
    decreases s.len(),
{
    if s.len() == 0 {
        -1
    } else if fingerprint_spec(s.first().bits) == fp {
        0
    } else {
        let r = fp_index(s.drop_first(), fp);
        if r == -1 { -1 } else { r + 1 }
    }
}

/// Last-write-wins insertion at the record's own fingerprint key.
pub open spec fn spec_insert(s: Seq<RecordView>, r: RecordView) -> Seq<RecordView> {
    let i = fp_index(s, fingerprint_spec(r.bits));
    if i == -1 { s.push(r) } else { s.update(i, r) }
}

/// What `fp_index` finds: the first matching record, if any matches.
pub proof fn lemma_fp_index(s: Seq<RecordView>, fp: Seq<char>)
    ensures
        (fp_index(s, fp) == -1) <==> (forall|i: int| 0 <= i < s.len()
            ==> #[trigger] fingerprint_spec(s[i].bits) != fp),
        fp_index(s, fp) != -1 ==> 0 <= fp_index(s, fp) < s.len()
            && fingerprint_spec(s[fp_index(s, fp)].bits) == fp
            && (forall|j: int| 0 <= j < fp_index(s, fp)
                ==> #[trigger] fingerprint_spec(s[j].bits) != fp),
    decreases s.len(),
{
    if s.len() > 0 {
        assert(s.first() == s[0]);
        if fingerprint_spec(s[0].bits) != fp {
            let d = s.drop_first();
            lemma_fp_index(d, fp);
            assert forall|i: int| 0 <= i < d.len() implies #[trigger] d[i] == s[i + 1] by {}
            if fp_index(s, fp) == -1 {
                assert(fp_index(d, fp) == -1);
                assert forall|i: int| 0 <= i < s.len()
                    implies #[trigger] fingerprint_spec(s[i].bits) != fp by {
                    if i > 0 {
                        assert(d[i - 1] == s[i]);
                        assert(fingerprint_spec(d[i - 1].bits) != fp);
                    }
                }
            } else {
                let k = fp_index(s, fp);
                assert(fp_index(d, fp) == k - 1);
                assert(s[k] == d[k - 1]);
                assert forall|j: int| 0 <= j < k
                    implies #[trigger] fingerprint_spec(s[j].bits) != fp by {
                    if j > 0 {
                        assert(d[j - 1] == s[j]);
                        assert(fingerprint_spec(d[j - 1].bits) != fp);
                    }
                }
            }
            if forall|i: int| 0 <= i < s.len() ==> #[trigger] fingerprint_spec(s[i].bits) != fp {
                assert forall|i: int| 0 <= i < d.len()
                    implies #[trigger] fingerprint_spec(d[i].bits) != fp by {
                    assert(d[i] == s[i + 1]);
                    assert(fingerprint_spec(s[i + 1].bits) != fp);
                }
                assert(fp_index(d, fp) == -1);
            }
        }
    }
}

/// `fp_index` returns the position whose record matches when nothing
/// before it does.
proof fn lemma_fp_index_is(s: Seq<RecordView>, fp: Seq<char>, i: int)
    requires
        0 <= i < s.len(),
        fingerprint_spec(s[i].bits) == fp,
        forall|j: int| 0 <= j < i ==> #[trigger] fingerprint_spec(s[j].bits) != fp,
    ensures
        fp_index(s, fp) == i,
    decreases s.len(),
{
    assert(s.first() == s[0]);
    if i > 0 {
        assert forall|k: int| 0 <= k < s.len() - 1
            implies #[trigger] s.drop_first()[k] == s[k + 1] by {}
        lemma_fp_index_is(s.drop_first(), fp, i - 1);
    }
}

impl View for VideoStore {
    type V = Seq<RecordView>;

    closed spec fn view(&self) -> Seq<RecordView> {
        self.entries@.map_values(|e: IndexEntry| e.record@)
    }
}

impl VideoStore {
    /// Every key names its record's fingerprint, fingerprints are unique,
    /// and every stored vector can be re-fingerprinted.
    pub closed spec fn wf(&self) -> bool {
        &&& forall|i: int| 0 <= i < self.entries@.len()
            ==> (#[trigger] self.entries@[i]).key@ == fingerprint_spec(self.entries@[i].record@.bits)
        &&& distinct_fingerprints(self@)
        &&& bits_bounded(self@)
    }

    /// A well-formed store has unique fingerprints and bounded vectors.
    pub proof fn lemma_wf_facts(&self)
        requires
            self.wf(),
        ensures
            distinct_fingerprints(self@),
            bits_bounded(self@),
    {
    }

    /// An empty store.
    pub fn new() -> (r: VideoStore)
        ensures
            r.wf(),
            r@ == Seq::<RecordView>::empty(),
    {
        let r = VideoStore { entries: Vec::new() };
        proof {
            assert(r@ =~= Seq::<RecordView>::empty());
        }
        r
    }

    /// How many records the store holds.
    pub fn record_count(&self) -> (n: usize)
        ensures
            n == self@.len(),
    {
        self.entries.len()
    }

    /// Inserts a record under its own fingerprint, replacing any record
    /// already stored under that fingerprint (last write wins).
    pub fn insert_record(&mut self, rec: VideoRecord) -> (key: String)
        requires
            old(self).wf(),
            rec@.bits.len() < usize::MAX / 8,
        ensures
            final(self).wf(),
            final(self)@ == spec_insert(old(self)@, rec@),
            key@ == fingerprint_spec(rec@.bits),
    {
        let key_out = fingerprint(&rec.message_bits);
        let entry = IndexEntry { key: fingerprint(&rec.message_bits), record: rec };
        let ghost fp = fingerprint_spec(entry.record@.bits);
        let ghost orig = self@;
        let mut i: usize = 0;
        while i < self.entries.len()
            invariant
                *self == *old(self),
                old(self).wf(),
                orig == old(self)@,
                i <= self.entries@.len(),
                entry.key@ == fp,
                key_out@ == fp,
                fp == fingerprint_spec(entry.record@.bits),
                entry.record@ == rec@,
                rec@.bits.len() < usize::MAX / 8,
                forall|j: int| 0 <= j < i ==> #[trigger] fingerprint_spec(self@[j].bits) != fp,
            decreases self.entries@.len() - i,
        {
            proof {
                assert(self.entries@[i as int].key@ == fingerprint_spec(self@[i as int].bits));
            }
            if self.entries[i].key == entry.key {
                proof {
                    assert(fingerprint_spec(orig[i as int].bits) == fp);
                    lemma_fp_index_is(orig, fp, i as int);
                }
                let ghost erec = entry.record@;
                self.entries.set(i, entry);
                proof {
                    assert(self@ =~= orig.update(i as int, erec));
                    assert(fingerprint_spec(erec.bits) == fp);
                    assert forall|a: int, b: int| #![trigger self@[a], self@[b]]
                        0 <= a < b < self@.len()
                        implies fingerprint_spec(self@[a].bits) != fingerprint_spec(self@[b].bits) by {
                        assert(fingerprint_spec(self@[a].bits) == fingerprint_spec(orig[a].bits));
                        assert(fingerprint_spec(self@[b].bits) == fingerprint_spec(orig[b].bits));
                    }
                    assert forall|k: int| 0 <= k < self.entries@.len()
                        implies (#[trigger] self.entries@[k]).key@
                            == fingerprint_spec(self.entries@[k].record@.bits) by {
                        if k != i {
                            assert(old(self).entries@[k].key@
                                == fingerprint_spec(old(self).entries@[k].record@.bits));
                        }
                    }
                    assert(bits_bounded(self@));
                }
                return key_out;
            }
            i += 1;
        }
        proof {
            lemma_fp_index(orig, fp);
            assert(fp_index(orig, fp) == -1);
        }
        let ghost erec = entry.record@;
        self.entries.push(entry);
        proof {
            assert(self@ =~= orig.push(erec));
            assert forall|a: int, b: int| #![trigger self@[a], self@[b]]
                0 <= a < b < self@.len()
                implies fingerprint_spec(self@[a].bits) != fingerprint_spec(self@[b].bits) by {
                if b < self@.len() - 1 {
                    assert(fingerprint_spec(orig[a].bits) != fingerprint_spec(orig[b].bits));
                } else {
                    assert(fingerprint_spec(self@[a].bits) != fp);
                }
            }
            assert forall|k: int| 0 <= k < self.entries@.len()
                implies (#[trigger] self.entries@[k]).key@
                    == fingerprint_spec(self.entries@[k].record@.bits) by {
                if k != self.entries@.len() - 1 {
                    assert(old(self).entries@[k].key@
                        == fingerprint_spec(old(self).entries@[k].record@.bits));
                }
            }
            assert(bits_bounded(self@));
        }
        key_out
    }
}


impl VideoStore {
    /// The nearest stored record to a probe vector: the first
    /// length-compatible record with the least squared distance, or `None`
    /// when the store holds no length-compatible record.
    pub fn nearest(&self, probe: &Vec<u32>) -> (r: Option<VideoRecord>)
        ensures
            (r is None) == (best_of(self@, probe@) is None),
            r matches Some(rec) ==> best_of(self@, probe@) matches Some(p)
                && rec@ == self@[p.0] && p.1 == dist_spec(rec@.bits, probe@),
    {
        let n = self.entries.len();
        let mut found = false;
        let mut best_i: usize = 0;
        let mut best_d: u128 = 0;
        let mut i: usize = 0;
        while i < n
            invariant
                n == self.entries@.len(),
                self@.len() == n,
                i <= n,
                !found ==> best_of(self@.subrange(0, i as int), probe@) is None,
                found ==> best_i < i
                    && best_of(self@.subrange(0, i as int), probe@)
                        == Some((best_i as int, best_d as int)),
            decreases n - i,
        {
            proof {
                let pre = self@.subrange(0, i as int);
                let cur = self@.subrange(0, i + 1);
                assert(cur.drop_last() =~= pre);
                assert(cur.last() == self@[i as int]);
                assert(self@[i as int] == self.entries@[i as int].record@);
            }
            if self.entries[i].record.message_bits.len() == probe.len() {
                let d = sq_dist(&self.entries[i].record.message_bits, probe);
                if !found || d < best_d {
                    found = true;
                    best_i = i;
                    best_d = d;
                }
            }
            i += 1;
        }
        proof {
            assert(self@.subrange(0, n as int) =~= self@);
        }
        if found {
            proof {
                assert(self@[best_i as int] == self.entries@[best_i as int].record@);
                lemma_best_min(self@, probe@);
            }
            Some(self.entries[best_i].record.duplicate())
        } else {
            None
        }
    }

    /// The flat keyed structure persisted for this store: every record under
    /// its fingerprint key, in iteration order.
    pub fn snapshot(&self) -> (r: Vec<IndexEntry>)
        requires
            self.wf(),
        ensures
            r@.len() == self@.len(),
            forall|i: int| 0 <= i < r@.len()
                ==> (#[trigger] r@[i]).key@ == fingerprint_spec(self@[i].bits)
                    && r@[i].record@ == self@[i],
    {
        let mut r: Vec<IndexEntry> = Vec::new();
        let mut i: usize = 0;
        while i < self.entries.len()
            invariant
                self.wf(),
                i <= self.entries@.len(),
                r@.len() == i,
                forall|j: int| 0 <= j < i
                    ==> (#[trigger] r@[j]).key@ == fingerprint_spec(self@[j].bits)
                        && r@[j].record@ == self@[j],
            decreases self.entries@.len() - i,
        {
            proof {
                assert(self.entries@[i as int].key@ == fingerprint_spec(self@[i as int].bits));
                assert(self.entries@[i as int].record@ == self@[i as int]);
            }
            let e = IndexEntry {
                key: self.entries[i].key.clone(),
                record: self.entries[i].record.duplicate(),
            };
            r.push(e);
            i += 1;
        }
        r
    }

    /// Rebuilds a store from a persisted flat keyed structure.  The keys in
    /// the input are ignored: each record is re-inserted under its re-derived
    /// fingerprint, which the derivation rule guarantees is the key a
    /// snapshot wrote.  Records too long to fingerprint are dropped.
    pub fn restore(entries: &Vec<IndexEntry>) -> (r: VideoStore)
        ensures
            r.wf(),
            r@ == restored_into(
                Seq::<RecordView>::empty(),
                entries@.map_values(|e: IndexEntry| e.record@),
            ),
    {
        let ghost vs = entries@.map_values(|e: IndexEntry| e.record@);
        let mut store = VideoStore::new();
        let mut i: usize = 0;
        while i < entries.len()
            invariant
                i <= entries@.len(),
                vs == entries@.map_values(|e: IndexEntry| e.record@),
                vs.len() == entries@.len(),
                store.wf(),
                store@ == restored_into(Seq::<RecordView>::empty(), vs.subrange(0, i as int)),
            decreases entries@.len() - i,
        {
            proof {
                assert(vs.subrange(0, i + 1) =~= vs.subrange(0, i as int).push(vs[i as int]));
                lemma_restored_snoc(
                    Seq::<RecordView>::empty(), vs.subrange(0, i as int), vs[i as int]);
                assert(vs[i as int] == entries@[i as int].record@);
            }
            if entries[i].record.message_bits.len() < usize::MAX / 8 {
                let _ = store.insert_record(entries[i].record.duplicate());
            }
            i += 1;
        }
        proof {
            assert(vs.subrange(0, vs.len() as int) =~= vs);
        }
        store
    }
}

/// A store holding a record whose stored vector equals the probe returns
/// exactly that record, at squared distance zero.
pub proof fn lemma_nearest_exact(s: Seq<RecordView>, probe: Seq<u32>, i: int)
    requires
        distinct_fingerprints(s),
        0 <= i < s.len(),
        s[i].bits == probe,
    ensures
        best_of(s, probe) == Some((i, 0int)),
{
    lemma_best_min(s, probe);
    lemma_dist_zero(s[i].bits, probe);
    assert(compatible(s[i], probe));
    assert(best_of(s, probe) is Some);
    let p = best_of(s, probe)->Some_0;
    lemma_dist_zero(s[p.0].bits, probe);
    assert(p.1 <= dist_spec(s[i].bits, probe));
    assert(dist_spec(s[i].bits, probe) == 0);
    assert(p.1 == 0);
    assert(s[p.0].bits == probe);
    if p.0 != i {
        assert(fingerprint_spec(s[p.0].bits) != fingerprint_spec(s[i].bits));
        assert(false);
    }
}

/// One step of a restore: records too long to fingerprint are dropped,
/// every other record is inserted under its own fingerprint.
pub open spec fn restore_step(acc: Seq<RecordView>, r: RecordView) -> Seq<RecordView> {
    if r.bits.len() < usize::MAX / 8 {
        spec_insert(acc, r)
    } else {
        acc
    }
}

/// The store rebuilt by inserting a record sequence in order, front first.
pub open spec fn restored_into(acc: Seq<RecordView>, rest: Seq<RecordView>) -> Seq<RecordView>
    decreases rest.len(),
{
    if rest.len() == 0 {
        acc
    } else {
        restored_into(restore_step(acc, rest.first()), rest.drop_first())
    }
}

/// A restore over one more trailing record is one more restore step.
proof fn lemma_restored_snoc(acc: Seq<RecordView>, s: Seq<RecordView>, x: RecordView)
    ensures
        restored_into(acc, s.push(x)) == restore_step(restored_into(acc, s), x),
    decreases s.len(),
{
    if s.len() == 0 {
        assert(s.push(x).first() == x);
        assert(s.push(x).drop_first() =~= Seq::<RecordView>::empty());
        assert(restored_into(acc, s.push(x))
            == restored_into(restore_step(acc, x), s.push(x).drop_first()));
        assert(restored_into(restore_step(acc, x), Seq::<RecordView>::empty())
            == restore_step(acc, x));
        assert(restored_into(acc, s) == acc);
    } else {
        assert(s.push(x).first() == s.first());
        assert(s.push(x).drop_first() =~= s.drop_first().push(x));
        assert(restored_into(acc, s.push(x))
            == restored_into(restore_step(acc, s.first()), s.drop_first().push(x)));
        lemma_restored_snoc(restore_step(acc, s.first()), s.drop_first(), x);
        assert(restored_into(acc, s) == restored_into(restore_step(acc, s.first()), s.drop_first()));
    }
}

/// Restoring records with pairwise distinct fingerprints appends each in
/// turn: no insertion ever replaces.
proof fn lemma_restore_prefix(acc: Seq<RecordView>, rest: Seq<RecordView>)
    requires
        distinct_fingerprints(acc + rest),
        bits_bounded(rest),
    ensures
        restored_into(acc, rest) == acc + rest,
    decreases rest.len(),
{
    if rest.len() == 0 {
        assert(acc + rest =~= acc);
    } else {
        let r = rest.first();
        assert(rest[0] == r);
        assert(r.bits.len() < usize::MAX / 8);
        assert((acc + rest)[acc.len() as int] == r);
        assert forall|k: int| 0 <= k < acc.len()
            implies #[trigger] fingerprint_spec(acc[k].bits) != fingerprint_spec(r.bits) by {
            assert((acc + rest)[k] == acc[k]);
        }
        lemma_fp_index(acc, fingerprint_spec(r.bits));
        assert(fp_index(acc, fingerprint_spec(r.bits)) == -1);
        assert(restore_step(acc, r) == acc.push(r));
        assert(acc.push(r) + rest.drop_first() =~= acc + rest);
        assert forall|k: int| 0 <= k < rest.drop_first().len()
            implies (#[trigger] rest.drop_first()[k]).bits.len() < usize::MAX / 8 by {
            assert(rest.drop_first()[k] == rest[k + 1]);
            assert(rest[k + 1].bits.len() < usize::MAX / 8);
        }
        lemma_restore_prefix(acc.push(r), rest.drop_first());
    }
}

/// Store persistence round-trips: rebuilding from the records of any state
/// with pairwise distinct fingerprints reproduces that state exactly.
pub proof fn lemma_restore_snapshot(s: Seq<RecordView>)
    requires
        distinct_fingerprints(s),
        bits_bounded(s),
    ensures
        restored_into(Seq::<RecordView>::empty(), s) == s,
{
    assert(Seq::<RecordView>::empty() + s =~= s);
    lemma_restore_prefix(Seq::<RecordView>::empty(), s);
}

/// Store persistence round-trips for every well-formed store.
pub proof fn lemma_store_round_trip(store: &VideoStore)
    requires
        store.wf(),
    ensures
        restored_into(Seq::<RecordView>::empty(), store@) == store@,
{
    store.lemma_wf_facts();
    lemma_restore_snapshot(store@);
}

} // verus!
