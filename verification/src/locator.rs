//! Per-query hit buffers of the locators, and the locate / locate-all
//! protocol over them.
//!
//! A batch of `n` queries is laid out in blocks: query `q`
//! owns the block `indices[q * max_hits .. (q + 1) * max_hits]`, of which the
//! first `counts[q]` entries hold the ids of the cells found to contain the
//! point.  The geometric search that finds those cells is floating-point
//! work done by the caller; it hands over, per query, the candidate cells in
//! the order in which it found them.

use crate::gpu::{GpuError, GpuResult};
use crate::ownership::{lemma_owner_order_independent, owner_of, seq_min};
use vstd::prelude::*;

verus! {

/// Default capacity of candidate cells per query of the 2D locator.
pub const MAX_HITS_2D: usize = 32;

/// Default capacity of candidate cells per query of the 3D locator.
pub const MAX_HITS_3D: usize = 64;

/// Execution backend of a locator.
#[derive(Clone, Copy, Debug, PartialEq, Eq, Structural)]
pub enum Backend {
    /// One query after the other on the calling thread.
    Serial,
    /// Queries spread over the CPU cores.
    ParallelCPU,
    /// CUDA kernel on the GPU.
    GPU,
}

/// Which points count as inside a cell.
#[derive(Clone, Copy, Debug)]
pub enum LocateMode {
    /// Only points strictly inside.
    StrictInside,
    /// Points inside or on the boundary.
    InsideOrBoundary,
}

/// Number of the candidates of a query that fit in a block of `h` slots.
pub open spec fn kept_len(len: nat, h: usize) -> usize {
    if len <= h {
        len as usize
    } else {
        h
    }
}

/// The count stored for a query with `len` candidates, as the 16-bit
/// counter holds it.
pub open spec fn stored_count(len: nat, h: usize) -> u16 {
    kept_len(len, h) as u16
}

/// `s`, padded with `fill` up to length `len` when it is shorter.
pub open spec fn grow<A>(s: Seq<A>, len: nat, fill: A) -> Seq<A> {
    if s.len() < len {
        s + Seq::new((len - s.len()) as nat, |i: int| fill)
    } else {
        s
    }
}

/// The candidate lists as sequences.
pub open spec fn candidate_seqs(cands: Seq<Vec<i32>>) -> Seq<Seq<i32>> {
    cands.map_values(|v: Vec<i32>| v@)
}

/// Slot `k` of the index buffer holds a candidate of the batch `cands`.
pub open spec fn is_hit_slot(cands: Seq<Seq<i32>>, h: usize, k: int) -> bool {
    &&& h > 0
    &&& 0 <= k
    &&& k / (h as int) < cands.len()
    &&& k % (h as int) < kept_len(cands[k / (h as int)].len(), h)
}

/// The index buffer `g` with the kept candidates of `cands` written into
/// their slots.
pub open spec fn overlay(g: Seq<i32>, cands: Seq<Seq<i32>>, h: usize) -> Seq<i32> {
    Seq::new(
        g.len(),
        |k: int|
            if is_hit_slot(cands, h, k) {
                cands[k / (h as int)][k % (h as int)]
            } else {
                g[k]
            },
    )
}

/// Index buffer after recording the batch `cands` into `old`.
pub open spec fn recorded_indices(old: Seq<i32>, cands: Seq<Seq<i32>>, h: usize) -> Seq<i32> {
    overlay(grow(old, cands.len() * (h as nat), -1i32), cands, h)
}

/// Count buffer after recording the batch `cands` into `old`.
pub open spec fn recorded_counts(old: Seq<u16>, cands: Seq<Seq<i32>>, h: usize) -> Seq<u16> {
    let g = grow(old, cands.len(), 0u16);
    Seq::new(
        g.len(),
        |q: int|
            if q < cands.len() {
                stored_count(cands[q].len(), h)
            } else {
                g[q]
            },
    )
}

/// The recorded hits of query `q`.
pub open spec fn hits_of(indices: Seq<i32>, counts: Seq<u16>, h: usize, q: int) -> Seq<i32> {
    indices.subrange(q * h, q * h + counts[q])
}

/// Facts on `k / h` and `k % h` that place slot `k` in block `q`.
proof fn lemma_block_of_slot(k: int, h: int, q: int)
    requires
        h > 0,
        k >= 0,
        q >= 0,
    ensures
        0 <= k % h < h,
        (k / h == q) <==> (q * h <= k < q * h + h),
        (k / h < q) <==> (k < q * h),
        k / h == q ==> k % h == k - q * h,
{
    vstd::arithmetic::div_mod::lemma_fundamental_div_mod(k, h);
    vstd::arithmetic::div_mod::lemma_mod_pos_bound(k, h);
    let d = k / h;
    let r = k % h;
    assert((d == q) <==> (q * h <= k < q * h + h)) by (nonlinear_arith)
        requires
            k == h * d + r,
            0 <= r < h,
            h > 0,
    ;
    assert((d < q) <==> (k < q * h)) by (nonlinear_arith)
        requires
            k == h * d + r,
            0 <= r < h,
            h > 0,
    ;
    assert(d == q ==> r == k - q * h) by (nonlinear_arith)
        requires
            k == h * d + r,
    ;
}

/// Block `q` of `n` blocks of `h` slots ends within `n * h` slots.
proof fn lemma_block_fits(q: int, n: int, h: int)
    requires
        0 <= q < n,
        h >= 0,
    ensures
        q * h + h <= n * h,
        0 <= q * h,
{
    assert(q * h + h <= n * h) by (nonlinear_arith)
        requires
            0 <= q < n,
            h >= 0,
    ;
    assert(0 <= q * h) by (nonlinear_arith)
        requires
            0 <= q,
            h >= 0,
    ;
}

/// The 16-bit counter never exceeds the number it counts.
proof fn lemma_count_truncation(x: usize)
    ensures
        (x as u16) as usize <= x,
        x <= 0xffff ==> (x as u16) as usize == x,
{
    assert((x as u16) as usize <= x) by (bit_vector);
    assert(x <= 0xffff ==> (x as u16) as usize == x) by (bit_vector);
}

/// What `locate_all` leaves in the buffers for query `q` of a batch: a
/// count of at most `h`, and as its hits the first `count` candidates of
/// the query, in the order in which they were found; when all candidates
/// fit (at most `h` of them, and `h` within the 16-bit counter), all of them.
pub proof fn lemma_recorded_hits(
    old_indices: Seq<i32>,
    old_counts: Seq<u16>,
    cands: Seq<Seq<i32>>,
    h: usize,
    q: int,
)
    requires
        0 <= q < cands.len(),
    ensures
        ({
            let idx = recorded_indices(old_indices, cands, h);
            let cnt = recorded_counts(old_counts, cands, h);
            &&& cnt[q] == stored_count(cands[q].len(), h)
            &&& cnt[q] <= h
            &&& q * h + cnt[q] <= idx.len()
            &&& hits_of(idx, cnt, h, q) == cands[q].take(cnt[q] as int)
            &&& (cands[q].len() <= h && h <= 0xffff) ==> hits_of(idx, cnt, h, q) == cands[q]
        }),
{
    let idx = recorded_indices(old_indices, cands, h);
    let cnt = recorded_counts(old_counts, cands, h);
    let kept = kept_len(cands[q].len(), h);
    lemma_count_truncation(kept);
    lemma_block_fits(q, cands.len() as int, h as int);
    assert(idx.len() >= cands.len() * (h as nat));
    let c = cnt[q] as int;
    assert forall|i: int| 0 <= i < c implies #[trigger] hits_of(idx, cnt, h, q)[i] == cands[q][i] by {
        lemma_block_of_slot(q * h + i, h as int, q);
    }
    assert(hits_of(idx, cnt, h, q) =~= cands[q].take(c));
    if cands[q].len() <= h && h <= 0xffff {
        assert(cands[q].take(c) =~= cands[q]);
    }
}

/// Whatever the buffers held before, recording a batch of `n` queries leaves
/// room for all `n` blocks and counts, counts of at most `h`, and, when no
/// candidate id is negative, recorded hits that are not negative either:
/// the layout holds after any sequence of batches of any sizes.
pub proof fn lemma_locate_all_layout(
    old_indices: Seq<i32>,
    old_counts: Seq<u16>,
    cands: Seq<Seq<i32>>,
    h: usize,
)
    ensures
        ({
            let idx = recorded_indices(old_indices, cands, h);
            let cnt = recorded_counts(old_counts, cands, h);
            &&& idx.len() >= cands.len() * (h as nat)
            &&& cnt.len() >= cands.len()
            &&& forall|q: int| 0 <= q < cands.len() ==> #[trigger] cnt[q] <= h
            &&& (forall|q: int, i: int|
                0 <= q < cands.len() && 0 <= i < cands[q].len() ==> #[trigger] cands[q][i] >= 0)
                ==> forall|q: int, i: int|
                0 <= q < cands.len() && 0 <= i < cnt[q] ==> #[trigger] hits_of(idx, cnt, h, q)[i]
                >= 0
        }),
{
    let idx = recorded_indices(old_indices, cands, h);
    let cnt = recorded_counts(old_counts, cands, h);
    assert forall|q: int| 0 <= q < cands.len() implies #[trigger] cnt[q] <= h by {
        lemma_recorded_hits(old_indices, old_counts, cands, h, q);
    }
    if forall|q: int, i: int|
        0 <= q < cands.len() && 0 <= i < cands[q].len() ==> #[trigger] cands[q][i] >= 0 {
        assert forall|q: int, i: int| 0 <= q < cands.len() && 0 <= i < cnt[q] implies #[trigger] hits_of(
            idx,
            cnt,
            h,
            q,
        )[i] >= 0 by {
            lemma_recorded_hits(old_indices, old_counts, cands, h, q);
            lemma_count_truncation(kept_len(cands[q].len(), h));
            assert(hits_of(idx, cnt, h, q)[i] == cands[q][i]);
        }
    }
}

/// Recording the same batch twice leaves the buffers as recording it once.
pub proof fn lemma_locate_all_idempotent(
    old_indices: Seq<i32>,
    old_counts: Seq<u16>,
    cands: Seq<Seq<i32>>,
    h: usize,
)
    ensures
        recorded_indices(recorded_indices(old_indices, cands, h), cands, h) == recorded_indices(
            old_indices,
            cands,
            h,
        ),
        recorded_counts(recorded_counts(old_counts, cands, h), cands, h) == recorded_counts(
            old_counts,
            cands,
            h,
        ),
{
    let once = recorded_indices(old_indices, cands, h);
    let g = grow(once, cands.len() * (h as nat), -1i32);
    assert(g =~= once);
    assert(recorded_indices(once, cands, h) =~= once);
    let oncec = recorded_counts(old_counts, cands, h);
    assert(grow(oncec, cands.len(), 0u16) =~= oncec);
    assert(recorded_counts(oncec, cands, h) =~= oncec);
}

/// The owners that `locate` answers do not depend on the order in which
/// the search found the candidates: two batches whose queries have the same
/// sets of candidate cells, all of which fit in the buffers, get the same
/// owners.
pub proof fn lemma_locate_order_independent(a: Seq<Seq<i32>>, b: Seq<Seq<i32>>, h: usize)
    requires
        a.len() == b.len(),
        h <= 0xffff,
        forall|q: int| 0 <= q < a.len() ==> (#[trigger] a[q]).len() <= h && b[q].len() <= h,
        forall|q: int| 0 <= q < a.len() ==> (#[trigger] a[q]).to_set() == b[q].to_set(),
    ensures
        forall|q: int|
            0 <= q < a.len() ==> owner_of(
                (#[trigger] a[q]).take(stored_count(a[q].len(), h) as int),
            ) == owner_of(b[q].take(stored_count(b[q].len(), h) as int)),
{
    assert forall|q: int| 0 <= q < a.len() implies owner_of(
        (#[trigger] a[q]).take(stored_count(a[q].len(), h) as int),
    ) == owner_of(b[q].take(stored_count(b[q].len(), h) as int)) by {
        lemma_count_truncation(kept_len(a[q].len(), h));
        lemma_count_truncation(kept_len(b[q].len(), h));
        assert(a[q].take(a[q].len() as int) =~= a[q]);
        assert(b[q].take(b[q].len() as int) =~= b[q]);
        lemma_owner_order_independent(a[q], b[q]);
    }
}

/// The hit buffers of a locator, with the backend it runs on.
///
/// The fields are public so that callers read the results of `locate_all`
/// directly.
pub struct HitBuffers {
    /// Capacity of candidate cells per query.
    pub max_hits: usize,
    /// Candidate cells, `max_hits` slots per query.
    pub indices: Vec<i32>,
    /// Number of recorded candidates per query.
    pub counts: Vec<u16>,
    /// Backend the buffers are filled by.
    pub backend: Backend,
}

impl HitBuffers {
    /// Buffers for `max_queries` queries of `max_hits` candidates each, on
    /// the serial backend: every index slot `-1`, every count `0`.
    pub fn new_with_capacity(max_queries: usize, max_hits: usize) -> (r: Self)
        requires
            max_queries * max_hits <= usize::MAX,
        ensures
            r.max_hits == max_hits,
            r.indices@ == Seq::new((max_queries * max_hits) as nat, |i: int| -1i32),
            r.counts@ == Seq::new(max_queries as nat, |i: int| 0u16),
            r.backend == Backend::Serial,
    {
        let total = max_queries * max_hits;
        let mut indices: Vec<i32> = Vec::new();
        let mut i: usize = 0;
        while i < total
            invariant
                i <= total,
                indices@ == Seq::new(i as nat, |j: int| -1i32),
            decreases total - i,
        {
            indices.push(-1);
            i = i + 1;
        }
        let mut counts: Vec<u16> = Vec::new();
        let mut j: usize = 0;
        while j < max_queries
            invariant
                j <= max_queries,
                counts@ == Seq::new(j as nat, |k: int| 0u16),
            decreases max_queries - j,
        {
            counts.push(0);
            j = j + 1;
        }
        HitBuffers { max_hits, indices, counts, backend: Backend::Serial }
    }

    /// Selects the backend, leaving the buffers as they are. A CPU backend
    /// is always selected as asked. The GPU backend cannot be started in a
    /// build without GPU support: the buffers then fall back to the serial
    /// backend, which gives the same results.
    pub fn with_backend(self, backend: Backend) -> (r: GpuResult<Self>)
        ensures
            r matches Ok(s) && s.max_hits == self.max_hits && s.indices@ == self.indices@
                && s.counts@ == self.counts@,
            backend != Backend::GPU ==> (r matches Ok(s) && s.backend == backend),
            backend == Backend::GPU ==> (r matches Ok(s) && s.backend == Backend::Serial),
    {
        let mut s = self;
        match backend {
            Backend::GPU => {
                match s.init_gpu_backend() {
                    Ok(()) => {
                        s.backend = Backend::GPU;
                    },
                    Err(_) => {
                        s.backend = Backend::Serial;
                    },
                }
            },
            _ => {
                s.backend = backend;
            },
        }
        Ok(s)
    }

    /// Grows the buffers to hold `n` queries: new index slots are `-1`, new
    /// counts `0`; buffers that are large enough stay as they are.
    fn reserve_queries(&mut self, n: usize)
        requires
            n * old(self).max_hits <= usize::MAX,
        ensures
            final(self).max_hits == old(self).max_hits,
            final(self).backend == old(self).backend,
            final(self).indices@ == grow(
                old(self).indices@,
                n as nat * (old(self).max_hits as nat),
                -1i32,
            ),
            final(self).counts@ == grow(old(self).counts@, n as nat, 0u16),
    {
        let required = n * self.max_hits;
        if self.indices.len() < required {
            self.indices.resize(required, -1);
        }
        if self.counts.len() < n {
            self.counts.resize(n, 0);
        }
        assert(self.indices@ =~= grow(old(self).indices@, n as nat * (self.max_hits as nat), -1i32));
        assert(self.counts@ =~= grow(old(self).counts@, n as nat, 0u16));
    }

    /// Writes the kept candidates of query `q` into its block and their
    /// number into `counts[q]`.
    fn store_query(&mut self, q: usize, ids: &Vec<i32>)
        requires
            q < old(self).counts.len(),
            q * old(self).max_hits <= usize::MAX,
            q * old(self).max_hits + kept_len(ids@.len(), old(self).max_hits)
                <= old(self).indices.len(),
        ensures
            final(self).max_hits == old(self).max_hits,
            final(self).backend == old(self).backend,
            final(self).counts@ == old(self).counts@.update(
                q as int,
                stored_count(ids@.len(), old(self).max_hits),
            ),
            final(self).indices@.len() == old(self).indices@.len(),
            forall|k: int|
                0 <= k < old(self).indices@.len() ==> #[trigger] final(self).indices@[k] == if q
                    * old(self).max_hits <= k < q * old(self).max_hits + kept_len(
                    ids@.len(),
                    old(self).max_hits,
                ) {
                    ids@[k - q * old(self).max_hits]
                } else {
                    old(self).indices@[k]
                },
    {
        let h = self.max_hits;
        let kept: usize = if ids.len() <= h {
            ids.len()
        } else {
            h
        };
        let base: usize = q * h;
        let mut i: usize = 0;
        while i < kept
            invariant
                h == self.max_hits,
                h == old(self).max_hits,
                kept == kept_len(ids@.len(), h),
                kept <= h,
                kept <= ids@.len(),
                base == q * h,
                base + kept <= self.indices.len(),
                i <= kept,
                self.indices@.len() == old(self).indices@.len(),
                self.counts@ == old(self).counts@,
                self.backend == old(self).backend,
                forall|k: int|
                    0 <= k < old(self).indices@.len() ==> #[trigger] self.indices@[k] == if base
                        <= k < base + i {
                        ids@[k - base]
                    } else {
                        old(self).indices@[k]
                    },
            decreases kept - i,
        {
            self.indices.set(base + i, ids[i]);
            i = i + 1;
        }
        self.counts.set(q, #[verifier::truncate] (kept as u16));
    }

    /// Writes the first `max_hits` candidates of every query of the batch
    /// into its block and their number into `counts[q]`, whatever the
    /// backend, on buffers that already hold the slots written.
    pub fn record_batch(&mut self, cands: &Vec<Vec<i32>>)
        requires
            cands.len() * old(self).max_hits <= usize::MAX,
            cands.len() <= old(self).counts@.len(),
            forall|q: int|
                0 <= q < cands.len() ==> q * old(self).max_hits + kept_len(
                    #[trigger] cands@[q]@.len(),
                    old(self).max_hits,
                ) <= old(self).indices@.len(),
        ensures
            final(self).max_hits == old(self).max_hits,
            final(self).backend == old(self).backend,
            final(self).indices@ == overlay(
                old(self).indices@,
                candidate_seqs(cands@),
                old(self).max_hits,
            ),
            final(self).counts@ == Seq::new(
                old(self).counts@.len(),
                |j: int|
                    if j < cands@.len() {
                        stored_count(cands@[j]@.len(), old(self).max_hits)
                    } else {
                        old(self).counts@[j]
                    },
            ),
    {
        let n = cands.len();
        let h = self.max_hits;
        let ghost g = self.indices@;
        let ghost gc = self.counts@;
        let ghost cs = candidate_seqs(cands@);
        assert(overlay(g, cs.take(0), h) =~= g);
        assert(Seq::new(
            gc.len(),
            |j: int|
                if j < 0 {
                    stored_count(cs[j].len(), h)
                } else {
                    gc[j]
                },
        ) =~= gc);
        let mut q: usize = 0;
        while q < n
            invariant
                n == cands.len(),
                h == self.max_hits,
                h == old(self).max_hits,
                self.backend == old(self).backend,
                n * h <= usize::MAX,
                q <= n,
                g == old(self).indices@,
                gc == old(self).counts@,
                n <= gc.len(),
                forall|x: int|
                    0 <= x < n ==> x * h + kept_len(#[trigger] cands@[x]@.len(), h) <= g.len(),
                cs == candidate_seqs(cands@),
                self.indices@ == overlay(g, cs.take(q as int), h),
                self.counts@ == Seq::new(
                    gc.len(),
                    |j: int|
                        if j < q {
                            stored_count(cs[j].len(), h)
                        } else {
                            gc[j]
                        },
                ),
            decreases n - q,
        {
            proof {
                lemma_block_fits(q as int, n as int, h as int);
                assert(q * h + kept_len(cands@[q as int]@.len(), h) <= g.len());
            }
            let ghost prev = self.indices@;
            let ghost prevc = self.counts@;
            self.store_query(q, &cands[q]);
            proof {
                let t0 = cs.take(q as int);
                let t1 = cs.take(q + 1);
                assert(t1[q as int] == cands@[q as int]@);
                assert forall|k: int| 0 <= k < g.len() implies self.indices@[k] == overlay(
                    g,
                    t1,
                    h,
                )[k] by {
                    assert(prev[k] == overlay(g, t0, h)[k]);
                    if h > 0 {
                        lemma_block_of_slot(k, h as int, q as int);
                        let d = k / (h as int);
                        if d < q {
                            assert(t0[d] == t1[d]);
                        }
                    }
                }
                assert(self.indices@ =~= overlay(g, t1, h));
                assert(self.counts@ =~= Seq::new(
                    gc.len(),
                    |j: int|
                        if j < q + 1 {
                            stored_count(cs[j].len(), h)
                        } else {
                            gc[j]
                        },
                ));
            }
            q = q + 1;
        }
        proof {
            assert(cs.take(n as int) =~= cs);
        }
    }

    fn locate_all_gpu(&self) -> (r: GpuResult<()>)
        ensures
            r matches Err(GpuError::Unavailable),
    {
        Err(GpuError::Unavailable)
    }

    /// Records a batch of queries: `cands[q]` lists, in the order in which
    /// the geometric search found them, the cells that contain query point
    /// `q`.
    ///
    /// The buffers first grow to hold the batch. On the CPU backends the
    /// first `max_hits` candidates of each query are then written into its
    /// block and their number into `counts[q]` (as a 16-bit counter); slots
    /// past them keep what they held. The GPU backend of this build fails
    /// with `Unavailable` after the buffers have grown.
    pub fn locate_all(&mut self, cands: &Vec<Vec<i32>>) -> (r: GpuResult<()>)
        requires
            cands.len() * old(self).max_hits <= usize::MAX,
        ensures
            final(self).max_hits == old(self).max_hits,
            final(self).backend == old(self).backend,
            old(self).backend == Backend::GPU ==> {
                &&& r matches Err(GpuError::Unavailable)
                &&& final(self).indices@ == grow(
                    old(self).indices@,
                    cands@.len() * (old(self).max_hits as nat),
                    -1i32,
                )
                &&& final(self).counts@ == grow(old(self).counts@, cands@.len(), 0u16)
            },
            old(self).backend != Backend::GPU ==> {
                &&& r is Ok
                &&& final(self).indices@ == recorded_indices(
                    old(self).indices@,
                    candidate_seqs(cands@),
                    old(self).max_hits,
                )
                &&& final(self).counts@ == recorded_counts(
                    old(self).counts@,
                    candidate_seqs(cands@),
                    old(self).max_hits,
                )
            },
    {
        let n = cands.len();
        self.reserve_queries(n);
        match self.backend {
            Backend::GPU => self.locate_all_gpu(),
            _ => {
                proof {
                    assert forall|q: int| 0 <= q < n implies q * self.max_hits + kept_len(
                        #[trigger] cands@[q]@.len(),
                        self.max_hits,
                    ) <= self.indices@.len() by {
                        lemma_block_fits(q, n as int, self.max_hits as int);
                    }
                }
                self.record_batch(cands);
                assert(self.counts@ =~= recorded_counts(
                    old(self).counts@,
                    candidate_seqs(cands@),
                    self.max_hits,
                ));
                Ok(())
            },
        }
    }

    /// Least recorded candidate in the `count` slots from `base`.
    fn block_min(&self, base: usize, count: usize) -> (m: i32)
        requires
            count > 0,
            base + count <= self.indices.len(),
        ensures
            m == seq_min(self.indices@.subrange(base as int, base + count)),
    {
        let mut m = self.indices[base];
        let mut j: usize = 1;
        assert(self.indices@.subrange(base as int, base + 1)[0] == self.indices@[base as int]);
        while j < count
            invariant
                1 <= j <= count,
                base + count <= self.indices.len(),
                m == seq_min(self.indices@.subrange(base as int, base + j)),
            decreases count - j,
        {
            let v = self.indices[base + j];
            let ghost s = self.indices@.subrange(base as int, base + j + 1);
            assert(s.drop_last() =~= self.indices@.subrange(base as int, base + j));
            assert(s.last() == v);
            if v < m {
                m = v;
            }
            j = j + 1;
        }
        m
    }

    /// Owner of each of the first `n` queries from the recorded hits.
    fn resolve_owners(&self, n: usize) -> (out: Vec<i32>)
        requires
            n <= self.counts@.len(),
            n * self.max_hits <= self.indices.len(),
            forall|q: int| 0 <= q < n ==> self.counts@[q] <= self.max_hits,
        ensures
            out@.len() == n,
            forall|q: int|
                0 <= q < n ==> #[trigger] out@[q] == owner_of(
                    hits_of(self.indices@, self.counts@, self.max_hits, q),
                ),
    {
        let h = self.max_hits;
        let mut out: Vec<i32> = Vec::new();
        let mut q: usize = 0;
        while q < n
            invariant
                q <= n,
                h == self.max_hits,
                n <= self.counts@.len(),
                n * h <= self.indices.len(),
                forall|j: int| 0 <= j < n ==> self.counts@[j] <= h,
                out@.len() == q,
                forall|j: int|
                    0 <= j < q ==> #[trigger] out@[j] == owner_of(
                        hits_of(self.indices@, self.counts@, h, j),
                    ),
            decreases n - q,
        {
            proof {
                lemma_block_fits(q as int, n as int, h as int);
            }
            let base: usize = q * h;
            let c: usize = self.counts[q] as usize;
            let o: i32 = if c > 0 {
                self.block_min(base, c)
            } else {
                -1
            };
            out.push(o);
            q = q + 1;
        }
        out
    }

    /// Locates a batch of queries: records it as `locate_all` does, then
    /// answers for each query its owner, the least of its recorded
    /// candidate cells, or `-1` when it has none. The GPU backend of this
    /// build fails with `Unavailable`.
    pub fn locate(&mut self, cands: &Vec<Vec<i32>>) -> (r: GpuResult<Vec<i32>>)
        requires
            cands.len() * old(self).max_hits <= usize::MAX,
        ensures
            final(self).max_hits == old(self).max_hits,
            final(self).backend == old(self).backend,
            old(self).backend == Backend::GPU ==> {
                &&& r matches Err(GpuError::Unavailable)
                &&& final(self).indices@ == grow(
                    old(self).indices@,
                    cands@.len() * (old(self).max_hits as nat),
                    -1i32,
                )
                &&& final(self).counts@ == grow(old(self).counts@, cands@.len(), 0u16)
            },
            old(self).backend != Backend::GPU ==> {
                &&& final(self).indices@ == recorded_indices(
                    old(self).indices@,
                    candidate_seqs(cands@),
                    old(self).max_hits,
                )
                &&& final(self).counts@ == recorded_counts(
                    old(self).counts@,
                    candidate_seqs(cands@),
                    old(self).max_hits,
                )
                &&& r matches Ok(out)
                &&& out@.len() == cands@.len()
                &&& forall|q: int|
                    0 <= q < cands@.len() ==> {
                        &&& #[trigger] out@[q] == owner_of(
                            hits_of(final(self).indices@, final(self).counts@, old(self).max_hits, q),
                        )
                        &&& out@[q] == owner_of(
                            cands@[q]@.take(
                                stored_count(cands@[q]@.len(), old(self).max_hits) as int,
                            ),
                        )
                        &&& (cands@[q]@.len() <= old(self).max_hits && old(self).max_hits
                            <= 0xffff) ==> out@[q] == owner_of(cands@[q]@)
                    }
            },
    {
        let n = cands.len();
        match self.locate_all(cands) {
            Err(e) => Err(e),
            Ok(()) => {
                let ghost cs = candidate_seqs(cands@);
                let ghost h = self.max_hits;
                proof {
                    assert forall|q: int| 0 <= q < n implies self.counts@[q] <= self.max_hits by {
                        lemma_recorded_hits(old(self).indices@, old(self).counts@, cs, h, q);
                    }
                }
                let out = self.resolve_owners(n);
                proof {
                    assert forall|q: int| 0 <= q < n implies {
                        &&& out@[q] == owner_of(
                            cands@[q]@.take(stored_count(cands@[q]@.len(), h) as int),
                        )
                        &&& (cands@[q]@.len() <= h && h <= 0xffff) ==> out@[q] == owner_of(
                            cands@[q]@,
                        )
                    } by {
                        lemma_recorded_hits(old(self).indices@, old(self).counts@, cs, h, q);
                        assert(cs[q] == cands@[q]@);
                    }
                }
                Ok(out)
            },
        }
    }

    /// Starts the GPU backend; a build without GPU support cannot.
    fn init_gpu_backend(&self) -> (r: GpuResult<()>)
        ensures
            r matches Err(GpuError::Unavailable),
    {
        Err(GpuError::Unavailable)
    }
}

} // verus!
