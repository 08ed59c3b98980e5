//! GPU expert slot cache with capped-fetch LRU replacement.
//!
//! Rewrites the routed expert IDs of a layer:
//! - resident hit -> its slot ID
//! - fetched this step -> the slot it is assigned (evicting the least recently used)
//! - overflow miss -> -1 (routed to the CPU executor)
//!
//! The number of misses fetched per step comes from `balanced_fetch`.

use vstd::prelude::*;

verus! {

/// One in Q16 fixed point.
pub const Q16_ONE: u32 = 65536;

/// `max(a, b)` over integers.
pub open spec fn max_int(a: int, b: int) -> int {
    if a >= b { a } else { b }
}

/// `min(a, b)` over integers.
pub open spec fn min_int(a: int, b: int) -> int {
    if a <= b { a } else { b }
}

/// Cost of fetching `f` of `m` misses with fetch fraction `frac` (Q16): the
/// longer of the PCIe side `f * (1 - frac)` and the CPU side `(m - f) * frac`
/// (both sides saturate at zero).
pub open spec fn fetch_cost(m: int, frac: int, f: int) -> int {
    let pcie = f * (if frac < Q16_ONE { Q16_ONE - frac } else { 0 });
    let cpu = (if m > f { m - f } else { 0 }) * frac;
    max_int(pcie, cpu)
}

/// The floor of `m * frac` in Q16 (the multiplication is done in 32 bits on
/// the low 32 bits of `m`).
pub open spec fn fetch_floor(m: usize, frac: u32) -> int {
    ((m as u32) as int * frac as int) / Q16_ONE as int
}

/// The fetch count chosen by `balanced_fetch`: the floor or the ceiling of
/// `m * frac`, whichever has the lower cost (the floor on a tie), capped at `m`.
pub open spec fn balanced_fetch_spec(m: usize, frac: u32) -> int {
    let lo = fetch_floor(m, frac);
    if fetch_cost(m as int, frac as int, lo) <= fetch_cost(m as int, frac as int, lo + 1) {
        min_int(lo, m as int)
    } else {
        min_int(lo + 1, m as int)
    }
}

/// The inputs on which `balanced_fetch` computes without overflowing.
pub open spec fn balanced_fetch_in_range(m: usize, frac: u32) -> bool {
    (m as u32) as int * frac as int <= u32::MAX && m as int * frac as int <= u64::MAX
}

/// The fetch count balances the two pipelines: of the floor of
/// `m * frac / 2^16` and that plus one, it takes the one with the lower
/// completion time `max(f * (2^16 - frac), (m - f) * frac)` (the floor on a
/// tie), capped at `m`.
pub proof fn lemma_balanced_fetch_cheapest(m: usize, frac: u32)
    ensures
        ({
            let lo = ((m as u32) as int * frac as int) / 65536;
            let pcie_rate = if frac < 65536 { 65536 - frac } else { 0int };
            let time = |f: int| {
                let pcie = f * pcie_rate;
                let cpu = if m > f { (m - f) * frac } else { 0int };
                if pcie >= cpu { pcie } else { cpu }
            };
            let r = balanced_fetch_spec(m, frac);
            let cap = |f: int| if f <= m { f } else { m as int };
            &&& time(lo) <= time(lo + 1) ==> r == cap(lo)
            &&& time(lo + 1) < time(lo) ==> r == cap(lo + 1)
            &&& 0 <= r <= m
        }),
{
}

proof fn lemma_shift16(x: u32)
    ensures
        x >> 16u32 == x / 65536,
{
    assert(x >> 16u32 == x / 65536) by (bit_vector);
}

/// Balanced fetch count: calculates integer fetch count `F ~ frac * misses`
/// choosing between floor and ceil to minimize the longer of the two concurrent
/// execution pipelines (PCIe fetch vs CPU compute).
///
/// Cost formulation:
/// - PCIe time ~ `F * (1 - frac)`
/// - CPU time ~ `(misses - F) * frac`
pub fn balanced_fetch(num_missing: usize, frac_q16: u32) -> (f: usize)
    requires
        balanced_fetch_in_range(num_missing, frac_q16),
    ensures
        f == balanced_fetch_spec(num_missing, frac_q16),
        f <= num_missing,
        frac_q16 <= Q16_ONE && num_missing <= u32::MAX ==> num_missing * frac_q16 - Q16_ONE < f * Q16_ONE
            <= num_missing * frac_q16 + Q16_ONE,
{
    let q: u32 = Q16_ONE;
    let prod = (num_missing as u32) * frac_q16;
    proof {
        lemma_shift16(prod);
    }
    let lo = (prod >> 16) as usize;
    assert(lo <= 65536);
    let pcie_rate: u64 = if frac_q16 < q { (q - frac_q16) as u64 } else { 0 };
    let m = num_missing as u64;
    let lo64 = lo as u64;
    assert(lo64 * pcie_rate <= 65536 * 65536) by (nonlinear_arith)
        requires
            lo64 <= 65536,
            pcie_rate <= 65536,
    ;
    assert((lo64 + 1) * pcie_rate <= 65537 * 65536) by (nonlinear_arith)
        requires
            lo64 <= 65536,
            pcie_rate <= 65536,
    ;
    let fr = frac_q16 as u64;
    let d_lo: u64 = if m > lo64 { m - lo64 } else { 0 };
    let d_hi: u64 = if m > lo64 + 1 { m - (lo64 + 1) } else { 0 };
    assert(d_lo * fr <= m * fr) by (nonlinear_arith)
        requires
            d_lo <= m,
    ;
    assert(d_hi * fr <= m * fr) by (nonlinear_arith)
        requires
            d_hi <= m,
    ;
    let cost_lo = {
        let pcie = lo64 * pcie_rate;
        let cpu = d_lo * fr;
        if pcie >= cpu { pcie } else { cpu }
    };
    let cost_hi = {
        let pcie = (lo64 + 1) * pcie_rate;
        let cpu = d_hi * fr;
        if pcie >= cpu { pcie } else { cpu }
    };
    let f = if cost_lo <= cost_hi {
        if lo < num_missing { lo } else { num_missing }
    } else {
        if lo + 1 < num_missing { lo + 1 } else { num_missing }
    };
    proof {
        if frac_q16 <= Q16_ONE && num_missing <= u32::MAX {
            let mf = num_missing as int * frac_q16 as int;
            assert((num_missing as u32) as int == num_missing as int);
            assert(prod as int == mf);
            let l = lo as int;
            assert(l == mf / 65536);
            assert(l * 65536 <= mf && mf < (l + 1) * 65536) by (nonlinear_arith)
                requires
                    l == mf / 65536,
                    mf >= 0,
            ;
            assert(mf <= num_missing as int * 65536) by (nonlinear_arith)
                requires
                    mf == num_missing as int * frac_q16 as int,
                    frac_q16 <= 65536,
            ;
            assert(l <= num_missing);
        }
    }
    f
}

/// Statistics accumulated per layer for telemetry and profiling.
#[derive(Debug, Clone, Copy, Default, PartialEq, Eq, Structural)]
pub struct LayerCacheStats {
    /// Total expert requests routed to this layer.
    pub active_requests: usize,
    /// Requests that were hits in the resident GPU slot cache.
    pub resident_hits: usize,
    /// Requests fetched from host memory over PCIe into the slot cache.
    pub pcie_fetched: usize,
    /// Requests that overflowed the fetch cap and executed on CPU.
    pub cpu_overflow: usize,
}

/// Outcome of rewriting a layer's routed expert IDs.
#[derive(Debug, Clone, PartialEq, Eq)]
pub struct RewrittenRouting {
    /// Rewritten slot IDs aligned with input requests:
    /// - Non-negative values (`>= 0`): GPU slot index
    /// - Negative value (`-1`): CPU overflow (compute on host)
    pub slot_ids: Vec<i32>,
    /// List of expert indices that must be fetched over PCIe this step.
    pub fetched_experts: Vec<usize>,
    /// Destination GPU slot index for each fetched expert.
    pub fetch_target_slots: Vec<usize>,
    /// List of expert indices that must be computed on CPU this step.
    pub cpu_experts: Vec<usize>,
}

/// `s` is where the LRU scan lands on the timestamps `ts`: the first slot
/// holding the oldest timestamp.
pub open spec fn is_lru_choice(ts: Seq<u64>, s: int) -> bool {
    &&& 0 <= s < ts.len()
    &&& forall|t: int| 0 <= t < ts.len() ==> ts[s] <= #[trigger] ts[t]
    &&& forall|t: int| 0 <= t < s ==> ts[s] < #[trigger] ts[t]
}

/// Model of the slot tables of one layer.
pub struct LayerView {
    /// Slot -> resident expert, or -1.
    pub slot_expert: Seq<i32>,
    /// Expert -> slot holding it, or -1.
    pub expert_slot: Seq<i32>,
    /// Slot -> step at which it was last used.
    pub last_used: Seq<u64>,
}

impl LayerView {
    /// Table sizes match, entries are in range, and every bound expert points
    /// to a slot that holds it.
    pub open spec fn wf(self, ne: int, ns: int) -> bool {
        &&& self.slot_expert.len() == ns
        &&& self.last_used.len() == ns
        &&& self.expert_slot.len() == ne
        &&& forall|s: int| 0 <= s < ns ==> -1 <= #[trigger] self.slot_expert[s] < ne
        &&& forall|e: int| 0 <= e < ne ==> -1 <= #[trigger] self.expert_slot[e] < ns
        &&& forall|e: int|
            0 <= e < ne && #[trigger] self.expert_slot[e] >= 0 ==> self.slot_expert[self.expert_slot[e] as int]
                == e
    }

    /// Request `i` finds its expert resident.
    pub open spec fn is_hit(self, req: Seq<usize>, i: int) -> bool {
        self.expert_slot[req[i] as int] >= 0
    }

    /// Positions of the requests that miss, in request order.
    pub open spec fn misses(self, req: Seq<usize>) -> Seq<usize>
        decreases req.len(),
    {
        if req.len() == 0 {
            Seq::empty()
        } else {
            let m = self.misses(req.drop_last());
            if self.expert_slot[req.last() as int] >= 0 {
                m
            } else {
                m.push((req.len() - 1) as usize)
            }
        }
    }

    /// Slot `s` holds the expert of some request (so the request hits it).
    pub open spec fn hit_slot(self, req: Seq<usize>, s: int) -> bool {
        exists|i: int| 0 <= i < req.len() && #[trigger] self.expert_slot[req[i] as int] == s
    }

    /// The tables after the hits of `req` stamped their slots with `step`.
    pub open spec fn after_hits(self, req: Seq<usize>, step: u64) -> LayerView {
        LayerView {
            last_used: Seq::new(
                self.last_used.len(),
                |s: int|
                    if self.hit_slot(req, s) {
                        step
                    } else {
                        self.last_used[s]
                    },
            ),
            ..self
        }
    }

    /// Fetches expert `e` into slot `s`: the previous tenant of `s` is unbound,
    /// `e` is bound to `s`, and `s` is stamped with `step`.
    pub open spec fn fetch_into(self, e: int, s: int, step: u64) -> LayerView {
        let p = self.slot_expert[s];
        let e2s = if p >= 0 {
            self.expert_slot.update(p as int, -1i32)
        } else {
            self.expert_slot
        };
        LayerView {
            slot_expert: self.slot_expert.update(s, e as i32),
            expert_slot: e2s.update(e, s as i32),
            last_used: self.last_used.update(s, step),
        }
    }

    /// Fetches `fetched[r]` into `targets[r]` for each `r` in order.
    pub open spec fn fetch_all(self, fetched: Seq<usize>, targets: Seq<usize>, step: u64) -> LayerView
        decreases fetched.len(),
    {
        if fetched.len() == 0 || targets.len() == 0 {
            self
        } else {
            self.fetch_all(fetched.drop_last(), targets.drop_last(), step).fetch_into(
                fetched.last() as int,
                targets.last() as int,
                step,
            )
        }
    }
}

/// Fetching into a slot keeps the tables well formed.
pub proof fn lemma_fetch_into_wf(v: LayerView, ne: int, ns: int, e: int, s: int, step: u64)
    requires
        v.wf(ne, ns),
        0 <= e < ne,
        0 <= s < ns,
        ne <= i32::MAX,
        ns <= i32::MAX,
    ensures
        v.fetch_into(e, s, step).wf(ne, ns),
{
    let w = v.fetch_into(e, s, step);
    let p = v.slot_expert[s];
    assert forall|e2: int| 0 <= e2 < ne && #[trigger] w.expert_slot[e2] >= 0 implies w.slot_expert[w.expert_slot[e2] as int] == e2 by {
        if e2 != e {
            assert(e2 != p);
            let s2 = v.expert_slot[e2] as int;
            assert(w.expert_slot[e2] == v.expert_slot[e2]);
            assert(v.slot_expert[s2] == e2);
            if s2 == s {
                assert(p == e2);
            }
        }
    }
}

/// Fetching in-range experts into in-range slots keeps the tables well formed.
pub proof fn lemma_fetch_all_wf(
    v: LayerView,
    ne: int,
    ns: int,
    fetched: Seq<usize>,
    targets: Seq<usize>,
    step: u64,
)
    requires
        v.wf(ne, ns),
        ne <= i32::MAX,
        ns <= i32::MAX,
        fetched.len() == targets.len(),
        forall|k: int| 0 <= k < fetched.len() ==> #[trigger] fetched[k] < ne,
        forall|k: int| 0 <= k < targets.len() ==> #[trigger] targets[k] < ns,
    ensures
        v.fetch_all(fetched, targets, step).wf(ne, ns),
    decreases targets.len(),
{
    if targets.len() > 0 {
        lemma_fetch_all_wf(v, ne, ns, fetched.drop_last(), targets.drop_last(), step);
        lemma_fetch_into_wf(
            v.fetch_all(fetched.drop_last(), targets.drop_last(), step),
            ne,
            ns,
            fetched.last() as int,
            targets.last() as int,
            step,
        );
    }
}

/// The last fetch into a slot is the expert that the slot holds afterwards.
pub proof fn lemma_last_fetch_resides(
    v: LayerView,
    ne: int,
    ns: int,
    fetched: Seq<usize>,
    targets: Seq<usize>,
    step: u64,
    r: int,
)
    requires
        v.wf(ne, ns),
        ne <= i32::MAX,
        ns <= i32::MAX,
        fetched.len() == targets.len(),
        forall|k: int| 0 <= k < fetched.len() ==> #[trigger] fetched[k] < ne,
        forall|k: int| 0 <= k < targets.len() ==> #[trigger] targets[k] < ns,
        0 <= r < targets.len(),
        forall|r2: int| r < r2 < targets.len() ==> #[trigger] targets[r2] != targets[r],
    ensures
        v.fetch_all(fetched, targets, step).slot_expert[targets[r] as int] == fetched[r] as i32,
    decreases targets.len(),
{
    lemma_fetch_all_wf(v, ne, ns, fetched.drop_last(), targets.drop_last(), step);
    if r < targets.len() - 1 {
        assert(targets.last() != targets[r]);
        lemma_last_fetch_resides(v, ne, ns, fetched.drop_last(), targets.drop_last(), step, r);
    }
}

/// The slot tables of one layer.
#[derive(Debug, Clone)]
struct LayerSlots {
    slot_to_expert: Vec<i32>,
    expert_to_slot: Vec<i32>,
    slot_last_used: Vec<u64>,
}

impl View for LayerSlots {
    type V = LayerView;

    closed spec fn view(&self) -> LayerView {
        LayerView {
            slot_expert: self.slot_to_expert@,
            expert_slot: self.expert_to_slot@,
            last_used: self.slot_last_used@,
        }
    }
}

/// The first slot holding the oldest timestamp.
fn lru_scan(ts: &Vec<u64>) -> (s: usize)
    requires
        ts@.len() > 0,
    ensures
        is_lru_choice(ts@, s as int),
{
    let mut lru: usize = 0;
    let mut oldest: u64 = u64::MAX;
    let mut k: usize = 0;
    while k < ts.len()
        invariant
            k <= ts@.len(),
            ts@.len() > 0,
            lru < ts@.len(),
            lru <= k,
            k == 0 ==> lru == 0 && oldest == u64::MAX,
            k > 0 ==> lru < k,
            forall|t: int| 0 <= t < k ==> oldest <= #[trigger] ts@[t],
            oldest == ts@[lru as int] || (oldest == u64::MAX && lru == 0 && forall|t: int|
                0 <= t < k ==> #[trigger] ts@[t] == u64::MAX),
            forall|t: int| 0 <= t < lru ==> oldest < #[trigger] ts@[t],
        decreases ts@.len() - k,
    {
        let last = ts[k];
        if last < oldest {
            oldest = last;
            lru = k;
        }
        k = k + 1;
    }
    lru
}

/// What one step of a layer does: hits keep their slot; of the misses (in
/// request order) the first `balanced_fetch(#misses, frac)` are fetched, each
/// into the least recently used slot at that moment, and the rest overflow to
/// the CPU (`-1`). `new` is the layer after the hits were stamped and the
/// fetches applied.
pub open spec fn step_outcome(
    old: LayerView,
    req: Seq<usize>,
    frac: u32,
    step: u64,
    res: RewrittenRouting,
    new: LayerView,
) -> bool {
    let ms = old.misses(req);
    let nf = balanced_fetch_spec(ms.len() as usize, frac);
    let base = old.after_hits(req, step);
    let fetched = res.fetched_experts@;
    let targets = res.fetch_target_slots@;
    &&& res.slot_ids@.len() == req.len()
    &&& forall|i: int|
        0 <= i < req.len() && old.is_hit(req, i) ==> #[trigger] res.slot_ids@[i] == old.expert_slot[req[i] as int]
    &&& fetched.len() == nf
    &&& targets.len() == nf
    &&& res.cpu_experts@.len() == ms.len() - nf
    &&& forall|r: int| 0 <= r < nf ==> #[trigger] targets[r] < old.slot_expert.len()
    &&& forall|r: int| 0 <= r < nf ==> #[trigger] fetched[r] < old.expert_slot.len()
    &&& forall|r: int|
        0 <= r < nf ==> #[trigger] fetched[r] == req[ms[r] as int] && res.slot_ids@[ms[r] as int]
            == targets[r] as i32
    &&& forall|r: int|
        nf <= r < ms.len() ==> #[trigger] res.cpu_experts@[r - nf] == req[ms[r] as int]
            && res.slot_ids@[ms[r] as int] == -1
    &&& forall|r: int|
        0 <= r < nf ==> is_lru_choice(
            base.fetch_all(fetched.subrange(0, r), targets.subrange(0, r), step).last_used,
            #[trigger] targets[r] as int,
        )
    &&& new == base.fetch_all(fetched, targets, step)
}

/// The timestamps after the hits and a sequence of fetches: a slot carries
/// `step` when a hit or one of the fetches used it, and its old stamp otherwise.
pub proof fn lemma_fetch_stamps(
    v: LayerView,
    ne: int,
    ns: int,
    req: Seq<usize>,
    step: u64,
    fetched: Seq<usize>,
    targets: Seq<usize>,
)
    requires
        v.wf(ne, ns),
        ne <= i32::MAX,
        ns <= i32::MAX,
        fetched.len() == targets.len(),
        forall|k: int| 0 <= k < fetched.len() ==> #[trigger] fetched[k] < ne,
        forall|k: int| 0 <= k < targets.len() ==> #[trigger] targets[k] < ns,
    ensures
        v.after_hits(req, step).fetch_all(fetched, targets, step).last_used.len() == ns,
        forall|s: int|
            0 <= s < ns ==> #[trigger] v.after_hits(req, step).fetch_all(fetched, targets, step).last_used[s]
                == if v.hit_slot(req, s) || targets.contains(s as usize) {
                step
            } else {
                v.last_used[s]
            },
    decreases targets.len(),
{
    let base = v.after_hits(req, step);
    assert(base.wf(ne, ns));
    lemma_fetch_all_wf(base, ne, ns, fetched, targets, step);
    if targets.len() > 0 {
        let f1 = fetched.drop_last();
        let t1 = targets.drop_last();
        lemma_fetch_stamps(v, ne, ns, req, step, f1, t1);
        assert forall|s: int| 0 <= s < ns implies #[trigger] targets.contains(s as usize) == (t1.contains(s as usize) || targets.last() == s as usize) by {
            if targets.contains(s as usize) {
                let k = choose|k: int| 0 <= k < targets.len() && targets[k] == s as usize;
                if k < t1.len() {
                    assert(t1[k] == targets[k]);
                }
            }
            if t1.contains(s as usize) {
                let k = choose|k: int| 0 <= k < t1.len() && t1[k] == s as usize;
                assert(targets[k] == t1[k]);
            }
            if targets.last() == s as usize {
                assert(targets[targets.len() - 1] == s as usize);
            }
        }
    }
}

/// When `step` is newer than every stamp of the layer, a fetch never evicts a
/// slot already used in this step (by a hit or an earlier fetch) while some
/// slot is still unused.
pub proof fn lemma_fetch_prefers_unused_slot(
    old: LayerView,
    ne: int,
    ns: int,
    req: Seq<usize>,
    frac: u32,
    step: u64,
    res: RewrittenRouting,
    new: LayerView,
    r: int,
)
    requires
        old.wf(ne, ns),
        ne <= i32::MAX,
        ns <= i32::MAX,
        forall|k: int| 0 <= k < req.len() ==> #[trigger] req[k] < ne,
        req.len() <= usize::MAX,
        step_outcome(old, req, frac, step, res, new),
        forall|s: int| 0 <= s < ns ==> #[trigger] old.last_used[s] < step,
        0 <= r < res.fetch_target_slots@.len(),
        exists|t: int|
            0 <= t < ns && !old.hit_slot(req, t) && !(#[trigger] res.fetch_target_slots@.subrange(0, r).contains(
                t as usize,
            )),
    ensures
        !old.hit_slot(req, res.fetch_target_slots@[r] as int),
        !res.fetch_target_slots@.subrange(0, r).contains(res.fetch_target_slots@[r]),
{
    let targets = res.fetch_target_slots@;
    let fetched = res.fetched_experts@;
    let ms = old.misses(req);
    lemma_misses(old, req);
    let f0 = fetched.subrange(0, r);
    let t0 = targets.subrange(0, r);
    let base = old.after_hits(req, step);
    let ts = base.fetch_all(f0, t0, step).last_used;
    assert(is_lru_choice(ts, targets[r] as int));
    assert forall|k: int| 0 <= k < f0.len() implies #[trigger] f0[k] < ne by {
        assert(f0[k] == fetched[k]);
    }
    assert forall|k: int| 0 <= k < t0.len() implies #[trigger] t0[k] < ns by {
        assert(t0[k] == targets[k]);
    }
    lemma_fetch_stamps(old, ne, ns, req, step, f0, t0);
    let t = choose|t: int|
        0 <= t < ns && !old.hit_slot(req, t) && !(#[trigger] targets.subrange(0, r).contains(t as usize));
    assert(ts[t] < step);
    assert(ts[targets[r] as int] <= ts[t]);
}

/// Facts about the list of misses: in range, strictly increasing, each a miss.
pub proof fn lemma_misses(v: LayerView, req: Seq<usize>)
    requires
        req.len() <= usize::MAX,
    ensures
        v.misses(req).len() <= req.len(),
        forall|k: int| 0 <= k < v.misses(req).len() ==> #[trigger] v.misses(req)[k] < req.len(),
        forall|k: int|
            0 <= k < v.misses(req).len() ==> !v.is_hit(req, #[trigger] v.misses(req)[k] as int),
        forall|k1: int, k2: int|
            0 <= k1 < k2 < v.misses(req).len() ==> #[trigger] v.misses(req)[k1] < #[trigger] v.misses(req)[k2],
    decreases req.len(),
{
    if req.len() > 0 {
        let d = req.drop_last();
        lemma_misses(v, d);
        let m = v.misses(d);
        assert forall|k: int| 0 <= k < m.len() implies !v.is_hit(req, #[trigger] m[k] as int) by {
            assert(req[m[k] as int] == d[m[k] as int]);
        }
        if v.expert_slot[req.last() as int] < 0 {
            let m2 = m.push((req.len() - 1) as usize);
            assert(v.misses(req) == m2);
            assert forall|k: int| 0 <= k < m2.len() implies !v.is_hit(req, #[trigger] m2[k] as int) by {
                if k < m.len() {
                    assert(m2[k] == m[k]);
                    assert(m[k] < d.len());
                    assert(!v.is_hit(d, m[k] as int));
                    assert(req[m[k] as int] == d[m[k] as int]);
                } else {
                    assert(m2[k] == (req.len() - 1) as usize);
                    assert(req[req.len() - 1] == req.last());
                }
            }
            assert forall|k1: int, k2: int| 0 <= k1 < k2 < m2.len() implies #[trigger] m2[k1] < #[trigger] m2[k2] by {
                if k2 < m.len() {
                    assert(m2[k1] == m[k1] && m2[k2] == m[k2]);
                    assert(m[k1] < m[k2]);
                } else {
                    assert(m2[k1] == m[k1]);
                    assert(m[k1] < d.len());
                    assert(m2[k2] == (req.len() - 1) as usize);
                }
            }
        }
    }
}

/// Every request that misses is listed among the misses.
proof fn lemma_misses_complete(v: LayerView, req: Seq<usize>, i: int)
    requires
        req.len() <= usize::MAX,
        0 <= i < req.len(),
        !v.is_hit(req, i),
    ensures
        exists|k: int| 0 <= k < v.misses(req).len() && #[trigger] v.misses(req)[k] == i,
    decreases req.len(),
{
    let d = req.drop_last();
    let m = v.misses(d);
    if i < req.len() - 1 {
        assert(req[i] == d[i]);
        lemma_misses_complete(v, d, i);
        let k = choose|k: int| 0 <= k < m.len() && #[trigger] m[k] == i;
        if v.expert_slot[req.last() as int] >= 0 {
            assert(v.misses(req) == m);
        } else {
            assert(v.misses(req) == m.push((req.len() - 1) as usize));
        }
        assert(v.misses(req)[k] == i);
    } else {
        assert(req[i] == req.last());
        assert(v.misses(req) == m.push((req.len() - 1) as usize));
        assert(v.misses(req)[m.len() as int] == i);
    }
}

/// The LRU scan lands on a single slot.
proof fn lemma_lru_choice_unique(ts: Seq<u64>, s1: int, s2: int)
    requires
        is_lru_choice(ts, s1),
        is_lru_choice(ts, s2),
    ensures
        s1 == s2,
{
    if s1 < s2 {
        assert(ts[s2] < ts[s1]);
        assert(ts[s1] <= ts[s2]);
    } else if s2 < s1 {
        assert(ts[s1] < ts[s2]);
        assert(ts[s2] <= ts[s1]);
    }
}

/// Two target lists that each follow the LRU scan over the same fetches
/// agree on their first `k` entries.
proof fn lemma_lru_targets_agree(
    base: LayerView,
    f: Seq<usize>,
    t1: Seq<usize>,
    t2: Seq<usize>,
    step: u64,
    k: int,
)
    requires
        0 <= k <= f.len(),
        t1.len() == f.len(),
        t2.len() == f.len(),
        forall|r: int|
            0 <= r < f.len() ==> is_lru_choice(
                base.fetch_all(f.subrange(0, r), t1.subrange(0, r), step).last_used,
                #[trigger] t1[r] as int,
            ),
        forall|r: int|
            0 <= r < f.len() ==> is_lru_choice(
                base.fetch_all(f.subrange(0, r), t2.subrange(0, r), step).last_used,
                #[trigger] t2[r] as int,
            ),
    ensures
        forall|j: int| 0 <= j < k ==> t1[j] == t2[j],
    decreases k,
{
    if k > 0 {
        let r = k - 1;
        lemma_lru_targets_agree(base, f, t1, t2, step, r);
        assert(t1.subrange(0, r) =~= t2.subrange(0, r));
        let ts = base.fetch_all(f.subrange(0, r), t1.subrange(0, r), step).last_used;
        assert(is_lru_choice(ts, t1[r] as int));
        assert(is_lru_choice(ts, t2[r] as int));
        lemma_lru_choice_unique(ts, t1[r] as int, t2[r] as int);
    }
}

/// A step's result is a function of the layer's tables, the requests, the
/// fetch fraction and the step: two outcomes of the same step agree on the
/// rewritten slots, the fetches with their target slots, the CPU overflow
/// and the tables they leave.
pub proof fn lemma_step_outcome_unique(
    old: LayerView,
    req: Seq<usize>,
    frac: u32,
    step: u64,
    res1: RewrittenRouting,
    new1: LayerView,
    res2: RewrittenRouting,
    new2: LayerView,
)
    requires
        req.len() <= usize::MAX,
        step_outcome(old, req, frac, step, res1, new1),
        step_outcome(old, req, frac, step, res2, new2),
    ensures
        res1.slot_ids@ == res2.slot_ids@,
        res1.fetched_experts@ == res2.fetched_experts@,
        res1.fetch_target_slots@ == res2.fetch_target_slots@,
        res1.cpu_experts@ == res2.cpu_experts@,
        new1 == new2,
{
    let ms = old.misses(req);
    let nf = balanced_fetch_spec(ms.len() as usize, frac);
    let base = old.after_hits(req, step);
    lemma_misses(old, req);
    let f1 = res1.fetched_experts@;
    let f2 = res2.fetched_experts@;
    let t1 = res1.fetch_target_slots@;
    let t2 = res2.fetch_target_slots@;
    assert forall|r: int| 0 <= r < nf implies f1[r] == f2[r] by {
        assert(f1[r] == req[ms[r] as int]);
        assert(f2[r] == req[ms[r] as int]);
    }
    assert(f1 =~= f2);
    let c1 = res1.cpu_experts@;
    let c2 = res2.cpu_experts@;
    assert forall|j: int| 0 <= j < c1.len() implies c1[j] == c2[j] by {
        let r = j + nf;
        assert(c1[r - nf] == req[ms[r] as int]);
        assert(c2[r - nf] == req[ms[r] as int]);
    }
    assert(c1 =~= c2);
    assert forall|r: int| 0 <= r < f1.len() implies is_lru_choice(
        base.fetch_all(f1.subrange(0, r), t2.subrange(0, r), step).last_used,
        #[trigger] t2[r] as int,
    ) by {
        assert(is_lru_choice(
            base.fetch_all(f2.subrange(0, r), t2.subrange(0, r), step).last_used,
            t2[r] as int,
        ));
    }
    lemma_lru_targets_agree(base, f1, t1, t2, step, nf);
    assert(t1 =~= t2);
    let s1 = res1.slot_ids@;
    let s2 = res2.slot_ids@;
    assert forall|i: int| 0 <= i < req.len() implies s1[i] == s2[i] by {
        if old.is_hit(req, i) {
            assert(s1[i] == old.expert_slot[req[i] as int]);
            assert(s2[i] == old.expert_slot[req[i] as int]);
        } else {
            lemma_misses_complete(old, req, i);
            let k = choose|k: int| 0 <= k < ms.len() && #[trigger] ms[k] == i;
            if k < nf {
                assert(f1[k] == req[ms[k] as int] && s1[ms[k] as int] == t1[k] as i32);
                assert(f2[k] == req[ms[k] as int] && s2[ms[k] as int] == t2[k] as i32);
            } else {
                assert(c1[k - nf] == req[ms[k] as int] && s1[ms[k] as int] == -1);
                assert(c2[k - nf] == req[ms[k] as int] && s2[ms[k] as int] == -1);
            }
        }
    }
    assert(s1 =~= s2);
}

/// Appending one fetch extends the fetch sequence and keeps every earlier prefix.
proof fn lemma_extend_fetches(
    base: LayerView,
    f0: Seq<usize>,
    t0: Seq<usize>,
    e: usize,
    s: usize,
    step: u64,
)
    requires
        f0.len() == t0.len(),
    ensures
        base.fetch_all(f0.push(e), t0.push(s), step) == base.fetch_all(f0, t0, step).fetch_into(
            e as int,
            s as int,
            step,
        ),
        f0.push(e).subrange(0, f0.len() as int) == f0,
        t0.push(s).subrange(0, t0.len() as int) == t0,
        forall|q: int|
            0 <= q <= f0.len() ==> #[trigger] f0.push(e).subrange(0, q) == f0.subrange(0, q)
                && t0.push(s).subrange(0, q) == t0.subrange(0, q),
{
    assert(f0.push(e).drop_last() =~= f0);
    assert(t0.push(s).drop_last() =~= t0);
    assert(f0.push(e).subrange(0, f0.len() as int) =~= f0);
    assert(t0.push(s).subrange(0, t0.len() as int) =~= t0);
    assert forall|q: int| 0 <= q <= f0.len() implies #[trigger] f0.push(e).subrange(0, q) == f0.subrange(0, q)
        && t0.push(s).subrange(0, q) == t0.subrange(0, q) by {
        assert(f0.push(e).subrange(0, q) =~= f0.subrange(0, q));
        assert(t0.push(s).subrange(0, q) =~= t0.subrange(0, q));
    }
}

/// Fetches expert `exp_id` into the least recently used slot and returns it.
fn fetch_one(row: &mut LayerSlots, ne: usize, ns: usize, exp_id: usize, step_id: u64) -> (s: usize)
    requires
        old(row)@.wf(ne as int, ns as int),
        ne <= i32::MAX,
        ns <= i32::MAX,
        ns > 0,
        exp_id < ne,
    ensures
        s < ns,
        is_lru_choice(old(row)@.last_used, s as int),
        final(row)@ == old(row)@.fetch_into(exp_id as int, s as int, step_id),
        final(row)@.wf(ne as int, ns as int),
{
    let ghost before = row@;
    let lru_slot = lru_scan(&row.slot_last_used);
    let prev_tenant = row.slot_to_expert[lru_slot];
    if prev_tenant >= 0 {
        row.expert_to_slot.set(prev_tenant as usize, -1);
    }
    row.slot_to_expert.set(lru_slot, exp_id as i32);
    row.expert_to_slot.set(exp_id, lru_slot as i32);
    row.slot_last_used.set(lru_slot, step_id);
    proof {
        assert(row@.slot_expert =~= before.fetch_into(exp_id as int, lru_slot as int, step_id).slot_expert);
        assert(row@.expert_slot =~= before.fetch_into(exp_id as int, lru_slot as int, step_id).expert_slot);
        assert(row@.last_used =~= before.fetch_into(exp_id as int, lru_slot as int, step_id).last_used);
        lemma_fetch_into_wf(before, ne as int, ns as int, exp_id as int, lru_slot as int, step_id);
    }
    lru_slot
}

/// The tables of one layer after a step: hits stamp their slots, then the
/// first misses are fetched into least recently used slots.
#[verifier::rlimit(80)]
#[verifier::spinoff_prover]
fn step_row(
    row: &mut LayerSlots,
    ne: usize,
    ns: usize,
    requested: &[usize],
    frac_q16: u32,
    step_id: u64,
) -> (out: (RewrittenRouting, usize))
    requires
        old(row)@.wf(ne as int, ns as int),
        ne <= i32::MAX,
        ns <= i32::MAX,
        forall|i: int| 0 <= i < requested@.len() ==> #[trigger] requested@[i] < ne,
        balanced_fetch_in_range(old(row)@.misses(requested@).len() as usize, frac_q16),
        ns > 0 || balanced_fetch_spec(old(row)@.misses(requested@).len() as usize, frac_q16) == 0,
    ensures
        final(row)@.wf(ne as int, ns as int),
        step_outcome(old(row)@, requested@, frac_q16, step_id, out.0, final(row)@),
        out.1 == requested@.len() - old(row)@.misses(requested@).len(),
{
    let ghost v0 = row@;
    let ghost req = requested@;
    let n = requested.len();
    let mut slot_ids: Vec<i32> = Vec::new();
    let mut misses: Vec<usize> = Vec::new();
    let mut hits: usize = 0;
    // Pass 1: resident hits.
    let mut i: usize = 0;
    while i < n
        invariant
            n == req.len(),
            req == requested@,
            i <= n,
            v0.wf(ne as int, ns as int),
            forall|k: int| 0 <= k < req.len() ==> #[trigger] req[k] < ne,
            row@.slot_expert == v0.slot_expert,
            row@.expert_slot == v0.expert_slot,
            row@.last_used == v0.after_hits(req.subrange(0, i as int), step_id).last_used,
            misses@ == v0.misses(req.subrange(0, i as int)),
            hits == i - misses@.len(),
            misses@.len() <= i,
            slot_ids@.len() == i,
            forall|k: int|
                0 <= k < i ==> #[trigger] slot_ids@[k] == if v0.is_hit(req, k) {
                    v0.expert_slot[req[k] as int]
                } else {
                    -1i32
                },
        decreases n - i,
    {
        let exp_id = requested[i];
        let slot = row.expert_to_slot[exp_id];
        let ghost pre = req.subrange(0, i as int);
        let ghost post = req.subrange(0, i + 1);
        proof {
            assert(post.drop_last() =~= pre);
            assert(post.last() == req[i as int]);
        }
        if slot >= 0 {
            slot_ids.push(slot);
            row.slot_last_used.set(slot as usize, step_id);
            hits = hits + 1;
            proof {
                assert(v0.after_hits(post, step_id).last_used =~= row@.last_used) by {
                    assert forall|s: int| 0 <= s < ns implies v0.hit_slot(post, s) == (v0.hit_slot(pre, s) || s == slot) by {
                        if v0.hit_slot(pre, s) {
                            let w = choose|w: int| 0 <= w < pre.len() && #[trigger] v0.expert_slot[pre[w] as int] == s;
                            assert(post[w] == pre[w]);
                        }
                        if s == slot {
                            assert(v0.expert_slot[post[i as int] as int] == s);
                        }
                        if v0.hit_slot(post, s) {
                            let w = choose|w: int| 0 <= w < post.len() && #[trigger] v0.expert_slot[post[w] as int] == s;
                            if w < i {
                                assert(pre[w] == post[w]);
                            }
                        }
                    }
                }
            }
        } else {
            slot_ids.push(-1);
            misses.push(i);
            proof {
                assert(v0.after_hits(post, step_id).last_used =~= row@.last_used) by {
                    assert forall|s: int| 0 <= s < ns implies v0.hit_slot(post, s) == v0.hit_slot(pre, s) by {
                        if v0.hit_slot(pre, s) {
                            let w = choose|w: int| 0 <= w < pre.len() && #[trigger] v0.expert_slot[pre[w] as int] == s;
                            assert(post[w] == pre[w]);
                        }
                        if v0.hit_slot(post, s) {
                            let w = choose|w: int| 0 <= w < post.len() && #[trigger] v0.expert_slot[post[w] as int] == s;
                            if w < i {
                                assert(pre[w] == post[w]);
                            }
                        }
                    }
                }
            }
        }
        i = i + 1;
    }
    proof {
        assert(req.subrange(0, n as int) =~= req);
        lemma_misses(v0, req);
    }
    let ghost ms = misses@;
    let ghost base = v0.after_hits(req, step_id);
    // Pass 2: balanced fetch count.
    let max_fetch = balanced_fetch(misses.len(), frac_q16);
    // Pass 3: fetch into LRU slots, overflow the rest.
    let mut fetched_experts: Vec<usize> = Vec::new();
    let mut fetch_target_slots: Vec<usize> = Vec::new();
    let mut cpu_experts: Vec<usize> = Vec::new();
    let nm = misses.len();
    let mut r: usize = 0;
    while r < nm
        invariant
            n == req.len(),
            req == requested@,
            nm == ms.len(),
            ms == misses@,
            ms == v0.misses(req),
            base == v0.after_hits(req, step_id),
            max_fetch == balanced_fetch_spec(nm, frac_q16),
            max_fetch <= nm,
            ns > 0 || max_fetch == 0,
            r <= nm,
            v0.wf(ne as int, ns as int),
            ne <= i32::MAX,
            ns <= i32::MAX,
            forall|k: int| 0 <= k < req.len() ==> #[trigger] req[k] < ne,
            forall|k: int| 0 <= k < ms.len() ==> #[trigger] ms[k] < req.len(),
            forall|k: int| 0 <= k < ms.len() ==> !v0.is_hit(req, #[trigger] ms[k] as int),
            forall|k1: int, k2: int| 0 <= k1 < k2 < ms.len() ==> #[trigger] ms[k1] < #[trigger] ms[k2],
            row@.wf(ne as int, ns as int),
            fetched_experts@.len() == fetch_target_slots@.len(),
            fetched_experts@.len() == if r < max_fetch { r as int } else { max_fetch as int },
            forall|k: int| 0 <= k < fetched_experts@.len() ==> #[trigger] fetched_experts@[k] < ne,
            forall|k: int| 0 <= k < fetch_target_slots@.len() ==> #[trigger] fetch_target_slots@[k] < ns,
            row@ == base.fetch_all(fetched_experts@, fetch_target_slots@, step_id),
            cpu_experts@.len() == if r < max_fetch { 0 } else { r - max_fetch },
            slot_ids@.len() == req.len(),
            forall|k: int|
                0 <= k < req.len() && v0.is_hit(req, k) ==> #[trigger] slot_ids@[k] == v0.expert_slot[req[k] as int],
            forall|q: int|
                0 <= q < fetched_experts@.len() ==> #[trigger] fetched_experts@[q] == req[ms[q] as int]
                    && slot_ids@[ms[q] as int] == fetch_target_slots@[q] as i32,
            forall|q: int| fetched_experts@.len() <= q < ms.len() ==> slot_ids@[#[trigger] ms[q] as int] == -1,
            forall|q: int|
                max_fetch <= q < r ==> #[trigger] cpu_experts@[q - max_fetch] == req[ms[q] as int],
            forall|q: int|
                0 <= q < fetched_experts@.len() ==> is_lru_choice(
                    base.fetch_all(fetched_experts@.subrange(0, q), fetch_target_slots@.subrange(0, q), step_id).last_used,
                    #[trigger] fetch_target_slots@[q] as int,
                ),
        decreases nm - r,
    {
        let req_idx = misses[r];
        let exp_id = requested[req_idx];
        if r < max_fetch {
            let ghost f0 = fetched_experts@;
            let ghost t0 = fetch_target_slots@;
            let lru_slot = fetch_one(row, ne, ns, exp_id, step_id);
            slot_ids.set(req_idx, lru_slot as i32);
            fetched_experts.push(exp_id);
            fetch_target_slots.push(lru_slot);
            proof {
                lemma_extend_fetches(base, f0, t0, exp_id, lru_slot, step_id);
                assert forall|q: int| 0 <= q < ms.len() && q != r implies ms[q] != ms[r as int] by {
                    if q < r {
                        assert(ms[q] < ms[r as int]);
                    } else {
                        assert(ms[r as int] < ms[q]);
                    }
                }
            }
        } else {
            cpu_experts.push(exp_id);
        }
        r = r + 1;
    }
    let res = RewrittenRouting { slot_ids, fetched_experts, fetch_target_slots, cpu_experts };
    (res, hits)
}

/// LRU GPU expert slot cache manager.
#[derive(Debug, Clone)]
pub struct ExpertSlotCache {
    n_layers: usize,
    n_experts_per_layer: usize,
    n_slots_per_layer: usize,
    // Per-layer slot/expert bindings and recency stamps.
    layers: Vec<LayerSlots>,
    // Per-layer telemetry
    stats: Vec<LayerCacheStats>,
}

/// Zeroed statistics.
pub open spec fn zero_stats_value() -> LayerCacheStats {
    LayerCacheStats { active_requests: 0, resident_hits: 0, pcie_fetched: 0, cpu_overflow: 0 }
}

impl ExpertSlotCache {
    pub closed spec fn layers(&self) -> int {
        self.n_layers as int
    }

    pub closed spec fn experts(&self) -> int {
        self.n_experts_per_layer as int
    }

    pub closed spec fn slots(&self) -> int {
        self.n_slots_per_layer as int
    }

    /// The slot tables of layer `l`.
    pub closed spec fn row(&self, l: int) -> LayerView {
        self.layers@[l]@
    }

    /// The statistics of layer `l`.
    pub closed spec fn layer_stats(&self, l: int) -> LayerCacheStats {
        self.stats@[l]
    }

    /// Every layer's tables are well formed and every request is counted
    /// exactly once as a hit, a fetch or an overflow.
    pub closed spec fn wf(&self) -> bool {
        &&& self.layers@.len() == self.n_layers
        &&& self.stats@.len() == self.n_layers
        &&& forall|l: int|
            0 <= l < self.n_layers ==> (#[trigger] self.layers@[l])@.wf(
                self.n_experts_per_layer as int,
                self.n_slots_per_layer as int,
            )
        &&& forall|l: int|
            0 <= l < self.n_layers ==> #[trigger] self.stats@[l].resident_hits + self.stats@[l].pcie_fetched
                + self.stats@[l].cpu_overflow == self.stats@[l].active_requests
    }

    /// No slot is bound, no expert is resident, every timestamp and counter is zero.
    pub open spec fn is_empty(&self) -> bool {
        forall|l: int|
            0 <= l < self.layers() ==> {
                &&& forall|s: int| 0 <= s < self.slots() ==> #[trigger] self.row(l).slot_expert[s] == -1
                &&& forall|s: int| 0 <= s < self.slots() ==> #[trigger] self.row(l).last_used[s] == 0
                &&& forall|e: int| 0 <= e < self.experts() ==> #[trigger] self.row(l).expert_slot[e] == -1
                &&& #[trigger] self.layer_stats(l) == zero_stats_value()
            }
    }

    /// Creates a new `ExpertSlotCache` with every slot empty.
    pub fn new(n_layers: usize, n_experts_per_layer: usize, n_slots_per_layer: usize) -> (c: Self)
        ensures
            c.wf(),
            c.layers() == n_layers,
            c.experts() == n_experts_per_layer,
            c.slots() == n_slots_per_layer,
            c.is_empty(),
    {
        let mut layers: Vec<LayerSlots> = Vec::new();
        let mut l: usize = 0;
        while l < n_layers
            invariant
                l <= n_layers,
                layers@.len() == l,
                forall|k: int| 0 <= k < l ==> is_empty_row(#[trigger] layers@[k]@, n_experts_per_layer as int, n_slots_per_layer as int),
            decreases n_layers - l,
        {
            layers.push(empty_row(n_experts_per_layer, n_slots_per_layer));
            l = l + 1;
        }
        let c = ExpertSlotCache {
            n_layers,
            n_experts_per_layer,
            n_slots_per_layer,
            layers,
            stats: zero_stats(n_layers),
        };
        proof {
            assert forall|k: int| 0 <= k < n_layers implies (#[trigger] c.layers@[k])@.wf(n_experts_per_layer as int, n_slots_per_layer as int) by {
                lemma_empty_row_wf(c.layers@[k]@, n_experts_per_layer as int, n_slots_per_layer as int);
            }
        }
        c
    }

    /// Resets all slot bindings and recency tracking (e.g. at start of new sequence).
    pub fn reset(&mut self)
        requires
            old(self).wf(),
        ensures
            final(self).wf(),
            final(self).layers() == old(self).layers(),
            final(self).experts() == old(self).experts(),
            final(self).slots() == old(self).slots(),
            final(self).is_empty(),
    {
        *self = ExpertSlotCache::new(self.n_layers, self.n_experts_per_layer, self.n_slots_per_layer);
    }

    /// Number of GPU slots available per layer.
    pub fn n_slots_per_layer(&self) -> (n: usize)
        ensures
            n == self.slots(),
    {
        self.n_slots_per_layer
    }

    /// Number of experts per layer (expert ids run below it).
    pub fn n_experts_per_layer(&self) -> (n: usize)
        ensures
            n == self.experts(),
    {
        self.n_experts_per_layer
    }

    /// How many of `requested_experts` miss the slots of `layer` (are not
    /// resident there).
    pub fn count_misses(&self, layer: usize, requested_experts: &[usize]) -> (n: usize)
        requires
            self.wf(),
            layer < self.layers(),
            forall|i: int| 0 <= i < requested_experts@.len() ==> #[trigger] requested_experts@[i] < self.experts(),
        ensures
            n == self.row(layer as int).misses(requested_experts@).len(),
    {
        let ghost v = self.row(layer as int);
        let ghost req = requested_experts@;
        let row = &self.layers[layer];
        assert(row@ == v);
        assert(v.wf(self.n_experts_per_layer as int, self.n_slots_per_layer as int));
        let mut n: usize = 0;
        let mut i: usize = 0;
        while i < requested_experts.len()
            invariant
                i <= req.len(),
                req == requested_experts@,
                row@ == v,
                v.expert_slot.len() == self.n_experts_per_layer,
                forall|k: int| 0 <= k < req.len() ==> #[trigger] req[k] < self.n_experts_per_layer,
                n == v.misses(req.subrange(0, i as int)).len(),
                n <= i,
            decreases req.len() - i,
        {
            let e = requested_experts[i];
            proof {
                let pre = req.subrange(0, i as int);
                let ext = req.subrange(0, i + 1);
                assert(ext.drop_last() =~= pre);
                assert(ext.last() == req[i as int]);
            }
            if row.expert_to_slot[e] < 0 {
                n = n + 1;
            }
            i = i + 1;
        }
        proof {
            assert(req.subrange(0, req.len() as int) =~= req);
        }
        n
    }

    /// Access cumulative statistics for a layer.
    pub fn stats(&self, layer: usize) -> (r: Option<&LayerCacheStats>)
        requires
            self.wf(),
        ensures
            layer < self.layers() ==> r == Some(&self.layer_stats(layer as int)),
            layer >= self.layers() ==> r is None,
    {
        if layer < self.stats.len() {
            Some(&self.stats[layer])
        } else {
            None
        }
    }

    /// Rewrites requested expert IDs for a single layer decode step, with
    /// the fetch fraction in Q16 fixed point:
    ///
    /// - resident hits -> their slot ID
    /// - `balanced_fetch(#misses, frac_q16)` misses, in request order, are
    ///   fetched into the least recently used slot (evicting its tenant)
    /// - the remaining misses are marked `-1` (CPU overflow)
    ///
    /// Each fetch takes the least recently used slot at that moment, so with
    /// more fetches in one step than slots a later fetch can evict an expert
    /// fetched earlier in the same step (its request keeps the slot it got).
    /// Slot and expert ids are stored as `i32`, so both counts must fit in it.
    pub fn step_layer_q16(
        &mut self,
        layer: usize,
        requested_experts: &[usize],
        frac_q16: u32,
        step_id: u64,
    ) -> (res: RewrittenRouting)
        requires
            old(self).wf(),
            old(self).experts() <= i32::MAX,
            old(self).slots() <= i32::MAX,
            layer < old(self).layers(),
            forall|i: int| 0 <= i < requested_experts@.len() ==> #[trigger] requested_experts@[i] < old(self).experts(),
            balanced_fetch_in_range(old(self).row(layer as int).misses(requested_experts@).len() as usize, frac_q16),
            old(self).slots() > 0 || balanced_fetch_spec(
                old(self).row(layer as int).misses(requested_experts@).len() as usize,
                frac_q16,
            ) == 0,
            old(self).layer_stats(layer as int).active_requests + requested_experts@.len() <= usize::MAX,
        ensures
            final(self).wf(),
            final(self).layers() == old(self).layers(),
            final(self).experts() == old(self).experts(),
            final(self).slots() == old(self).slots(),
            step_outcome(
                old(self).row(layer as int),
                requested_experts@,
                frac_q16,
                step_id,
                res,
                final(self).row(layer as int),
            ),
            forall|l: int| 0 <= l < old(self).layers() && l != layer ==> #[trigger] final(self).row(l) == old(self).row(l)
                && final(self).layer_stats(l) == old(self).layer_stats(l),
            ({
                let old_stats = old(self).layer_stats(layer as int);
                let nmiss = old(self).row(layer as int).misses(requested_experts@).len();
                let nf = balanced_fetch_spec(nmiss as usize, frac_q16);
                final(self).layer_stats(layer as int) == (LayerCacheStats {
                    active_requests: (old_stats.active_requests + requested_experts@.len()) as usize,
                    resident_hits: (old_stats.resident_hits + requested_experts@.len() - nmiss) as usize,
                    pcie_fetched: (old_stats.pcie_fetched + nf) as usize,
                    cpu_overflow: (old_stats.cpu_overflow + nmiss - nf) as usize,
                })
            }),
    {
        let ghost old_self = *self;
        let ne = self.n_experts_per_layer;
        let ns = self.n_slots_per_layer;
        let ghost v0 = self.layers@[layer as int]@;
        proof {
            lemma_misses(v0, requested_experts@);
        }
        let (res, hits) = step_row(&mut self.layers[layer], ne, ns, requested_experts, frac_q16, step_id);
        let n = requested_experts.len();
        let fetched = res.fetched_experts.len();
        let overflow = res.cpu_experts.len();
        let old_stats = self.stats[layer];
        let new_stats = LayerCacheStats {
            active_requests: old_stats.active_requests + n,
            resident_hits: old_stats.resident_hits + hits,
            pcie_fetched: old_stats.pcie_fetched + fetched,
            cpu_overflow: old_stats.cpu_overflow + overflow,
        };
        self.stats.set(layer, new_stats);
        proof {
            assert forall|l: int| 0 <= l < self.n_layers implies (#[trigger] self.layers@[l])@.wf(ne as int, ns as int) by {
                if l != layer {
                    assert(self.layers@[l] == old_self.layers@[l]);
                }
            }
            assert forall|l: int| 0 <= l < self.n_layers implies #[trigger] self.stats@[l].resident_hits + self.stats@[l].pcie_fetched
                + self.stats@[l].cpu_overflow == self.stats@[l].active_requests by {
                if l != layer {
                    assert(self.stats@[l] == old_self.stats@[l]);
                }
            }
        }
        res
    }
}

/// A cache after `reset` holds exactly the state of a fresh cache of the
/// same sizes: in every layer the same slot tables and the same (zero)
/// statistics. Every step's contract speaks of that state alone, and its
/// result is a function of it (`lemma_step_outcome_unique`), so from then on
/// the reset cache answers every request as the fresh one does.
pub proof fn lemma_reset_matches_fresh(reset: &ExpertSlotCache, fresh: &ExpertSlotCache)
    requires
        reset.wf(),
        fresh.wf(),
        reset.is_empty(),
        fresh.is_empty(),
        reset.layers() == fresh.layers(),
        reset.experts() == fresh.experts(),
        reset.slots() == fresh.slots(),
    ensures
        forall|l: int|
            0 <= l < reset.layers() ==> #[trigger] reset.row(l) == fresh.row(l) && reset.layer_stats(l)
                == fresh.layer_stats(l),
{
    assert forall|l: int| 0 <= l < reset.layers() implies #[trigger] reset.row(l) == fresh.row(l)
        && reset.layer_stats(l) == fresh.layer_stats(l) by {
        let a = reset.row(l);
        let b = fresh.row(l);
        assert(reset.layers@[l]@.wf(reset.n_experts_per_layer as int, reset.n_slots_per_layer as int));
        assert(fresh.layers@[l]@.wf(fresh.n_experts_per_layer as int, fresh.n_slots_per_layer as int));
        assert(reset.layer_stats(l) == zero_stats_value());
        assert(fresh.layer_stats(l) == zero_stats_value());
        assert forall|s: int| 0 <= s < a.slot_expert.len() implies a.slot_expert[s] == b.slot_expert[s] by {
            assert(reset.row(l).slot_expert[s] == -1);
            assert(fresh.row(l).slot_expert[s] == -1);
        }
        assert forall|s: int| 0 <= s < a.last_used.len() implies a.last_used[s] == b.last_used[s] by {
            assert(reset.row(l).last_used[s] == 0);
            assert(fresh.row(l).last_used[s] == 0);
        }
        assert forall|e: int| 0 <= e < a.expert_slot.len() implies a.expert_slot[e] == b.expert_slot[e] by {
            assert(reset.row(l).expert_slot[e] == -1);
            assert(fresh.row(l).expert_slot[e] == -1);
        }
        assert(a.slot_expert =~= b.slot_expert);
        assert(a.last_used =~= b.last_used);
        assert(a.expert_slot =~= b.expert_slot);
    }
}

/// A layer with no bound slot and all timestamps zero.
pub open spec fn is_empty_row(v: LayerView, ne: int, ns: int) -> bool {
    &&& v.slot_expert.len() == ns
    &&& v.last_used.len() == ns
    &&& v.expert_slot.len() == ne
    &&& forall|s: int| 0 <= s < ns ==> #[trigger] v.slot_expert[s] == -1
    &&& forall|s: int| 0 <= s < ns ==> #[trigger] v.last_used[s] == 0
    &&& forall|e: int| 0 <= e < ne ==> #[trigger] v.expert_slot[e] == -1
}

proof fn lemma_empty_row_wf(v: LayerView, ne: int, ns: int)
    requires
        is_empty_row(v, ne, ns),
    ensures
        v.wf(ne, ns),
{
}

/// A fresh layer with every slot empty.
fn empty_row(ne: usize, ns: usize) -> (row: LayerSlots)
    ensures
        is_empty_row(row@, ne as int, ns as int),
{
    LayerSlots {
        slot_to_expert: vec![-1i32; ns],
        expert_to_slot: vec![-1i32; ne],
        slot_last_used: vec![0u64; ns],
    }
}

/// `n` zeroed statistics records.
fn zero_stats(n: usize) -> (v: Vec<LayerCacheStats>)
    ensures
        v@.len() == n,
        forall|l: int| 0 <= l < n ==> #[trigger] v@[l] == zero_stats_value(),
{
    let mut v: Vec<LayerCacheStats> = Vec::new();
    let mut i: usize = 0;
    while i < n
        invariant
            i <= n,
            v@.len() == i,
            forall|l: int| 0 <= l < i ==> #[trigger] v@[l] == zero_stats_value(),
        decreases n - i,
    {
        v.push(LayerCacheStats { active_requests: 0, resident_hits: 0, pcie_fetched: 0, cpu_overflow: 0 });
        i = i + 1;
    }
    v
}

} // verus!
