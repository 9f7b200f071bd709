//! The sampler state: the graph's edge list, the multi-group model, and
//! the highest-common-group (HCG) bucket counters from which the
//! log-likelihood of the edge set follows in closed form.
//!
//! `hcg_pairs[r]` counts the unordered node pairs whose highest common
//! group is `r`; `hcg_edges[r]` counts the edges among them.  Both are
//! maintained incrementally across moves and restored from a snapshot on
//! rollback.

use vstd::prelude::*;

use crate::bits::u64_bit;
use crate::bits::spec_insert_zero_at;
use crate::bits::spec_remove_bit_at;
use crate::multi_group_model::Move;
use crate::multi_group_model::ModelView;
use crate::multi_group_model::MultiGroupModel;
use crate::multi_group_model::spec_hcg;
use crate::multi_group_model::mask_ok;
use crate::multi_group_model::wf_view;

verus! {

/// One when the pair `(a, b)` falls in bucket `r`, zero otherwise.
pub open spec fn ind_hcg(a: u64, b: u64, g: int, r: int) -> int {
    if spec_hcg(a, b, g) == r {
        1int
    } else {
        0int
    }
}

/// Number of nodes `t < k` whose pair with mask `m` falls in bucket `r`.
pub open spec fn cross_cnt(m: u64, groups: Seq<u64>, g: int, r: int, k: int) -> int
    decreases k,
{
    if k <= 0 {
        0
    } else {
        cross_cnt(m, groups, g, r, k - 1) + ind_hcg(m, groups[k - 1], g, r)
    }
}

/// Number of unordered pairs `(t, v)` with `t < v < n` in bucket `r`.
pub open spec fn pair_cnt(groups: Seq<u64>, g: int, r: int, n: int) -> int
    decreases n,
{
    if n <= 0 {
        0
    } else {
        pair_cnt(groups, g, r, n - 1) + cross_cnt(groups[n - 1], groups, g, r, n - 1)
    }
}

/// Like `cross_cnt`, but skipping node `x` itself.
pub open spec fn crossu_cnt(m: u64, x: int, groups: Seq<u64>, g: int, r: int, k: int) -> int
    decreases k,
{
    if k <= 0 {
        0
    } else {
        crossu_cnt(m, x, groups, g, r, k - 1) + if k - 1 == x {
            0int
        } else {
            ind_hcg(m, groups[k - 1], g, r)
        }
    }
}

/// Number of edges among the first `k` whose endpoint pair falls in
/// bucket `r`.
pub open spec fn edge_cnt(edges: Seq<(usize, usize)>, groups: Seq<u64>, g: int, r: int, k: int) -> int
    decreases k,
{
    if k <= 0 {
        0
    } else {
        edge_cnt(edges, groups, g, r, k - 1) + ind_hcg(
            groups[edges[k - 1].0 as int],
            groups[edges[k - 1].1 as int],
            g,
            r,
        )
    }
}

/// Number of edges among the first `k` with exactly one endpoint `x`
/// whose pair of `m` against the other endpoint falls in bucket `r`.
pub open spec fn edgeu_cnt(
    m: u64,
    x: int,
    edges: Seq<(usize, usize)>,
    groups: Seq<u64>,
    g: int,
    r: int,
    k: int,
) -> int
    decreases k,
{
    if k <= 0 {
        0
    } else {
        edgeu_cnt(m, x, edges, groups, g, r, k - 1) + {
            let e = edges[k - 1];
            if (e.0 as int == x) != (e.1 as int == x) {
                ind_hcg(
                    m,
                    groups[if e.0 as int == x {
                        e.1 as int
                    } else {
                        e.0 as int
                    }],
                    g,
                    r,
                )
            } else {
                0int
            }
        }
    }
}

/// Every edge joins two distinct nodes below `n`.
pub open spec fn edges_ok(edges: Seq<(usize, usize)>, n: int) -> bool {
    forall|k: int|
        0 <= k < edges.len() ==> (#[trigger] edges[k]).0 < n && edges[k].1 < n && edges[k].0
            != edges[k].1
}

/// Mathematical state of the sampler.
#[verifier::ext_equal]
pub ghost struct SamplerView {
    pub model: ModelView,
    pub edges: Seq<(usize, usize)>,
    pub hcg_edges: Seq<int>,
    pub hcg_pairs: Seq<int>,
    pub snap_edges: Seq<int>,
    pub snap_pairs: Seq<int>,
}

/// The counters match the bucket counts of the given masks.
pub open spec fn counters_match(
    hcg_edges: Seq<int>,
    hcg_pairs: Seq<int>,
    edges: Seq<(usize, usize)>,
    groups: Seq<u64>,
    g: int,
) -> bool {
    &&& hcg_edges.len() == g
    &&& hcg_pairs.len() == g
    &&& forall|r: int|
        0 <= r < g ==> #[trigger] hcg_edges[r] == edge_cnt(edges, groups, g, r, edges.len() as int)
    &&& forall|r: int|
        0 <= r < g ==> #[trigger] hcg_pairs[r] == pair_cnt(groups, g, r, groups.len() as int)
}

/// The sampler invariant: a well-formed model over a valid edge list,
/// with the counters equal to the counts recomputed from scratch.
pub open spec fn wf_sampler(s: SamplerView) -> bool {
    &&& wf_view(s.model)
    &&& s.model.num_nodes <= 0xffff
    &&& s.edges.len() <= 0x3fff_ffff
    &&& edges_ok(s.edges, s.model.num_nodes)
    &&& counters_match(s.hcg_edges, s.hcg_pairs, s.edges, s.model.groups, s.model.num_groups)
}

/// Owns the graph, the multi-group model and the HCG counters.
pub struct HierarchicalModel {
    model: MultiGroupModel,
    edges: Vec<(usize, usize)>,
    hcg_edges: Vec<usize>,
    hcg_pairs: Vec<usize>,
    snap_edges: Vec<usize>,
    snap_pairs: Vec<usize>,
}

impl View for HierarchicalModel {
    type V = SamplerView;

    closed spec fn view(&self) -> SamplerView {
        SamplerView {
            model: self.model@,
            edges: self.edges@,
            hcg_edges: self.hcg_edges@.map_values(|x: usize| x as int),
            hcg_pairs: self.hcg_pairs@.map_values(|x: usize| x as int),
            snap_edges: self.snap_edges@.map_values(|x: usize| x as int),
            snap_pairs: self.snap_pairs@.map_values(|x: usize| x as int),
        }
    }
}

/// The indicator splits over the two orders of a pair.
pub proof fn lemma_hcg_sym(a: u64, b: u64, g: int)
    ensures
        spec_hcg(a, b, g) == spec_hcg(b, a, g),
{
    let m = crate::bits::spec_low_mask(g as u64);
    assert(a & b & m == b & a & m) by (bit_vector);
}

/// Cross counts are between 0 and the prefix length.
pub proof fn lemma_cross_bounds(m: u64, groups: Seq<u64>, g: int, r: int, k: int)
    ensures
        0 <= cross_cnt(m, groups, g, r, k) <= if k <= 0 {
            0int
        } else {
            k
        },
    decreases k,
{
    if k > 0 {
        lemma_cross_bounds(m, groups, g, r, k - 1);
    }
}

/// Pair counts are between 0 and the pair total of the prefix.
pub proof fn lemma_pair_bounds(groups: Seq<u64>, g: int, r: int, n: int)
    ensures
        0 <= pair_cnt(groups, g, r, n),
        n >= 0 ==> 2 * pair_cnt(groups, g, r, n) <= n * (n - 1),
    decreases n,
{
    if n > 0 {
        lemma_pair_bounds(groups, g, r, n - 1);
        lemma_cross_bounds(groups[n - 1], groups, g, r, n - 1);
        assert(cross_cnt(groups[n - 1], groups, g, r, n - 1) <= n - 1);
        assert(2 * pair_cnt(groups, g, r, n) == 2 * pair_cnt(groups, g, r, n - 1) + 2 * cross_cnt(
            groups[n - 1],
            groups,
            g,
            r,
            n - 1,
        ));
        assert((n - 1) * (n - 2) + 2 * (n - 1) == n * (n - 1)) by (nonlinear_arith);
        assert(2 * pair_cnt(groups, g, r, n) <= n * (n - 1));
    } else {
        assert(n == 0 ==> n * (n - 1) == 0) by (nonlinear_arith);
    }
}

/// Edge counts are between 0 and the prefix length.
pub proof fn lemma_edge_bounds(edges: Seq<(usize, usize)>, groups: Seq<u64>, g: int, r: int, k: int)
    ensures
        0 <= edge_cnt(edges, groups, g, r, k) <= if k <= 0 {
            0int
        } else {
            k
        },
    decreases k,
{
    if k > 0 {
        lemma_edge_bounds(edges, groups, g, r, k - 1);
    }
}

/// The indicator is symmetric in its two masks.
pub proof fn lemma_ind_sym(a: u64, b: u64, g: int, r: int)
    ensures
        ind_hcg(a, b, g, r) == ind_hcg(b, a, g, r),
{
    lemma_hcg_sym(a, b, g);
}

/// Cross counts read only the prefix of the mask sequence.
pub proof fn lemma_cross_congruent(m: u64, g1: Seq<u64>, g2: Seq<u64>, g: int, r: int, k: int)
    requires
        forall|t: int| 0 <= t < k ==> g2[t] == g1[t],
    ensures
        cross_cnt(m, g2, g, r, k) == cross_cnt(m, g1, g, r, k),
    decreases k,
{
    if k > 0 {
        lemma_cross_congruent(m, g1, g2, g, r, k - 1);
    }
}

/// Pair counts read only the prefix of the mask sequence.
pub proof fn lemma_pair_congruent(g1: Seq<u64>, g2: Seq<u64>, g: int, r: int, n: int)
    requires
        forall|t: int| 0 <= t < n ==> g2[t] == g1[t],
    ensures
        pair_cnt(g2, g, r, n) == pair_cnt(g1, g, r, n),
    decreases n,
{
    if n > 0 {
        lemma_pair_congruent(g1, g2, g, r, n - 1);
        lemma_cross_congruent(g2[n - 1], g1, g2, g, r, n - 1);
    }
}

/// Below the excluded index the two cross counts coincide.
pub proof fn lemma_crossu_eq_cross(m: u64, x: int, groups: Seq<u64>, g: int, r: int, k: int)
    requires
        k <= x,
    ensures
        crossu_cnt(m, x, groups, g, r, k) == cross_cnt(m, groups, g, r, k),
    decreases k,
{
    if k > 0 {
        lemma_crossu_eq_cross(m, x, groups, g, r, k - 1);
    }
}

/// The excluded-index cross count is monotone in the prefix and bounded
/// by it.
pub proof fn lemma_crossu_bounds(m: u64, x: int, groups: Seq<u64>, g: int, r: int, k1: int, k2: int)
    requires
        k1 <= k2,
    ensures
        0 <= crossu_cnt(m, x, groups, g, r, k1) <= crossu_cnt(m, x, groups, g, r, k2),
        crossu_cnt(m, x, groups, g, r, k2) - crossu_cnt(m, x, groups, g, r, k1) <= if k2 >= k1 {
            k2 - k1
        } else {
            0int
        },
    decreases k2,
{
    if k2 > 0 && k1 < k2 {
        lemma_crossu_bounds(m, x, groups, g, r, k1, k2 - 1);
    } else if k2 > 0 {
        lemma_crossu_bounds(m, x, groups, g, r, 0, k2 - 1);
    }
}

/// How a cross count changes when one mask in the sequence is replaced.
pub proof fn lemma_cross_update(b: u64, groups: Seq<u64>, x: int, m2: u64, g: int, r: int, k: int)
    requires
        0 <= x < groups.len(),
        k <= groups.len(),
    ensures
        cross_cnt(b, groups.update(x, m2), g, r, k) == cross_cnt(b, groups, g, r, k) + if 0 <= x < k {
            ind_hcg(b, m2, g, r) - ind_hcg(b, groups[x], g, r)
        } else {
            0int
        },
    decreases k,
{
    if k > 0 {
        lemma_cross_update(b, groups, x, m2, g, r, k - 1);
    }
}

/// A cross count dominates any single term of its prefix.
pub proof fn lemma_cross_ge_single(b: u64, groups: Seq<u64>, x: int, g: int, r: int, k: int)
    requires
        0 <= x < k,
    ensures
        cross_cnt(b, groups, g, r, k) >= ind_hcg(b, groups[x], g, r),
    decreases k,
{
    if x < k - 1 {
        lemma_cross_ge_single(b, groups, x, g, r, k - 1);
    } else {
        lemma_cross_bounds(b, groups, g, r, k - 1);
    }
}

/// How the pair counts change when one node's mask is replaced: exactly
/// by the bucket counts of that node's pairs against everyone else.
pub proof fn lemma_pair_update(groups: Seq<u64>, x: int, m2: u64, g: int, r: int, n: int)
    requires
        0 <= x < groups.len(),
        0 <= n <= groups.len(),
    ensures
        pair_cnt(groups.update(x, m2), g, r, n) == pair_cnt(groups, g, r, n) + if x < n {
            crossu_cnt(m2, x, groups, g, r, n) - crossu_cnt(groups[x], x, groups, g, r, n)
        } else {
            0int
        },
    decreases n,
{
    let g2 = groups.update(x, m2);
    let m1 = groups[x];
    if x >= n {
        lemma_pair_congruent(groups, g2, g, r, n);
    } else if n > 0 {
        lemma_pair_update(groups, x, m2, g, r, n - 1);
        if n - 1 == x {
            lemma_pair_congruent(groups, g2, g, r, x);
            lemma_cross_congruent(m2, groups, g2, g, r, x);
            lemma_crossu_eq_cross(m2, x, groups, g, r, x);
            lemma_crossu_eq_cross(m1, x, groups, g, r, x);
            assert(g2[n - 1] == m2);
        } else {
            let b = groups[n - 1];
            assert(g2[n - 1] == b);
            lemma_cross_update(b, groups, x, m2, g, r, n - 1);
            lemma_ind_sym(b, m2, g, r);
            lemma_ind_sym(b, m1, g, r);
        }
    }
}

/// The pairs of one node are a subset of all pairs.
pub proof fn lemma_crossu_le_pair(groups: Seq<u64>, x: int, g: int, r: int, n: int)
    requires
        0 <= x < n <= groups.len(),
    ensures
        crossu_cnt(groups[x], x, groups, g, r, n) <= pair_cnt(groups, g, r, n),
    decreases n,
{
    let m1 = groups[x];
    if n - 1 == x {
        lemma_crossu_eq_cross(m1, x, groups, g, r, x);
        lemma_pair_bounds(groups, g, r, x);
    } else {
        lemma_crossu_le_pair(groups, x, g, r, n - 1);
        lemma_cross_ge_single(groups[n - 1], groups, x, g, r, n - 1);
        lemma_ind_sym(groups[n - 1], m1, g, r);
    }
}

/// The one-endpoint edge count is monotone in the prefix and bounded by
/// it.
pub proof fn lemma_edgeu_bounds(
    m: u64,
    x: int,
    edges: Seq<(usize, usize)>,
    groups: Seq<u64>,
    g: int,
    r: int,
    k1: int,
    k2: int,
)
    requires
        k1 <= k2,
    ensures
        0 <= crate::sampler::edgeu_cnt(m, x, edges, groups, g, r, k1) <= edgeu_cnt(
            m,
            x,
            edges,
            groups,
            g,
            r,
            k2,
        ),
        edgeu_cnt(m, x, edges, groups, g, r, k2) - edgeu_cnt(m, x, edges, groups, g, r, k1) <= if k2
            >= k1 {
            k2 - k1
        } else {
            0int
        },
    decreases k2,
{
    if k2 > 0 && k1 < k2 {
        lemma_edgeu_bounds(m, x, edges, groups, g, r, k1, k2 - 1);
    } else if k2 > 0 {
        lemma_edgeu_bounds(m, x, edges, groups, g, r, 0, k2 - 1);
    }
}

/// How the edge counts change when one node's mask is replaced: exactly
/// by the bucket counts of the edges at that node.
pub proof fn lemma_edge_update(
    edges: Seq<(usize, usize)>,
    groups: Seq<u64>,
    x: int,
    m2: u64,
    g: int,
    r: int,
    k: int,
)
    requires
        0 <= x < groups.len(),
        forall|t: int|
            0 <= t < k ==> (#[trigger] edges[t]).0 < groups.len() && edges[t].1 < groups.len()
                && edges[t].0 != edges[t].1,
    ensures
        edge_cnt(edges, groups.update(x, m2), g, r, k) == edge_cnt(edges, groups, g, r, k)
            + edgeu_cnt(m2, x, edges, groups, g, r, k) - edgeu_cnt(groups[x], x, edges, groups, g, r, k),
    decreases k,
{
    let g2 = groups.update(x, m2);
    let m1 = groups[x];
    if k > 0 {
        lemma_edge_update(edges, groups, x, m2, g, r, k - 1);
        let e = edges[k - 1];
        let s = e.0 as int;
        let t = e.1 as int;
        if s == x && t != x {
            assert(g2[s] == m2 && g2[t] == groups[t]);
        } else if t == x && s != x {
            assert(g2[t] == m2 && g2[s] == groups[s]);
            lemma_ind_sym(groups[s], m2, g, r);
            lemma_ind_sym(groups[s], m1, g, r);
        } else {
            assert(s != x && t != x);
            assert(g2[s] == groups[s] && g2[t] == groups[t]);
        }
    }
}

/// The edges at one node are a subset of all edges.
pub proof fn lemma_edgeu_le_edge(
    edges: Seq<(usize, usize)>,
    groups: Seq<u64>,
    x: int,
    g: int,
    r: int,
    k: int,
)
    requires
        0 <= x < groups.len(),
        forall|t: int|
            0 <= t < k ==> (#[trigger] edges[t]).0 < groups.len() && edges[t].1 < groups.len(),
    ensures
        edgeu_cnt(groups[x], x, edges, groups, g, r, k) <= edge_cnt(edges, groups, g, r, k),
    decreases k,
{
    let m1 = groups[x];
    if k > 0 {
        lemma_edgeu_le_edge(edges, groups, x, g, r, k - 1);
        let e = edges[k - 1];
        let s = e.0 as int;
        let t = e.1 as int;
        if s == x && t != x {
            assert(ind_hcg(groups[s], groups[t], g, r) == ind_hcg(m1, groups[t], g, r));
        } else if t == x && s != x {
            lemma_ind_sym(groups[s], m1, g, r);
        }
    }
}

/// How the highest common group moves when a zero bit is spliced into
/// both masks: buckets at `p` and above shift up by one, and the new
/// bucket `p` is empty.
pub proof fn lemma_hcg_insert(a: u64, b: u64, p: int, g0: int)
    requires
        u64_bit(a, 0),
        u64_bit(b, 0),
        crate::bits::mask_fits(a, g0 as u64),
        crate::bits::mask_fits(b, g0 as u64),
        1 <= g0 <= 63,
        1 <= p <= g0,
    ensures
        0 <= spec_hcg(a, b, g0) < g0,
        spec_hcg(
            spec_insert_zero_at(a, p as u64, g0 as u64),
            spec_insert_zero_at(b, p as u64, g0 as u64),
            g0 + 1,
        ) == if spec_hcg(a, b, g0) < p {
            spec_hcg(a, b, g0)
        } else {
            spec_hcg(a, b, g0) + 1
        },
{
    let pu = p as u64;
    let gu = g0 as u64;
    let m = a & b & crate::bits::spec_low_mask(gu);
    assert(m >= 1 && m >> gu == 0) by (bit_vector)
        requires
            m == a & b & crate::bits::spec_low_mask(gu),
            (a >> 0u64) & 1 == 1,
            (b >> 0u64) & 1 == 1,
            1 <= gu <= 63,
    ;
    crate::bits::lemma_hsb_shift(m);
    let h = crate::bits::spec_highest_set_bit(m);
    assert(h < gu) by (bit_vector)
        requires
            m >> h == 1,
            m >> gu == 0,
            1 <= gu <= 63,
    ;
    let ma = spec_insert_zero_at(a, pu, gu);
    let mb = spec_insert_zero_at(b, pu, gu);
    let mz = spec_insert_zero_at(m, pu, gu);
    assert(ma & mb & crate::bits::spec_low_mask((gu + 1) as u64) == mz) by (bit_vector)
        requires
            ma == spec_insert_zero_at(a, pu, gu),
            mb == spec_insert_zero_at(b, pu, gu),
            mz == spec_insert_zero_at(m, pu, gu),
            m == a & b & crate::bits::spec_low_mask(gu),
            a >> gu == 0,
            b >> gu == 0,
            1 <= pu <= gu <= 63,
    ;
    let h2: u64 = if h < pu {
        h
    } else {
        (h + 1) as u64
    };
    assert(mz >> h2 == 1) by (bit_vector)
        requires
            m >> h == 1,
            mz == spec_insert_zero_at(m, pu, gu),
            h2 == (if h < pu {
                h
            } else {
                (h + 1) as u64
            }),
            h < gu,
            1 <= pu <= gu <= 63,
    ;
    crate::bits::lemma_hsb_unique(ma & mb & crate::bits::spec_low_mask((gu + 1) as u64), h2);
}

/// How the highest common group moves when bit `p` is cut out of both
/// masks, provided the first mask never has bit `p`: buckets above `p`
/// shift down by one and no pair sits in bucket `p`.
pub proof fn lemma_hcg_remove(a: u64, b: u64, p: int, g0: int)
    requires
        u64_bit(a, 0),
        u64_bit(b, 0),
        crate::bits::mask_fits(a, g0 as u64),
        crate::bits::mask_fits(b, g0 as u64),
        2 <= g0 <= 64,
        1 <= p < g0,
        !u64_bit(a, p as u64),
    ensures
        0 <= spec_hcg(a, b, g0) < g0,
        spec_hcg(a, b, g0) != p,
        spec_hcg(
            spec_remove_bit_at(a, p as u64, g0 as u64),
            spec_remove_bit_at(b, p as u64, g0 as u64),
            g0 - 1,
        ) == if spec_hcg(a, b, g0) < p {
            spec_hcg(a, b, g0)
        } else {
            spec_hcg(a, b, g0) - 1
        },
{
    let pu = p as u64;
    let gu = g0 as u64;
    let m = a & b & crate::bits::spec_low_mask(gu);
    assert(m >= 1 && m >> gu == 0 && (m >> pu) & 1 == 0) by (bit_vector)
        requires
            m == a & b & crate::bits::spec_low_mask(gu),
            (a >> 0u64) & 1 == 1,
            (b >> 0u64) & 1 == 1,
            (a >> pu) & 1 != 1,
            (gu < 64 ==> a >> gu == 0),
            (gu < 64 ==> b >> gu == 0),
            2 <= gu <= 64,
            1 <= pu < gu,
    ;
    crate::bits::lemma_hsb_shift(m);
    let h = crate::bits::spec_highest_set_bit(m);
    assert(h < gu && h != pu) by (bit_vector)
        requires
            m >> h == 1,
            m >> gu == 0,
            (m >> pu) & 1 == 0,
            2 <= gu <= 64,
            1 <= pu < gu,
    ;
    let ma = spec_remove_bit_at(a, pu, gu);
    let mb = spec_remove_bit_at(b, pu, gu);
    let mz = spec_remove_bit_at(m, pu, gu);
    assert(ma & mb & crate::bits::spec_low_mask((gu - 1) as u64) == mz) by (bit_vector)
        requires
            ma == spec_remove_bit_at(a, pu, gu),
            mb == spec_remove_bit_at(b, pu, gu),
            mz == spec_remove_bit_at(m, pu, gu),
            m == a & b & crate::bits::spec_low_mask(gu),
            (gu < 64 ==> a >> gu == 0),
            (gu < 64 ==> b >> gu == 0),
            2 <= gu <= 64,
            1 <= pu < gu,
    ;
    let h2: u64 = if h < pu {
        h
    } else {
        (h - 1) as u64
    };
    assert(mz >> h2 == 1) by (bit_vector)
        requires
            m >> h == 1,
            mz == spec_remove_bit_at(m, pu, gu),
            h2 == (if h < pu {
                h
            } else {
                (h - 1) as u64
            }),
            h < gu,
            h != pu,
            (m >> pu) & 1 == 0,
            2 <= gu <= 64,
            1 <= pu < gu,
    ;
    crate::bits::lemma_hsb_unique(ma & mb & crate::bits::spec_low_mask((gu - 1) as u64), h2);
}

/// Cross counts under a spliced-in zero bit: bucket `p` empties, the
/// others keep their counts under the renumbering.
pub proof fn lemma_cross_insert(m0: u64, g1s: Seq<u64>, g2s: Seq<u64>, p: int, g0: int, r: int, k: int)
    requires
        u64_bit(m0, 0),
        crate::bits::mask_fits(m0, g0 as u64),
        1 <= g0 <= 63,
        1 <= p <= g0,
        0 <= k <= g1s.len(),
        g2s.len() == g1s.len(),
        forall|t: int|
            0 <= t < k ==> u64_bit(#[trigger] g1s[t], 0) && crate::bits::mask_fits(g1s[t], g0 as u64)
                && g2s[t] == spec_insert_zero_at(g1s[t], p as u64, g0 as u64),
    ensures
        0 <= r < p ==> cross_cnt(spec_insert_zero_at(m0, p as u64, g0 as u64), g2s, g0 + 1, r, k)
            == cross_cnt(m0, g1s, g0, r, k),
        r == p ==> cross_cnt(spec_insert_zero_at(m0, p as u64, g0 as u64), g2s, g0 + 1, r, k) == 0,
        p < r <= g0 ==> cross_cnt(spec_insert_zero_at(m0, p as u64, g0 as u64), g2s, g0 + 1, r, k)
            == cross_cnt(m0, g1s, g0, r - 1, k),
    decreases k,
{
    if k > 0 {
        lemma_cross_insert(m0, g1s, g2s, p, g0, r, k - 1);
        lemma_hcg_insert(m0, g1s[k - 1], p, g0);
    }
}

/// Pair counts under a spliced-in zero bit.
pub proof fn lemma_pair_insert(g1s: Seq<u64>, g2s: Seq<u64>, p: int, g0: int, r: int, n: int)
    requires
        1 <= g0 <= 63,
        1 <= p <= g0,
        0 <= n <= g1s.len(),
        g2s.len() == g1s.len(),
        forall|t: int|
            0 <= t < n ==> u64_bit(#[trigger] g1s[t], 0) && crate::bits::mask_fits(g1s[t], g0 as u64)
                && g2s[t] == spec_insert_zero_at(g1s[t], p as u64, g0 as u64),
    ensures
        0 <= r < p ==> pair_cnt(g2s, g0 + 1, r, n) == pair_cnt(g1s, g0, r, n),
        r == p ==> pair_cnt(g2s, g0 + 1, r, n) == 0,
        p < r <= g0 ==> pair_cnt(g2s, g0 + 1, r, n) == pair_cnt(g1s, g0, r - 1, n),
    decreases n,
{
    if n > 0 {
        lemma_pair_insert(g1s, g2s, p, g0, r, n - 1);
        lemma_cross_insert(g1s[n - 1], g1s, g2s, p, g0, r, n - 1);
    }
}

/// Edge counts under a spliced-in zero bit.
pub proof fn lemma_edge_insert(
    edges: Seq<(usize, usize)>,
    g1s: Seq<u64>,
    g2s: Seq<u64>,
    p: int,
    g0: int,
    r: int,
    k: int,
)
    requires
        1 <= g0 <= 63,
        1 <= p <= g0,
        0 <= k <= edges.len(),
        g2s.len() == g1s.len(),
        forall|t: int|
            0 <= t < g1s.len() ==> u64_bit(#[trigger] g1s[t], 0) && crate::bits::mask_fits(
                g1s[t],
                g0 as u64,
            ) && g2s[t] == spec_insert_zero_at(g1s[t], p as u64, g0 as u64),
        forall|t: int| 0 <= t < k ==> (#[trigger] edges[t]).0 < g1s.len() && edges[t].1 < g1s.len(),
    ensures
        0 <= r < p ==> edge_cnt(edges, g2s, g0 + 1, r, k) == edge_cnt(edges, g1s, g0, r, k),
        r == p ==> edge_cnt(edges, g2s, g0 + 1, r, k) == 0,
        p < r <= g0 ==> edge_cnt(edges, g2s, g0 + 1, r, k) == edge_cnt(edges, g1s, g0, r - 1, k),
    decreases k,
{
    if k > 0 {
        lemma_edge_insert(edges, g1s, g2s, p, g0, r, k - 1);
        lemma_hcg_insert(g1s[edges[k - 1].0 as int], g1s[edges[k - 1].1 as int], p, g0);
    }
}

/// Cross counts under a cut-out bit that neither side carries.
pub proof fn lemma_cross_remove(m0: u64, g1s: Seq<u64>, g2s: Seq<u64>, p: int, g0: int, r: int, k: int)
    requires
        u64_bit(m0, 0),
        crate::bits::mask_fits(m0, g0 as u64),
        !u64_bit(m0, p as u64),
        2 <= g0 <= 64,
        1 <= p < g0,
        0 <= k <= g1s.len(),
        g2s.len() == g1s.len(),
        forall|t: int|
            0 <= t < k ==> u64_bit(#[trigger] g1s[t], 0) && crate::bits::mask_fits(g1s[t], g0 as u64)
                && g2s[t] == spec_remove_bit_at(g1s[t], p as u64, g0 as u64),
    ensures
        0 <= r < p ==> cross_cnt(spec_remove_bit_at(m0, p as u64, g0 as u64), g2s, g0 - 1, r, k)
            == cross_cnt(m0, g1s, g0, r, k),
        p <= r < g0 - 1 ==> cross_cnt(spec_remove_bit_at(m0, p as u64, g0 as u64), g2s, g0 - 1, r, k)
            == cross_cnt(m0, g1s, g0, r + 1, k),
        cross_cnt(m0, g1s, g0, p, k) == 0,
    decreases k,
{
    if k > 0 {
        lemma_cross_remove(m0, g1s, g2s, p, g0, r, k - 1);
        lemma_hcg_remove(m0, g1s[k - 1], p, g0);
    }
}

/// Pair counts under a cut-out bit that no node carries.
pub proof fn lemma_pair_remove(g1s: Seq<u64>, g2s: Seq<u64>, p: int, g0: int, r: int, n: int)
    requires
        2 <= g0 <= 64,
        1 <= p < g0,
        0 <= n <= g1s.len(),
        g2s.len() == g1s.len(),
        forall|t: int|
            0 <= t < n ==> u64_bit(#[trigger] g1s[t], 0) && crate::bits::mask_fits(g1s[t], g0 as u64)
                && !u64_bit(g1s[t], p as u64) && g2s[t] == spec_remove_bit_at(
                g1s[t],
                p as u64,
                g0 as u64,
            ),
    ensures
        0 <= r < p ==> pair_cnt(g2s, g0 - 1, r, n) == pair_cnt(g1s, g0, r, n),
        p <= r < g0 - 1 ==> pair_cnt(g2s, g0 - 1, r, n) == pair_cnt(g1s, g0, r + 1, n),
        pair_cnt(g1s, g0, p, n) == 0,
    decreases n,
{
    if n > 0 {
        lemma_pair_remove(g1s, g2s, p, g0, r, n - 1);
        lemma_cross_remove(g1s[n - 1], g1s, g2s, p, g0, r, n - 1);
    }
}

/// Edge counts under a cut-out bit that no node carries.
pub proof fn lemma_edge_remove(
    edges: Seq<(usize, usize)>,
    g1s: Seq<u64>,
    g2s: Seq<u64>,
    p: int,
    g0: int,
    r: int,
    k: int,
)
    requires
        2 <= g0 <= 64,
        1 <= p < g0,
        0 <= k <= edges.len(),
        g2s.len() == g1s.len(),
        forall|t: int|
            0 <= t < g1s.len() ==> u64_bit(#[trigger] g1s[t], 0) && crate::bits::mask_fits(
                g1s[t],
                g0 as u64,
            ) && !u64_bit(g1s[t], p as u64) && g2s[t] == spec_remove_bit_at(
                g1s[t],
                p as u64,
                g0 as u64,
            ),
        forall|t: int| 0 <= t < k ==> (#[trigger] edges[t]).0 < g1s.len() && edges[t].1 < g1s.len(),
    ensures
        0 <= r < p ==> edge_cnt(edges, g2s, g0 - 1, r, k) == edge_cnt(edges, g1s, g0, r, k),
        p <= r < g0 - 1 ==> edge_cnt(edges, g2s, g0 - 1, r, k) == edge_cnt(edges, g1s, g0, r + 1, k),
        edge_cnt(edges, g1s, g0, p, k) == 0,
    decreases k,
{
    if k > 0 {
        lemma_edge_remove(edges, g1s, g2s, p, g0, r, k - 1);
        lemma_hcg_remove(g1s[edges[k - 1].0 as int], g1s[edges[k - 1].1 as int], p, g0);
    }
}

/// The node masks as they were before move `m` brought the model to `v`.
pub open spec fn prev_groups(v: ModelView, m: Move) -> Seq<u64> {
    match m {
        Move::AddGroup { group } => Seq::new(
            v.groups.len(),
            |u: int| spec_remove_bit_at(v.groups[u], group as u64, v.num_groups as u64),
        ),
        Move::RemoveGroup { group } => Seq::new(
            v.groups.len(),
            |u: int| spec_insert_zero_at(v.groups[u], group as u64, v.num_groups as u64),
        ),
        Move::RemoveNodeFromGroup { node, old_state, .. } => v.groups.update(
            node as int,
            old_state,
        ),
        Move::AddNodeToGroup { node, old_state, .. } => v.groups.update(node as int, old_state),
    }
}

/// The group count before move `m` brought the model to `v`.
pub open spec fn prev_num_groups(v: ModelView, m: Move) -> int {
    match m {
        Move::AddGroup { .. } => v.num_groups - 1,
        Move::RemoveGroup { .. } => v.num_groups + 1,
        Move::RemoveNodeFromGroup { .. } => v.num_groups,
        Move::AddNodeToGroup { .. } => v.num_groups,
    }
}

/// Applying a move and reading the pre-move masks back off the result
/// gives the masks one started from.
pub proof fn lemma_prev_of_apply(v: ModelView, m: Move)
    requires
        wf_view(v),
        crate::multi_group_model::can_apply(v, m),
    ensures
        prev_groups(crate::multi_group_model::sv_apply(v, m), m) == v.groups,
        prev_num_groups(crate::multi_group_model::sv_apply(v, m), m) == v.num_groups,
{
    let w = crate::multi_group_model::sv_apply(v, m);
    match m {
        Move::AddGroup { group } => {
            assert forall|u: int| 0 <= u < v.num_nodes implies #[trigger] prev_groups(w, m)[u]
                == v.groups[u] by {
                crate::bits::lemma_remove_insert_roundtrip(
                    v.groups[u],
                    group as u64,
                    v.num_groups as u64,
                );
            }
            assert(prev_groups(w, m) =~= v.groups);
        },
        Move::RemoveGroup { group } => {
            crate::multi_group_model::lemma_empty_group_no_bits(v, group as int);
            assert forall|u: int| 0 <= u < v.num_nodes implies #[trigger] prev_groups(w, m)[u]
                == v.groups[u] by {
                crate::bits::lemma_insert_remove_roundtrip(
                    v.groups[u],
                    group as u64,
                    v.num_groups as u64,
                );
            }
            assert(prev_groups(w, m) =~= v.groups);
        },
        Move::RemoveNodeFromGroup { group, node, idx, old_state } => {
            assert(prev_groups(w, m) =~= v.groups);
        },
        Move::AddNodeToGroup { group, node, idx, old_state } => {
            assert(prev_groups(w, m) =~= v.groups);
        },
    }
}

/// Undoing a move restores exactly the pre-move masks and group count.
pub proof fn lemma_undo_restores_groups(v: ModelView, m: Move)
    requires
        wf_view(v),
        crate::multi_group_model::can_undo(v, m),
    ensures
        (crate::multi_group_model::sv_undo(v, m)).groups == prev_groups(v, m),
        (crate::multi_group_model::sv_undo(v, m)).num_groups == prev_num_groups(v, m),
{
    let w = crate::multi_group_model::sv_undo(v, m);
    match m {
        Move::AddGroup { group } => {
            assert(w.groups =~= prev_groups(v, m));
        },
        Move::RemoveGroup { group } => {
            assert(w.groups =~= prev_groups(v, m));
        },
        Move::RemoveNodeFromGroup { group, node, idx, old_state } => {
            assert(w.groups =~= prev_groups(v, m));
        },
        Move::AddNodeToGroup { group, node, idx, old_state } => {
            assert(w.groups =~= prev_groups(v, m));
        },
    }
}

impl HierarchicalModel {
    /// The representation invariant: the model's own invariant plus
    /// `wf_sampler` over the mathematical state.
    pub closed spec fn wf(&self) -> bool {
        &&& self.model.wf()
        &&& wf_sampler(self@)
    }

    /// `wf` puts the mathematical state in `wf_sampler`.
    pub proof fn lemma_wf_sampler(&self)
        requires
            self.wf(),
        ensures
            wf_sampler(self@),
    {
    }

    pub fn num_groups(&self) -> (n: usize)
        ensures
            n == self@.model.num_groups,
    {
        self.model.num_groups()
    }

    pub fn num_nodes(&self) -> (n: usize)
        ensures
            n == self@.model.num_nodes,
    {
        self.model.num_nodes()
    }

    pub fn max_groups(&self) -> (n: usize)
        ensures
            n == self@.model.max_groups,
    {
        self.model.max_groups()
    }

    /// The model, for observers.
    pub fn model(&self) -> (m: &MultiGroupModel)
        ensures
            m@ == self@.model,
    {
        &self.model
    }

    /// The per-bucket edge counters.
    pub fn hcg_edges(&self) -> (e: &Vec<usize>)
        ensures
            e@.len() == self@.hcg_edges.len(),
            forall|r: int| 0 <= r < e@.len() ==> e@[r] == self@.hcg_edges[r],
    {
        &self.hcg_edges
    }

    /// The per-bucket pair counters.
    pub fn hcg_pairs(&self) -> (p: &Vec<usize>)
        ensures
            p@.len() == self@.hcg_pairs.len(),
            forall|r: int| 0 <= r < p@.len() ==> p@[r] == self@.hcg_pairs[r],
    {
        &self.hcg_pairs
    }

    /// Build the sampler: validate the inputs, build the model, and
    /// count every edge and every unordered node pair into its HCG
    /// bucket.
    pub fn new(
        num_nodes: usize,
        edges: Vec<(usize, usize)>,
        groups: Vec<u64>,
        num_groups: u32,
        max_groups: u32,
    ) -> (r: Result<Self, String>)
        ensures
            r is Ok <==> {
                &&& 1 <= num_groups <= max_groups <= 64
                &&& num_nodes <= 0xffff
                &&& groups@.len() == num_nodes
                &&& (forall|u: int|
                    0 <= u < groups@.len() ==> mask_ok(#[trigger] groups@[u], num_groups as int))
                &&& edges@.len() <= 0x3fff_ffff
                &&& edges_ok(edges@, num_nodes as int)
            },
            r matches Ok(s) ==> {
                &&& s.wf()
                &&& s@.model.groups == groups@
                &&& s@.model.num_groups == num_groups
                &&& s@.model.max_groups == max_groups
                &&& s@.model.num_nodes == num_nodes
                &&& s@.edges == edges@
            },
    {
        if !(1 <= num_groups && num_groups <= max_groups && max_groups <= 64) {
            return Err("number of groups must lie between 1 and max_groups <= 64".to_owned());
        }
        if num_nodes > 0xffff {
            return Err("too many nodes".to_owned());
        }
        if groups.len() != num_nodes {
            return Err("initial group configuration length differs from node count".to_owned());
        }
        if edges.len() > 0x3fff_ffff {
            return Err("too many edges".to_owned());
        }
        let mut u: usize = 0;
        while u < num_nodes
            invariant
                u <= num_nodes,
                groups@.len() == num_nodes,
                num_groups <= 64,
                forall|t: int| 0 <= t < u ==> mask_ok(#[trigger] groups@[t], num_groups as int),
            decreases num_nodes - u,
        {
            let m = groups[u];
            if m & 1 != 1 {
                proof {
                    assert(m & 1 != 1 ==> !((m >> 0u64) & 1 == 1)) by (bit_vector);
                }
                return Err("universal bit unset in an initial mask".to_owned());
            }
            if num_groups < 64 && (m >> num_groups) != 0 {
                return Err("initial mask uses a group beyond num_groups".to_owned());
            }
            proof {
                assert(m & 1 == 1 ==> (m >> 0u64) & 1 == 1) by (bit_vector);
            }
            u = u + 1;
        }
        let mut k: usize = 0;
        while k < edges.len()
            invariant
                k <= edges@.len(),
                num_nodes <= 0xffff,
                forall|t: int|
                    0 <= t < k ==> (#[trigger] edges@[t]).0 < num_nodes && edges@[t].1 < num_nodes
                        && edges@[t].0 != edges@[t].1,
            decreases edges@.len() - k,
        {
            let (s, t) = edges[k];
            if s >= num_nodes || t >= num_nodes {
                return Err("edge endpoint is not a node".to_owned());
            }
            if s == t {
                return Err("self-loops are not supported".to_owned());
            }
            k = k + 1;
        }
        let model = MultiGroupModel::with_groups(groups, num_groups, max_groups);
        let g = num_groups as usize;
        let ghost gv = model@.groups;
        let ghost gi = g as int;

        // edge buckets
        let mut hcg_edges: Vec<usize> = vec![0usize; g];
        let mut k: usize = 0;
        while k < edges.len()
            invariant
                k <= edges@.len(),
                model.wf(),
                model@.groups == gv,
                model@.num_groups == gi,
                model@.num_nodes == num_nodes,
                edges_ok(edges@, num_nodes as int),
                hcg_edges@.len() == gi,
                forall|r: int|
                    0 <= r < gi ==> #[trigger] hcg_edges@[r] as int == edge_cnt(
                        edges@,
                        gv,
                        gi,
                        r,
                        k as int,
                    ),
            decreases edges@.len() - k,
        {
            let (s, t) = edges[k];
            let b = model.hcg(s, t);
            proof {
                lemma_edge_bounds(edges@, gv, gi, b as int, k as int);
            }
            let c = hcg_edges[b];
            set_counter(&mut hcg_edges, b, c + 1);
            k = k + 1;
        }

        // pair buckets
        let mut hcg_pairs: Vec<usize> = vec![0usize; g];
        let mut v: usize = 0;
        while v < num_nodes
            invariant
                v <= num_nodes,
                num_nodes <= 0xffff,
                model.wf(),
                model@.groups == gv,
                model@.num_groups == gi,
                model@.num_nodes == num_nodes,
                hcg_pairs@.len() == gi,
                forall|r: int|
                    0 <= r < gi ==> #[trigger] hcg_pairs@[r] as int == pair_cnt(gv, gi, r, v as int),
            decreases num_nodes - v,
        {
            let mut t: usize = 0;
            while t < v
                invariant
                    t <= v < num_nodes,
                    num_nodes <= 0xffff,
                    model.wf(),
                    model@.groups == gv,
                    model@.num_groups == gi,
                    model@.num_nodes == num_nodes,
                    hcg_pairs@.len() == gi,
                    forall|r: int|
                        0 <= r < gi ==> #[trigger] hcg_pairs@[r] as int == pair_cnt(gv, gi, r, v as int)
                            + cross_cnt(gv[v as int], gv, gi, r, t as int),
                decreases v - t,
            {
                let b = model.hcg(v, t);
                proof {
                    lemma_hcg_sym(gv[v as int], gv[t as int], gi);
                    lemma_pair_bounds(gv, gi, b as int, v as int);
                    lemma_cross_bounds(gv[v as int], gv, gi, b as int, t as int);
                    let c_int = pair_cnt(gv, gi, b as int, v as int) + cross_cnt(
                        gv[v as int],
                        gv,
                        gi,
                        b as int,
                        t as int,
                    );
                    assert(c_int + 1 <= 0xffff_ffffu64) by (nonlinear_arith)
                        requires
                            2 * pair_cnt(gv, gi, b as int, v as int) <= v * (v - 1),
                            0 <= cross_cnt(gv[v as int], gv, gi, b as int, t as int) <= t,
                            c_int == pair_cnt(gv, gi, b as int, v as int) + cross_cnt(
                                gv[v as int],
                                gv,
                                gi,
                                b as int,
                                t as int,
                            ),
                            0 <= t < v <= 0xffff,
                    ;
                }
                let c = hcg_pairs[b];
                set_counter(&mut hcg_pairs, b, c + 1);
                t = t + 1;
            }
            v = v + 1;
        }
        let snap_edges = hcg_edges.clone();
        let snap_pairs = hcg_pairs.clone();
        let s = Self { model, edges, hcg_edges, hcg_pairs, snap_edges, snap_pairs };
        proof {
            assert forall|r: int| 0 <= r < gi implies #[trigger] s@.hcg_edges[r] == edge_cnt(
                s@.edges,
                gv,
                gi,
                r,
                s@.edges.len() as int,
            ) by {
                assert(s@.hcg_edges[r] == s.hcg_edges@[r] as int);
            }
            assert forall|r: int| 0 <= r < gi implies #[trigger] s@.hcg_pairs[r] == pair_cnt(
                gv,
                gi,
                r,
                gv.len() as int,
            ) by {
                assert(s@.hcg_pairs[r] == s.hcg_pairs@[r] as int);
            }
            s.model.lemma_wf_view();
            assert(wf_view(s@.model));
            assert(s@.model.num_nodes <= 0xffff);
            assert(edges_ok(s@.edges, s@.model.num_nodes));
            assert(s@.hcg_edges.len() == s@.model.num_groups);
            assert(s@.hcg_pairs.len() == s@.model.num_groups);
            assert(counters_match(
                s@.hcg_edges,
                s@.hcg_pairs,
                s@.edges,
                s@.model.groups,
                s@.model.num_groups,
            ));
            assert(wf_sampler(s@));
        }
        Ok(s)
    }
}

impl HierarchicalModel {
    /// The model has just taken move `m` and the counters still describe
    /// the pre-move state.
    pub closed spec fn pending_ok(&self, m: Move) -> bool {
        &&& self.model.wf()
        &&& self@.model.num_nodes <= 0xffff
        &&& self@.edges.len() <= 0x3fff_ffff
        &&& edges_ok(self@.edges, self@.model.num_nodes)
        &&& crate::multi_group_model::can_undo(self@.model, m)
        &&& counters_match(
            self@.hcg_edges,
            self@.hcg_pairs,
            self@.edges,
            prev_groups(self@.model, m),
            prev_num_groups(self@.model, m),
        )
    }

    /// The counters describe the post-move state and the snapshot the
    /// pre-move state, so the move can still be rolled back.
    pub closed spec fn rollback_ok(&self, m: Move) -> bool {
        &&& self.wf()
        &&& crate::multi_group_model::can_undo(self@.model, m)
        &&& counters_match(
            self@.snap_edges,
            self@.snap_pairs,
            self@.edges,
            prev_groups(self@.model, m),
            prev_num_groups(self@.model, m),
        )
    }

    /// Bring the counters from the pre-move to the post-move state: a
    /// structural move inserts or removes the empty bucket, a population
    /// move re-buckets every pair and edge at the moved node.  The old
    /// counters are kept as the rollback snapshot.
    pub fn update_hcg_props(&mut self, m: Move)
        requires
            old(self).pending_ok(m),
        ensures
            final(self).wf(),
            final(self).rollback_ok(m),
            final(self)@.model == old(self)@.model,
            final(self)@.edges == old(self)@.edges,
            final(self)@.snap_edges == old(self)@.hcg_edges,
            final(self)@.snap_pairs == old(self)@.hcg_pairs,
            (m matches Move::AddGroup { group } ==> final(self)@.hcg_edges == old(
                self,
            )@.hcg_edges.insert(group as int, 0int) && final(self)@.hcg_pairs == old(
                self,
            )@.hcg_pairs.insert(group as int, 0int)),
            (m matches Move::RemoveGroup { group } ==> old(self)@.hcg_edges[group as int] == 0
                && old(self)@.hcg_pairs[group as int] == 0 && final(self)@.hcg_edges == old(
                self,
            )@.hcg_edges.remove(group as int) && final(self)@.hcg_pairs == old(
                self,
            )@.hcg_pairs.remove(group as int)),
    {
        self.snap_edges = copy_counters(&self.hcg_edges);
        self.snap_pairs = copy_counters(&self.hcg_pairs);
        let ghost v = self@.model;
        let ghost gi = v.num_groups;
        let ghost nn = v.num_nodes;
        let ghost gold = prev_groups(self@.model, m);
        proof {
            self.model.lemma_wf_view();
            assert(self@.snap_edges =~= old(self)@.hcg_edges);
            assert(self@.snap_pairs =~= old(self)@.hcg_pairs);
        }
        match m {
            Move::AddGroup { group } => {
                self.hcg_edges.insert(group, 0);
                self.hcg_pairs.insert(group, 0);
                proof {
                    let p = group as int;
                    crate::multi_group_model::lemma_empty_group_no_bits(v, p);
                    assert forall|t: int| 0 <= t < nn implies u64_bit(#[trigger] gold[t], 0)
                        && crate::bits::mask_fits(gold[t], (gi - 1) as u64) && v.groups[t]
                        == spec_insert_zero_at(gold[t], group as u64, (gi - 1) as u64) by {
                        crate::bits::lemma_remove_bit_bits(v.groups[t], group as u64, gi as u64);
                        crate::bits::lemma_insert_remove_roundtrip(
                            v.groups[t],
                            group as u64,
                            gi as u64,
                        );
                    }
                    assert(self@.hcg_edges =~= old(self)@.hcg_edges.insert(p, 0int)) by {
                        old(self).hcg_edges@.insert_ensures(p, 0usize);
                    }
                    assert(self@.hcg_pairs =~= old(self)@.hcg_pairs.insert(p, 0int)) by {
                        old(self).hcg_pairs@.insert_ensures(p, 0usize);
                    }
                    assert forall|r: int| 0 <= r < gi implies #[trigger] self@.hcg_pairs[r]
                        == pair_cnt(v.groups, gi, r, nn) by {
                        old(self)@.hcg_pairs.insert_ensures(p, 0int);
                        lemma_pair_insert(gold, v.groups, p, gi - 1, r, nn);
                        if r > p {
                            assert(old(self)@.hcg_pairs.insert(p, 0int)[(r - 1) + 1] == old(
                                self,
                            )@.hcg_pairs[r - 1]);
                        }
                    }
                    assert forall|r: int| 0 <= r < gi implies #[trigger] self@.hcg_edges[r]
                        == edge_cnt(self@.edges, v.groups, gi, r, self@.edges.len() as int) by {
                        old(self)@.hcg_edges.insert_ensures(p, 0int);
                        lemma_edge_insert(
                            self@.edges,
                            gold,
                            v.groups,
                            p,
                            gi - 1,
                            r,
                            self@.edges.len() as int,
                        );
                        if r > p {
                            assert(old(self)@.hcg_edges.insert(p, 0int)[(r - 1) + 1] == old(
                                self,
                            )@.hcg_edges[r - 1]);
                        }
                    }
                    assert(counters_match(
                        self@.hcg_edges,
                        self@.hcg_pairs,
                        self@.edges,
                        self@.model.groups,
                        self@.model.num_groups,
                    ));
                }
            },
            Move::RemoveGroup { group } => {
                proof {
                    let p = group as int;
                    assert forall|t: int| 0 <= t < nn implies u64_bit(#[trigger] gold[t], 0)
                        && crate::bits::mask_fits(gold[t], (gi + 1) as u64) && !u64_bit(
                        gold[t],
                        group as u64,
                    ) && v.groups[t] == spec_remove_bit_at(gold[t], group as u64, (gi + 1) as u64) by {
                        crate::bits::lemma_insert_zero_bits(v.groups[t], group as u64, gi as u64);
                        crate::bits::lemma_remove_insert_roundtrip(
                            v.groups[t],
                            group as u64,
                            gi as u64,
                        );
                    }
                    lemma_pair_remove(gold, v.groups, p, gi + 1, 0, nn);
                    lemma_edge_remove(self@.edges, gold, v.groups, p, gi + 1, 0, self@.edges.len() as int);
                    assert(old(self)@.hcg_pairs[p] == 0 && old(self)@.hcg_edges[p] == 0);
                }
                self.hcg_edges.remove(group);
                self.hcg_pairs.remove(group);
                proof {
                    let p = group as int;
                    assert(self@.hcg_edges =~= old(self)@.hcg_edges.remove(p)) by {
                        old(self).hcg_edges@.remove_ensures(p);
                    }
                    assert(self@.hcg_pairs =~= old(self)@.hcg_pairs.remove(p)) by {
                        old(self).hcg_pairs@.remove_ensures(p);
                    }
                    assert forall|r: int| 0 <= r < gi implies #[trigger] self@.hcg_pairs[r]
                        == pair_cnt(v.groups, gi, r, nn) by {
                        old(self)@.hcg_pairs.remove_ensures(p);
                        lemma_pair_remove(gold, v.groups, p, gi + 1, r, nn);
                        if r >= p {
                            assert(old(self)@.hcg_pairs.remove(p)[r] == old(self)@.hcg_pairs[r + 1]);
                        }
                    }
                    assert forall|r: int| 0 <= r < gi implies #[trigger] self@.hcg_edges[r]
                        == edge_cnt(self@.edges, v.groups, gi, r, self@.edges.len() as int) by {
                        old(self)@.hcg_edges.remove_ensures(p);
                        lemma_edge_remove(
                            self@.edges,
                            gold,
                            v.groups,
                            p,
                            gi + 1,
                            r,
                            self@.edges.len() as int,
                        );
                        if r >= p {
                            assert(old(self)@.hcg_edges.remove(p)[r] == old(self)@.hcg_edges[r + 1]);
                        }
                    }
                    assert(counters_match(
                        self@.hcg_edges,
                        self@.hcg_pairs,
                        self@.edges,
                        self@.model.groups,
                        self@.model.num_groups,
                    ));
                }
            },
            Move::RemoveNodeFromGroup { group, node, idx, old_state } => {
                proof {
                    crate::bits::lemma_set_bit(v.groups[node as int], group as u64);
                }
                self.update_counters_for_node(node, old_state);
            },
            Move::AddNodeToGroup { group, node, idx, old_state } => {
                proof {
                    crate::bits::lemma_clear_bit(v.groups[node as int], group as u64);
                }
                self.update_counters_for_node(node, old_state);
            },
        }
        proof {
            assert(self.model.wf());
            assert(self@.hcg_edges.len() == self@.model.num_groups);
            assert(self@.hcg_pairs.len() == self@.model.num_groups);
            assert(counters_match(
                self@.hcg_edges,
                self@.hcg_pairs,
                self@.edges,
                self@.model.groups,
                self@.model.num_groups,
            ));
            assert(self.wf());
            assert(self@.snap_edges == old(self)@.hcg_edges);
            assert(counters_match(
                self@.snap_edges,
                self@.snap_pairs,
                self@.edges,
                prev_groups(self@.model, m),
                prev_num_groups(self@.model, m),
            ));
            assert(self.rollback_ok(m));
        }
    }

    /// Propose one move and apply it to the model (the counters are not
    /// yet touched).  The caller supplies the two Bernoulli decisions of
    /// the proposal distribution — whether the move is structural and
    /// whether a population move removes rather than adds — and the
    /// generator for the uniform draws.  `None` is the no-op proposal:
    /// a structural move at the group ceiling, any population move with
    /// one group, or an addition to a full group.
    pub fn uniform_groupsize(
        &mut self,
        rng: &mut mt19937::MT19937,
        structural: bool,
        remove_coin: bool,
    ) -> (m: Option<Move>)
        requires
            old(self).wf(),
        ensures
            m is None ==> *final(self) == *old(self),
            m matches Some(mv) ==> {
                &&& crate::multi_group_model::can_apply(old(self)@.model, mv)
                &&& final(self)@.model == crate::multi_group_model::sv_apply(old(self)@.model, mv)
                &&& final(self)@.edges == old(self)@.edges
                &&& final(self)@.hcg_edges == old(self)@.hcg_edges
                &&& final(self)@.hcg_pairs == old(self)@.hcg_pairs
                &&& final(self).pending_ok(mv)
                &&& (structural ==> mv is AddGroup)
                &&& (!structural ==> !(mv is AddGroup))
                &&& (mv matches Move::RemoveGroup { group } ==> old(self)@.model.sizes[group as int]
                    == 0)
                &&& (mv matches Move::RemoveNodeFromGroup { group, node, idx, old_state } ==> old(
                    self,
                )@.model.sizes[group as int] >= 1)
                &&& (mv matches Move::AddNodeToGroup { group, node, idx, old_state } ==> old(
                    self,
                )@.model.sizes[group as int] < old(self)@.model.num_nodes)
                &&& (!structural && remove_coin ==> (mv is RemoveGroup || mv
                    is RemoveNodeFromGroup))
                &&& (!structural && !remove_coin ==> mv is AddNodeToGroup)
            },
            structural && old(self)@.model.num_groups == old(self)@.model.max_groups ==> m is None,
            structural && old(self)@.model.num_groups < old(self)@.model.max_groups ==> m is Some,
            !structural && old(self)@.model.num_groups == 1 ==> m is None,
            !structural && remove_coin && old(self)@.model.num_groups > 1 ==> m is Some,
    {
        let ghost v0 = self@.model;
        let num_nodes = self.model.num_nodes();
        let num_groups = self.model.num_groups();
        let max_groups = self.model.max_groups();
        proof {
            self.model.lemma_wf_view();
        }
        if structural {
            if num_groups == max_groups {
                return None;
            }
            let rand_group = rng_below(rng, 1, num_groups + 1);
            let mv = self.model.add_group(rand_group);
            proof {
                lemma_prev_of_apply(v0, mv);
                assert(self@.model.sizes[rand_group as int] == 0) by {
                    v0.sizes.insert_ensures(rand_group as int, 0int);
                }
                assert(crate::multi_group_model::can_undo(self@.model, mv));
            }
            Some(mv)
        } else {
            if num_groups == 1 {
                return None;
            }
            let rand_group = rng_below(rng, 1, num_groups);
            if remove_coin {
                let sz = self.model.group_size(rand_group);
                if sz == 0 {
                    let mv = self.model.remove_group(rand_group);
                    proof {
                        lemma_prev_of_apply(v0, mv);
                        assert(crate::multi_group_model::can_undo(self@.model, mv));
                    }
                    Some(mv)
                } else {
                    let rand_idx = rng_below(rng, 0, sz);
                    let mv = self.model.remove_node_from_group_by_idx(rand_group, rand_idx);
                    proof {
                        lemma_prev_of_apply(v0, mv);
                    }
                    Some(mv)
                }
            } else {
                let sz = self.model.group_size(rand_group);
                proof {
                    assert(crate::multi_group_model::in_row_ok(
                        v0.ins[rand_group as int],
                        v0.sizes[rand_group as int],
                        v0.groups,
                        rand_group as u64,
                    ));
                }
                if sz == num_nodes {
                    return None;
                }
                let n_out = num_nodes - sz;
                let rand_idx = rng_below(rng, 0, n_out);
                let mv = self.model.add_node_to_group_by_idx(rand_group, rand_idx);
                proof {
                    lemma_prev_of_apply(v0, mv);
                }
                Some(mv)
            }
        }
    }

    /// Reject the move: restore the model through `undo_move` and the
    /// counters from the snapshot, truncated to the restored group
    /// count.
    pub fn rollback(&mut self, m: Move)
        requires
            old(self).rollback_ok(m),
        ensures
            final(self).wf(),
            final(self)@.model == crate::multi_group_model::sv_undo(old(self)@.model, m),
            final(self)@.edges == old(self)@.edges,
            final(self)@.hcg_edges == old(self)@.snap_edges,
            final(self)@.hcg_pairs == old(self)@.snap_pairs,
    {
        proof {
            self.model.lemma_wf_view();
        }
        self.model.undo_move(m);
        let g = self.model.num_groups();
        proof {
            self.model.lemma_wf_view();
            lemma_undo_restores_groups(old(self)@.model, m);
            assert(self.snap_edges@.len() == g && self.snap_pairs@.len() == g);
        }
        let mut restored_edges = copy_counters(&self.snap_edges);
        restored_edges.truncate(g);
        self.hcg_edges = restored_edges;
        let mut restored_pairs = copy_counters(&self.snap_pairs);
        restored_pairs.truncate(g);
        self.hcg_pairs = restored_pairs;
        proof {
            assert(self.hcg_edges@ =~= self.snap_edges@);
            assert(self.hcg_pairs@ =~= self.snap_pairs@);
            assert(self@.hcg_edges =~= old(self)@.snap_edges);
            assert(self@.hcg_pairs =~= old(self)@.snap_pairs);
            assert(counters_match(
                self@.hcg_edges,
                self@.hcg_pairs,
                self@.edges,
                self@.model.groups,
                self@.model.num_groups,
            ));
            assert(self.wf());
        }
    }

    /// Re-bucket every pair and edge at `node` from its old mask to its
    /// current one.
    fn update_counters_for_node(&mut self, node: usize, old_state: u64)
        requires
            old(self).model.wf(),
            old(self)@.model.num_nodes <= 0xffff,
            old(self)@.edges.len() <= 0x3fff_ffff,
            edges_ok(old(self)@.edges, old(self)@.model.num_nodes),
            node < old(self)@.model.num_nodes,
            u64_bit(old_state, 0),
            crate::bits::mask_fits(old_state, old(self)@.model.num_groups as u64),
            counters_match(
                old(self)@.hcg_edges,
                old(self)@.hcg_pairs,
                old(self)@.edges,
                old(self)@.model.groups.update(node as int, old_state),
                old(self)@.model.num_groups,
            ),
        ensures
            final(self).model == old(self).model,
            final(self).edges == old(self).edges,
            final(self).snap_edges == old(self).snap_edges,
            final(self).snap_pairs == old(self).snap_pairs,
            counters_match(
                final(self)@.hcg_edges,
                final(self)@.hcg_pairs,
                final(self)@.edges,
                final(self)@.model.groups,
                final(self)@.model.num_groups,
            ),
    {
        let n = self.model.num_nodes();
        let ghost gnew = self@.model.groups;
        let ghost gi = self@.model.num_groups;
        let ghost gold = gnew.update(node as int, old_state);
        let ghost m1 = old_state;
        let ghost m2 = gnew[node as int];
        let ghost nd = node as int;
        proof {
            self.model.lemma_wf_view();
            assert(gold.update(nd, m2) =~= gnew);
        }
        // pairs
        proof {
            assert forall|r: int| 0 <= r < gi implies #[trigger] self.hcg_pairs@[r] as int
                == pair_cnt(gold, gi, r, n as int) - crossu_cnt(m1, nd, gold, gi, r, 0) + crossu_cnt(
                m2,
                nd,
                gold,
                gi,
                r,
                0,
            ) by {
                assert(old(self)@.hcg_pairs[r] == self.hcg_pairs@[r] as int);
            }
        }
        let mut v: usize = 0;
        while v < n
            invariant
                v <= n,
                n == gnew.len(),
                n <= 0xffff,
                nd == node as int,
                nd < n as int,
                m1 == old_state,
                self.model == old(self).model,
                self.edges == old(self).edges,
                self.snap_edges == old(self).snap_edges,
                self.snap_pairs == old(self).snap_pairs,
                self.hcg_edges == old(self).hcg_edges,
                self.model.wf(),
                self@.model.groups == gnew,
                self@.model.num_groups == gi,
                self@.model.num_nodes == n,
                gold == gnew.update(nd, m1),
                m2 == gnew[nd],
                u64_bit(m1, 0),
                self.hcg_pairs@.len() == gi,
                forall|r: int|
                    0 <= r < gi ==> #[trigger] self.hcg_pairs@[r] as int == pair_cnt(gold, gi, r, n as int)
                        - crossu_cnt(m1, nd, gold, gi, r, v as int) + crossu_cnt(
                        m2,
                        nd,
                        gold,
                        gi,
                        r,
                        v as int,
                    ),
            decreases n - v,
        {
            if v != node {
                let newb = self.model.hcg(node, v);
                let oldb = self.model.hcg_node(old_state, v);
                proof {
                    assert(gold[v as int] == gnew[v as int]);
                    assert(newb as int == spec_hcg(m2, gold[v as int], gi));
                    assert(oldb as int == spec_hcg(m1, gold[v as int], gi));
                    // the old bucket still holds this pair
                    lemma_crossu_le_pair(gold, nd, gi, oldb as int, n as int);
                    lemma_crossu_bounds(m1, nd, gold, gi, oldb as int, v + 1, n as int);
                    lemma_crossu_bounds(m2, nd, gold, gi, oldb as int, 0, v as int);
                    assert(crossu_cnt(m1, nd, gold, gi, oldb as int, v + 1) == crossu_cnt(
                        m1,
                        nd,
                        gold,
                        gi,
                        oldb as int,
                        v as int,
                    ) + 1);
                    assert(self.hcg_pairs@[oldb as int] >= 1);
                    // the new bucket stays within the counter range
                    lemma_pair_bounds(gold, gi, newb as int, n as int);
                    lemma_crossu_bounds(m2, nd, gold, gi, newb as int, 0, v as int);
                    lemma_crossu_bounds(m1, nd, gold, gi, newb as int, 0, v as int);
                    assert(self.hcg_pairs@[newb as int] as int + 1 <= 0xffff_ffffu64) by (nonlinear_arith)
                        requires
                            self.hcg_pairs@[newb as int] as int <= pair_cnt(gold, gi, newb as int, n as int)
                                + crossu_cnt(m2, nd, gold, gi, newb as int, v as int),
                            2 * pair_cnt(gold, gi, newb as int, n as int) <= n * (n - 1),
                            crossu_cnt(m2, nd, gold, gi, newb as int, v as int) <= v as int,
                            0 <= v < n <= 0xffff,
                    ;
                }
                let ghost prevp = self.hcg_pairs@;
                let c_old = self.hcg_pairs[oldb];
                set_counter(&mut self.hcg_pairs, oldb, c_old - 1);
                let c_new = self.hcg_pairs[newb];
                set_counter(&mut self.hcg_pairs, newb, c_new + 1);
                proof {
                    assert forall|r: int| 0 <= r < gi implies #[trigger] self.hcg_pairs@[r] as int
                        == pair_cnt(gold, gi, r, n as int) - crossu_cnt(m1, nd, gold, gi, r, v + 1)
                        + crossu_cnt(m2, nd, gold, gi, r, v + 1) by {
                        assert(crossu_cnt(m1, nd, gold, gi, r, v + 1) == crossu_cnt(
                            m1,
                            nd,
                            gold,
                            gi,
                            r,
                            v as int,
                        ) + ind_hcg(m1, gold[v as int], gi, r));
                        assert(crossu_cnt(m2, nd, gold, gi, r, v + 1) == crossu_cnt(
                            m2,
                            nd,
                            gold,
                            gi,
                            r,
                            v as int,
                        ) + ind_hcg(m2, gold[v as int], gi, r));
                        assert(ind_hcg(m1, gold[v as int], gi, r) == if r == oldb as int {
                            1int
                        } else {
                            0int
                        });
                        assert(ind_hcg(m2, gold[v as int], gi, r) == if r == newb as int {
                            1int
                        } else {
                            0int
                        });
                        if r == oldb as int && r == newb as int {
                            assert(self.hcg_pairs@[r] as int == prevp[r] as int);
                        } else if r == oldb as int {
                            assert(self.hcg_pairs@[r] as int == prevp[r] - 1);
                        } else if r == newb as int {
                            assert(self.hcg_pairs@[r] as int == prevp[r] + 1);
                        } else {
                            assert(self.hcg_pairs@[r] as int == prevp[r] as int);
                        }
                    }
                }
            }
            v = v + 1;
        }
        proof {
            assert forall|r: int| 0 <= r < gi implies #[trigger] self.hcg_pairs@[r] as int
                == pair_cnt(gnew, gi, r, n as int) by {
                lemma_pair_update(gold, nd, m2, gi, r, n as int);
                lemma_pair_congruent(gold.update(nd, m2), gnew, gi, r, n as int);
            }
        }
        // edges
        let n_edges = self.edges.len();
        proof {
            assert forall|r: int| 0 <= r < gi implies #[trigger] self.hcg_edges@[r] as int
                == edge_cnt(self.edges@, gold, gi, r, n_edges as int) - edgeu_cnt(
                m1,
                nd,
                self.edges@,
                gold,
                gi,
                r,
                0,
            ) + edgeu_cnt(m2, nd, self.edges@, gold, gi, r, 0) by {
                assert(old(self)@.hcg_edges[r] == self.hcg_edges@[r] as int);
            }
        }
        let mut k: usize = 0;
        while k < n_edges
            invariant
                k <= n_edges,
                n_edges == self.edges@.len(),
                n_edges <= 0x3fff_ffff,
                n == gnew.len(),
                nd == node as int,
                nd < n as int,
                m1 == old_state,
                self.model == old(self).model,
                self.edges == old(self).edges,
                self.snap_edges == old(self).snap_edges,
                self.snap_pairs == old(self).snap_pairs,
                self.model.wf(),
                self@.model.groups == gnew,
                self@.model.num_groups == gi,
                self@.model.num_nodes == n,
                edges_ok(self.edges@, n as int),
                gold == gnew.update(nd, m1),
                m2 == gnew[nd],
                u64_bit(m1, 0),
                self.hcg_pairs@.len() == gi,
                forall|r: int|
                    0 <= r < gi ==> #[trigger] self.hcg_pairs@[r] as int == pair_cnt(
                        gnew,
                        gi,
                        r,
                        n as int,
                    ),
                self.hcg_edges@.len() == gi,
                forall|r: int|
                    0 <= r < gi ==> #[trigger] self.hcg_edges@[r] as int == edge_cnt(
                        self.edges@,
                        gold,
                        gi,
                        r,
                        n_edges as int,
                    ) - edgeu_cnt(m1, nd, self.edges@, gold, gi, r, k as int) + edgeu_cnt(
                        m2,
                        nd,
                        self.edges@,
                        gold,
                        gi,
                        r,
                        k as int,
                    ),
            decreases n_edges - k,
        {
            let (s, t) = self.edges[k];
            if (s == node) != (t == node) {
                let other = if s == node {
                    t
                } else {
                    s
                };
                let newb = self.model.hcg(node, other);
                let oldb = self.model.hcg_node(old_state, other);
                proof {
                    let es = self.edges@;
                    assert(gold[other as int] == gnew[other as int]);
                    assert(newb as int == spec_hcg(m2, gold[other as int], gi));
                    assert(oldb as int == spec_hcg(m1, gold[other as int], gi));
                    lemma_edgeu_le_edge(es, gold, nd, gi, oldb as int, n_edges as int);
                    lemma_edgeu_bounds(m1, nd, es, gold, gi, oldb as int, k + 1, n_edges as int);
                    lemma_edgeu_bounds(m2, nd, es, gold, gi, oldb as int, 0, k as int);
                    assert(edgeu_cnt(m1, nd, es, gold, gi, oldb as int, k + 1) == edgeu_cnt(
                        m1,
                        nd,
                        es,
                        gold,
                        gi,
                        oldb as int,
                        k as int,
                    ) + 1);
                    assert(self.hcg_edges@[oldb as int] >= 1);
                    lemma_edge_bounds(es, gold, gi, newb as int, n_edges as int);
                    lemma_edgeu_bounds(m2, nd, es, gold, gi, newb as int, 0, k as int);
                    lemma_edgeu_bounds(m1, nd, es, gold, gi, newb as int, 0, k as int);
                    assert(self.hcg_edges@[newb as int] as int + 1 <= 0xffff_ffffu64);
                }
                let ghost preve = self.hcg_edges@;
                let c_old = self.hcg_edges[oldb];
                set_counter(&mut self.hcg_edges, oldb, c_old - 1);
                let c_new = self.hcg_edges[newb];
                set_counter(&mut self.hcg_edges, newb, c_new + 1);
                proof {
                    let es = self.edges@;
                    assert forall|r: int| 0 <= r < gi implies #[trigger] self.hcg_edges@[r] as int
                        == edge_cnt(es, gold, gi, r, n_edges as int) - edgeu_cnt(
                        m1,
                        nd,
                        es,
                        gold,
                        gi,
                        r,
                        k + 1,
                    ) + edgeu_cnt(m2, nd, es, gold, gi, r, k + 1) by {
                        assert(edgeu_cnt(m1, nd, es, gold, gi, r, k + 1) == edgeu_cnt(
                            m1,
                            nd,
                            es,
                            gold,
                            gi,
                            r,
                            k as int,
                        ) + ind_hcg(m1, gold[other as int], gi, r));
                        assert(edgeu_cnt(m2, nd, es, gold, gi, r, k + 1) == edgeu_cnt(
                            m2,
                            nd,
                            es,
                            gold,
                            gi,
                            r,
                            k as int,
                        ) + ind_hcg(m2, gold[other as int], gi, r));
                        if r == oldb as int && r == newb as int {
                            assert(self.hcg_edges@[r] as int == preve[r] as int);
                        } else if r == oldb as int {
                            assert(self.hcg_edges@[r] as int == preve[r] - 1);
                        } else if r == newb as int {
                            assert(self.hcg_edges@[r] as int == preve[r] + 1);
                        } else {
                            assert(self.hcg_edges@[r] as int == preve[r] as int);
                        }
                    }
                }
            } else {
                proof {
                    let es = self.edges@;
                    assert forall|r: int| 0 <= r < gi implies edgeu_cnt(m1, nd, es, gold, gi, r, k + 1)
                        == edgeu_cnt(m1, nd, es, gold, gi, r, k as int) && edgeu_cnt(
                        m2,
                        nd,
                        es,
                        gold,
                        gi,
                        r,
                        k + 1,
                    ) == edgeu_cnt(m2, nd, es, gold, gi, r, k as int) by {}
                }
            }
            k = k + 1;
        }
        proof {
            assert forall|r: int| 0 <= r < gi implies #[trigger] self.hcg_edges@[r] as int
                == edge_cnt(self.edges@, gnew, gi, r, n_edges as int) by {
                lemma_edge_update(self.edges@, gold, nd, m2, gi, r, n_edges as int);
                assert forall|tt: int|
                    0 <= tt < gold.len() && tt != nd implies #[trigger] gnew[tt] == gold[tt] by {}
                lemma_edge_congruent_full(self.edges@, gold.update(nd, m2), gnew, gi, r, n_edges as int);
            }
            assert forall|r: int| 0 <= r < gi implies #[trigger] self@.hcg_edges[r] == edge_cnt(
                self@.edges,
                gnew,
                gi,
                r,
                self@.edges.len() as int,
            ) && #[trigger] self@.hcg_pairs[r] == pair_cnt(gnew, gi, r, gnew.len() as int) by {
                assert(self@.hcg_edges[r] == self.hcg_edges@[r] as int);
                assert(self@.hcg_pairs[r] == self.hcg_pairs@[r] as int);
            }
        }
    }
}

/// Two equal mask sequences give equal edge counts.
pub proof fn lemma_edge_congruent_full(
    edges: Seq<(usize, usize)>,
    g1: Seq<u64>,
    g2: Seq<u64>,
    g: int,
    r: int,
    k: int,
)
    requires
        forall|t: int| 0 <= t < g1.len() ==> g2[t] == g1[t],
        g2.len() == g1.len(),
        forall|t: int| 0 <= t < k ==> (#[trigger] edges[t]).0 < g1.len() && edges[t].1 < g1.len(),
    ensures
        edge_cnt(edges, g2, g, r, k) == edge_cnt(edges, g1, g, r, k),
    decreases k,
{
    if k > 0 {
        lemma_edge_congruent_full(edges, g1, g2, g, r, k - 1);
    }
}

/// Sum of the first `h` entries of a counter sequence.
pub open spec fn counter_sum(c: Seq<int>, h: int) -> int
    decreases h,
{
    if h <= 0 {
        0
    } else {
        counter_sum(c, h - 1) + c[h - 1]
    }
}

/// Sum of the bucket indicator over the buckets below `h`.
pub open spec fn ind_sum(a: u64, b: u64, g: int, h: int) -> int
    decreases h,
{
    if h <= 0 {
        0
    } else {
        ind_sum(a, b, g, h - 1) + ind_hcg(a, b, g, h - 1)
    }
}

/// Sum of `cross_cnt` over the buckets below `h`.
pub open spec fn cross_sum(m: u64, groups: Seq<u64>, g: int, k: int, h: int) -> int
    decreases h,
{
    if h <= 0 {
        0
    } else {
        cross_sum(m, groups, g, k, h - 1) + cross_cnt(m, groups, g, h - 1, k)
    }
}

/// Sum of `pair_cnt` over the buckets below `h`.
pub open spec fn pair_sum(groups: Seq<u64>, g: int, n: int, h: int) -> int
    decreases h,
{
    if h <= 0 {
        0
    } else {
        pair_sum(groups, g, n, h - 1) + pair_cnt(groups, g, h - 1, n)
    }
}

/// Sum of `edge_cnt` over the buckets below `h`.
pub open spec fn edge_sum(edges: Seq<(usize, usize)>, groups: Seq<u64>, g: int, k: int, h: int) -> int
    decreases h,
{
    if h <= 0 {
        0
    } else {
        edge_sum(edges, groups, g, k, h - 1) + edge_cnt(edges, groups, g, h - 1, k)
    }
}

/// Two masks with the universal bit land in exactly one bucket below `g`.
pub proof fn lemma_hcg_lt(a: u64, b: u64, g: int)
    requires
        u64_bit(a, 0),
        u64_bit(b, 0),
        1 <= g <= 64,
    ensures
        0 <= spec_hcg(a, b, g) < g,
{
    let gu = g as u64;
    let m = a & b & crate::bits::spec_low_mask(gu);
    assert(m >= 1 && m >> gu == 0) by (bit_vector)
        requires
            m == a & b & crate::bits::spec_low_mask(gu),
            (a >> 0u64) & 1 == 1,
            (b >> 0u64) & 1 == 1,
            1 <= gu <= 64,
    ;
    crate::bits::lemma_hsb_shift(m);
    let h = crate::bits::spec_highest_set_bit(m);
    assert(h < gu) by (bit_vector)
        requires
            m >> h == 1,
            m >> gu == 0,
            1 <= gu <= 64,
    ;
}

/// A pair in exactly one bucket contributes one to the indicator sum.
pub proof fn lemma_ind_sum(a: u64, b: u64, g: int, h: int)
    requires
        0 <= spec_hcg(a, b, g),
        h >= 0,
    ensures
        ind_sum(a, b, g, h) == if spec_hcg(a, b, g) < h {
            1int
        } else {
            0int
        },
    decreases h,
{
    if h > 0 {
        lemma_ind_sum(a, b, g, h - 1);
    }
}

/// The cross sum splits off its last node.
pub proof fn lemma_cross_sum_split(m: u64, groups: Seq<u64>, g: int, k: int, h: int)
    requires
        k >= 1,
    ensures
        cross_sum(m, groups, g, k, h) == cross_sum(m, groups, g, k - 1, h) + ind_sum(
            m,
            groups[k - 1],
            g,
            h,
        ),
    decreases h,
{
    if h > 0 {
        lemma_cross_sum_split(m, groups, g, k, h - 1);
    }
}

/// With no nodes there are no cross pairs in any bucket.
pub proof fn lemma_cross_sum_zero(m: u64, groups: Seq<u64>, g: int, h: int)
    ensures
        cross_sum(m, groups, g, 0, h) == 0,
    decreases h,
{
    if h > 0 {
        lemma_cross_sum_zero(m, groups, g, h - 1);
    }
}

/// With no nodes there are no pairs in any bucket.
pub proof fn lemma_pair_sum_zero(groups: Seq<u64>, g: int, h: int)
    ensures
        pair_sum(groups, g, 0, h) == 0,
    decreases h,
{
    if h > 0 {
        lemma_pair_sum_zero(groups, g, h - 1);
    }
}

/// With no edges there are no edges in any bucket.
pub proof fn lemma_edge_sum_zero(edges: Seq<(usize, usize)>, groups: Seq<u64>, g: int, h: int)
    ensures
        edge_sum(edges, groups, g, 0, h) == 0,
    decreases h,
{
    if h > 0 {
        lemma_edge_sum_zero(edges, groups, g, h - 1);
    }
}

/// Each of the `k` nodes contributes exactly one pair to some bucket.
pub proof fn lemma_cross_sum(m: u64, groups: Seq<u64>, g: int, k: int)
    requires
        u64_bit(m, 0),
        1 <= g <= 64,
        0 <= k <= groups.len(),
        forall|t: int| 0 <= t < groups.len() ==> u64_bit(#[trigger] groups[t], 0),
    ensures
        cross_sum(m, groups, g, k, g) == k,
    decreases k,
{
    if k > 0 {
        lemma_cross_sum(m, groups, g, k - 1);
        lemma_cross_sum_split(m, groups, g, k, g);
        lemma_hcg_lt(m, groups[k - 1], g);
        lemma_ind_sum(m, groups[k - 1], g, g);
    } else {
        lemma_cross_sum_zero(m, groups, g, g);
    }
}

/// The pair sum splits off its last node's row.
pub proof fn lemma_pair_sum_split(groups: Seq<u64>, g: int, n: int, h: int)
    requires
        n >= 1,
    ensures
        pair_sum(groups, g, n, h) == pair_sum(groups, g, n - 1, h) + cross_sum(
            groups[n - 1],
            groups,
            g,
            n - 1,
            h,
        ),
    decreases h,
{
    if h > 0 {
        lemma_pair_sum_split(groups, g, n, h - 1);
    }
}

/// Every unordered pair of the first `n` nodes lands in exactly one
/// bucket.
pub proof fn lemma_pair_sum(groups: Seq<u64>, g: int, n: int)
    requires
        1 <= g <= 64,
        0 <= n <= groups.len(),
        forall|t: int| 0 <= t < groups.len() ==> u64_bit(#[trigger] groups[t], 0),
    ensures
        pair_sum(groups, g, n, g) == n * (n - 1) / 2,
    decreases n,
{
    if n > 0 {
        lemma_pair_sum(groups, g, n - 1);
        lemma_pair_sum_split(groups, g, n, g);
        lemma_cross_sum(groups[n - 1], groups, g, n - 1);
        assert((n - 1) * (n - 2) / 2 + (n - 1) == n * (n - 1) / 2) by (nonlinear_arith);
    } else {
        lemma_pair_sum_zero(groups, g, g);
        assert(n == 0 ==> n * (n - 1) / 2 == 0) by (nonlinear_arith);
    }
}

/// The edge sum splits off its last edge.
pub proof fn lemma_edge_sum_split(
    edges: Seq<(usize, usize)>,
    groups: Seq<u64>,
    g: int,
    k: int,
    h: int,
)
    requires
        k >= 1,
    ensures
        edge_sum(edges, groups, g, k, h) == edge_sum(edges, groups, g, k - 1, h) + ind_sum(
            groups[edges[k - 1].0 as int],
            groups[edges[k - 1].1 as int],
            g,
            h,
        ),
    decreases h,
{
    if h > 0 {
        lemma_edge_sum_split(edges, groups, g, k, h - 1);
    }
}

/// Every edge lands in exactly one bucket.
pub proof fn lemma_edge_sum(edges: Seq<(usize, usize)>, groups: Seq<u64>, g: int, k: int)
    requires
        1 <= g <= 64,
        0 <= k <= edges.len(),
        forall|t: int| 0 <= t < groups.len() ==> u64_bit(#[trigger] groups[t], 0),
        forall|t: int|
            0 <= t < edges.len() ==> (#[trigger] edges[t]).0 < groups.len() && edges[t].1
                < groups.len(),
    ensures
        edge_sum(edges, groups, g, k, g) == k,
    decreases k,
{
    if k > 0 {
        lemma_edge_sum(edges, groups, g, k - 1);
        lemma_edge_sum_split(edges, groups, g, k, g);
        lemma_hcg_lt(groups[edges[k - 1].0 as int], groups[edges[k - 1].1 as int], g);
        lemma_ind_sum(groups[edges[k - 1].0 as int], groups[edges[k - 1].1 as int], g, g);
    } else {
        lemma_edge_sum_zero(edges, groups, g, g);
    }
}

/// Pointwise equal counters have equal sums.
pub proof fn lemma_counter_sum_pairs(c: Seq<int>, groups: Seq<u64>, g: int, n: int, h: int)
    requires
        forall|r: int| 0 <= r < h ==> #[trigger] c[r] == pair_cnt(groups, g, r, n),
    ensures
        counter_sum(c, h) == pair_sum(groups, g, n, h),
    decreases h,
{
    if h > 0 {
        lemma_counter_sum_pairs(c, groups, g, n, h - 1);
    }
}

/// Pointwise equal counters have equal sums.
pub proof fn lemma_counter_sum_edges(
    c: Seq<int>,
    edges: Seq<(usize, usize)>,
    groups: Seq<u64>,
    g: int,
    k: int,
    h: int,
)
    requires
        forall|r: int| 0 <= r < h ==> #[trigger] c[r] == edge_cnt(edges, groups, g, r, k),
    ensures
        counter_sum(c, h) == edge_sum(edges, groups, g, k, h),
    decreases h,
{
    if h > 0 {
        lemma_counter_sum_edges(c, edges, groups, g, k, h - 1);
    }
}

/// In every committed sampler state the pair counters sum to the number
/// of unordered node pairs and the edge counters to the number of edges.
pub proof fn lemma_counter_totals(s: SamplerView)
    requires
        wf_sampler(s),
    ensures
        counter_sum(s.hcg_pairs, s.model.num_groups) == s.model.num_nodes * (s.model.num_nodes - 1)
            / 2,
        counter_sum(s.hcg_edges, s.model.num_groups) == s.edges.len(),
{
    let g = s.model.num_groups;
    let n = s.model.num_nodes;
    let k = s.edges.len() as int;
    assert forall|t: int| 0 <= t < s.model.groups.len() implies u64_bit(
        #[trigger] s.model.groups[t],
        0,
    ) by {
        assert(mask_ok(s.model.groups[t], s.model.num_groups));
    }
    lemma_counter_sum_pairs(s.hcg_pairs, s.model.groups, g, n, g);
    lemma_pair_sum(s.model.groups, g, n);
    lemma_counter_sum_edges(s.hcg_edges, s.edges, s.model.groups, g, k, g);
    lemma_edge_sum(s.edges, s.model.groups, g, k);
}

/// In every well-formed model state each group's size is the number of
/// nodes whose mask carries its bit.
pub proof fn lemma_group_sizes_are_counts(v: ModelView)
    requires
        wf_view(v),
    ensures
        forall|r: int|
            0 <= r < v.num_groups ==> #[trigger] v.sizes[r] == crate::multi_group_model::member_count(
                v.groups,
                r as u64,
            ),
{
}

/// In every well-formed model state every node carries the universal
/// bit.
pub proof fn lemma_universal_bit(v: ModelView)
    requires
        wf_view(v),
    ensures
        forall|u: int| 0 <= u < v.num_nodes ==> #[trigger] v.groups[u] & 1 == 1,
{
    assert forall|u: int| 0 <= u < v.num_nodes implies #[trigger] v.groups[u] & 1 == 1 by {
        let m = v.groups[u];
        assert((m >> 0u64) & 1 == 1 ==> m & 1 == 1) by (bit_vector);
    }
}

/// Declaration of the mt19937 crate's Mersenne Twister generator, so
/// that its values can cross the library's signatures; the library
/// draws from it only through the wrappers below.
#[verifier::external_type_specification]
#[verifier::external_body]
pub struct ExMT19937(mt19937::MT19937);

/// Relies on rand::Rng::gen_range over `lo..hi`: the draw lies in the
/// half-open range; an empty range would make the call panic, so the
/// bounds keep it non-empty.
#[verifier::external_body]
fn rng_below(rng: &mut mt19937::MT19937, lo: usize, hi: usize) -> (r: usize)
    requires
        lo < hi,
    ensures
        lo <= r < hi,
{
    rand::Rng::gen_range(rng, lo..hi)
}

/// Relies on rand::Rng::gen_range over `0..hi`: the draw lies below
/// `hi`; an empty range would make the call panic, so `hi` must be
/// positive.
#[verifier::external_body]
fn rng_u64_below(rng: &mut mt19937::MT19937, hi: u64) -> (r: u64)
    requires
        hi >= 1,
    ensures
        r < hi,
{
    rand::Rng::gen_range(rng, 0..hi)
}

/// Draw a random initial group assignment: every node gets the universal
/// bit plus a uniform selection of the other `num_groups - 1` group bits.
pub fn random_groups(
    rng: &mut mt19937::MT19937,
    num_nodes: usize,
    num_groups: u32,
) -> (groups: Vec<u64>)
    requires
        1 <= num_groups <= 64,
    ensures
        groups@.len() == num_nodes,
        forall|u: int| 0 <= u < num_nodes ==> mask_ok(#[trigger] groups@[u], num_groups as int),
{
    let bound: u64 = if num_groups == 64 {
        0x8000_0000_0000_0000u64
    } else {
        1u64 << (num_groups - 1)
    };
    proof {
        assert(num_groups < 64 ==> (1u64 << ((num_groups - 1) as u32)) >= 1) by (bit_vector)
            requires
                1 <= num_groups <= 64,
        ;
    }
    let mut groups: Vec<u64> = Vec::new();
    let mut u: usize = 0;
    while u < num_nodes
        invariant
            u <= num_nodes,
            1 <= num_groups <= 64,
            bound == (if num_groups == 64 {
                0x8000_0000_0000_0000u64
            } else {
                (1u64 << ((num_groups - 1) as u32)) as u64
            }),
            bound >= 1,
            groups@.len() == u,
            forall|t: int| 0 <= t < u ==> mask_ok(#[trigger] groups@[t], num_groups as int),
        decreases num_nodes - u,
    {
        let d = rng_u64_below(rng, bound);
        let mask = (d << 1u32) | 1;
        proof {
            let g = num_groups;
            assert((mask >> 0u64) & 1 == 1 && (g < 64 ==> mask >> g == 0)) by (bit_vector)
                requires
                    mask == (d << 1u32) | 1,
                    d < (if g == 64 {
                        0x8000_0000_0000_0000u64
                    } else {
                        (1u64 << ((g - 1) as u32)) as u64
                    }),
                    1 <= g <= 64,
            ;
        }
        groups.push(mask);
        u = u + 1;
    }
    groups
}

/// Copy a counter vector element by element.
fn copy_counters(v: &Vec<usize>) -> (r: Vec<usize>)
    ensures
        r@ == v@,
{
    let mut r: Vec<usize> = Vec::new();
    let mut i: usize = 0;
    while i < v.len()
        invariant
            i <= v@.len(),
            r@ == v@.subrange(0, i as int),
        decreases v@.len() - i,
    {
        r.push(v[i]);
        proof {
            assert(r@ =~= v@.subrange(0, i + 1));
        }
        i = i + 1;
    }
    proof {
        assert(r@ =~= v@);
    }
    r
}

/// Overwrite one counter slot.
fn set_counter(v: &mut Vec<usize>, i: usize, value: usize)
    requires
        i < old(v)@.len(),
    ensures
        final(v)@ == old(v)@.update(i as int, value),
{
    v.set(i, value);
}

} // verus!
