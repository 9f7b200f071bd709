//! The multi-group model: per-node group masks, per-group rosters of the
//! nodes in and out of each group, and per-group population counts.
//!
//! The four move primitives (add an empty group, remove an empty group,
//! add a node to a group, remove a node from a group) and their symmetric
//! undo all run in constant time thanks to the rosters.

use vstd::prelude::*;

use crate::bits::mask_fits;
use crate::bits::spec_highest_set_bit;
use crate::bits::spec_insert_zero_at;
use crate::bits::spec_low_mask;
use crate::bits::spec_remove_bit_at;
use crate::bits::u64_bit;
use crate::bits::insert_zero_at;
use crate::bits::remove_bit_at;
use crate::bits::highest_set_bit;
use crate::bits::lemma_hsb_shift;
use crate::indexed_list::IndexedList;

verus! {

/// Group assignment bits of one node.
pub type GroupMask = u64;

/// The record of one applied move, with everything its undo needs.
#[derive(Clone, Copy, PartialEq, Eq, Structural)]
pub enum Move {
    AddGroup { group: usize },
    RemoveGroup { group: usize },
    RemoveNodeFromGroup { group: usize, node: usize, idx: usize, old_state: u64 },
    AddNodeToGroup { group: usize, node: usize, idx: usize, old_state: u64 },
}

/// Mathematical state of the model.
#[verifier::ext_equal]
pub ghost struct ModelView {
    pub max_groups: int,
    pub num_groups: int,
    pub num_nodes: int,
    pub groups: Seq<u64>,
    pub ins: Seq<Seq<u32>>,
    pub outs: Seq<Seq<u32>>,
    pub sizes: Seq<int>,
}

/// A valid node mask: the universal bit is set and no bit at `g` or above is.
pub open spec fn mask_ok(m: u64, g: int) -> bool {
    &&& u64_bit(m, 0)
    &&& mask_fits(m, g as u64)
}

/// Number of nodes whose mask has bit `r` set.
pub open spec fn member_count(groups: Seq<u64>, r: u64) -> int
    decreases groups.len(),
{
    if groups.len() == 0 {
        0
    } else {
        member_count(groups.drop_last(), r) + if u64_bit(groups.last(), r) {
            1int
        } else {
            0int
        }
    }
}

/// The valid prefix of an in-roster row lists members of group `r`, each
/// once, and every member appears.
pub open spec fn in_row_ok(row: Seq<u32>, sz: int, groups: Seq<u64>, r: u64) -> bool {
    let n = groups.len() as int;
    &&& 0 <= sz <= n
    &&& forall|i: int| 0 <= i < sz ==> (#[trigger] row[i]) < n && u64_bit(groups[row[i] as int], r)
    &&& forall|i: int, j: int| 0 <= i < j < sz ==> row[i] != row[j]
    &&& forall|w: int|
        0 <= w < n && #[trigger] u64_bit(groups[w], r) ==> exists|i: int|
            0 <= i < sz && row[i] == w as u32
}

/// The valid prefix of an out-roster row lists the non-members of group
/// `r`, each once, and every non-member appears.
pub open spec fn out_row_ok(row: Seq<u32>, sz: int, groups: Seq<u64>, r: u64) -> bool {
    let n = groups.len() as int;
    &&& 0 <= sz <= n
    &&& forall|i: int|
        0 <= i < n - sz ==> (#[trigger] row[i]) < n && !u64_bit(groups[row[i] as int], r)
    &&& forall|i: int, j: int| 0 <= i < j < n - sz ==> row[i] != row[j]
    &&& forall|w: int|
        0 <= w < n && !(#[trigger] u64_bit(groups[w], r)) ==> exists|i: int|
            0 <= i < n - sz && row[i] == w as u32
}

/// The first `sz` entries of a roster row are strictly increasing.
pub open spec fn ascending_prefix(row: Seq<u32>, sz: int) -> bool {
    forall|i: int, j: int| 0 <= i < j < sz ==> row[i] < row[j]
}

/// The model invariant, spelled over the mathematical state.
pub open spec fn wf_view(v: ModelView) -> bool {
    &&& 1 <= v.num_groups <= v.max_groups <= 64
    &&& v.groups.len() == v.num_nodes
    &&& v.sizes.len() == v.num_groups
    &&& v.ins.len() == v.num_groups
    &&& v.outs.len() == v.num_groups
    &&& forall|r: int| 0 <= r < v.num_groups ==> (#[trigger] v.ins[r]).len() == v.num_nodes
    &&& forall|r: int| 0 <= r < v.num_groups ==> (#[trigger] v.outs[r]).len() == v.num_nodes
    &&& forall|u: int| 0 <= u < v.num_nodes ==> mask_ok(#[trigger] v.groups[u], v.num_groups)
    &&& forall|r: int|
        0 <= r < v.num_groups ==> #[trigger] v.sizes[r] == member_count(v.groups, r as u64)
    &&& forall|r: int|
        0 <= r < v.num_groups ==> in_row_ok(#[trigger] v.ins[r], v.sizes[r], v.groups, r as u64)
    &&& forall|r: int|
        0 <= r < v.num_groups ==> out_row_ok(#[trigger] v.outs[r], v.sizes[r], v.groups, r as u64)
}

/// Highest common group of two masks under `g` groups: the top set bit of
/// the intersection restricted to the low `g` bits.
pub open spec fn spec_hcg(a: u64, b: u64, g: int) -> int {
    spec_highest_set_bit(a & b & spec_low_mask(g as u64)) as int
}

/// An empty group may be inserted at `1 <= g <= num_groups` while a slot
/// is free.
pub open spec fn can_add_group(v: ModelView, g: int) -> bool {
    &&& 1 <= g <= v.num_groups
    &&& v.num_groups < v.max_groups
}

/// State after inserting the empty group `g`: fresh rosters at row `g`,
/// a zero bit spliced into every mask.
pub open spec fn sv_add_group(v: ModelView, g: int) -> ModelView {
    ModelView {
        num_groups: v.num_groups + 1,
        groups: Seq::new(
            v.groups.len(),
            |u: int| spec_insert_zero_at(v.groups[u], g as u64, v.num_groups as u64),
        ),
        ins: v.ins.insert(g, Seq::new(v.num_nodes as nat, |i: int| 0xffff_ffffu32)),
        outs: v.outs.insert(g, Seq::new(v.num_nodes as nat, |i: int| i as u32)),
        sizes: v.sizes.insert(g, 0),
        ..v
    }
}

/// A group may be removed while it is empty and is not group 0.
pub open spec fn can_remove_group(v: ModelView, g: int) -> bool {
    &&& 1 <= g < v.num_groups
    &&& v.sizes[g] == 0
}

/// State after removing the empty group `g`: its rows dropped, bit `g`
/// cut out of every mask.
pub open spec fn sv_remove_group(v: ModelView, g: int) -> ModelView {
    ModelView {
        num_groups: v.num_groups - 1,
        groups: Seq::new(
            v.groups.len(),
            |u: int| spec_remove_bit_at(v.groups[u], g as u64, v.num_groups as u64),
        ),
        ins: v.ins.remove(g),
        outs: v.outs.remove(g),
        sizes: v.sizes.remove(g),
        ..v
    }
}

/// A member of a non-universal, non-empty group may leave it.
pub open spec fn can_remove_node(v: ModelView, g: int, idx: int) -> bool {
    &&& 1 <= g < v.num_groups
    &&& 1 <= v.sizes[g]
    &&& 0 <= idx < v.sizes[g]
}

/// State after removing the member at roster position `idx` of group `g`:
/// swap-remove in the in-row, append to the out-row, clear the mask bit.
pub open spec fn sv_remove_node(v: ModelView, g: int, idx: int) -> ModelView {
    let node = v.ins[g][idx] as int;
    let sz = v.sizes[g];
    ModelView {
        groups: v.groups.update(node, (v.groups[node] - (1u64 << g as u64)) as u64),
        ins: v.ins.update(g, v.ins[g].update(idx, v.ins[g][sz - 1])),
        outs: v.outs.update(g, v.outs[g].update(v.num_nodes - sz, node as u32)),
        sizes: v.sizes.update(g, sz - 1),
        ..v
    }
}

/// A non-member of a non-universal, non-full group may join it.
pub open spec fn can_add_node(v: ModelView, g: int, idx: int) -> bool {
    &&& 1 <= g < v.num_groups
    &&& v.sizes[g] < v.num_nodes
    &&& 0 <= idx < v.num_nodes - v.sizes[g]
}

/// State after adding the non-member at out-roster position `idx` to
/// group `g`: swap-remove in the out-row, append to the in-row, set the
/// mask bit.
pub open spec fn sv_add_node(v: ModelView, g: int, idx: int) -> ModelView {
    let node = v.outs[g][idx] as int;
    let sz = v.sizes[g];
    let n_out = v.num_nodes - sz;
    ModelView {
        groups: v.groups.update(node, (v.groups[node] + (1u64 << g as u64)) as u64),
        outs: v.outs.update(g, v.outs[g].update(idx, v.outs[g][n_out - 1])),
        ins: v.ins.update(g, v.ins[g].update(sz, node as u32)),
        sizes: v.sizes.update(g, sz + 1),
        ..v
    }
}

/// The move `m` can be produced by the matching primitive on `v`.
pub open spec fn can_apply(v: ModelView, m: Move) -> bool {
    match m {
        Move::AddGroup { group } => can_add_group(v, group as int),
        Move::RemoveGroup { group } => can_remove_group(v, group as int),
        Move::RemoveNodeFromGroup { group, node, idx, old_state } => {
            &&& can_remove_node(v, group as int, idx as int)
            &&& node == v.ins[group as int][idx as int] as usize
            &&& old_state == v.groups[v.ins[group as int][idx as int] as int]
        },
        Move::AddNodeToGroup { group, node, idx, old_state } => {
            &&& can_add_node(v, group as int, idx as int)
            &&& node == v.outs[group as int][idx as int] as usize
            &&& old_state == v.groups[v.outs[group as int][idx as int] as int]
        },
    }
}

/// The state the matching primitive moves `v` to.
pub open spec fn sv_apply(v: ModelView, m: Move) -> ModelView {
    match m {
        Move::AddGroup { group } => sv_add_group(v, group as int),
        Move::RemoveGroup { group } => sv_remove_group(v, group as int),
        Move::RemoveNodeFromGroup { group, node, idx, old_state } => sv_remove_node(
            v,
            group as int,
            idx as int,
        ),
        Move::AddNodeToGroup { group, node, idx, old_state } => sv_add_node(
            v,
            group as int,
            idx as int,
        ),
    }
}

/// `undo_move(m)` may run on `v`; for the node moves this records exactly
/// the shape in which the matching primitive left the state.
pub open spec fn can_undo(v: ModelView, m: Move) -> bool {
    match m {
        Move::AddGroup { group } => can_remove_group(v, group as int),
        Move::RemoveGroup { group } => can_add_group(v, group as int),
        Move::RemoveNodeFromGroup { group, node, idx, old_state } => {
            let g = group as int;
            &&& 1 <= g < v.num_groups
            &&& 0 <= node < v.num_nodes
            &&& 0 <= v.sizes[g] < v.num_nodes
            &&& 0 <= idx <= v.sizes[g]
            &&& !u64_bit(v.groups[node as int], group as u64)
            &&& old_state == (v.groups[node as int] + (1u64 << group as u64)) as u64
            &&& v.outs[g][v.num_nodes - v.sizes[g] - 1] == node as u32
            &&& (idx < v.sizes[g] ==> v.ins[g][v.sizes[g]] == v.ins[g][idx as int])
        },
        Move::AddNodeToGroup { group, node, idx, old_state } => {
            let g = group as int;
            &&& 1 <= g < v.num_groups
            &&& 0 <= node < v.num_nodes
            &&& 1 <= v.sizes[g]
            &&& 0 <= idx <= v.num_nodes - v.sizes[g]
            &&& u64_bit(v.groups[node as int], group as u64)
            &&& old_state == (v.groups[node as int] - (1u64 << group as u64)) as u64
            &&& v.ins[g][v.sizes[g] - 1] == node as u32
            &&& (idx < v.num_nodes - v.sizes[g] ==> v.outs[g][v.num_nodes - v.sizes[g]]
                == v.outs[g][idx as int])
        },
    }
}

/// State after undoing the move `m`.
pub open spec fn sv_undo(v: ModelView, m: Move) -> ModelView {
    match m {
        Move::AddGroup { group } => sv_remove_group(v, group as int),
        Move::RemoveGroup { group } => sv_add_group(v, group as int),
        Move::RemoveNodeFromGroup { group, node, idx, old_state } => {
            let g = group as int;
            let sz1 = v.sizes[g] + 1;
            ModelView {
                sizes: v.sizes.update(g, sz1),
                outs: v.outs.update(g, v.outs[g].update(v.num_nodes - sz1, 0xffff_ffffu32)),
                ins: v.ins.update(g, v.ins[g].update(idx as int, node as u32)),
                groups: v.groups.update(
                    node as int,
                    (v.groups[node as int] + (1u64 << group as u64)) as u64,
                ),
                ..v
            }
        },
        Move::AddNodeToGroup { group, node, idx, old_state } => {
            let g = group as int;
            let sz1 = v.sizes[g] - 1;
            ModelView {
                sizes: v.sizes.update(g, sz1),
                ins: v.ins.update(g, v.ins[g].update(sz1, 0xffff_ffffu32)),
                outs: v.outs.update(g, v.outs[g].update(idx as int, node as u32)),
                groups: v.groups.update(
                    node as int,
                    (v.groups[node as int] - (1u64 << group as u64)) as u64,
                ),
                ..v
            }
        },
    }
}

/// Holds node masks, rosters and group sizes; mutated only through the
/// move primitives and `undo_move`.
#[derive(Clone)]
pub struct MultiGroupModel {
    max_groups: usize,
    num_groups: usize,
    num_nodes: usize,
    groups: Vec<u64>,
    nodes_in: IndexedList<u32>,
    nodes_out: IndexedList<u32>,
    group_size: Vec<usize>,
}

impl View for MultiGroupModel {
    type V = ModelView;

    closed spec fn view(&self) -> ModelView {
        ModelView {
            max_groups: self.max_groups as int,
            num_groups: self.num_groups as int,
            num_nodes: self.num_nodes as int,
            groups: self.groups@,
            ins: self.nodes_in@,
            outs: self.nodes_out@,
            sizes: self.group_size@.map_values(|x: usize| x as int),
        }
    }
}

impl MultiGroupModel {
    /// Representation invariant: the rosters are well-formed tables of the
    /// right shape and the mathematical state satisfies `wf_view`.
    pub closed spec fn wf(&self) -> bool {
        &&& self.nodes_in.inv()
        &&& self.nodes_out.inv()
        &&& self.nodes_in.spec_cols() == self.num_nodes
        &&& self.nodes_out.spec_cols() == self.num_nodes
        &&& self.num_nodes <= 0x00ff_ffff
        &&& self.group_size@.len() == self.num_groups
        &&& wf_view(self@)
    }

    /// `wf` puts the mathematical state in `wf_view`, and keeps the node
    /// count within the machine limit of the roster tables.
    pub proof fn lemma_wf_view(&self)
        requires
            self.wf(),
        ensures
            wf_view(self@),
            self@.num_nodes <= 0x00ff_ffff,
    {
    }

    pub fn num_groups(&self) -> (n: usize)
        ensures
            n == self@.num_groups,
    {
        self.num_groups
    }

    pub fn max_groups(&self) -> (n: usize)
        ensures
            n == self@.max_groups,
    {
        self.max_groups
    }

    pub fn num_nodes(&self) -> (n: usize)
        ensures
            n == self@.num_nodes,
    {
        self.num_nodes
    }

    /// Population count of group `g`.
    pub fn group_size(&self, g: usize) -> (n: usize)
        requires
            self.wf(),
            g < self@.num_groups,
        ensures
            n == self@.sizes[g as int],
    {
        self.group_size[g]
    }

    /// Group mask of one node.
    pub fn groups_of(&self, node: usize) -> (m: GroupMask)
        requires
            self.wf(),
            node < self@.num_nodes,
        ensures
            m == self@.groups[node as int],
    {
        self.groups[node]
    }

    /// All node masks, for observers.
    pub fn all_groups(&self) -> (g: &Vec<u64>)
        requires
            self.wf(),
        ensures
            g@ == self@.groups,
    {
        &self.groups
    }

    /// All group sizes, for observers.
    pub fn all_group_sizes(&self) -> (s: &Vec<usize>)
        requires
            self.wf(),
        ensures
            s@.len() == self@.sizes.len(),
            forall|r: int| 0 <= r < s@.len() ==> s@[r] == self@.sizes[r],
    {
        &self.group_size
    }

    /// Build the model from the node masks: for each group, scan the nodes
    /// in ascending order into the in- and out-rosters.
    pub fn with_groups(groups: Vec<u64>, num_groups: u32, max_groups: u32) -> (s: Self)
        requires
            1 <= num_groups <= max_groups <= 64,
            groups@.len() <= 0x00ff_ffff,
            forall|u: int| 0 <= u < groups@.len() ==> mask_ok(#[trigger] groups@[u], num_groups as int),
        ensures
            s.wf(),
            s@.groups == groups@,
            s@.num_groups == num_groups,
            s@.max_groups == max_groups,
            s@.num_nodes == groups@.len(),
            forall|q: int|
                0 <= q < s@.num_groups ==> ascending_prefix(#[trigger] s@.ins[q], s@.sizes[q]),
            forall|q: int|
                0 <= q < s@.num_groups ==> ascending_prefix(
                    #[trigger] s@.outs[q],
                    s@.num_nodes - s@.sizes[q],
                ),
    {
        let num_nodes = groups.len();
        let mut nodes_in = IndexedList::<u32>::new(num_nodes);
        let mut nodes_out = IndexedList::<u32>::new(num_nodes);
        let mut group_size: Vec<usize> = Vec::new();
        let mut r: usize = 0;
        while r < num_groups as usize
            invariant
                1 <= num_groups <= max_groups <= 64,
                num_nodes == groups@.len(),
                num_nodes <= 0x00ff_ffff,
                forall|u: int|
                    0 <= u < groups@.len() ==> mask_ok(#[trigger] groups@[u], num_groups as int),
                r <= num_groups,
                nodes_in.inv(),
                nodes_out.inv(),
                nodes_in.spec_cols() == num_nodes,
                nodes_out.spec_cols() == num_nodes,
                nodes_in@.len() == r,
                nodes_out@.len() == r,
                group_size@.len() == r,
                forall|q: int|
                    0 <= q < r ==> #[trigger] group_size@[q] == member_count(groups@, q as u64),
                forall|q: int|
                    0 <= q < r ==> in_row_ok(
                        #[trigger] nodes_in@[q],
                        group_size@[q] as int,
                        groups@,
                        q as u64,
                    ),
                forall|q: int|
                    0 <= q < r ==> out_row_ok(
                        #[trigger] nodes_out@[q],
                        group_size@[q] as int,
                        groups@,
                        q as u64,
                    ),
                forall|q: int|
                    0 <= q < r ==> ascending_prefix(#[trigger] nodes_in@[q], group_size@[q] as int),
                forall|q: int|
                    0 <= q < r ==> ascending_prefix(
                        #[trigger] nodes_out@[q],
                        num_nodes - group_size@[q] as int,
                    ),
            decreases num_groups - r,
        {
            let mut in_row: Vec<u32> = vec![0xffff_ffffu32; num_nodes];
            let mut out_row: Vec<u32> = vec![0xffff_ffffu32; num_nodes];
            let mut in_g: usize = 0;
            let mut out_g: usize = 0;
            let mut u: usize = 0;
            while u < num_nodes
                invariant
                    num_nodes == groups@.len(),
                    num_nodes <= 0x00ff_ffff,
                    u <= num_nodes,
                    r < 64,
                    in_row@.len() == num_nodes,
                    out_row@.len() == num_nodes,
                    in_g == member_count(groups@.take(u as int), r as u64),
                    in_g + out_g == u,
                    forall|i: int|
                        0 <= i < in_g ==> (#[trigger] in_row@[i]) < u && u64_bit(
                            groups@[in_row@[i] as int],
                            r as u64,
                        ),
                    forall|i: int, j: int| 0 <= i < j < in_g ==> in_row@[i] != in_row@[j],
                    ascending_prefix(in_row@, in_g as int),
                    forall|w: int|
                        0 <= w < u && #[trigger] u64_bit(groups@[w], r as u64) ==> exists|i: int|
                            0 <= i < in_g && in_row@[i] == w as u32,
                    forall|i: int|
                        0 <= i < out_g ==> (#[trigger] out_row@[i]) < u && !u64_bit(
                            groups@[out_row@[i] as int],
                            r as u64,
                        ),
                    forall|i: int, j: int| 0 <= i < j < out_g ==> out_row@[i] != out_row@[j],
                    ascending_prefix(out_row@, out_g as int),
                    forall|w: int|
                        0 <= w < u && !(#[trigger] u64_bit(groups@[w], r as u64)) ==> exists|i: int|
                            0 <= i < out_g && out_row@[i] == w as u32,
                decreases num_nodes - u,
            {
                proof {
                    lemma_member_count_bounds(groups@.take(u as int), r as u64);
                    assert(groups@.take(u + 1).drop_last() =~= groups@.take(u as int));
                    assert(groups@.take(u + 1).last() == groups@[u as int]);
                }
                if (groups[u] >> (r as u32)) & 1 == 1 {
                    proof {
                        assert(u64_bit(groups@[u as int], r as u64));
                    }
                    let ghost prev = in_row@;
                    in_row.set(in_g, u as u32);
                    proof {
                        assert forall|w: int|
                            0 <= w < u + 1 && #[trigger] u64_bit(groups@[w], r as u64)
                                implies exists|i: int|
                            0 <= i < in_g + 1 && in_row@[i] == w as u32 by {
                            if w < u {
                                let i = choose|i: int| 0 <= i < in_g && prev[i] == w as u32;
                                assert(in_row@[i] == w as u32);
                            } else {
                                assert(in_row@[in_g as int] == w as u32);
                            }
                        }
                    }
                    in_g = in_g + 1;
                } else {
                    proof {
                        assert(!u64_bit(groups@[u as int], r as u64));
                    }
                    let ghost prev = out_row@;
                    out_row.set(out_g, u as u32);
                    proof {
                        assert forall|w: int|
                            0 <= w < u + 1 && !(#[trigger] u64_bit(groups@[w], r as u64))
                                implies exists|i: int|
                            0 <= i < out_g + 1 && out_row@[i] == w as u32 by {
                            if w < u {
                                let i = choose|i: int| 0 <= i < out_g && prev[i] == w as u32;
                                assert(out_row@[i] == w as u32);
                            } else {
                                assert(out_row@[out_g as int] == w as u32);
                            }
                        }
                    }
                    out_g = out_g + 1;
                }
                u = u + 1;
            }
            proof {
                assert(groups@.take(num_nodes as int) =~= groups@);
                lemma_member_count_bounds(groups@, r as u64);
            }
            proof {
                assert(r * num_nodes + num_nodes <= usize::MAX) by (nonlinear_arith)
                    requires
                        0 <= r <= 64,
                        0 <= num_nodes <= 0x00ff_ffff,
                ;
            }
            nodes_in.push_row(&in_row);
            nodes_out.push_row(&out_row);
            group_size.push(in_g);
            r = r + 1;
        }
        let s = Self {
            max_groups: max_groups as usize,
            num_groups: num_groups as usize,
            num_nodes,
            groups,
            nodes_in,
            nodes_out,
            group_size,
        };
        proof {
            assert forall|q: int| 0 <= q < s@.num_groups implies #[trigger] s@.sizes[q]
                == member_count(s@.groups, q as u64) by {
                assert(s@.sizes[q] == group_size@[q] as int);
            }
            s.nodes_in.lemma_row_lens();
            s.nodes_out.lemma_row_lens();
            assert(1 <= s@.num_groups <= s@.max_groups <= 64);
            assert(s@.groups.len() == s@.num_nodes);
            assert(s@.sizes.len() == s@.num_groups);
            assert(forall|u: int|
                0 <= u < s@.num_nodes ==> mask_ok(#[trigger] s@.groups[u], s@.num_groups));
            assert forall|q: int| 0 <= q < s@.num_groups implies in_row_ok(
                #[trigger] s@.ins[q],
                s@.sizes[q],
                s@.groups,
                q as u64,
            ) by {
                assert(s@.sizes[q] == group_size@[q] as int);
                assert(s@.ins[q] == nodes_in@[q]);
            }
            assert forall|q: int| 0 <= q < s@.num_groups implies out_row_ok(
                #[trigger] s@.outs[q],
                s@.sizes[q],
                s@.groups,
                q as u64,
            ) by {
                assert(s@.sizes[q] == group_size@[q] as int);
                assert(s@.outs[q] == nodes_out@[q]);
            }
            assert(s.wf());
        }
        s
    }

    /// Insert the empty group `g`: fresh roster rows, a zero bit spliced
    /// into every node's mask, group indices at `g` and above renumbered
    /// up by one.
    pub fn add_group(&mut self, group: usize) -> (m: Move)
        requires
            old(self).wf(),
            can_add_group(old(self)@, group as int),
        ensures
            final(self).wf(),
            final(self)@ == sv_add_group(old(self)@, group as int),
            m == (Move::AddGroup { group }),
    {
        let n = self.num_nodes;
        let in_row: Vec<u32> = vec![0xffff_ffffu32; n];
        let mut out_row: Vec<u32> = Vec::new();
        let mut i: usize = 0;
        while i < n
            invariant
                i <= n,
                n <= 0x00ff_ffff,
                out_row@.len() == i,
                forall|k: int| 0 <= k < i ==> out_row@[k] == k as u32,
            decreases n - i,
        {
            out_row.push(i as u32);
            i = i + 1;
        }
        proof {
            assert(self.nodes_in@.len() * n + n <= usize::MAX) by (nonlinear_arith)
                requires
                    0 <= self.nodes_in@.len() <= 64,
                    0 <= n <= 0x00ff_ffff,
            ;
            assert(self.nodes_out@.len() * n + n <= usize::MAX) by (nonlinear_arith)
                requires
                    0 <= self.nodes_out@.len() <= 64,
                    0 <= n <= 0x00ff_ffff,
            ;
        }
        self.nodes_in.insert_row(group, &in_row);
        self.nodes_out.insert_row(group, &out_row);
        self.group_size.insert(group, 0);
        let g32 = self.num_groups as u32;
        let mut new_groups: Vec<u64> = Vec::new();
        let mut u: usize = 0;
        while u < n
            invariant
                u <= n,
                group <= g32 <= 63,
                self.groups@ == old(self)@.groups,
                n == self.groups@.len(),
                new_groups@.len() == u,
                forall|k: int|
                    0 <= k < u ==> new_groups@[k] == spec_insert_zero_at(
                        old(self)@.groups[k],
                        group as u64,
                        g32 as u64,
                    ),
            decreases n - u,
        {
            let val = insert_zero_at(self.groups[u], group, g32);
            new_groups.push(val);
            u = u + 1;
        }
        self.groups = new_groups;
        self.num_groups = self.num_groups + 1;
        proof {
            let v0 = old(self)@;
            let gi = group as int;
            let target = sv_add_group(v0, gi);
            lemma_add_group_wf(v0, gi);
            assert(self@.groups =~= target.groups);
            assert(in_row@ =~= Seq::new(n as nat, |k: int| 0xffff_ffffu32));
            assert(out_row@ =~= Seq::new(n as nat, |k: int| k as u32));
            assert(self@.sizes =~= v0.sizes.insert(gi, 0int)) by {
                v0.sizes.insert_ensures(gi, 0int);
                old(self).group_size@.insert_ensures(gi, 0usize);
            }
            assert(self@ =~~= target);
            assert(self.wf());
        }
        Move::AddGroup { group }
    }

    /// Remove the empty group `g`: cut bit `g` out of every node's mask
    /// and drop the group's roster rows and size entry.
    pub fn remove_group(&mut self, group: usize) -> (m: Move)
        requires
            old(self).wf(),
            can_remove_group(old(self)@, group as int),
        ensures
            final(self).wf(),
            final(self)@ == sv_remove_group(old(self)@, group as int),
            m == (Move::RemoveGroup { group }),
    {
        let n = self.num_nodes;
        let g32 = self.num_groups as u32;
        let mut new_groups: Vec<u64> = Vec::new();
        let mut u: usize = 0;
        while u < n
            invariant
                u <= n,
                group < g32 <= 64,
                self.groups@ == old(self)@.groups,
                n == self.groups@.len(),
                new_groups@.len() == u,
                forall|k: int|
                    0 <= k < u ==> new_groups@[k] == spec_remove_bit_at(
                        old(self)@.groups[k],
                        group as u64,
                        g32 as u64,
                    ),
            decreases n - u,
        {
            let val = remove_bit_at(self.groups[u], group, g32);
            new_groups.push(val);
            u = u + 1;
        }
        self.groups = new_groups;
        self.nodes_in.remove_row(group);
        self.nodes_out.remove_row(group);
        self.group_size.remove(group);
        self.num_groups = self.num_groups - 1;
        proof {
            let v0 = old(self)@;
            let gi = group as int;
            let target = sv_remove_group(v0, gi);
            lemma_remove_group_wf(v0, gi);
            assert(self@.groups =~= target.groups);
            assert(self@.sizes =~= v0.sizes.remove(gi)) by {
                v0.sizes.remove_ensures(gi);
                old(self).group_size@.remove_ensures(gi);
            }
            assert(self@ =~~= target);
            assert(self.wf());
        }
        Move::RemoveGroup { group }
    }

    /// Remove the member at in-roster position `idx` of group `g`:
    /// swap-remove from the in-roster, append to the out-roster, clear
    /// the node's mask bit and decrement the group size.
    pub fn remove_node_from_group_by_idx(&mut self, group: usize, idx: usize) -> (m: Move)
        requires
            old(self).wf(),
            can_remove_node(old(self)@, group as int, idx as int),
        ensures
            final(self).wf(),
            final(self)@ == sv_remove_node(old(self)@, group as int, idx as int),
            m == (Move::RemoveNodeFromGroup {
                group,
                node: old(self)@.ins[group as int][idx as int] as usize,
                idx,
                old_state: old(self)@.groups[old(self)@.ins[group as int][idx as int] as int],
            }),
            can_apply(old(self)@, m),
            can_undo(final(self)@, m),
    {
        proof {
            lemma_remove_node_wf(old(self)@, group as int, idx as int);
            assert(in_row_ok(self@.ins[group as int], self@.sizes[group as int], self@.groups, group as u64));
        }
        let sz = self.group_size[group];
        let n_out = self.num_nodes - sz;
        let node_u = *self.nodes_in.get(group, idx);
        let node = node_u as usize;
        let last = *self.nodes_in.get(group, sz - 1);
        self.nodes_in.set(group, idx, last);
        self.nodes_out.set(group, n_out, node_u);
        let old_state = self.groups[node];
        proof {
            crate::bits::lemma_clear_bit(old(self)@.groups[node as int], group as u64);
        }
        let new_mask = old_state - (1u64 << (group as u32));
        self.groups.set(node, new_mask);
        self.group_size.set(group, sz - 1);
        proof {
            let target = sv_remove_node(old(self)@, group as int, idx as int);
            assert(self@.sizes =~= old(self)@.sizes.update(group as int, sz - 1));
            assert(self@ =~~= target);
        }
        Move::RemoveNodeFromGroup { group, node, idx, old_state }
    }

    /// Add the non-member at out-roster position `idx` to group `g`:
    /// swap-remove from the out-roster, append to the in-roster, set the
    /// node's mask bit and increment the group size.
    pub fn add_node_to_group_by_idx(&mut self, group: usize, idx: usize) -> (m: Move)
        requires
            old(self).wf(),
            can_add_node(old(self)@, group as int, idx as int),
        ensures
            final(self).wf(),
            final(self)@ == sv_add_node(old(self)@, group as int, idx as int),
            m == (Move::AddNodeToGroup {
                group,
                node: old(self)@.outs[group as int][idx as int] as usize,
                idx,
                old_state: old(self)@.groups[old(self)@.outs[group as int][idx as int] as int],
            }),
            can_apply(old(self)@, m),
            can_undo(final(self)@, m),
    {
        proof {
            lemma_add_node_wf(old(self)@, group as int, idx as int);
            assert(out_row_ok(self@.outs[group as int], self@.sizes[group as int], self@.groups, group as u64));
        }
        let sz = self.group_size[group];
        let n_out = self.num_nodes - sz;
        let node_u = *self.nodes_out.get(group, idx);
        let node = node_u as usize;
        let last = *self.nodes_out.get(group, n_out - 1);
        self.nodes_out.set(group, idx, last);
        self.nodes_in.set(group, sz, node_u);
        let old_state = self.groups[node];
        proof {
            crate::bits::lemma_set_bit(old(self)@.groups[node as int], group as u64);
        }
        let new_mask = old_state + (1u64 << (group as u32));
        self.groups.set(node, new_mask);
        self.group_size.set(group, sz + 1);
        proof {
            let target = sv_add_node(old(self)@, group as int, idx as int);
            assert(self@.sizes =~= old(self)@.sizes.update(group as int, sz + 1));
            assert(self@ =~~= target);
        }
        Move::AddNodeToGroup { group, node, idx, old_state }
    }

    /// Undo the group modifications of move `m`.  The masks, group count
    /// and group sizes return to their pre-move values; roster contents
    /// return to the same sets of nodes.
    pub fn undo_move(&mut self, m: Move)
        requires
            old(self).wf(),
            can_undo(old(self)@, m),
        ensures
            final(self).wf(),
            final(self)@ == sv_undo(old(self)@, m),
    {
        match m {
            Move::RemoveGroup { group } => {
                self.add_group(group);
            },
            Move::AddGroup { group } => {
                self.remove_group(group);
            },
            Move::RemoveNodeFromGroup { group, node, idx, old_state: _ } => {
                let sz1 = self.group_size[group] + 1;
                self.group_size.set(group, sz1);
                let n_out = self.num_nodes - sz1;
                self.nodes_out.set(group, n_out, 0xffff_ffffu32);
                self.nodes_in.set(group, idx, node as u32);
                proof {
                    crate::bits::lemma_set_bit(old(self)@.groups[node as int], group as u64);
                }
                let new_mask = self.groups[node] + (1u64 << (group as u32));
                self.groups.set(node, new_mask);
                proof {
                    lemma_undo_remove_node_wf(old(self)@, group as int, node as int, idx as int);
                    let target = sv_undo(old(self)@, m);
                    assert(self@.sizes =~= old(self)@.sizes.update(group as int, sz1 as int));
                    assert(self@ =~~= target);
                }
            },
            Move::AddNodeToGroup { group, node, idx, old_state: _ } => {
                let sz1 = self.group_size[group] - 1;
                self.group_size.set(group, sz1);
                self.nodes_in.set(group, sz1, 0xffff_ffffu32);
                self.nodes_out.set(group, idx, node as u32);
                proof {
                    crate::bits::lemma_clear_bit(old(self)@.groups[node as int], group as u64);
                }
                let new_mask = self.groups[node] - (1u64 << (group as u32));
                self.groups.set(node, new_mask);
                proof {
                    lemma_undo_add_node_wf(old(self)@, group as int, node as int, idx as int);
                    let target = sv_undo(old(self)@, m);
                    assert(self@.sizes =~= old(self)@.sizes.update(group as int, sz1 as int));
                    assert(self@ =~~= target);
                }
            },
        }
    }

    /// Highest common group of two nodes.
    pub fn hcg(&self, u: usize, v: usize) -> (b: usize)
        requires
            self.wf(),
            u < self@.num_nodes,
            v < self@.num_nodes,
        ensures
            b == spec_hcg(self@.groups[u as int], self@.groups[v as int], self@.num_groups),
            0 <= b < self@.num_groups,
    {
        self.hcg_node(self.groups[u], v)
    }

    /// Highest common group of a given mask (a node's pre-move state)
    /// against a node's current mask.
    pub fn hcg_node(&self, old_state: u64, v: usize) -> (b: usize)
        requires
            self.wf(),
            u64_bit(old_state, 0),
            v < self@.num_nodes,
        ensures
            b == spec_hcg(old_state, self@.groups[v as int], self@.num_groups),
            0 <= b < self@.num_groups,
    {
        let g = self.num_groups as u32;
        proof {
            assert(g < 64 ==> (1u64 << g) >= 1) by (bit_vector);
        }
        let group_mask = if g == 64 {
            0xffff_ffff_ffff_ffffu64
        } else {
            (1u64 << g) - 1
        };
        proof {
            assert(group_mask == spec_low_mask(g as u64));
        }
        let m = old_state & self.groups[v] & group_mask;
        proof {
            let a = old_state;
            let bb = self@.groups[v as int];
            let gg = g as u64;
            assert(m >= 1 && (1 <= gg <= 64 ==> m >> gg == 0)) by (bit_vector)
                requires
                    m == a & bb & spec_low_mask(gg),
                    1 <= gg <= 64,
                    (a >> 0u64) & 1 == 1,
                    (bb >> 0u64) & 1 == 1,
            ;
        }
        let b = highest_set_bit(m);
        proof {
            let h = spec_highest_set_bit(m) as u64;
            let gg = g as u64;
            lemma_hsb_shift(m);
            assert(h < gg) by (bit_vector)
                requires
                    m >> h == 1,
                    m >> gg == 0,
                    1 <= gg <= 64,
            ;
        }
        b
    }
}

/// The member count is between 0 and the number of nodes.
pub proof fn lemma_member_count_bounds(groups: Seq<u64>, r: u64)
    ensures
        0 <= member_count(groups, r) <= groups.len(),
    decreases groups.len(),
{
    if groups.len() > 0 {
        lemma_member_count_bounds(groups.drop_last(), r);
    }
}

/// How the member count changes when one node's mask is replaced.
pub proof fn lemma_member_count_update(groups: Seq<u64>, r: u64, u: int, m: u64)
    requires
        0 <= u < groups.len(),
    ensures
        member_count(groups.update(u, m), r) == member_count(groups, r) + (if u64_bit(m, r) {
            1int
        } else {
            0int
        }) - (if u64_bit(groups[u], r) {
            1int
        } else {
            0int
        }),
    decreases groups.len(),
{
    let n = groups.len() - 1;
    let g2 = groups.update(u, m);
    if u == n {
        assert(g2.drop_last() =~= groups.drop_last());
        assert(g2.last() == m);
    } else {
        assert(g2.drop_last() =~= groups.drop_last().update(u, m));
        assert(g2.last() == groups.last());
        lemma_member_count_update(groups.drop_last(), r, u, m);
    }
}

/// Equal bit patterns across two mask sequences give equal member counts.
pub proof fn lemma_member_count_congruent(g1: Seq<u64>, g2: Seq<u64>, r1: u64, r2: u64)
    requires
        g1.len() == g2.len(),
        forall|u: int|
            0 <= u < g1.len() ==> (u64_bit(#[trigger] g2[u], r2) <==> u64_bit(g1[u], r1)),
    ensures
        member_count(g2, r2) == member_count(g1, r1),
    decreases g1.len(),
{
    if g1.len() > 0 {
        assert(u64_bit(g2.last(), r2) <==> u64_bit(g1.last(), r1));
        lemma_member_count_congruent(g1.drop_last(), g2.drop_last(), r1, r2);
    }
}

/// Node `x` sits in the valid prefix of the in-roster of group `r`.
pub open spec fn in_prefix_has(v: ModelView, r: int, x: u32) -> bool {
    exists|i: int| 0 <= i < v.sizes[r] && v.ins[r][i] == x
}

/// Node `x` sits in the valid prefix of the out-roster of group `r`.
pub open spec fn out_prefix_has(v: ModelView, r: int, x: u32) -> bool {
    exists|i: int| 0 <= i < v.num_nodes - v.sizes[r] && v.outs[r][i] == x
}

/// In a well-formed state the roster prefixes are determined as sets by
/// the masks: two such states with equal masks and sizes list the same
/// nodes in every prefix.
pub proof fn lemma_same_masks_same_prefix_sets(v: ModelView, w: ModelView)
    requires
        wf_view(v),
        wf_view(w),
        v.num_nodes <= 0x00ff_ffff,
        w.groups == v.groups,
        w.sizes == v.sizes,
        w.num_groups == v.num_groups,
        w.num_nodes == v.num_nodes,
    ensures
        forall|r: int, x: u32|
            0 <= r < v.num_groups ==> (#[trigger] in_prefix_has(v, r, x) <==> in_prefix_has(
                w,
                r,
                x,
            )),
        forall|r: int, x: u32|
            0 <= r < v.num_groups ==> (#[trigger] out_prefix_has(v, r, x) <==> out_prefix_has(
                w,
                r,
                x,
            )),
{
    assert forall|r: int, x: u32| 0 <= r < v.num_groups implies (#[trigger] in_prefix_has(v, r, x)
        <==> in_prefix_has(w, r, x)) by {
        lemma_prefix_transfer(v, w, r, x);
        lemma_prefix_transfer(w, v, r, x);
    }
    assert forall|r: int, x: u32| 0 <= r < v.num_groups implies (#[trigger] out_prefix_has(v, r, x)
        <==> out_prefix_has(w, r, x)) by {
        lemma_prefix_transfer(v, w, r, x);
        lemma_prefix_transfer(w, v, r, x);
    }
}

/// One direction of `lemma_same_masks_same_prefix_sets`.
proof fn lemma_prefix_transfer(v: ModelView, w: ModelView, r: int, x: u32)
    requires
        wf_view(v),
        wf_view(w),
        v.num_nodes <= 0x00ff_ffff,
        w.groups == v.groups,
        w.sizes == v.sizes,
        w.num_groups == v.num_groups,
        w.num_nodes == v.num_nodes,
        0 <= r < v.num_groups,
    ensures
        in_prefix_has(v, r, x) ==> in_prefix_has(w, r, x),
        out_prefix_has(v, r, x) ==> out_prefix_has(w, r, x),
{
    assert(in_row_ok(v.ins[r], v.sizes[r], v.groups, r as u64));
    assert(out_row_ok(v.outs[r], v.sizes[r], v.groups, r as u64));
    assert(in_row_ok(w.ins[r], w.sizes[r], w.groups, r as u64));
    assert(out_row_ok(w.outs[r], w.sizes[r], w.groups, r as u64));
    if in_prefix_has(v, r, x) {
        let i = choose|i: int| 0 <= i < v.sizes[r] && v.ins[r][i] == x;
        let id = x as int;
        assert(v.ins[r][i] == x && x < v.num_nodes as u32);
        assert(u64_bit(v.groups[id], r as u64));
        let j = choose|j: int| 0 <= j < w.sizes[r] && w.ins[r][j] == id as u32;
        assert(w.ins[r][j] == x);
    }
    if out_prefix_has(v, r, x) {
        let i = choose|i: int| 0 <= i < v.num_nodes - v.sizes[r] && v.outs[r][i] == x;
        let id = x as int;
        assert(v.outs[r][i] == x && x < v.num_nodes as u32);
        assert(!u64_bit(v.groups[id], r as u64));
        let j = choose|j: int| 0 <= j < w.num_nodes - w.sizes[r] && w.outs[r][j] == id as u32;
        assert(w.outs[r][j] == x);
    }
}

/// Applying any move and then undoing it restores the masks, the group
/// count and the group sizes exactly, and every roster prefix as a set
/// of nodes.
pub proof fn lemma_apply_undo(v: ModelView, m: Move)
    requires
        wf_view(v),
        v.num_nodes <= 0x00ff_ffff,
        can_apply(v, m),
    ensures
        wf_view(sv_apply(v, m)),
        can_undo(sv_apply(v, m), m),
        (sv_undo(sv_apply(v, m), m)).groups == v.groups,
        (sv_undo(sv_apply(v, m), m)).sizes == v.sizes,
        (sv_undo(sv_apply(v, m), m)).num_groups == v.num_groups,
        (sv_undo(sv_apply(v, m), m)).num_nodes == v.num_nodes,
        (sv_undo(sv_apply(v, m), m)).max_groups == v.max_groups,
        wf_view(sv_undo(sv_apply(v, m), m)),
        forall|r: int, x: u32|
            0 <= r < v.num_groups ==> (#[trigger] in_prefix_has(sv_undo(sv_apply(v, m), m), r, x)
                <==> in_prefix_has(v, r, x)),
        forall|r: int, x: u32|
            0 <= r < v.num_groups ==> (#[trigger] out_prefix_has(sv_undo(sv_apply(v, m), m), r, x)
                <==> out_prefix_has(v, r, x)),
{
    let w1 = sv_apply(v, m);
    let w2 = sv_undo(w1, m);
    match m {
        Move::AddGroup { group } => {
            let g = group as int;
            lemma_add_remove_group_identity(v, g);
            assert(w2 == v);
            lemma_same_masks_same_prefix_sets(v, w2);
        },
        Move::RemoveGroup { group } => {
            let g = group as int;
            lemma_remove_group_wf(v, g);
            lemma_add_group_wf(w1, g);
            lemma_empty_group_no_bits(v, g);
            assert forall|u: int| 0 <= u < v.num_nodes implies #[trigger] w2.groups[u]
                == v.groups[u] by {
                crate::bits::lemma_insert_remove_roundtrip(
                    v.groups[u],
                    group as u64,
                    v.num_groups as u64,
                );
            }
            assert(w2.groups =~= v.groups);
            assert(w2.sizes =~= v.sizes) by {
                v.sizes.remove_ensures(g);
                v.sizes.remove(g).insert_ensures(g, 0int);
                assert forall|r: int| 0 <= r < v.num_groups implies w2.sizes[r] == v.sizes[r] by {
                    if r > g {
                        assert(v.sizes.remove(g).insert(g, 0int)[(r - 1) + 1] == v.sizes.remove(
                            g,
                        )[r - 1]);
                        assert(v.sizes.remove(g)[(r - 1 - g) + g] == v.sizes[r - 1 - g + g + 1]);
                    }
                }
            }
            lemma_same_masks_same_prefix_sets(v, w2);
        },
        Move::RemoveNodeFromGroup { group, node, idx, old_state } => {
            let g = group as int;
            lemma_remove_node_wf(v, g, idx as int);
            lemma_undo_remove_node_wf(w1, g, node as int, idx as int);
            let irow = v.ins[g];
            let sz = v.sizes[g];
            assert(w2.groups =~= v.groups);
            assert(w2.sizes =~= v.sizes);
            assert(w2.ins =~~= v.ins) by {
                assert(w2.ins[g] =~= irow) by {
                    assert(w1.ins[g] == irow.update(idx as int, irow[sz - 1]));
                    assert(w2.ins[g] == w1.ins[g].update(idx as int, node as u32));
                }
            }
            lemma_same_masks_same_prefix_sets(v, w2);
        },
        Move::AddNodeToGroup { group, node, idx, old_state } => {
            let g = group as int;
            lemma_add_node_wf(v, g, idx as int);
            lemma_undo_add_node_wf(w1, g, node as int, idx as int);
            let orow = v.outs[g];
            let sz = v.sizes[g];
            let n_out = v.num_nodes - sz;
            assert(w2.groups =~= v.groups);
            assert(w2.sizes =~= v.sizes);
            assert(w2.outs =~~= v.outs) by {
                assert(w2.outs[g] =~= orow) by {
                    assert(w1.outs[g] == orow.update(idx as int, orow[n_out - 1]));
                    assert(w2.outs[g] == w1.outs[g].update(idx as int, node as u32));
                }
            }
            lemma_same_masks_same_prefix_sets(v, w2);
        },
    }
}

/// Adding an empty group and removing it again is the identity on the
/// whole model state.
pub proof fn lemma_add_remove_group_identity(v: ModelView, g: int)
    requires
        wf_view(v),
        v.num_nodes <= 0x00ff_ffff,
        can_add_group(v, g),
    ensures
        wf_view(sv_add_group(v, g)),
        can_remove_group(sv_add_group(v, g), g),
        sv_remove_group(sv_add_group(v, g), g) == v,
{
    let w1 = sv_add_group(v, g);
    let w2 = sv_remove_group(w1, g);
    lemma_add_group_wf(v, g);
    assert forall|u: int| 0 <= u < v.num_nodes implies #[trigger] w2.groups[u] == v.groups[u] by {
        crate::bits::lemma_remove_insert_roundtrip(v.groups[u], g as u64, v.num_groups as u64);
    }
    assert(w2.groups =~= v.groups);
    let rowm = Seq::new(v.num_nodes as nat, |i: int| 0xffff_ffffu32);
    let rowi = Seq::new(v.num_nodes as nat, |i: int| i as u32);
    assert(w2.ins =~~= v.ins) by {
        v.ins.insert_ensures(g, rowm);
        v.ins.insert(g, rowm).remove_ensures(g);
        assert forall|r: int| 0 <= r < v.num_groups implies w2.ins[r] == v.ins[r] by {
            if r >= g {
                assert(v.ins.insert(g, rowm).remove(g)[r] == v.ins.insert(g, rowm)[r + 1]);
                assert(v.ins.insert(g, rowm)[r + 1] == v.ins[r]);
            }
        }
    }
    assert(w2.outs =~~= v.outs) by {
        v.outs.insert_ensures(g, rowi);
        v.outs.insert(g, rowi).remove_ensures(g);
        assert forall|r: int| 0 <= r < v.num_groups implies w2.outs[r] == v.outs[r] by {
            if r >= g {
                assert(v.outs.insert(g, rowi).remove(g)[r] == v.outs.insert(g, rowi)[r + 1]);
                assert(v.outs.insert(g, rowi)[r + 1] == v.outs[r]);
            }
        }
    }
    assert(w2.sizes =~= v.sizes) by {
        v.sizes.insert_ensures(g, 0int);
        v.sizes.insert(g, 0int).remove_ensures(g);
        assert forall|r: int| 0 <= r < v.num_groups implies w2.sizes[r] == v.sizes[r] by {
            if r >= g {
                assert(v.sizes.insert(g, 0int).remove(g)[r] == v.sizes.insert(g, 0int)[r + 1]);
                assert(v.sizes.insert(g, 0int)[r + 1] == v.sizes[r]);
            }
        }
    }
    assert(w2 =~~= v);
}

/// A bit set nowhere counts zero members.
pub proof fn lemma_member_count_zero(groups: Seq<u64>, r: u64)
    requires
        forall|u: int| 0 <= u < groups.len() ==> !u64_bit(#[trigger] groups[u], r),
    ensures
        member_count(groups, r) == 0,
    decreases groups.len(),
{
    if groups.len() > 0 {
        lemma_member_count_zero(groups.drop_last(), r);
    }
}

/// An in-roster row stays valid when the masks keep the same bit pattern
/// under a renamed group bit.
pub proof fn lemma_in_row_ok_congruent(row: Seq<u32>, sz: int, g1: Seq<u64>, g2: Seq<u64>, r1: u64, r2: u64)
    requires
        in_row_ok(row, sz, g1, r1),
        g1.len() == g2.len(),
        forall|u: int| 0 <= u < g1.len() ==> (u64_bit(#[trigger] g2[u], r2) <==> u64_bit(g1[u], r1)),
    ensures
        in_row_ok(row, sz, g2, r2),
{
    assert forall|w: int| 0 <= w < g2.len() && #[trigger] u64_bit(g2[w], r2) implies exists|i: int|
        0 <= i < sz && row[i] == w as u32 by {
        assert(u64_bit(g1[w], r1));
        let i = choose|i: int| 0 <= i < sz && row[i] == w as u32;
        assert(0 <= i < sz && row[i] == w as u32);
    }
}

/// The out-roster counterpart of `lemma_in_row_ok_congruent`.
pub proof fn lemma_out_row_ok_congruent(row: Seq<u32>, sz: int, g1: Seq<u64>, g2: Seq<u64>, r1: u64, r2: u64)
    requires
        out_row_ok(row, sz, g1, r1),
        g1.len() == g2.len(),
        forall|u: int| 0 <= u < g1.len() ==> (u64_bit(#[trigger] g2[u], r2) <==> u64_bit(g1[u], r1)),
    ensures
        out_row_ok(row, sz, g2, r2),
{
    assert forall|w: int| 0 <= w < g2.len() && !(#[trigger] u64_bit(g2[w], r2)) implies exists|i: int|
        0 <= i < g2.len() - sz && row[i] == w as u32 by {
        assert(!u64_bit(g1[w], r1));
        let i = choose|i: int| 0 <= i < g1.len() - sz && row[i] == w as u32;
        assert(0 <= i < g2.len() - sz && row[i] == w as u32);
    }
}

/// Inserting an empty group preserves the model invariant.
pub proof fn lemma_add_group_wf(v: ModelView, g: int)
    requires
        wf_view(v),
        can_add_group(v, g),
        v.num_nodes <= 0x00ff_ffff,
    ensures
        wf_view(sv_add_group(v, g)),
{
    let w = sv_add_group(v, g);
    let gb = g as u64;
    let gw = v.num_groups as u64;
    assert forall|u: int| 0 <= u < v.num_nodes implies {
        &&& mask_ok(#[trigger] w.groups[u], w.num_groups)
        &&& (forall|r: u64| r < gb ==> u64_bit(w.groups[u], r) == u64_bit(v.groups[u], r))
        &&& !u64_bit(w.groups[u], gb)
        &&& (forall|r: u64| gb < r <= gw ==> u64_bit(w.groups[u], r) == u64_bit(v.groups[u], (r - 1) as u64))
    } by {
        crate::bits::lemma_insert_zero_bits(v.groups[u], gb, gw);
        assert(u64_bit(w.groups[u], 0) == u64_bit(v.groups[u], 0));
        let m0 = w.groups[u];
        assert forall|k: u64| (gw + 1) <= k <= 64 implies mask_fits(m0, k) by {
            let k1 = (gw + 1) as u64;
            assert(mask_fits(m0, k1) && k1 <= k <= 64 ==> mask_fits(m0, k)) by (bit_vector);
        }
    }
    assert forall|r: int| 0 <= r < w.num_groups implies {
        &&& #[trigger] w.sizes[r] == member_count(w.groups, r as u64)
        &&& in_row_ok(w.ins[r], w.sizes[r], w.groups, r as u64)
        &&& out_row_ok(w.outs[r], w.sizes[r], w.groups, r as u64)
        &&& w.ins[r].len() == w.num_nodes
        &&& w.outs[r].len() == w.num_nodes
    } by {
        let rowm = Seq::new(v.num_nodes as nat, |i: int| 0xffff_ffffu32);
        let rowi = Seq::new(v.num_nodes as nat, |i: int| i as u32);
        v.ins.insert_ensures(g, rowm);
        v.outs.insert_ensures(g, rowi);
        v.sizes.insert_ensures(g, 0int);
        if r < g {
            assert(w.ins[r] == v.ins[r] && w.outs[r] == v.outs[r] && w.sizes[r] == v.sizes[r]);
            lemma_member_count_congruent(v.groups, w.groups, r as u64, r as u64);
            lemma_in_row_ok_congruent(v.ins[r], v.sizes[r], v.groups, w.groups, r as u64, r as u64);
            lemma_out_row_ok_congruent(v.outs[r], v.sizes[r], v.groups, w.groups, r as u64, r as u64);
        } else if r == g {
            assert(w.sizes[r] == 0);
            lemma_member_count_zero(w.groups, gb);
            assert(w.ins[r] == Seq::new(v.num_nodes as nat, |i: int| 0xffff_ffffu32));
            assert(w.outs[r] == Seq::new(v.num_nodes as nat, |i: int| i as u32));
            assert forall|x: int| 0 <= x < w.groups.len() && !(#[trigger] u64_bit(
                w.groups[x],
                gb,
            )) implies exists|i: int| 0 <= i < w.groups.len() - 0 && w.outs[r][i] == x as u32 by {
                assert(w.outs[r][x] == x as u32);
            }
        } else {
            assert(v.ins.insert(g, rowm)[(r - 1) + 1] == v.ins[r - 1]);
            assert(v.outs.insert(g, rowi)[(r - 1) + 1] == v.outs[r - 1]);
            assert(v.sizes.insert(g, 0int)[(r - 1) + 1] == v.sizes[r - 1]);
            assert(w.ins[r] == v.ins[r - 1] && w.outs[r] == v.outs[r - 1]);
            assert(w.sizes[r] == v.sizes[r - 1]);
            lemma_member_count_congruent(v.groups, w.groups, (r - 1) as u64, r as u64);
            lemma_in_row_ok_congruent(
                v.ins[r - 1],
                v.sizes[r - 1],
                v.groups,
                w.groups,
                (r - 1) as u64,
                r as u64,
            );
            lemma_out_row_ok_congruent(
                v.outs[r - 1],
                v.sizes[r - 1],
                v.groups,
                w.groups,
                (r - 1) as u64,
                r as u64,
            );
        }
    }
}

/// In a well-formed state an empty group has its bit set in no mask.
pub proof fn lemma_empty_group_no_bits(v: ModelView, g: int)
    requires
        wf_view(v),
        0 <= g < v.num_groups,
        v.sizes[g] == 0,
    ensures
        forall|u: int| 0 <= u < v.num_nodes ==> !u64_bit(#[trigger] v.groups[u], g as u64),
{
    assert forall|u: int| 0 <= u < v.num_nodes implies !u64_bit(#[trigger] v.groups[u], g as u64) by {
        if u64_bit(v.groups[u], g as u64) {
            assert(in_row_ok(v.ins[g], v.sizes[g], v.groups, g as u64));
            let i = choose|i: int| 0 <= i < v.sizes[g] && v.ins[g][i] == u as u32;
            assert(false);
        }
    }
}

/// Removing a member from a group preserves the model invariant, and
/// leaves the state in exactly the shape its undo expects.
pub proof fn lemma_remove_node_wf(v: ModelView, g: int, idx: int)
    requires
        wf_view(v),
        can_remove_node(v, g, idx),
        v.num_nodes <= 0x00ff_ffff,
    ensures
        wf_view(sv_remove_node(v, g, idx)),
        can_undo(
            sv_remove_node(v, g, idx),
            (Move::RemoveNodeFromGroup {
                group: g as usize,
                node: v.ins[g][idx] as usize,
                idx: idx as usize,
                old_state: v.groups[v.ins[g][idx] as int],
            }),
        ),
{
    let w = sv_remove_node(v, g, idx);
    let gb = g as u64;
    let irow = v.ins[g];
    let orow = v.outs[g];
    let node = irow[idx] as int;
    let sz = v.sizes[g];
    let nn = v.num_nodes;
    assert(in_row_ok(irow, sz, v.groups, gb));
    assert(out_row_ok(orow, sz, v.groups, gb));
    assert(node < nn && u64_bit(v.groups[node], gb));
    crate::bits::lemma_clear_bit(v.groups[node], gb);
    let nm = (v.groups[node] - (1u64 << gb)) as u64;
    assert(w.groups == v.groups.update(node, nm));
    assert forall|x: int| 0 <= x < nn implies mask_ok(#[trigger] w.groups[x], w.num_groups) by {
        if x == node {
            assert(u64_bit(nm, 0) == u64_bit(v.groups[node], 0));
            assert(mask_fits(nm, v.num_groups as u64));
        }
    }
    assert forall|r: int| 0 <= r < w.num_groups implies {
        &&& #[trigger] w.sizes[r] == member_count(w.groups, r as u64)
        &&& in_row_ok(w.ins[r], w.sizes[r], w.groups, r as u64)
        &&& out_row_ok(w.outs[r], w.sizes[r], w.groups, r as u64)
    } by {
        lemma_member_count_update(v.groups, r as u64, node, nm);
        if r != g {
            assert(u64_bit(nm, r as u64) == u64_bit(v.groups[node], r as u64));
            lemma_in_row_ok_congruent(v.ins[r], v.sizes[r], v.groups, w.groups, r as u64, r as u64);
            lemma_out_row_ok_congruent(
                v.outs[r],
                v.sizes[r],
                v.groups,
                w.groups,
                r as u64,
                r as u64,
            );
        } else {
            let ni = w.ins[g];
            let no = w.outs[g];
            assert(ni == irow.update(idx, irow[sz - 1]));
            assert(no == orow.update(nn - sz, node as u32));
            assert(w.sizes[g] == sz - 1);
            // in-row membership and injectivity
            assert forall|i: int| 0 <= i < sz - 1 implies (#[trigger] ni[i]) < nn && u64_bit(
                w.groups[ni[i] as int],
                gb,
            ) by {
                let e = ni[i] as int;
                if i == idx {
                    assert(ni[i] == irow[sz - 1]);
                    assert(e != node);
                } else {
                    assert(ni[i] == irow[i]);
                    assert(e != node);
                }
            }
            assert forall|i: int, j: int| 0 <= i < j < sz - 1 implies ni[i] != ni[j] by {
                let oi = if i == idx { sz - 1 } else { i };
                let oj = if j == idx { sz - 1 } else { j };
                assert(ni[i] == irow[oi] && ni[j] == irow[oj]);
                assert(oi != oj);
            }
            // in-row completeness
            assert forall|x: int| 0 <= x < nn && #[trigger] u64_bit(w.groups[x], gb)
                implies exists|i: int| 0 <= i < sz - 1 && ni[i] == x as u32 by {
                assert(x != node);
                assert(u64_bit(v.groups[x], gb));
                let i = choose|i: int| 0 <= i < sz && irow[i] == x as u32;
                if i == idx {
                    assert(x == node);
                    assert(false);
                } else if i == sz - 1 {
                    assert(idx < sz - 1);
                    assert(ni[idx] == x as u32);
                } else {
                    assert(ni[i] == x as u32);
                }
            }
            // out-row membership and injectivity
            assert forall|i: int| 0 <= i < nn - (sz - 1) implies (#[trigger] no[i]) < nn
                && !u64_bit(w.groups[no[i] as int], gb) by {
                if i == nn - sz {
                    assert(no[i] == node as u32);
                } else {
                    assert(no[i] == orow[i]);
                    assert(no[i] as int != node);
                }
            }
            assert forall|i: int, j: int| 0 <= i < j < nn - (sz - 1) implies no[i] != no[j] by {
                if j == nn - sz {
                    assert(no[i] == orow[i] && orow[i] as int != node);
                } else {
                    assert(no[i] == orow[i] && no[j] == orow[j]);
                }
            }
            // out-row completeness
            assert forall|x: int| 0 <= x < nn && !(#[trigger] u64_bit(w.groups[x], gb))
                implies exists|i: int| 0 <= i < nn - (sz - 1) && no[i] == x as u32 by {
                if x == node {
                    assert(no[nn - sz] == x as u32);
                } else {
                    assert(!u64_bit(v.groups[x], gb));
                    let i = choose|i: int| 0 <= i < nn - sz && orow[i] == x as u32;
                    assert(no[i] == x as u32);
                }
            }
        }
    }
    // shape expected by undo
    assert(w.outs[g][nn - w.sizes[g] - 1] == node as u32);
    if idx < sz - 1 {
        assert(w.ins[g][sz - 1] == irow[sz - 1] && w.ins[g][idx] == irow[sz - 1]);
    }
}

/// Adding a non-member to a group preserves the model invariant, and
/// leaves the state in exactly the shape its undo expects.
pub proof fn lemma_add_node_wf(v: ModelView, g: int, idx: int)
    requires
        wf_view(v),
        can_add_node(v, g, idx),
        v.num_nodes <= 0x00ff_ffff,
    ensures
        wf_view(sv_add_node(v, g, idx)),
        can_undo(
            sv_add_node(v, g, idx),
            (Move::AddNodeToGroup {
                group: g as usize,
                node: v.outs[g][idx] as usize,
                idx: idx as usize,
                old_state: v.groups[v.outs[g][idx] as int],
            }),
        ),
{
    let w = sv_add_node(v, g, idx);
    let gb = g as u64;
    let irow = v.ins[g];
    let orow = v.outs[g];
    let node = orow[idx] as int;
    let sz = v.sizes[g];
    let nn = v.num_nodes;
    let n_out = nn - sz;
    assert(in_row_ok(irow, sz, v.groups, gb));
    assert(out_row_ok(orow, sz, v.groups, gb));
    assert(node < nn && !u64_bit(v.groups[node], gb));
    crate::bits::lemma_set_bit(v.groups[node], gb);
    let nm = (v.groups[node] + (1u64 << gb)) as u64;
    assert(w.groups == v.groups.update(node, nm));
    assert forall|x: int| 0 <= x < nn implies mask_ok(#[trigger] w.groups[x], w.num_groups) by {
        if x == node {
            assert(u64_bit(nm, 0) == u64_bit(v.groups[node], 0));
            assert(mask_fits(nm, v.num_groups as u64));
        }
    }
    assert forall|r: int| 0 <= r < w.num_groups implies {
        &&& #[trigger] w.sizes[r] == member_count(w.groups, r as u64)
        &&& in_row_ok(w.ins[r], w.sizes[r], w.groups, r as u64)
        &&& out_row_ok(w.outs[r], w.sizes[r], w.groups, r as u64)
    } by {
        lemma_member_count_update(v.groups, r as u64, node, nm);
        if r != g {
            assert(u64_bit(nm, r as u64) == u64_bit(v.groups[node], r as u64));
            lemma_in_row_ok_congruent(v.ins[r], v.sizes[r], v.groups, w.groups, r as u64, r as u64);
            lemma_out_row_ok_congruent(
                v.outs[r],
                v.sizes[r],
                v.groups,
                w.groups,
                r as u64,
                r as u64,
            );
        } else {
            let ni = w.ins[g];
            let no = w.outs[g];
            assert(ni == irow.update(sz, node as u32));
            assert(no == orow.update(idx, orow[n_out - 1]));
            assert(w.sizes[g] == sz + 1);
            // in-row membership and injectivity
            assert forall|i: int| 0 <= i < sz + 1 implies (#[trigger] ni[i]) < nn && u64_bit(
                w.groups[ni[i] as int],
                gb,
            ) by {
                if i == sz {
                    assert(ni[i] == node as u32);
                } else {
                    assert(ni[i] == irow[i]);
                    assert(ni[i] as int != node);
                }
            }
            assert forall|i: int, j: int| 0 <= i < j < sz + 1 implies ni[i] != ni[j] by {
                if j == sz {
                    assert(ni[i] == irow[i] && irow[i] as int != node);
                } else {
                    assert(ni[i] == irow[i] && ni[j] == irow[j]);
                }
            }
            // in-row completeness
            assert forall|x: int| 0 <= x < nn && #[trigger] u64_bit(w.groups[x], gb)
                implies exists|i: int| 0 <= i < sz + 1 && ni[i] == x as u32 by {
                if x == node {
                    assert(ni[sz] == x as u32);
                } else {
                    assert(u64_bit(v.groups[x], gb));
                    let i = choose|i: int| 0 <= i < sz && irow[i] == x as u32;
                    assert(ni[i] == x as u32);
                }
            }
            // out-row membership and injectivity
            assert forall|i: int| 0 <= i < n_out - 1 implies (#[trigger] no[i]) < nn && !u64_bit(
                w.groups[no[i] as int],
                gb,
            ) by {
                let e = no[i] as int;
                if i == idx {
                    assert(no[i] == orow[n_out - 1]);
                    assert(e != node);
                } else {
                    assert(no[i] == orow[i]);
                    assert(e != node);
                }
            }
            assert forall|i: int, j: int| 0 <= i < j < n_out - 1 implies no[i] != no[j] by {
                let oi = if i == idx { n_out - 1 } else { i };
                let oj = if j == idx { n_out - 1 } else { j };
                assert(no[i] == orow[oi] && no[j] == orow[oj]);
                assert(oi != oj);
            }
            // out-row completeness
            assert forall|x: int| 0 <= x < nn && !(#[trigger] u64_bit(w.groups[x], gb))
                implies exists|i: int| 0 <= i < n_out - 1 && no[i] == x as u32 by {
                assert(x != node);
                assert(!u64_bit(v.groups[x], gb));
                let i = choose|i: int| 0 <= i < n_out && orow[i] == x as u32;
                if i == idx {
                    assert(x == node);
                    assert(false);
                } else if i == n_out - 1 {
                    assert(idx < n_out - 1);
                    assert(no[idx] == x as u32);
                } else {
                    assert(no[i] == x as u32);
                }
            }
        }
    }
    // shape expected by undo
    assert(w.ins[g][w.sizes[g] - 1] == node as u32);
    if idx < n_out - 1 {
        assert(w.outs[g][n_out - 1] == orow[n_out - 1] && w.outs[g][idx] == orow[n_out - 1]);
    }
}

/// Undoing a member removal preserves the model invariant.
pub proof fn lemma_undo_remove_node_wf(v: ModelView, g: int, node: int, idx: int)
    requires
        wf_view(v),
        v.num_nodes <= 0x00ff_ffff,
        can_undo(
            v,
            (Move::RemoveNodeFromGroup {
                group: g as usize,
                node: node as usize,
                idx: idx as usize,
                old_state: (v.groups[node] + (1u64 << g as u64)) as u64,
            }),
        ),
        0 <= g < v.num_groups,
        0 <= node < v.num_nodes,
        0 <= idx <= 0x00ff_ffff,
    ensures
        wf_view(
            sv_undo(
                v,
                (Move::RemoveNodeFromGroup {
                    group: g as usize,
                    node: node as usize,
                    idx: idx as usize,
                    old_state: (v.groups[node] + (1u64 << g as u64)) as u64,
                }),
            ),
        ),
{
    let m = Move::RemoveNodeFromGroup {
        group: g as usize,
        node: node as usize,
        idx: idx as usize,
        old_state: (v.groups[node] + (1u64 << g as u64)) as u64,
    };
    let w = sv_undo(v, m);
    let gb = g as u64;
    let irow = v.ins[g];
    let orow = v.outs[g];
    let sz = v.sizes[g];
    let nn = v.num_nodes;
    assert(in_row_ok(irow, sz, v.groups, gb));
    assert(out_row_ok(orow, sz, v.groups, gb));
    crate::bits::lemma_set_bit(v.groups[node], gb);
    let nm = (v.groups[node] + (1u64 << gb)) as u64;
    assert(w.groups == v.groups.update(node, nm));
    assert(w.ins == v.ins.update(g, irow.update(idx, node as u32)));
    assert(w.outs == v.outs.update(g, orow.update(nn - sz - 1, 0xffff_ffffu32)));
    assert forall|x: int| 0 <= x < nn implies mask_ok(#[trigger] w.groups[x], w.num_groups) by {
        if x == node {
            assert(u64_bit(nm, 0) == u64_bit(v.groups[node], 0));
            assert(mask_fits(nm, v.num_groups as u64));
        }
    }
    assert forall|r: int| 0 <= r < w.num_groups implies {
        &&& #[trigger] w.sizes[r] == member_count(w.groups, r as u64)
        &&& in_row_ok(w.ins[r], w.sizes[r], w.groups, r as u64)
        &&& out_row_ok(w.outs[r], w.sizes[r], w.groups, r as u64)
    } by {
        lemma_member_count_update(v.groups, r as u64, node, nm);
        if r != g {
            assert(u64_bit(nm, r as u64) == u64_bit(v.groups[node], r as u64));
            lemma_in_row_ok_congruent(v.ins[r], v.sizes[r], v.groups, w.groups, r as u64, r as u64);
            lemma_out_row_ok_congruent(
                v.outs[r],
                v.sizes[r],
                v.groups,
                w.groups,
                r as u64,
                r as u64,
            );
        } else {
            let ni = w.ins[g];
            let no = w.outs[g];
            assert(ni == irow.update(idx, node as u32));
            assert(no == orow.update(nn - sz - 1, 0xffff_ffffu32));
            assert(w.sizes[g] == sz + 1);
            // in-row membership
            assert forall|i: int| 0 <= i < sz + 1 implies (#[trigger] ni[i]) < nn && u64_bit(
                w.groups[ni[i] as int],
                gb,
            ) by {
                if i == idx {
                    assert(ni[i] == node as u32);
                } else if i < sz {
                    assert(ni[i] == irow[i]);
                    assert(ni[i] as int != node);
                } else {
                    assert(i == sz && idx < sz);
                    assert(ni[i] == irow[sz] && irow[sz] == irow[idx]);
                    assert(irow[idx] < nn as u32 && u64_bit(v.groups[irow[idx] as int], gb));
                    assert(ni[i] as int != node);
                }
            }
            // in-row injectivity
            assert forall|i: int, j: int| 0 <= i < j < sz + 1 implies ni[i] != ni[j] by {
                if j == sz && idx < sz {
                    assert(ni[j] == irow[idx]);
                    if i == idx {
                        assert(ni[i] == node as u32);
                        assert(irow[idx] as int != node);
                    } else {
                        assert(ni[i] == irow[i]);
                    }
                } else if j == sz && idx == sz {
                    assert(ni[j] == node as u32);
                    assert(ni[i] == irow[i] && irow[i] as int != node);
                } else {
                    if i == idx {
                        assert(ni[i] == node as u32 && ni[j] == irow[j]);
                        assert(irow[j] as int != node);
                    } else if j == idx {
                        assert(ni[j] == node as u32 && ni[i] == irow[i]);
                        assert(irow[i] as int != node);
                    } else {
                        assert(ni[i] == irow[i] && ni[j] == irow[j]);
                    }
                }
            }
            // in-row completeness
            assert forall|x: int| 0 <= x < nn && #[trigger] u64_bit(w.groups[x], gb)
                implies exists|i: int| 0 <= i < sz + 1 && ni[i] == x as u32 by {
                if x == node {
                    assert(ni[idx] == x as u32);
                } else {
                    assert(u64_bit(v.groups[x], gb));
                    let i = choose|i: int| 0 <= i < sz && irow[i] == x as u32;
                    if i == idx {
                        assert(idx < sz);
                        assert(ni[sz] == irow[idx] && irow[idx] == x as u32);
                    } else {
                        assert(ni[i] == x as u32);
                    }
                }
            }
            // out-row membership and injectivity
            assert forall|i: int| 0 <= i < nn - (sz + 1) implies (#[trigger] no[i]) < nn
                && !u64_bit(w.groups[no[i] as int], gb) by {
                assert(no[i] == orow[i]);
                assert(orow[nn - sz - 1] == node as u32);
                assert(no[i] as int != node);
            }
            assert forall|i: int, j: int| 0 <= i < j < nn - (sz + 1) implies no[i] != no[j] by {
                assert(no[i] == orow[i] && no[j] == orow[j]);
            }
            // out-row completeness
            assert forall|x: int| 0 <= x < nn && !(#[trigger] u64_bit(w.groups[x], gb))
                implies exists|i: int| 0 <= i < nn - (sz + 1) && no[i] == x as u32 by {
                assert(x != node);
                assert(!u64_bit(v.groups[x], gb));
                let i = choose|i: int| 0 <= i < nn - sz && orow[i] == x as u32;
                if i == nn - sz - 1 {
                    assert(x == node);
                    assert(false);
                } else {
                    assert(no[i] == x as u32);
                }
            }
        }
    }
}

/// Undoing a member addition preserves the model invariant.
pub proof fn lemma_undo_add_node_wf(v: ModelView, g: int, node: int, idx: int)
    requires
        wf_view(v),
        v.num_nodes <= 0x00ff_ffff,
        can_undo(
            v,
            (Move::AddNodeToGroup {
                group: g as usize,
                node: node as usize,
                idx: idx as usize,
                old_state: (v.groups[node] - (1u64 << g as u64)) as u64,
            }),
        ),
        0 <= g < v.num_groups,
        0 <= node < v.num_nodes,
        0 <= idx <= 0x00ff_ffff,
    ensures
        wf_view(
            sv_undo(
                v,
                (Move::AddNodeToGroup {
                    group: g as usize,
                    node: node as usize,
                    idx: idx as usize,
                    old_state: (v.groups[node] - (1u64 << g as u64)) as u64,
                }),
            ),
        ),
{
    let m = Move::AddNodeToGroup {
        group: g as usize,
        node: node as usize,
        idx: idx as usize,
        old_state: (v.groups[node] - (1u64 << g as u64)) as u64,
    };
    let w = sv_undo(v, m);
    let gb = g as u64;
    let irow = v.ins[g];
    let orow = v.outs[g];
    let sz = v.sizes[g];
    let nn = v.num_nodes;
    let n_out = nn - sz;
    assert(in_row_ok(irow, sz, v.groups, gb));
    assert(out_row_ok(orow, sz, v.groups, gb));
    crate::bits::lemma_clear_bit(v.groups[node], gb);
    let nm = (v.groups[node] - (1u64 << gb)) as u64;
    assert(w.groups == v.groups.update(node, nm));
    assert(w.ins == v.ins.update(g, irow.update(sz - 1, 0xffff_ffffu32)));
    assert(w.outs == v.outs.update(g, orow.update(idx, node as u32)));
    assert forall|x: int| 0 <= x < nn implies mask_ok(#[trigger] w.groups[x], w.num_groups) by {
        if x == node {
            assert(u64_bit(nm, 0) == u64_bit(v.groups[node], 0));
            assert(mask_fits(nm, v.num_groups as u64));
        }
    }
    assert forall|r: int| 0 <= r < w.num_groups implies {
        &&& #[trigger] w.sizes[r] == member_count(w.groups, r as u64)
        &&& in_row_ok(w.ins[r], w.sizes[r], w.groups, r as u64)
        &&& out_row_ok(w.outs[r], w.sizes[r], w.groups, r as u64)
    } by {
        lemma_member_count_update(v.groups, r as u64, node, nm);
        if r != g {
            assert(u64_bit(nm, r as u64) == u64_bit(v.groups[node], r as u64));
            lemma_in_row_ok_congruent(v.ins[r], v.sizes[r], v.groups, w.groups, r as u64, r as u64);
            lemma_out_row_ok_congruent(
                v.outs[r],
                v.sizes[r],
                v.groups,
                w.groups,
                r as u64,
                r as u64,
            );
        } else {
            let ni = w.ins[g];
            let no = w.outs[g];
            assert(ni == irow.update(sz - 1, 0xffff_ffffu32));
            assert(no == orow.update(idx, node as u32));
            assert(w.sizes[g] == sz - 1);
            // in-row membership and injectivity
            assert forall|i: int| 0 <= i < sz - 1 implies (#[trigger] ni[i]) < nn && u64_bit(
                w.groups[ni[i] as int],
                gb,
            ) by {
                assert(ni[i] == irow[i]);
                assert(irow[sz - 1] == node as u32);
                assert(ni[i] as int != node);
            }
            assert forall|i: int, j: int| 0 <= i < j < sz - 1 implies ni[i] != ni[j] by {
                assert(ni[i] == irow[i] && ni[j] == irow[j]);
            }
            // in-row completeness
            assert forall|x: int| 0 <= x < nn && #[trigger] u64_bit(w.groups[x], gb)
                implies exists|i: int| 0 <= i < sz - 1 && ni[i] == x as u32 by {
                assert(x != node);
                assert(u64_bit(v.groups[x], gb));
                let i = choose|i: int| 0 <= i < sz && irow[i] == x as u32;
                if i == sz - 1 {
                    assert(x == node);
                    assert(false);
                } else {
                    assert(ni[i] == x as u32);
                }
            }
            // out-row membership
            assert forall|i: int| 0 <= i < n_out + 1 implies (#[trigger] no[i]) < nn && !u64_bit(
                w.groups[no[i] as int],
                gb,
            ) by {
                if i == idx {
                    assert(no[i] == node as u32);
                } else if i < n_out {
                    assert(no[i] == orow[i]);
                    assert(no[i] as int != node);
                } else {
                    assert(i == n_out && idx < n_out);
                    assert(no[i] == orow[n_out] && orow[n_out] == orow[idx]);
                    assert(orow[idx] < nn as u32 && !u64_bit(v.groups[orow[idx] as int], gb));
                    assert(no[i] as int != node);
                }
            }
            // out-row injectivity
            assert forall|i: int, j: int| 0 <= i < j < n_out + 1 implies no[i] != no[j] by {
                if j == n_out && idx < n_out {
                    assert(no[j] == orow[idx]);
                    if i == idx {
                        assert(no[i] == node as u32);
                        assert(orow[idx] as int != node);
                    } else {
                        assert(no[i] == orow[i]);
                    }
                } else if j == n_out && idx == n_out {
                    assert(no[j] == node as u32);
                    assert(no[i] == orow[i] && orow[i] as int != node);
                } else {
                    if i == idx {
                        assert(no[i] == node as u32 && no[j] == orow[j]);
                        assert(orow[j] as int != node);
                    } else if j == idx {
                        assert(no[j] == node as u32 && no[i] == orow[i]);
                        assert(orow[i] as int != node);
                    } else {
                        assert(no[i] == orow[i] && no[j] == orow[j]);
                    }
                }
            }
            // out-row completeness
            assert forall|x: int| 0 <= x < nn && !(#[trigger] u64_bit(w.groups[x], gb))
                implies exists|i: int| 0 <= i < n_out + 1 && no[i] == x as u32 by {
                if x == node {
                    assert(no[idx] == x as u32);
                } else {
                    assert(!u64_bit(v.groups[x], gb));
                    let i = choose|i: int| 0 <= i < n_out && orow[i] == x as u32;
                    if i == idx {
                        assert(idx < n_out);
                        assert(no[n_out] == orow[idx] && orow[idx] == x as u32);
                    } else {
                        assert(no[i] == x as u32);
                    }
                }
            }
        }
    }
}

/// Removing an empty group preserves the model invariant.
pub proof fn lemma_remove_group_wf(v: ModelView, g: int)
    requires
        wf_view(v),
        can_remove_group(v, g),
        v.num_nodes <= 0x00ff_ffff,
    ensures
        wf_view(sv_remove_group(v, g)),
{
    let w = sv_remove_group(v, g);
    let gb = g as u64;
    let gw = v.num_groups as u64;
    lemma_empty_group_no_bits(v, g);
    assert forall|u: int| 0 <= u < v.num_nodes implies {
        &&& mask_ok(#[trigger] w.groups[u], w.num_groups)
        &&& (forall|r: u64| r < gb ==> u64_bit(w.groups[u], r) == u64_bit(v.groups[u], r))
        &&& (forall|r: u64| gb <= r < gw - 1 ==> u64_bit(w.groups[u], r) == u64_bit(v.groups[u], (r + 1) as u64))
    } by {
        crate::bits::lemma_remove_bit_bits(v.groups[u], gb, gw);
        assert(u64_bit(w.groups[u], 0) == u64_bit(v.groups[u], 0));
        let m0 = w.groups[u];
        assert forall|k: u64| (gw - 1) <= k <= 64 implies mask_fits(m0, k) by {
            let k1 = (gw - 1) as u64;
            assert(mask_fits(m0, k1) && k1 <= k <= 64 ==> mask_fits(m0, k)) by (bit_vector);
        }
    }
    assert forall|r: int| 0 <= r < w.num_groups implies {
        &&& #[trigger] w.sizes[r] == member_count(w.groups, r as u64)
        &&& in_row_ok(w.ins[r], w.sizes[r], w.groups, r as u64)
        &&& out_row_ok(w.outs[r], w.sizes[r], w.groups, r as u64)
        &&& w.ins[r].len() == w.num_nodes
        &&& w.outs[r].len() == w.num_nodes
    } by {
        v.ins.remove_ensures(g);
        v.outs.remove_ensures(g);
        v.sizes.remove_ensures(g);
        if r >= g {
            assert(v.ins.remove(g)[r] == v.ins[r + 1]);
            assert(v.outs.remove(g)[r] == v.outs[r + 1]);
            assert(v.sizes.remove(g)[r] == v.sizes[r + 1]);
        }
        if r < g {
            assert(w.ins[r] == v.ins[r] && w.outs[r] == v.outs[r] && w.sizes[r] == v.sizes[r]);
            lemma_member_count_congruent(v.groups, w.groups, r as u64, r as u64);
            lemma_in_row_ok_congruent(v.ins[r], v.sizes[r], v.groups, w.groups, r as u64, r as u64);
            lemma_out_row_ok_congruent(v.outs[r], v.sizes[r], v.groups, w.groups, r as u64, r as u64);
        } else {
            assert(w.ins[r] == v.ins[r + 1] && w.outs[r] == v.outs[r + 1]);
            assert(w.sizes[r] == v.sizes[r + 1]);
            lemma_member_count_congruent(v.groups, w.groups, (r + 1) as u64, r as u64);
            lemma_in_row_ok_congruent(
                v.ins[r + 1],
                v.sizes[r + 1],
                v.groups,
                w.groups,
                (r + 1) as u64,
                r as u64,
            );
            lemma_out_row_ok_congruent(
                v.outs[r + 1],
                v.sizes[r + 1],
                v.groups,
                w.groups,
                (r + 1) as u64,
                r as u64,
            );
        }
    }
}

} // verus!
