//! Building the records of a tree level by level, from the values up.
//!
//! One call of `create_layer` makes the records of one level from the
//! values of the level below: for every run of `b` values, `b` being the
//! branch factor, that holds a value there is one node, numbered by the run.
//! The values are taken from the highest to the lowest, so that the records
//! of a level stand by falling index: read from the end, the list of all
//! records gives the stream's order.
//!
//! `create_layer` and `commit_current_node` work on any values and any list
//! of records. What they build where the values are a level of the tree of a
//! set is said by `lemma_layer_of_tree`.

use crate::branch_factor::{lemma_div_bounds, BranchFactor};
use crate::int_set::{Cursor, IntSet};
use crate::layers::{
    layer_nodes, layer_size, lemma_layer_nodes_elements, lemma_layer_nodes_remark, node_record,
    whole_layer, Node, NodeType,
};
use crate::tree::{child_is_full, child_is_present, node_full, node_present, or_bits};
use crate::tree_lemmas::{
    lemma_bit_or, lemma_full_present, lemma_full_split, lemma_or_bits_full, lemma_or_bits_gap,
    lemma_present_down, lemma_present_up, lemma_span_step,
};
use vstd::prelude::*;

verus! {

/// One more than the greatest number that a node can have.
pub open spec fn index_limit() -> int {
    0x1_0000_0000
}

/// Node `p` of the level above the values has a value below it: one of the
/// values `v` with `v / b == p`.
pub open spec fn node_above(values: Set<int>, bf: BranchFactor, p: int) -> bool {
    exists|v: int| #[trigger] values.contains(v) && v / (bf.spec_value() as int) == p
}

/// Node `p` of the level above has a value below it, and every one of the
/// `b` numbers below it is a value and is filled.
pub open spec fn filled_above(
    values: Set<int>,
    filled: Set<int>,
    bf: BranchFactor,
    p: int,
) -> bool {
    &&& node_above(values, bf, p)
    &&& forall|c: int|
        #![trigger values.contains(c)]
        #![trigger filled.contains(c)]
        p * bf.spec_value() <= c < p * bf.spec_value() + bf.spec_value() ==> values.contains(c)
            && filled.contains(c)
}

/// The word of node `p`: bit `j` is set where `p * b + j` is a value.
pub open spec fn bits_above(values: Set<int>, bf: BranchFactor, p: int) -> u32 {
    or_bits(|j: int| values.contains(p * bf.spec_value() + j), 0, bf.spec_value() as int)
}

/// The record of node `p` of the level above the values.
pub open spec fn record_above(
    values: Set<int>,
    filled: Set<int>,
    bf: BranchFactor,
    p: int,
) -> Node {
    Node {
        bits: bits_above(values, bf, p),
        parent_index: p as u32,
        node_type: if filled_above(values, filled, bf, p) {
            NodeType::Filled
        } else {
            NodeType::Standard
        },
    }
}

/// The records of the nodes of the level above the values whose number is
/// at least `lo` and below `hi`: one for every node that has a value below
/// it, by falling number.
pub open spec fn records_above(
    values: Set<int>,
    filled: Set<int>,
    bf: BranchFactor,
    lo: int,
    hi: int,
) -> Seq<Node>
    decreases hi - lo,
{
    if lo >= hi {
        Seq::empty()
    } else if node_above(values, bf, lo) {
        records_above(values, filled, bf, lo + 1, hi).push(record_above(values, filled, bf, lo))
    } else {
        records_above(values, filled, bf, lo + 1, hi)
    }
}

/// The record with the type `Skip`.
pub open spec fn skipping(n: Node) -> Node {
    Node { bits: n.bits, parent_index: n.parent_index, node_type: NodeType::Skip }
}

/// Record `i` is one of the last `child_count` of the first `len` records.
pub open spec fn in_block(len: int, child_count: int, i: int) -> bool {
    len >= child_count && len - child_count <= i < len
}

/// The number of the node of the level above below which the record's node
/// lies.
pub open spec fn number_above(n: Node, bf: BranchFactor) -> int {
    (n.parent_index as int) / (bf.spec_value() as int)
}

/// The records that were there before a level was built, after the nodes
/// numbered `top` and up of that level have been made: of the last
/// `child_count` of them those skip whose number lies below a filled node;
/// all others are as they were.
pub open spec fn looked_over(
    before: Seq<Node>,
    child_count: int,
    values: Set<int>,
    filled: Set<int>,
    bf: BranchFactor,
    top: int,
) -> Seq<Node> {
    Seq::new(
        before.len(),
        |i: int|
            if in_block(before.len() as int, child_count, i) && top <= number_above(before[i], bf)
                && filled_above(values, filled, bf, number_above(before[i], bf)) {
                skipping(before[i])
            } else {
                before[i]
            },
    )
}

/// The state of the encoder between two values of a level.
pub struct CreateLayerState {
    /// The nodes of this level that have a record.
    pub upper_indices: IntSet,
    /// Those of them that are filled.
    pub upper_filled_indices: IntSet,
    /// The node that is being put together.
    pub current_node: Option<Node>,
    /// The bit of every child of that node that is filled.
    pub current_node_filled_bits: u32,
    /// The number of records of the level below.
    pub child_count: usize,
    /// The number of records before this level was begun.
    pub nodes_init_length: usize,
    pub branch_factor: BranchFactor,
}

impl CreateLayerState {
    /// Whether the node that is being put together is filled: the bits of
    /// its filled children are the bits of all children.
    pub open spec fn current_is_filled(&self) -> bool {
        self.current_node_filled_bits == self.branch_factor.spec_u32_mask()
    }

    /// The records after `node` has been committed: its own record at the
    /// end; if it is filled, the records of its children among the last
    /// `child_count` of the records of before this level skip.
    pub open spec fn committed_nodes(&self, nodes: Seq<Node>, node: Node) -> Seq<Node> {
        let b = self.branch_factor.spec_value() as int;
        Seq::new(
            nodes.len(),
            |i: int|
                if self.current_is_filled() && in_block(
                    self.nodes_init_length as int,
                    self.child_count as int,
                    i,
                ) && node.parent_index * b <= nodes[i].parent_index < (node.parent_index + 1) * b {
                    skipping(nodes[i])
                } else {
                    nodes[i]
                },
        ).push(
            Node {
                bits: node.bits,
                parent_index: node.parent_index,
                node_type: if self.current_is_filled() {
                    NodeType::Filled
                } else {
                    node.node_type
                },
            },
        )
    }

    /// Ends the node that is being put together, if there is one. Its number
    /// goes to `upper_indices`. The node is filled if all its children are;
    /// its number then goes to `upper_filled_indices` too, and the records
    /// of its children skip. Its record goes to the end of `nodes`.
    pub fn commit_current_node(&mut self, nodes: &mut Vec<Node>)
        ensures
            final(self).current_node is None,
            final(self).child_count == old(self).child_count,
            final(self).nodes_init_length == old(self).nodes_init_length,
            final(self).branch_factor == old(self).branch_factor,
            match old(self).current_node {
                None => {
                    &&& final(nodes)@ == old(nodes)@
                    &&& final(self).upper_indices@ == old(self).upper_indices@
                    &&& final(self).upper_filled_indices@ == old(self).upper_filled_indices@
                    &&& final(self).current_node_filled_bits == old(self).current_node_filled_bits
                },
                Some(node) => {
                    &&& final(nodes)@ == old(self).committed_nodes(old(nodes)@, node)
                    &&& final(self).upper_indices@ == old(self).upper_indices@.insert(
                        node.parent_index as int,
                    )
                    &&& final(self).upper_filled_indices@ == if old(self).current_is_filled() {
                        old(self).upper_filled_indices@.insert(node.parent_index as int)
                    } else {
                        old(self).upper_filled_indices@
                    }
                    &&& final(self).current_node_filled_bits == 0
                },
            },
    {
        let node = match self.current_node {
            None => {
                return ;
            },
            Some(node) => node,
        };
        self.current_node = None;
        let ghost before = nodes@;
        let ghost st = *old(self);
        self.upper_indices.insert(node.parent_index);
        let filled: bool = self.current_node_filled_bits == self.branch_factor.u32_mask();
        if filled {
            // Every child is filled, so the node is: a zero word stands for
            // it and for all that lies below it.
            self.upper_filled_indices.insert(node.parent_index);
            if self.nodes_init_length >= self.child_count {
                let children_start_index: usize = self.nodes_init_length - self.child_count;
                let children_end_index: usize = if self.nodes_init_length <= nodes.len() {
                    self.nodes_init_length
                } else {
                    nodes.len()
                };
                assert((node.parent_index as u64 + 1) * (self.branch_factor.spec_value() as u64)
                    <= 0x1_0000_0000 * 32) by (nonlinear_arith)
                    requires
                        node.parent_index <= 0xffff_ffff,
                        self.branch_factor.spec_value() <= 32,
                ;
                assert((node.parent_index as u64) * (self.branch_factor.spec_value() as u64)
                    <= 0x1_0000_0000 * 32) by (nonlinear_arith)
                    requires
                        node.parent_index <= 0xffff_ffff,
                        self.branch_factor.spec_value() <= 32,
                ;
                let first: u64 = (node.parent_index as u64) * (self.branch_factor.value() as u64);
                let stop: u64 = (node.parent_index as u64 + 1) * (self.branch_factor.value() as u64);
                let mut i: usize = children_start_index;
                while i < children_end_index
                    invariant
                        children_start_index <= i,
                        i <= children_end_index || i == children_start_index,
                        children_end_index <= nodes@.len(),
                        nodes@.len() == before.len(),
                        first == node.parent_index * self.branch_factor.spec_value(),
                        stop == (node.parent_index + 1) * self.branch_factor.spec_value(),
                        forall|k: int|
                            0 <= k < nodes@.len() ==> #[trigger] nodes@[k] == (if children_start_index
                                <= k < i && first <= before[k].parent_index < stop {
                                skipping(before[k])
                            } else {
                                before[k]
                            }),
                    decreases children_end_index - i,
                {
                    let child: Node = nodes[i];
                    if child.parent_index as u64 >= first && (child.parent_index as u64) < stop {
                        nodes.set(
                            i,
                            Node {
                                bits: child.bits,
                                parent_index: child.parent_index,
                                node_type: NodeType::Skip,
                            },
                        );
                    }
                    i += 1;
                }
                proof {
                    assert forall|k: int| 0 <= k < nodes@.len() implies nodes@[k]
                        == st.committed_nodes(before, node)[k] by {
                        assert(in_block(
                            st.nodes_init_length as int,
                            st.child_count as int,
                            k,
                        ) <==> children_start_index <= k < i);
                    }
                }
            }
        }
        let record = Node {
            bits: node.bits,
            parent_index: node.parent_index,
            node_type: if filled {
                NodeType::Filled
            } else {
                node.node_type
            },
        };
        proof {
            assert(nodes@ =~= st.committed_nodes(before, node).drop_last());
        }
        nodes.push(record);
        self.current_node_filled_bits = 0;
        proof {
            assert(nodes@ =~= st.committed_nodes(before, node));
        }
    }
}

/// `x / b` is `p` for `x` from `p * b` up to but not including `(p + 1) * b`.
pub proof fn lemma_div_is(x: int, b: int, p: int)
    requires
        b >= 1,
        p * b <= x < (p + 1) * b,
        x >= 0,
    ensures
        x / b == p,
{
    lemma_div_bounds(x, b);
    let q = x / b;
    assert(q == p) by (nonlinear_arith)
        requires
            p * b <= x < (p + 1) * b,
            q * b <= x,
            x + 1 <= (q + 1) * b,
            b >= 1,
    ;
}

/// A value lies below the node numbered by the value divided by `b`, and
/// below no other.
pub proof fn lemma_value_below(v: int, b: int, p: int)
    requires
        b >= 2,
        v >= 0,
    ensures
        v / b == p <==> p * b <= v < p * b + b,
        0 <= v / b <= v,
{
    lemma_div_bounds(v, b);
    assert((p + 1) * b == p * b + b) by (nonlinear_arith);
    if p * b <= v < p * b + b {
        lemma_div_is(v, b, p);
    }
    let q = v / b;
    assert(q <= v) by (nonlinear_arith)
        requires
            q * b <= v,
            q >= 0,
            b >= 2,
    ;
}

/// Nodes without a value below them add no record, at the lower end of the
/// numbers.
pub proof fn lemma_records_above_gap(
    values: Set<int>,
    filled: Set<int>,
    bf: BranchFactor,
    lo: int,
    mid: int,
    hi: int,
)
    requires
        lo <= mid,
        forall|p: int| lo <= p < mid ==> !#[trigger] node_above(values, bf, p),
    ensures
        records_above(values, filled, bf, lo, hi) == records_above(values, filled, bf, mid, hi),
    decreases mid - lo,
{
    if lo < mid {
        lemma_records_above_gap(values, filled, bf, lo + 1, mid, hi);
        if lo >= hi {
            assert(mid >= hi);
        }
    }
}

/// Nodes without a value below them add no record, at the upper end of the
/// numbers.
pub proof fn lemma_records_above_end(
    values: Set<int>,
    filled: Set<int>,
    bf: BranchFactor,
    lo: int,
    mid: int,
    hi: int,
)
    requires
        mid <= hi,
        forall|p: int| mid <= p < hi ==> !#[trigger] node_above(values, bf, p),
    ensures
        records_above(values, filled, bf, lo, hi) == records_above(values, filled, bf, lo, mid),
    decreases hi - lo,
{
    if lo < hi {
        lemma_records_above_end(values, filled, bf, lo + 1, mid, hi);
        if lo >= mid {
            assert(!node_above(values, bf, lo));
        }
    }
}

/// The records of a level have the numbers of the nodes that have a value
/// below them, each once and by falling number.
pub proof fn lemma_records_above_elements(
    values: Set<int>,
    filled: Set<int>,
    bf: BranchFactor,
    lo: int,
    hi: int,
)
    requires
        0 <= lo,
        hi <= index_limit(),
    ensures
        forall|k: int|
            0 <= k < records_above(values, filled, bf, lo, hi).len() ==> {
                let n = #[trigger] records_above(values, filled, bf, lo, hi)[k];
                &&& lo <= n.parent_index < hi
                &&& node_above(values, bf, n.parent_index as int)
                &&& n == record_above(values, filled, bf, n.parent_index as int)
            },
        forall|k: int, l: int|
            0 <= k < l < records_above(values, filled, bf, lo, hi).len() ==> (
            #[trigger] records_above(values, filled, bf, lo, hi)[k]).parent_index > (
            #[trigger] records_above(values, filled, bf, lo, hi)[l]).parent_index,
        forall|p: int|
            lo <= p < hi && node_above(values, bf, p) ==> exists|k: int|
                0 <= k < records_above(values, filled, bf, lo, hi).len() && (
                #[trigger] records_above(values, filled, bf, lo, hi)[k]).parent_index == p,
    decreases hi - lo,
{
    if lo < hi {
        lemma_records_above_elements(values, filled, bf, lo + 1, hi);
        let rest = records_above(values, filled, bf, lo + 1, hi);
        let all = records_above(values, filled, bf, lo, hi);
        assert forall|p: int| lo <= p < hi && node_above(values, bf, p) implies exists|k: int|
            0 <= k < all.len() && (#[trigger] all[k]).parent_index == p by {
            if p == lo {
                assert(all[all.len() - 1].parent_index == p);
            } else {
                let k = choose|k: int| 0 <= k < rest.len() && (#[trigger] rest[k]).parent_index == p;
                assert(all[k] == rest[k]);
            }
        }
    }
}

/// The nodes numbered from `lo` up to, not including, `hi` that have a value
/// below them.
pub open spec fn nodes_above(values: Set<int>, bf: BranchFactor, lo: int, hi: int) -> Set<int> {
    Set::new(|p: int| lo <= p < hi && node_above(values, bf, p))
}

/// There are as many records as there are nodes with a value below them.
pub proof fn lemma_records_above_len(
    values: Set<int>,
    filled: Set<int>,
    bf: BranchFactor,
    lo: int,
    hi: int,
)
    ensures
        nodes_above(values, bf, lo, hi).finite(),
        records_above(values, filled, bf, lo, hi).len() == nodes_above(values, bf, lo, hi).len(),
    decreases hi - lo,
{
    if lo >= hi {
        assert(nodes_above(values, bf, lo, hi) =~= Set::<int>::empty());
    } else {
        lemma_records_above_len(values, filled, bf, lo + 1, hi);
        let rest = nodes_above(values, bf, lo + 1, hi);
        if node_above(values, bf, lo) {
            assert(nodes_above(values, bf, lo, hi) =~= rest.insert(lo));
            assert(!rest.contains(lo));
        } else {
            assert(nodes_above(values, bf, lo, hi) =~= rest);
        }
    }
}

/// The state of the encoder stands for what has been done of a level: the
/// nodes numbered `top` and up have their records, and their numbers are in
/// the two sets.
pub open spec fn committed(
    st: CreateLayerState,
    nodes: Seq<Node>,
    before: Seq<Node>,
    values: Set<int>,
    filled: Set<int>,
    top: int,
) -> bool {
    let bf = st.branch_factor;
    &&& nodes == looked_over(before, st.child_count as int, values, filled, bf, top)
        + records_above(values, filled, bf, top, index_limit())
    &&& forall|p: int| #[trigger]
        st.upper_indices@.contains(p) <==> (top <= p && node_above(values, bf, p))
    &&& forall|p: int| #[trigger]
        st.upper_filled_indices@.contains(p) <==> (top <= p && filled_above(values, filled, bf, p))
    &&& st.nodes_init_length == before.len()
}

/// The node that is being put together holds the bits of the values from
/// `low` up.
pub open spec fn gathering(
    st: CreateLayerState,
    values: Set<int>,
    filled: Set<int>,
    low: int,
) -> bool {
    match st.current_node {
        None => st.current_node_filled_bits == 0,
        Some(node) => {
            let p = node.parent_index as int;
            let b = st.branch_factor.spec_value() as int;
            &&& p * b <= low < p * b + b
            &&& values.contains(low)
            &&& node.bits == or_bits(|j: int| values.contains(p * b + j), low - p * b, b)
            &&& st.current_node_filled_bits == or_bits(
                |j: int| values.contains(p * b + j) && filled.contains(p * b + j),
                low - p * b,
                b,
            )
            &&& node.node_type == NodeType::Standard
        },
    }
}

/// With no value left below `low` under the node that is being put
/// together, the node is whole, and committing it adds its record to what
/// has been done.
pub proof fn lemma_commit(
    st: CreateLayerState,
    done: CreateLayerState,
    nodes: Seq<Node>,
    before: Seq<Node>,
    values: Set<int>,
    filled: Set<int>,
    low: int,
)
    requires
        st.current_node is Some,
        forall|v: int| values.contains(v) ==> 0 <= v <= u32::MAX,
        gathering(st, values, filled, low),
        forall|v: int|
            st.current_node->Some_0.parent_index * st.branch_factor.spec_value() <= v < low
                ==> !values.contains(v),
        committed(st, nodes, before, values, filled, st.current_node->Some_0.parent_index + 1),
        done.branch_factor == st.branch_factor,
        done.child_count == st.child_count,
        done.nodes_init_length == st.nodes_init_length,
        done.upper_indices@ == st.upper_indices@.insert(
            st.current_node->Some_0.parent_index as int,
        ),
        done.upper_filled_indices@ == if st.current_is_filled() {
            st.upper_filled_indices@.insert(st.current_node->Some_0.parent_index as int)
        } else {
            st.upper_filled_indices@
        },
    ensures
        committed(
            done,
            st.committed_nodes(nodes, st.current_node->Some_0),
            before,
            values,
            filled,
            st.current_node->Some_0.parent_index as int,
        ),
{
    let node = st.current_node->Some_0;
    let bf = st.branch_factor;
    let p = node.parent_index as int;
    let b = bf.spec_value() as int;
    let present = |j: int| values.contains(p * b + j);
    let full = |j: int| values.contains(p * b + j) && filled.contains(p * b + j);
    assert forall|j: int| 0 <= j < low - p * b implies !#[trigger] present(j) by {}
    assert forall|j: int| 0 <= j < low - p * b implies !#[trigger] full(j) by {}
    lemma_or_bits_gap(present, 0, low - p * b, b);
    lemma_or_bits_gap(full, 0, low - p * b, b);
    lemma_value_below(low, b, p);
    assert(node_above(values, bf, p));
    lemma_or_bits_full(full, bf);
    // The node is filled exactly when the bits say so.
    assert(st.current_is_filled() == filled_above(values, filled, bf, p)) by {
        if filled_above(values, filled, bf, p) {
            assert forall|j: int| 0 <= j < b implies #[trigger] full(j) by {
                assert(values.contains(p * b + j));
            }
        }
        if st.current_is_filled() {
            assert forall|c: int|
                #![trigger values.contains(c)]
                #![trigger filled.contains(c)]
                p * b <= c < p * b + b implies values.contains(c) && filled.contains(c) by {
                assert(full(c - p * b));
            }
        }
    }
    assert(node.bits == bits_above(values, bf, p));
    let limit = index_limit();
    let tail = records_above(values, filled, bf, p + 1, limit);
    let head1 = looked_over(before, st.child_count as int, values, filled, bf, p + 1);
    let head0 = looked_over(before, st.child_count as int, values, filled, bf, p);
    let after = st.committed_nodes(nodes, node);
    assert(records_above(values, filled, bf, p, limit) == tail.push(
        record_above(values, filled, bf, p),
    ));
    assert(after =~= head0 + tail.push(record_above(values, filled, bf, p))) by {
        assert forall|i: int| 0 <= i < before.len() implies after[i] == head0[i] by {
            assert(nodes[i] == head1[i]);
            let idx = before[i].parent_index as int;
            lemma_value_below(idx, b, p);
            assert((p + 1) * b == p * b + b) by (nonlinear_arith);
        }
        assert forall|i: int| before.len() <= i < nodes.len() implies after[i] == tail[i
            - before.len()] by {
            assert(nodes[i] == tail[i - before.len()]);
        }
    }
}

/// Where no node from `t1` up to `top` has a value below it, the state that
/// has the records from `top` up has those from `t1` up.
pub proof fn lemma_slide(
    st: CreateLayerState,
    nodes: Seq<Node>,
    before: Seq<Node>,
    values: Set<int>,
    filled: Set<int>,
    top: int,
    t1: int,
)
    requires
        t1 <= top,
        committed(st, nodes, before, values, filled, top),
        forall|p: int| t1 <= p < top ==> !#[trigger] node_above(values, st.branch_factor, p),
    ensures
        committed(st, nodes, before, values, filled, t1),
{
    let bf = st.branch_factor;
    lemma_records_above_gap(values, filled, bf, t1, top, index_limit());
    assert(looked_over(before, st.child_count as int, values, filled, bf, t1) =~= looked_over(
        before,
        st.child_count as int,
        values,
        filled,
        bf,
        top,
    ));
}

/// Builds the records of one level from the values of the level below.
///
/// For every node that has a value below it, a record goes to the end of
/// `nodes`, by falling number: its bits say which of the `b` numbers below
/// the node are values, and it is filled if all of them are values and are
/// in `filled_values`. Of the records that were in `nodes`, those among the
/// last `child_count` skip whose number lies below a filled node; no other
/// record changes.
///
/// Returns the numbers of the new records, and those of the filled ones.
/// `lemma_records_above_elements` says of the new records that there is one
/// for every number returned, and that they come by falling number.
pub fn create_layer(
    branch_factor: BranchFactor,
    values: IntSet,
    filled_values: IntSet,
    nodes: &mut Vec<Node>,
    child_count: usize,
) -> (r: (IntSet, IntSet))
    ensures
        forall|p: int| #[trigger] r.0@.contains(p) <==> node_above(values@, branch_factor, p),
        forall|p: int| #[trigger]
            r.1@.contains(p) <==> filled_above(values@, filled_values@, branch_factor, p),
        final(nodes)@ == looked_over(
            old(nodes)@,
            child_count as int,
            values@,
            filled_values@,
            branch_factor,
            0,
        ) + records_above(values@, filled_values@, branch_factor, 0, index_limit()),
        final(nodes)@.len() == old(nodes)@.len() + r.0@.len(),
        forall|i: int|
            0 <= i < old(nodes)@.len() ==> (#[trigger] final(nodes)@[i]).bits == old(nodes)@[i].bits
                && final(nodes)@[i].parent_index == old(nodes)@[i].parent_index,
{
    let ghost before = nodes@;
    let ghost vs = values@;
    let ghost fs = filled_values@;
    let ghost limit = index_limit();
    let mut state = CreateLayerState {
        upper_indices: IntSet::empty(),
        upper_filled_indices: IntSet::empty(),
        current_node: None,
        current_node_filled_bits: 0,
        child_count,
        nodes_init_length: nodes.len(),
        branch_factor,
    };
    let bfv: u32 = branch_factor.value();
    let ghost b: int = bfv as int;
    let mut cursor: Option<Cursor> = values.last_cursor();
    let ghost mut low: int = limit;
    proof {
        values.lemma_bounds();
        assert(nodes@ =~= looked_over(before, child_count as int, vs, fs, branch_factor, limit)
            + records_above(vs, fs, branch_factor, limit, limit)) by {
            assert forall|i: int| 0 <= i < before.len() implies !(limit <= number_above(
                #[trigger] before[i],
                branch_factor,
            )) by {
                lemma_value_below(before[i].parent_index as int, b, 0);
            }
        }
    }
    // The records are made from the last node to the first: the stream
    // gets them in the other order.
    loop
        invariant_except_break
            match cursor {
                None => forall|i: int| vs.contains(i) ==> low <= i,
                Some(c) => values.holds(c) && vs.contains(c.spec_value() as int)
                    && c.spec_value() < low && forall|i: int|
                    vs.contains(i) ==> i <= c.spec_value() || low <= i,
            },
        invariant
            vs == values@,
            fs == filled_values@,
            limit == index_limit(),
            before == old(nodes)@,
            bfv == branch_factor.spec_value(),
            b == bfv,
            state.branch_factor == branch_factor,
            state.child_count == child_count,
            forall|v: int| vs.contains(v) ==> 0 <= v <= u32::MAX,
            low <= limit,
            gathering(state, vs, fs, low),
            state.current_node is None ==> low == limit,
            committed(
                state,
                nodes@,
                before,
                vs,
                fs,
                match state.current_node {
                    None => limit,
                    Some(node) => node.parent_index + 1,
                },
            ),
        ensures
            forall|i: int| vs.contains(i) ==> low <= i,
        decreases
                match cursor {
                    None => 0int,
                    Some(c) => c.spec_value() + 1,
                },
    {
        let c = match cursor {
            None => {
                break ;
            },
            Some(c) => c,
        };
        let v: u32 = c.value();
        let parent_index: u32 = v / bfv;
        let prev_parent_index: u32 = match state.current_node {
            None => parent_index,
            Some(node) => node.parent_index,
        };
        let ghost p: int = parent_index as int;
        let ghost jv: int = v - p * b;
        let ghost mut top: int = match state.current_node {
            None => limit,
            Some(node) => node.parent_index + 1,
        };
        proof {
            lemma_value_below(v as int, b, p);
            assert(0 <= jv < b && p * b + jv == v);
            vstd::arithmetic::div_mod::lemma_fundamental_div_mod(v as int, b);
            assert(v % bfv == jv) by (nonlinear_arith)
                requires
                    v == b * (v as int / b) + (v as int % b),
                    p == v as int / b,
                    jv == v - p * b,
                    b == bfv,
            ;
        }
        if prev_parent_index != parent_index {
            let ghost st = state;
            let ghost nodes0 = nodes@;
            proof {
                let pp = prev_parent_index as int;
                assert(p < pp) by (nonlinear_arith)
                    requires
                        p != pp,
                        pp * b <= low,
                        v < low,
                        p * b <= v,
                        v < p * b + b,
                        low < pp * b + b,
                        b >= 2,
                ;
                assert(p * b + b <= pp * b) by (nonlinear_arith)
                    requires
                        p < pp,
                        b >= 2,
                ;
                top = pp;
            }
            state.commit_current_node(nodes);
            proof {
                lemma_commit(st, state, nodes0, before, vs, fs, low);
            }
        }
        assert(state.current_node is None ==> p * b + b <= low || low == limit);
        let mask: u32 = 1u32 << (v % bfv);
        let ghost held = state;
        let current: Node = match state.current_node {
            None => Node { bits: 0, parent_index, node_type: NodeType::Standard },
            Some(node) => node,
        };
        state.current_node = Some(
            Node {
                bits: current.bits | mask,
                parent_index: current.parent_index,
                node_type: current.node_type,
            },
        );
        let is_filled: bool = filled_values.contains(v);
        if is_filled {
            state.current_node_filled_bits = state.current_node_filled_bits | mask;
        }
        proof {
            let present = |j: int| vs.contains(p * b + j);
            let full = |j: int| vs.contains(p * b + j) && fs.contains(p * b + j);
            assert(present(jv));
            assert(full(jv) == is_filled);
            let upto: int = if held.current_node is None {
                b
            } else {
                low - p * b
            };
            assert(jv < upto <= b);
            assert forall|j: int| jv + 1 <= j < upto implies !#[trigger] present(j) by {
                // No value lies between `v` and the values done before.
                let i = p * b + j;
                assert(v < i);
            }
            assert forall|j: int| jv + 1 <= j < upto implies !#[trigger] full(j) by {
                assert(!present(j));
            }
            lemma_or_bits_gap(present, jv + 1, upto, b);
            lemma_or_bits_gap(full, jv + 1, upto, b);
            lemma_bit_or(held.current_node_filled_bits, 0, 0);
            if held.current_node is None {
                assert forall|q: int| p + 1 <= q < top implies !#[trigger] node_above(
                    vs,
                    branch_factor,
                    q,
                ) by {
                    if node_above(vs, branch_factor, q) {
                        let w = choose|w: int| #[trigger] vs.contains(w) && w / b == q;
                        lemma_value_below(w, b, q);
                        assert(w >= q * b);
                        assert(q * b >= p * b + b) by (nonlinear_arith)
                            requires
                                q >= p + 1,
                                b >= 2,
                        ;
                    }
                }
                lemma_slide(held, nodes@, before, vs, fs, top, p + 1);
            }
        }
        cursor = values.cursor_before(c);
        proof {
            low = v as int;
        }
    }
    let ghost top: int = match state.current_node {
        None => limit,
        Some(node) => node.parent_index as int,
    };
    let ghost st = state;
    let ghost nodes0 = nodes@;
    state.commit_current_node(nodes);
    proof {
        if st.current_node is Some {
            lemma_commit(st, state, nodes0, before, vs, fs, low);
        }
        assert forall|q: int| 0 <= q < top implies !#[trigger] node_above(vs, branch_factor, q) by {
            if node_above(vs, branch_factor, q) {
                let w = choose|w: int| #[trigger] vs.contains(w) && w / b == q;
                lemma_value_below(w, b, q);
                if st.current_node is Some {
                    assert(w < q * b + b);
                    assert(q * b + b <= top * b) by (nonlinear_arith)
                        requires
                            q + 1 <= top,
                            b >= 2,
                    ;
                }
            }
        }
        lemma_slide(state, nodes@, before, vs, fs, top, 0);
        assert forall|q: int| node_above(vs, branch_factor, q) implies 0 <= q < limit by {
            let w = choose|w: int| #[trigger] vs.contains(w) && w / b == q;
            lemma_value_below(w, b, q);
        }
        lemma_records_above_len(vs, fs, branch_factor, 0, limit);
        assert(state.upper_indices@ =~= nodes_above(vs, branch_factor, 0, limit));
    }
    (state.upper_indices, state.upper_filled_indices)
}

/// What the encoder works on while it builds one level of the tree of a
/// set: the set, the shape of the tree, the level, and the records that were
/// there before the level below was built.
pub struct LayerJob {
    pub s: Set<int>,
    pub bf: BranchFactor,
    pub height: int,
    pub level: int,
    pub base: Seq<Node>,
}

/// The job names a level of the tree, and every node of the level below it
/// that is present has its place in that level.
pub open spec fn job_ok(job: LayerJob) -> bool {
    &&& 1 <= job.level <= job.height
    &&& layer_size(job.bf, job.height, job.level) <= 0x1_0000_0000
    &&& job.level >= 2 ==> layer_size(job.bf, job.height, job.level - 1) <= 0x1_0000_0000
    &&& forall|i: int| #[trigger]
        node_present(job.s, job.bf, job.level - 1, i) ==> 0 <= i <= u32::MAX && i < layer_size(
            job.bf,
            job.height,
            job.level - 1,
        )
}

/// The values are the present nodes of the level below the job's.
pub open spec fn values_of_job(job: LayerJob, values: Set<int>) -> bool {
    forall|i: int| #[trigger] values.contains(i) <==> node_present(job.s, job.bf, job.level - 1, i)
}

/// Of the values, the filled ones are the full nodes of the level below the
/// job's.
pub open spec fn filled_of_job(job: LayerJob, values: Set<int>, filled: Set<int>) -> bool {
    forall|i: int|
        values.contains(i) ==> (#[trigger] filled.contains(i) <==> node_full(
            job.s,
            job.bf,
            job.level - 1,
            i,
        ))
}

/// Words folded over functions that agree are the same.
pub proof fn lemma_or_bits_same(
    f: spec_fn(int) -> bool,
    g: spec_fn(int) -> bool,
    from: int,
    n: int,
)
    requires
        forall|j: int| from <= j < n ==> #[trigger] f(j) == g(j),
    ensures
        or_bits(f, from, n) == or_bits(g, from, n),
    decreases n - from,
{
    if 0 <= from < n {
        lemma_or_bits_same(f, g, from + 1, n);
        assert(f(from) == g(from));
    }
}

/// A node of the job's level has a value below it exactly when it is
/// present; it then has its place in the level, and its bits are the bits of
/// its present children.
pub proof fn lemma_present_in_tree(job: LayerJob, values: Set<int>, p: int)
    requires
        job_ok(job),
        values_of_job(job, values),
    ensures
        node_above(values, job.bf, p) <==> node_present(job.s, job.bf, job.level, p),
        node_present(job.s, job.bf, job.level, p) ==> 0 <= p < layer_size(
            job.bf,
            job.height,
            job.level,
        ),
        bits_above(values, job.bf, p) == crate::tree::child_bits(job.s, job.bf, job.level, p),
{
    let b = job.bf.spec_value() as int;
    let lower = job.level - 1;
    if node_above(values, job.bf, p) {
        let v = choose|v: int| #[trigger] values.contains(v) && v / b == p;
        assert(node_present(job.s, job.bf, lower, v));
        lemma_value_below(v, b, p);
        assert(v == p * b + (v - p * b));
        lemma_present_up(job.s, job.bf, lower, p, v - p * b);
    }
    if node_present(job.s, job.bf, job.level, p) {
        let j = lemma_present_down(job.s, job.bf, job.level, p);
        let v = p * b + j;
        assert(child_is_present(job.s, job.bf, job.level, p, j));
        assert(node_present(job.s, job.bf, lower, v));
        assert(values.contains(v));
        lemma_value_below(v, b, p);
        assert(node_above(values, job.bf, p));
        lemma_span_step(job.bf, job.height - job.level);
        assert(0 <= p < layer_size(job.bf, job.height, job.level)) by (nonlinear_arith)
            requires
                0 <= p * b + j < layer_size(job.bf, job.height, lower),
                layer_size(job.bf, job.height, lower) == b * layer_size(
                    job.bf,
                    job.height,
                    job.level,
                ),
                0 <= j < b,
                b >= 2,
        ;
    }
    lemma_or_bits_same(
        |j: int| values.contains(p * b + j),
        |j: int| child_is_present(job.s, job.bf, job.level, p, j),
        0,
        b,
    );
}

/// A node of the job's level is filled exactly when it is full.
pub proof fn lemma_filled_in_tree(job: LayerJob, values: Set<int>, filled: Set<int>, p: int)
    requires
        job_ok(job),
        values_of_job(job, values),
        filled_of_job(job, values, filled),
    ensures
        filled_above(values, filled, job.bf, p) <==> node_full(job.s, job.bf, job.level, p),
{
    let bf = job.bf;
    let lower = job.level - 1;
    lemma_present_in_tree(job, values, p);
    lemma_full_split(job.s, bf, job.level, p);
    if filled_above(values, filled, bf, p) {
        assert forall|j: int| 0 <= j < bf.spec_value() implies #[trigger] child_is_full(
            job.s,
            bf,
            job.level,
            p,
            j,
        ) by {
            let c = p * bf.spec_value() + j;
            assert(values.contains(c));
            assert(filled.contains(c));
            assert(node_full(job.s, bf, lower, c));
        }
    }
    if node_full(job.s, bf, job.level, p) {
        lemma_full_present(job.s, bf, job.level, p);
        assert forall|c: int|
            #![trigger values.contains(c)]
            #![trigger filled.contains(c)]
            p * bf.spec_value() <= c < p * bf.spec_value() + bf.spec_value() implies values.contains(
                c,
            ) && filled.contains(c) by {
            let j = c - p * bf.spec_value();
            assert(child_is_full(job.s, bf, job.level, p, j));
            assert(node_full(job.s, bf, lower, c));
            lemma_full_present(job.s, bf, lower, c);
            assert(values.contains(c));
            assert(filled.contains(c));
        }
    }
}

/// A node of the job's level has a value below it exactly when it is
/// present, and is filled exactly when it is full.
pub proof fn lemma_above_in_tree(job: LayerJob, values: Set<int>, filled: Set<int>, p: int)
    requires
        job_ok(job),
        values_of_job(job, values),
        filled_of_job(job, values, filled),
    ensures
        node_above(values, job.bf, p) <==> node_present(job.s, job.bf, job.level, p),
        filled_above(values, filled, job.bf, p) <==> node_full(job.s, job.bf, job.level, p),
        node_present(job.s, job.bf, job.level, p) ==> 0 <= p < layer_size(
            job.bf,
            job.height,
            job.level,
        ),
        bits_above(values, job.bf, p) == crate::tree::child_bits(job.s, job.bf, job.level, p),
{
    lemma_present_in_tree(job, values, p);
    lemma_filled_in_tree(job, values, filled, p);
}

/// The records of the nodes above the values are the records of the job's
/// level.
proof fn lemma_records_in_tree(
    job: LayerJob,
    values: Set<int>,
    filled: Set<int>,
    lo: int,
    hi: int,
)
    requires
        job_ok(job),
        values_of_job(job, values),
        filled_of_job(job, values, filled),
        0 <= lo,
        hi <= layer_size(job.bf, job.height, job.level),
    ensures
        records_above(values, filled, job.bf, lo, hi) == layer_nodes(
            job.s,
            job.bf,
            job.height,
            job.level,
            lo,
            hi,
            layer_size(job.bf, job.height, job.level),
        ),
    decreases hi - lo,
{
    if lo < hi {
        lemma_records_in_tree(job, values, filled, lo + 1, hi);
        lemma_above_in_tree(job, values, filled, lo);
    }
}

/// What `create_layer` builds where the values are the present nodes of a
/// level of the tree of a set, the filled ones are the full nodes of that
/// level, and the last `child_count` records are the records of that level:
/// the records of the next level, with the records of the level below
/// looked at from above; and the present and the full nodes of the next
/// level.
pub proof fn lemma_layer_of_tree(
    job: LayerJob,
    values: Set<int>,
    filled: Set<int>,
    before: Seq<Node>,
    child_count: int,
)
    requires
        job_ok(job),
        values_of_job(job, values),
        filled_of_job(job, values, filled),
        before == job.base + whole_layer(
            job.s,
            job.bf,
            job.height,
            job.level - 1,
            layer_size(job.bf, job.height, job.level - 1),
        ),
        child_count == whole_layer(job.s, job.bf, job.height, job.level - 1, 0).len(),
    ensures
        looked_over(before, child_count, values, filled, job.bf, 0) + records_above(
            values,
            filled,
            job.bf,
            0,
            index_limit(),
        ) == job.base + whole_layer(job.s, job.bf, job.height, job.level - 1, 0) + whole_layer(
            job.s,
            job.bf,
            job.height,
            job.level,
            layer_size(job.bf, job.height, job.level),
        ),
        forall|p: int|
            node_above(values, job.bf, p) <==> #[trigger] node_present(
                job.s,
                job.bf,
                job.level,
                p,
            ),
        forall|p: int|
            filled_above(values, filled, job.bf, p) <==> #[trigger] node_full(
                job.s,
                job.bf,
                job.level,
                p,
            ),
{
    let b = job.bf.spec_value() as int;
    let size = layer_size(job.bf, job.height, job.level);
    let lower = job.level - 1;
    let lower_size = layer_size(job.bf, job.height, lower);
    assert forall|p: int|
        node_above(values, job.bf, p) <==> #[trigger] node_present(job.s, job.bf, job.level, p) by {
        lemma_above_in_tree(job, values, filled, p);
    }
    assert forall|p: int|
        filled_above(values, filled, job.bf, p) <==> #[trigger] node_full(
            job.s,
            job.bf,
            job.level,
            p,
        ) by {
        lemma_above_in_tree(job, values, filled, p);
    }
    // The new records.
    assert forall|p: int| size <= p < index_limit() implies !#[trigger] node_above(
        values,
        job.bf,
        p,
    ) by {
        lemma_above_in_tree(job, values, filled, p);
    }
    lemma_records_above_end(values, filled, job.bf, 0, size, index_limit());
    lemma_records_in_tree(job, values, filled, 0, size);
    // The records that were there.
    let seen = looked_over(before, child_count, values, filled, job.bf, 0);
    let below = whole_layer(job.s, job.bf, job.height, lower, 0);
    if lower >= 1 {
        let blk1 = layer_nodes(job.s, job.bf, job.height, lower, 0, lower_size, lower_size);
        let blk0 = layer_nodes(job.s, job.bf, job.height, lower, 0, lower_size, 0);
        lemma_layer_nodes_remark(job.s, job.bf, job.height, lower, 0, lower_size, lower_size, 0);
        lemma_layer_nodes_elements(job.s, job.bf, job.height, lower, 0, lower_size, lower_size);
        assert forall|i: int| 0 <= i < before.len() implies seen[i] == (job.base + below)[i] by {
            if i >= job.base.len() {
                let k = i - job.base.len();
                let n = blk1[k];
                let idx = n.parent_index as int;
                assert(before[i] == n);
                assert(n == node_record(job.s, job.bf, job.height, lower, idx, lower_size));
                assert(blk0[k] == node_record(job.s, job.bf, job.height, lower, idx, 0));
                lemma_value_below(idx, b, idx / b);
                lemma_above_in_tree(job, values, filled, idx / b);
            }
        }
        assert(seen =~= job.base + below);
    } else {
        assert(seen =~= job.base + below);
    }
}

} // verus!
