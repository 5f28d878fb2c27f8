//! The node records that the encoder keeps while it builds a tree from the
//! values up, and what they put on the stream.

use crate::branch_factor::BranchFactor;
use crate::tree::{
    child_bits, layer_words, node_emitted, node_full, node_present, node_word, span_at, tree_words,
};

use vstd::prelude::*;

verus! {

/// What a node puts on the stream.
#[derive(Clone, Copy, PartialEq, Eq, Debug)]
pub enum NodeType {
    /// The bits of its children.
    Standard,
    /// A zero word: every value that it covers is a member.
    Filled,
    /// Nothing: a node above it is filled.
    Skip,
}

/// One node of the tree, as the encoder keeps it.
#[derive(Clone, Copy, Debug)]
pub struct Node {
    /// The bit of every present child.
    pub bits: u32,
    /// The node's number within its level.
    pub parent_index: u32,
    pub node_type: NodeType,
}

/// The number of nodes that a level of a tree of the given height can hold.
pub open spec fn layer_size(bf: BranchFactor, height: int, level: int) -> int {
    span_at(bf, height - level)
}

/// The type of node `index` of `level`. The nodes numbered `marked_from` and
/// up have been looked at from the level above, and skip if the node above
/// them is full.
pub open spec fn record_type(
    s: Set<int>,
    bf: BranchFactor,
    height: int,
    level: int,
    index: int,
    marked_from: int,
) -> NodeType {
    if level < height && index >= marked_from && node_full(
        s,
        bf,
        level + 1,
        index / (bf.spec_value() as int),
    ) {
        NodeType::Skip
    } else if node_full(s, bf, level, index) {
        NodeType::Filled
    } else {
        NodeType::Standard
    }
}

/// The record of node `index` of `level`.
pub open spec fn node_record(
    s: Set<int>,
    bf: BranchFactor,
    height: int,
    level: int,
    index: int,
    marked_from: int,
) -> Node {
    Node {
        bits: child_bits(s, bf, level, index),
        parent_index: index as u32,
        node_type: record_type(s, bf, height, level, index, marked_from),
    }
}

/// The records of the present nodes of `level` whose index is at least `lo`
/// and below `hi`, by falling index.
pub open spec fn layer_nodes(
    s: Set<int>,
    bf: BranchFactor,
    height: int,
    level: int,
    lo: int,
    hi: int,
    marked_from: int,
) -> Seq<Node>
    decreases hi - lo,
{
    if lo >= hi {
        Seq::empty()
    } else if node_present(s, bf, level, lo) {
        layer_nodes(s, bf, height, level, lo + 1, hi, marked_from).push(
            node_record(s, bf, height, level, lo, marked_from),
        )
    } else {
        layer_nodes(s, bf, height, level, lo + 1, hi, marked_from)
    }
}

/// All records of one level; none for level 0, whose nodes are the values.
pub open spec fn whole_layer(
    s: Set<int>,
    bf: BranchFactor,
    height: int,
    level: int,
    marked_from: int,
) -> Seq<Node> {
    if level < 1 {
        Seq::empty()
    } else {
        layer_nodes(s, bf, height, level, 0, layer_size(bf, height, level), marked_from)
    }
}

/// The records of the levels from 1 up to `level`, in the order in which the
/// encoder builds them, every level looked at from the level above.
pub open spec fn built_nodes(s: Set<int>, bf: BranchFactor, height: int, level: int) -> Seq<Node>
    decreases level,
{
    if level <= 0 {
        Seq::empty()
    } else {
        built_nodes(s, bf, height, level - 1) + whole_layer(s, bf, height, level, 0)
    }
}

/// The word that a record puts on the stream, if it puts one.
pub open spec fn record_words(n: Node) -> Seq<u32> {
    match n.node_type {
        NodeType::Standard => seq![n.bits],
        NodeType::Filled => seq![0u32],
        NodeType::Skip => Seq::empty(),
    }
}

/// The words of a list of records, those of the last record first.
pub open spec fn emitted_words(nodes: Seq<Node>) -> Seq<u32>
    decreases nodes.len(),
{
    if nodes.len() == 0 {
        Seq::empty()
    } else {
        record_words(nodes.last()) + emitted_words(nodes.drop_last())
    }
}

/// Every record of a layer is the record of a present node within the
/// bounds.
pub proof fn lemma_layer_nodes_elements(
    s: Set<int>,
    bf: BranchFactor,
    height: int,
    level: int,
    lo: int,
    hi: int,
    marked_from: int,
)
    requires
        0 <= lo,
        hi <= 0x1_0000_0000,
    ensures
        forall|k: int|
            0 <= k < layer_nodes(s, bf, height, level, lo, hi, marked_from).len() ==> {
                let n = #[trigger] layer_nodes(s, bf, height, level, lo, hi, marked_from)[k];
                &&& lo <= n.parent_index < hi
                &&& node_present(s, bf, level, n.parent_index as int)
                &&& n == node_record(s, bf, height, level, n.parent_index as int, marked_from)
            },
    decreases hi - lo,
{
    if lo < hi {
        lemma_layer_nodes_elements(s, bf, height, level, lo + 1, hi, marked_from);
    }
}

/// Looking at a layer from above changes the types of its records and
/// nothing else.
pub proof fn lemma_layer_nodes_remark(
    s: Set<int>,
    bf: BranchFactor,
    height: int,
    level: int,
    lo: int,
    hi: int,
    t1: int,
    t2: int,
)
    requires
        0 <= lo,
        hi <= 0x1_0000_0000,
    ensures
        layer_nodes(s, bf, height, level, lo, hi, t2).len() == layer_nodes(
            s,
            bf,
            height,
            level,
            lo,
            hi,
            t1,
        ).len(),
        forall|k: int|
            0 <= k < layer_nodes(s, bf, height, level, lo, hi, t1).len() ==> #[trigger] layer_nodes(
                s,
                bf,
                height,
                level,
                lo,
                hi,
                t2,
            )[k] == node_record(
                s,
                bf,
                height,
                level,
                layer_nodes(s, bf, height, level, lo, hi, t1)[k].parent_index as int,
                t2,
            ),
    decreases hi - lo,
{
    if lo < hi {
        lemma_layer_nodes_remark(s, bf, height, level, lo + 1, hi, t1, t2);
    }
}

/// The words of two lists of records, one behind the other.
pub proof fn lemma_emitted_words_concat(a: Seq<Node>, b: Seq<Node>)
    ensures
        emitted_words(a + b) == emitted_words(b) + emitted_words(a),
    decreases b.len(),
{
    if b.len() == 0 {
        assert(a + b =~= a);
        assert(emitted_words(b) + emitted_words(a) =~= emitted_words(a));
    } else {
        let ab = a + b;
        assert(ab.last() == b.last());
        assert(ab.drop_last() =~= a + b.drop_last());
        lemma_emitted_words_concat(a, b.drop_last());
        assert(record_words(b.last()) + (emitted_words(b.drop_last()) + emitted_words(a))
            =~= (record_words(b.last()) + emitted_words(b.drop_last())) + emitted_words(a));
    }
}

/// The words that the records of a layer put on the stream are the words of
/// the emitted nodes of that layer, by rising index.
pub proof fn lemma_layer_emitted_words(
    s: Set<int>,
    bf: BranchFactor,
    height: int,
    level: int,
    lo: int,
    hi: int,
)
    requires
        0 <= lo,
    ensures
        emitted_words(layer_nodes(s, bf, height, level, lo, hi, 0)) == layer_words(
            s,
            bf,
            height,
            level,
            lo,
            hi,
        ),
    decreases hi - lo,
{
    if lo < hi {
        lemma_layer_emitted_words(s, bf, height, level, lo + 1, hi);
        let rest = layer_nodes(s, bf, height, level, lo + 1, hi, 0);
        if node_present(s, bf, level, lo) {
            let n = node_record(s, bf, height, level, lo, 0);
            let all = rest.push(n);
            assert(all.last() == n);
            assert(all.drop_last() =~= rest);
            if node_emitted(s, bf, height, level, lo) {
                assert(record_words(n) =~= seq![node_word(s, bf, level, lo)]);
            } else {
                assert(record_words(n) =~= Seq::<u32>::empty());
                assert(record_words(n) + emitted_words(rest) =~= emitted_words(rest));
            }
        }
    }
}

/// The words that the records of a tree put on the stream are the words of
/// the tree.
pub proof fn lemma_built_emitted_words(s: Set<int>, bf: BranchFactor, height: int, level: int)
    requires
        level <= height,
    ensures
        emitted_words(built_nodes(s, bf, height, level)) == tree_words(s, bf, height, level),
    decreases level,
{
    if level > 0 {
        lemma_built_emitted_words(s, bf, height, level - 1);
        lemma_emitted_words_concat(
            built_nodes(s, bf, height, level - 1),
            whole_layer(s, bf, height, level, 0),
        );
        lemma_layer_emitted_words(s, bf, height, level, 0, layer_size(bf, height, level));
    }
}

} // verus!
