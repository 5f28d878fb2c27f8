//! The tree behind a sparse bit set, as mathematics.
//!
//! A set of integers is laid over a tree with `bf` children per node. The
//! values themselves are level 0. A node of level `k` covers `bf^k`
//! consecutive values; node `i` of level `k` covers the values from
//! `i * bf^k` up to, not including, `(i + 1) * bf^k`. The root of a tree of
//! height `h` is node 0 of level `h`.
//!
//! The stream of a set holds one word for every node that is emitted: level by
//! level from the root down, and by rising index within a level.

use crate::bit_stream::{header_byte, stream_bytes, stream_header, stream_word, stream_word_count};
use crate::branch_factor::{tree_height, BranchFactor};
use crate::int_set::range_set;
use vstd::arithmetic::power::pow;
use vstd::prelude::*;

verus! {

/// The number of values that a node of the given level covers.
pub open spec fn span_at(bf: BranchFactor, level: int) -> int {
    pow(bf.spec_value() as int, level as nat)
}

/// Whether node `index` of the given level covers the value `v`.
pub open spec fn in_node(bf: BranchFactor, level: int, index: int, v: int) -> bool {
    index * span_at(bf, level) <= v < (index + 1) * span_at(bf, level)
}

/// The node covers a member of the set.
pub open spec fn node_present(s: Set<int>, bf: BranchFactor, level: int, index: int) -> bool {
    exists|v: int| s.contains(v) && #[trigger] in_node(bf, level, index, v)
}

/// Every value that the node covers is a member of the set.
pub open spec fn node_full(s: Set<int>, bf: BranchFactor, level: int, index: int) -> bool {
    forall|v: int| #[trigger] in_node(bf, level, index, v) ==> s.contains(v)
}

/// Whether bit `b` of the word is set.
pub open spec fn bit(w: u32, b: int) -> bool {
    0 <= b < 32 && (w >> (b as u32)) & 1 == 1
}

/// The word with only bit `b` set.
pub open spec fn one_bit(b: int) -> u32 {
    1u32 << (b as u32)
}

/// The word in which bit `j`, for `j` from `from` up to but not including
/// `n`, is set where `f(j)` holds, and no other bit is.
pub open spec fn or_bits(f: spec_fn(int) -> bool, from: int, n: int) -> u32
    decreases n - from,
{
    if from < 0 || from >= n {
        0
    } else {
        or_bits(f, from + 1, n) | (if f(from) {
            one_bit(from)
        } else {
            0
        })
    }
}

/// Whether child number `j` of a node is present.
pub open spec fn child_is_present(
    s: Set<int>,
    bf: BranchFactor,
    level: int,
    index: int,
    j: int,
) -> bool {
    node_present(s, bf, level - 1, index * bf.spec_value() + j)
}

/// Whether child number `j` of a node is full.
pub open spec fn child_is_full(
    s: Set<int>,
    bf: BranchFactor,
    level: int,
    index: int,
    j: int,
) -> bool {
    node_full(s, bf, level - 1, index * bf.spec_value() + j)
}

/// The bits of a node's present children.
pub open spec fn child_bits(s: Set<int>, bf: BranchFactor, level: int, index: int) -> u32 {
    or_bits(|j: int| child_is_present(s, bf, level, index, j), 0, bf.spec_value() as int)
}

/// The word of a node: zero if the node is full, else the bits of its
/// present children.
pub open spec fn node_word(s: Set<int>, bf: BranchFactor, level: int, index: int) -> u32 {
    if node_full(s, bf, level, index) {
        0
    } else {
        child_bits(s, bf, level, index)
    }
}

/// A node has a word in the stream if it is present and the node above it
/// is not full.
pub open spec fn node_emitted(
    s: Set<int>,
    bf: BranchFactor,
    height: int,
    level: int,
    index: int,
) -> bool {
    node_present(s, bf, level, index) && (level >= height || !node_full(
        s,
        bf,
        level + 1,
        index / (bf.spec_value() as int),
    ))
}

/// The words of the emitted nodes of one level whose index is at least `lo`
/// and below `hi`, by rising index.
pub open spec fn layer_words(
    s: Set<int>,
    bf: BranchFactor,
    height: int,
    level: int,
    lo: int,
    hi: int,
) -> Seq<u32>
    decreases hi - lo,
{
    if lo >= hi {
        Seq::empty()
    } else if node_emitted(s, bf, height, level, lo) {
        seq![node_word(s, bf, level, lo)] + layer_words(s, bf, height, level, lo + 1, hi)
    } else {
        layer_words(s, bf, height, level, lo + 1, hi)
    }
}

/// The words of the levels from `level` down to 1.
pub open spec fn tree_words(s: Set<int>, bf: BranchFactor, height: int, level: int) -> Seq<u32>
    decreases level,
{
    if level <= 0 {
        Seq::empty()
    } else {
        layer_words(s, bf, height, level, 0, span_at(bf, height - level)) + tree_words(
            s,
            bf,
            height,
            level - 1,
        )
    }
}

/// `m` is the greatest member of the set.
pub open spec fn is_max(s: Set<int>, m: int) -> bool {
    s.contains(m) && forall|v: int| s.contains(v) ==> v <= m
}

/// The greatest member of a set that has one.
pub open spec fn set_max(s: Set<int>) -> int {
    choose|m: int| is_max(s, m)
}

/// Every member of the set is a 32-bit value.
pub open spec fn is_u32_set(s: Set<int>) -> bool {
    forall|v: int| s.contains(v) ==> 0 <= v <= u32::MAX
}

/// The height of the tree by which a set with a member is encoded.
pub open spec fn encoding_height(s: Set<int>, bf: BranchFactor) -> int {
    tree_height(bf.spec_value() as int, set_max(s))
}

/// The sparse bit set of `s` with the given branch factor: for the empty
/// set a header with height zero, else a header with the height that the
/// greatest member asks for, and the words of the tree.
pub open spec fn sparse_bit_set(s: Set<int>, bf: BranchFactor) -> Seq<u8> {
    if s =~= Set::<int>::empty() {
        seq![header_byte(bf, 0)]
    } else {
        stream_bytes(
            bf,
            encoding_height(s, bf) as u8,
            tree_words(s, bf, encoding_height(s, bf), encoding_height(s, bf)),
        )
    }
}

/// A node that waits to be read from a stream: the first value that it covers
/// and its depth, the root having depth 1.
pub struct Pending {
    pub start: int,
    pub depth: int,
}

/// The pending nodes for the children of a node that `w` marks as present,
/// from child number `from` up.
pub open spec fn word_children(
    bf: BranchFactor,
    height: int,
    node: Pending,
    w: u32,
    from: int,
) -> Seq<Pending>
    decreases bf.spec_value() - from,
{
    if from < 0 || from >= bf.spec_value() {
        Seq::empty()
    } else if bit(w, from) {
        seq![
            Pending {
                start: node.start + from * span_at(bf, height - node.depth),
                depth: node.depth + 1,
            },
        ] + word_children(bf, height, node, w, from + 1)
    } else {
        word_children(bf, height, node, w, from + 1)
    }
}

/// The values that the word of a node of the lowest level stands for.
pub open spec fn word_values(bf: BranchFactor, start: int, w: u32) -> Set<int> {
    Set::new(|v: int| start <= v < start + bf.spec_value() && bit(w, v - start))
}

/// The first set, added to the second where there is one.
pub open spec fn join(a: Set<int>, r: Option<Set<int>>) -> Option<Set<int>> {
    match r {
        None => None,
        Some(s) => Some(a + s),
    }
}

/// What the node words from number `pos` on stand for, read breadth first
/// with `queue` holding the nodes that wait for their word. Nothing if the
/// stream ends while a node waits.
///
/// A zero word says that every value of its node is a member. Another word
/// of a node at depth `height` names members one by one, and of a node
/// above it the children to read later.
pub open spec fn decode_nodes(
    bytes: Seq<u8>,
    bf: BranchFactor,
    height: int,
    pos: int,
    queue: Seq<Pending>,
) -> Option<Set<int>>
    decreases stream_word_count(bytes, bf) - pos,
{
    if queue.len() == 0 {
        Some(Set::<int>::empty())
    } else {
        match stream_word(bytes, bf, pos) {
            None => None,
            Some(w) => {
                let next = queue[0];
                let rest = queue.drop_first();
                if w == 0 {
                    join(
                        range_set(
                            next.start,
                            next.start + span_at(bf, height - next.depth + 1) - 1,
                        ),
                        decode_nodes(bytes, bf, height, pos + 1, rest),
                    )
                } else if next.depth >= height {
                    join(
                        word_values(bf, next.start, w),
                        decode_nodes(bytes, bf, height, pos + 1, rest),
                    )
                } else {
                    decode_nodes(
                        bytes,
                        bf,
                        height,
                        pos + 1,
                        rest + word_children(bf, height, next, w, 0),
                    )
                }
            },
        }
    }
}

/// The set of integers that a byte stream stands for; nothing if the stream
/// has no header or ends too early.
pub open spec fn decoded_set(bytes: Seq<u8>) -> Option<Set<int>> {
    match stream_header(bytes) {
        None => None,
        Some((bf, height)) => {
            if height == 0 {
                Some(Set::<int>::empty())
            } else {
                decode_nodes(bytes, bf, height as int, 0, seq![Pending { start: 0, depth: 1 }])
            }
        },
    }
}

} // verus!
