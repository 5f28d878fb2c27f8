//! What holds of the sparse bit set codec as a whole.

use crate::bit_stream::{stream_bytes, stream_header};
use crate::branch_factor::{tree_height, BranchFactor};
use crate::int_set::range_set;
use crate::round_trip::{
    lemma_has_max, lemma_header_round_trip, lemma_round_trip, lemma_tree_height,
};
use crate::sparse_bit_set::{
    candidate, encodable, lemma_height_32, lemma_set_max, smallest_sparse_bit_set,
};
use crate::tree::{
    decoded_set, in_node, is_max, is_u32_set, layer_words, node_emitted, node_full, node_present,
    node_word, span_at, sparse_bit_set, tree_words,
};
use crate::tree_lemmas::{lemma_span_positive, lemma_span_step};
use vstd::arithmetic::power::{
    lemma_pow0, lemma_pow_increases_converse, lemma_pow_strictly_increases_converse, pow,
};
use vstd::prelude::*;

verus! {

/// A set of 32-bit values can always be written with 32 children per node.
pub proof fn lemma_always_encodable(s: Set<int>)
    requires
        is_u32_set(s),
    ensures
        encodable(s, BranchFactor::ThirtyTwo),
{
    if !(s =~= Set::<int>::empty()) {
        let v0 = choose|v: int| s.contains(v);
        assert(s.contains(v0));
        let m = lemma_has_max(s, u32::MAX as int);
        lemma_set_max(s, m);
        lemma_height_32(m as u32);
    }
}

/// The shortest stream of a set is the stream of one of the branch factors
/// with which the set can be written.
pub proof fn lemma_smallest_is_a_stream(s: Set<int>) -> (bf: BranchFactor)
    requires
        is_u32_set(s),
    ensures
        encodable(s, bf),
        smallest_sparse_bit_set(s) == sparse_bit_set(s, bf),
{
    lemma_always_encodable(s);
    let c2 = candidate(None, s, BranchFactor::Two);
    let c4 = candidate(c2, s, BranchFactor::Four);
    let c8 = candidate(c4, s, BranchFactor::Eight);
    let c32 = candidate(c8, s, BranchFactor::ThirtyTwo);
    let r = smallest_sparse_bit_set(s);
    if r == sparse_bit_set(s, BranchFactor::ThirtyTwo) {
        BranchFactor::ThirtyTwo
    } else if encodable(s, BranchFactor::Eight) && r == sparse_bit_set(s, BranchFactor::Eight) {
        BranchFactor::Eight
    } else if encodable(s, BranchFactor::Four) && r == sparse_bit_set(s, BranchFactor::Four) {
        BranchFactor::Four
    } else {
        BranchFactor::Two
    }
}

/// The shortest stream of a set is no longer than the stream
/// of any branch factor with which the set can be written.
pub proof fn lemma_smallest_is_shortest(s: Set<int>, bf: BranchFactor)
    requires
        is_u32_set(s),
        encodable(s, bf),
    ensures
        smallest_sparse_bit_set(s).len() <= sparse_bit_set(s, bf).len(),
{
    lemma_always_encodable(s);
}

/// The shortest stream of a set is
/// read back as the set.
pub proof fn lemma_smallest_round_trip(s: Set<int>)
    requires
        is_u32_set(s),
    ensures
        decoded_set(smallest_sparse_bit_set(s)) == Some(s),
{
    let bf = lemma_smallest_is_a_stream(s);
    lemma_round_trip(s, bf);
}

/// The stream of the empty set is one byte, a header with
/// height zero, and it is read back as the empty set.
pub proof fn lemma_empty_set(bf: BranchFactor)
    ensures
        sparse_bit_set(Set::<int>::empty(), bf).len() == 1,
        stream_header(sparse_bit_set(Set::<int>::empty(), bf)) == Some((bf, 0u8)),
        decoded_set(sparse_bit_set(Set::<int>::empty(), bf)) == Some(Set::<int>::empty()),
        smallest_sparse_bit_set(Set::<int>::empty()) == sparse_bit_set(
            Set::<int>::empty(),
            BranchFactor::Two,
        ),
{
    let e = Set::<int>::empty();
    let bytes = sparse_bit_set(e, bf);
    lemma_header_round_trip(bf, 0, Seq::<u32>::empty());
    assert(stream_bytes(bf, 0, Seq::<u32>::empty())[0] == bytes[0]);
    assert(stream_header(bytes) == Some((bf, 0u8)));
    assert(sparse_bit_set(e, BranchFactor::Four).len() == 1);
    assert(sparse_bit_set(e, BranchFactor::Eight).len() == 1);
    assert(sparse_bit_set(e, BranchFactor::ThirtyTwo).len() == 1);
}

/// The node `c` of level `low` lies below node `i` of level `level`.
pub open spec fn below(bf: BranchFactor, level: int, i: int, low: int, c: int) -> bool {
    low <= level && i * span_at(bf, level - low) <= c < (i + 1) * span_at(bf, level - low)
}

/// Every node below a full node is full.
pub proof fn lemma_full_below(
    s: Set<int>,
    bf: BranchFactor,
    level: int,
    i: int,
    low: int,
    c: int,
)
    requires
        0 <= low <= level,
        node_full(s, bf, level, i),
        below(bf, level, i, low, c),
    ensures
        node_full(s, bf, low, c),
{
    let d = span_at(bf, low);
    let k = span_at(bf, level - low);
    lemma_span_positive(bf, low);
    lemma_span_positive(bf, level - low);
    vstd::arithmetic::power::lemma_pow_adds(
        bf.spec_value() as int,
        (level - low) as nat,
        low as nat,
    );
    assert(span_at(bf, level) == k * d);
    assert forall|v: int| #[trigger] in_node(bf, low, c, v) implies s.contains(v) by {
        assert(i * (k * d) <= v && v < (i + 1) * (k * d)) by (nonlinear_arith)
            requires
                c * d <= v < (c + 1) * d,
                i * k <= c < (i + 1) * k,
                d >= 1,
                k >= 1,
        ;
        assert(in_node(bf, level, i, v));
    }
}

/// A run of `bf^k` consecutive members that begins at a
/// multiple of `bf^k` is a full node of level `k`. Where such a node has a
/// word in the stream, the word is zero; and no node below it has a word.
pub proof fn lemma_filled_node(
    s: Set<int>,
    bf: BranchFactor,
    h: int,
    level: int,
    i: int,
    low: int,
    c: int,
)
    requires
        1 <= low < level <= h,
        0 <= i,
        node_full(s, bf, level, i),
        below(bf, level, i, low, c),
    ensures
        node_emitted(s, bf, h, level, i) ==> node_word(s, bf, level, i) == 0,
        !node_emitted(s, bf, h, low, c),
{
    // The node above `c` lies below the full node or is the full node.
    let b = bf.spec_value() as int;
    let k = span_at(bf, level - low);
    let k1 = span_at(bf, level - low - 1);
    lemma_span_step(bf, level - low - 1);
    let p = c / b;
    lemma_span_positive(bf, level - low);
    lemma_span_positive(bf, level - low - 1);
    assert(0 <= c) by (nonlinear_arith)
        requires
            i * k <= c,
            0 <= i,
            k >= 1,
    ;
    crate::branch_factor::lemma_div_bounds(c, b);
    assert(i * k1 <= p < (i + 1) * k1) by (nonlinear_arith)
        requires
            i * (b * k1) <= c < (i + 1) * (b * k1),
            p * b <= c,
            c + 1 <= (p + 1) * b,
            b >= 2,
            k1 >= 1,
    ;
    assert(below(bf, level, i, low + 1, p));
    lemma_full_below(s, bf, level, i, low + 1, p);
}

/// A level on which no node has a word adds no word to the stream.
pub proof fn lemma_layer_without_words(
    s: Set<int>,
    bf: BranchFactor,
    h: int,
    level: int,
    lo: int,
    hi: int,
)
    requires
        forall|c: int| lo <= c < hi ==> !#[trigger] node_emitted(s, bf, h, level, c),
    ensures
        layer_words(s, bf, h, level, lo, hi) == Seq::<u32>::empty(),
    decreases hi - lo,
{
    if lo < hi {
        lemma_layer_without_words(s, bf, h, level, lo + 1, hi);
    }
}

/// A tree of height `k` is the lowest that reaches the value `bf^k - 1`.
pub proof fn lemma_height_of_full_tree(bf: BranchFactor, k: int)
    requires
        1 <= k,
    ensures
        tree_height(bf.spec_value() as int, span_at(bf, k) - 1) == k,
{
    let b = bf.spec_value() as int;
    let m = span_at(bf, k) - 1;
    lemma_span_positive(bf, k);
    lemma_tree_height(b, m);
    let h = tree_height(b, m);
    assert(pow(b, k as nat) <= pow(b, h as nat));
    lemma_pow_increases_converse(b as nat, k as nat, h as nat);
    if h > 1 {
        lemma_pow_strictly_increases_converse(b as nat, (h - 1) as nat, k as nat);
    }
}

/// Below a full root no level has a word.
proof fn lemma_no_words_below(s: Set<int>, bf: BranchFactor, k: int, level: int)
    requires
        0 <= level < k,
        node_full(s, bf, k, 0),
    ensures
        tree_words(s, bf, k, level) == Seq::<u32>::empty(),
    decreases level,
{
    if level > 0 {
        lemma_no_words_below(s, bf, k, level - 1);
        assert forall|c: int| 0 <= c < span_at(bf, k - level) implies !#[trigger] node_emitted(
            s,
            bf,
            k,
            level,
            c,
        ) by {
            assert(0 * span_at(bf, k - level) == 0 && (0 + 1) * span_at(bf, k - level) == span_at(
                bf,
                k - level,
            )) by (nonlinear_arith);
            lemma_filled_node(s, bf, k, k, 0, level, c);
        }
        lemma_layer_without_words(s, bf, k, level, 0, span_at(bf, k - level));
    }
}

/// The values from 0 up to, not including, `bf^k` make a full tree of height
/// `k`, and their stream is a header and one zero word: the root says that
/// every value is a member, and no node below it is written.
pub proof fn lemma_full_tree(bf: BranchFactor, k: int)
    requires
        1 <= k <= u8::MAX,
    ensures
        sparse_bit_set(range_set(0, span_at(bf, k) - 1), bf) == stream_bytes(
            bf,
            k as u8,
            seq![0u32],
        ),
{
    let s = range_set(0, span_at(bf, k) - 1);
    let b = bf.spec_value() as int;
    lemma_span_positive(bf, k);
    assert(s.contains(0));
    assert(is_max(s, span_at(bf, k) - 1));
    lemma_set_max(s, span_at(bf, k) - 1);
    lemma_height_of_full_tree(bf, k);
    // The root is present and full.
    assert(0 * span_at(bf, k) == 0 && (0 + 1) * span_at(bf, k) == span_at(bf, k))
        by (nonlinear_arith);
    assert(in_node(bf, k, 0, 0));
    assert(node_present(s, bf, k, 0));
    assert(node_full(s, bf, k, 0));
    lemma_pow0(b);
    assert(layer_words(s, bf, k, k, 1, 1) == Seq::<u32>::empty());
    assert(layer_words(s, bf, k, k, 0, 1) =~= seq![0u32]);
    lemma_no_words_below(s, bf, k, k - 1);
    assert(tree_words(s, bf, k, k) =~= seq![0u32]);
}

} // verus!
