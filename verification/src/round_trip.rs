//! What is written can be read: the stream of a set decodes to the set.

use crate::bit_stream::{
    byte_of_word, header_byte, node_byte, node_bytes_len, pack2, pack4, slot, stream_bytes,
    stream_header, stream_word, stream_word_count, MAX_HEIGHT,
};
use crate::branch_factor::{lemma_pow_step, tree_height, BranchFactor};
use crate::int_set::range_set;
use crate::layers::layer_size;
use crate::sparse_bit_set::{encodable, lemma_set_max};
use crate::tree::{
    bit, child_is_present, decode_nodes, decoded_set, encoding_height, in_node, is_max, is_u32_set,
    layer_words, node_emitted, node_full, node_present, node_word, span_at, sparse_bit_set,
    tree_words, word_children, word_values, Pending,
};
use crate::tree_lemmas::{
    lemma_child_in_parent, lemma_full_split, lemma_level_zero, lemma_or_bits_bit,
    lemma_or_bits_range, lemma_parent_in_child, lemma_present_up, lemma_span_positive,
    lemma_span_step,
};
use vstd::arithmetic::power::pow;
use vstd::prelude::*;

verus! {

/// The pending node that stands for node `i` of `level` in a tree of height
/// `h`.
pub open spec fn entry(bf: BranchFactor, h: int, level: int, i: int) -> Pending {
    Pending { start: i * span_at(bf, level), depth: h - level + 1 }
}

/// The pending nodes of the emitted nodes of a level whose index is at least
/// `lo` and below `hi`, by rising index.
pub open spec fn emitted_queue(
    s: Set<int>,
    bf: BranchFactor,
    h: int,
    level: int,
    lo: int,
    hi: int,
) -> Seq<Pending>
    decreases hi - lo,
{
    if level < 1 || lo >= hi {
        Seq::empty()
    } else if node_emitted(s, bf, h, level, lo) {
        seq![entry(bf, h, level, lo)] + emitted_queue(s, bf, h, level, lo + 1, hi)
    } else {
        emitted_queue(s, bf, h, level, lo + 1, hi)
    }
}

/// The member `v` lies in an emitted node of the level whose index is at
/// least `lo` and below `hi`.
pub open spec fn yields(
    s: Set<int>,
    bf: BranchFactor,
    h: int,
    level: int,
    lo: int,
    hi: int,
    v: int,
) -> bool {
    level >= 1 && s.contains(v) && exists|i: int|
        lo <= i < hi && #[trigger] in_node(bf, level, i, v) && node_emitted(s, bf, h, level, i)
}

/// The members that are read from the nodes of `level` numbered `n` and up,
/// and from the children of the nodes before them.
pub open spec fn expected(s: Set<int>, bf: BranchFactor, h: int, level: int, n: int) -> Set<int> {
    Set::new(
        |v: int|
            yields(s, bf, h, level, n, layer_size(bf, h, level), v) || yields(
                s,
                bf,
                h,
                level - 1,
                0,
                n * bf.spec_value(),
                v,
            ),
    )
}

/// The set lies within the tree: its members are not negative and below the
/// number of values that the root covers.
pub open spec fn fits_tree(s: Set<int>, bf: BranchFactor, h: int) -> bool {
    forall|v: int| s.contains(v) ==> 0 <= v <= u32::MAX && v < span_at(bf, h)
}

/// The emitted nodes of a stretch of a level are those of its two halves.
pub proof fn lemma_queue_split(
    s: Set<int>,
    bf: BranchFactor,
    h: int,
    level: int,
    lo: int,
    mid: int,
    hi: int,
)
    requires
        lo <= mid <= hi,
    ensures
        emitted_queue(s, bf, h, level, lo, hi) == emitted_queue(s, bf, h, level, lo, mid)
            + emitted_queue(s, bf, h, level, mid, hi),
    decreases mid - lo,
{
    if level < 1 {
        assert(emitted_queue(s, bf, h, level, lo, hi) =~= emitted_queue(s, bf, h, level, lo, mid)
            + emitted_queue(s, bf, h, level, mid, hi));
    } else if lo < mid {
        lemma_queue_split(s, bf, h, level, lo + 1, mid, hi);
        assert(emitted_queue(s, bf, h, level, lo, hi) =~= emitted_queue(s, bf, h, level, lo, mid)
            + emitted_queue(s, bf, h, level, mid, hi));
    } else {
        assert(emitted_queue(s, bf, h, level, lo, hi) =~= emitted_queue(s, bf, h, level, lo, mid)
            + emitted_queue(s, bf, h, level, mid, hi));
    }
}

/// No child of a node is emitted if the node is full or is not emitted.
pub proof fn lemma_no_child_emitted(
    s: Set<int>,
    bf: BranchFactor,
    h: int,
    level: int,
    n: int,
    c: int,
)
    requires
        2 <= level <= h,
        0 <= n,
        n * bf.spec_value() <= c < (n + 1) * bf.spec_value(),
        node_full(s, bf, level, n) || !node_emitted(s, bf, h, level, n),
    ensures
        !node_emitted(s, bf, h, level - 1, c),
{
    let b = bf.spec_value() as int;
    crate::layer_builder::lemma_div_is(c, b, n);
    if !node_full(s, bf, level, n) {
        // The node is not emitted.
        if node_present(s, bf, level, n) {
            // The node above it is full, and so is the node.
            assert(level < h);
            let up = n / b;
            crate::branch_factor::lemma_div_bounds(n, b);
            lemma_full_split(s, bf, level + 1, up);
            let j = n - up * b;
            assert(0 <= j < b && up * b + j == n) by (nonlinear_arith)
                requires
                    up * b <= n,
                    n + 1 <= (up + 1) * b,
                    j == n - up * b,
            ;
            assert(crate::tree::child_is_full(s, bf, level + 1, up, j));
        } else {
            if node_present(s, bf, level - 1, c) {
                let j = c - n * b;
                lemma_present_up(s, bf, level - 1, n, j);
            }
        }
    }
}

/// The children of a node that is full or not emitted add nothing to the
/// queue.
pub proof fn lemma_children_queue_empty(
    s: Set<int>,
    bf: BranchFactor,
    h: int,
    level: int,
    n: int,
    lo: int,
)
    requires
        2 <= level <= h,
        0 <= n,
        n * bf.spec_value() <= lo <= (n + 1) * bf.spec_value(),
        node_full(s, bf, level, n) || !node_emitted(s, bf, h, level, n),
    ensures
        emitted_queue(s, bf, h, level - 1, lo, (n + 1) * bf.spec_value()) == Seq::<
            Pending,
        >::empty(),
    decreases (n + 1) * bf.spec_value() - lo,
{
    if lo < (n + 1) * bf.spec_value() {
        lemma_no_child_emitted(s, bf, h, level, n, lo);
        lemma_children_queue_empty(s, bf, h, level, n, lo + 1);
    }
}

/// The children that the word of an emitted node names are its emitted
/// children.
pub proof fn lemma_children_queue(
    s: Set<int>,
    bf: BranchFactor,
    h: int,
    level: int,
    n: int,
    j: int,
)
    requires
        2 <= level <= h,
        0 <= n,
        0 <= j <= bf.spec_value(),
        node_emitted(s, bf, h, level, n),
        !node_full(s, bf, level, n),
    ensures
        emitted_queue(
            s,
            bf,
            h,
            level - 1,
            n * bf.spec_value() + j,
            (n + 1) * bf.spec_value(),
        ) == word_children(bf, h, entry(bf, h, level, n), node_word(s, bf, level, n), j),
    decreases bf.spec_value() - j,
{
    let b = bf.spec_value() as int;
    let w = node_word(s, bf, level, n);
    let q = entry(bf, h, level, n);
    assert((n + 1) * b == n * b + b) by (nonlinear_arith);
    if j < b {
        lemma_children_queue(s, bf, h, level, n, j + 1);
        let c = n * b + j;
        crate::layer_builder::lemma_div_is(c, b, n);
        lemma_or_bits_bit(|k: int| child_is_present(s, bf, level, n, k), 0, b, j);
        assert(bit(w, j) == child_is_present(s, bf, level, n, j));
        assert(node_emitted(s, bf, h, level - 1, c) == bit(w, j));
        lemma_span_step(bf, level - 1);
        assert(c * span_at(bf, level - 1) == n * span_at(bf, level) + j * span_at(bf, level - 1))
            by (nonlinear_arith)
            requires
                c == n * b + j,
                span_at(bf, level) == b * span_at(bf, level - 1),
        ;
        assert(entry(bf, h, level - 1, c) == (Pending {
            start: q.start + j * span_at(bf, h - q.depth),
            depth: q.depth + 1,
        }));
    }
}

/// Stepping over a node that yields nothing itself: one that is not
/// emitted, or one whose children are read later.
pub proof fn lemma_expected_step(s: Set<int>, bf: BranchFactor, h: int, level: int, n: int)
    requires
        1 <= level <= h,
        0 <= n < layer_size(bf, h, level),
        !node_emitted(s, bf, h, level, n) || (level >= 2 && !node_full(s, bf, level, n)),
    ensures
        expected(s, bf, h, level, n) == expected(s, bf, h, level, n + 1),
{
    let b = bf.spec_value() as int;
    let size = layer_size(bf, h, level);
    assert((n + 1) * b == n * b + b) by (nonlinear_arith);
    assert forall|v: int|
        expected(s, bf, h, level, n).contains(v) == expected(s, bf, h, level, n + 1).contains(
            v,
        ) by {
        let a1 = yields(s, bf, h, level, n, size, v);
        let a2 = yields(s, bf, h, level - 1, 0, n * b, v);
        let b1 = yields(s, bf, h, level, n + 1, size, v);
        let b2 = yields(s, bf, h, level - 1, 0, (n + 1) * b, v);
        if a1 && !b1 {
            let i = choose|i: int|
                n <= i < size && #[trigger] in_node(bf, level, i, v) && node_emitted(
                    s,
                    bf,
                    h,
                    level,
                    i,
                );
            assert(i == n);
            // The member lies in a child of the node, which is emitted.
            let j = lemma_parent_in_child(bf, level - 1, n, v);
            let c = n * b + j;
            crate::layer_builder::lemma_div_is(c, b, n);
            assert(node_present(s, bf, level - 1, c));
            assert(node_emitted(s, bf, h, level - 1, c));
            assert(b2);
        }
        if a2 && !b2 {
            let c = choose|c: int|
                0 <= c < n * b && #[trigger] in_node(bf, level - 1, c, v) && node_emitted(
                    s,
                    bf,
                    h,
                    level - 1,
                    c,
                );
            assert(0 <= c < (n + 1) * b && in_node(bf, level - 1, c, v));
        }
        if b1 && !a1 {
            let i = choose|i: int|
                n + 1 <= i < size && #[trigger] in_node(bf, level, i, v) && node_emitted(
                    s,
                    bf,
                    h,
                    level,
                    i,
                );
            assert(n <= i < size && in_node(bf, level, i, v));
        }
        if b2 && !a2 {
            let c = choose|c: int|
                0 <= c < (n + 1) * b && #[trigger] in_node(bf, level - 1, c, v) && node_emitted(
                    s,
                    bf,
                    h,
                    level - 1,
                    c,
                );
            assert(c >= n * b);
            if level >= 2 {
                if node_emitted(s, bf, h, level, n) {
                    let j = c - n * b;
                    lemma_child_in_parent(bf, level - 1, n, j, v);
                    assert(n <= n < size && in_node(bf, level, n, v));
                    assert(a1);
                } else {
                    lemma_no_child_emitted(s, bf, h, level, n, c);
                }
            }
        }
    }
    assert(expected(s, bf, h, level, n) =~= expected(s, bf, h, level, n + 1));
}

/// Stepping over a node that yields all its members itself: a full node, or
/// a node of the lowest level.
pub proof fn lemma_expected_take(s: Set<int>, bf: BranchFactor, h: int, level: int, n: int)
    requires
        1 <= level <= h,
        0 <= n < layer_size(bf, h, level),
        node_emitted(s, bf, h, level, n),
        level == 1 || node_full(s, bf, level, n),
    ensures
        expected(s, bf, h, level, n) == Set::new(|v: int| s.contains(v) && in_node(bf, level, n, v))
            + expected(s, bf, h, level, n + 1),
{
    let b = bf.spec_value() as int;
    let size = layer_size(bf, h, level);
    let own = Set::new(|v: int| s.contains(v) && in_node(bf, level, n, v));
    assert((n + 1) * b == n * b + b) by (nonlinear_arith);
    assert forall|v: int|
        expected(s, bf, h, level, n).contains(v) == (own + expected(s, bf, h, level, n + 1)).contains(
            v,
        ) by {
        let a1 = yields(s, bf, h, level, n, size, v);
        let a2 = yields(s, bf, h, level - 1, 0, n * b, v);
        let b1 = yields(s, bf, h, level, n + 1, size, v);
        let b2 = yields(s, bf, h, level - 1, 0, (n + 1) * b, v);
        if a1 && !b1 {
            let i = choose|i: int|
                n <= i < size && #[trigger] in_node(bf, level, i, v) && node_emitted(
                    s,
                    bf,
                    h,
                    level,
                    i,
                );
            assert(i == n);
        }
        if a2 && !b2 {
            let c = choose|c: int|
                0 <= c < n * b && #[trigger] in_node(bf, level - 1, c, v) && node_emitted(
                    s,
                    bf,
                    h,
                    level - 1,
                    c,
                );
            assert(0 <= c < (n + 1) * b && in_node(bf, level - 1, c, v));
        }
        if own.contains(v) {
            assert(n <= n < size && in_node(bf, level, n, v));
            assert(a1);
        }
        if b1 && !a1 {
            let i = choose|i: int|
                n + 1 <= i < size && #[trigger] in_node(bf, level, i, v) && node_emitted(
                    s,
                    bf,
                    h,
                    level,
                    i,
                );
            assert(n <= i < size && in_node(bf, level, i, v));
        }
        if b2 && !a2 {
            let c = choose|c: int|
                0 <= c < (n + 1) * b && #[trigger] in_node(bf, level - 1, c, v) && node_emitted(
                    s,
                    bf,
                    h,
                    level - 1,
                    c,
                );
            assert(c >= n * b);
            assert(level >= 2);
            lemma_no_child_emitted(s, bf, h, level, n, c);
        }
    }
    assert(expected(s, bf, h, level, n) =~= own + expected(s, bf, h, level, n + 1));
}

/// The word of an emitted node that is not full is not zero.
pub proof fn lemma_word_not_zero(s: Set<int>, bf: BranchFactor, level: int, n: int)
    requires
        level >= 1,
        node_present(s, bf, level, n),
        !node_full(s, bf, level, n),
    ensures
        node_word(s, bf, level, n) != 0,
{
    let j = crate::tree_lemmas::lemma_present_down(s, bf, level, n);
    let f = |k: int| child_is_present(s, bf, level, n, k);
    assert(f(j));
    lemma_or_bits_range(f, bf);
}

/// The word of a node of the lowest level names the members that the node
/// covers.
pub proof fn lemma_leaf_word_values(s: Set<int>, bf: BranchFactor, n: int)
    requires
        !node_full(s, bf, 1, n),
    ensures
        word_values(bf, n * span_at(bf, 1), node_word(s, bf, 1, n)) == Set::new(
            |v: int| s.contains(v) && in_node(bf, 1, n, v),
        ),
{
    let b = bf.spec_value() as int;
    let w = node_word(s, bf, 1, n);
    lemma_span_step(bf, 0);
    assert(span_at(bf, 1) == b) by (nonlinear_arith)
        requires
            span_at(bf, 1) == b * span_at(bf, 0),
            span_at(bf, 0) == 1,
    ;
    assert((n + 1) * b == n * b + b) by (nonlinear_arith);
    let own = Set::new(|v: int| s.contains(v) && in_node(bf, 1, n, v));
    assert forall|v: int| word_values(bf, n * b, w).contains(v) == own.contains(v) by {
        if n * b <= v < n * b + b {
            let j = v - n * b;
            lemma_or_bits_bit(|k: int| child_is_present(s, bf, 1, n, k), 0, b, j);
            lemma_level_zero(s, bf, v);
            assert(bit(w, j) == child_is_present(s, bf, 1, n, j));
        }
    }
    assert(word_values(bf, n * b, w) =~= own);
}

/// The number of the word at which reading stops: the word behind the last
/// one that is read, or the one that is missing.
pub open spec fn decode_reads(
    bytes: Seq<u8>,
    bf: BranchFactor,
    height: int,
    pos: int,
    queue: Seq<Pending>,
) -> int
    decreases stream_word_count(bytes, bf) - pos,
{
    if queue.len() == 0 {
        pos
    } else {
        match stream_word(bytes, bf, pos) {
            None => pos,
            Some(w) => {
                let next = queue[0];
                let rest = queue.drop_first();
                if w == 0 || next.depth >= height {
                    decode_reads(bytes, bf, height, pos + 1, rest)
                } else {
                    decode_reads(
                        bytes,
                        bf,
                        height,
                        pos + 1,
                        rest + word_children(bf, height, next, w, 0),
                    )
                }
            },
        }
    }
}

/// The stream holds the words `ws` from word number `base` on.
pub open spec fn holds_words(bytes: Seq<u8>, bf: BranchFactor, base: int, ws: Seq<u32>) -> bool {
    forall|p: int| 0 <= p < ws.len() ==> #[trigger] stream_word(bytes, bf, base + p) == Some(ws[p])
}

/// Read breadth first, the words of the emitted nodes of a tree from some
/// node of some level on give the members that those nodes cover.
pub proof fn lemma_decode_layers(
    bytes: Seq<u8>,
    s: Set<int>,
    bf: BranchFactor,
    h: int,
    level: int,
    n: int,
    base: int,
    ws: Seq<u32>,
)
    requires
        1 <= level <= h,
        fits_tree(s, bf, h),
        0 <= n <= layer_size(bf, h, level),
        0 <= base,
        ws == layer_words(s, bf, h, level, n, layer_size(bf, h, level)) + tree_words(
            s,
            bf,
            h,
            level - 1,
        ),
        holds_words(bytes, bf, base, ws),
    ensures
        decode_nodes(
            bytes,
            bf,
            h,
            base,
            emitted_queue(s, bf, h, level, n, layer_size(bf, h, level)) + emitted_queue(
                s,
                bf,
                h,
                level - 1,
                0,
                n * bf.spec_value(),
            ),
        ) == Some(expected(s, bf, h, level, n)),
        decode_reads(
            bytes,
            bf,
            h,
            base,
            emitted_queue(s, bf, h, level, n, layer_size(bf, h, level)) + emitted_queue(
                s,
                bf,
                h,
                level - 1,
                0,
                n * bf.spec_value(),
            ),
        ) == base + ws.len(),
    decreases level, layer_size(bf, h, level) - n,
{
    let b = bf.spec_value() as int;
    let size = layer_size(bf, h, level);
    let lower = emitted_queue(s, bf, h, level - 1, 0, n * b);
    let queue = emitted_queue(s, bf, h, level, n, size) + lower;
    lemma_span_step(bf, h - level);
    assert(size * b == layer_size(bf, h, level - 1)) by (nonlinear_arith)
        requires
            layer_size(bf, h, level - 1) == b * size,
    ;
    assert((n + 1) * b == n * b + b) by (nonlinear_arith);
    assert(0 <= n * b) by (nonlinear_arith)
        requires
            0 <= n,
            b >= 2,
    ;
    if n == size {
        assert(queue =~= lower);
        if level == 1 {
            assert(lower =~= Seq::<Pending>::empty());
            assert(ws =~= Seq::<u32>::empty());
            assert(expected(s, bf, h, level, n) =~= Set::<int>::empty()) by {
                assert forall|v: int| !expected(s, bf, h, level, n).contains(v) by {
                    if yields(s, bf, h, level, n, size, v) {
                    }
                }
            }
        } else {
            let below = layer_size(bf, h, level - 1);
            assert(ws =~= layer_words(s, bf, h, level - 1, 0, below) + tree_words(
                s,
                bf,
                h,
                level - 2,
            ));
            lemma_decode_layers(bytes, s, bf, h, level - 1, 0, base, ws);
            assert(emitted_queue(s, bf, h, level - 2, 0, 0 * b) =~= Seq::<Pending>::empty());
            assert(emitted_queue(s, bf, h, level - 1, 0, below) + emitted_queue(
                s,
                bf,
                h,
                level - 2,
                0,
                0 * b,
            ) =~= lower);
            assert(expected(s, bf, h, level - 1, 0) =~= expected(s, bf, h, level, n)) by {
                assert forall|v: int|
                    expected(s, bf, h, level - 1, 0).contains(v) == expected(
                        s,
                        bf,
                        h,
                        level,
                        n,
                    ).contains(v) by {
                    assert(!yields(s, bf, h, level, n, size, v));
                    assert(!yields(s, bf, h, level - 2, 0, 0 * b, v));
                    if yields(s, bf, h, level - 1, 0, below, v) {
                        let c = choose|c: int|
                            0 <= c < below && #[trigger] in_node(bf, level - 1, c, v)
                                && node_emitted(s, bf, h, level - 1, c);
                        assert(0 <= c < n * b && in_node(bf, level - 1, c, v));
                    }
                    if yields(s, bf, h, level - 1, 0, n * b, v) {
                        let c = choose|c: int|
                            0 <= c < n * b && #[trigger] in_node(bf, level - 1, c, v)
                                && node_emitted(s, bf, h, level - 1, c);
                        assert(0 <= c < below && in_node(bf, level - 1, c, v));
                    }
                }
            }
        }
    } else if !node_emitted(s, bf, h, level, n) {
        assert(emitted_queue(s, bf, h, level, n, size) == emitted_queue(
            s,
            bf,
            h,
            level,
            n + 1,
            size,
        ));
        if level >= 2 {
            lemma_queue_split(s, bf, h, level - 1, 0, n * b, (n + 1) * b);
            lemma_children_queue_empty(s, bf, h, level, n, n * b);
        }
        assert(emitted_queue(s, bf, h, level - 1, 0, (n + 1) * b) =~= lower);
        lemma_expected_step(s, bf, h, level, n);
        lemma_decode_layers(bytes, s, bf, h, level, n + 1, base, ws);
    } else {
        let q = entry(bf, h, level, n);
        let w = node_word(s, bf, level, n);
        let rest = emitted_queue(s, bf, h, level, n + 1, size) + lower;
        let ws1 = layer_words(s, bf, h, level, n + 1, size) + tree_words(s, bf, h, level - 1);
        assert(ws =~= seq![w] + ws1);
        assert(queue =~= seq![q] + rest);
        assert(queue[0] == q);
        assert(queue.drop_first() =~= rest);
        assert(stream_word(bytes, bf, base + 0) == Some(ws[0]));
        assert(holds_words(bytes, bf, base + 1, ws1)) by {
            assert forall|p: int| 0 <= p < ws1.len() implies #[trigger] stream_word(
                bytes,
                bf,
                base + 1 + p,
            ) == Some(ws1[p]) by {
                assert(stream_word(bytes, bf, base + (p + 1)) == Some(ws[p + 1]));
            }
        }
        assert(h - q.depth + 1 == level);
        if node_full(s, bf, level, n) {
            assert(w == 0);
            if level >= 2 {
                lemma_queue_split(s, bf, h, level - 1, 0, n * b, (n + 1) * b);
                lemma_children_queue_empty(s, bf, h, level, n, n * b);
            }
            assert(emitted_queue(s, bf, h, level - 1, 0, (n + 1) * b) =~= lower);
            lemma_decode_layers(bytes, s, bf, h, level, n + 1, base + 1, ws1);
            lemma_expected_take(s, bf, h, level, n);
            let own = Set::new(|v: int| s.contains(v) && in_node(bf, level, n, v));
            assert(range_set(q.start, q.start + span_at(bf, level) - 1) =~= own) by {
                assert((n + 1) * span_at(bf, level) == n * span_at(bf, level) + span_at(bf, level))
                    by (nonlinear_arith);
                assert forall|v: int|
                    range_set(q.start, q.start + span_at(bf, level) - 1).contains(v)
                        == own.contains(v) by {
                    if in_node(bf, level, n, v) {
                        assert(s.contains(v));
                    }
                }
            }
        } else {
            lemma_word_not_zero(s, bf, level, n);
            if level == 1 {
                assert(q.depth >= h);
                assert(lower =~= Seq::<Pending>::empty());
                assert(emitted_queue(s, bf, h, level - 1, 0, (n + 1) * b) =~= lower);
                lemma_decode_layers(bytes, s, bf, h, level, n + 1, base + 1, ws1);
                lemma_expected_take(s, bf, h, level, n);
                lemma_leaf_word_values(s, bf, n);
            } else {
                assert(q.depth < h);
                lemma_children_queue(s, bf, h, level, n, 0);
                assert(n * b + 0 == n * b);
                lemma_queue_split(s, bf, h, level - 1, 0, n * b, (n + 1) * b);
                assert(rest + word_children(bf, h, q, w, 0) =~= emitted_queue(
                    s,
                    bf,
                    h,
                    level,
                    n + 1,
                    size,
                ) + emitted_queue(s, bf, h, level - 1, 0, (n + 1) * b));
                lemma_decode_layers(bytes, s, bf, h, level, n + 1, base + 1, ws1);
                lemma_expected_step(s, bf, h, level, n);
            }
        }
    }
}

/// A header byte tells the branch factor and the height that it was made
/// of.
pub proof fn lemma_header_round_trip(bf: BranchFactor, height: u8, words: Seq<u32>)
    requires
        height <= MAX_HEIGHT,
    ensures
        stream_header(stream_bytes(bf, height, words)) == Some((bf, height)),
{
    let c = bf.spec_code();
    let hb = header_byte(bf, height);
    assert(c < 4 && height <= 31 ==> ((((height & 0x1f) << 2) | c) & 0x3 == c && ((((height & 0x1f)
        << 2) | c) & 0x7c) >> 2 == height)) by (bit_vector);
    assert(stream_bytes(bf, height, words)[0] == hb);
}

/// Every word of a stream is read as it was written, as far as its bits lie
/// within the branch factor.
pub proof fn lemma_stream_words(bf: BranchFactor, height: u8, words: Seq<u32>)
    requires
        forall|i: int| 0 <= i < words.len() ==> masked(bf, #[trigger] words[i]),
    ensures
        holds_words(stream_bytes(bf, height, words), bf, 0, words),
{
    let bytes = stream_bytes(bf, height, words);
    let n = words.len() as int;
    assert(bytes.len() == 1 + node_bytes_len(bf, n));
    assert forall|i: int| 0 <= i < n implies #[trigger] stream_word(bytes, bf, 0 + i) == Some(
        words[i],
    ) by {
        let w = words[i];
        assert(masked(bf, w));
        match bf {
            BranchFactor::Two => {
                let k = i / 4;
                let r = i % 4;
                let a = slot(words, 4 * k);
                let b = slot(words, 4 * k + 1);
                let c = slot(words, 4 * k + 2);
                let d = slot(words, 4 * k + 3);
                assert(bytes[1 + k] == pack2(a, b, c, d));
                assert({
                    let p = (((a & 3) | ((b & 3) << 2) | ((c & 3) << 4) | ((d & 3) << 6)) as u8)
                        as u32;
                    (p >> 0u32) & 3 == a & 3 && (p >> 2u32) & 3 == b & 3 && (p >> 4u32) & 3 == c
                        & 3 && (p >> 6u32) & 3 == d & 3
                }) by (bit_vector);
            },
            BranchFactor::Four => {
                let k = i / 2;
                let r = i % 2;
                let a = slot(words, 2 * k);
                let b = slot(words, 2 * k + 1);
                assert(bytes[1 + k] == pack4(a, b));
                assert({
                    let p = (((a & 15) | ((b & 15) << 4)) as u8) as u32;
                    (p >> 0u32) & 15 == a & 15 && (p >> 4u32) & 15 == b & 15
                }) by (bit_vector);
            },
            BranchFactor::Eight => {
                assert(bytes[1 + i] == node_byte(bf, words, i));
                assert(((w & 0xff) as u8) as u32 == w & 0xff) by (bit_vector);
            },
            BranchFactor::ThirtyTwo => {
                assert(bytes[1 + 4 * i] == byte_of_word(w, 0));
                assert(bytes[2 + 4 * i] == node_byte(bf, words, 4 * i + 1));
                assert(bytes[3 + 4 * i] == node_byte(bf, words, 4 * i + 2));
                assert(bytes[4 + 4 * i] == node_byte(bf, words, 4 * i + 3));
                assert((((w & 0xff) as u8) as u32) | ((((w >> 8) & 0xff) as u8) as u32) << 8 | ((((w
                    >> 16) & 0xff) as u8) as u32) << 16 | ((((w >> 24) & 0xff) as u8) as u32) << 24
                    == w) by (bit_vector);
            },
        }
    }
}

/// The word has no bit beyond the branch factor.
pub open spec fn masked(bf: BranchFactor, w: u32) -> bool {
    w & bf.spec_u32_mask() == w
}

/// No word of a level has a bit beyond the branch factor.
pub proof fn lemma_layer_words_masked(
    s: Set<int>,
    bf: BranchFactor,
    h: int,
    level: int,
    lo: int,
    hi: int,
)
    ensures
        forall|i: int|
            0 <= i < layer_words(s, bf, h, level, lo, hi).len() ==> masked(
                bf,
                #[trigger] layer_words(s, bf, h, level, lo, hi)[i],
            ),
    decreases hi - lo,
{
    if lo < hi {
        lemma_layer_words_masked(s, bf, h, level, lo + 1, hi);
        lemma_or_bits_range(|k: int| child_is_present(s, bf, level, lo, k), bf);
        let m = bf.spec_u32_mask();
        assert(0u32 & m == 0) by (bit_vector);
        let all = layer_words(s, bf, h, level, lo, hi);
        let rest = layer_words(s, bf, h, level, lo + 1, hi);
        assert(masked(bf, node_word(s, bf, level, lo)));
        assert forall|i: int| 0 <= i < all.len() implies masked(bf, #[trigger] all[i]) by {
            if node_emitted(s, bf, h, level, lo) {
                if i > 0 {
                    assert(all[i] == rest[i - 1]);
                }
            }
        }
    }
}

/// No word of a tree has a bit beyond the branch factor.
pub proof fn lemma_tree_words_masked(s: Set<int>, bf: BranchFactor, h: int, level: int)
    ensures
        forall|i: int|
            0 <= i < tree_words(s, bf, h, level).len() ==> masked(
                bf,
                #[trigger] tree_words(s, bf, h, level)[i],
            ),
    decreases level,
{
    if level > 0 {
        lemma_tree_words_masked(s, bf, h, level - 1);
        lemma_layer_words_masked(s, bf, h, level, 0, span_at(bf, h - level));
        let all = tree_words(s, bf, h, level);
        let first = layer_words(s, bf, h, level, 0, span_at(bf, h - level));
        let rest = tree_words(s, bf, h, level - 1);
        assert forall|i: int| 0 <= i < all.len() implies masked(bf, #[trigger] all[i]) by {
            if i < first.len() {
                assert(all[i] == first[i]);
            } else {
                assert(all[i] == rest[i - first.len()]);
            }
        }
    }
}

/// A set of 32-bit values with a member has a greatest member.
pub proof fn lemma_has_max(s: Set<int>, bound: int) -> (m: int)
    requires
        exists|v: int| s.contains(v),
        forall|v: int| s.contains(v) ==> 0 <= v <= bound,
    ensures
        is_max(s, m),
    decreases bound,
{
    if s.contains(bound) {
        bound
    } else {
        let v = choose|v: int| s.contains(v);
        assert(bound > 0);
        lemma_has_max(s, bound - 1)
    }
}

/// The height of a tree is at least one, the tree reaches the greatest
/// value, and a tree one level lower would not.
pub proof fn lemma_tree_height(value: int, max_value: int)
    requires
        value >= 2,
        max_value >= 0,
    ensures
        tree_height(value, max_value) >= 1,
        pow(value, tree_height(value, max_value) as nat) > max_value,
        tree_height(value, max_value) == 1 || pow(
            value,
            (tree_height(value, max_value) - 1) as nat,
        ) <= max_value,
    decreases max_value,
{
    vstd::arithmetic::power::lemma_pow1(value);
    vstd::arithmetic::power::lemma_pow0(value);
    if max_value >= value {
        let q = max_value / value;
        crate::branch_factor::lemma_div_bounds(max_value, value);
        assert(1 <= q < max_value) by (nonlinear_arith)
            requires
                q * value <= max_value,
                max_value + 1 <= (q + 1) * value,
                value >= 2,
                max_value >= value,
        ;
        lemma_tree_height(value, q);
        let t = tree_height(value, q);
        lemma_pow_step(value, t as nat);
        assert(value * pow(value, t as nat) > max_value) by (nonlinear_arith)
            requires
                pow(value, t as nat) >= q + 1,
                max_value + 1 <= (q + 1) * value,
                value >= 2,
        ;
        if t > 1 {
            lemma_pow_step(value, (t - 1) as nat);
            assert(value * pow(value, (t - 1) as nat) <= max_value) by (nonlinear_arith)
                requires
                    pow(value, (t - 1) as nat) <= q,
                    q * value <= max_value,
                    value >= 2,
            ;
        }
    }
}

/// The stream of a set with a member: its header tells the branch factor and
/// the height of the tree, and read from the root its node words give the
/// set, every word being read.
pub proof fn lemma_decode_tree(s: Set<int>, bf: BranchFactor)
    requires
        is_u32_set(s),
        encodable(s, bf),
        !(s =~= Set::<int>::empty()),
    ensures
        1 <= encoding_height(s, bf) <= MAX_HEIGHT,
        sparse_bit_set(s, bf) == stream_bytes(
            bf,
            encoding_height(s, bf) as u8,
            tree_words(s, bf, encoding_height(s, bf), encoding_height(s, bf)),
        ),
        stream_header(sparse_bit_set(s, bf)) == Some((bf, encoding_height(s, bf) as u8)),
        decode_nodes(
            sparse_bit_set(s, bf),
            bf,
            encoding_height(s, bf),
            0,
            seq![Pending { start: 0, depth: 1 }],
        ) == Some(s),
        decode_reads(
            sparse_bit_set(s, bf),
            bf,
            encoding_height(s, bf),
            0,
            seq![Pending { start: 0, depth: 1 }],
        ) == tree_words(s, bf, encoding_height(s, bf), encoding_height(s, bf)).len(),
{
    let v0 = choose|v: int| s.contains(v);
    assert(s.contains(v0));
    let m = lemma_has_max(s, u32::MAX as int);
    lemma_set_max(s, m);
    let h = encoding_height(s, bf);
    lemma_tree_height(bf.spec_value() as int, m);
    let ws = tree_words(s, bf, h, h);
    let bytes = stream_bytes(bf, h as u8, ws);
    assert(bytes == sparse_bit_set(s, bf));
    lemma_header_round_trip(bf, h as u8, ws);
    lemma_tree_words_masked(s, bf, h, h);
    lemma_stream_words(bf, h as u8, ws);
    assert(fits_tree(s, bf, h));
    vstd::arithmetic::power::lemma_pow0(bf.spec_value() as int);
    assert(layer_size(bf, h, h) == 1);
    assert(ws =~= layer_words(s, bf, h, h, 0, 1) + tree_words(s, bf, h, h - 1));
    lemma_decode_layers(bytes, s, bf, h, h, 0, 0, ws);
    // The root is emitted, and covers every member.
    lemma_span_positive(bf, h);
    assert(forall|v: int| s.contains(v) ==> in_node(bf, h, 0, v)) by {
        assert(0 * span_at(bf, h) == 0 && (0 + 1) * span_at(bf, h) == span_at(bf, h))
            by (nonlinear_arith);
    }
    assert(in_node(bf, h, 0, v0));
    assert(node_emitted(s, bf, h, h, 0));
    assert(0 * bf.spec_value() == 0);
    let root = seq![Pending { start: 0, depth: 1 }];
    assert(emitted_queue(s, bf, h, h, 0, 1) + emitted_queue(s, bf, h, h - 1, 0, 0) =~= root) by {
        assert(0 * span_at(bf, h) == 0) by (nonlinear_arith);
        assert(emitted_queue(s, bf, h, h, 1, 1) =~= Seq::<Pending>::empty());
        assert(emitted_queue(s, bf, h, h - 1, 0, 0) =~= Seq::<Pending>::empty());
    }
    assert(expected(s, bf, h, h, 0) =~= s) by {
        assert forall|v: int| expected(s, bf, h, h, 0).contains(v) == s.contains(v) by {
            if s.contains(v) {
                assert(0 <= 0 < 1 && in_node(bf, h, 0, v));
                assert(yields(s, bf, h, h, 0, 1, v));
            }
        }
    }
}

/// A set of 32-bit values that is written with a branch factor whose tree a
/// header can hold is read back as it was.
pub proof fn lemma_round_trip(s: Set<int>, bf: BranchFactor)
    requires
        is_u32_set(s),
        encodable(s, bf),
    ensures
        decoded_set(sparse_bit_set(s, bf)) == Some(s),
{
    if s =~= Set::<int>::empty() {
        let bytes = sparse_bit_set(s, bf);
        lemma_header_round_trip(bf, 0, Seq::<u32>::empty());
        assert(stream_bytes(bf, 0, Seq::<u32>::empty())[0] == bytes[0]);
        assert(stream_header(bytes) == Some((bf, 0u8)));
    } else {
        lemma_decode_tree(s, bf);
    }
}

/// A stream that ends before the last word that is read is not read at all.
pub proof fn lemma_short_stream(
    bytes: Seq<u8>,
    short: Seq<u8>,
    bf: BranchFactor,
    h: int,
    pos: int,
    queue: Seq<Pending>,
    t: int,
)
    requires
        0 <= pos <= t,
        forall|p: int| 0 <= p < t ==> stream_word(short, bf, p) == stream_word(bytes, bf, p),
        forall|p: int| t <= p ==> stream_word(short, bf, p) is None,
        decode_reads(bytes, bf, h, pos, queue) > t,
        decode_nodes(bytes, bf, h, pos, queue) is Some,
    ensures
        decode_nodes(short, bf, h, pos, queue) is None,
    decreases stream_word_count(bytes, bf) - pos,
{
    if queue.len() > 0 {
        if pos < t {
            assert(stream_word(short, bf, pos) == stream_word(bytes, bf, pos));
            assert(stream_word(bytes, bf, pos) is Some);
            let w = stream_word(bytes, bf, pos)->Some_0;
            let next = queue[0];
            let rest = queue.drop_first();
            if w == 0 || next.depth >= h {
                lemma_short_stream(bytes, short, bf, h, pos + 1, rest, t);
            } else {
                lemma_short_stream(
                    bytes,
                    short,
                    bf,
                    h,
                    pos + 1,
                    rest + word_children(bf, h, next, w, 0),
                    t,
                );
            }
        } else {
            assert(stream_word(short, bf, pos) is None);
        }
    }
}

/// A stream that was written and has then lost bytes at its
/// end, one or more, is refused.
pub proof fn lemma_truncated(s: Set<int>, bf: BranchFactor, len: int)
    requires
        is_u32_set(s),
        encodable(s, bf),
        0 <= len < sparse_bit_set(s, bf).len(),
    ensures
        decoded_set(sparse_bit_set(s, bf).subrange(0, len)) is None,
{
    let bytes = sparse_bit_set(s, bf);
    let short = bytes.subrange(0, len);
    if len > 0 {
        assert(!(s =~= Set::<int>::empty()));
        lemma_decode_tree(s, bf);
        let h = encoding_height(s, bf);
        let ws = tree_words(s, bf, h, h);
        let root = seq![Pending { start: 0, depth: 1 }];
        assert(short[0] == bytes[0]);
        assert(stream_header(short) == Some((bf, h as u8)));
        let t = stream_word_count(short, bf);
        let n = ws.len() as int;
        assert(bytes.len() == 1 + node_bytes_len(bf, n));
        assert(t < n);
        assert forall|p: int| 0 <= p < t implies stream_word(short, bf, p) == stream_word(
            bytes,
            bf,
            p,
        ) by {
            match bf {
                BranchFactor::Two => {
                    assert(short[1 + p / 4] == bytes[1 + p / 4]);
                },
                BranchFactor::Four => {
                    assert(short[1 + p / 2] == bytes[1 + p / 2]);
                },
                BranchFactor::Eight => {
                    assert(short[1 + p] == bytes[1 + p]);
                },
                BranchFactor::ThirtyTwo => {
                    assert(short[1 + 4 * p] == bytes[1 + 4 * p]);
                    assert(short[2 + 4 * p] == bytes[2 + 4 * p]);
                    assert(short[3 + 4 * p] == bytes[3 + 4 * p]);
                    assert(short[4 + 4 * p] == bytes[4 + 4 * p]);
                },
            }
        }
        lemma_short_stream(bytes, short, bf, h, 0, root, t);
    }
}

} // verus!
