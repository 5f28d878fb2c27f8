//! Reading and writing sets of integers as sparse bit sets: a compact byte
//! encoding in which the set is a tree, every node is one small word, and a
//! node whose values are all members is a single zero word.

use crate::bit_stream::{
    header_byte, stream_word, stream_word_count, InputBitStream, OutputBitStream, MAX_HEIGHT,
};
use crate::branch_factor::{lemma_pow_step, BranchFactor};
use crate::int_set::{range_set, IntSet};
use crate::layer_builder::{create_layer, job_ok, lemma_layer_of_tree, LayerJob};
use crate::layers::{
    built_nodes, emitted_words, layer_nodes, layer_size, lemma_built_emitted_words,
    lemma_layer_nodes_elements, lemma_layer_nodes_remark, node_record, record_words, whole_layer,
    Node, NodeType,
};
use crate::tree::{
    bit, child_is_present, decode_nodes, decoded_set, encoding_height, is_max, join, node_full,
    node_present, set_max, span_at, sparse_bit_set, word_children, word_values, Pending,
};
use crate::tree_lemmas::{lemma_level_zero, lemma_or_bits_range, lemma_span_positive};
use std::collections::VecDeque;
use vstd::arithmetic::power::{lemma_pow0, lemma_pow_positive, pow};
use vstd::prelude::*;

verus! {

/// The error of decoding: the stream has no header, or it ends before the
/// last node word that it promises.
#[derive(Debug)]
pub struct DecodingError;

impl DecodingError {
    /// The error in words.
    pub fn message(&self) -> (s: String)
        ensures
            s@ == "The input data stream was too short to be a valid sparse bit set."@,
    {
        "The input data stream was too short to be a valid sparse bit set.".to_owned()
    }
}

/// One more than the greatest value that a set can hold.
pub const VALUE_LIMIT: u64 = 0x1_0000_0000;

/// A node that waits for its word while a stream is decoded: the first value
/// that it covers, and its depth, the root having depth 1. A first value
/// beyond the 32-bit range is kept as `VALUE_LIMIT`.
pub struct NextNode {
    pub start: u64,
    pub depth: u32,
}

/// `x`, or `VALUE_LIMIT` if `x` is greater.
pub open spec fn capped(x: int) -> int {
    if x < VALUE_LIMIT {
        x
    } else {
        VALUE_LIMIT as int
    }
}

/// The waiting node stands for the pending node of the model.
pub open spec fn node_matches(n: NextNode, p: Pending, height: int) -> bool {
    &&& n.depth == p.depth
    &&& 1 <= p.depth <= height
    &&& 0 <= p.start
    &&& n.start == capped(p.start)
}

/// The queue stands for the pending nodes of the model, one for one.
pub open spec fn queue_matches(q: Seq<NextNode>, g: Seq<Pending>, height: int) -> bool {
    &&& q.len() == g.len()
    &&& forall|i: int| 0 <= i < q.len() ==> node_matches(#[trigger] q[i], g[i], height)
}

/// The members of the set that are 32-bit values.
pub open spec fn u32_part(s: Set<int>) -> Set<int> {
    s.intersect(range_set(0, u32::MAX as int))
}

/// The number of values under a node `levels` levels above the values, but
/// no more than `VALUE_LIMIT`.
fn capped_span(bf: BranchFactor, levels: u32) -> (r: u64)
    ensures
        r == capped(span_at(bf, levels as int)),
        r >= 1,
{
    let v: u64 = bf.value() as u64;
    let mut r: u64 = 1;
    let mut i: u32 = 0;
    proof {
        lemma_pow0(v as int);
    }
    while i < levels
        invariant
            i <= levels,
            v == bf.spec_value(),
            r == capped(pow(v as int, i as nat)),
            r >= 1,
        decreases levels - i,
    {
        proof {
            lemma_pow_step(v as int, i as nat);
            lemma_pow_positive(v as int, i as nat);
            let p = pow(v as int, i as nat);
            if p >= VALUE_LIMIT {
                assert(p * v >= VALUE_LIMIT) by (nonlinear_arith)
                    requires
                        p >= VALUE_LIMIT,
                        v >= 1,
                ;
            }
            assert(p * v == v * p) by (nonlinear_arith);
        }
        r = r * v;
        if r > VALUE_LIMIT {
            r = VALUE_LIMIT;
        }
        i += 1;
    }
    r
}

impl IntSet {
    /// The set that the sparse bit set `data` stands for.
    ///
    /// Fails if `data` is empty or ends before a node word that is due.
    /// Values beyond the 32-bit range, which a stream can name but a set
    /// cannot hold, are left out. Bytes behind the last node word are not
    /// read.
    pub fn from_sparse_bit_set(data: &[u8]) -> (r: Result<IntSet, DecodingError>)
        ensures
            match decoded_set(data@) {
                None => r is Err,
                Some(s) => r is Ok && r->Ok_0@ == u32_part(s),
            },
    {
        let (branch_factor, height) = match InputBitStream::decode_header(data) {
            None => {
                return Err(DecodingError);
            },
            Some(header) => header,
        };
        assert(height <= 31) by {
            let b = data@[0];
            assert((b & 0x7c) >> 2 <= 31) by (bit_vector);
        }
        Self::decode_sparse_bit_set_nodes(data, branch_factor, height)
    }

    /// The set that the node words of `data` stand for, read with the given
    /// branch factor and height.
    pub fn decode_sparse_bit_set_nodes(data: &[u8], bf: BranchFactor, height: u8) -> (r: Result<
        IntSet,
        DecodingError,
    >)
        requires
            height <= 31,
        ensures
            height == 0 ==> r is Ok && r->Ok_0@ == Set::<int>::empty(),
            height > 0 ==> match decode_nodes(
                data@,
                bf,
                height as int,
                0,
                seq![Pending { start: 0, depth: 1 }],
            ) {
                None => r is Err,
                Some(s) => r is Ok && r->Ok_0@ == u32_part(s),
            },
    {
        let mut out = IntSet::empty();
        if height == 0 {
            return Ok(out);
        }
        let h: u32 = height as u32;
        let bfv: u32 = bf.value();
        let mut bits = InputBitStream::from(data, bf);
        let mut queue: VecDeque<NextNode> = VecDeque::new();
        queue.push_back(NextNode { start: 0, depth: 1 });
        let ghost root = seq![Pending { start: 0, depth: 1 }];
        let ghost mut pending: Seq<Pending> = root;
        let ghost mut found: Set<int> = Set::empty();
        proof {
            assert(out@ =~= u32_part(found));
            lemma_join_empty(decode_nodes(data@, bf, h as int, 0, root));
        }
        loop
            invariant
                bits.wf(),
                bits.bytes() == data@,
                bits.branch_factor() == bf,
                bfv == bf.spec_value(),
                h == height,
                1 <= h <= 31,
                root == seq![Pending { start: 0, depth: 1 }],
                queue_matches(queue@, pending, h as int),
                out@ == u32_part(found),
                decode_nodes(data@, bf, h as int, 0, root) == join(
                    found,
                    decode_nodes(data@, bf, h as int, bits.position(), pending),
                ),
            ensures
                decode_nodes(data@, bf, h as int, 0, root) == Some(found),
                out@ == u32_part(found),
            decreases stream_word_count(data@, bf) - bits.position(),
        {
            let ghost queue0 = queue@;
            let next = match queue.pop_front() {
                None => {
                    proof {
                        assert(found + Set::<int>::empty() =~= found);
                    }
                    break ;
                },
                Some(next) => next,
            };
            let ghost pos = bits.position();
            let word: u32 = match bits.next() {
                None => {
                    proof {
                        assert(node_matches(queue0[0], pending[0], h as int));
                        assert(pending.len() > 0);
                        assert(stream_word(data@, bf, pos) is None);
                        assert(decode_nodes(data@, bf, h as int, pos, pending) is None);
                    }
                    return Err(DecodingError);
                },
                Some(word) => word,
            };
            let ghost p: Pending = pending[0];
            let ghost rest: Seq<Pending> = pending.drop_first();
            let ghost found0 = found;
            assert(node_matches(queue0[0], p, h as int));
            assert(queue_matches(queue@, rest, h as int)) by {
                assert forall|i: int| 0 <= i < queue@.len() implies node_matches(
                    #[trigger] queue@[i],
                    rest[i],
                    h as int,
                ) by {
                    assert(rest[i] == pending[i + 1]);
                    assert(queue@[i] == queue0[i + 1]);
                }
            }
            if word == 0 {
                // Every value that the node covers is a member.
                let span: u64 = capped_span(bf, h - next.depth + 1);
                if next.start < VALUE_LIMIT {
                    let stop: u64 = if next.start + span > VALUE_LIMIT {
                        VALUE_LIMIT
                    } else {
                        next.start + span
                    };
                    out.insert_range(next.start as u32, (stop - 1) as u32);
                }
                proof {
                    let whole = range_set(p.start, p.start + span_at(bf, h - p.depth + 1) - 1);
                    found = found0 + whole;
                    pending = rest;
                    assert(out@ =~= u32_part(found));
                    lemma_join_join(
                        found0,
                        whole,
                        decode_nodes(data@, bf, h as int, pos + 1, rest),
                    );
                }
            } else if next.depth == h {
                // The word names the members one by one.
                let mut b: u32 = 0;
                while b < bfv
                    invariant
                        b <= bfv,
                        bfv == bf.spec_value(),
                        node_matches(next, p, h as int),
                        forall|v: int|
                            #[trigger] found.contains(v) <==> (found0.contains(v) || (p.start <= v
                                < p.start + b && bit(word, v - p.start))),
                        out@ == u32_part(found),
                    decreases bfv - b,
                {
                    let ghost found1 = found;
                    if (word >> b) & 1 == 1 {
                        let v: u64 = next.start + b as u64;
                        if v < VALUE_LIMIT {
                            out.insert(v as u32);
                        }
                        proof {
                            found = found1.insert(p.start + b);
                            assert(out@ =~= u32_part(found));
                        }
                    }
                    b += 1;
                }
                proof {
                    assert(found =~= found0 + word_values(bf, p.start, word));
                    pending = rest;
                    lemma_join_join(
                        found0,
                        word_values(bf, p.start, word),
                        decode_nodes(data@, bf, h as int, pos + 1, rest),
                    );
                }
            } else {
                // The word names the children that are read later.
                let span: u64 = capped_span(bf, h - next.depth);
                let ghost mut built: Seq<Pending> = Seq::empty();
                let mut b: u32 = 0;
                proof {
                    assert(rest + built =~= rest);
                    assert(built + word_children(bf, h as int, p, word, 0) =~= word_children(
                        bf,
                        h as int,
                        p,
                        word,
                        0,
                    ));
                }
                while b < bfv
                    invariant
                        b <= bfv,
                        bfv == bf.spec_value(),
                        1 <= h <= 31,
                        node_matches(next, p, h as int),
                        p.depth < h,
                        span == capped(span_at(bf, h - p.depth)),
                        queue_matches(queue@, rest + built, h as int),
                        built + word_children(bf, h as int, p, word, b as int) == word_children(
                            bf,
                            h as int,
                            p,
                            word,
                            0,
                        ),
                    decreases bfv - b,
                {
                    if (word >> b) & 1 == 1 {
                        assert((b as u64) * span <= 32 * VALUE_LIMIT) by (nonlinear_arith)
                            requires
                                b < 32,
                                span <= VALUE_LIMIT,
                        ;
                        let reach: u64 = next.start + (b as u64) * span;
                        let start: u64 = if reach > VALUE_LIMIT {
                            VALUE_LIMIT
                        } else {
                            reach
                        };
                        let child = NextNode { start, depth: next.depth + 1 };
                        let ghost before = queue@;
                        queue.push_back(child);
                        proof {
                            let c = Pending {
                                start: p.start + b * span_at(bf, h - p.depth),
                                depth: p.depth + 1,
                            };
                            lemma_pow_positive(bf.spec_value() as int, (h - p.depth) as nat);
                            lemma_capped_sum(p.start, b as int, span_at(bf, h - p.depth));
                            assert(node_matches(child, c, h as int));
                            let grown = built.push(c);
                            assert(rest + grown =~= (rest + built).push(c));
                            assert(grown + word_children(bf, h as int, p, word, b + 1) =~= built
                                + word_children(bf, h as int, p, word, b as int));
                            built = grown;
                        }
                    }
                    b += 1;
                }
                proof {
                    assert(built =~= word_children(bf, h as int, p, word, 0));
                    pending = rest + built;
                }
            }
        }
        Ok(out)
    }
}

/// Whether the tree of `s` for the branch factor has a height that a header
/// can hold. The empty set has no tree.
pub open spec fn encodable(s: Set<int>, bf: BranchFactor) -> bool {
    s =~= Set::<int>::empty() || encoding_height(s, bf) <= MAX_HEIGHT
}

/// Whether the set can be encoded with the branch factor.
pub fn is_encodable(set: &IntSet, branch_factor: BranchFactor) -> (r: bool)
    ensures
        r == encodable(set@, branch_factor),
{
    match set.last() {
        None => {
            assert(set@ =~= Set::<int>::empty());
            true
        },
        Some(max_value) => {
            proof {
                lemma_set_max(set@, max_value as int);
                assert(!(set@ =~= Set::<int>::empty()));
            }
            branch_factor.tree_height_for(max_value) <= MAX_HEIGHT
        },
    }
}

/// The first stream unless the second is shorter. With no first stream, the
/// second.
pub open spec fn shorter(best: Option<Seq<u8>>, other: Seq<u8>) -> Seq<u8> {
    match best {
        None => other,
        Some(b) => if other.len() < b.len() {
            other
        } else {
            b
        },
    }
}

/// The better of `best` and the stream of `s` for `bf`, where the set can be
/// encoded with `bf`.
pub open spec fn candidate(best: Option<Seq<u8>>, s: Set<int>, bf: BranchFactor) -> Option<
    Seq<u8>,
> {
    if encodable(s, bf) {
        Some(shorter(best, sparse_bit_set(s, bf)))
    } else {
        best
    }
}

/// The shortest sparse bit set of `s` among those of the four branch
/// factors; of several of that length, the one of the smallest branch
/// factor.
pub open spec fn smallest_sparse_bit_set(s: Set<int>) -> Seq<u8> {
    candidate(
        candidate(
            candidate(candidate(None, s, BranchFactor::Two), s, BranchFactor::Four),
            s,
            BranchFactor::Eight,
        ),
        s,
        BranchFactor::ThirtyTwo,
    )->Some_0
}

/// The one of two streams that `shorter` names.
fn keep_shorter(best: Option<Vec<u8>>, other: Vec<u8>) -> (r: Vec<u8>)
    ensures
        r@ == shorter(
            match best {
                None => None,
                Some(b) => Some(b@),
            },
            other@,
        ),
{
    match best {
        None => other,
        Some(b) => if other.len() < b.len() {
            other
        } else {
            b
        },
    }
}

impl IntSet {
    /// The shortest sparse bit set of this set: the streams of all branch
    /// factors whose tree a header can hold are made, and the shortest is
    /// returned; of several of that length, the first.
    pub fn to_sparse_bit_set(&self) -> (bytes: Vec<u8>)
        ensures
            bytes@ == smallest_sparse_bit_set(self@),
    {
        let max_value: u32 = match self.last() {
            None => {
                let bytes = OutputBitStream::new(BranchFactor::Two, 0).into_bytes();
                proof {
                    assert(bytes@ =~= seq![header_byte(BranchFactor::Two, 0)]);
                    assert(bytes@ == sparse_bit_set(self@, BranchFactor::Two));
                    assert(sparse_bit_set(self@, BranchFactor::Four).len() == 1);
                    assert(sparse_bit_set(self@, BranchFactor::Eight).len() == 1);
                    assert(sparse_bit_set(self@, BranchFactor::ThirtyTwo).len() == 1);
                }
                return bytes;
            },
            Some(m) => m,
        };
        proof {
            lemma_set_max(self@, max_value as int);
            lemma_height_32(max_value);
        }
        let mut best: Option<Vec<u8>> = None;
        if is_encodable(self, BranchFactor::Two) {
            best = Some(keep_shorter(best, to_sparse_bit_set_with(self, BranchFactor::Two)));
        }
        if is_encodable(self, BranchFactor::Four) {
            best = Some(keep_shorter(best, to_sparse_bit_set_with(self, BranchFactor::Four)));
        }
        if is_encodable(self, BranchFactor::Eight) {
            best = Some(keep_shorter(best, to_sparse_bit_set_with(self, BranchFactor::Eight)));
        }
        if is_encodable(self, BranchFactor::ThirtyTwo) {
            best = Some(keep_shorter(best, to_sparse_bit_set_with(self, BranchFactor::ThirtyTwo)));
        }
        match best {
            Some(bytes) => bytes,
            None => Vec::new(),
        }
    }
}

/// The sparse bit set of `set` for the branch factor `BF`, which is 2, 4, 8
/// or 32.
pub fn to_sparse_bit_set_with_bf<const BF: u8>(set: &IntSet) -> (bytes: Vec<u8>)
    requires
        BF == 2 || BF == 4 || BF == 8 || BF == 32,
        encodable(set@, BranchFactor::spec_from_val(BF)),
    ensures
        bytes@ == sparse_bit_set(set@, BranchFactor::spec_from_val(BF)),
{
    to_sparse_bit_set_with(set, BranchFactor::from_val(BF))
}

/// The sparse bit set of `set` for the given branch factor.
///
/// The records of the tree are built level by level from the values up; the
/// stream gets their words from the last record to the first.
pub fn to_sparse_bit_set_with(set: &IntSet, branch_factor: BranchFactor) -> (bytes: Vec<u8>)
    requires
        encodable(set@, branch_factor),
    ensures
        bytes@ == sparse_bit_set(set@, branch_factor),
{
    let max_value: u32 = match set.last() {
        None => {
            let bytes = OutputBitStream::new(branch_factor, 0).into_bytes();
            assert(bytes@ =~= seq![header_byte(branch_factor, 0)]);
            return bytes;
        },
        Some(m) => m,
    };
    let height: u8 = branch_factor.tree_height_for(max_value);
    let ghost s = set@;
    let ghost h: int = height as int;
    proof {
        lemma_set_max(s, max_value as int);
        set.lemma_bounds();
        assert(!(s =~= Set::<int>::empty()));
    }
    let mut os = OutputBitStream::new(branch_factor, height);
    let mut nodes: Vec<Node> = Vec::new();
    let mut indices = set.clone();
    let mut filled_indices = IntSet::all();
    let mut child_count: usize = 0;
    let mut remaining: u8 = height;
    proof {
        assert(nodes@ =~= built_nodes(s, branch_factor, h, -1) + whole_layer(
            s,
            branch_factor,
            h,
            0,
            layer_size(branch_factor, h, 0),
        ));
        assert forall|i: int| #[trigger] indices@.contains(i) <==> node_present(
            s,
            branch_factor,
            0,
            i,
        ) by {
            lemma_level_zero(s, branch_factor, i);
        }
        assert forall|i: int| indices@.contains(i) implies (#[trigger] filled_indices@.contains(i)
            <==> node_full(s, branch_factor, 0, i)) by {
            lemma_level_zero(s, branch_factor, i);
        }
    }
    while remaining > 0
        invariant
            0 <= remaining <= height,
            h == height,
            1 <= h <= 31,
            s == set@,
            forall|v: int| s.contains(v) ==> 0 <= v <= max_value,
            max_value < span_at(branch_factor, h),
            h == 1 || span_at(branch_factor, h - 1) <= max_value,
            nodes@ == built_nodes(s, branch_factor, h, h - remaining - 1) + whole_layer(
                s,
                branch_factor,
                h,
                h - remaining,
                layer_size(branch_factor, h, h - remaining),
            ),
            child_count == whole_layer(s, branch_factor, h, h - remaining, 0).len(),
            forall|i: int| #[trigger]
                indices@.contains(i) <==> node_present(s, branch_factor, h - remaining, i),
            forall|i: int|
                indices@.contains(i) ==> (#[trigger] filled_indices@.contains(i) <==> node_full(
                    s,
                    branch_factor,
                    h - remaining,
                    i,
                )),
        decreases remaining,
    {
        let ghost level: int = h - remaining;
        let ghost job = LayerJob {
            s,
            bf: branch_factor,
            height: h,
            level: level + 1,
            base: built_nodes(s, branch_factor, h, level - 1),
        };
        proof {
            lemma_job_ok(job, max_value as int);
        }
        let before: usize = nodes.len();
        let ghost values = indices@;
        let ghost filled = filled_indices@;
        let ghost held = nodes@;
        let (upper, upper_filled) = create_layer(
            branch_factor,
            indices,
            filled_indices,
            &mut nodes,
            child_count,
        );
        indices = upper;
        filled_indices = upper_filled;
        proof {
            lemma_layer_of_tree(job, values, filled, held, child_count as int);
        }
        proof {
            if level >= 1 {
                let lower = layer_size(branch_factor, h, level);
                lemma_layer_nodes_remark(s, branch_factor, h, level, 0, lower, lower, 0);
            }
        }
        child_count = nodes.len() - before;
        remaining = remaining - 1;
        proof {
            let size = layer_size(branch_factor, h, level + 1);
            lemma_layer_nodes_remark(s, branch_factor, h, level + 1, 0, size, size, 0);
            assert(built_nodes(s, branch_factor, h, level) =~= built_nodes(
                s,
                branch_factor,
                h,
                level - 1,
            ) + whole_layer(s, branch_factor, h, level, 0));
        }
    }
    proof {
        lemma_root_layer(s, branch_factor, h, layer_size(branch_factor, h, h));
        assert(nodes@ =~= built_nodes(s, branch_factor, h, h));
        lemma_built_bits(s, branch_factor, h, h);
        lemma_built_emitted_words(s, branch_factor, h, h);
        assert(nodes@.subrange(0, nodes@.len() as int) =~= nodes@);
        assert(os.words() + emitted_words(nodes@) =~= emitted_words(nodes@));
    }
    let mask_all: Ghost<u32> = Ghost(branch_factor.spec_u32_mask());
    let mut i: usize = nodes.len();
    while i > 0
        invariant
            i <= nodes@.len(),
            os.wf(),
            os.branch_factor() == branch_factor,
            os.height() == height,
            mask_all@ == branch_factor.spec_u32_mask(),
            forall|k: int|
                0 <= k < nodes@.len() ==> (#[trigger] nodes@[k]).bits & mask_all@ == nodes@[k].bits,
            os.words() + emitted_words(nodes@.subrange(0, i as int)) == emitted_words(nodes@),
        decreases i,
    {
        i = i - 1;
        let node: Node = nodes[i];
        let ghost words0 = os.words();
        match node.node_type {
            NodeType::Standard => {
                os.write_node(node.bits);
            },
            NodeType::Filled => {
                assert(0u32 & mask_all@ == 0) by (bit_vector);
                os.write_node(0);
            },
            NodeType::Skip => {},
        }
        proof {
            let upto = nodes@.subrange(0, i + 1);
            assert(upto.last() == node);
            assert(upto.drop_last() =~= nodes@.subrange(0, i as int));
            assert(os.words() =~= words0 + record_words(node));
            assert(os.words() + emitted_words(nodes@.subrange(0, i as int)) =~= words0 + (
            record_words(node) + emitted_words(nodes@.subrange(0, i as int))));
        }
    }
    proof {
        assert(os.words() + emitted_words(nodes@.subrange(0, 0)) =~= os.words());
    }
    os.into_bytes()
}

/// The greatest member of a set is told by what it is.
pub proof fn lemma_set_max(s: Set<int>, m: int)
    requires
        is_max(s, m),
    ensures
        set_max(s) == m,
{
    let c = set_max(s);
    assert(is_max(s, c));
}

/// A tree with 32 children per node reaches every 32-bit value within
/// seven levels.
pub proof fn lemma_height_32(max_value: u32)
    ensures
        BranchFactor::ThirtyTwo.spec_tree_height_for(max_value) <= 7,
{
    reveal_with_fuel(crate::branch_factor::tree_height, 8);
    let m = max_value as int;
    assert(m / 32 / 32 / 32 / 32 / 32 / 32 < 32);
}

/// Every node of a level that is present has its place in the level, for a
/// tree that holds the whole set.
pub proof fn lemma_present_bounds(s: Set<int>, bf: BranchFactor, height: int, level: int, i: int)
    requires
        0 <= level <= height,
        forall|v: int| s.contains(v) ==> 0 <= v <= u32::MAX && v < span_at(bf, height),
        node_present(s, bf, level, i),
    ensures
        0 <= i <= u32::MAX,
        i < layer_size(bf, height, level),
{
    let v = choose|v: int| s.contains(v) && #[trigger] crate::tree::in_node(bf, level, i, v);
    let d = span_at(bf, level);
    let big = span_at(bf, height - level);
    lemma_span_positive(bf, level);
    lemma_span_positive(bf, height - level);
    vstd::arithmetic::power::lemma_pow_adds(
        bf.spec_value() as int,
        (height - level) as nat,
        level as nat,
    );
    assert(span_at(bf, height) == big * d);
    assert(0 <= i && i <= v && i < big) by (nonlinear_arith)
        requires
            i * d <= v < (i + 1) * d,
            0 <= v < big * d,
            d >= 1,
            big >= 1,
    ;
}

/// The job of building one more level of the tree of a set is in order.
proof fn lemma_job_ok(job: LayerJob, max_value: int)
    requires
        1 <= job.level <= job.height,
        forall|v: int| job.s.contains(v) ==> 0 <= v <= max_value,
        max_value <= u32::MAX,
        max_value < span_at(job.bf, job.height),
        job.height == 1 || span_at(job.bf, job.height - 1) <= max_value,
    ensures
        job_ok(job),
{
    let v = job.bf.spec_value() as int;
    lemma_span_positive(job.bf, 0);
    vstd::arithmetic::power::lemma_pow0(v);
    if job.height > 1 {
        vstd::arithmetic::power::lemma_pow_increases(
            v as nat,
            (job.height - job.level) as nat,
            (job.height - 1) as nat,
        );
        if job.level >= 2 {
            vstd::arithmetic::power::lemma_pow_increases(
                v as nat,
                (job.height - job.level + 1) as nat,
                (job.height - 1) as nat,
            );
        }
    }
    assert forall|i: int| #[trigger]
        node_present(job.s, job.bf, job.level - 1, i) implies 0 <= i <= u32::MAX && i < layer_size(
        job.bf,
        job.height,
        job.level - 1,
    ) by {
        lemma_present_bounds(job.s, job.bf, job.height, job.level - 1, i);
    }
}

/// The records of the root's level do not change when they are looked at
/// from above: there is nothing above.
proof fn lemma_root_layer(s: Set<int>, bf: BranchFactor, height: int, marked_from: int)
    requires
        height >= 1,
    ensures
        whole_layer(s, bf, height, height, marked_from) == whole_layer(s, bf, height, height, 0),
{
    vstd::arithmetic::power::lemma_pow0(bf.spec_value() as int);
    let size = layer_size(bf, height, height);
    let a = layer_nodes(s, bf, height, height, 0, size, marked_from);
    let b = layer_nodes(s, bf, height, height, 0, size, 0);
    lemma_layer_nodes_remark(s, bf, height, height, 0, size, marked_from, 0);
    lemma_layer_nodes_elements(s, bf, height, height, 0, size, marked_from);
    assert forall|k: int| 0 <= k < a.len() implies a[k] == b[k] by {
        let idx = a[k].parent_index as int;
        assert(a[k] == node_record(s, bf, height, height, idx, marked_from));
        assert(b[k] == node_record(s, bf, height, height, idx, 0));
    }
    assert(a =~= b);
}

/// No record holds a bit beyond the branch factor.
proof fn lemma_layer_bits(
    s: Set<int>,
    bf: BranchFactor,
    height: int,
    level: int,
    lo: int,
    hi: int,
    marked_from: int,
)
    ensures
        forall|k: int|
            0 <= k < layer_nodes(s, bf, height, level, lo, hi, marked_from).len() ==> (
            #[trigger] layer_nodes(s, bf, height, level, lo, hi, marked_from)[k]).bits
                & bf.spec_u32_mask() == layer_nodes(
                s,
                bf,
                height,
                level,
                lo,
                hi,
                marked_from,
            )[k].bits,
    decreases hi - lo,
{
    if lo < hi {
        lemma_layer_bits(s, bf, height, level, lo + 1, hi, marked_from);
        lemma_or_bits_range(|j: int| child_is_present(s, bf, level, lo, j), bf);
    }
}

/// No record of a tree holds a bit beyond the branch factor.
proof fn lemma_built_bits(s: Set<int>, bf: BranchFactor, height: int, level: int)
    ensures
        forall|k: int|
            0 <= k < built_nodes(s, bf, height, level).len() ==> (#[trigger] built_nodes(
                s,
                bf,
                height,
                level,
            )[k]).bits & bf.spec_u32_mask() == built_nodes(s, bf, height, level)[k].bits,
    decreases level,
{
    if level > 0 {
        lemma_built_bits(s, bf, height, level - 1);
        lemma_layer_bits(s, bf, height, level, 0, layer_size(bf, height, level), 0);
    }
}

/// Joining the empty set changes nothing.
proof fn lemma_join_empty(r: Option<Set<int>>)
    ensures
        join(Set::<int>::empty(), r) == r,
{
    match r {
        None => {},
        Some(s) => {
            assert(Set::<int>::empty() + s =~= s);
        },
    }
}

/// Joining two sets one after the other joins their union.
proof fn lemma_join_join(a: Set<int>, b: Set<int>, r: Option<Set<int>>)
    ensures
        join(a, join(b, r)) == join(a + b, r),
{
    match r {
        None => {},
        Some(s) => {
            assert(a + (b + s) =~= (a + b) + s);
        },
    }
}

/// Capping the first value of a child gives the same whether its parts are
/// capped before or not.
proof fn lemma_capped_sum(start: int, b: int, span: int)
    requires
        0 <= start,
        0 <= b < 32,
        1 <= span,
    ensures
        capped(start) + b * capped(span) <= 33 * VALUE_LIMIT,
        capped(start + b * span) == capped(capped(start) + b * capped(span)),
        0 <= start + b * span,
{
    assert(0 <= b * span) by (nonlinear_arith)
        requires
            0 <= b,
            1 <= span,
    ;
    assert(b * capped(span) <= 32 * VALUE_LIMIT) by (nonlinear_arith)
        requires
            0 <= b < 32,
            1 <= capped(span) <= VALUE_LIMIT,
    ;
    if b >= 1 && span >= VALUE_LIMIT {
        assert(b * span >= VALUE_LIMIT) by (nonlinear_arith)
            requires
                b >= 1,
                span >= VALUE_LIMIT,
        ;
        assert(b * (VALUE_LIMIT as int) >= VALUE_LIMIT) by (nonlinear_arith)
            requires
                b >= 1,
        ;
    }
    if b == 0 {
        assert(b * span == 0 && b * capped(span) == 0) by (nonlinear_arith)
            requires
                b == 0,
        ;
    }
}

} // verus!
