//! Facts about the tree of a sparse bit set: how a node and its children
//! share their values, and how the bits of a word are told apart.

use crate::branch_factor::{lemma_pow_step, BranchFactor};
use crate::tree::{
    bit, child_is_full, child_is_present, in_node, node_full, node_present, one_bit, or_bits,
    span_at,
};
use vstd::arithmetic::power::{lemma_pow0, lemma_pow_positive};
use vstd::prelude::*;

verus! {

/// A node covers at least one value.
pub proof fn lemma_span_positive(bf: BranchFactor, level: int)
    requires
        level >= 0,
    ensures
        span_at(bf, level) >= 1,
{
    lemma_pow_positive(bf.spec_value() as int, level as nat);
}

/// A node covers as many values as its children together.
pub proof fn lemma_span_step(bf: BranchFactor, level: int)
    requires
        level >= 0,
    ensures
        span_at(bf, level + 1) == bf.spec_value() * span_at(bf, level),
        span_at(bf, level) >= 1,
        span_at(bf, 0) == 1,
{
    lemma_pow_step(bf.spec_value() as int, level as nat);
    lemma_pow_positive(bf.spec_value() as int, level as nat);
    lemma_pow0(bf.spec_value() as int);
}

/// A value of child `j` of node `p` is a value of node `p`.
pub proof fn lemma_child_in_parent(bf: BranchFactor, level: int, p: int, j: int, v: int)
    requires
        level >= 0,
        0 <= j < bf.spec_value(),
        in_node(bf, level, p * bf.spec_value() + j, v),
    ensures
        in_node(bf, level + 1, p, v),
{
    let d = span_at(bf, level);
    let b = bf.spec_value() as int;
    lemma_span_step(bf, level);
    assert(p * (b * d) <= (p * b + j) * d && (p * b + j + 1) * d <= (p + 1) * (b * d))
        by (nonlinear_arith)
        requires
            0 <= j < b,
            d >= 1,
    ;
}

/// A value of node `p` is a value of one of its children.
pub proof fn lemma_parent_in_child(bf: BranchFactor, level: int, p: int, v: int) -> (j: int)
    requires
        level >= 0,
        in_node(bf, level + 1, p, v),
    ensures
        0 <= j < bf.spec_value(),
        in_node(bf, level, p * bf.spec_value() + j, v),
{
    let d = span_at(bf, level);
    let b = bf.spec_value() as int;
    lemma_span_step(bf, level);
    let i = v / d;
    vstd::arithmetic::div_mod::lemma_fundamental_div_mod(v, d);
    vstd::arithmetic::div_mod::lemma_mod_bound(v, d);
    assert(i * d <= v < (i + 1) * d) by (nonlinear_arith)
        requires
            v == d * i + v % d,
            0 <= v % d < d,
    ;
    assert(p * b <= i < (p + 1) * b) by (nonlinear_arith)
        requires
            p * (b * d) <= v < (p + 1) * (b * d),
            i * d <= v < (i + 1) * d,
            d >= 1,
            b >= 2,
    ;
    i - p * b
}

/// At level 0 a node is its value.
pub proof fn lemma_level_zero(s: Set<int>, bf: BranchFactor, v: int)
    ensures
        node_present(s, bf, 0, v) <==> s.contains(v),
        node_full(s, bf, 0, v) <==> s.contains(v),
{
    lemma_span_step(bf, 0);
    assert(forall|x: int| in_node(bf, 0, v, x) <==> x == v) by {
        assert forall|x: int| in_node(bf, 0, v, x) <==> x == v by {
            assert(v * 1 == v && (v + 1) * 1 == v + 1);
        }
    }
    if s.contains(v) {
        assert(in_node(bf, 0, v, v));
    }
    if node_full(s, bf, 0, v) {
        assert(in_node(bf, 0, v, v));
    }
}

/// The node above a present node is present.
pub proof fn lemma_present_up(s: Set<int>, bf: BranchFactor, level: int, p: int, j: int)
    requires
        level >= 0,
        0 <= j < bf.spec_value(),
        node_present(s, bf, level, p * bf.spec_value() + j),
    ensures
        node_present(s, bf, level + 1, p),
{
    let v = choose|v: int|
        s.contains(v) && #[trigger] in_node(bf, level, p * bf.spec_value() + j, v);
    lemma_child_in_parent(bf, level, p, j, v);
}

/// A present node has a present child.
pub proof fn lemma_present_down(s: Set<int>, bf: BranchFactor, level: int, p: int) -> (j: int)
    requires
        level >= 1,
        node_present(s, bf, level, p),
    ensures
        0 <= j < bf.spec_value(),
        child_is_present(s, bf, level, p, j),
{
    let v = choose|v: int| s.contains(v) && #[trigger] in_node(bf, level, p, v);
    lemma_parent_in_child(bf, level - 1, p, v)
}

/// A node is full exactly when all its children are.
pub proof fn lemma_full_split(s: Set<int>, bf: BranchFactor, level: int, p: int)
    requires
        level >= 1,
    ensures
        node_full(s, bf, level, p) <==> forall|j: int|
            0 <= j < bf.spec_value() ==> #[trigger] child_is_full(s, bf, level, p, j),
{
    if node_full(s, bf, level, p) {
        assert forall|j: int| 0 <= j < bf.spec_value() implies #[trigger] child_is_full(
            s,
            bf,
            level,
            p,
            j,
        ) by {
            assert forall|v: int| #[trigger]
                in_node(bf, level - 1, p * bf.spec_value() + j, v) implies s.contains(v) by {
                lemma_child_in_parent(bf, level - 1, p, j, v);
            }
        }
    }
    if forall|j: int| 0 <= j < bf.spec_value() ==> #[trigger] child_is_full(s, bf, level, p, j) {
        assert forall|v: int| #[trigger] in_node(bf, level, p, v) implies s.contains(v) by {
            let j = lemma_parent_in_child(bf, level - 1, p, v);
            assert(child_is_full(s, bf, level, p, j));
        }
    }
}

/// A full node is present, and so is every node below it.
pub proof fn lemma_full_present(s: Set<int>, bf: BranchFactor, level: int, p: int)
    requires
        level >= 0,
        node_full(s, bf, level, p),
    ensures
        node_present(s, bf, level, p),
{
    lemma_span_positive(bf, level);
    let d = span_at(bf, level);
    let v = p * d;
    assert((p + 1) * d == p * d + d) by (nonlinear_arith);
    assert(in_node(bf, level, p, v));
}

/// How single bits of a word answer to `|`.
pub proof fn lemma_bit_or(x: u32, c: int, b: int)
    requires
        0 <= c < 32,
        0 <= b < 32,
    ensures
        bit(x | one_bit(c), b) <==> (bit(x, b) || b == c),
        bit(x | 0, b) <==> bit(x, b),
        !bit(0, b),
        x | 0 == x,
{
    let cc = c as u32;
    let bb = b as u32;
    assert((((x | (1u32 << cc)) >> bb) & 1 == 1 <==> ((x >> bb) & 1 == 1 || bb == cc)) && (((x
        | 0) >> bb) & 1 == (x >> bb) & 1) && ((0u32 >> bb) & 1 == 0) && (x | 0 == x))
        by (bit_vector)
        requires
            cc < 32,
            bb < 32,
    ;
}

/// Two words with the same bits are the same word.
pub proof fn lemma_bits_equal(x: u32, y: u32)
    requires
        forall|b: int| 0 <= b < 32 ==> (#[trigger] bit(x, b) <==> bit(y, b)),
    ensures
        x == y,
{
    lemma_bits_equal_from(x, y, 0);
    assert((x as u64) >> 0u64 == (y as u64) >> 0u64 ==> x == y) by (bit_vector);
}

/// Two words with the same bits agree from bit `k` up.
proof fn lemma_bits_equal_from(x: u32, y: u32, k: int)
    requires
        0 <= k <= 32,
        forall|b: int| 0 <= b < 32 ==> (#[trigger] bit(x, b) <==> bit(y, b)),
    ensures
        (x as u64) >> (k as u64) == (y as u64) >> (k as u64),
    decreases 32 - k,
{
    if k == 32 {
        assert((x as u64) >> 32u64 == (y as u64) >> 32u64) by (bit_vector);
    } else {
        lemma_bits_equal_from(x, y, k + 1);
        let j = k as u64;
        let j1 = (k + 1) as u64;
        let jj = k as u32;
        assert(bit(x, k) <==> bit(y, k));
        assert(((x as u64) >> j1 == (y as u64) >> j1 && ((x >> jj) & 1 == 1 <==> (y >> jj) & 1
            == 1) && jj as u64 == j && j < 32 && j1 == j + 1) ==> (x as u64) >> j == (y as u64)
            >> j) by (bit_vector);
    }
}

/// Bit `b` of the folded word is set exactly where `f(b)` holds.
pub proof fn lemma_or_bits_bit(f: spec_fn(int) -> bool, from: int, n: int, b: int)
    requires
        0 <= from <= n <= 32,
        0 <= b < 32,
    ensures
        bit(or_bits(f, from, n), b) <==> (from <= b < n && f(b)),
    decreases n - from,
{
    if from >= n {
        lemma_bit_or(0, 0, b);
    } else {
        lemma_or_bits_bit(f, from + 1, n, b);
        lemma_bit_or(or_bits(f, from + 1, n), from, b);
    }
}

/// Children that are not there leave no bit.
pub proof fn lemma_or_bits_gap(f: spec_fn(int) -> bool, a: int, b: int, n: int)
    requires
        0 <= a <= b <= n <= 32,
        forall|j: int| a <= j < b ==> !#[trigger] f(j),
    ensures
        or_bits(f, a, n) == or_bits(f, b, n),
    decreases b - a,
{
    if a < b {
        lemma_or_bits_gap(f, a + 1, b, n);
        lemma_bit_or(or_bits(f, a + 1, n), 0, 0);
    }
}

/// The bits of the word with every child: those below the branch factor.
pub proof fn lemma_mask_bits(bf: BranchFactor, b: int)
    requires
        0 <= b < 32,
    ensures
        bit(bf.spec_u32_mask(), b) <==> b < bf.spec_value(),
{
    let bb = b as u32;
    assert(((0x3u32 >> bb) & 1 == 1 <==> bb < 2) && ((0xfu32 >> bb) & 1 == 1 <==> bb < 4) && ((
    0xffu32 >> bb) & 1 == 1 <==> bb < 8) && ((0xffff_ffffu32 >> bb) & 1 == 1 <==> bb < 32))
        by (bit_vector)
        requires
            bb < 32,
    ;
}

/// The folded word of a node is the word with every child exactly when
/// `f` holds of every child.
pub proof fn lemma_or_bits_full(f: spec_fn(int) -> bool, bf: BranchFactor)
    ensures
        or_bits(f, 0, bf.spec_value() as int) == bf.spec_u32_mask() <==> forall|j: int|
            0 <= j < bf.spec_value() ==> #[trigger] f(j),
{
    let n = bf.spec_value() as int;
    let x = or_bits(f, 0, n);
    if forall|j: int| 0 <= j < n ==> #[trigger] f(j) {
        assert forall|b: int| 0 <= b < 32 implies (#[trigger] bit(x, b) <==> bit(
            bf.spec_u32_mask(),
            b,
        )) by {
            lemma_or_bits_bit(f, 0, n, b);
            lemma_mask_bits(bf, b);
        }
        lemma_bits_equal(x, bf.spec_u32_mask());
    }
    if x == bf.spec_u32_mask() {
        assert forall|j: int| 0 <= j < n implies #[trigger] f(j) by {
            lemma_or_bits_bit(f, 0, n, j);
            lemma_mask_bits(bf, j);
        }
    }
}

/// The folded word of a node has no bit beyond the branch factor, and is
/// not zero if `f` holds of a child.
pub proof fn lemma_or_bits_range(f: spec_fn(int) -> bool, bf: BranchFactor)
    ensures
        or_bits(f, 0, bf.spec_value() as int) & bf.spec_u32_mask() == or_bits(
            f,
            0,
            bf.spec_value() as int,
        ),
        (exists|j: int| 0 <= j < bf.spec_value() && #[trigger] f(j)) ==> or_bits(
            f,
            0,
            bf.spec_value() as int,
        ) != 0,
{
    let n = bf.spec_value() as int;
    let x = or_bits(f, 0, n);
    let m = bf.spec_u32_mask();
    assert forall|b: int| 0 <= b < 32 implies (#[trigger] bit(x & m, b) <==> bit(x, b)) by {
        lemma_or_bits_bit(f, 0, n, b);
        lemma_mask_bits(bf, b);
        let bb = b as u32;
        assert(((x & m) >> bb) & 1 == 1 <==> ((x >> bb) & 1 == 1 && (m >> bb) & 1 == 1))
            by (bit_vector);
    }
    lemma_bits_equal(x & m, x);
    if exists|j: int| 0 <= j < n && #[trigger] f(j) {
        let j = choose|j: int| 0 <= j < n && #[trigger] f(j);
        lemma_or_bits_bit(f, 0, n, j);
        lemma_bit_or(0, 0, j);
    }
}

} // verus!
