//! The branch factor of a sparse bit set tree, and what follows from it.

use vstd::arithmetic::power::{lemma_pow0, pow};
use vstd::prelude::*;

verus! {

/// How many children every node of a sparse bit set tree has.
#[derive(Copy, Clone, PartialEq, Eq, Debug, Structural)]
pub enum BranchFactor {
    Two,
    Four,
    Eight,
    ThirtyTwo,
}

/// The smallest height, at least one, of a tree with `value` children per
/// node whose leaves reach `max_value`.
pub open spec fn tree_height(value: int, max_value: int) -> int
    decreases max_value,
    via tree_height_decreases
{
    if value < 2 || max_value < value {
        1
    } else {
        1 + tree_height(value, max_value / value)
    }
}

#[via_fn]
proof fn tree_height_decreases(value: int, max_value: int) {
    if value >= 2 && max_value >= value {
        assert(0 <= max_value / value < max_value) by (nonlinear_arith)
            requires
                value >= 2,
                max_value >= value,
        ;
    }
}

impl BranchFactor {
    /// The number of children per node.
    pub open spec fn spec_value(&self) -> u32 {
        match self {
            BranchFactor::Two => 2,
            BranchFactor::Four => 4,
            BranchFactor::Eight => 8,
            BranchFactor::ThirtyTwo => 32,
        }
    }

    /// The base-two logarithm of the number of children per node.
    pub open spec fn spec_node_size_log2(&self) -> u32 {
        match self {
            BranchFactor::Two => 1,
            BranchFactor::Four => 2,
            BranchFactor::Eight => 3,
            BranchFactor::ThirtyTwo => 5,
        }
    }

    /// The bits of one byte that belong to a node word.
    pub open spec fn spec_byte_mask(&self) -> u32 {
        match self {
            BranchFactor::Two => 0x3,
            BranchFactor::Four => 0xf,
            BranchFactor::Eight => 0xff,
            BranchFactor::ThirtyTwo => 0xff,
        }
    }

    /// The node word in which every child is present.
    pub open spec fn spec_u32_mask(&self) -> u32 {
        match self {
            BranchFactor::Two => 0x3,
            BranchFactor::Four => 0xf,
            BranchFactor::Eight => 0xff,
            BranchFactor::ThirtyTwo => 0xffff_ffff,
        }
    }

    /// The two-bit code of this branch factor in a stream's header.
    pub open spec fn spec_code(&self) -> u8 {
        match self {
            BranchFactor::Two => 0,
            BranchFactor::Four => 1,
            BranchFactor::Eight => 2,
            BranchFactor::ThirtyTwo => 3,
        }
    }

    /// The branch factor that a header's two-bit code stands for.
    pub open spec fn spec_from_code(code: u8) -> BranchFactor {
        if code == 0 {
            BranchFactor::Two
        } else if code == 1 {
            BranchFactor::Four
        } else if code == 2 {
            BranchFactor::Eight
        } else {
            BranchFactor::ThirtyTwo
        }
    }

    /// The branch factor with `val` children per node; `ThirtyTwo` where
    /// there is none.
    pub open spec fn spec_from_val(val: u8) -> BranchFactor {
        if val == 2 {
            BranchFactor::Two
        } else if val == 4 {
            BranchFactor::Four
        } else if val == 8 {
            BranchFactor::Eight
        } else {
            BranchFactor::ThirtyTwo
        }
    }

    /// The height of the tree that holds every value up to `max_value`.
    pub open spec fn spec_tree_height_for(&self, max_value: u32) -> int {
        tree_height(self.spec_value() as int, max_value as int)
    }

    #[verifier::when_used_as_spec(spec_value)]
    pub fn value(&self) -> (r: u32)
        ensures
            r == self.spec_value(),
    {
        match self {
            BranchFactor::Two => 2,
            BranchFactor::Four => 4,
            BranchFactor::Eight => 8,
            BranchFactor::ThirtyTwo => 32,
        }
    }

    /// The smallest height `h >= 1` with `value^h > max_value`.
    pub fn tree_height_for(&self, max_value: u32) -> (height: u8)
        ensures
            height == self.spec_tree_height_for(max_value),
            1 <= height <= 32,
            pow(self.spec_value() as int, height as nat) > max_value,
            height == 1 || pow(self.spec_value() as int, (height - 1) as nat) <= max_value,
    {
        let shift: u32 = self.node_size_log2();
        let ghost v: int = self.spec_value() as int;
        let mut height: u32 = 0;
        let mut rest: u32 = max_value;
        proof {
            lemma_pow0(v);
        }
        loop
            invariant_except_break
                0 <= height <= 32,
                shift == self.spec_node_size_log2(),
                v == self.spec_value(),
                rest * pow(v, height as nat) <= max_value,
                max_value < (rest + 1) * pow(v, height as nat),
                pow(v, height as nat) > 0,
                height > 0 ==> rest >= 1,
                self.spec_tree_height_for(max_value) == height + tree_height(v, rest as int),
                height > 0 ==> pow(v, height as nat) <= max_value,
            ensures
                1 <= height <= 32,
                height == self.spec_tree_height_for(max_value),
                pow(v, height as nat) > max_value,
                height == 1 || pow(v, (height - 1) as nat) <= max_value,
            decreases 32 - height,
        {
            let ghost old_rest = rest;
            let ghost old_height = height;
            proof {
                lemma_shift_is_division(*self, rest);
                lemma_pow_step(v, height as nat);
                lemma_height_bound(v, rest as int, height as int, max_value as int);
            }
            height += 1;
            rest >>= shift;
            proof {
                assert(rest == old_rest / (v as u32));
                let p = pow(v, old_height as nat);
                assert(pow(v, height as nat) == v * p);
                lemma_div_bounds(old_rest as int, v);
                assert(rest * (v * p) <= old_rest * p) by (nonlinear_arith)
                    requires
                        rest * v <= old_rest,
                        p > 0,
                        v > 0,
                        rest >= 0,
                ;
                assert((old_rest + 1) * p <= (rest + 1) * (v * p)) by (nonlinear_arith)
                    requires
                        old_rest + 1 <= (rest + 1) * v,
                        p > 0,
                        v > 0,
                        rest >= 0,
                ;
                assert(v * p > 0) by (nonlinear_arith)
                    requires
                        p > 0,
                        v > 0,
                ;
            }
            if rest == 0 {
                proof {
                    assert(old_rest < v);
                    assert(tree_height(v, old_rest as int) == 1);
                    assert((rest + 1) * pow(v, height as nat) == pow(v, height as nat))
                        by (nonlinear_arith)
                        requires
                            rest == 0,
                    ;
                }
                break ;
            }
            proof {
                assert(old_rest >= v);
                assert(tree_height(v, old_rest as int) == 1 + tree_height(v, rest as int));
                assert(v * pow(v, old_height as nat) <= rest * (v * pow(v, old_height as nat)))
                    by (nonlinear_arith)
                    requires
                        rest >= 1,
                        v * pow(v, old_height as nat) > 0,
                ;
            }
        }
        height as u8
    }

    /// The branch factor with `val` children per node.
    pub fn from_val(val: u8) -> (r: BranchFactor)
        requires
            val == 2 || val == 4 || val == 8 || val == 32,
        ensures
            r == Self::spec_from_val(val),
            r.spec_value() == val,
    {
        if val == 2 {
            BranchFactor::Two
        } else if val == 4 {
            BranchFactor::Four
        } else if val == 8 {
            BranchFactor::Eight
        } else {
            BranchFactor::ThirtyTwo
        }
    }

    #[verifier::when_used_as_spec(spec_node_size_log2)]
    pub fn node_size_log2(&self) -> (r: u32)
        ensures
            r == self.spec_node_size_log2(),
    {
        match self {
            BranchFactor::Two => 1,
            BranchFactor::Four => 2,
            BranchFactor::Eight => 3,
            BranchFactor::ThirtyTwo => 5,
        }
    }

    #[verifier::when_used_as_spec(spec_byte_mask)]
    pub fn byte_mask(&self) -> (r: u32)
        ensures
            r == self.spec_byte_mask(),
    {
        match self {
            BranchFactor::Two => 0b00000011,
            BranchFactor::Four => 0b00001111,
            BranchFactor::Eight => 0b11111111,
            BranchFactor::ThirtyTwo => 0b11111111,
        }
    }

    #[verifier::when_used_as_spec(spec_u32_mask)]
    pub fn u32_mask(&self) -> (r: u32)
        ensures
            r == self.spec_u32_mask(),
    {
        match self {
            BranchFactor::Two => 0b00000000_00000000_00000000_00000011,
            BranchFactor::Four => 0b00000000_00000000_00000000_00001111,
            BranchFactor::Eight => 0b00000000_00000000_00000000_11111111,
            BranchFactor::ThirtyTwo => 0b11111111_11111111_11111111_11111111,
        }
    }
}

/// Shifting a word right by the width of a node divides it by the branch
/// factor.
pub proof fn lemma_shift_is_division(bf: BranchFactor, x: u32)
    ensures
        x >> bf.spec_node_size_log2() == x / bf.spec_value(),
{
    assert(x >> 1u32 == x / 2u32) by (bit_vector);
    assert(x >> 2u32 == x / 4u32) by (bit_vector);
    assert(x >> 3u32 == x / 8u32) by (bit_vector);
    assert(x >> 5u32 == x / 32u32) by (bit_vector);
}

/// `b^(e+1) = b * b^e`.
pub proof fn lemma_pow_step(b: int, e: nat)
    ensures
        pow(b, e + 1) == b * pow(b, e),
{
    reveal(pow);
}

/// For `d > 0`, `(x / d) * d <= x < (x / d + 1) * d`.
pub proof fn lemma_div_bounds(x: int, d: int)
    requires
        x >= 0,
        d > 0,
    ensures
        (x / d) * d <= x,
        x + 1 <= (x / d + 1) * d,
        0 <= x / d,
{
    vstd::arithmetic::div_mod::lemma_fundamental_div_mod(x, d);
    vstd::arithmetic::div_mod::lemma_mod_bound(x, d);
    vstd::arithmetic::div_mod::lemma_div_pos_is_pos(x, d);
    assert((x / d) * d == d * (x / d)) by (nonlinear_arith);
    assert((x / d + 1) * d == d * (x / d) + d) by (nonlinear_arith);
}

/// While something is left of a 32-bit value after `height` divisions by a
/// branch factor, `height` is below 32.
proof fn lemma_height_bound(v: int, rest: int, height: int, max_value: int)
    requires
        v >= 2,
        0 <= height,
        0 <= rest,
        max_value <= u32::MAX,
        rest * pow(v, height as nat) <= max_value,
        height == 0 || rest >= 1,
    ensures
        height < 32,
{
    if height >= 32 {
        lemma_pow_at_least_pow2(v, height as nat);
        vstd::arithmetic::power2::lemma2_to64();
        lemma_pow2_grows(32, height as nat);
        assert(pow(v, height as nat) <= rest * pow(v, height as nat)) by (nonlinear_arith)
            requires
                rest >= 1,
                pow(v, height as nat) >= 0,
        ;
    }
}

/// `v^e >= 2^e` for `v >= 2`.
pub proof fn lemma_pow_at_least_pow2(v: int, e: nat)
    requires
        v >= 2,
    ensures
        pow(v, e) >= pow(2, e),
        pow(2, e) > 0,
    decreases e,
{
    reveal(pow);
    if e > 0 {
        lemma_pow_at_least_pow2(v, (e - 1) as nat);
        assert(v * pow(v, (e - 1) as nat) >= 2 * pow(2, (e - 1) as nat)) by (nonlinear_arith)
            requires
                v >= 2,
                pow(v, (e - 1) as nat) >= pow(2, (e - 1) as nat),
                pow(2, (e - 1) as nat) > 0,
        ;
    }
}

/// `2^a <= 2^b` for `a <= b`, and `2^32` is what it is.
pub proof fn lemma_pow2_grows(a: nat, b: nat)
    requires
        a <= b,
    ensures
        pow(2, a) <= pow(2, b),
        pow(2, 32) == 0x1_0000_0000,
{
    vstd::arithmetic::power::lemma_pow_increases(2, a, b);
    vstd::arithmetic::power2::lemma2_to64();
    vstd::arithmetic::power2::lemma_pow2(32);
}

} // verus!
