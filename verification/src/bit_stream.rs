//! The byte layout of a sparse bit set stream, and the reader and writer of
//! it.
//!
//! A stream is one header byte followed by the node words. The header holds,
//! from its highest bit down, one reserved zero bit, five bits of tree height
//! and two bits of branch factor code. A node word has as many bits as the
//! branch factor says. Words narrower than a byte fill each byte from its
//! lowest bits up; a 32-bit word takes four bytes, lowest byte first. Unused
//! bits of the last byte are zero.

use crate::branch_factor::BranchFactor;
use vstd::prelude::*;

verus! {

/// The greatest tree height that a header can hold.
pub const MAX_HEIGHT: u8 = 31;

/// The header byte for a branch factor and a height.
pub open spec fn header_byte(bf: BranchFactor, height: u8) -> u8 {
    ((height & 0x1f) << 2) | bf.spec_code()
}

/// The branch factor and the height that a stream's first byte declares;
/// nothing for a stream without bytes.
pub open spec fn stream_header(bytes: Seq<u8>) -> Option<(BranchFactor, u8)> {
    if bytes.len() == 0 {
        None
    } else {
        Some((BranchFactor::spec_from_code(bytes[0] & 0x3), (bytes[0] & 0x7c) >> 2))
    }
}

/// The word numbered `i`, or zero where there is none.
pub open spec fn slot(words: Seq<u32>, i: int) -> u32 {
    if 0 <= i < words.len() {
        words[i]
    } else {
        0
    }
}

/// The number of bytes that `n` node words take.
pub open spec fn node_bytes_len(bf: BranchFactor, n: int) -> int {
    match bf {
        BranchFactor::Two => (n + 3) / 4,
        BranchFactor::Four => (n + 1) / 2,
        BranchFactor::Eight => n,
        BranchFactor::ThirtyTwo => 4 * n,
    }
}

/// Four two-bit words in one byte, the first in the lowest bits.
pub open spec fn pack2(a: u32, b: u32, c: u32, d: u32) -> u8 {
    ((a & 3) | ((b & 3) << 2) | ((c & 3) << 4) | ((d & 3) << 6)) as u8
}

/// Two four-bit words in one byte, the first in the lowest bits.
pub open spec fn pack4(a: u32, b: u32) -> u8 {
    ((a & 15) | ((b & 15) << 4)) as u8
}

/// The byte numbered `part` (0 to 3, lowest first) of a 32-bit word.
pub open spec fn byte_of_word(w: u32, part: int) -> u8 {
    if part == 0 {
        (w & 0xff) as u8
    } else if part == 1 {
        ((w >> 8) & 0xff) as u8
    } else if part == 2 {
        ((w >> 16) & 0xff) as u8
    } else {
        ((w >> 24) & 0xff) as u8
    }
}

/// The byte numbered `k` among the bytes that hold the node words.
pub open spec fn node_byte(bf: BranchFactor, words: Seq<u32>, k: int) -> u8 {
    match bf {
        BranchFactor::Two => pack2(
            slot(words, 4 * k),
            slot(words, 4 * k + 1),
            slot(words, 4 * k + 2),
            slot(words, 4 * k + 3),
        ),
        BranchFactor::Four => pack4(slot(words, 2 * k), slot(words, 2 * k + 1)),
        BranchFactor::Eight => (slot(words, k) & 0xff) as u8,
        BranchFactor::ThirtyTwo => byte_of_word(slot(words, k / 4), k % 4),
    }
}

/// The bytes of the stream with the given header and node words.
pub open spec fn stream_bytes(bf: BranchFactor, height: u8, words: Seq<u32>) -> Seq<u8> {
    seq![header_byte(bf, height)] + Seq::new(
        node_bytes_len(bf, words.len() as int) as nat,
        |k: int| node_byte(bf, words, k),
    )
}

/// The number of whole node words that the bytes after the header hold.
pub open spec fn stream_word_count(bytes: Seq<u8>, bf: BranchFactor) -> int {
    if bytes.len() == 0 {
        0
    } else {
        match bf {
            BranchFactor::Two => (bytes.len() - 1) * 4,
            BranchFactor::Four => (bytes.len() - 1) * 2,
            BranchFactor::Eight => bytes.len() - 1,
            BranchFactor::ThirtyTwo => (bytes.len() - 1) / 4,
        }
    }
}

/// A 32-bit word from its four bytes, lowest first.
pub open spec fn word_of_bytes(b0: u8, b1: u8, b2: u8, b3: u8) -> u32 {
    (b0 as u32) | ((b1 as u32) << 8) | ((b2 as u32) << 16) | ((b3 as u32) << 24)
}

/// The node word numbered `i` of a stream; nothing where the stream has
/// ended.
pub open spec fn stream_word(bytes: Seq<u8>, bf: BranchFactor, i: int) -> Option<u32> {
    if 0 <= i < stream_word_count(bytes, bf) {
        Some(
            match bf {
                BranchFactor::Two => ((bytes[1 + i / 4] as u32) >> ((2 * (i % 4)) as u32)) & 3,
                BranchFactor::Four => ((bytes[1 + i / 2] as u32) >> ((4 * (i % 2)) as u32)) & 15,
                BranchFactor::Eight => bytes[1 + i] as u32,
                BranchFactor::ThirtyTwo => word_of_bytes(
                    bytes[1 + 4 * i],
                    bytes[2 + 4 * i],
                    bytes[3 + 4 * i],
                    bytes[4 + 4 * i],
                ),
            },
        )
    } else {
        None
    }
}

/// Reads the node words of a stream, one after the other.
pub struct InputBitStream<'a> {
    data: &'a [u8],
    byte_index: usize,
    sub_index: u32,
    branch_factor: BranchFactor,
}

impl<'a> InputBitStream<'a> {
    /// The bytes that are read.
    pub closed spec fn bytes(&self) -> Seq<u8> {
        self.data@
    }

    /// The branch factor by which they are read.
    pub closed spec fn branch_factor(&self) -> BranchFactor {
        self.branch_factor
    }

    /// The number of the word that `next` reads.
    pub closed spec fn position(&self) -> int {
        match self.branch_factor {
            BranchFactor::Two => (self.byte_index - 1) * 4 + self.sub_index,
            BranchFactor::Four => (self.byte_index - 1) * 2 + self.sub_index,
            BranchFactor::Eight => self.byte_index - 1,
            BranchFactor::ThirtyTwo => (self.byte_index - 1) / 4,
        }
    }

    /// The reader stands on a word boundary, at or behind the header.
    pub closed spec fn wf(&self) -> bool {
        &&& 1 <= self.byte_index
        &&& self.byte_index <= self.data@.len() || self.byte_index == 1
        &&& match self.branch_factor {
            BranchFactor::Two => self.sub_index < 4,
            BranchFactor::Four => self.sub_index < 2,
            BranchFactor::Eight => self.sub_index == 0,
            BranchFactor::ThirtyTwo => self.sub_index == 0 && (self.byte_index - 1) % 4 == 0,
        }
    }

    /// The branch factor and the tree height that the header byte declares.
    /// There is none if the stream has no bytes.
    pub fn decode_header(data: &[u8]) -> (r: Option<(BranchFactor, u8)>)
        ensures
            r == stream_header(data@),
    {
        if data.len() == 0 {
            return None;
        }
        let first_byte: u8 = data[0];
        let bf_bits: u8 = 0b0_00000_11 & first_byte;
        let depth_bits: u8 = (0b0_11111_00 & first_byte) >> 2;
        assert(0b0_00000_11u8 & first_byte == first_byte & 0x3 && (0b0_11111_00u8 & first_byte)
            >> 2 == (first_byte & 0x7c) >> 2) by (bit_vector);
        let branch_factor = if bf_bits == 0 {
            BranchFactor::Two
        } else if bf_bits == 1 {
            BranchFactor::Four
        } else if bf_bits == 2 {
            BranchFactor::Eight
        } else {
            BranchFactor::ThirtyTwo
        };
        Some((branch_factor, depth_bits))
    }

    /// A reader of the node words of `data`, placed behind the header byte.
    pub fn from(data: &'a [u8], branch_factor: BranchFactor) -> (r: InputBitStream<'a>)
        ensures
            r.wf(),
            r.bytes() == data@,
            r.branch_factor() == branch_factor,
            r.position() == 0,
    {
        InputBitStream { data, byte_index: 1, sub_index: 0, branch_factor }
    }

    /// Reads the next node word. Returns nothing, and stays where it is, if
    /// the stream does not hold a whole word any more.
    pub fn next(&mut self) -> (r: Option<u32>)
        requires
            old(self).wf(),
        ensures
            final(self).wf(),
            final(self).bytes() == old(self).bytes(),
            final(self).branch_factor() == old(self).branch_factor(),
            r == stream_word(old(self).bytes(), old(self).branch_factor(), old(self).position()),
            r is Some ==> final(self).position() == old(self).position() + 1,
            r is None ==> final(self).position() == old(self).position(),
    {
        let len = self.data.len();
        match self.branch_factor {
            BranchFactor::Two => {
                if self.byte_index >= len {
                    return None;
                }
                let byte: u32 = self.data[self.byte_index] as u32;
                let shift: u32 = 2 * self.sub_index;
                let val: u32 = (byte >> shift) & 3;
                if self.sub_index == 3 {
                    self.sub_index = 0;
                    self.byte_index += 1;
                } else {
                    self.sub_index += 1;
                }
                Some(val)
            },
            BranchFactor::Four => {
                if self.byte_index >= len {
                    return None;
                }
                let byte: u32 = self.data[self.byte_index] as u32;
                let shift: u32 = 4 * self.sub_index;
                let val: u32 = (byte >> shift) & 15;
                if self.sub_index == 1 {
                    self.sub_index = 0;
                    self.byte_index += 1;
                } else {
                    self.sub_index += 1;
                }
                Some(val)
            },
            BranchFactor::Eight => {
                if self.byte_index >= len {
                    return None;
                }
                let r: u32 = self.data[self.byte_index] as u32;
                self.byte_index += 1;
                Some(r)
            },
            BranchFactor::ThirtyTwo => {
                if len < 4 || self.byte_index > len - 4 {
                    return None;
                }
                let b1: u32 = self.data[self.byte_index] as u32;
                let b2: u32 = self.data[self.byte_index + 1] as u32;
                let b3: u32 = self.data[self.byte_index + 2] as u32;
                let b4: u32 = self.data[self.byte_index + 3] as u32;
                self.byte_index += 4;
                Some(b1 | (b2 << 8) | (b3 << 16) | (b4 << 24))
            },
        }
    }
}

/// Writes a stream: the header, then node word after node word.
pub struct OutputBitStream {
    data: Vec<u8>,
    sub_index: u32,
    branch_factor: BranchFactor,
    height: Ghost<u8>,
    words: Ghost<Seq<u32>>,
}

impl OutputBitStream {
    /// The branch factor of the stream.
    pub closed spec fn branch_factor(&self) -> BranchFactor {
        self.branch_factor
    }

    /// The tree height in the header.
    pub closed spec fn height(&self) -> u8 {
        self.height@
    }

    /// The node words written so far.
    pub closed spec fn words(&self) -> Seq<u32> {
        self.words@
    }

    /// The bytes held are those of the header and of the words written.
    pub closed spec fn wf(&self) -> bool {
        &&& self.data@ == stream_bytes(self.branch_factor, self.height@, self.words@)
        &&& match self.branch_factor {
            BranchFactor::Two => self.sub_index == self.words@.len() % 4,
            BranchFactor::Four => self.sub_index == self.words@.len() % 2,
            _ => self.sub_index == 0,
        }
    }

    /// A stream that holds the header for `branch_factor` and `height`, and
    /// no node word yet.
    pub fn new(branch_factor: BranchFactor, height: u8) -> (r: OutputBitStream)
        requires
            height <= MAX_HEIGHT,
        ensures
            r.wf(),
            r.branch_factor() == branch_factor,
            r.height() == height,
            r.words() == Seq::<u32>::empty(),
    {
        let code: u8 = match branch_factor {
            BranchFactor::Two => 0b00,
            BranchFactor::Four => 0b01,
            BranchFactor::Eight => 0b10,
            BranchFactor::ThirtyTwo => 0b11,
        };
        let byte: u8 = ((height & 0b00011111) << 2) | code;
        let mut data: Vec<u8> = Vec::new();
        data.push(byte);
        let r = OutputBitStream {
            data,
            sub_index: 0,
            branch_factor,
            height: Ghost(height),
            words: Ghost(Seq::empty()),
        };
        assert(r.data@ =~= stream_bytes(branch_factor, height, Seq::<u32>::empty()));
        r
    }

    /// Writes one node word: the lowest bits of `bits`, as many as the branch
    /// factor says.
    pub fn write_node(&mut self, bits: u32)
        requires
            old(self).wf(),
        ensures
            final(self).wf(),
            final(self).branch_factor() == old(self).branch_factor(),
            final(self).height() == old(self).height(),
            final(self).words() == old(self).words().push(
                bits & old(self).branch_factor().spec_u32_mask(),
            ),
    {
        let ghost before = self.words@;
        let ghost n: int = before.len() as int;
        let ghost bf = self.branch_factor;
        let ghost w: u32 = bits & bf.spec_u32_mask();
        let ghost after = before.push(w);
        let ghost old_data = self.data@;
        match self.branch_factor {
            BranchFactor::Two => {
                let shift: u32 = 2 * self.sub_index;
                assert(((bits & 3) << shift) <= 255 && ((bits & 3) << shift) == (((bits & 3) & 3)
                    << shift)) by (bit_vector)
                    requires
                        shift == 0 || shift == 2 || shift == 4 || shift == 6,
                ;
                let part: u8 = ((bits & 3) << shift) as u8;
                if self.sub_index == 0 {
                    self.data.push(part);
                } else {
                    let last: usize = self.data.len() - 1;
                    let prev: u8 = self.data[last];
                    self.data.set(last, prev | part);
                }
                self.sub_index = (self.sub_index + 1) % 4;
                self.words = Ghost(after);
                proof {
                    let k = n / 4;
                    let a = slot(before, 4 * k);
                    let b = slot(before, 4 * k + 1);
                    let c = slot(before, 4 * k + 2);
                    lemma_pack2_step(a, b, c, w);
                    assert(self.data@ =~= stream_bytes(bf, self.height@, after)) by {
                        assert forall|j: int| 0 <= j < k implies node_byte(bf, after, j)
                            == node_byte(bf, before, j) by {}
                    }
                }
            },
            BranchFactor::Four => {
                let shift: u32 = 4 * self.sub_index;
                assert(((bits & 15) << shift) <= 255 && ((bits & 15) << shift) == (((bits & 15)
                    & 15) << shift)) by (bit_vector)
                    requires
                        shift == 0 || shift == 4,
                ;
                let part: u8 = ((bits & 15) << shift) as u8;
                if self.sub_index == 0 {
                    self.data.push(part);
                } else {
                    let last: usize = self.data.len() - 1;
                    let prev: u8 = self.data[last];
                    self.data.set(last, prev | part);
                }
                self.sub_index = (self.sub_index + 1) % 2;
                self.words = Ghost(after);
                proof {
                    let k = n / 2;
                    let a = slot(before, 2 * k);
                    lemma_pack4_step(a, w);
                    assert(self.data@ =~= stream_bytes(bf, self.height@, after)) by {
                        assert forall|j: int| 0 <= j < k implies node_byte(bf, after, j)
                            == node_byte(bf, before, j) by {}
                    }
                }
            },
            BranchFactor::Eight => {
                assert((bits & 0xff) <= 255 && (bits & 0xff) == ((bits & 0xff) & 0xff))
                    by (bit_vector);
                self.data.push((bits & 0xff) as u8);
                self.words = Ghost(after);
                proof {
                    assert(self.data@ =~= stream_bytes(bf, self.height@, after));
                }
            },
            BranchFactor::ThirtyTwo => {
                assert((bits & 0xff) <= 255 && ((bits >> 8) & 0xff) <= 255 && ((bits >> 16) & 0xff)
                    <= 255 && ((bits >> 24) & 0xff) <= 255 && bits & 0xffff_ffff == bits)
                    by (bit_vector);
                self.data.push((bits & 0xff) as u8);
                self.data.push(((bits >> 8) & 0xff) as u8);
                self.data.push(((bits >> 16) & 0xff) as u8);
                self.data.push(((bits >> 24) & 0xff) as u8);
                self.words = Ghost(after);
                proof {
                    assert(self.data@ =~= stream_bytes(bf, self.height@, after)) by {
                        assert forall|j: int| 0 <= j < 4 * n implies node_byte(bf, after, j)
                            == node_byte(bf, before, j) by {}
                    }
                }
            },
        }
    }

    /// The bytes of the stream.
    pub fn into_bytes(self) -> (bytes: Vec<u8>)
        requires
            self.wf(),
        ensures
            bytes@ == stream_bytes(self.branch_factor(), self.height(), self.words()),
    {
        self.data
    }
}

/// A byte of two-bit words takes one more word in its first free place.
proof fn lemma_pack2_step(a: u32, b: u32, c: u32, w: u32)
    ensures
        pack2(w, 0, 0, 0) == ((w & 3) << 0u32) as u8,
        pack2(a, w, 0, 0) == pack2(a, 0, 0, 0) | (((w & 3) << 2u32) as u8),
        pack2(a, b, w, 0) == pack2(a, b, 0, 0) | (((w & 3) << 4u32) as u8),
        pack2(a, b, c, w) == pack2(a, b, c, 0) | (((w & 3) << 6u32) as u8),
{
    assert(((w & 3) | ((0u32 & 3) << 2) | ((0u32 & 3) << 4) | ((0u32 & 3) << 6)) as u8 == ((w & 3)
        << 0u32) as u8) by (bit_vector);
    assert(((a & 3) | ((w & 3) << 2) | ((0u32 & 3) << 4) | ((0u32 & 3) << 6)) as u8 == (((a & 3) | (
    (0u32 & 3) << 2) | ((0u32 & 3) << 4) | ((0u32 & 3) << 6)) as u8) | (((w & 3) << 2u32) as u8))
        by (bit_vector);
    assert(((a & 3) | ((b & 3) << 2) | ((w & 3) << 4) | ((0u32 & 3) << 6)) as u8 == (((a & 3) | ((b
        & 3) << 2) | ((0u32 & 3) << 4) | ((0u32 & 3) << 6)) as u8) | (((w & 3) << 4u32) as u8))
        by (bit_vector);
    assert(((a & 3) | ((b & 3) << 2) | ((c & 3) << 4) | ((w & 3) << 6)) as u8 == (((a & 3) | ((b
        & 3) << 2) | ((c & 3) << 4) | ((0u32 & 3) << 6)) as u8) | (((w & 3) << 6u32) as u8))
        by (bit_vector);
}

/// A byte of four-bit words takes one more word in its first free place.
proof fn lemma_pack4_step(a: u32, w: u32)
    ensures
        pack4(w, 0) == ((w & 15) << 0u32) as u8,
        pack4(a, w) == pack4(a, 0) | (((w & 15) << 4u32) as u8),
{
    assert(((w & 15) | ((0u32 & 15) << 4)) as u8 == ((w & 15) << 0u32) as u8) by (bit_vector);
    assert(((a & 15) | ((w & 15) << 4)) as u8 == (((a & 15) | ((0u32 & 15) << 4)) as u8) | (((w
        & 15) << 4u32) as u8)) by (bit_vector);
}

} // verus!
