//! The set of pieces one peer has, one bit per piece.

use vstd::prelude::*;

verus! {

/// Whether a byte has the bit at place `bit` set, place 0 being the most
/// significant bit.
pub open spec fn byte_has_bit(byte: u8, bit: u8) -> bool {
    byte & (0x80u8 >> bit) != 0
}

/// Whether a payload has the bit of piece `index` set. The first byte holds
/// pieces 0 to 7 from its high bit to its low bit, the next one 8 to 15, and
/// so on. An index outside the payload is not set.
pub open spec fn payload_has_piece(payload: Seq<u8>, index: int) -> bool {
    0 <= index < 8 * payload.len() && byte_has_bit(payload[index / 8], (index % 8) as u8)
}

/// The payload with the bit of piece `index` set, grown by zero bytes where
/// the index lies beyond it.
pub open spec fn payload_with_piece(payload: Seq<u8>, index: int) -> Seq<u8>
    recommends
        0 <= index,
{
    let byte_i = index / 8;
    let mask = 0x80u8 >> ((index % 8) as u8);
    if byte_i < payload.len() {
        payload.update(byte_i, payload[byte_i] | mask)
    } else {
        payload + Seq::new((byte_i - payload.len()) as nat, |i: int| 0u8) + seq![mask]
    }
}

/// Setting a bit in a byte sets that bit and no other.
proof fn lemma_set_bit(byte: u8, bit: u8, other: u8)
    requires
        bit < 8,
        other < 8,
    ensures
        byte_has_bit(byte | (0x80u8 >> bit), other) == (byte_has_bit(byte, other) || other == bit),
        byte_has_bit(0x80u8 >> bit, other) == (other == bit),
        !byte_has_bit(0u8, other),
{
    assert(((byte | (0x80u8 >> bit)) & (0x80u8 >> other) != 0) == ((byte & (0x80u8 >> other) != 0)
        || other == bit)) by (bit_vector)
        requires
            bit < 8,
            other < 8,
    ;
    assert(((0x80u8 >> bit) & (0x80u8 >> other) != 0) == (other == bit)) by (bit_vector)
        requires
            bit < 8,
            other < 8,
    ;
    assert(0u8 & (0x80u8 >> other) == 0) by (bit_vector);
}

/// A payload with one more piece has that piece and those it had before.
pub proof fn lemma_payload_with_piece(payload: Seq<u8>, index: int, other: int)
    requires
        0 <= index,
    ensures
        payload_has_piece(payload_with_piece(payload, index), other) == (payload_has_piece(
            payload,
            other,
        ) || other == index),
{
    let grown = payload_with_piece(payload, index);
    let byte_i = index / 8;
    let bit = (index % 8) as u8;
    if 0 <= other < 8 * grown.len() {
        let other_bit = (other % 8) as u8;
        if other / 8 < payload.len() {
            lemma_set_bit(payload[other / 8], bit, other_bit);
        } else {
            lemma_set_bit(0u8, bit, other_bit);
        }
    }
}

/// Represents the bitfield of a peer in a torrent swarm.
///
/// The `BitField` struct is used to track which pieces of the torrent a peer
/// has. It stores this information as a vector of bytes, where each bit
/// represents the presence (1) or absence (0) of a corresponding piece.
pub struct BitField {
    pub payload: Vec<u8>,
}

impl BitField {
    /// Whether the peer has the piece `index`.
    pub open spec fn has(&self, index: int) -> bool {
        payload_has_piece(self.payload@, index)
    }

    /// Creates a new `BitField` instance from a given payload.
    ///
    /// Each byte represents 8 pieces of a torrent. Each bit in a byte
    /// indicates the presence (1) or absence (0) of a corresponding piece.
    /// No payload is refused: whoever knows the number of pieces holds the
    /// indices against it.
    pub fn from_payload(payload: Vec<u8>) -> (bitfield: Self)
        ensures
            bitfield.payload@ == payload@,
    {
        Self { payload }
    }

    /// Checks if a specific piece is present in the bitfield.
    ///
    /// An index beyond the last bit of the payload is answered with `false`.
    pub fn contains_piece(&self, piece_i: usize) -> (present: bool)
        ensures
            present == self.has(piece_i as int),
    {
        let byte_i = piece_i / 8;
        let bit_i = (piece_i % 8) as u8;
        if byte_i >= self.payload.len() {
            return false;
        }
        let byte = self.payload[byte_i];
        byte & (0x80u8 >> bit_i) != 0
    }

    /// Records that the peer has the piece `piece_i` as well. A payload too
    /// short for the index grows by zero bytes up to the byte of the index.
    pub fn add_piece(&mut self, piece_i: usize)
        ensures
            final(self).payload@ == payload_with_piece(old(self).payload@, piece_i as int),
            forall|j: int| final(self).has(j) == (old(self).has(j) || j == piece_i),
    {
        let byte_i = piece_i / 8;
        let mask: u8 = 0x80u8 >> ((piece_i % 8) as u8);
        if byte_i < self.payload.len() {
            let byte = self.payload[byte_i];
            self.payload[byte_i] = byte | mask;
        } else {
            while self.payload.len() < byte_i
                invariant
                    old(self).payload@.len() <= self.payload@.len() <= byte_i,
                    self.payload@ == old(self).payload@ + Seq::new(
                        (self.payload@.len() - old(self).payload@.len()) as nat,
                        |i: int| 0u8,
                    ),
                decreases byte_i - self.payload@.len(),
            {
                self.payload.push(0);
                assert(self.payload@ =~= old(self).payload@ + Seq::new(
                    (self.payload@.len() - old(self).payload@.len()) as nat,
                    |i: int| 0u8,
                ));
            }
            self.payload.push(mask);
        }
        assert(self.payload@ =~= payload_with_piece(old(self).payload@, piece_i as int));
        assert forall|j: int| self.has(j) == (old(self).has(j) || j == piece_i) by {
            lemma_payload_with_piece(old(self).payload@, piece_i as int, j);
        }
    }

    /// Starts a walk over the pieces in the bitfield, from piece 0.
    pub fn into_iter(&self) -> (iter: BitFieldIter<'_>)
        requires
            8 * self.payload@.len() <= usize::MAX,
        ensures
            iter.bitfield() == *self,
            iter.position() == 0,
    {
        BitFieldIter { bitfield: self, byte_i: 0, bit_i: 0 }
    }
}

/// Represents an iterator over the pieces in a `BitField`.
///
/// It yields the index of each piece that is present, in ascending order.
pub struct BitFieldIter<'a> {
    bitfield: &'a BitField,
    byte_i: usize,
    bit_i: usize,
}

impl<'a> BitFieldIter<'a> {
    #[verifier::type_invariant]
    spec fn well_formed(self) -> bool {
        &&& 8 * self.bitfield.payload@.len() <= usize::MAX
        &&& self.byte_i <= self.bitfield.payload@.len()
        &&& self.bit_i <= 8
        &&& self.byte_i == self.bitfield.payload@.len() ==> self.bit_i == 0
    }

    /// The bitfield that is walked.
    pub closed spec fn bitfield(&self) -> BitField {
        *self.bitfield
    }

    /// The index of the next piece to be looked at.
    pub closed spec fn position(&self) -> int {
        self.byte_i * 8 + self.bit_i
    }

    /// Yields the next piece that is present: the least index at or after
    /// the current position whose bit is set. After `None` no piece is left.
    pub fn next(&mut self) -> (piece: Option<usize>)
        ensures
            final(self).bitfield() == old(self).bitfield(),
            match piece {
                Some(i) => {
                    &&& old(self).position() <= i
                    &&& old(self).bitfield().has(i as int)
                    &&& forall|j: int| old(self).position() <= j < i ==> !old(self).bitfield().has(j)
                    &&& final(self).position() == i + 1
                },
                None => {
                    &&& forall|j: int| old(self).position() <= j ==> !old(self).bitfield().has(j)
                    &&& final(self).position() >= old(self).position()
                },
            },
    {
        proof {
            use_type_invariant(&*self);
        }
        let ghost start = self.position();
        let bitfield = self.bitfield;
        let len = bitfield.payload.len();
        let mut byte_i = self.byte_i;
        let mut bit_i = self.bit_i;
        while byte_i < len
            invariant
                *bitfield == old(self).bitfield(),
                start == old(self).position(),
                len == bitfield.payload@.len(),
                8 * len <= usize::MAX,
                byte_i <= len,
                bit_i <= 8,
                byte_i == len ==> bit_i == 0,
                start <= byte_i * 8 + bit_i,
                forall|j: int| start <= j < byte_i * 8 + bit_i ==> !bitfield.has(j),
            decreases len - byte_i,
        {
            let byte = bitfield.payload[byte_i];
            while bit_i < 8
                invariant
                    *bitfield == old(self).bitfield(),
                    start == old(self).position(),
                    len == bitfield.payload@.len(),
                    8 * len <= usize::MAX,
                    byte_i < len,
                    bit_i <= 8,
                    byte == bitfield.payload@[byte_i as int],
                    start <= byte_i * 8 + bit_i,
                    forall|j: int| start <= j < byte_i * 8 + bit_i ==> !bitfield.has(j),
                decreases 8 - bit_i,
            {
                let piece_i = byte_i * 8 + bit_i;
                let present = byte & (0x80u8 >> (bit_i as u8)) != 0;
                assert(present == bitfield.has(piece_i as int));
                bit_i += 1;
                if present {
                    if bit_i == 8 && byte_i + 1 == len {
                        *self = BitFieldIter { bitfield, byte_i: len, bit_i: 0 };
                    } else {
                        *self = BitFieldIter { bitfield, byte_i, bit_i };
                    }
                    return Some(piece_i);
                }
            }
            byte_i += 1;
            bit_i = 0;
        }
        *self = BitFieldIter { bitfield, byte_i, bit_i };
        None
    }
}

} // verus!
