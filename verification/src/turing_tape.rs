use vstd::prelude::*;
use vstd::string::StringExecFns;

use crate::machine::turing_tape::bit_of;
use crate::text::decimal_of;
use crate::text::decimal_string;

verus! {

/// The message reported for an access outside a bounded tape's capacity.
pub open spec fn out_of_range_message(bit_index: nat, size_bytes: nat) -> Seq<char> {
    "Bit index '"@ + decimal_of(bit_index) + "' out of range for '"@ + decimal_of(size_bytes)
        + "' bytes"@
}

/// A rejected access on a bounded tape: `bit_index` does not fit within
/// `size_bytes` bytes of storage.
#[derive(Debug, Clone, Copy, PartialEq, Eq, Structural)]
pub struct TapeError {
    pub bit_index: usize,
    pub size_bytes: usize,
}

impl TapeError {
    /// Render the error the way the library reports it.
    pub fn message(&self) -> (r: String)
        ensures
            r@ == out_of_range_message(self.bit_index as nat, self.size_bytes as nat),
    {
        let mut s = String::new();
        s.append("Bit index '");
        let bit_part = decimal_string(self.bit_index);
        s.append(bit_part.as_str());
        s.append("' out of range for '");
        let size_part = decimal_string(self.size_bytes);
        s.append(size_part.as_str());
        s.append("' bytes");
        proof {
            assert(s@ =~= out_of_range_message(self.bit_index as nat, self.size_bytes as nat));
        }
        s
    }
}

/// Fixed-capacity bit storage: `size_bytes` bytes are allocated up front and
/// an access beyond them is refused with a recoverable error instead of
/// growing.
#[derive(Debug, Clone)]
pub struct TuringTape {
    pub tape: Vec<u8>,
    pub size_bytes: usize,
}

impl TuringTape {
    /// The backing vector always holds exactly `size_bytes` bytes.
    pub open spec fn wf(self) -> bool {
        self.tape@.len() == self.size_bytes
    }

    /// The sequence of bits this tape holds, lowest position first.
    pub closed spec fn view(&self) -> Seq<bool> {
        Seq::new(self.tape@.len() * 8, |i: int| bit_of(self.tape@[i / 8], (i % 8) as u8))
    }

    /// Whether `bit_index` addresses a cell within capacity.
    pub open spec fn in_range(self, bit_index: usize) -> bool {
        bit_index as int / 8 < self.size_bytes
    }

    /// The error reported when `bit_index` is out of range.
    pub open spec fn range_error(self, bit_index: usize) -> TapeError {
        TapeError { bit_index, size_bytes: self.size_bytes }
    }

    pub fn new(size_bytes: usize) -> (r: Self)
        ensures
            r.wf(),
            r.size_bytes == size_bytes,
            r@ == Seq::new(size_bytes as nat * 8, |_i: int| false),
    {
        let mut tape: Vec<u8> = Vec::new();
        let mut added: usize = 0;
        while added < size_bytes
            invariant
                added <= size_bytes,
                tape@.len() == added,
                forall|j: int| 0 <= j < added ==> tape@[j] == 0u8,
            decreases size_bytes - added,
        {
            tape.push(0u8);
            added = added + 1;
        }
        let r = TuringTape { tape, size_bytes };
        proof {
            assert forall|i: int| 0 <= i < size_bytes as int * 8 implies !r@[i] by {
                assert(0u8 & (1u8 << ((i % 8) as u8)) == 0) by (bit_vector);
            }
            assert(r@ =~= Seq::new(size_bytes as nat * 8, |_i: int| false));
        }
        r
    }

    fn get_byte_index_and_position(&self, bit_index: usize) -> (r: Result<
        (usize, usize),
        TapeError,
    >)
        requires
            self.wf(),
        ensures
            r == if self.in_range(bit_index) {
                Ok::<(usize, usize), TapeError>((
                    (bit_index as int / 8) as usize,
                    (bit_index as int % 8) as usize,
                ))
            } else {
                Err::<(usize, usize), TapeError>(self.range_error(bit_index))
            },
    {
        let byte_index = bit_index / 8;
        if byte_index >= self.size_bytes {
            return Err(TapeError { bit_index, size_bytes: self.size_bytes });
        }
        let position = bit_index % 8;
        Ok((byte_index, position))
    }

    /// The bit at `bit_index`, or an error when it lies beyond capacity.
    pub fn read(&self, bit_index: usize) -> (r: Result<bool, TapeError>)
        requires
            self.wf(),
        ensures
            r == if self.in_range(bit_index) {
                Ok::<bool, TapeError>(self@[bit_index as int])
            } else {
                Err::<bool, TapeError>(self.range_error(bit_index))
            },
    {
        let (byte_index, position) = match self.get_byte_index_and_position(bit_index) {
            Ok(pair) => pair,
            Err(error) => {
                return Err(error);
            },
        };
        proof {
            lemma_bit_in_range(bit_index as int, self.tape@.len() as int);
        }
        let byte = self.tape[byte_index];
        Ok((byte & (1u8 << position)) != 0)
    }

    /// Set the bit at `bit_index` to one, or report an out-of-range error.
    pub fn set(&mut self, bit_index: usize) -> (r: Result<(), TapeError>)
        requires
            old(self).wf(),
        ensures
            final(self).wf(),
            final(self).size_bytes == old(self).size_bytes,
            old(self).in_range(bit_index) ==> r == Ok::<(), TapeError>(()) && final(self)@ == old(
                self,
            )@.update(bit_index as int, true),
            !old(self).in_range(bit_index) ==> r == Err::<(), TapeError>(
                old(self).range_error(bit_index),
            ) && final(self)@ == old(self)@,
    {
        let (byte_index, position) = match self.get_byte_index_and_position(bit_index) {
            Ok(pair) => pair,
            Err(error) => {
                return Err(error);
            },
        };
        proof {
            lemma_bit_in_range(bit_index as int, self.tape@.len() as int);
        }
        let byte = self.tape[byte_index];
        self.tape[byte_index] = byte | (1u8 << position);
        proof {
            lemma_update_one_bit(old(self).tape@, self.tape@, bit_index as int, true);
            assert(self@ =~= old(self)@.update(bit_index as int, true));
        }
        Ok(())
    }

    /// Set the bit at `bit_index` to zero, or report an out-of-range error.
    pub fn unset(&mut self, bit_index: usize) -> (r: Result<(), TapeError>)
        requires
            old(self).wf(),
        ensures
            final(self).wf(),
            final(self).size_bytes == old(self).size_bytes,
            old(self).in_range(bit_index) ==> r == Ok::<(), TapeError>(()) && final(self)@ == old(
                self,
            )@.update(bit_index as int, false),
            !old(self).in_range(bit_index) ==> r == Err::<(), TapeError>(
                old(self).range_error(bit_index),
            ) && final(self)@ == old(self)@,
    {
        let (byte_index, position) = match self.get_byte_index_and_position(bit_index) {
            Ok(pair) => pair,
            Err(error) => {
                return Err(error);
            },
        };
        proof {
            lemma_bit_in_range(bit_index as int, self.tape@.len() as int);
        }
        let byte = self.tape[byte_index];
        self.tape[byte_index] = byte & !(1u8 << position);
        proof {
            lemma_update_one_bit(old(self).tape@, self.tape@, bit_index as int, false);
            assert(self@ =~= old(self)@.update(bit_index as int, false));
        }
        Ok(())
    }
}

/// A bit index whose byte is in range addresses a cell below the bit length.
proof fn lemma_bit_in_range(bit_index: int, len_bytes: int)
    requires
        bit_index >= 0,
        bit_index / 8 < len_bytes,
    ensures
        bit_index < len_bytes * 8,
{
    assert(bit_index < len_bytes * 8) by (nonlinear_arith)
        requires
            bit_index >= 0,
            bit_index / 8 < len_bytes,
    ;
}

/// Flipping one bit inside one byte updates exactly one cell of the view.
proof fn lemma_update_one_bit(before: Seq<u8>, after: Seq<u8>, bit_index: int, value: bool)
    requires
        0 <= bit_index < before.len() * 8,
        after.len() == before.len(),
        value ==> after[bit_index / 8] == before[bit_index / 8] | (1u8 << ((bit_index % 8) as u8)),
        !value ==> after[bit_index / 8] == before[bit_index / 8] & !(1u8 << ((bit_index % 8) as u8)),
        forall|j: int| 0 <= j < before.len() && j != bit_index / 8 ==> after[j] == before[j],
    ensures
        forall|i: int|
            0 <= i < after.len() * 8 ==> #[trigger] bit_of(after[i / 8], (i % 8) as u8) == (if i
                == bit_index {
                value
            } else {
                bit_of(before[i / 8], (i % 8) as u8)
            }),
{
    assert forall|i: int| 0 <= i < after.len() * 8 implies #[trigger] bit_of(
        after[i / 8],
        (i % 8) as u8,
    ) == (if i == bit_index {
        value
    } else {
        bit_of(before[i / 8], (i % 8) as u8)
    }) by {
        let b = before[i / 8];
        let pos = (bit_index % 8) as u8;
        let k = (i % 8) as u8;
        assert((b | (1u8 << pos)) & (1u8 << k) != 0 <==> (k == pos || b & (1u8 << k) != 0))
            by (bit_vector)
            requires
                pos < 8 && k < 8,
        ;
        assert((b & !(1u8 << pos)) & (1u8 << k) != 0 <==> (k != pos && b & (1u8 << k) != 0))
            by (bit_vector)
            requires
                pos < 8 && k < 8,
        ;
        if i / 8 == bit_index / 8 && i != bit_index {
            assert(i % 8 != bit_index % 8) by (nonlinear_arith)
                requires
                    i / 8 == bit_index / 8,
                    i != bit_index,
                    i >= 0,
                    bit_index >= 0,
            ;
        }
    }
}

} // verus!
