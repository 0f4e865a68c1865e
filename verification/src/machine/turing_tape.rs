use vstd::prelude::*;
use vstd::string::StringExecFns;

verus! {

/// Whether bit `k` (counted from the least significant end) of `byte` is set.
pub open spec fn bit_of(byte: u8, k: u8) -> bool {
    byte & (1u8 << k) != 0
}

/// `t` padded at the high end with zero bits until `bit_index` is addressable;
/// whole bytes are added, so the length stays a multiple of eight.
pub open spec fn grown(t: Seq<bool>, bit_index: int) -> Seq<bool> {
    if bit_index < t.len() {
        t
    } else {
        t + Seq::new(((bit_index / 8 + 1) * 8 - t.len()) as nat, |_i: int| false)
    }
}

/// The three characters that render one tape cell: the bit as `0` or `1`,
/// bracketed when `marked` names this cell and padded with blanks otherwise.
pub open spec fn cell_chars(t: Seq<bool>, marked: Option<usize>, i: int) -> Seq<char> {
    (if marked == Some(i as usize) {
        "["@
    } else {
        " "@
    }) + (if t[i] {
        "1"@
    } else {
        "0"@
    }) + (if marked == Some(i as usize) {
        "]"@
    } else {
        " "@
    })
}

/// How many cells of a tape of `len` cells a rendering shows: all of them,
/// unless the tape outgrows what a cell index can address.
pub open spec fn shown_cells(len: int) -> int {
    if len <= (usize::MAX / 8) * 8 {
        len
    } else {
        (usize::MAX / 8) * 8
    }
}

/// The rendering of the first `n` cells of `t`, left to right.
pub open spec fn rendered_cells(t: Seq<bool>, marked: Option<usize>, n: int) -> Seq<char>
    decreases n,
{
    if n <= 0 {
        Seq::empty()
    } else {
        rendered_cells(t, marked, n - 1) + cell_chars(t, marked, n - 1)
    }
}

/// Bit storage that grows on demand at either end, packed eight cells to a
/// byte. A cell that was never written reads as zero, and growth at the low
/// end shifts every already-allocated cell eight positions up.
#[derive(Debug, Clone)]
pub struct TuringTape {
    tape: Vec<u8>,
}

proof fn lemma_bits(b: u8, pos: u8, k: u8)
    requires
        pos < 8,
        k < 8,
    ensures
        !bit_of(0u8, k),
        bit_of(b | (1u8 << pos), k) == (k == pos || bit_of(b, k)),
        bit_of(b & !(1u8 << pos), k) == (k != pos && bit_of(b, k)),
{
    assert(0u8 & (1u8 << k) == 0) by (bit_vector);
    assert((b | (1u8 << pos)) & (1u8 << k) != 0 <==> (k == pos || b & (1u8 << k) != 0))
        by (bit_vector)
        requires
            pos < 8 && k < 8,
    ;
    assert((b & !(1u8 << pos)) & (1u8 << k) != 0 <==> (k != pos && b & (1u8 << k) != 0))
        by (bit_vector)
        requires
            pos < 8 && k < 8,
    ;
}

impl TuringTape {
    /// The sequence of bits this tape holds, lowest position first.
    pub closed spec fn view(&self) -> Seq<bool> {
        Seq::new(self.tape@.len() * 8, |i: int| bit_of(self.tape@[i / 8], (i % 8) as u8))
    }

    /// Append `size` zero bytes at the high end.
    pub fn allocate_right(&mut self, size: usize)
        ensures
            final(self)@ == old(self)@ + Seq::new(size as nat * 8, |_i: int| false),
    {
        let mut added: usize = 0;
        while added < size
            invariant
                added <= size,
                self.tape@.len() == old(self).tape@.len() + added,
                forall|j: int| 0 <= j < old(self).tape@.len() ==> self.tape@[j] == old(self).tape@[j],
                forall|j: int|
                    old(self).tape@.len() <= j < self.tape@.len() ==> self.tape@[j] == 0u8,
            decreases size - added,
        {
            self.tape.push(0u8);
            added = added + 1;
        }
        proof {
            assert forall|i: int| 0 <= i < self.tape@.len() * 8 implies self@[i] == (old(self)@
                + Seq::new(size as nat * 8, |_i: int| false))[i] by {
                lemma_bits(self.tape@[i / 8], 0u8, (i % 8) as u8);
            }
            assert(self@ =~= old(self)@ + Seq::new(size as nat * 8, |_i: int| false));
        }
    }

    /// Insert `size` zero bytes at the low end; existing cells shift up by
    /// eight positions per byte.
    pub fn allocate_left(&mut self, size: usize)
        ensures
            final(self)@ == Seq::new(size as nat * 8, |_i: int| false) + old(self)@,
    {
        let mut added: usize = 0;
        while added < size
            invariant
                added <= size,
                self.tape@.len() == old(self).tape@.len() + added,
                forall|j: int| 0 <= j < added ==> self.tape@[j] == 0u8,
                forall|j: int|
                    added <= j < self.tape@.len() ==> self.tape@[j] == old(self).tape@[j - added],
            decreases size - added,
        {
            self.tape.insert(0, 0u8);
            added = added + 1;
        }
        proof {
            assert forall|i: int| 0 <= i < self.tape@.len() * 8 implies self@[i] == (Seq::new(
                size as nat * 8,
                |_i: int| false,
            ) + old(self)@)[i] by {
                lemma_bits(self.tape@[i / 8], 0u8, (i % 8) as u8);
                if i >= size * 8 {
                    assert((i - size * 8) / 8 == i / 8 - size) by (nonlinear_arith)
                        requires i >= size * 8 && size >= 0;
                    assert((i - size * 8) % 8 == i % 8) by (nonlinear_arith)
                        requires i >= size * 8 && size >= 0;
                }
            }
            assert(self@ =~= Seq::new(size as nat * 8, |_i: int| false) + old(self)@);
        }
    }

    /// Grow at the high end until `bit_index` is addressable.
    pub fn allocate_till_bit_index(&mut self, bit_index: usize)
        ensures
            final(self)@ == grown(old(self)@, bit_index as int),
            bit_index < final(self)@.len(),
    {
        let ghost obytes = self.tape@.len() as int;
        let byte_index = bit_index / 8;
        if byte_index >= self.tape.len() {
            let missing = byte_index - self.tape.len() + 1;
            self.allocate_right(missing);
            proof {
                assert(bit_index as int >= obytes * 8) by (nonlinear_arith)
                    requires
                        obytes >= 0,
                        bit_index as int / 8 >= obytes,
                        bit_index >= 0,
                ;
                assert((bit_index as int / 8 + 1) * 8 - obytes * 8 == (bit_index as int / 8 - obytes
                    + 1) * 8) by (nonlinear_arith);
                assert(bit_index < (bit_index as int / 8 + 1) * 8) by (nonlinear_arith)
                    requires
                        bit_index >= 0,
                ;
                assert(self@ =~= grown(old(self)@, bit_index as int));
            }
        } else {
            proof {
                assert((bit_index as int) < obytes * 8) by (nonlinear_arith)
                    requires
                        bit_index as int / 8 < obytes,
                        bit_index >= 0,
                ;
                assert(grown(old(self)@, bit_index as int) == old(self)@);
            }
        }
    }

    /// The byte holding `bit_index` and the bit's position inside that byte,
    /// growing the tape first so that the byte exists.
    pub fn get_byte_index_and_position(&mut self, bit_index: usize) -> (r: (usize, usize))
        ensures
            final(self)@ == grown(old(self)@, bit_index as int),
            r.0 == bit_index as int / 8,
            r.1 == bit_index as int % 8,
            bit_index < final(self)@.len(),
    {
        self.allocate_till_bit_index(bit_index);
        (bit_index / 8, bit_index % 8)
    }

    /// The bit at `bit_index`; a never-written cell reads as zero.
    pub fn read(&mut self, bit_index: usize) -> (r: bool)
        ensures
            final(self)@ == grown(old(self)@, bit_index as int),
            r == final(self)@[bit_index as int],
            bit_index < old(self)@.len() ==> r == old(self)@[bit_index as int],
            bit_index >= old(self)@.len() ==> !r,
    {
        let (byte_index, position) = self.get_byte_index_and_position(bit_index);
        proof {
            assert(byte_index < self.tape@.len()) by (nonlinear_arith)
                requires
                    byte_index == bit_index as int / 8,
                    bit_index < self.tape@.len() * 8,
                    bit_index >= 0;
            if bit_index as int >= old(self)@.len() {
                lemma_bits(self.tape@[byte_index as int], 0u8, (bit_index as int % 8) as u8);
            }
        }
        let byte = self.tape[byte_index];
        (byte & (1u8 << position)) != 0
    }

    /// Set the bit at `bit_index` to one, growing the tape as needed.
    pub fn set(&mut self, bit_index: usize)
        ensures
            final(self)@ == grown(old(self)@, bit_index as int).update(bit_index as int, true),
    {
        let (byte_index, position) = self.get_byte_index_and_position(bit_index);
        proof {
            assert(byte_index < self.tape@.len()) by (nonlinear_arith)
                requires
                    byte_index == bit_index as int / 8,
                    bit_index < self.tape@.len() * 8,
                    bit_index >= 0;
        }
        let ghost mid = *self;
        let byte = self.tape[byte_index];
        let updated = byte | (1u8 << position);
        self.tape[byte_index] = updated;
        proof {
            assert forall|i: int| 0 <= i < self.tape@.len() * 8 implies self@[i] == mid@.update(
                bit_index as int,
                true,
            )[i] by {
                lemma_bits(mid.tape@[i / 8], (bit_index as int % 8) as u8, (i % 8) as u8);
                if i / 8 == byte_index && i != bit_index {
                    assert(i % 8 != bit_index as int % 8) by (nonlinear_arith)
                        requires
                            i / 8 == bit_index as int / 8,
                            i != bit_index,
                            i >= 0,
                            bit_index >= 0;
                }
            }
            assert(self@ =~= grown(old(self)@, bit_index as int).update(
                bit_index as int,
                true,
            ));
        }
    }

    /// Set the bit at `bit_index` to zero, growing the tape as needed.
    pub fn unset(&mut self, bit_index: usize)
        ensures
            final(self)@ == grown(old(self)@, bit_index as int).update(bit_index as int, false),
    {
        let (byte_index, position) = self.get_byte_index_and_position(bit_index);
        proof {
            assert(byte_index < self.tape@.len()) by (nonlinear_arith)
                requires
                    byte_index == bit_index as int / 8,
                    bit_index < self.tape@.len() * 8,
                    bit_index >= 0;
        }
        let ghost mid = *self;
        let byte = self.tape[byte_index];
        let updated = byte & !(1u8 << position);
        self.tape[byte_index] = updated;
        proof {
            assert forall|i: int| 0 <= i < self.tape@.len() * 8 implies self@[i] == mid@.update(
                bit_index as int,
                false,
            )[i] by {
                lemma_bits(mid.tape@[i / 8], (bit_index as int % 8) as u8, (i % 8) as u8);
                if i / 8 == byte_index && i != bit_index {
                    assert(i % 8 != bit_index as int % 8) by (nonlinear_arith)
                        requires
                            i / 8 == bit_index as int / 8,
                            i != bit_index,
                            i >= 0,
                            bit_index >= 0;
                }
            }
            assert(self@ =~= grown(old(self)@, bit_index as int).update(
                bit_index as int,
                false,
            ));
        }
    }

    /// Render every allocated cell, bracketing the cell at `marked_index`.
    /// A tape too long to index (which no real machine can hold) is rendered
    /// up to the last addressable cell.
    pub fn get_string(&mut self, marked_index: Option<usize>) -> (r: String)
        ensures
            final(self)@ == old(self)@,
            r@ == rendered_cells(old(self)@, marked_index, shown_cells(old(self)@.len() as int)),
    {
        let mut rendered = String::new();
        let shown_bytes = if self.tape.len() <= usize::MAX / 8 {
            self.tape.len()
        } else {
            usize::MAX / 8
        };
        let total = shown_bytes * 8;
        let mut i: usize = 0;
        while i < total
            invariant
                total == shown_cells(self@.len() as int),
                total <= self@.len(),
                i <= total,
                self@ == old(self)@,
                rendered@ == rendered_cells(self@, marked_index, i as int),
            decreases total - i,
        {
            let marked_here = match marked_index {
                Some(m) => m == i,
                None => false,
            };
            if marked_here {
                rendered.append("[");
            } else {
                rendered.append(" ");
            }
            let bit = self.read(i);
            if bit {
                rendered.append("1");
            } else {
                rendered.append("0");
            }
            if marked_here {
                rendered.append("]");
            } else {
                rendered.append(" ");
            }
            proof {
                assert(rendered@ =~= rendered_cells(self@, marked_index, i + 1));
            }
            i = i + 1;
        }
        rendered
    }
}

impl Default for TuringTape {
    fn default() -> (r: Self)
        ensures
            r@ == Seq::<bool>::empty(),
    {
        let tape = TuringTape { tape: Vec::new() }; 
        proof {
            assert(tape@ =~= Seq::<bool>::empty());
        }
        tape
    }
}

} // verus!
