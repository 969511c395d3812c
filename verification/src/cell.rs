//! Tape cells: the capabilities a cell type must offer — a zero value,
//! wraparound increment and decrement, and single-byte transfer to and
//! from a byte stream — and the reference 8-bit cell.

use vstd::arithmetic::div_mod::lemma_mod_add_multiples_vanish;
use vstd::arithmetic::div_mod::lemma_small_mod;
use vstd::prelude::*;

use crate::stream::write_one;
use crate::stream::InputStream;
use crate::stream::OutputStream;
use crate::stream::StreamError;

verus! {

/// The byte a cell value is written out as: its lowest eight bits.
pub open spec fn byte_of(v: int) -> u8 {
    (v % 256) as u8
}

/// What a tape cell must support: a zero value, a zero test, wraparound
/// increment and decrement modulo the cell's range, reading one byte
/// from a source into the cell, and writing the cell as one byte to a
/// sink.
pub trait CellKind: Sized {
    /// The numeric value the cell holds.
    spec fn cell_val(&self) -> int;

    /// How many distinct values the cell ranges over; increment and
    /// decrement wrap modulo this.
    spec fn modulus() -> int;

    /// There are at least two cell values, and every cell holds one of
    /// them.
    proof fn cell_val_in_range(&self)
        ensures
            Self::modulus() >= 2,
            0 <= self.cell_val() < Self::modulus(),
    ;

    /// The zero-valued cell.
    fn zero() -> (r: Self)
        ensures
            r.cell_val() == 0,
    ;

    /// Whether the cell holds zero.
    fn is_zero(&self) -> (r: bool)
        ensures
            r == (self.cell_val() == 0),
    ;

    /// Increase the value by one, wrapping past the largest value back
    /// to zero.
    fn wrapping_increment(&mut self)
        ensures
            final(self).cell_val() == (old(self).cell_val() + 1) % Self::modulus(),
    ;

    /// Decrease the value by one, wrapping below zero back to the
    /// largest value.
    fn wrapping_decrement(&mut self)
        ensures
            final(self).cell_val() == (old(self).cell_val() - 1 + Self::modulus())
                % Self::modulus(),
    ;

    /// Read exactly one byte from the source into the cell; fail, with
    /// the cell and the source unchanged, once the source is exhausted.
    fn from_reader(&mut self, reader: &mut InputStream) -> (r: Result<(), StreamError>)
        requires
            old(reader).wf(),
        ensures
            final(reader).wf(),
            final(reader).contents() == old(reader).contents(),
            old(reader).position() < old(reader).contents().len() ==> {
                &&& r is Ok
                &&& final(self).cell_val() == (old(reader).contents()[old(reader).position()]
                    as int) % Self::modulus()
                &&& final(reader).position() == old(reader).position() + 1
            },
            old(reader).position() >= old(reader).contents().len() ==> {
                &&& r == Err::<(), StreamError>(StreamError::EndOfStream)
                &&& final(self).cell_val() == old(self).cell_val()
                &&& final(reader).position() == old(reader).position()
            },
    ;

    /// Write the cell's value as exactly one byte at the sink's cursor.
    fn to_writer(&self, writer: &mut OutputStream) -> (r: Result<(), StreamError>)
        requires
            old(writer).wf(),
        ensures
            final(writer).wf(),
            r is Ok,
            (final(writer).contents(), final(writer).position()) == write_one(
                old(writer).contents(),
                old(writer).position(),
                byte_of(self.cell_val()),
            ),
    ;
}

/// The reference cell: an 8-bit unsigned wraparound counter.
impl CellKind for u8 {
    open spec fn cell_val(&self) -> int {
        *self as int
    }

    open spec fn modulus() -> int {
        256
    }

    proof fn cell_val_in_range(&self) {
    }

    fn zero() -> (r: Self) {
        0
    }

    fn is_zero(&self) -> (r: bool) {
        *self == 0
    }

    fn wrapping_increment(&mut self) {
        if *self == 255 {
            *self = 0;
        } else {
            *self = *self + 1;
            proof {
                lemma_small_mod(*self as nat, 256);
            }
        }
    }

    fn wrapping_decrement(&mut self) {
        if *self == 0 {
            *self = 255;
            proof {
                lemma_mod_add_multiples_vanish(-1, 256);
            }
        } else {
            *self = *self - 1;
            proof {
                lemma_mod_add_multiples_vanish(*self as int, 256);
                lemma_small_mod(*self as nat, 256);
            }
        }
    }

    fn from_reader(&mut self, reader: &mut InputStream) -> (r: Result<(), StreamError>) {
        match reader.read_byte() {
            Ok(b) => {
                *self = b;
                proof {
                    lemma_small_mod(b as nat, 256);
                }
                Ok(())
            },
            Err(e) => Err(e),
        }
    }

    fn to_writer(&self, writer: &mut OutputStream) -> (r: Result<(), StreamError>) {
        proof {
            lemma_small_mod(*self as nat, 256);
        }
        writer.write_byte(*self);
        Ok(())
    }
}

/// The value reached from `v` by `n` wraparound increments modulo `m`.
pub open spec fn iterated_increment(v: int, m: int, n: nat) -> int
    decreases n,
{
    if n == 0 {
        v
    } else {
        (iterated_increment(v, m, (n - 1) as nat) + 1) % m
    }
}

/// The value reached from `v` by `n` wraparound decrements modulo `m`.
pub open spec fn iterated_decrement(v: int, m: int, n: nat) -> int
    decreases n,
{
    if n == 0 {
        v
    } else {
        (iterated_decrement(v, m, (n - 1) as nat) - 1 + m) % m
    }
}

/// `n` wraparound increments add `n` modulo `m`.
proof fn lemma_iterated_increment_adds(v: int, m: int, n: nat)
    requires
        2 <= m,
        0 <= v < m,
    ensures
        iterated_increment(v, m, n) == (v + n) % m,
    decreases n,
{
    if n == 0 {
        lemma_small_mod(v as nat, m as nat);
    } else {
        lemma_iterated_increment_adds(v, m, (n - 1) as nat);
        let prev = (v + n - 1) % m;
        lemma_mod_add_multiples_vanish(prev + 1 - m, m);
        if prev + 1 < m {
            lemma_small_mod((prev + 1) as nat, m as nat);
        }
        assert((v + n) % m == (prev + 1) % m) by {
            lemma_mod_add_multiples_vanish(v + n - m, m);
            vstd::arithmetic::div_mod::lemma_mod_adds(v + n - 1, 1, m);
            lemma_small_mod(1nat, m as nat);
            vstd::arithmetic::div_mod::lemma_mod_twice(v + n - 1, m);
            vstd::arithmetic::div_mod::lemma_mod_adds(prev, 1, m);
        }
    }
}

/// `n` wraparound decrements subtract `n` modulo `m`.
proof fn lemma_iterated_decrement_subtracts(v: int, m: int, n: nat)
    requires
        2 <= m,
        0 <= v < m,
    ensures
        iterated_decrement(v, m, n) == (v - n + n * m) % m,
    decreases n,
{
    if n == 0 {
        lemma_small_mod(v as nat, m as nat);
        assert(n * m == 0) by (nonlinear_arith)
            requires n == 0;
    } else {
        lemma_iterated_decrement_subtracts(v, m, (n - 1) as nat);
        assert(n * m == (n - 1) * m + m) by (nonlinear_arith);
        let w = v - (n - 1) + (n - 1) * m;
        let prev = w % m;
        assert(iterated_decrement(v, m, n) == (prev - 1 + m) % m);
        assert((prev - 1 + m) % m == (w - 1 + m) % m) by {
            vstd::arithmetic::div_mod::lemma_mod_adds(w, m - 1, m);
            vstd::arithmetic::div_mod::lemma_mod_adds(prev, m - 1, m);
            vstd::arithmetic::div_mod::lemma_mod_twice(w, m);
        }
        assert(w - 1 + m == v - n + n * m);
    }
}

/// Law: wraparound closure for increments — starting from any cell
/// value, `modulus` many wraparound increments return the cell to its
/// original value.
pub proof fn lemma_increment_cycle(v: int, m: int)
    requires
        2 <= m,
        0 <= v < m,
    ensures
        iterated_increment(v, m, m as nat) == v,
{
    lemma_iterated_increment_adds(v, m, m as nat);
    lemma_mod_add_multiples_vanish(v, m);
    lemma_small_mod(v as nat, m as nat);
}

/// Law: wraparound closure for decrements — starting from any cell
/// value, `modulus` many wraparound decrements return the cell to its
/// original value.
pub proof fn lemma_decrement_cycle(v: int, m: int)
    requires
        2 <= m,
        0 <= v < m,
    ensures
        iterated_decrement(v, m, m as nat) == v,
{
    lemma_iterated_decrement_subtracts(v, m, m as nat);
    assert(v - m + m * m == v + (m - 1) * m) by (nonlinear_arith);
    lemma_multiple_mod_vanish(v, m - 1, m);
    lemma_small_mod(v as nat, m as nat);
}

/// Adding any number of full turns does not change a value modulo `m`.
proof fn lemma_multiple_mod_vanish(v: int, k: int, m: int)
    requires
        2 <= m,
        0 <= k,
    ensures
        (v + k * m) % m == v % m,
    decreases k,
{
    if k > 0 {
        assert(v + k * m == (v + (k - 1) * m) + m) by (nonlinear_arith);
        lemma_multiple_mod_vanish(v, k - 1, m);
        lemma_mod_add_multiples_vanish(v + (k - 1) * m, m);
    } else {
        assert(k * m == 0) by (nonlinear_arith)
            requires k == 0;
    }
}

/// Law instances for the reference 8-bit cell: 256 increments or 256
/// decrements return any byte-valued cell to its original value.
pub proof fn lemma_byte_cell_cycles(c: u8)
    ensures
        iterated_increment(c as int, 256, 256) == c as int,
        iterated_decrement(c as int, 256, 256) == c as int,
{
    lemma_increment_cycle(c as int, 256);
    lemma_decrement_cycle(c as int, 256);
}

} // verus!
