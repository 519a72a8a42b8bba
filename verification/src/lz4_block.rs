//! The sums that decoding a raw LZ4 block takes.
//!
//! A block is a list of sequences: a token, whose upper half is the number of
//! literals and whose lower half is the length of a match, then the literals,
//! and, unless the block ends there, two bytes that say how far back the match
//! is. A half of 15 is continued by a length field, which is summed byte by byte
//! up to the first byte other than `0xff`. The decoder sums in machine integers,
//! so the sums that it will take are measured before it runs. It takes none
//! behind the place where it stops: at the end, at a length or distance that the
//! block or the room does not have, or at a field that is cut off.

use vstd::prelude::*;

verus! {

/// The first position from `pos` on that holds another byte than `0xff`, or the end.
pub open spec fn run_end(block: Seq<u8>, pos: int) -> int
    decreases block.len() - pos,
{
    if 0 <= pos < block.len() && block[pos] == 0xff {
        run_end(block, pos + 1)
    } else {
        pos
    }
}

/// The sum of the length field at `pos`, as far as the block holds it.
pub open spec fn field_sum(block: Seq<u8>, pos: int) -> int {
    let end = run_end(block, pos);
    255 * (end - pos) + (if end < block.len() {
        block[end] as int
    } else {
        0
    })
}

/// A run ends where it starts or later, and within the block.
proof fn lemma_run_end(block: Seq<u8>, pos: int)
    requires
        0 <= pos <= block.len(),
    ensures
        pos <= run_end(block, pos) <= block.len(),
    decreases block.len() - pos,
{
    if pos < block.len() && block[pos] == 0xff {
        lemma_run_end(block, pos + 1);
    }
}

/// What reading a length gives.
pub enum Length {
    /// The field sums to more than 32 bits hold.
    TooLarge,
    /// The field is cut off by the end of the block.
    CutOff,
    /// The length, and where the block goes on.
    Known { length: int, behind: int },
}

/// The length that starts with half a token and is continued by a field at `pos`
/// where the half is 15.
pub open spec fn length_at(block: Seq<u8>, half: int, pos: int) -> Length {
    if half != 15 {
        Length::Known { length: half, behind: pos }
    } else if field_sum(block, pos) > u32::MAX {
        Length::TooLarge
    } else if run_end(block, pos) >= block.len() {
        Length::CutOff
    } else {
        Length::Known { length: 15 + field_sum(block, pos), behind: run_end(block, pos) + 1 }
    }
}

/// What a sequence does.
pub enum Step {
    /// A sum leaves its machine integer.
    Overflow,
    /// The decoder is done, or reports an error.
    Stop,
    /// The next sequence is at `pos`, and `out` bytes are decoded.
    Next { pos: int, out: int },
}

/// What follows the literals of a sequence: a match of `half` and more bytes at
/// `pos`, after `out` bytes with room for `size`. A match has four bytes more than
/// its length says.
pub open spec fn match_step(block: Seq<u8>, size: int, half: int, pos: int, out: int) -> Step {
    let back = block[pos] + 256 * block[pos + 1];
    if pos + 2 > block.len() || back == 0 {
        Step::Stop
    } else {
        match length_at(block, half, pos + 2) {
            Length::TooLarge => Step::Overflow,
            Length::CutOff => Step::Stop,
            Length::Known { length, behind } => if out + 4 + length > usize::MAX {
                Step::Overflow
            } else if out + 4 + length > size || back > out {
                Step::Stop
            } else {
                Step::Next { pos: behind, out: out + 4 + length }
            },
        }
    }
}

/// What the sequence at `pos` does, after `out` bytes with room for `size`.
pub open spec fn step_at(block: Seq<u8>, size: int, pos: int, out: int) -> Step {
    match length_at(block, block[pos] as int / 16, pos + 1) {
        Length::TooLarge => Step::Overflow,
        Length::CutOff => Step::Stop,
        Length::Known { length, behind } => if length > usize::MAX {
            Step::Overflow
        } else if length > block.len() - behind || length > size - out {
            Step::Stop
        } else {
            match_step(block, size, block[pos] as int % 16, behind + length, out + length)
        },
    }
}

/// From the sequence at `pos` on, after `out` bytes with room for `size`, every sum
/// that the decoder takes stays within its machine integer.
pub open spec fn sums_fit(block: Seq<u8>, size: int, pos: int, out: int) -> bool
    decreases block.len() - pos,
{
    if pos < 0 || pos >= block.len() {
        true
    } else {
        match step_at(block, size, pos, out) {
            Step::Overflow => false,
            Step::Stop => true,
            Step::Next { pos: next, out: more } => pos < next ==> sums_fit(
                block,
                size,
                next,
                more,
            ),
        }
    }
}

/// Sums the length field at `pos`; where its run ends comes with the sum.
fn sum_field(block: &[u8], pos: usize) -> (r: (u128, usize))
    requires
        pos <= block@.len(),
    ensures
        r.0 == field_sum(block@, pos as int),
        pos <= r.1 == run_end(block@, pos as int) <= block@.len(),
{
    let mut end: usize = pos;
    while end < block.len() && block[end] == 0xff
        invariant
            pos <= end <= block@.len(),
            run_end(block@, pos as int) == run_end(block@, end as int),
        decreases block@.len() - end,
    {
        end = end + 1;
    }
    let run: u128 = 255 * (end - pos) as u128;
    if end < block.len() {
        (run + block[end] as u128, end)
    } else {
        (run, end)
    }
}

/// A length that was read, and where the block goes on.
enum Measured {
    TooLarge,
    CutOff,
    Known { length: u64, behind: usize },
}

impl View for Measured {
    type V = Length;

    closed spec fn view(&self) -> Length {
        match *self {
            Measured::TooLarge => Length::TooLarge,
            Measured::CutOff => Length::CutOff,
            Measured::Known { length, behind } => Length::Known {
                length: length as int,
                behind: behind as int,
            },
        }
    }
}

/// Reads a length.
fn measure(block: &[u8], half: u8, pos: usize) -> (r: Measured)
    requires
        half <= 15,
        pos <= block@.len(),
    ensures
        r@ == length_at(block@, half as int, pos as int),
        r matches Measured::Known { length, behind } ==> length <= 15 + u32::MAX && pos <= behind
            <= block@.len(),
{
    if half != 15 {
        return Measured::Known { length: half as u64, behind: pos };
    }
    let field: (u128, usize) = sum_field(block, pos);
    if field.0 > u32::MAX as u128 {
        Measured::TooLarge
    } else if field.1 >= block.len() {
        Measured::CutOff
    } else {
        Measured::Known { length: 15 + field.0 as u64, behind: field.1 + 1 }
    }
}

/// Whether every sum that the decoder takes on a block, with room for `size` bytes,
/// stays within its machine integer.
pub fn check_sums(block: &[u8], size: usize) -> (fit: bool)
    ensures
        fit == sums_fit(block@, size as int, 0, 0),
{
    let len: usize = block.len();
    let mut pos: usize = 0;
    let mut out: usize = 0;
    while pos < len
        invariant
            pos <= len == block@.len(),
            out <= size,
            sums_fit(block@, size as int, 0, 0) == sums_fit(
                block@,
                size as int,
                pos as int,
                out as int,
            ),
        decreases len - pos,
    {
        let token: u8 = block[pos];
        match measure(block, token / 16, pos + 1) {
            Measured::TooLarge => return false,
            Measured::CutOff => return true,
            Measured::Known { length, behind } => {
                if length > usize::MAX as u64 {
                    return false;
                }
                if length as usize > len - behind || length as usize > size - out {
                    return true;
                }
                pos = behind + length as usize;
                out = out + length as usize;
            },
        }
        if len - pos < 2 {
            return true;
        }
        let back: usize = block[pos] as usize + 256 * (block[pos + 1] as usize);
        if back == 0 {
            return true;
        }
        match measure(block, token % 16, pos + 2) {
            Measured::TooLarge => return false,
            Measured::CutOff => return true,
            Measured::Known { length, behind } => {
                let more: u128 = out as u128 + 4 + length as u128;
                if more > usize::MAX as u128 {
                    return false;
                }
                if more > size as u128 || back > out {
                    return true;
                }
                pos = behind;
                out = more as usize;
            },
        }
    }
    true
}

} // verus!
