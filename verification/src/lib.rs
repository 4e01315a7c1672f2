//! A buddy allocator over one fixed arena of bytes, and the commands that
//! drive it.
//!
//! A [`memory_manager::MemoryManager`] owns the arena, the table of free
//! blocks and the table of allocated blocks. Every block is a power of two in
//! size and aligned to its size; a request is rounded up to such a size and
//! served from the first free block that is large enough, which is halved
//! until it fits. A deleted block goes back to the free table, where buddies
//! are joined until none is left.
//!
//! What an operation does is stated over [`memory_manager::model::ManagerView`],
//! the state of a manager as a value: the contract of each operation names
//! the state that it leaves, and the laws beside the model say what holds of
//! every such state.
//!
//! [`command`] reads a line of text as a command, and [`text`] holds the
//! words and numbers that lines are read from and written with.

use crate::text::{number_of, parse_number, split_words, word_views, words, ParseError};
use vstd::arithmetic::power2::is_pow2;
use vstd::prelude::*;
use vstd::slice::{slice_subrange, slice_to_vec};
use vstd::string::StringSliceAdditionalSpecFns;

pub mod command;
pub mod memory_manager;
pub mod text;

verus! {

/// The smallest power of two that is at least `n`; 1 for `n <= 1`.
pub open spec fn round_up_pow2(n: nat) -> nat
    decreases n,
{
    if n <= 1 {
        1
    } else {
        2 * round_up_pow2(((n + 1) / 2) as nat)
    }
}

/// Two distinct powers of two are at least a factor of two apart.
pub proof fn lemma_pow2_gap(a: int, b: int)
    requires
        is_pow2(a),
        is_pow2(b),
        a < b,
    ensures
        2 * a <= b,
    decreases a,
{
    reveal(is_pow2);
    if a > 1 {
        lemma_pow2_gap(a / 2, b / 2);
    }
}

/// Rounding up lands on a power of two, at or above the argument and less
/// than twice the argument.
pub proof fn lemma_round_up_pow2_bounds(n: nat)
    requires
        n > 0,
    ensures
        is_pow2(round_up_pow2(n) as int),
        round_up_pow2(n) >= n,
        round_up_pow2(n) < 2 * n,
    decreases n,
{
    reveal(is_pow2);
    if n > 1 {
        let m = ((n + 1) / 2) as nat;
        lemma_round_up_pow2_bounds(m);
        let r = round_up_pow2(m);
        assert(is_pow2(2 * r as int));
        if r >= 2 {
            assert(r % 2 == 0);
        }
    }
}

/// No power of two lies between the argument and its rounding.
pub proof fn lemma_round_up_pow2_least(n: nat, p: int)
    requires
        n > 0,
        is_pow2(p),
        p >= n,
    ensures
        round_up_pow2(n) <= p,
{
    lemma_round_up_pow2_bounds(n);
    if p < round_up_pow2(n) {
        lemma_pow2_gap(p, round_up_pow2(n) as int);
    }
}

/// The power of two that a request of `size` bytes is rounded up to. The
/// request is for a byte at least, and for no more than the largest power of
/// two that the machine can hold.
pub fn nearest_power_of_two(size: usize) -> (result: usize)
    requires
        0 < size <= usize::MAX / 2 + 1,
    ensures
        result == round_up_pow2(size as nat),
{
    let mut p: usize = 1;
    proof {
        reveal(is_pow2);
        lemma_round_up_pow2_bounds(size as nat);
    }
    while p < size
        invariant
            0 < size <= usize::MAX / 2 + 1,
            p >= 1,
            is_pow2(p as int),
            p < 2 * size,
            is_pow2(round_up_pow2(size as nat) as int),
            size <= round_up_pow2(size as nat) < 2 * size,
        decreases 2 * size - p,
    {
        proof {
            reveal(is_pow2);
            lemma_pow2_gap(p as int, round_up_pow2(size as nat) as int);
        }
        p = p * 2;
    }
    proof {
        lemma_round_up_pow2_least(size as nat, p as int);
        if round_up_pow2(size as nat) < p {
            lemma_pow2_gap(round_up_pow2(size as nat) as int, p as int);
        }
    }
    p
}

/// Whether the text begins with `0x` or `0X`.
pub open spec fn has_hex_prefix(text: Seq<u8>) -> bool {
    text.len() >= 2 && text[0] == 0x30 && (text[1] == 0x78 || text[1] == 0x58)
}

/// The bytes that the words stand for, each word a byte in hexadecimal
/// digits; an error where a word is no such byte.
pub open spec fn hex_payload(words: Seq<Seq<u8>>) -> Result<Seq<u8>, ParseError> {
    if forall|i: int| 0 <= i < words.len() ==> number_of(#[trigger] words[i], 16, 255) is Some {
        Ok(Seq::new(words.len(), |i: int| number_of(words[i], 16, 255)->0 as u8))
    } else {
        Err(ParseError::InvalidData)
    }
}

/// The bytes that a payload stands for: behind `0x` or `0X`, the bytes that
/// its words name in hexadecimal digits; without that prefix, the bytes of
/// the text itself.
pub open spec fn parse_data_spec(text: Seq<u8>) -> Result<Seq<u8>, ParseError> {
    if has_hex_prefix(text) {
        hex_payload(words(text.subrange(2, text.len() as int)))
    } else {
        Ok(text)
    }
}

/// Reads a payload given as bytes.
pub fn parse_data_bytes(data: &[u8]) -> (result: Result<Vec<u8>, ParseError>)
    ensures
        match result {
            Ok(bytes) => parse_data_spec(data@) == Ok::<Seq<u8>, ParseError>(bytes@),
            Err(e) => parse_data_spec(data@) == Err::<Seq<u8>, ParseError>(e),
        },
{
    if data.len() >= 2 && data[0] == 0x30 && (data[1] == 0x78 || data[1] == 0x58) {
        let found = split_words(slice_subrange(data, 2, data.len()));
        let ghost all = words(data@.subrange(2, data@.len() as int));
        let mut bytes: Vec<u8> = Vec::new();
        let mut i: usize = 0;
        while i < found.len()
            invariant
                i <= found@.len(),
                has_hex_prefix(data@),
                all == words(data@.subrange(2, data@.len() as int)),
                word_views(found@) == all,
                bytes@.len() == i,
                forall|k: int|
                    0 <= k < i ==> number_of(#[trigger] all[k], 16, 255) == Some(bytes@[k] as int),
            decreases found@.len() - i,
        {
            assert(all[i as int] == found@[i as int]@);
            match parse_number(found[i].as_slice(), 16, 255) {
                Some(value) => {
                    bytes.push(value as u8);
                },
                None => {
                    assert(number_of(all[i as int], 16, 255) is None);
                    return Err(ParseError::InvalidData);
                },
            }
            i += 1;
        }
        assert(bytes@ =~= Seq::new(all.len(), |i: int| number_of(all[i], 16, 255)->0 as u8));
        Ok(bytes)
    } else {
        Ok(slice_to_vec(data))
    }
}

/// Reads a payload: text as its bytes, or, behind `0x` or `0X`, the bytes
/// that are written out in hexadecimal digits with spaces between them.
pub fn parse_data(data: &str) -> (result: Result<Vec<u8>, ParseError>)
    ensures
        match result {
            Ok(bytes) => parse_data_spec(data.spec_bytes()) == Ok::<Seq<u8>, ParseError>(bytes@),
            Err(e) => parse_data_spec(data.spec_bytes()) == Err::<Seq<u8>, ParseError>(e),
        },
{
    parse_data_bytes(data.as_bytes())
}

} // verus!
