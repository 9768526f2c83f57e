//! Signatures: the kinds of the arguments of a message, written as letters.
//!
//! The letters are those that Wayland protocol descriptions use: `i` for a
//! signed integer, `u` for an unsigned one, `f` for a fixed-point number,
//! `s` for a string, `o` for an object, `n` for a new identifier, `a` for an
//! array and `h` for a file descriptor.

use vstd::prelude::*;
use crate::message::ArgKind;

verus! {

/// The letter that stands for `kind`.
pub open spec fn letter_of(kind: ArgKind) -> u8 {
    match kind {
        ArgKind::Int => 0x69,
        ArgKind::Uint => 0x75,
        ArgKind::Fixed => 0x66,
        ArgKind::Str => 0x73,
        ArgKind::Object => 0x6f,
        ArgKind::NewId => 0x6e,
        ArgKind::Array => 0x61,
        ArgKind::Fd => 0x68,
    }
}

/// Whether `letter` stands for a kind.
pub open spec fn is_letter(letter: u8) -> bool {
    exists|kind: ArgKind| letter_of(kind) == letter
}

/// The signature of `kinds`: the letter of each, in order.
pub open spec fn signature_of(kinds: Seq<ArgKind>) -> Seq<u8> {
    kinds.map_values(|kind: ArgKind| letter_of(kind))
}

/// The kind that `letter` stands for, if it stands for one.
pub fn kind_of_letter(letter: u8) -> (r: Option<ArgKind>)
    ensures
        match r {
            Some(kind) => letter_of(kind) == letter,
            None => !is_letter(letter),
        },
{
    if letter == 0x69 {
        Some(ArgKind::Int)
    } else if letter == 0x75 {
        Some(ArgKind::Uint)
    } else if letter == 0x66 {
        Some(ArgKind::Fixed)
    } else if letter == 0x73 {
        Some(ArgKind::Str)
    } else if letter == 0x6f {
        Some(ArgKind::Object)
    } else if letter == 0x6e {
        Some(ArgKind::NewId)
    } else if letter == 0x61 {
        Some(ArgKind::Array)
    } else if letter == 0x68 {
        Some(ArgKind::Fd)
    } else {
        None
    }
}

/// The kinds that `text` is the signature of, or `None` when a byte of
/// `text` is no letter of a kind.
pub fn read_signature(text: &[u8]) -> (r: Option<Vec<ArgKind>>)
    ensures
        match r {
            Some(kinds) => signature_of(kinds@) == text@,
            None => exists|i: int| 0 <= i < text@.len() && !is_letter(#[trigger] text@[i]),
        },
{
    let mut kinds: Vec<ArgKind> = Vec::new();
    let mut i: usize = 0;
    while i < text.len()
        invariant
            i <= text.len(),
            signature_of(kinds@) == text@.take(i as int),
        decreases text.len() - i,
    {
        match kind_of_letter(text[i]) {
            None => {
                return None;
            },
            Some(kind) => {
                let ghost before = kinds@;
                kinds.push(kind);
                assert(signature_of(kinds@) =~= signature_of(before).push(letter_of(kind)));
                assert(text@.take(i as int + 1) =~= text@.take(i as int).push(text@[i as int]));
            },
        }
        i = i + 1;
    }
    assert(text@.take(i as int) =~= text@);
    Some(kinds)
}

/// Two runs of kinds with one signature are one run: a signature has one
/// reading, so what [`read_signature`] states of its result leaves no choice.
pub proof fn lemma_signature_one_reading(a: Seq<ArgKind>, b: Seq<ArgKind>)
    requires
        signature_of(a) == signature_of(b),
    ensures
        a == b,
{
    assert(a.len() == signature_of(a).len());
    assert(b.len() == signature_of(b).len());
    assert forall|i: int| 0 <= i < a.len() implies a[i] == b[i] by {
        assert(signature_of(a)[i] == letter_of(a[i]));
        assert(signature_of(b)[i] == letter_of(b[i]));
    }
    assert(a =~= b);
}

} // verus!
