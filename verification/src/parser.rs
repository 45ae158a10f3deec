//! Bounded reads over a borrowed byte slice.
//!
//! Every reader returns the unread tail together with the value it parsed, and
//! fails with [`ParseError::UnexpectedEndOfFile`] exactly when the input is
//! too short.

use vstd::prelude::*;
use vstd::slice::slice_subrange;
use crate::error::ParseError;

verus! {

/// The 16-bit number whose little-endian encoding is `lo`, `hi`.
pub open spec fn u16_le(lo: u8, hi: u8) -> u16 {
    (lo as int + 256 * (hi as int)) as u16
}

/// The number of bytes that a chain of length-prefixed sub-blocks occupies at
/// the front of `s`, terminator included; `None` when `s` ends before the
/// terminating zero-length block.
pub open spec fn chain_len(s: Seq<u8>) -> Option<nat>
    decreases s.len(),
{
    if s.len() == 0 {
        None
    } else if s[0] == 0 {
        Some(1nat)
    } else if s.len() < 1 + s[0] as int {
        None
    } else {
        match chain_len(s.skip(1 + s[0] as int)) {
            Some(n) => Some((1 + s[0] as int + n) as nat),
            None => None,
        }
    }
}

/// The data bytes of the chain at the front of `s`, length prefixes and
/// terminator removed. Empty when `s` holds no complete chain.
pub open spec fn chain_payload(s: Seq<u8>) -> Seq<u8>
    decreases s.len(),
{
    if chain_len(s) is None || s[0] == 0 {
        Seq::empty()
    } else {
        s.subrange(1, 1 + s[0] as int) + chain_payload(s.skip(1 + s[0] as int))
    }
}

/// The sum of the length prefixes of the chain at the front of `s`.
pub open spec fn chain_total(s: Seq<u8>) -> nat
    decreases s.len(),
{
    if chain_len(s) is None || s[0] == 0 {
        0
    } else {
        s[0] as nat + chain_total(s.skip(1 + s[0] as int))
    }
}

/// A chain never extends past the end of the bytes that hold it.
pub proof fn lemma_chain_len_bounds(s: Seq<u8>)
    ensures
        chain_len(s) matches Some(n) ==> 1 <= n <= s.len(),
    decreases s.len(),
{
    if s.len() > 0 && s[0] != 0 && s.len() >= 1 + s[0] as int {
        lemma_chain_len_bounds(s.skip(1 + s[0] as int));
    }
}

/// What a parser's result must be for `input`, given the value and the number
/// of bytes that the grammar finds at its front, or the error that it meets:
/// on success the value has that view and the tail is `input` without those
/// bytes; on failure the error is that error.
pub open spec fn parsed_as<T: View>(
    r: Result<(&[u8], T), ParseError>,
    input: Seq<u8>,
    expected: Result<(T::V, nat), ParseError>,
) -> bool {
    match expected {
        Ok((v, n)) => r matches Ok((rest, value)) && value@ == v && n <= input.len() && rest@
            == input.skip(n as int),
        Err(e) => r matches Err(e2) && e2 == e,
    }
}

/// A chain is the same chain when what follows it is cut off.
pub proof fn lemma_chain_prefix(s: Seq<u8>)
    requires
        chain_len(s) is Some,
    ensures
        chain_len(s.take(chain_len(s)->Some_0 as int)) == chain_len(s),
        chain_payload(s.take(chain_len(s)->Some_0 as int)) == chain_payload(s),
    decreases s.len(),
{
    lemma_chain_len_bounds(s);
    let n = chain_len(s)->Some_0 as int;
    let t = s.take(n);
    if s[0] != 0 {
        let k = 1 + s[0] as int;
        let rest = s.skip(k);
        lemma_chain_prefix(rest);
        lemma_chain_len_bounds(rest);
        assert(t.skip(k) =~= rest.take(n - k));
        assert(t.subrange(1, k) =~= s.subrange(1, k));
    }
}

/// Reads one byte.
pub fn take1(input: &[u8]) -> (r: Result<(&[u8], u8), ParseError>)
    ensures
        input@.len() >= 1 ==> (r matches Ok((rest, value)) && rest@ == input@.skip(1) && value
            == input@[0]),
        input@.len() < 1 ==> r == Err::<(&[u8], u8), ParseError>(ParseError::UnexpectedEndOfFile),
{
    if input.len() >= 1 {
        Ok((slice_subrange(input, 1, input.len()), input[0]))
    } else {
        Err(ParseError::UnexpectedEndOfFile)
    }
}

/// Reads an array of `N` bytes.
pub fn take<const N: usize>(input: &[u8]) -> (r: Result<(&[u8], [u8; N]), ParseError>)
    ensures
        input@.len() >= N ==> (r matches Ok((rest, value)) && rest@ == input@.skip(N as int)
            && value@ == input@.take(N as int)),
        input@.len() < N ==> r == Err::<(&[u8], [u8; N]), ParseError>(
            ParseError::UnexpectedEndOfFile,
        ),
{
    if input.len() >= N {
        let mut value = [0u8; N];
        let mut i: usize = 0;
        while i < N
            invariant
                i <= N <= input@.len(),
                forall|k: int| 0 <= k < i ==> value@[k] == input@[k],
            decreases N - i,
        {
            value[i] = input[i];
            i += 1;
        }
        assert(value@ =~= input@.take(N as int));
        Ok((slice_subrange(input, N, input.len()), value))
    } else {
        Err(ParseError::UnexpectedEndOfFile)
    }
}

/// Borrows the first `length` bytes.
pub fn take_slice(input: &[u8], length: usize) -> (r: Result<(&[u8], &[u8]), ParseError>)
    ensures
        input@.len() >= length ==> (r matches Ok((rest, value)) && rest@ == input@.skip(
            length as int,
        ) && value@ == input@.take(length as int)),
        input@.len() < length ==> r == Err::<(&[u8], &[u8]), ParseError>(
            ParseError::UnexpectedEndOfFile,
        ),
{
    if input.len() >= length {
        Ok((slice_subrange(input, length, input.len()), slice_subrange(input, 0, length)))
    } else {
        Err(ParseError::UnexpectedEndOfFile)
    }
}

/// Reads a little-endian 16-bit number.
pub fn le_u16(input: &[u8]) -> (r: Result<(&[u8], u16), ParseError>)
    ensures
        input@.len() >= 2 ==> (r matches Ok((rest, value)) && rest@ == input@.skip(2) && value
            == u16_le(input@[0], input@[1])),
        input@.len() < 2 ==> r == Err::<(&[u8], u16), ParseError>(ParseError::UnexpectedEndOfFile),
{
    match take::<2>(input) {
        Ok((rest, bytes)) => {
            let lo: u16 = bytes[0] as u16;
            let hi: u16 = bytes[1] as u16;
            Ok((rest, hi * 256 + lo))
        },
        Err(e) => Err(e),
    }
}

/// Skips a chain of length-prefixed sub-blocks and returns what follows its
/// terminator.
pub fn eat_len_prefixed_subblocks(input: &[u8]) -> (r: Result<&[u8], ParseError>)
    ensures
        chain_len(input@) matches Some(n) ==> (r matches Ok(rest) && rest@ == input@.skip(
            n as int,
        )),
        chain_len(input@) is None ==> r == Err::<&[u8], ParseError>(
            ParseError::UnexpectedEndOfFile,
        ),
{
    let mut pos: usize = 0;
    assert(input@.skip(0) =~= input@);
    loop
        invariant
            pos <= input@.len(),
            chain_len(input@) == (match chain_len(input@.skip(pos as int)) {
                Some(n) => Some((pos + n) as nat),
                None => None,
            }),
        decreases input@.len() - pos,
    {
        let ghost tail = input@.skip(pos as int);
        if pos >= input.len() {
            return Err(ParseError::UnexpectedEndOfFile);
        }
        let len: usize = input[pos] as usize;
        assert(tail[0] == input@[pos as int]);
        if len == 0 {
            return Ok(slice_subrange(input, pos + 1, input.len()));
        } else if input.len() - pos - 1 < len {
            return Err(ParseError::UnexpectedEndOfFile);
        } else {
            assert(tail.skip(1 + len as int) =~= input@.skip(pos + 1 + len));
            pos = pos + 1 + len;
        }
    }
}

} // verus!
