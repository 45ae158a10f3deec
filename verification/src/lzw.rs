//! LZW decompression with variable-width codes.
//!
//! The dictionary lives in fixed-capacity vectors of the `heapless` crate.
//! What those vectors do is not proved here: it is stated, method by
//! method, in the contracts of the small functions that call them.

use vstd::prelude::*;
use vstd::arithmetic::power2::{pow2, lemma2_to64};
use vstd::slice::slice_subrange;
use crate::bitstream::{bits_after, bits_at, BitStream};
use crate::error::ParseError;
use crate::subblock::ByteSource;

verus! {

/// The widest code, in bits.
pub const MAX_CODESIZE: u8 = 12;

/// The most entries that the dictionary holds, and the longest string that it
/// rebuilds.
pub const MAX_ENTRIES: usize = 4096;

/// Marks, in the place of a previous code, an entry that has none.
pub const CODE_NONE: u16 = 0xFFFF;

/// `heapless::Vec`, a vector of fixed capacity. Nothing of its inside is
/// known here; what it holds goes by the two names below.
#[verifier::external_type_specification]
#[verifier::external_body]
#[verifier::reject_recursive_types(T)]
pub struct ExHeaplessVec<T, const N: usize>(heapless::Vec<T, N>);

/// The entries that a dictionary table holds, first to last.
pub uninterp spec fn table_entries(v: heapless::Vec<(u16, u8), 4096>) -> Seq<(u16, u8)>;

/// The bytes that a scratch buffer holds, first to last.
pub uninterp spec fn buffer_bytes(v: heapless::Vec<u8, 4096>) -> Seq<u8>;

/// `heapless::Vec::new`: the new vector is empty.
#[verifier::external_body]
fn table_new() -> (v: heapless::Vec<(u16, u8), 4096>)
    ensures
        table_entries(v).len() == 0,
{
    heapless::Vec::new()
}

/// `heapless::Vec::clear`: removes every element.
#[verifier::external_body]
fn table_clear(v: &mut heapless::Vec<(u16, u8), 4096>)
    ensures
        table_entries(*final(v)).len() == 0,
{
    v.clear()
}

/// `heapless::Vec::push`: appends the item while fewer than 4096 are held;
/// otherwise hands it back and leaves the vector as it was.
#[verifier::external_body]
fn table_push(v: &mut heapless::Vec<(u16, u8), 4096>, entry: (u16, u8)) -> (r: Result<
    (),
    (u16, u8),
>)
    ensures
        r is Ok <==> table_entries(*old(v)).len() < 4096,
        r is Ok ==> table_entries(*final(v)) == table_entries(*old(v)).push(entry),
        r is Err ==> table_entries(*final(v)) == table_entries(*old(v)),
{
    v.push(entry)
}

/// `len` of the vector's slice: the number of elements held.
#[verifier::external_body]
fn table_len(v: &heapless::Vec<(u16, u8), 4096>) -> (n: usize)
    ensures
        n == table_entries(*v).len(),
{
    v.len()
}

/// `get` of the vector's slice: the element at `index`, or `None` past the
/// last one.
#[verifier::external_body]
fn table_get(v: &heapless::Vec<(u16, u8), 4096>, index: usize) -> (r: Option<&(u16, u8)>)
    ensures
        index < table_entries(*v).len() ==> r == Some(&table_entries(*v)[index as int]),
        index >= table_entries(*v).len() ==> r is None,
{
    v.get(index)
}

/// `heapless::Vec::new`: the new vector is empty.
#[verifier::external_body]
fn buffer_new() -> (v: heapless::Vec<u8, 4096>)
    ensures
        buffer_bytes(v).len() == 0,
{
    heapless::Vec::new()
}

/// `heapless::Vec::clear`: removes every element.
#[verifier::external_body]
fn buffer_clear(v: &mut heapless::Vec<u8, 4096>)
    ensures
        buffer_bytes(*final(v)).len() == 0,
{
    v.clear()
}

/// `heapless::Vec::push`: appends the item while fewer than 4096 are held;
/// otherwise hands it back and leaves the vector as it was.
#[verifier::external_body]
fn buffer_push(v: &mut heapless::Vec<u8, 4096>, byte: u8) -> (r: Result<(), u8>)
    ensures
        r is Ok <==> buffer_bytes(*old(v)).len() < 4096,
        r is Ok ==> buffer_bytes(*final(v)) == buffer_bytes(*old(v)).push(byte),
        r is Err ==> buffer_bytes(*final(v)) == buffer_bytes(*old(v)),
{
    v.push(byte)
}

/// `len` of the vector's slice: the number of elements held.
#[verifier::external_body]
fn buffer_len(v: &heapless::Vec<u8, 4096>) -> (n: usize)
    ensures
        n == buffer_bytes(*v).len(),
{
    v.len()
}

/// `reverse` of the vector's slice: turns the order of the elements round, in
/// place.
#[verifier::external_body]
fn buffer_reverse(v: &mut heapless::Vec<u8, 4096>)
    ensures
        buffer_bytes(*final(v)) == buffer_bytes(*old(v)).reverse(),
{
    v.reverse()
}

/// `heapless::Vec::as_slice`: the elements held, as a slice.
#[verifier::external_body]
fn buffer_as_slice(v: &heapless::Vec<u8, 4096>) -> (s: &[u8])
    ensures
        s@ == buffer_bytes(*v),
{
    v.as_slice()
}

/// The string that `code` stands for in a table: the string of its previous
/// code followed by its own byte. `None` when the chain of previous codes
/// leaves the table or has more than `fuel` links.
pub open spec fn expand(entries: Seq<(u16, u8)>, code: u16, fuel: nat) -> Option<Seq<u8>>
    decreases fuel,
{
    if code == CODE_NONE {
        Some(Seq::empty())
    } else if fuel == 0 || code as int >= entries.len() {
        None
    } else {
        match expand(entries, entries[code as int].0, (fuel - 1) as nat) {
            Some(s) => Some(s.push(entries[code as int].1)),
            None => None,
        }
    }
}

/// The bytes met on the way from `code` along the previous codes, the byte of
/// `code` first, as far as the chain stays in the table and has no more than
/// `fuel` links.
pub open spec fn walked(entries: Seq<(u16, u8)>, code: u16, fuel: nat) -> Seq<u8>
    decreases fuel,
{
    if code == CODE_NONE || fuel == 0 || code as int >= entries.len() {
        Seq::empty()
    } else {
        seq![entries[code as int].1] + walked(entries, entries[code as int].0, (fuel - 1) as nat)
    }
}

/// The table right after a reset: one root per literal, then the two
/// placeholders that keep the clear code and the end code from being assigned.
pub open spec fn fresh_table(min_size: nat) -> Seq<(u16, u8)> {
    Seq::new(
        pow2(min_size) + 2,
        |i: int|
            if i < pow2(min_size) {
                (CODE_NONE, i as u8)
            } else {
                (CODE_NONE, 0u8)
            },
    )
}

/// No entry of the table refers to itself or to a later entry.
pub open spec fn no_forward_refs(entries: Seq<(u16, u8)>) -> bool {
    forall|i: int|
        0 <= i < entries.len() ==> (#[trigger] entries[i]).0 == CODE_NONE || (entries[i].0 as int)
            < i
}

/// Decoding dictionary: a bounded table of (previous code, byte) pairs, and
/// the buffer in which a code's string is rebuilt.
pub struct DecodingDict {
    min_size: u8,
    table: heapless::Vec<(u16, u8), 4096>,
    buffer: heapless::Vec<u8, 4096>,
}

impl DecodingDict {
    /// The entries of the table, by code.
    pub closed spec fn entries(&self) -> Seq<(u16, u8)> {
        table_entries(self.table)
    }

    /// The content of the reconstruction buffer.
    pub closed spec fn scratch(&self) -> Seq<u8> {
        buffer_bytes(self.buffer)
    }

    /// The code size that the dictionary was made for.
    pub closed spec fn min_code_size(&self) -> u8 {
        self.min_size
    }

    /// Neither the table nor the buffer is over its capacity.
    pub open spec fn wf(&self) -> bool {
        &&& self.entries().len() <= MAX_ENTRIES
        &&& self.scratch().len() <= MAX_ENTRIES
    }

    /// Creates an empty dictionary.
    pub fn new(min_size: u8) -> (dict: DecodingDict)
        ensures
            dict.wf(),
            dict.entries().len() == 0,
            dict.scratch().len() == 0,
            dict.min_code_size() == min_size,
    {
        DecodingDict { min_size, table: table_new(), buffer: buffer_new() }
    }

    /// Resets the dictionary to its roots and the two reserved entries.
    pub fn reset(&mut self)
        requires
            old(self).wf(),
            2 <= old(self).min_code_size() <= 8,
        ensures
            final(self).wf(),
            final(self).entries() == fresh_table(old(self).min_code_size() as nat),
            final(self).scratch() == old(self).scratch(),
            final(self).min_code_size() == old(self).min_code_size(),
    {
        proof {
            lemma_shl16_pow2(self.min_size);
        }
        table_clear(&mut self.table);
        let roots: u16 = 1u16 << (self.min_size as u16);
        let ghost fresh = fresh_table(self.min_size as nat);
        let mut i: u16 = 0;
        while i < roots
            invariant
                i <= roots <= 256,
                roots == pow2(self.min_size as nat),
                fresh == fresh_table(self.min_size as nat),
                self.min_size == old(self).min_size,
                self.buffer == old(self).buffer,
                self.entries() == fresh.take(i as int),
            decreases roots - i,
        {
            let _root = table_push(&mut self.table, (CODE_NONE, i as u8));
            assert(self.entries() =~= fresh.take(i + 1));
            i += 1;
        }
        let _clear = table_push(&mut self.table, (CODE_NONE, 0));
        let _end = table_push(&mut self.table, (CODE_NONE, 0));
        assert(self.entries() =~= fresh);
    }

    /// Appends one entry; fails once the table holds 4096.
    pub fn push(&mut self, key: u16, value: u8) -> (r: Result<(), ParseError>)
        requires
            old(self).wf(),
        ensures
            final(self).wf(),
            final(self).scratch() == old(self).scratch(),
            final(self).min_code_size() == old(self).min_code_size(),
            old(self).entries().len() < MAX_ENTRIES ==> r is Ok && final(self).entries() == old(
                self,
            ).entries().push((key, value)),
            old(self).entries().len() >= MAX_ENTRIES ==> r == Err::<(), ParseError>(
                ParseError::InvalidByte,
            ) && final(self).entries() == old(self).entries(),
    {
        match table_push(&mut self.table, (key, value)) {
            Ok(()) => Ok(()),
            Err(_) => Err(ParseError::InvalidByte),
        }
    }

    /// Rebuilds the string of `code` in the buffer and returns it.
    ///
    /// Fails when the chain of previous codes leaves the table, or is longer
    /// than the buffer; the buffer then holds the bytes met on the way, last
    /// byte first.
    pub fn reconstruct(&mut self, code: u16) -> (r: Result<&[u8], ParseError>)
        requires
            old(self).wf(),
        ensures
            final(self).wf(),
            final(self).entries() == old(self).entries(),
            final(self).min_code_size() == old(self).min_code_size(),
            expand(old(self).entries(), code, MAX_ENTRIES as nat) matches Some(s) ==> (r matches Ok(
                out,
            ) && out@ == s && final(self).scratch() == s),
            expand(old(self).entries(), code, MAX_ENTRIES as nat) is None ==> r == Err::<
                &[u8],
                ParseError,
            >(ParseError::InvalidByte) && final(self).scratch() == walked(
                old(self).entries(),
                code,
                MAX_ENTRIES as nat,
            ),
    {
        buffer_clear(&mut self.buffer);
        let ghost entries = self.entries();
        let mut cur = code;
        assert(self.scratch() =~= Seq::<u8>::empty());
        assert(self.scratch().reverse() =~= Seq::<u8>::empty());
        assert(Seq::<u8>::empty() + walked(entries, code, MAX_ENTRIES as nat) =~= walked(
            entries,
            code,
            MAX_ENTRIES as nat,
        ));
        while cur != CODE_NONE
            invariant
                self.entries() == entries,
                entries == old(self).entries(),
                entries.len() <= MAX_ENTRIES,
                self.scratch().len() <= MAX_ENTRIES,
                self.min_size == old(self).min_size,
                expand(entries, code, MAX_ENTRIES as nat) == (match expand(
                    entries,
                    cur,
                    (MAX_ENTRIES - self.scratch().len()) as nat,
                ) {
                    Some(s) => Some(s + self.scratch().reverse()),
                    None => None,
                }),
                walked(entries, code, MAX_ENTRIES as nat) == self.scratch() + walked(
                    entries,
                    cur,
                    (MAX_ENTRIES - self.scratch().len()) as nat,
                ),
            decreases MAX_ENTRIES - self.scratch().len(),
        {
            if buffer_len(&self.buffer) >= MAX_ENTRIES {
                // the chain is longer than any string of the table can be
                assert(self.scratch() + Seq::<u8>::empty() =~= self.scratch());
                return Err(ParseError::InvalidByte);
            }
            let ghost before = self.scratch();
            match table_get(&self.table, cur as usize) {
                Some(entry) => {
                    let prev = entry.0;
                    let byte = entry.1;
                    let _pushed = buffer_push(&mut self.buffer, byte);
                    proof {
                        let fuel = (MAX_ENTRIES - before.len()) as nat;
                        assert(self.scratch() == before.push(byte));
                        assert(before.push(byte).reverse() =~= seq![byte] + before.reverse());
                        match expand(entries, prev, (fuel - 1) as nat) {
                            Some(s) => {
                                assert(s.push(byte) + before.reverse() =~= s + (seq![byte]
                                    + before.reverse()));
                            },
                            None => {},
                        }
                        let further = walked(entries, prev, (fuel - 1) as nat);
                        assert(before + (seq![byte] + further) =~= before.push(byte) + further);
                    }
                    cur = prev;
                },
                None => {
                    assert(self.scratch() + Seq::<u8>::empty() =~= self.scratch());
                    return Err(ParseError::InvalidByte);
                },
            }
        }
        buffer_reverse(&mut self.buffer);
        proof {
            let w = self.scratch();
            assert(Seq::<u8>::empty() + w =~= w);
        }
        Ok(buffer_as_slice(&self.buffer))
    }

    /// Returns the buffer filled by the last reconstruction.
    pub fn buffer(&self) -> (r: &[u8])
        ensures
            r@ == self.scratch(),
    {
        buffer_as_slice(&self.buffer)
    }

    /// Number of entries in the dictionary: the code that the next `push`
    /// assigns.
    pub fn next_code(&self) -> (n: u16)
        requires
            self.wf(),
        ensures
            n == self.entries().len(),
    {
        table_len(&self.table) as u16
    }
}

/// A string that a code stands for is no longer than the links that were
/// allowed, and a code with a string lies in the table.
pub proof fn lemma_expand_len(entries: Seq<(u16, u8)>, code: u16, fuel: nat)
    ensures
        expand(entries, code, fuel) matches Some(s) ==> s.len() <= fuel && (code != CODE_NONE ==> 1
            <= s.len() && (code as int) < entries.len()),
    decreases fuel,
{
    if code != CODE_NONE && fuel > 0 && (code as int) < entries.len() {
        lemma_expand_len(entries, entries[code as int].0, (fuel - 1) as nat);
    }
}

/// A string found within some number of links is found within any number that
/// is at least its length.
pub proof fn lemma_expand_fuel(entries: Seq<(u16, u8)>, code: u16, f1: nat, f2: nat)
    requires
        expand(entries, code, f1) is Some,
        f2 >= expand(entries, code, f1)->Some_0.len(),
    ensures
        expand(entries, code, f2) == expand(entries, code, f1),
    decreases f1,
{
    if code != CODE_NONE {
        lemma_expand_len(entries, code, f1);
        lemma_expand_fuel(entries, entries[code as int].0, (f1 - 1) as nat, (f2 - 1) as nat);
    }
}

/// Appending an entry changes no string that the table already had.
pub proof fn lemma_expand_push(entries: Seq<(u16, u8)>, entry: (u16, u8), code: u16, fuel: nat)
    requires
        expand(entries, code, fuel) is Some,
    ensures
        expand(entries.push(entry), code, fuel) == expand(entries, code, fuel),
    decreases fuel,
{
    if code != CODE_NONE {
        lemma_expand_push(entries, entry, entries[code as int].0, (fuel - 1) as nat);
    }
}

/// The table right after a reset has no forward reference.
pub proof fn lemma_fresh_table_has_no_forward_refs(min_size: nat)
    ensures
        no_forward_refs(fresh_table(min_size)),
{
}

/// An entry whose previous code lies in the table, or that has none, adds no
/// forward reference.
pub proof fn lemma_push_keeps_no_forward_refs(entries: Seq<(u16, u8)>, prev: u16, byte: u8)
    requires
        no_forward_refs(entries),
        prev == CODE_NONE || (prev as int) < entries.len(),
    ensures
        no_forward_refs(entries.push((prev, byte))),
{
    let grown = entries.push((prev, byte));
    assert forall|i: int| 0 <= i < grown.len() implies (#[trigger] grown[i]).0 == CODE_NONE || (
    grown[i].0 as int) < i by {
        if i < entries.len() {
            assert(grown[i] == entries[i]);
        }
    }
}

/// In a table without forward references every code within it has a string,
/// no longer than the code is large: no chain runs in a cycle or leaves the
/// table.
pub proof fn lemma_no_forward_refs_expand(entries: Seq<(u16, u8)>, code: u16, fuel: nat)
    requires
        no_forward_refs(entries),
        (code as int) < entries.len(),
        code != CODE_NONE,
        fuel > code,
    ensures
        expand(entries, code, fuel) is Some,
        1 <= expand(entries, code, fuel)->Some_0.len() <= code + 1,
    decreases code,
{
    let prev = entries[code as int].0;
    if prev != CODE_NONE {
        lemma_no_forward_refs_expand(entries, prev, (fuel - 1) as nat);
    } else {
        assert(expand(entries, prev, (fuel - 1) as nat) == Some(Seq::<u8>::empty()));
    }
}

/// What a decoder carries from one code to the next.
pub struct LzwState {
    /// The dictionary's entries, by code.
    pub entries: Seq<(u16, u8)>,
    /// The code read before this one, or `CODE_NONE` right after a clear code.
    pub prev: u16,
    /// The width, in bits, of the next code.
    pub code_size: nat,
    /// Whether the end code was read: nothing is decoded after it.
    pub ended: bool,
}

/// What one code does: the bytes it emits, or `None` where it is invalid, and
/// the state that it leaves.
pub struct LzwStep {
    pub out: Option<Seq<u8>>,
    pub next: LzwState,
}

/// The width of the code that follows one read while the table held `n`
/// entries: it grows by one bit when `n` is the last code of the present
/// width, up to 12 bits.
pub open spec fn grown_code_size(n: nat, code_size: nat) -> nat {
    if n == pow2(code_size) - 1 && code_size < MAX_CODESIZE {
        code_size + 1
    } else {
        code_size
    }
}

/// One step of LZW decoding with `2^min` literals, before the end code.
///
/// The clear code resets the table and the width; the end code ends the
/// decoding; both emit no byte. A code above the next one to be assigned is
/// invalid. The first code after a clear emits itself as one byte. Any other
/// code emits its string, and the table gains the previous string followed by
/// the first byte of what is emitted; a code equal to the next one to be
/// assigned stands for exactly that new entry.
pub open spec fn lzw_step(min: nat, st: LzwState, code: u16) -> LzwStep {
    let n = st.entries.len();
    let latched = LzwState {
        entries: st.entries,
        prev: code,
        code_size: grown_code_size(n, st.code_size),
        ended: false,
    };
    if code == pow2(min) {
        LzwStep {
            out: Some(Seq::empty()),
            next: LzwState {
                entries: fresh_table(min),
                prev: CODE_NONE,
                code_size: min + 1,
                ended: false,
            },
        }
    } else if code == pow2(min) + 1 {
        LzwStep { out: Some(Seq::empty()), next: LzwState { ended: true, ..st } }
    } else if code > n {
        LzwStep { out: None, next: st }
    } else if st.prev == CODE_NONE {
        LzwStep { out: Some(seq![code as u8]), next: latched }
    } else {
        let known = expand(st.entries, if code == n { st.prev } else { code }, MAX_ENTRIES as nat);
        if known is None || n >= MAX_ENTRIES || (code == n && known->Some_0.len() >= MAX_ENTRIES) {
            LzwStep { out: None, next: st }
        } else {
            let w = known->Some_0;
            LzwStep {
                out: Some(if code == n { w.push(w[0]) } else { w }),
                next: LzwState { entries: st.entries.push((st.prev, w[0])), ..latched },
            }
        }
    }
}

/// All the bytes that a code stream decodes to: what its codes emit one after
/// another, from the state `st` and from bit `cursor` of `bytes`, until the
/// end code, or until fewer bits are left than a code takes or a code is
/// invalid.
pub open spec fn decode_all(min: nat, st: LzwState, bytes: Seq<u8>, cursor: int) -> Seq<u8>
    decreases 8 * bytes.len() - cursor,
{
    if st.ended || st.code_size < 1 || cursor < 0 || 8 * bytes.len() - cursor < st.code_size {
        Seq::empty()
    } else {
        let step = lzw_step(min, st, bits_at(bytes, cursor, st.code_size as int));
        let after = bits_after(bytes, cursor, st.code_size as int);
        match step.out {
            None => Seq::empty(),
            Some(out) => out + decode_all(min, step.next, after.0, after.1),
        }
    }
}

/// The code width grows by one bit after exactly those codes that were read
/// while the table was one entry short of `2^code_size`, below 12 bits; a
/// clear code sets it back. The code itself was read at the width before.
pub proof fn lemma_code_width_transition(min: nat, st: LzwState, code: u16)
    requires
        lzw_step(min, st, code).out is Some,
    ensures
        code == pow2(min) ==> lzw_step(min, st, code).next.code_size == min + 1,
        code == pow2(min) + 1 ==> lzw_step(min, st, code).next.code_size == st.code_size,
        code != pow2(min) && code != pow2(min) + 1 ==> lzw_step(min, st, code).next.code_size == (
        if st.entries.len() == pow2(st.code_size) - 1 && st.code_size < MAX_CODESIZE {
            st.code_size + 1
        } else {
            st.code_size
        }),
{
}

proof fn lemma_shl16_pow2(n: u8)
    requires
        n <= 12,
    ensures
        (1u16 << (n as u16)) == pow2(n as nat),
        pow2(n as nat) <= 4096,
        n <= 8 ==> pow2(n as nat) <= 256,
{
    lemma2_to64();
    assert((1u16 << 0) == 1 && (1u16 << 1) == 2 && (1u16 << 2) == 4 && (1u16 << 3) == 8 && (1u16
        << 4) == 16 && (1u16 << 5) == 32 && (1u16 << 6) == 64 && (1u16 << 7) == 128 && (1u16 << 8)
        == 256 && (1u16 << 9) == 512 && (1u16 << 10) == 1024 && (1u16 << 11) == 2048 && (1u16
        << 12) == 4096) by (bit_vector);
}

/// An LZW decoder over a source of bytes.
pub struct Decoder<I: ByteSource> {
    bs: BitStream<I>,
    prev: u16,
    table: DecodingDict,
    buf: [u8; 1],
    // where the bytes of the last code lie: 0 nowhere, 1 in `buf`, 2 in the
    // dictionary's buffer
    emitted: u8,
    // set by the end code
    ended: bool,
    code_size: u8,
    min_code_size: u8,
    clear_code: u16,
    end_code: u16,
}

impl<I: ByteSource> Decoder<I> {
    /// The minimum code size that the decoder was made with.
    pub closed spec fn min_code_size(&self) -> u8 {
        self.min_code_size
    }

    /// The dictionary, the latched code and the present code width.
    pub closed spec fn state(&self) -> LzwState {
        LzwState {
            entries: self.table.entries(),
            prev: self.prev,
            code_size: self.code_size as nat,
            ended: self.ended,
        }
    }

    /// The bytes that the last call of `decode_next` emitted; none where it
    /// emitted none.
    pub closed spec fn emitted_bytes(&self) -> Seq<u8> {
        if self.emitted == 1 {
            self.buf@
        } else if self.emitted == 2 {
            self.table.scratch()
        } else {
            Seq::empty()
        }
    }

    /// The bytes of the code stream from the byte in hand on.
    pub closed spec fn bytes(&self) -> Seq<u8> {
        self.bs.bytes()
    }

    /// The position in `bytes()` of the next unread bit.
    pub closed spec fn cursor(&self) -> int {
        self.bs.cursor()
    }

    /// How many bits of the code stream are left to read.
    pub open spec fn bits_left(&self) -> int {
        8 * self.bytes().len() - self.cursor()
    }

    /// The code width and the reserved codes fit the minimum code size.
    pub closed spec fn wf(&self) -> bool {
        &&& self.bs.wf()
        &&& self.table.wf()
        &&& 2 <= self.min_code_size <= 8
        &&& self.table.min_code_size() == self.min_code_size
        &&& self.clear_code == pow2(self.min_code_size as nat)
        &&& self.end_code == self.clear_code + 1
        &&& self.min_code_size < self.code_size <= MAX_CODESIZE
    }

    /// The code width stays between 3 and 12 bits.
    pub proof fn lemma_code_size_range(&self)
        requires
            self.wf(),
        ensures
            self.min_code_size() < self.state().code_size <= MAX_CODESIZE,
            2 <= self.min_code_size() <= 8,
            0 <= self.cursor() <= 8,
            self.bytes().len() >= 1,
            self.state().entries.len() <= MAX_ENTRIES,
    {
        self.bs.lemma_cursor_range();
    }

    /// Starts a decoder on a byte source. The table is empty until the first
    /// clear code.
    pub fn new(r: I, min_code_size: u8) -> (decoder: Decoder<I>)
        requires
            r.wf(),
            2 <= min_code_size <= 8,
        ensures
            decoder.wf(),
            decoder.min_code_size() == min_code_size,
            decoder.state() == (LzwState {
                entries: Seq::empty(),
                prev: CODE_NONE,
                code_size: (min_code_size + 1) as nat,
                ended: false,
            }),
            decoder.bytes() == seq![0u8] + r.remaining(),
            decoder.cursor() == 8,
            decoder.emitted_bytes().len() == 0,
    {
        proof {
            lemma_shl16_pow2(min_code_size);
        }
        let clear_code: u16 = 1u16 << (min_code_size as u16);
        let end_code: u16 = clear_code + 1;
        let table = DecodingDict::new(min_code_size);
        let decoder = Decoder {
            bs: BitStream::new(r),
            prev: CODE_NONE,
            table,
            buf: [0],
            emitted: 0,
            ended: false,
            code_size: min_code_size + 1,
            min_code_size,
            clear_code,
            end_code,
        };
        assert(decoder.state().entries =~= Seq::empty());
        decoder
    }

    /// Reads one code and returns the bytes it stands for; `Ok(None)` after
    /// the end code, and when the code stream has fewer bits left than a code
    /// takes.
    ///
    /// The returned bytes are valid until the next call.
    pub fn decode_next(&mut self) -> (r: Result<Option<&[u8]>, ParseError>)
        requires
            old(self).wf(),
        ensures
            final(self).wf(),
            final(self).min_code_size() == old(self).min_code_size(),
            old(self).state().ended ==> r == Ok::<Option<&[u8]>, ParseError>(None)
                && final(self).state() == old(self).state()
                && final(self).bytes() == old(self).bytes()
                && final(self).cursor() == old(self).cursor(),
            !old(self).state().ended ==> (final(self).bytes(), final(self).cursor()) == bits_after(
                old(self).bytes(),
                old(self).cursor(),
                old(self).state().code_size as int,
            ),
            !old(self).state().ended && old(self).bits_left() < old(self).state().code_size ==> r
                == Ok::<Option<&[u8]>, ParseError>(None) && final(self).state() == old(
                self,
            ).state(),
            !old(self).state().ended && old(self).bits_left() >= old(self).state().code_size ==> ({
                let code = bits_at(
                    old(self).bytes(),
                    old(self).cursor(),
                    old(self).state().code_size as int,
                );
                let step = lzw_step(old(self).min_code_size() as nat, old(self).state(), code);
                &&& step.out matches Some(out) ==> (r matches Ok(Some(chunk)) && chunk@ == out
                    && final(self).state() == step.next)
                &&& step.out is None ==> r == Err::<Option<&[u8]>, ParseError>(
                    ParseError::InvalidByte,
                ) && final(self).state() == old(self).state()
            }),
            r matches Ok(Some(chunk)) ==> final(self).emitted_bytes() == chunk@,
            !(r matches Ok(Some(_))) ==> final(self).emitted_bytes().len() == 0,
    {
        self.emitted = 0;
        if self.ended {
            return Ok(None);
        }
        let ghost st = self.state();
        let ghost min = self.min_code_size as nat;
        let code = match self.bs.next_bits(self.code_size) {
            Some(code) => code,
            None => {
                return Ok(None);  // end of stream
            },
        };
        let from_table: bool;
        if code == self.clear_code {
            self.table.reset();
            self.code_size = self.min_code_size + 1;
            self.prev = CODE_NONE;
            return Ok(Some(slice_subrange(self.buf.as_slice(), 0, 0)));
        } else if code == self.end_code {
            self.ended = true;
            return Ok(Some(slice_subrange(self.buf.as_slice(), 0, 0)));
        } else {
            let next_code = self.table.next_code();
            if code > next_code {
                return Err(ParseError::InvalidByte);  // a code that was not assigned yet
            }
            let prev = self.prev;
            if prev == CODE_NONE {
                self.buf = [code as u8];
                from_table = false;
            } else if code == next_code {
                let (chr, len) = match self.table.reconstruct(prev) {
                    Ok(w) => (w[0], w.len()),
                    Err(e) => {
                        return Err(e);
                    },
                };
                if len >= MAX_ENTRIES {
                    // one byte more would not fit the buffer
                    return Err(ParseError::InvalidByte);
                }
                let ghost w = self.table.scratch();
                proof {
                    lemma_expand_len(st.entries, prev, MAX_ENTRIES as nat);
                }
                match self.table.push(prev, chr) {
                    Ok(()) => {},
                    Err(e) => {
                        return Err(e);
                    },
                }
                proof {
                    // the new entry stands for the previous string and its first byte
                    let grown = st.entries.push((prev, chr));
                    lemma_expand_fuel(st.entries, prev, MAX_ENTRIES as nat, 4095);
                    lemma_expand_push(st.entries, (prev, chr), prev, 4095);
                    assert(expand(grown, code, MAX_ENTRIES as nat) == Some(w.push(w[0])));
                }
                match self.table.reconstruct(code) {
                    Ok(_) => {},
                    Err(e) => {
                        return Err(e);
                    },
                }
                from_table = true;
            } else {
                let chr = match self.table.reconstruct(code) {
                    Ok(w) => w[0],
                    Err(e) => {
                        return Err(e);
                    },
                };
                proof {
                    lemma_expand_len(st.entries, code, MAX_ENTRIES as nat);
                }
                match self.table.push(prev, chr) {
                    Ok(()) => {},
                    Err(e) => {
                        return Err(e);
                    },
                }
                from_table = true;
            }
            proof {
                lemma_shl16_pow2(self.code_size);
            }
            if next_code == (1u16 << (self.code_size as u16)) - 1 && self.code_size < MAX_CODESIZE {
                self.code_size += 1;
            }
            self.prev = code;
        }
        if from_table {
            self.emitted = 2;
            Ok(Some(self.table.buffer()))
        } else {
            self.emitted = 1;
            Ok(Some(self.buf.as_slice()))
        }
    }

    /// The bytes that the last call of `decode_next` emitted.
    pub fn emitted(&self) -> (chunk: &[u8])
        ensures
            chunk@ == self.emitted_bytes(),
    {
        if self.emitted == 2 {
            self.table.buffer()
        } else if self.emitted == 1 {
            self.buf.as_slice()
        } else {
            slice_subrange(self.buf.as_slice(), 0, 0)
        }
    }
}

} // verus!
