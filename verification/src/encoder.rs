//! The encoder whose output the decoder turns back into its input, as a
//! specification, and the proof that it does.
//!
//! Nothing here runs: the encoder is a spec function over codes, and the
//! decoder is taken by its step function, which `Decoder::decode_next`
//! applies to each code that it reads.

use vstd::prelude::*;
use vstd::arithmetic::power2::{pow2, lemma2_to64};
use crate::bitstream::{bits_after, bits_at};
use crate::lzw::{
    decode_all, expand, fresh_table, grown_code_size, lemma_expand_fuel, lemma_expand_push,
    lemma_no_forward_refs_expand, lzw_step, no_forward_refs, LzwState, CODE_NONE, MAX_ENTRIES,
};

verus! {

/// The first code that a table assigns to a string of more than one byte.
pub open spec fn first_free(min: nat) -> nat {
    pow2(min) + 2
}

/// Whether `code` stands for a string in the table: it lies in the table and
/// is neither the clear code nor the end code.
pub open spec fn is_string_code(min: nat, entries: Seq<(u16, u8)>, code: u16) -> bool {
    code < entries.len() && code != pow2(min) && code != pow2(min) + 1
}

/// A table as encoding and decoding build it: the roots and the two reserved
/// entries first, then entries that each extend the string of an earlier
/// string code by one byte.
pub open spec fn table_ok(min: nat, entries: Seq<(u16, u8)>) -> bool {
    &&& first_free(min) <= entries.len() <= MAX_ENTRIES
    &&& forall|i: int| 0 <= i < first_free(min) ==> entries[i] == #[trigger] fresh_table(min)[i]
    &&& forall|i: int|
        first_free(min) <= i < entries.len() ==> {
            let prev = (#[trigger] entries[i]).0;
            prev != CODE_NONE && prev < i && prev != pow2(min) && prev != pow2(min) + 1
        }
}

/// Whether entry `c` of the table extends the string of `w` by the byte `b`.
pub open spec fn has_edge(min: nat, entries: Seq<(u16, u8)>, w: u16, b: u8, c: int) -> bool {
    first_free(min) <= c < entries.len() && entries[c] == (w, b)
}

/// A code that extends the string of `w` by the byte `b`, if the table has
/// one.
pub open spec fn child(min: nat, entries: Seq<(u16, u8)>, w: u16, b: u8) -> Option<u16> {
    if exists|c: int| has_edge(min, entries, w, b, c) {
        Some((choose|c: int| has_edge(min, entries, w, b, c)) as u16)
    } else {
        None
    }
}

/// The codes for the input `x` that follows the string of `w`, which is
/// matched already.
///
/// While the table has the matched string extended by the next byte, the
/// match grows. Else the code of the match is emitted, the extended string
/// enters the table, and the next byte starts a new match; a full table is
/// given up with a clear code instead.
pub open spec fn encode_from(min: nat, entries: Seq<(u16, u8)>, w: u16, x: Seq<u8>) -> Seq<u16>
    decreases x.len(),
{
    if x.len() == 0 {
        seq![w]
    } else {
        match child(min, entries, w, x[0]) {
            Some(c) => encode_from(min, entries, c, x.skip(1)),
            None => if entries.len() < MAX_ENTRIES {
                seq![w] + encode_from(min, entries.push((w, x[0])), x[0] as u16, x.skip(1))
            } else {
                seq![w, pow2(min) as u16] + encode_from(
                    min,
                    fresh_table(min),
                    x[0] as u16,
                    x.skip(1),
                )
            },
        }
    }
}

/// The code stream for the color indices `x`: a clear code, the codes of the
/// longest matches, and the end code.
pub open spec fn encode(min: nat, x: Seq<u8>) -> Seq<u16> {
    seq![pow2(min) as u16] + (if x.len() == 0 {
        Seq::empty()
    } else {
        encode_from(min, fresh_table(min), x[0] as u16, x.skip(1))
    }) + seq![(pow2(min) + 1) as u16]
}

/// All that the codes decode to, from the state `st`; `None` where a code is
/// invalid. Codes after the end code are not looked at.
pub open spec fn decode_codes(min: nat, st: LzwState, codes: Seq<u16>) -> Option<Seq<u8>>
    decreases codes.len(),
{
    if codes.len() == 0 || st.ended {
        Some(Seq::empty())
    } else {
        let step = lzw_step(min, st, codes[0]);
        match step.out {
            None => None,
            Some(out) => match decode_codes(min, step.next, codes.skip(1)) {
                Some(rest) => Some(out + rest),
                None => None,
            },
        }
    }
}

/// A well-built table has no forward reference.
pub proof fn lemma_table_ok_no_forward_refs(min: nat, entries: Seq<(u16, u8)>)
    requires
        table_ok(min, entries),
    ensures
        no_forward_refs(entries),
{
    assert forall|i: int| 0 <= i < entries.len() implies (#[trigger] entries[i]).0 == CODE_NONE
        || (entries[i].0 as int) < i by {
        if i < first_free(min) {
            assert(entries[i] == fresh_table(min)[i]);
        }
    }
}

/// In a well-built table every code within it has a string, no longer than
/// the code is large.
pub proof fn lemma_expand_ok(min: nat, entries: Seq<(u16, u8)>, code: u16, fuel: nat)
    requires
        table_ok(min, entries),
        code < entries.len(),
        fuel > code,
    ensures
        expand(entries, code, fuel) is Some,
        1 <= expand(entries, code, fuel)->Some_0.len() <= code + 1,
{
    lemma_table_ok_no_forward_refs(min, entries);
    lemma_no_forward_refs_expand(entries, code, fuel);
}

/// A root stands for its own byte.
pub proof fn lemma_expand_root(min: nat, entries: Seq<(u16, u8)>, code: u16)
    requires
        2 <= min <= 8,
        table_ok(min, entries),
        code < pow2(min),
    ensures
        expand(entries, code, MAX_ENTRIES as nat) == Some(seq![code as u8]),
{
    lemma2_to64();
    assert(entries[code as int] == fresh_table(min)[code as int]);
    assert(expand(entries, CODE_NONE, (MAX_ENTRIES - 1) as nat) == Some(Seq::<u8>::empty()));
    assert(Seq::<u8>::empty().push(code as u8) =~= seq![code as u8]);
}

/// The table right after a reset is well built.
pub proof fn lemma_fresh_table_ok(min: nat)
    requires
        2 <= min <= 8,
    ensures
        table_ok(min, fresh_table(min)),
        fresh_table(min).len() == first_free(min),
{
    lemma2_to64();
}

/// How the decoder stands to the encoder between two codes: right after a
/// clear code both have the fresh table; later the encoder's table is one
/// entry ahead, and that entry extends the string of the code decoded last
/// by the first byte of the string that the encoder is matching.
pub open spec fn in_step(
    min: nat,
    st: LzwState,
    entries: Seq<(u16, u8)>,
    matched: Seq<u8>,
) -> bool {
    &&& !st.ended
    &&& if st.prev == CODE_NONE {
        st.entries == entries && entries == fresh_table(min)
    } else {
        &&& entries.len() > first_free(min)
        &&& st.entries == entries.drop_last()
        &&& entries.last() == (st.prev, matched[0])
    }
}

/// The decoder, in step with the encoder, decodes the code of the matched
/// string to that string, and catches up with the encoder's table.
proof fn lemma_step_emits_match(
    min: nat,
    entries: Seq<(u16, u8)>,
    w: u16,
    matched: Seq<u8>,
    st: LzwState,
)
    requires
        2 <= min <= 8,
        table_ok(min, entries),
        is_string_code(min, entries, w),
        expand(entries, w, MAX_ENTRIES as nat) == Some(matched),
        in_step(min, st, entries, matched),
    ensures
        lzw_step(min, st, w).out == Some(matched),
        lzw_step(min, st, w).next == (LzwState {
            entries,
            prev: w,
            code_size: grown_code_size(st.entries.len(), st.code_size),
            ended: false,
        }),
{
    lemma2_to64();
    let max = MAX_ENTRIES as nat;
    lemma_expand_ok(min, entries, w, max);
    if st.prev == CODE_NONE {
        lemma_expand_root(min, entries, w);
    } else {
        let older = entries.drop_last();
        let n = older.len();
        lemma_table_ok_drop_last(min, entries);
        if w == n {
            let prev = st.prev;
            assert(entries[n as int] == (prev, matched[0]));
            assert(prev < n && prev != CODE_NONE);
            lemma_expand_ok(min, older, prev, max);
            lemma_expand_push(older, entries.last(), prev, max);
            let p = expand(older, prev, max)->Some_0;
            lemma_expand_fuel(entries, prev, max, (max - 1) as nat);
            assert(expand(entries, prev, (max - 1) as nat) == Some(p));
            assert(matched == p.push(matched[0]));
            assert(matched[0] == p[0]);
            assert(older.push((prev, p[0])) =~= entries);
        } else {
            lemma_expand_ok(min, older, w, max);
            lemma_expand_push(older, entries.last(), w, max);
            assert(older.push((st.prev, matched[0])) =~= entries);
        }
    }
}

/// A well-built table stays so when it gains an entry that extends the
/// string of one of its string codes.
proof fn lemma_table_ok_push(min: nat, entries: Seq<(u16, u8)>, w: u16, b: u8)
    requires
        table_ok(min, entries),
        is_string_code(min, entries, w),
        entries.len() < MAX_ENTRIES,
    ensures
        table_ok(min, entries.push((w, b))),
        entries.push((w, b)).drop_last() == entries,
        entries.push((w, b)).last() == (w, b),
{
    let grown = entries.push((w, b));
    assert forall|i: int| 0 <= i < first_free(min) implies grown[i] == #[trigger] fresh_table(
        min,
    )[i] by {
        assert(grown[i] == entries[i]);
    }
    assert forall|i: int| first_free(min) <= i < grown.len() implies {
        let prev = (#[trigger] grown[i]).0;
        prev != CODE_NONE && prev < i && prev != pow2(min) && prev != pow2(min) + 1
    } by {
        if i < entries.len() {
            assert(grown[i] == entries[i]);
        }
    }
    assert(grown.drop_last() =~= entries);
}

/// A well-built table is so without its last entry, if that is not one of
/// the reserved ones.
proof fn lemma_table_ok_drop_last(min: nat, entries: Seq<(u16, u8)>)
    requires
        table_ok(min, entries),
        entries.len() > first_free(min),
    ensures
        table_ok(min, entries.drop_last()),
        entries.drop_last().push(entries.last()) == entries,
{
    let older = entries.drop_last();
    assert forall|i: int| 0 <= i < first_free(min) implies older[i] == #[trigger] fresh_table(
        min,
    )[i] by {
        assert(older[i] == entries[i]);
    }
    assert forall|i: int| first_free(min) <= i < older.len() implies {
        let prev = (#[trigger] older[i]).0;
        prev != CODE_NONE && prev < i && prev != pow2(min) && prev != pow2(min) + 1
    } by {
        assert(older[i] == entries[i]);
    }
    assert(older.push(entries.last()) =~= entries);
}

/// Decoding a code and then more codes: what the code emits, followed by
/// what the others decode to from the state that it leaves.
proof fn lemma_decode_codes_first(min: nat, st: LzwState, code: u16, more: Seq<u16>)
    requires
        !st.ended,
        lzw_step(min, st, code).out is Some,
        decode_codes(min, lzw_step(min, st, code).next, more) is Some,
    ensures
        decode_codes(min, st, seq![code] + more) == Some(
            lzw_step(min, st, code).out->Some_0 + decode_codes(
                min,
                lzw_step(min, st, code).next,
                more,
            )->Some_0,
        ),
{
    let codes = seq![code] + more;
    assert(codes[0] == code);
    assert(codes.skip(1) =~= more);
}

/// The end code, decoded last, emits nothing.
proof fn lemma_decode_end(min: nat, st: LzwState)
    requires
        2 <= min <= 8,
        !st.ended,
    ensures
        decode_codes(min, st, seq![(pow2(min) + 1) as u16]) == Some(Seq::<u8>::empty()),
{
    lemma2_to64();
    let end = (pow2(min) + 1) as u16;
    let done = lzw_step(min, st, end);
    assert(done.out == Some(Seq::<u8>::empty()));
    assert(decode_codes(min, done.next, Seq::<u16>::empty()) == Some(Seq::<u8>::empty()));
    lemma_decode_codes_first(min, st, end, Seq::<u16>::empty());
    assert(seq![end] + Seq::<u16>::empty() =~= seq![end]);
    assert(Seq::<u8>::empty() + Seq::<u8>::empty() =~= Seq::<u8>::empty());
}

/// Decoding what the encoder emits for the input `x` after the string that
/// it has matched gives that string followed by `x`.
proof fn lemma_decode_encode_from(
    min: nat,
    entries: Seq<(u16, u8)>,
    w: u16,
    matched: Seq<u8>,
    x: Seq<u8>,
    st: LzwState,
)
    requires
        2 <= min <= 8,
        table_ok(min, entries),
        is_string_code(min, entries, w),
        expand(entries, w, MAX_ENTRIES as nat) == Some(matched),
        forall|i: int| 0 <= i < x.len() ==> x[i] < pow2(min),
        in_step(min, st, entries, matched),
    ensures
        decode_codes(
            min,
            st,
            encode_from(min, entries, w, x) + seq![(pow2(min) + 1) as u16],
        ) == Some(matched + x),
    decreases x.len(),
{
    lemma2_to64();
    let max = MAX_ENTRIES as nat;
    let clear = pow2(min) as u16;
    let tail = seq![(pow2(min) + 1) as u16];
    lemma_expand_ok(min, entries, w, max);
    if x.len() == 0 {
        lemma_step_emits_match(min, entries, w, matched, st);
        let after = lzw_step(min, st, w).next;
        lemma_decode_end(min, after);
        lemma_decode_codes_first(min, st, w, tail);
        assert(matched + Seq::<u8>::empty() =~= matched + x);
    } else {
        let b = x[0];
        let rest = x.skip(1);
        assert forall|i: int| 0 <= i < rest.len() implies rest[i] < pow2(min) by {
            assert(rest[i] == x[i + 1]);
        }
        match child(min, entries, w, b) {
            Some(c) => {
                let ci = choose|c: int| has_edge(min, entries, w, b, c);
                assert(has_edge(min, entries, w, b, ci));
                lemma_expand_fuel(entries, w, max, (max - 1) as nat);
                let longer = matched.push(b);
                assert(expand(entries, c, max) == Some(longer));
                assert(longer[0] == matched[0]);
                lemma_decode_encode_from(min, entries, c, longer, rest, st);
                assert(longer + rest =~= matched + x);
            },
            None => {
                lemma_step_emits_match(min, entries, w, matched, st);
                let after = lzw_step(min, st, w).next;
                let start = seq![b];
                if entries.len() < MAX_ENTRIES {
                    let grown = entries.push((w, b));
                    lemma_table_ok_push(min, entries, w, b);
                    lemma_expand_root(min, grown, b as u16);
                    let more = encode_from(min, grown, b as u16, rest);
                    lemma_decode_encode_from(min, grown, b as u16, start, rest, after);
                    lemma_decode_codes_first(min, st, w, more + tail);
                    assert(seq![w] + (more + tail) =~= encode_from(min, entries, w, x) + tail);
                    assert(matched + (start + rest) =~= matched + x);
                } else {
                    let fresh = fresh_table(min);
                    lemma_fresh_table_ok(min);
                    lemma_expand_root(min, fresh, b as u16);
                    let cleared = lzw_step(min, after, clear);
                    assert(cleared.out == Some(Seq::<u8>::empty()));
                    let more = encode_from(min, fresh, b as u16, rest);
                    lemma_decode_encode_from(min, fresh, b as u16, start, rest, cleared.next);
                    lemma_decode_codes_first(min, after, clear, more + tail);
                    lemma_decode_codes_first(min, st, w, seq![clear] + (more + tail));
                    assert(seq![w] + (seq![clear] + (more + tail)) =~= encode_from(
                        min,
                        entries,
                        w,
                        x,
                    ) + tail);
                    assert(matched + (Seq::<u8>::empty() + (start + rest)) =~= matched + x);
                }
            },
        }
    }
}

/// The decoder inverts the encoder: for color indices `x` below `2^min`, the
/// codes of `encode(min, x)`, decoded one after another from any state that
/// is not past an end code, are all valid, and what they emit, joined, is
/// `x`.
pub proof fn lemma_decoder_inverts_encoder(min: nat, x: Seq<u8>, st: LzwState)
    requires
        2 <= min <= 8,
        forall|i: int| 0 <= i < x.len() ==> x[i] < pow2(min),
        !st.ended,
    ensures
        decode_codes(min, st, encode(min, x)) == Some(x),
{
    lemma2_to64();
    let clear = pow2(min) as u16;
    let tail = seq![(pow2(min) + 1) as u16];
    let fresh = fresh_table(min);
    let cleared = lzw_step(min, st, clear);
    assert(cleared.out == Some(Seq::<u8>::empty()));
    if x.len() == 0 {
        lemma_decode_end(min, cleared.next);
        lemma_decode_codes_first(min, st, clear, tail);
        assert(seq![clear] + tail =~= encode(min, x));
        assert(Seq::<u8>::empty() + Seq::<u8>::empty() =~= x);
    } else {
        let b = x[0];
        let rest = x.skip(1);
        assert forall|i: int| 0 <= i < rest.len() implies rest[i] < pow2(min) by {
            assert(rest[i] == x[i + 1]);
        }
        lemma_fresh_table_ok(min);
        lemma_expand_root(min, fresh, b as u16);
        let start = seq![b];
        let more = encode_from(min, fresh, b as u16, rest);
        lemma_decode_encode_from(min, fresh, b as u16, start, rest, cleared.next);
        lemma_decode_codes_first(min, st, clear, more + tail);
        assert(seq![clear] + (more + tail) =~= encode(min, x));
        assert(Seq::<u8>::empty() + (start + rest) =~= x);
    }
}

/// No two entries beyond the reserved ones extend the same string by the
/// same byte.
pub open spec fn edges_distinct(min: nat, entries: Seq<(u16, u8)>) -> bool {
    forall|i: int, j: int|
        first_free(min) <= i < j < entries.len() ==> #[trigger] entries[i] != #[trigger] entries[j]
}

/// No two string codes of the table stand for the same string.
pub open spec fn strings_distinct(min: nat, entries: Seq<(u16, u8)>) -> bool {
    forall|c1: u16, c2: u16|
        is_string_code(min, entries, c1) && is_string_code(min, entries, c2) && c1 != c2
            ==> #[trigger] expand(entries, c1, MAX_ENTRIES as nat) != #[trigger] expand(
            entries,
            c2,
            MAX_ENTRIES as nat,
        )
}

/// Whether, while the codes are decoded from the state `st`, the table has
/// at every step no two string codes with the same string.
pub open spec fn strings_distinct_throughout(min: nat, st: LzwState, codes: Seq<u16>) -> bool
    decreases codes.len(),
{
    strings_distinct(min, st.entries) && (codes.len() == 0 || st.ended || match lzw_step(
        min,
        st,
        codes[0],
    ).out {
        None => true,
        Some(_) => strings_distinct_throughout(
            min,
            lzw_step(min, st, codes[0]).next,
            codes.skip(1),
        ),
    })
}

/// In a well-built table with distinct edges, two string codes with the
/// same string are the same code.
pub proof fn lemma_same_string_same_code(min: nat, entries: Seq<(u16, u8)>, c1: u16, c2: u16)
    requires
        2 <= min <= 8,
        table_ok(min, entries),
        edges_distinct(min, entries),
        is_string_code(min, entries, c1),
        is_string_code(min, entries, c2),
        expand(entries, c1, MAX_ENTRIES as nat) == expand(entries, c2, MAX_ENTRIES as nat),
    ensures
        c1 == c2,
    decreases c1 as int,
{
    lemma2_to64();
    let max = MAX_ENTRIES as nat;
    let less = (max - 1) as nat;
    lemma_expand_ok(min, entries, c1, max);
    lemma_expand_ok(min, entries, c2, max);
    let s = expand(entries, c1, max)->Some_0;
    if c1 < first_free(min) {
        lemma_expand_root(min, entries, c1);
        if c2 < first_free(min) {
            lemma_expand_root(min, entries, c2);
            assert(seq![c1 as u8][0] == seq![c2 as u8][0]);
        } else {
            let prev2 = entries[c2 as int].0;
            lemma_expand_ok(min, entries, prev2, less);
        }
    } else {
        let prev1 = entries[c1 as int].0;
        lemma_expand_ok(min, entries, prev1, less);
        let p1 = expand(entries, prev1, less)->Some_0;
        if c2 < first_free(min) {
            lemma_expand_root(min, entries, c2);
        } else {
            let prev2 = entries[c2 as int].0;
            lemma_expand_ok(min, entries, prev2, less);
            let p2 = expand(entries, prev2, less)->Some_0;
            let b1 = entries[c1 as int].1;
            let b2 = entries[c2 as int].1;
            assert(s == p1.push(b1));
            assert(s == p2.push(b2));
            assert(p1.push(b1).drop_last() =~= p1);
            assert(p2.push(b2).drop_last() =~= p2);
            assert(p1 == p2);
            assert(b1 == p1.push(b1).last());
            assert(b2 == p2.push(b2).last());
            lemma_expand_ok(min, entries, prev1, max);
            lemma_expand_ok(min, entries, prev2, max);
            lemma_expand_fuel(entries, prev1, max, less);
            lemma_expand_fuel(entries, prev2, max, less);
            lemma_same_string_same_code(min, entries, prev1, prev2);
            assert(entries[c1 as int] == entries[c2 as int]);
        }
    }
}

/// A well-built table with distinct edges has distinct strings.
pub proof fn lemma_edges_give_distinct_strings(min: nat, entries: Seq<(u16, u8)>)
    requires
        2 <= min <= 8,
        table_ok(min, entries),
        edges_distinct(min, entries),
    ensures
        strings_distinct(min, entries),
{
    assert forall|c1: u16, c2: u16|
        is_string_code(min, entries, c1) && is_string_code(min, entries, c2) && c1
            != c2 implies #[trigger] expand(entries, c1, MAX_ENTRIES as nat) != #[trigger] expand(
        entries,
        c2,
        MAX_ENTRIES as nat,
    ) by {
        if expand(entries, c1, MAX_ENTRIES as nat) == expand(entries, c2, MAX_ENTRIES as nat) {
            lemma_same_string_same_code(min, entries, c1, c2);
        }
    }
}

/// The entry that the encoder adds is a new edge: the table's edges stay
/// distinct.
pub proof fn lemma_new_edge_is_distinct(min: nat, entries: Seq<(u16, u8)>, w: u16, b: u8)
    requires
        edges_distinct(min, entries),
        first_free(min) <= entries.len(),
        child(min, entries, w, b) is None,
    ensures
        edges_distinct(min, entries.push((w, b))),
{
    let grown = entries.push((w, b));
    assert forall|i: int, j: int| first_free(min) <= i < j < grown.len() implies #[trigger] grown[i]
        != #[trigger] grown[j] by {
        if j < entries.len() {
            assert(grown[i] == entries[i] && grown[j] == entries[j]);
        } else {
            assert(grown[i] == entries[i]);
            if entries[i] == (w, b) {
                assert(has_edge(min, entries, w, b, i));
            }
        }
    }
}

proof fn lemma_prefix_strings_distinct(min: nat, entries: Seq<(u16, u8)>)
    requires
        2 <= min <= 8,
        table_ok(min, entries),
        edges_distinct(min, entries),
        entries.len() > first_free(min),
    ensures
        strings_distinct(min, entries.drop_last()),
{
    let older = entries.drop_last();
    lemma_table_ok_drop_last(min, entries);
    assert(edges_distinct(min, older)) by {
        assert forall|i: int, j: int|
            first_free(min) <= i < j < older.len() implies #[trigger] older[i]
            != #[trigger] older[j] by {
            assert(older[i] == entries[i] && older[j] == entries[j]);
        }
    }
    lemma_edges_give_distinct_strings(min, older);
}

/// Strings stay distinct through a code and then more codes, if they are
/// before the code and stay so through the others.
proof fn lemma_distinct_first(min: nat, st: LzwState, code: u16, more: Seq<u16>)
    requires
        strings_distinct(min, st.entries),
        lzw_step(min, st, code).out is Some ==> strings_distinct_throughout(
            min,
            lzw_step(min, st, code).next,
            more,
        ),
    ensures
        strings_distinct_throughout(min, st, seq![code] + more),
{
    let codes = seq![code] + more;
    assert(codes[0] == code);
    assert(codes.skip(1) =~= more);
}

/// The end code, decoded last, leaves the table as it is.
proof fn lemma_distinct_end(min: nat, st: LzwState)
    requires
        2 <= min <= 8,
        strings_distinct(min, st.entries),
    ensures
        strings_distinct_throughout(min, st, seq![(pow2(min) + 1) as u16]),
{
    lemma2_to64();
    let end = (pow2(min) + 1) as u16;
    let done = lzw_step(min, st, end);
    assert(done.out == Some(Seq::<u8>::empty()));
    assert(done.next.entries == st.entries);
    assert(strings_distinct_throughout(min, done.next, Seq::<u16>::empty()));
    lemma_distinct_first(min, st, end, Seq::<u16>::empty());
    assert(seq![end] + Seq::<u16>::empty() =~= seq![end]);
}

proof fn lemma_distinct_from(
    min: nat,
    entries: Seq<(u16, u8)>,
    w: u16,
    matched: Seq<u8>,
    x: Seq<u8>,
    st: LzwState,
)
    requires
        2 <= min <= 8,
        table_ok(min, entries),
        edges_distinct(min, entries),
        is_string_code(min, entries, w),
        expand(entries, w, MAX_ENTRIES as nat) == Some(matched),
        forall|i: int| 0 <= i < x.len() ==> x[i] < pow2(min),
        in_step(min, st, entries, matched),
    ensures
        strings_distinct_throughout(
            min,
            st,
            encode_from(min, entries, w, x) + seq![(pow2(min) + 1) as u16],
        ),
    decreases x.len(),
{
    lemma2_to64();
    let max = MAX_ENTRIES as nat;
    let clear = pow2(min) as u16;
    let tail = seq![(pow2(min) + 1) as u16];
    lemma_expand_ok(min, entries, w, max);
    lemma_edges_give_distinct_strings(min, entries);
    if st.prev != CODE_NONE {
        lemma_prefix_strings_distinct(min, entries);
    }
    assert(strings_distinct(min, st.entries));
    if x.len() == 0 {
        lemma_step_emits_match(min, entries, w, matched, st);
        let after = lzw_step(min, st, w).next;
        lemma_distinct_end(min, after);
        lemma_distinct_first(min, st, w, tail);
    } else {
        let b = x[0];
        let rest = x.skip(1);
        assert forall|i: int| 0 <= i < rest.len() implies rest[i] < pow2(min) by {
            assert(rest[i] == x[i + 1]);
        }
        match child(min, entries, w, b) {
            Some(c) => {
                let ci = choose|c: int| has_edge(min, entries, w, b, c);
                assert(has_edge(min, entries, w, b, ci));
                lemma_expand_fuel(entries, w, max, (max - 1) as nat);
                let longer = matched.push(b);
                assert(expand(entries, c, max) == Some(longer));
                assert(longer[0] == matched[0]);
                lemma_distinct_from(min, entries, c, longer, rest, st);
            },
            None => {
                lemma_step_emits_match(min, entries, w, matched, st);
                let after = lzw_step(min, st, w).next;
                let start = seq![b];
                if entries.len() < MAX_ENTRIES {
                    let grown = entries.push((w, b));
                    lemma_table_ok_push(min, entries, w, b);
                    lemma_new_edge_is_distinct(min, entries, w, b);
                    lemma_expand_root(min, grown, b as u16);
                    let more = encode_from(min, grown, b as u16, rest);
                    lemma_distinct_from(min, grown, b as u16, start, rest, after);
                    lemma_distinct_first(min, st, w, more + tail);
                    assert(seq![w] + (more + tail) =~= encode_from(min, entries, w, x) + tail);
                } else {
                    let fresh = fresh_table(min);
                    lemma_fresh_table_ok(min);
                    lemma_expand_root(min, fresh, b as u16);
                    let cleared = lzw_step(min, after, clear);
                    assert(cleared.out == Some(Seq::<u8>::empty()));
                    let more = encode_from(min, fresh, b as u16, rest);
                    lemma_distinct_from(min, fresh, b as u16, start, rest, cleared.next);
                    lemma_distinct_first(min, after, clear, more + tail);
                    lemma_distinct_first(min, st, w, seq![clear] + (more + tail));
                    assert(seq![w] + (seq![clear] + (more + tail)) =~= encode_from(
                        min,
                        entries,
                        w,
                        x,
                    ) + tail);
                }
            },
        }
    }
}

/// Reconstruction is injective on the encoder's streams: while the codes of
/// `encode(min, x)` are decoded, from a state whose table has distinct
/// strings, no table on the way has two string codes with the same string.
pub proof fn lemma_strings_stay_distinct(min: nat, x: Seq<u8>, st: LzwState)
    requires
        2 <= min <= 8,
        forall|i: int| 0 <= i < x.len() ==> x[i] < pow2(min),
        !st.ended,
        strings_distinct(min, st.entries),
    ensures
        strings_distinct_throughout(min, st, encode(min, x)),
{
    lemma2_to64();
    let clear = pow2(min) as u16;
    let tail = seq![(pow2(min) + 1) as u16];
    let fresh = fresh_table(min);
    let cleared = lzw_step(min, st, clear);
    assert(cleared.out == Some(Seq::<u8>::empty()));
    lemma_fresh_table_ok(min);
    assert(edges_distinct(min, fresh));
    lemma_edges_give_distinct_strings(min, fresh);
    if x.len() == 0 {
        lemma_distinct_end(min, cleared.next);
        lemma_distinct_first(min, st, clear, tail);
        assert(seq![clear] + tail =~= encode(min, x));
    } else {
        let b = x[0];
        let rest = x.skip(1);
        assert forall|i: int| 0 <= i < rest.len() implies rest[i] < pow2(min) by {
            assert(rest[i] == x[i + 1]);
        }
        lemma_expand_root(min, fresh, b as u16);
        let start = seq![b];
        let more = encode_from(min, fresh, b as u16, rest);
        lemma_distinct_from(min, fresh, b as u16, start, rest, cleared.next);
        lemma_distinct_first(min, st, clear, more + tail);
        assert(seq![clear] + (more + tail) =~= encode(min, x));
    }
}

/// Whether the bits of `bytes` from bit `cursor` on, read by a decoder in the
/// state `st`, are the given codes, each at the width that the decoder has
/// when it reads it, the last of them being an end code.
pub open spec fn reads_as(
    min: nat,
    st: LzwState,
    bytes: Seq<u8>,
    cursor: int,
    codes: Seq<u16>,
) -> bool
    decreases codes.len(),
{
    if codes.len() == 0 {
        st.ended
    } else {
        let step = lzw_step(min, st, codes[0]);
        let after = bits_after(bytes, cursor, st.code_size as int);
        &&& !st.ended
        &&& st.code_size >= 1
        &&& cursor >= 0
        &&& 8 * bytes.len() - cursor >= st.code_size
        &&& bits_at(bytes, cursor, st.code_size as int) == codes[0]
        &&& step.out is Some
        &&& reads_as(min, step.next, after.0, after.1, codes.skip(1))
    }
}

/// A byte stream that reads as valid codes decodes to what the codes decode
/// to.
pub proof fn lemma_decode_all_follows_codes(
    min: nat,
    st: LzwState,
    bytes: Seq<u8>,
    cursor: int,
    codes: Seq<u16>,
)
    requires
        reads_as(min, st, bytes, cursor, codes),
    ensures
        decode_codes(min, st, codes) == Some(decode_all(min, st, bytes, cursor)),
    decreases codes.len(),
{
    if codes.len() > 0 {
        let step = lzw_step(min, st, codes[0]);
        let after = bits_after(bytes, cursor, st.code_size as int);
        lemma_decode_all_follows_codes(min, step.next, after.0, after.1, codes.skip(1));
    }
}

/// A byte stream in which the encoder's codes for the color indices `x` are
/// packed decodes to `x`.
pub proof fn lemma_decode_all_inverts_encoder(
    min: nat,
    x: Seq<u8>,
    st: LzwState,
    bytes: Seq<u8>,
    cursor: int,
)
    requires
        2 <= min <= 8,
        forall|i: int| 0 <= i < x.len() ==> x[i] < pow2(min),
        reads_as(min, st, bytes, cursor, encode(min, x)),
    ensures
        decode_all(min, st, bytes, cursor) == x,
{
    lemma_decoder_inverts_encoder(min, x, st);
    lemma_decode_all_follows_codes(min, st, bytes, cursor, encode(min, x));
}

} // verus!
