//! The chain of length-prefixed sub-blocks, read as one flat byte stream.

use vstd::prelude::*;
use vstd::slice::slice_subrange;
use crate::parser::{chain_len, chain_payload, chain_total, lemma_chain_len_bounds};

verus! {

/// A source of bytes that are read one after another: what a bit stream and a
/// decoder read from.
pub trait ByteSource {
    /// Whether the source is in a sound state.
    spec fn wf(&self) -> bool;

    /// The bytes that the source has yet to give, in order.
    spec fn remaining(&self) -> Seq<u8>;

    /// Gives the next byte, or `None` when none is left; from then on it
    /// keeps returning `None`.
    fn next(&mut self) -> (r: Option<u8>)
        requires
            old(self).wf(),
        ensures
            final(self).wf(),
            old(self).remaining().len() > 0 ==> r == Some(old(self).remaining()[0])
                && final(self).remaining() == old(self).remaining().skip(1),
            old(self).remaining().len() == 0 ==> r is None && final(self).remaining().len() == 0,
    ;
}

/// A forward-only reader over the data bytes of a sub-block chain.
pub struct LenPrefixRawDataView<'a> {
    remains: &'a [u8],
    current_block: &'a [u8],
    cursor: u8,
}

/// The data bytes of a chain are as many as its length prefixes add up to.
pub proof fn lemma_chain_payload_len(s: Seq<u8>)
    ensures
        chain_payload(s).len() == chain_total(s),
    decreases s.len(),
{
    if !(chain_len(s) is None || s[0] == 0) {
        lemma_chain_payload_len(s.skip(1 + s[0] as int));
    }
}

impl<'a> LenPrefixRawDataView<'a> {
    /// Opens a reader on a chain that starts at the first byte of `data`.
    pub fn new(data: &'a [u8]) -> (view: Self)
        requires
            chain_len(data@) is Some,
        ensures
            view.wf(),
            view.remaining() == chain_payload(data@),
    {
        let len = data[0] as usize;
        proof {
            lemma_chain_len_bounds(data@);
            if len > 0 {
                lemma_chain_len_bounds(data@.skip(1 + len as int));
            }
        }
        let view = Self {
            remains: slice_subrange(data, 1 + len, data.len()),
            current_block: slice_subrange(data, 1, 1 + len),
            cursor: 0,
        };
        assert(view.current_block@.skip(0) =~= view.current_block@);
        view
    }

    fn shift_cursor(&mut self)
        requires
            old(self).wf(),
        ensures
            final(self).wf(),
            old(self).remaining().len() > 0 ==> final(self).remaining() == old(
                self,
            ).remaining().skip(1),
            old(self).remaining().len() == 0 ==> final(self).remaining().len() == 0,
    {
        if self.current_block.len() == 0 {
        } else if self.cursor < self.current_block.len() as u8 - 1 {
            self.cursor += 1;
            assert(self.remaining() =~= old(self).remaining().skip(1));
        } else {
            assert(old(self).current_block@.skip(old(self).cursor as int).len() == 1);
            self.cursor = 0;
            self.shift_next_block();
            assert(self.remaining() =~= old(self).remaining().skip(1));
        }
    }

    // leaves the cursor untouched
    fn shift_next_block(&mut self)
        requires
            old(self).current_block@.len() <= 255,
            old(self).current_block@.len() > 0 ==> chain_len(old(self).remains@) is Some,
            old(self).cursor == 0,
        ensures
            final(self).wf(),
            final(self).cursor == 0,
            final(self).remaining() == (if old(self).current_block@.len() == 0 {
                Seq::<u8>::empty()
            } else {
                chain_payload(old(self).remains@)
            }),
    {
        if self.current_block.len() == 0 {
            // no more blocks
            return ;
        }
        let len = self.remains[0] as usize;
        if len == 0 {
            self.remains = slice_subrange(self.remains, 0, 0);
            self.current_block = slice_subrange(self.current_block, 0, 0);
        } else {
            proof {
                lemma_chain_len_bounds(self.remains@.skip(1 + len as int));
            }
            self.current_block = slice_subrange(self.remains, 1, 1 + len);
            self.remains = slice_subrange(self.remains, 1 + len, self.remains.len());
            assert(self.current_block@.skip(0) =~= self.current_block@);
        }
    }
}

impl<'a> ByteSource for LenPrefixRawDataView<'a> {
    /// The reader stands inside a block, or at the end of the stream.
    closed spec fn wf(&self) -> bool {
        &&& self.current_block@.len() <= 255
        &&& self.cursor as int <= self.current_block@.len()
        &&& self.current_block@.len() > 0 ==> {
            &&& (self.cursor as int) < self.current_block@.len()
            &&& chain_len(self.remains@) is Some
        }
    }

    /// The data bytes of the chain that are yet to be emitted.
    closed spec fn remaining(&self) -> Seq<u8> {
        if self.current_block@.len() == 0 {
            Seq::empty()
        } else {
            self.current_block@.skip(self.cursor as int) + chain_payload(self.remains@)
        }
    }

    /// Emits the next data byte, or `None` once the chain's terminator has
    /// been reached.
    fn next(&mut self) -> (r: Option<u8>) {
        if self.current_block.len() == 0 {
            return None;
        }
        let current = self.current_block[self.cursor as usize];
        self.shift_cursor();
        Some(current)
    }
}

} // verus!
