//! Frames: each graphic control extension opens one, and the segments up to
//! the next graphic control extension or the trailer belong to it.

use vstd::prelude::*;
use vstd::slice::slice_subrange;
use crate::color::ColorTable;
use crate::error::ParseError;
use crate::header::{header_at, Header, RawGif};
use crate::segment::{
    lemma_segment_len, segment_at, ExtensionBlock, ExtensionBlockView, GraphicControl, Segment,
    SegmentView,
};

verus! {

/// The graphic control extension that a segment is, if it is one.
pub open spec fn control_of(seg: SegmentView) -> Option<GraphicControl> {
    match seg {
        SegmentView::Extension(ExtensionBlockView::GraphicControl(control)) => Some(control),
        _ => None,
    }
}

/// Whether a segment belongs to the body of a frame: any but a graphic
/// control extension and the trailer.
pub open spec fn is_body_segment(seg: SegmentView) -> bool {
    control_of(seg) is None && !(seg is Trailer)
}

/// The first graphic control extension in `s`, with the number of bytes up
/// to its end. `None` when the trailer, or a segment that does not parse,
/// comes first.
pub open spec fn next_control(s: Seq<u8>) -> Option<(GraphicControl, nat)>
    decreases s.len(),
{
    match segment_at(s) {
        Err(_) => None,
        Ok((seg, n)) => if seg is Trailer {
            None
        } else if control_of(seg) is Some {
            Some((control_of(seg)->Some_0, n))
        } else {
            proof {
                lemma_segment_len(s);
            }
            match next_control(s.skip(n as int)) {
                Some((control, m)) => Some((control, n + m)),
                None => None,
            }
        },
    }
}

/// The number of bytes that the body segments at the front of `s` take: all
/// up to the next graphic control extension, the trailer, or the first
/// segment that does not parse.
pub open spec fn body_len(s: Seq<u8>) -> nat
    decreases s.len(),
{
    match segment_at(s) {
        Err(_) => 0,
        Ok((seg, n)) => if is_body_segment(seg) {
            proof {
                lemma_segment_len(s);
            }
            n + body_len(s.skip(n as int))
        } else {
            0
        },
    }
}

/// The body of a frame lies within the bytes that hold it.
pub proof fn lemma_body_len_bounds(s: Seq<u8>)
    ensures
        body_len(s) <= s.len(),
    decreases s.len(),
{
    lemma_segment_len(s);
    match segment_at(s) {
        Err(_) => {},
        Ok((seg, n)) => {
            if is_body_segment(seg) {
                lemma_body_len_bounds(s.skip(n as int));
            }
        },
    }
}

/// The first graphic control extension of a stream, where there is one, ends
/// within the stream.
pub proof fn lemma_next_control_bounds(s: Seq<u8>)
    ensures
        next_control(s) matches Some((_, n)) ==> 1 <= n <= s.len(),
    decreases s.len(),
{
    lemma_segment_len(s);
    match segment_at(s) {
        Err(_) => {},
        Ok((seg, n)) => {
            if is_body_segment(seg) {
                lemma_next_control_bounds(s.skip(n as int));
            }
        },
    }
}

/// A frame, with sequences in place of borrowed bytes.
pub struct FrameView {
    pub delay_centis: u16,
    pub is_transparent: bool,
    pub transparent_color_index: u8,
    pub global_color_table: Option<Seq<u8>>,
    pub header: Header,
    pub raw_data: Seq<u8>,
    pub frame_index: nat,
}

/// The frames of the segment stream `s`, numbered from `index`, for an image
/// with the given header and global color table.
///
/// A frame starts after a graphic control extension and holds the body
/// segments that follow it. The next frame is looked for where the body
/// ends; the trailer or a segment that does not parse ends the frames. What
/// stands before the first graphic control extension belongs to no frame: an
/// image without a graphic control extension is not drawn.
pub open spec fn frames_in(
    header: Header,
    table: Option<Seq<u8>>,
    s: Seq<u8>,
    index: nat,
) -> Seq<FrameView>
    decreases s.len(),
{
    match next_control(s) {
        None => Seq::empty(),
        Some((control, n)) => {
            let body = body_len(s.skip(n as int));
            let rest = s.skip((n + body) as int);
            proof {
                lemma_next_control_bounds(s);
                lemma_body_len_bounds(s.skip(n as int));
            }
            seq![
                FrameView {
                    delay_centis: control.delay_centis,
                    is_transparent: control.is_transparent,
                    transparent_color_index: control.transparent_color_index,
                    global_color_table: table,
                    header,
                    raw_data: s.subrange(n as int, (n + body) as int),
                    frame_index: index,
                },
            ] + frames_in(header, table, rest, index + 1)
        },
    }
}

/// A body segment at the front of a stream belongs to no frame of its own:
/// the frames are those of what follows it.
pub proof fn lemma_frames_skip_segment(
    header: Header,
    table: Option<Seq<u8>>,
    s: Seq<u8>,
    index: nat,
)
    requires
        segment_at(s) matches Ok((seg, _)) && is_body_segment(seg),
    ensures
        frames_in(header, table, s, index) == frames_in(
            header,
            table,
            s.skip(segment_at(s)->Ok_0.1 as int),
            index,
        ),
{
    let n = segment_at(s)->Ok_0.1;
    let t = s.skip(n as int);
    lemma_segment_len(s);
    match next_control(t) {
        None => {},
        Some((control, m)) => {
            lemma_next_control_bounds(t);
            lemma_body_len_bounds(t.skip(m as int));
            let body = body_len(t.skip(m as int));
            assert(s.skip((n + m) as int) =~= t.skip(m as int));
            assert(s.subrange((n + m) as int, (n + m + body) as int) =~= t.subrange(
                m as int,
                (m + body) as int,
            ));
            assert(s.skip((n + m + body) as int) =~= t.skip((m + body) as int));
        },
    }
}

/// A frame of an image: the content of its graphic control extension, and
/// the bytes of the segments that belong to it.
#[derive(Copy, Clone, Eq, PartialEq, Ord, PartialOrd, Hash, Debug)]
pub struct Frame<'a> {
    pub delay_centis: u16,
    pub is_transparent: bool,
    pub transparent_color_index: u8,
    pub global_color_table: Option<ColorTable<'a>>,
    pub header: &'a Header,
    /// The segments from the end of the frame's graphic control extension up
    /// to the next one, the trailer, or the first that does not parse.
    pub raw_data: &'a [u8],
    pub frame_index: usize,
}

impl<'a> View for Frame<'a> {
    type V = FrameView;

    open spec fn view(&self) -> FrameView {
        FrameView {
            delay_centis: self.delay_centis,
            is_transparent: self.is_transparent,
            transparent_color_index: self.transparent_color_index,
            global_color_table: match self.global_color_table {
                Some(table) => Some(table@),
                None => None,
            },
            header: *self.header,
            raw_data: self.raw_data@,
            frame_index: self.frame_index as nat,
        }
    }
}

/// A GIF image over borrowed bytes.
#[derive(Copy, Clone, Eq, PartialEq, Ord, PartialOrd, Hash, Debug)]
pub struct Gif<'a> {
    raw_gif: RawGif<'a>,
}

impl<'a> Gif<'a> {
    /// The header, the global color table and the segment bytes.
    pub closed spec fn raw(&self) -> RawGif<'a> {
        self.raw_gif
    }

    /// The bytes of the global color table, where the image has one.
    pub open spec fn global_table(&self) -> Option<Seq<u8>> {
        match self.raw().global_color_table {
            Some(table) => Some(table@),
            None => None,
        }
    }

    /// The frames of the image, in file order.
    pub open spec fn all_frames(&self) -> Seq<FrameView> {
        frames_in(self.raw().header, self.global_table(), self.raw().image_data@, 0)
    }

    /// Parses the head of a GIF file. The segments are parsed as the frames
    /// are asked for.
    pub fn from_slice(input: &'a [u8]) -> (r: Result<Self, ParseError>)
        ensures
            header_at(input@) matches Ok((h, n)) ==> (r matches Ok(gif) && gif.raw().header == h
                && n <= input@.len() && gif.raw().image_data@ == input@.skip(n as int) && (
            gif.raw().global_color_table is Some <==> h.has_global_color_table) && (
            gif.raw().global_color_table matches Some(t) ==> t@ == input@.subrange(13, n as int))),
            header_at(input@) matches Err(e) ==> (r matches Err(e2) && e2 == e),
    {
        match RawGif::from_slice(input) {
            Ok(raw_gif) => Ok(Self { raw_gif }),
            Err(e) => Err(e),
        }
    }

    /// Starts an iteration over the frames.
    pub fn frames(&'a self) -> (frames: FrameIterator<'a>)
        ensures
            frames.wf(),
            frames.yielded() == 0,
            frames.pending() == self.all_frames(),
    {
        FrameIterator::new(self)
    }

    /// The width of the canvas.
    pub fn width(&self) -> (w: u16)
        ensures
            w == self.raw().header.width,
    {
        self.raw_gif.header.width
    }

    /// The height of the canvas.
    pub fn height(&self) -> (h: u16)
        ensures
            h == self.raw().header.height,
    {
        self.raw_gif.header.height
    }
}

/// A forward-only cursor over the frames of an image.
pub struct FrameIterator<'a> {
    gif: &'a Gif<'a>,
    frame_index: usize,
    remain_raw_data: &'a [u8],
}

impl<'a> FrameIterator<'a> {
    /// The frame counter cannot overflow before the bytes run out.
    pub closed spec fn wf(&self) -> bool {
        self.frame_index + self.remain_raw_data@.len() <= usize::MAX
    }

    /// The number of frames yielded so far.
    pub closed spec fn yielded(&self) -> nat {
        self.frame_index as nat
    }

    /// The frames that are yet to be yielded, in order.
    pub closed spec fn pending(&self) -> Seq<FrameView> {
        frames_in(
            self.gif.raw().header,
            self.gif.global_table(),
            self.remain_raw_data@,
            self.frame_index as nat,
        )
    }

    fn new(gif: &'a Gif<'a>) -> (frames: Self)
        ensures
            frames.wf(),
            frames.yielded() == 0,
            frames.pending() == gif.all_frames(),
    {
        let data = gif.raw_gif.image_data;
        let _total = data.len();
        Self { gif, frame_index: 0, remain_raw_data: data }
    }

    /// Yields the next frame, or `None` when no frame is left; from then on
    /// it keeps returning `None`.
    pub fn next(&mut self) -> (r: Option<Frame<'a>>)
        requires
            old(self).wf(),
        ensures
            final(self).wf(),
            old(self).pending().len() == 0 ==> r is None && final(self).pending().len() == 0,
            old(self).pending().len() > 0 ==> (r matches Some(frame) && frame@ == old(
                self,
            ).pending()[0] && final(self).pending() == old(self).pending().skip(1)),
            final(self).yielded() == old(self).yielded() + (if r is Some {
                1nat
            } else {
                0nat
            }),
    {
        let ghost header = self.gif.raw().header;
        let ghost table = self.gif.global_table();
        let ghost index = self.frame_index as nat;
        let mut input = self.remain_raw_data;
        loop
            invariant
                self.wf(),
                self.gif == old(self).gif,
                self.frame_index == old(self).frame_index,
                self.remain_raw_data == old(self).remain_raw_data,
                header == self.gif.raw().header,
                table == self.gif.global_table(),
                index == self.frame_index,
                input@.len() <= self.remain_raw_data@.len(),
                old(self).pending() == frames_in(header, table, input@, index),
            decreases input@.len(),
        {
            proof {
                lemma_segment_len(input@);
            }
            let (after, seg) = match Segment::parse(input) {
                Ok(v) => v,
                Err(_) => {
                    return None;
                },
            };
            match seg {
                Segment::Trailer => {
                    self.remain_raw_data = slice_subrange(input, 0, 0);
                    return None;
                },
                Segment::Extension(ExtensionBlock::GraphicControl(ctrl)) => {
                    let ghost start = after@;
                    let ghost n = segment_at(input@)->Ok_0.1;
                    // walk to the next graphic control extension
                    let mut cur = after;
                    let mut more = false;
                    loop
                        invariant_except_break
                            !more,
                        invariant
                            cur@.len() <= start.len(),
                            cur@ == start.skip(start.len() - cur@.len()),
                            body_len(start) == start.len() - cur@.len() + body_len(cur@),
                        ensures
                            body_len(cur@) == 0,
                            more == (next_control(cur@) is Some),
                        decreases cur@.len(),
                    {
                        proof {
                            lemma_segment_len(cur@);
                        }
                        match Segment::parse(cur) {
                            Ok((next, seg)) => {
                                match seg {
                                    Segment::Trailer => {
                                        // this is the last frame
                                        break ;
                                    },
                                    Segment::Extension(ExtensionBlock::GraphicControl(_)) => {
                                        more = true;
                                        break ;
                                    },
                                    _ => {
                                        assert(next@ =~= start.skip(start.len() - next@.len()));
                                        cur = next;
                                    },
                                }
                            },
                            Err(_) => {
                                break ;
                            },
                        }
                    }
                    let body = after.len() - cur.len();
                    let raw_data = slice_subrange(after, 0, body);
                    let frame = Frame {
                        delay_centis: ctrl.delay_centis,
                        is_transparent: ctrl.is_transparent,
                        transparent_color_index: ctrl.transparent_color_index,
                        global_color_table: self.gif.raw_gif.global_color_table,
                        header: &self.gif.raw_gif.header,
                        raw_data,
                        frame_index: self.frame_index,
                    };
                    // the next frame starts where this one ends, if another
                    // graphic control extension stands there
                    let remain = if more {
                        cur
                    } else {
                        slice_subrange(cur, 0, 0)
                    };
                    proof {
                        assert(control_of(seg@) == Some(ctrl));
                        assert(next_control(input@) == Some((ctrl, n)));
                        assert(start == input@.skip(n as int));
                        assert(body == body_len(start));
                        assert(raw_data@ =~= input@.subrange(n as int, (n + body) as int));
                        assert(cur@ =~= input@.skip((n + body) as int));
                        let rest = frames_in(header, table, cur@, index + 1);
                        assert(old(self).pending() == seq![frame@] + rest);
                        assert((seq![frame@] + rest).skip(1) =~= rest);
                        assert(frames_in(header, table, remain@, index + 1) =~= rest);
                    }
                    self.remain_raw_data = remain;
                    self.frame_index += 1;
                    return Some(frame);
                },
                _ => {
                    proof {
                        lemma_frames_skip_segment(header, table, input@, index);
                    }
                    input = after;
                },
            }
        }
    }

    /// Consumes the cursor and counts the frames that were left.
    pub fn count(self) -> (n: usize)
        requires
            self.wf(),
        ensures
            n == self.pending().len(),
    {
        let mut frames = self;
        let mut n: usize = 0;
        loop
            invariant
                frames.wf(),
                n + frames.pending().len() == self.pending().len(),
                n <= frames.yielded(),
            decreases frames.pending().len(),
        {
            match frames.next() {
                Some(_) => {
                    n += 1;
                },
                None => {
                    return n;
                },
            }
        }
    }
}

/// Whether the segments of `s` parse one after another up to the trailer.
pub open spec fn well_formed_stream(s: Seq<u8>) -> bool
    decreases s.len(),
{
    match segment_at(s) {
        Err(_) => false,
        Ok((seg, n)) => seg is Trailer || {
            proof {
                lemma_segment_len(s);
            }
            well_formed_stream(s.skip(n as int))
        },
    }
}

/// The bytes of each segment of `s`, in order, up to the trailer or the
/// first segment that does not parse.
pub open spec fn segment_spans(s: Seq<u8>) -> Seq<Seq<u8>>
    decreases s.len(),
{
    match segment_at(s) {
        Err(_) => Seq::empty(),
        Ok((seg, n)) => seq![s.take(n as int)] + (if seg is Trailer {
            Seq::empty()
        } else {
            proof {
                lemma_segment_len(s);
            }
            segment_spans(s.skip(n as int))
        }),
    }
}

/// The parts joined end to end.
pub open spec fn joined(parts: Seq<Seq<u8>>) -> Seq<u8>
    decreases parts.len(),
{
    if parts.len() == 0 {
        Seq::empty()
    } else {
        parts[0] + joined(parts.skip(1))
    }
}

/// The number of graphic control extensions among the segments of `s`, up to
/// the trailer or the first segment that does not parse.
pub open spec fn control_count(s: Seq<u8>) -> nat
    decreases s.len(),
{
    match segment_at(s) {
        Err(_) => 0,
        Ok((seg, n)) => (if control_of(seg) is Some {
            1nat
        } else {
            0nat
        }) + (if seg is Trailer {
            0nat
        } else {
            proof {
                lemma_segment_len(s);
            }
            control_count(s.skip(n as int))
        }),
    }
}

/// The segments of a well-formed stream, joined, are the stream.
pub proof fn lemma_spans_cover_stream(s: Seq<u8>)
    requires
        well_formed_stream(s),
    ensures
        joined(segment_spans(s)) == s,
    decreases s.len(),
{
    lemma_segment_len(s);
    let (seg, n) = segment_at(s)->Ok_0;
    let first = s.take(n as int);
    let others = if seg is Trailer {
        Seq::<Seq<u8>>::empty()
    } else {
        segment_spans(s.skip(n as int))
    };
    let spans = seq![first] + others;
    assert(spans.skip(1) =~= others);
    assert(spans[0] == first);
    if seg is Trailer {
        assert(joined(others) =~= Seq::<u8>::empty());
        assert(first + Seq::<u8>::empty() =~= s);
    } else {
        lemma_spans_cover_stream(s.skip(n as int));
        assert(first + s.skip(n as int) =~= s);
    }
}

/// A file whose header parses and whose segments parse up to the trailer is
/// the bytes of its header, global color table included, followed by the
/// bytes of its segments.
pub proof fn lemma_header_and_segments_cover_file(file: Seq<u8>)
    requires
        header_at(file) is Ok,
        well_formed_stream(file.skip(header_at(file)->Ok_0.1 as int)),
    ensures
        file.take(header_at(file)->Ok_0.1 as int) + joined(
            segment_spans(file.skip(header_at(file)->Ok_0.1 as int)),
        ) == file,
{
    let n = header_at(file)->Ok_0.1 as int;
    lemma_spans_cover_stream(file.skip(n));
    assert(file.take(n) + file.skip(n) =~= file);
}

proof fn lemma_controls_from_first(s: Seq<u8>)
    ensures
        control_count(s) == (match next_control(s) {
            Some((_, n)) => 1 + control_count(s.skip(n as int)),
            None => 0,
        }),
    decreases s.len(),
{
    lemma_segment_len(s);
    match segment_at(s) {
        Err(_) => {},
        Ok((seg, n)) => {
            if is_body_segment(seg) {
                let t = s.skip(n as int);
                lemma_controls_from_first(t);
                lemma_next_control_bounds(t);
                match next_control(t) {
                    Some((_, m)) => {
                        assert(t.skip(m as int) =~= s.skip((n + m) as int));
                    },
                    None => {},
                }
            }
        },
    }
}

proof fn lemma_controls_skip_body(s: Seq<u8>)
    ensures
        control_count(s) == control_count(s.skip(body_len(s) as int)),
    decreases s.len(),
{
    lemma_segment_len(s);
    match segment_at(s) {
        Err(_) => {
            assert(s.skip(0) =~= s);
        },
        Ok((seg, n)) => {
            if is_body_segment(seg) {
                let t = s.skip(n as int);
                lemma_controls_skip_body(t);
                lemma_body_len_bounds(t);
                assert(t.skip(body_len(t) as int) =~= s.skip((n + body_len(t)) as int));
            } else {
                assert(s.skip(0) =~= s);
            }
        },
    }
}

/// An image has as many frames as its segments hold graphic control
/// extensions, counted up to the trailer or the first segment that does not
/// parse; for a well-formed stream these are all of them.
pub proof fn lemma_frames_are_the_graphic_controls(
    header: Header,
    table: Option<Seq<u8>>,
    s: Seq<u8>,
    index: nat,
)
    ensures
        frames_in(header, table, s, index).len() == control_count(s),
    decreases s.len(),
{
    lemma_controls_from_first(s);
    match next_control(s) {
        None => {},
        Some((_, n)) => {
            lemma_next_control_bounds(s);
            let t = s.skip(n as int);
            let body = body_len(t);
            lemma_body_len_bounds(t);
            lemma_controls_skip_body(t);
            assert(t.skip(body as int) =~= s.skip((n + body) as int));
            lemma_frames_are_the_graphic_controls(
                header,
                table,
                s.skip((n + body) as int),
                index + 1,
            );
        },
    }
}

} // verus!
