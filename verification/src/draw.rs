//! The draw driver: turns the image blocks of a frame into pixels, one at a
//! time and in row-major order.
//!
//! The driver holds no target. Each call of [`FramePixels::next`] hands out
//! the next pixel to draw; the caller pushes it to its target and asks again.

use vstd::prelude::*;
use vstd::arithmetic::power2::pow2;
use embedded_graphics::prelude::{Point, Size};
use embedded_graphics::primitives::Rectangle;
use crate::color::{color_at, ColorTable, Rgb};
use crate::encoder::{encode, lemma_decode_all_inverts_encoder, reads_as};
use crate::frame::{control_of, Frame, FrameView};
use crate::lzw::{decode_all, Decoder, LzwState, CODE_NONE};
use crate::parser::{chain_len, chain_payload};
use crate::segment::{
    lemma_image_segment_is_chain, lemma_segment_len, segment_at, ExtensionBlock, ImageBlock,
    ImageBlockView, Segment, SegmentView,
};
use crate::subblock::LenPrefixRawDataView;

verus! {

/// A pixel to draw: a position on the canvas and a color.
#[derive(Copy, Clone, Debug, PartialEq, Eq, Hash)]
pub struct Pixel {
    pub x: i32,
    pub y: i32,
    pub color: Rgb,
}

/// A rectangle of the canvas, by its top left corner and its size.
#[derive(Copy, Clone, Debug, PartialEq, Eq, Hash)]
pub struct Area {
    pub left: i32,
    pub top: i32,
    pub width: u32,
    pub height: u32,
}

impl Area {
    /// The corner opposite to the top left one has coordinates that fit the
    /// coordinate type.
    pub open spec fn representable(&self) -> bool {
        &&& self.width <= i32::MAX
        &&& self.height <= i32::MAX
        &&& self.left + self.width <= i32::MAX
        &&& self.top + self.height <= i32::MAX
    }

    /// Whether the point `(x, y)` lies in the rectangle. An empty rectangle
    /// holds no point.
    pub open spec fn holds(&self, x: int, y: int) -> bool {
        &&& self.width > 0
        &&& self.height > 0
        &&& self.left <= x <= self.left + self.width - 1
        &&& self.top <= y <= self.top + self.height - 1
    }
}

/// `Rectangle::contains`, on the rectangle with the corner and the size of
/// `area`: whether the point lies between the top left corner and the bottom
/// right one, both included; never, when the rectangle is empty.
#[verifier::external_body]
fn rectangle_contains(area: &Area, x: i32, y: i32) -> (inside: bool)
    requires
        area.representable(),
    ensures
        inside == area.holds(x as int, y as int),
{
    Rectangle::new(Point::new(area.left, area.top), Size::new(area.width, area.height)).contains(
        Point::new(x, y),
    )
}

/// How the color indices of one image become pixels.
pub struct PixelMap {
    pub left: u16,
    pub top: u16,
    pub width: u16,
    /// The bytes of the color table in force.
    pub table: Option<Seq<u8>>,
    /// The color index that is not drawn.
    pub transparent: Option<u8>,
    /// The part of the canvas outside which nothing is drawn.
    pub clip: Option<Area>,
}

/// Whether the pixel of index `idx` has a row that fits the coordinate type.
/// An image without width has no pixel.
pub open spec fn addressable(map: PixelMap, idx: nat) -> bool {
    map.width > 0 && map.top + idx / (map.width as nat) <= i32::MAX
}

/// The pixel that the color index `p` gives as the `idx`-th of an image: none
/// where `p` is the transparent index, where the position lies outside the
/// clip area, or where there is no color table or the table has no such
/// entry; else the color of `p` at column `idx mod width` and row
/// `idx div width` of the image.
pub open spec fn pixel_of(map: PixelMap, idx: nat, p: u8) -> Option<Pixel> {
    let x = map.left + idx % (map.width as nat);
    let y = map.top + idx / (map.width as nat);
    if map.transparent == Some(p) {
        None
    } else if map.clip is Some && !map.clip->Some_0.holds(x, y) {
        None
    } else {
        match map.table {
            Some(table) => match color_at(table, p as int) {
                Some(color) => Some(Pixel { x: x as i32, y: y as i32, color }),
                None => None,
            },
            None => None,
        }
    }
}

/// The pixels that the color indices `data` give, the first of them being the
/// `idx`-th of the image. They end with the data, or at the first index that
/// is not addressable.
pub open spec fn run_pixels(map: PixelMap, data: Seq<u8>, idx: nat) -> Seq<Pixel>
    decreases data.len(),
{
    if data.len() == 0 || !addressable(map, idx) {
        Seq::empty()
    } else {
        (match pixel_of(map, idx, data[0]) {
            Some(pixel) => seq![pixel],
            None => Seq::empty(),
        }) + run_pixels(map, data.skip(1), idx + 1)
    }
}

/// What a frame gives to the drawing of its images.
pub struct DrawParams {
    pub transparent: Option<u8>,
    pub global_color_table: Option<Seq<u8>>,
    pub clip: Option<Area>,
}

/// The drawing parameters of a frame: its transparent index where
/// transparency is on, and its global color table.
pub open spec fn params_of(frame: FrameView, clip: Option<Area>) -> DrawParams {
    DrawParams {
        transparent: if frame.is_transparent {
            Some(frame.transparent_color_index)
        } else {
            None
        },
        global_color_table: frame.global_color_table,
        clip,
    }
}

/// The pixel map of an image block in a frame: the block's own color table
/// where it has one, else the global one.
pub open spec fn map_of(params: DrawParams, block: ImageBlockView) -> PixelMap {
    PixelMap {
        left: block.left,
        top: block.top,
        width: block.width,
        table: if block.local_color_table is Some {
            block.local_color_table
        } else {
            params.global_color_table
        },
        transparent: params.transparent,
        clip: params.clip,
    }
}

/// The state of a decoder that has read nothing yet.
pub open spec fn initial_state(min: nat) -> LzwState {
    LzwState { entries: Seq::empty(), prev: CODE_NONE, code_size: min + 1, ended: false }
}

/// The color indices that the data of an image block decode to.
pub open spec fn image_indices(block: ImageBlockView) -> Seq<u8> {
    decode_all(
        block.lzw_min_code_size as nat,
        initial_state(block.lzw_min_code_size as nat),
        seq![0u8] + chain_payload(block.image_data),
        8,
    )
}

/// The pixels of an image block. A block whose minimum code size is not
/// between 2 and 8 gives none.
pub open spec fn image_pixels(params: DrawParams, block: ImageBlockView) -> Seq<Pixel> {
    if 2 <= block.lzw_min_code_size <= 8 {
        run_pixels(map_of(params, block), image_indices(block), 0)
    } else {
        Seq::empty()
    }
}

/// The pixels of the segments `s` of a frame: those of its image blocks, in
/// order, up to a graphic control extension or the first segment that does
/// not parse.
pub open spec fn frame_pixels(params: DrawParams, s: Seq<u8>) -> Seq<Pixel>
    decreases s.len(),
{
    match segment_at(s) {
        Err(_) => Seq::empty(),
        Ok((seg, n)) => if control_of(seg) is Some {
            Seq::empty()
        } else {
            proof {
                lemma_segment_len(s);
            }
            (match seg {
                SegmentView::Image(block) => image_pixels(params, block),
                _ => Seq::empty(),
            }) + frame_pixels(params, s.skip(n as int))
        },
    }
}

/// An image block whose data hold the encoder's codes for the color indices
/// `x` has exactly the indices `x`.
pub proof fn lemma_image_indices_of_encoded(block: ImageBlockView, x: Seq<u8>)
    requires
        2 <= block.lzw_min_code_size <= 8,
        forall|i: int| 0 <= i < x.len() ==> x[i] < pow2(block.lzw_min_code_size as nat),
        reads_as(
            block.lzw_min_code_size as nat,
            initial_state(block.lzw_min_code_size as nat),
            seq![0u8] + chain_payload(block.image_data),
            8,
            encode(block.lzw_min_code_size as nat, x),
        ),
    ensures
        image_indices(block) == x,
{
    lemma_decode_all_inverts_encoder(
        block.lzw_min_code_size as nat,
        x,
        initial_state(block.lzw_min_code_size as nat),
        seq![0u8] + chain_payload(block.image_data),
        8,
    );
}

/// Every pixel of an image whose index is below `width * height` lies within
/// the image's rectangle.
pub proof fn lemma_pixel_within_image(map: PixelMap, height: u16, idx: nat, p: u8)
    requires
        pixel_of(map, idx, p) is Some,
        idx < map.width * height,
    ensures
        map.left <= pixel_of(map, idx, p)->Some_0.x < map.left + map.width,
        map.top <= pixel_of(map, idx, p)->Some_0.y < map.top + height,
{
    let w = map.width as int;
    let i = idx as int;
    assert(w > 0) by (nonlinear_arith)
        requires
            i < w * height,
            i >= 0,
            w >= 0,
            height >= 0,
    ;
    assert(0 <= i % w < w);
    assert(0 <= i / w < height) by (nonlinear_arith)
        requires
            0 <= i < w * height,
            w > 0,
    ;
}

/// While an image has no more color indices than its width times its height,
/// all its pixels lie within its rectangle.
pub proof fn lemma_run_within_image(map: PixelMap, height: u16, data: Seq<u8>, idx: nat)
    requires
        idx + data.len() <= map.width * height,
    ensures
        forall|k: int|
            0 <= k < run_pixels(map, data, idx).len() ==> ({
                let pixel = #[trigger] run_pixels(map, data, idx)[k];
                &&& map.left <= pixel.x < map.left + map.width
                &&& map.top <= pixel.y < map.top + height
            }),
    decreases data.len(),
{
    if data.len() > 0 && addressable(map, idx) {
        lemma_run_within_image(map, height, data.skip(1), idx + 1);
        let tail = run_pixels(map, data.skip(1), idx + 1);
        let all = run_pixels(map, data, idx);
        match pixel_of(map, idx, data[0]) {
            Some(pixel) => {
                lemma_pixel_within_image(map, height, idx, data[0]);
                assert forall|k: int| 0 <= k < all.len() implies {
                    let pixel = #[trigger] all[k];
                    &&& map.left <= pixel.x < map.left + map.width
                    &&& map.top <= pixel.y < map.top + height
                } by {
                    if k > 0 {
                        assert(all[k] == tail[k - 1]);
                    }
                }
            },
            None => {
                assert(all =~= tail);
            },
        }
    }
}

/// An image block without a color table of its own is drawn with the global
/// one, and with its own where it has one; without either it has no pixel.
pub proof fn lemma_color_table_fallback(params: DrawParams, block: ImageBlockView, idx: nat, p: u8)
    ensures
        block.local_color_table is None ==> map_of(params, block).table
            == params.global_color_table,
        block.local_color_table is Some ==> map_of(params, block).table
            == block.local_color_table,
        map_of(params, block).table is None ==> pixel_of(map_of(params, block), idx, p) is None,
        pixel_of(map_of(params, block), idx, p) matches Some(pixel) ==> Some(pixel.color)
            == color_at(map_of(params, block).table->Some_0, p as int),
{
}

/// The drawing of one image block, under way.
struct ImageRun<'a> {
    decoder: Decoder<LenPrefixRawDataView<'a>>,
    left: u16,
    top: u16,
    width: u16,
    table: Option<ColorTable<'a>>,
    transparent: Option<u8>,
    clip: Option<Area>,
    // index of the next pixel of the image
    idx: u64,
    // position of the next color index in what the decoder emitted last
    pos: usize,
}

impl<'a> ImageRun<'a> {
    spec fn map(&self) -> PixelMap {
        PixelMap {
            left: self.left,
            top: self.top,
            width: self.width,
            table: match self.table {
                Some(table) => Some(table@),
                None => None,
            },
            transparent: self.transparent,
            clip: self.clip,
        }
    }

    spec fn wf(&self) -> bool {
        &&& self.decoder.wf()
        &&& self.width > 0
        &&& self.pos <= self.decoder.emitted_bytes().len()
        &&& self.idx <= self.width * 0x8000_0000
        &&& self.clip matches Some(area) ==> area.representable()
    }

    /// The color indices that are yet to come: the rest of what the decoder
    /// emitted last, then all that it has yet to decode.
    spec fn indices(&self) -> Seq<u8> {
        self.decoder.emitted_bytes().skip(self.pos as int) + decode_all(
            self.decoder.min_code_size() as nat,
            self.decoder.state(),
            self.decoder.bytes(),
            self.decoder.cursor(),
        )
    }

    /// The pixels that are yet to come.
    spec fn pixels(&self) -> Seq<Pixel> {
        run_pixels(self.map(), self.indices(), self.idx as nat)
    }

    spec fn bits_left(&self) -> int {
        8 * self.decoder.bytes().len() - self.decoder.cursor()
    }

    fn start(
        block: &ImageBlock<'a>,
        transparent: Option<u8>,
        global_color_table: Option<ColorTable<'a>>,
        clip: Option<Area>,
    ) -> (run: Self)
        requires
            2 <= block.lzw_min_code_size <= 8,
            block.width > 0,
            chain_len(block.image_data@) is Some,
            clip matches Some(area) ==> area.representable(),
        ensures
            run.wf(),
            run.pixels() == image_pixels(
                (DrawParams {
                    transparent,
                    global_color_table: (match global_color_table {
                        Some(table) => Some(table@),
                        None => None,
                    }),
                    clip,
                }),
                block@,
            ),
    {
        let table = match block.local_color_table {
            Some(table) => Some(table),
            None => global_color_table,
        };
        let raw_image_data = LenPrefixRawDataView::new(block.image_data);
        let decoder = Decoder::new(raw_image_data, block.lzw_min_code_size);
        let run = Self {
            decoder,
            left: block.left,
            top: block.top,
            width: block.width,
            table,
            transparent,
            clip,
            idx: 0,
            pos: 0,
        };
        proof {
            assert(run.decoder.emitted_bytes().skip(0) =~= Seq::<u8>::empty());
            assert(run.indices() =~= image_indices(block@));
        }
        run
    }

    /// Hands out the next pixel of the image, or `None` when it has no more.
    fn next(&mut self) -> (r: Option<Pixel>)
        requires
            old(self).wf(),
        ensures
            final(self).wf(),
            r matches Some(pixel) ==> old(self).pixels().len() > 0 && pixel == old(self).pixels()[0]
                && final(self).pixels() == old(self).pixels().skip(1),
            r is None ==> old(self).pixels().len() == 0,
    {
        loop
            invariant
                self.wf(),
                self.pixels() == old(self).pixels(),
            decreases self.bits_left(), self.decoder.emitted_bytes().len() - self.pos,
        {
            let ghost map = self.map();
            let ghost before = self.indices();
            let ghost idx = self.idx as nat;
            proof {
                self.decoder.lemma_code_size_range();
            }
            let row: u64 = self.idx / (self.width as u64);
            if row > (i32::MAX as u64) - (self.top as u64) {
                return None;
            }
            let chunk_len = self.decoder.emitted().len();
            if self.pos < chunk_len {
                let p = self.decoder.emitted()[self.pos];
                let col: u64 = self.idx % (self.width as u64);
                let x: i32 = self.left as i32 + col as i32;
                let y: i32 = self.top as i32 + row as i32;
                assert(self.idx + 1 <= self.width * 0x8000_0000) by (nonlinear_arith)
                    requires
                        self.idx / (self.width as u64) <= 0x7fff_ffff,
                        self.width > 0,
                ;
                self.pos += 1;
                self.idx += 1;
                proof {
                    assert(before[0] == p);
                    assert(before.skip(1) =~= self.indices());
                    assert(addressable(map, idx));
                }
                let visible = match self.transparent {
                    Some(t) => t != p,
                    None => true,
                };
                if visible {
                    let inside = match &self.clip {
                        Some(area) => rectangle_contains(area, x, y),
                        None => true,
                    };
                    if inside {
                        if let Some(table) = &self.table {
                            if let Some(color) = table.get(p) {
                                let pixel = Pixel { x, y, color };
                                proof {
                                    assert(pixel_of(map, idx, p) == Some(pixel));
                                    assert((seq![pixel] + self.pixels()).skip(1)
                                        =~= self.pixels());
                                }
                                return Some(pixel);
                            }
                        }
                    }
                }
                proof {
                    assert(pixel_of(map, idx, p) is None);
                    assert(Seq::<Pixel>::empty() + self.pixels() =~= self.pixels());
                }
            } else {
                let ghost bytes = self.decoder.bytes();
                let ghost cursor = self.decoder.cursor();
                let ghost st = self.decoder.state();
                let ghost rest = decode_all(
                    self.decoder.min_code_size() as nat,
                    st,
                    bytes,
                    cursor,
                );
                proof {
                    assert(self.decoder.emitted_bytes().skip(self.pos as int) =~= Seq::<
                        u8,
                    >::empty());
                    assert(before =~= rest);
                }
                match self.decoder.decode_next() {
                    Ok(Some(_)) => {
                        self.pos = 0;
                        proof {
                            let n = st.code_size as int;
                            let k = (cursor + n - 1) / 8;
                            assert(self.decoder.bytes() == bytes.skip(k));
                            assert(self.decoder.emitted_bytes().skip(0)
                                =~= self.decoder.emitted_bytes());
                            assert(self.indices() =~= before);
                        }
                    },
                    _ => {
                        self.pos = 0;
                        return None;
                    },
                }
            }
        }
    }
}

/// The pixels of a frame, handed out one at a time.
pub struct FramePixels<'a> {
    input: &'a [u8],
    transparent: Option<u8>,
    global_color_table: Option<ColorTable<'a>>,
    clip: Option<Area>,
    run: Option<ImageRun<'a>>,
}

impl<'a> FramePixels<'a> {
    /// The parameters that the frame gave.
    pub closed spec fn params(&self) -> DrawParams {
        DrawParams {
            transparent: self.transparent,
            global_color_table: match self.global_color_table {
                Some(table) => Some(table@),
                None => None,
            },
            clip: self.clip,
        }
    }

    /// The image under way, if any, is in a sound state.
    pub closed spec fn wf(&self) -> bool {
        &&& self.clip matches Some(area) ==> area.representable()
        &&& self.run matches Some(run) ==> run.wf()
    }

    /// The pixels that are yet to be handed out, in order.
    pub closed spec fn pending(&self) -> Seq<Pixel> {
        (match self.run {
            Some(run) => run.pixels(),
            None => Seq::empty(),
        }) + frame_pixels(self.params(), self.input@)
    }

    fn start(frame: &Frame<'a>, clip: Option<Area>) -> (pixels: Self)
        requires
            clip matches Some(area) ==> area.representable(),
        ensures
            pixels.wf(),
            pixels.params() == params_of(frame@, clip),
            pixels.pending() == frame_pixels(params_of(frame@, clip), frame@.raw_data),
    {
        let transparent = if frame.is_transparent {
            Some(frame.transparent_color_index)
        } else {
            None
        };
        let pixels = Self {
            input: frame.raw_data,
            transparent,
            global_color_table: frame.global_color_table,
            clip,
            run: None,
        };
        assert(pixels.pending() =~= frame_pixels(pixels.params(), frame@.raw_data));
        pixels
    }

    /// Hands out the next pixel to draw, or `None` when the frame has no
    /// more; from then on it keeps returning `None`.
    pub fn next(&mut self) -> (r: Option<Pixel>)
        requires
            old(self).wf(),
        ensures
            final(self).wf(),
            final(self).params() == old(self).params(),
            old(self).pending().len() > 0 ==> r == Some(old(self).pending()[0])
                && final(self).pending() == old(self).pending().skip(1),
            old(self).pending().len() == 0 ==> r is None && final(self).pending().len() == 0,
    {
        loop
            invariant
                self.wf(),
                self.params() == old(self).params(),
                self.pending() == old(self).pending(),
            decreases
                    self.input@.len(),
                    (if self.run is Some {
                        1int
                    } else {
                        0int
                    }),
        {
            let ghost params = self.params();
            let ghost rest_of_frame = frame_pixels(params, self.input@);
            if self.run.is_some() {
                let step = match &mut self.run {
                    Some(run) => run.next(),
                    None => None,
                };
                match step {
                    Some(pixel) => {
                        proof {
                            let left = self.run->Some_0.pixels();
                            assert((seq![pixel] + left) + rest_of_frame =~= seq![pixel] + (left
                                + rest_of_frame));
                            assert((seq![pixel] + (left + rest_of_frame)).skip(1) =~= left
                                + rest_of_frame);
                        }
                        return Some(pixel);
                    },
                    None => {
                        self.run = None;
                        assert(self.pending() =~= old(self).pending());
                    },
                }
            } else {
                proof {
                    lemma_segment_len(self.input@);
                    assert(self.pending() =~= rest_of_frame);
                }
                let (rest, seg) = match Segment::parse(self.input) {
                    Ok(v) => v,
                    Err(_) => {
                        return None;
                    },
                };
                match seg {
                    Segment::Extension(ExtensionBlock::GraphicControl(_)) => {
                        // the next frame starts here
                        return None;
                    },
                    Segment::Image(block) => {
                        proof {
                            lemma_image_segment_is_chain(self.input@);
                        }
                        self.input = rest;
                        if block.width > 0 && 2 <= block.lzw_min_code_size
                            && block.lzw_min_code_size <= 8 {
                            self.run = Some(
                                ImageRun::start(
                                    &block,
                                    self.transparent,
                                    self.global_color_table,
                                    self.clip,
                                ),
                            );
                        } else {
                            assert(image_pixels(params, block@) =~= Seq::<Pixel>::empty());
                            assert(self.pending() =~= old(self).pending());
                        }
                    },
                    _ => {
                        self.input = rest;
                        assert(self.pending() =~= old(self).pending());
                    },
                }
            }
        }
    }
}

impl<'a> Frame<'a> {
    /// Starts the drawing of the frame: the pixels of its image blocks, in
    /// the order of the blocks and row by row within each.
    pub fn pixels(&self) -> (pixels: FramePixels<'a>)
        ensures
            pixels.wf(),
            pixels.params() == params_of(self@, None),
            pixels.pending() == frame_pixels(params_of(self@, None), self@.raw_data),
    {
        FramePixels::start(self, None)
    }

    /// Starts the drawing of the part of the frame that lies within `area`.
    pub fn pixels_within(&self, area: Area) -> (pixels: FramePixels<'a>)
        requires
            area.representable(),
        ensures
            pixels.wf(),
            pixels.params() == params_of(self@, Some(area)),
            pixels.pending() == frame_pixels(params_of(self@, Some(area)), self@.raw_data),
    {
        FramePixels::start(self, Some(area))
    }
}

} // verus!
