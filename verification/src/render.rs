use crate::frame_buffer::{Bgr, ColorSpace, FrameBufferPayload, Rgb};
use vstd::prelude::*;

verus! {

/// Byte offset of pixel (x, y) in a frame buffer whose scan lines are
/// `stride` pixels apart; every pixel takes four bytes.
pub open spec fn pixel_offset(stride: int, x: int, y: int) -> int {
    4 * (stride * y + x)
}

/// Pixel (x, y) can be written: its offset is computed in `u32` without
/// overflow and its three colour bytes lie inside a buffer of `len` bytes.
pub open spec fn pixel_fits(stride: int, x: int, y: int, len: int) -> bool {
    &&& pixel_offset(stride, x, y) <= u32::MAX
    &&& pixel_offset(stride, x, y) + 3 <= len
}

/// Every pixel of the area [x0, x1) x [y0, y1) fits; it is enough that the
/// last one does.
pub open spec fn rect_fits(stride: int, x0: int, x1: int, y0: int, y1: int, len: int) -> bool {
    x1 <= x0 || y1 <= y0 || pixel_fits(stride, x1 - 1, y1 - 1, len)
}

/// The `k`-th byte that a pixel write stores for colour `c`.
pub open spec fn channel(c: Rgb, k: int) -> u8 {
    if k == 0 {
        c.r
    } else if k == 1 {
        c.g
    } else {
        c.b
    }
}

/// Memory after the channels of `c` are stored at pixel (x, y).
pub open spec fn with_pixel(mem: Seq<u8>, stride: int, x: int, y: int, c: Rgb) -> Seq<u8> {
    let o = pixel_offset(stride, x, y);
    mem.update(o, c.r).update(o + 1, c.g).update(o + 2, c.b)
}

/// Memory after pixels (x, y0), (x, y0 + 1), ..., (x, y1 - 1) are written, in that order.
pub open spec fn fill_column(mem: Seq<u8>, stride: int, x: int, y0: int, y1: int, c: Rgb) -> Seq<u8>
    decreases y1 - y0,
{
    if y0 >= y1 {
        mem
    } else {
        fill_column(with_pixel(mem, stride, x, y0, c), stride, x, y0 + 1, y1, c)
    }
}

/// Memory after the columns x0, x0 + 1, ..., x1 - 1 of the area are written, in that order.
pub open spec fn fill_rect(
    mem: Seq<u8>,
    stride: int,
    x0: int,
    x1: int,
    y0: int,
    y1: int,
    c: Rgb,
) -> Seq<u8>
    decreases x1 - x0,
{
    if x0 >= x1 {
        mem
    } else {
        fill_rect(fill_column(mem, stride, x0, y0, y1, c), stride, x0 + 1, x1, y0, y1, c)
    }
}

pub open spec fn white() -> Rgb {
    Rgb { r: 255, g: 255, b: 255 }
}

pub open spec fn box_color() -> Rgb {
    Rgb { r: 50, g: 155, b: 255 }
}

/// The picture that `render_example` draws: the whole screen of `width` x
/// `height` pixels in white, then the box [50, 250) x [50, 150) in blue.
pub open spec fn example_image(mem: Seq<u8>, stride: int, width: int, height: int) -> Seq<u8> {
    fill_rect(fill_rect(mem, stride, 0, width, 0, height, white()), stride, 50, 250, 50, 150, box_color())
}

/// Writes a pixel into the frame buffer memory `mem`, which starts at the
/// frame buffer's first byte.
pub trait PixelWrite<A: ColorSpace> {
    /// Distance in pixels between the starts of two scan lines.
    spec fn line_stride(&self) -> u32;

    fn put_pixel(&self, mem: &mut [u8], x: u32, y: u32, color: Rgb)
        requires
            pixel_fits(self.line_stride() as int, x as int, y as int, old(mem)@.len() as int),
        ensures
            final(mem)@ == with_pixel(old(mem)@, self.line_stride() as int, x as int, y as int, color),
    ;
}

impl PixelWrite<Rgb> for FrameBufferPayload<Rgb> {
    open spec fn line_stride(&self) -> u32 {
        self.stride
    }

    fn put_pixel(&self, mem: &mut [u8], x: u32, y: u32, color: Rgb) {
        let offset = (4 * (self.stride * y + x)) as usize;
        mem[offset] = color.r;
        mem[offset + 1] = color.g;
        mem[offset + 2] = color.b;
    }
}

impl PixelWrite<Bgr> for FrameBufferPayload<Bgr> {
    open spec fn line_stride(&self) -> u32 {
        self.stride
    }

    fn put_pixel(&self, mem: &mut [u8], x: u32, y: u32, color: Rgb) {
        let color: Bgr = color.into();
        let offset = (4 * (self.stride * y + x)) as usize;
        mem[offset] = color.r;
        mem[offset + 1] = color.g;
        mem[offset + 2] = color.b;
    }
}

/// Each pixel of an area fits when its last pixel does.
pub proof fn lemma_rect_fits_each(
    stride: int,
    x0: int,
    x1: int,
    y0: int,
    y1: int,
    len: int,
    x: int,
    y: int,
)
    requires
        stride >= 0,
        0 <= x0 <= x < x1,
        0 <= y0 <= y < y1,
        rect_fits(stride, x0, x1, y0, y1, len),
    ensures
        pixel_fits(stride, x, y, len),
{
    assert(stride * y <= stride * (y1 - 1)) by (nonlinear_arith)
        requires
            stride >= 0,
            y <= y1 - 1,
    ;
}

/// Byte `i` is one of the three colour bytes of pixel (x, y).
pub open spec fn in_pixel(stride: int, x: int, y: int, i: int) -> bool {
    pixel_offset(stride, x, y) <= i < pixel_offset(stride, x, y) + 3
}

/// Two different pixels of columns left of the stride share no byte.
pub proof fn lemma_pixels_disjoint(stride: int, x: int, y: int, x2: int, y2: int, i: int)
    requires
        0 <= x < stride,
        0 <= x2 < stride,
        0 <= y,
        0 <= y2,
        x != x2 || y != y2,
        in_pixel(stride, x, y, i),
    ensures
        !in_pixel(stride, x2, y2, i),
{
    if y < y2 {
        assert(stride * y2 >= stride * y + stride) by (nonlinear_arith)
            requires
                y < y2,
                stride >= 0,
        ;
    } else if y2 < y {
        assert(stride * y >= stride * y2 + stride) by (nonlinear_arith)
            requires
                y2 < y,
                stride >= 0,
        ;
    }
}

proof fn lemma_fill_column_len(mem: Seq<u8>, stride: int, x: int, y0: int, y1: int, c: Rgb)
    requires
        stride >= 0,
        0 <= x,
        0 <= y0,
        rect_fits(stride, x, x + 1, y0, y1, mem.len() as int),
    ensures
        fill_column(mem, stride, x, y0, y1, c).len() == mem.len(),
    decreases y1 - y0,
{
    if y0 < y1 {
        lemma_rect_fits_each(stride, x, x + 1, y0, y1, mem.len() as int, x, y0);
        lemma_fill_column_len(with_pixel(mem, stride, x, y0, c), stride, x, y0 + 1, y1, c);
    }
}

proof fn lemma_fill_rect_len(
    mem: Seq<u8>,
    stride: int,
    x0: int,
    x1: int,
    y0: int,
    y1: int,
    c: Rgb,
)
    requires
        stride >= 0,
        0 <= x0,
        0 <= y0,
        rect_fits(stride, x0, x1, y0, y1, mem.len() as int),
    ensures
        fill_rect(mem, stride, x0, x1, y0, y1, c).len() == mem.len(),
    decreases x1 - x0,
{
    if x0 < x1 {
        if y0 < y1 {
            lemma_rect_fits_each(stride, x0, x1, y0, y1, mem.len() as int, x0, y1 - 1);
        }
        lemma_fill_column_len(mem, stride, x0, y0, y1, c);
        lemma_fill_rect_len(fill_column(mem, stride, x0, y0, y1, c), stride, x0 + 1, x1, y0, y1, c);
    }
}

proof fn lemma_fill_column_outside(
    mem: Seq<u8>,
    stride: int,
    x: int,
    y0: int,
    y1: int,
    c: Rgb,
    i: int,
)
    requires
        stride >= 0,
        0 <= x,
        0 <= y0,
        rect_fits(stride, x, x + 1, y0, y1, mem.len() as int),
        forall|y: int| y0 <= y < y1 ==> !#[trigger] in_pixel(stride, x, y, i),
    ensures
        0 <= i < mem.len() ==> fill_column(mem, stride, x, y0, y1, c)[i] == mem[i],
    decreases y1 - y0,
{
    if y0 < y1 {
        lemma_rect_fits_each(stride, x, x + 1, y0, y1, mem.len() as int, x, y0);
        assert(!in_pixel(stride, x, y0, i));
        lemma_fill_column_outside(with_pixel(mem, stride, x, y0, c), stride, x, y0 + 1, y1, c, i);
    }
}

proof fn lemma_fill_column_inside(
    mem: Seq<u8>,
    stride: int,
    x: int,
    y0: int,
    y1: int,
    c: Rgb,
    y: int,
    k: int,
)
    requires
        0 <= x < stride,
        0 <= y0 <= y < y1,
        0 <= k < 3,
        rect_fits(stride, x, x + 1, y0, y1, mem.len() as int),
    ensures
        fill_column(mem, stride, x, y0, y1, c)[pixel_offset(stride, x, y) + k] == channel(c, k),
    decreases y1 - y0,
{
    lemma_rect_fits_each(stride, x, x + 1, y0, y1, mem.len() as int, x, y0);
    let m1 = with_pixel(mem, stride, x, y0, c);
    if y == y0 {
        let i = pixel_offset(stride, x, y) + k;
        assert(m1[i] == channel(c, k));
        assert forall|y2: int| y0 + 1 <= y2 < y1 implies !#[trigger] in_pixel(stride, x, y2, i) by {
            lemma_pixels_disjoint(stride, x, y0, x, y2, i);
        }
        lemma_fill_column_outside(m1, stride, x, y0 + 1, y1, c, i);
    } else {
        lemma_fill_column_inside(m1, stride, x, y0 + 1, y1, c, y, k);
    }
}

/// Painting an area leaves every byte that belongs to none of its pixels as
/// it was, and keeps the length of the memory.
pub proof fn lemma_fill_rect_outside(
    mem: Seq<u8>,
    stride: int,
    x0: int,
    x1: int,
    y0: int,
    y1: int,
    c: Rgb,
    i: int,
)
    requires
        stride >= 0,
        0 <= x0,
        0 <= y0,
        rect_fits(stride, x0, x1, y0, y1, mem.len() as int),
        forall|x: int, y: int| x0 <= x < x1 && y0 <= y < y1 ==> !#[trigger] in_pixel(stride, x, y, i),
    ensures
        fill_rect(mem, stride, x0, x1, y0, y1, c).len() == mem.len(),
        0 <= i < mem.len() ==> fill_rect(mem, stride, x0, x1, y0, y1, c)[i] == mem[i],
    decreases x1 - x0,
{
    lemma_fill_rect_len(mem, stride, x0, x1, y0, y1, c);
    if x0 < x1 {
        if y0 < y1 {
            lemma_rect_fits_each(stride, x0, x1, y0, y1, mem.len() as int, x0, y1 - 1);
        }
        lemma_fill_column_len(mem, stride, x0, y0, y1, c);
        lemma_fill_column_outside(mem, stride, x0, y0, y1, c, i);
        lemma_fill_rect_outside(fill_column(mem, stride, x0, y0, y1, c), stride, x0 + 1, x1, y0, y1, c, i);
    }
}

/// Painting an area whose columns all lie left of the stride gives every
/// pixel of the area the colour's three bytes.
pub proof fn lemma_fill_rect_inside(
    mem: Seq<u8>,
    stride: int,
    x0: int,
    x1: int,
    y0: int,
    y1: int,
    c: Rgb,
    x: int,
    y: int,
    k: int,
)
    requires
        0 <= x0 <= x < x1 <= stride,
        0 <= y0 <= y < y1,
        0 <= k < 3,
        rect_fits(stride, x0, x1, y0, y1, mem.len() as int),
    ensures
        fill_rect(mem, stride, x0, x1, y0, y1, c)[pixel_offset(stride, x, y) + k] == channel(c, k),
    decreases x1 - x0,
{
    lemma_rect_fits_each(stride, x0, x1, y0, y1, mem.len() as int, x0, y1 - 1);
    lemma_rect_fits_each(stride, x0, x1, y0, y1, mem.len() as int, x, y);
    lemma_fill_column_len(mem, stride, x0, y0, y1, c);
    let m1 = fill_column(mem, stride, x0, y0, y1, c);
    if x == x0 {
        lemma_fill_column_inside(mem, stride, x0, y0, y1, c, y, k);
        let i = pixel_offset(stride, x, y) + k;
        assert forall|x2: int, y2: int| x0 + 1 <= x2 < x1 && y0 <= y2 < y1 implies !#[trigger] in_pixel(
            stride,
            x2,
            y2,
            i,
        ) by {
            lemma_pixels_disjoint(stride, x0, y, x2, y2, i);
        }
        lemma_fill_rect_outside(m1, stride, x0 + 1, x1, y0, y1, c, i);
    } else {
        lemma_fill_rect_inside(m1, stride, x0 + 1, x1, y0, y1, c, x, y, k);
    }
}

/// In the example picture, when the screen width and the box both lie left of
/// the stride, every pixel of the box has the box colour and every other
/// pixel of the screen is white.
pub proof fn lemma_example_image_pixel(
    mem: Seq<u8>,
    stride: int,
    width: int,
    height: int,
    x: int,
    y: int,
    k: int,
)
    requires
        0 <= width <= stride,
        250 <= stride,
        0 <= height,
        rect_fits(stride, 0, width, 0, height, mem.len() as int),
        rect_fits(stride, 50, 250, 50, 150, mem.len() as int),
        0 <= k < 3,
    ensures
        example_image(mem, stride, width, height).len() == mem.len(),
        50 <= x < 250 && 50 <= y < 150 ==> example_image(mem, stride, width, height)[pixel_offset(
            stride,
            x,
            y,
        ) + k] == channel(box_color(), k),
        0 <= x < width && 0 <= y < height && !(50 <= x < 250 && 50 <= y < 150) ==> example_image(
            mem,
            stride,
            width,
            height,
        )[pixel_offset(stride, x, y) + k] == channel(white(), k),
{
    let m1 = fill_rect(mem, stride, 0, width, 0, height, white());
    lemma_fill_rect_len(mem, stride, 0, width, 0, height, white());
    lemma_fill_rect_len(m1, stride, 50, 250, 50, 150, box_color());
    if 50 <= x < 250 && 50 <= y < 150 {
        lemma_fill_rect_inside(m1, stride, 50, 250, 50, 150, box_color(), x, y, k);
    } else if 0 <= x < width && 0 <= y < height {
        lemma_fill_rect_inside(mem, stride, 0, width, 0, height, white(), x, y, k);
        lemma_rect_fits_each(stride, 0, width, 0, height, mem.len() as int, x, y);
        let i = pixel_offset(stride, x, y) + k;
        assert forall|x2: int, y2: int| 50 <= x2 < 250 && 50 <= y2 < 150 implies !#[trigger] in_pixel(
            stride,
            x2,
            y2,
            i,
        ) by {
            lemma_pixels_disjoint(stride, x, y, x2, y2, i);
        }
        lemma_fill_rect_outside(m1, stride, 50, 250, 50, 150, box_color(), i);
    }
}

/// In the example picture, a byte that belongs to no pixel of the screen and
/// no pixel of the box keeps its value.
pub proof fn lemma_example_image_elsewhere(
    mem: Seq<u8>,
    stride: int,
    width: int,
    height: int,
    i: int,
)
    requires
        0 <= stride,
        0 <= width,
        0 <= height,
        rect_fits(stride, 0, width, 0, height, mem.len() as int),
        rect_fits(stride, 50, 250, 50, 150, mem.len() as int),
        0 <= i < mem.len(),
        forall|x: int, y: int| 0 <= x < width && 0 <= y < height ==> !#[trigger] in_pixel(stride, x, y, i),
        forall|x: int, y: int| 50 <= x < 250 && 50 <= y < 150 ==> !#[trigger] in_pixel(stride, x, y, i),
    ensures
        example_image(mem, stride, width, height)[i] == mem[i],
{
    let m1 = fill_rect(mem, stride, 0, width, 0, height, white());
    lemma_fill_rect_outside(mem, stride, 0, width, 0, height, white(), i);
    lemma_fill_rect_outside(m1, stride, 50, 250, 50, 150, box_color(), i);
}

/// Whether every pixel of [x0, x1) x [y0, y1) can be written into a frame
/// buffer memory of `len` bytes whose scan lines are `stride` pixels apart.
pub fn area_fits(stride: u32, x0: u32, x1: u32, y0: u32, y1: u32, len: usize) -> (b: bool)
    ensures
        b == rect_fits(stride as int, x0 as int, x1 as int, y0 as int, y1 as int, len as int),
{
    if x1 <= x0 || y1 <= y0 {
        return true;
    }
    let x = (x1 - 1) as u64;
    let y = (y1 - 1) as u64;
    let s = stride as u64;
    assert(s * y <= 0xffff_ffff * 0xffff_ffff) by (nonlinear_arith)
        requires
            s <= 0xffff_ffff,
            y <= 0xffff_ffff,
    ;
    let a = s * y + x;
    if a > 0x3fff_ffff {
        return false;
    }
    let offset = 4 * a;
    offset + 3 <= len as u64
}

/// Writes `color` to every pixel of [x0, x1) x [y0, y1), column by column.
fn paint_rect<A: ColorSpace>(
    fb: &FrameBufferPayload<A>,
    mem: &mut [u8],
    x0: u32,
    x1: u32,
    y0: u32,
    y1: u32,
    color: Rgb,
)
    where FrameBufferPayload<A>: PixelWrite<A>,
    requires
        rect_fits(fb.line_stride() as int, x0 as int, x1 as int, y0 as int, y1 as int, old(mem)@.len() as int),
    ensures
        final(mem)@ == fill_rect(old(mem)@, fb.line_stride() as int, x0 as int, x1 as int, y0 as int, y1 as int, color),
        final(mem)@.len() == old(mem)@.len(),
{
    let ghost s = fb.line_stride() as int;
    let ghost len = mem@.len() as int;
    let ghost m0 = mem@;
    let mut x = x0;
    while x < x1
        invariant
            x0 <= x,
            x0 < x1 ==> x <= x1,
            s == fb.line_stride() as int,
            len == mem@.len(),
            rect_fits(s, x0 as int, x1 as int, y0 as int, y1 as int, len),
            fill_rect(m0, s, x0 as int, x1 as int, y0 as int, y1 as int, color)
                == fill_rect(mem@, s, x as int, x1 as int, y0 as int, y1 as int, color),
        decreases x1 - x,
    {
        let ghost before = mem@;
        let mut y = y0;
        while y < y1
            invariant
                x0 <= x < x1,
                y0 <= y,
                y0 < y1 ==> y <= y1,
                s == fb.line_stride() as int,
                len == mem@.len(),
                rect_fits(s, x0 as int, x1 as int, y0 as int, y1 as int, len),
                fill_column(before, s, x as int, y0 as int, y1 as int, color)
                    == fill_column(mem@, s, x as int, y as int, y1 as int, color),
            decreases y1 - y,
        {
            proof {
                lemma_rect_fits_each(s, x0 as int, x1 as int, y0 as int, y1 as int, len, x as int, y as int);
            }
            fb.put_pixel(mem, x, y, color);
            y = y + 1;
        }
        x = x + 1;
    }
}

/// The pixel writers of both payload kinds step by the payload's `stride`.
pub proof fn lemma_line_stride_is_stride(rgb: FrameBufferPayload<Rgb>, bgr: FrameBufferPayload<Bgr>)
    ensures
        rgb.line_stride() == rgb.stride,
        bgr.line_stride() == bgr.stride,
{
}

/// Draws the example picture: the whole screen white, then a blue box.
/// `mem` is the frame buffer's memory from its first byte on.
pub fn render_example<A: ColorSpace>(fb: &FrameBufferPayload<A>, mem: &mut [u8])
    where FrameBufferPayload<A>: PixelWrite<A>,
    requires
        rect_fits(
            fb.line_stride() as int,
            0,
            fb.resolution.0 as int,
            0,
            fb.resolution.1 as int,
            old(mem)@.len() as int,
        ),
        rect_fits(fb.line_stride() as int, 50, 250, 50, 150, old(mem)@.len() as int),
    ensures
        final(mem)@ == example_image(
            old(mem)@,
            fb.line_stride() as int,
            fb.resolution.0 as int,
            fb.resolution.1 as int,
        ),
{
    let color = Rgb::new(255, 255, 255);
    paint_rect(fb, mem, 0, fb.resolution.0, 0, fb.resolution.1, color);
    let color = Rgb::new(50, 155, 255);
    paint_rect(fb, mem, 50, 250, 50, 150, color);
}

} // verus!
