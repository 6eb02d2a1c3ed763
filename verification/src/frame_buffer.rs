use core::marker::PhantomData;
use vstd::prelude::*;
use vstd::std_specs::convert::FromSpec;
use vstd::std_specs::convert::FromSpecImpl;

verus! {

/// The frame buffer that the boot loader hands to the kernel, tagged with
/// the order in which the firmware lays out a pixel's colour channels.
#[derive(PartialEq, Eq, PartialOrd, Ord, Debug, Clone)]
pub enum FrameBuffer {
    Rgb(FrameBufferPayload<Rgb>),
    Bgr(FrameBufferPayload<Bgr>),
}

/// Marks the types that name a pixel layout of the frame buffer.
pub trait ColorSpace {}

/// A colour given as red, green and blue channels.
#[derive(PartialEq, Eq, Structural, PartialOrd, Ord, Debug, Clone, Copy)]
pub struct Rgb {
    pub r: u8,
    pub g: u8,
    pub b: u8,
}

impl Rgb {
    pub fn new(r: u8, g: u8, b: u8) -> (c: Self)
        ensures
            c == (Rgb { r, g, b }),
    {
        Self { r, g, b }
    }
}

impl From<Bgr> for Rgb {
    fn from(bgr: Bgr) -> (c: Rgb) {
        Rgb::new(bgr.r, bgr.g, bgr.b)
    }
}

impl FromSpecImpl<Bgr> for Rgb {
    open spec fn obeys_from_spec() -> bool {
        true
    }

    open spec fn from_spec(bgr: Bgr) -> Rgb {
        Rgb { r: bgr.r, g: bgr.g, b: bgr.b }
    }
}

impl ColorSpace for Rgb {}

/// A colour whose channels are stored blue first.
#[derive(PartialEq, Eq, Structural, PartialOrd, Ord, Debug, Clone, Copy)]
pub struct Bgr {
    pub b: u8,
    pub g: u8,
    pub r: u8,
}

impl Bgr {
    pub fn new(b: u8, g: u8, r: u8) -> (c: Self)
        ensures
            c == (Bgr { b, g, r }),
    {
        Self { b, g, r }
    }
}

impl From<Rgb> for Bgr {
    fn from(rgb: Rgb) -> (c: Bgr) {
        Bgr::new(rgb.b, rgb.g, rgb.r)
    }
}

impl FromSpecImpl<Rgb> for Bgr {
    open spec fn obeys_from_spec() -> bool {
        true
    }

    open spec fn from_spec(rgb: Rgb) -> Bgr {
        Bgr { b: rgb.b, g: rgb.g, r: rgb.r }
    }
}

impl ColorSpace for Bgr {}

/// Where the frame buffer lies and how it is shaped.
///
/// `frame_buffer` is the physical address of the first byte; `stride` is the
/// number of pixels from the start of one scan line to the next;
/// `resolution` is (horizontal, vertical) in pixels.
#[derive(PartialEq, Eq, PartialOrd, Ord, Debug)]
pub struct FrameBufferPayload<Color: ColorSpace> {
    pub frame_buffer: u64,
    pub stride: u32,
    pub resolution: (u32, u32),
    pub format: PhantomData<Color>,
}

impl<A: ColorSpace> Clone for FrameBufferPayload<A> {
    fn clone(&self) -> (p: Self)
        ensures
            p == *self,
    {
        FrameBufferPayload {
            frame_buffer: self.frame_buffer,
            stride: self.stride,
            resolution: self.resolution,
            format: PhantomData,
        }
    }
}

impl<A: ColorSpace> FrameBufferPayload<A> {
    pub fn new(frame_buffer: u64, stride: u32, resolution: (u32, u32)) -> (p: Self)
        ensures
            p.frame_buffer == frame_buffer,
            p.stride == stride,
            p.resolution == resolution,
    {
        Self { frame_buffer, stride, resolution, format: PhantomData }
    }
}

/// The pixel layouts that a graphics mode can report.
#[derive(PartialEq, Eq, Structural, Debug, Clone, Copy)]
pub enum PixelFormat {
    /// Red, green, blue, then a reserved byte.
    Rgb,
    /// Blue, green, red, then a reserved byte.
    Bgr,
    /// Channels given by bit masks.
    Bitmask,
    /// No frame buffer; only block transfers.
    BltOnly,
}

/// The payload built from a graphics mode: the frame buffer's address, and its
/// stride and resolution cut to `u32`.
pub open spec fn payload_of<A: ColorSpace>(
    p: FrameBufferPayload<A>,
    frame_buffer: u64,
    stride: usize,
    resolution: (usize, usize),
) -> bool {
    &&& p.frame_buffer == frame_buffer
    &&& p.stride == stride as u32
    &&& p.resolution == (resolution.0 as u32, resolution.1 as u32)
}

/// Cutting a `usize` to `u32` keeps its value modulo 2^32.
proof fn lemma_truncate_u32(n: usize)
    ensures
        (n as u32) as int == n as int % 0x1_0000_0000,
{
    let m = n as u64;
    assert((m as u32) as u64 == m % 0x1_0000_0000) by (bit_vector);
    assert((n as u32) == (m as u32)) by (bit_vector)
        requires
            m == n as u64,
    ;
}

/// The layouts the kernel can draw on.
pub open spec fn is_drawable(pixel_format: PixelFormat) -> bool {
    pixel_format == PixelFormat::Rgb || pixel_format == PixelFormat::Bgr
}

/// Describes the frame buffer of the current graphics mode for the kernel,
/// tagged with its channel order. Only the red-first and blue-first layouts
/// can be described; callers test for them first.
pub fn get_frame_buffer(
    pixel_format: PixelFormat,
    frame_buffer: u64,
    stride: usize,
    resolution: (usize, usize),
) -> (r: FrameBuffer)
    requires
        is_drawable(pixel_format),
    ensures
        pixel_format == PixelFormat::Rgb ==> (r matches FrameBuffer::Rgb(p) && payload_of(
            p,
            frame_buffer,
            stride,
            resolution,
        )),
        pixel_format == PixelFormat::Bgr ==> (r matches FrameBuffer::Bgr(p) && payload_of(
            p,
            frame_buffer,
            stride,
            resolution,
        )),
        (match r {
            FrameBuffer::Rgb(p) => p.frame_buffer,
            FrameBuffer::Bgr(p) => p.frame_buffer,
        }) == frame_buffer,
        (match r {
            FrameBuffer::Rgb(p) => p.stride,
            FrameBuffer::Bgr(p) => p.stride,
        }) as int == stride as int % 0x1_0000_0000,
        (match r {
            FrameBuffer::Rgb(p) => p.resolution.0,
            FrameBuffer::Bgr(p) => p.resolution.0,
        }) as int == resolution.0 as int % 0x1_0000_0000,
        (match r {
            FrameBuffer::Rgb(p) => p.resolution.1,
            FrameBuffer::Bgr(p) => p.resolution.1,
        }) as int == resolution.1 as int % 0x1_0000_0000,
{
    proof {
        lemma_truncate_u32(stride);
        lemma_truncate_u32(resolution.0);
        lemma_truncate_u32(resolution.1);
    }
    let stride = #[verifier::truncate] (stride as u32);
    let resolution = (
        #[verifier::truncate] (resolution.0 as u32),
        #[verifier::truncate] (resolution.1 as u32),
    );
    match pixel_format {
        PixelFormat::Rgb => FrameBuffer::Rgb(FrameBufferPayload::new(frame_buffer, stride, resolution)),
        _ => FrameBuffer::Bgr(FrameBufferPayload::new(frame_buffer, stride, resolution)),
    }
}

/// Converting a colour to the other channel order and back gives it back.
pub proof fn lemma_rgb_bgr_round_trip(c: Rgb)
    ensures
        <Rgb as FromSpec<Bgr>>::from_spec(<Bgr as FromSpec<Rgb>>::from_spec(c)) == c,
        <Bgr as FromSpec<Rgb>>::from_spec(c) == (Bgr { b: c.b, g: c.g, r: c.r }),
{
}

/// Converting a blue-first colour to red-first and back gives it back.
pub proof fn lemma_bgr_rgb_round_trip(c: Bgr)
    ensures
        <Bgr as FromSpec<Rgb>>::from_spec(<Rgb as FromSpec<Bgr>>::from_spec(c)) == c,
        <Rgb as FromSpec<Bgr>>::from_spec(c) == (Rgb { r: c.r, g: c.g, b: c.b }),
{
}

} // verus!
