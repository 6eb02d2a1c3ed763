use tachibana::frame_buffer::{get_frame_buffer, Bgr, FrameBuffer, FrameBufferPayload, PixelFormat, Rgb};

#[test]
fn rgb_new_sets_channels() {
    let c = Rgb::new(1, 2, 3);
    assert_eq!((c.r, c.g, c.b), (1, 2, 3));
}

#[test]
fn bgr_new_sets_channels_in_its_own_order() {
    let c = Bgr::new(1, 2, 3);
    assert_eq!((c.b, c.g, c.r), (1, 2, 3));
}

#[test]
fn conversions_keep_each_channel() {
    let rgb = Rgb::new(10, 20, 30);
    let bgr: Bgr = rgb.clone().into();
    assert_eq!(bgr, Bgr::new(30, 20, 10));
    assert_eq!((bgr.r, bgr.g, bgr.b), (10, 20, 30));
    let back: Rgb = bgr.into();
    assert_eq!(back, rgb);
}

#[test]
fn conversion_round_trip_from_bgr() {
    let bgr = Bgr::new(7, 8, 9);
    let rgb = Rgb::from(bgr.clone());
    assert_eq!(Bgr::from(rgb), bgr);
}

#[test]
fn payload_new_keeps_its_fields() {
    let p: FrameBufferPayload<Rgb> = FrameBufferPayload::new(0x8000_0000, 1024, (800, 600));
    assert_eq!(p.frame_buffer, 0x8000_0000);
    assert_eq!(p.stride, 1024);
    assert_eq!(p.resolution, (800, 600));
    assert_eq!(p.clone(), p);
}

#[test]
fn rgb_mode_gives_rgb_frame_buffer() {
    let fb = get_frame_buffer(PixelFormat::Rgb, 0x8000_0000, 1024, (800, 600));
    assert_eq!(fb, FrameBuffer::Rgb(FrameBufferPayload::new(0x8000_0000, 1024, (800, 600))));
}

#[test]
fn bgr_mode_gives_bgr_frame_buffer() {
    let fb = get_frame_buffer(PixelFormat::Bgr, 0xc000_0000, 1280, (1280, 1024));
    assert_eq!(fb, FrameBuffer::Bgr(FrameBufferPayload::new(0xc000_0000, 1280, (1280, 1024))));
}

#[test]
fn mode_numbers_are_cut_to_u32() {
    let big: usize = (1usize << 32) + 16;
    let fb = get_frame_buffer(PixelFormat::Rgb, 0, big, (big + 1, 3));
    assert_eq!(fb, FrameBuffer::Rgb(FrameBufferPayload::new(0, 16, (17, 3))));
}
