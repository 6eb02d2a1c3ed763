use tachibana::frame_buffer::{Bgr, FrameBufferPayload, Rgb};
use tachibana::render::{area_fits, render_example, PixelWrite};

fn offset(stride: usize, x: usize, y: usize) -> usize {
    4 * (stride * y + x)
}

#[test]
fn rgb_put_pixel_writes_red_green_blue() {
    let fb: FrameBufferPayload<Rgb> = FrameBufferPayload::new(0, 4, (4, 4));
    let mut mem = vec![0xaau8; 64];
    fb.put_pixel(&mut mem, 1, 2, Rgb::new(1, 2, 3));
    let o = offset(4, 1, 2);
    assert_eq!(&mem[o..o + 4], &[1, 2, 3, 0xaa]);
    assert!(mem[..o].iter().all(|&b| b == 0xaa));
    assert!(mem[o + 4..].iter().all(|&b| b == 0xaa));
}

#[test]
fn bgr_put_pixel_writes_red_green_blue_too() {
    let fb: FrameBufferPayload<Bgr> = FrameBufferPayload::new(0, 4, (4, 4));
    let mut mem = vec![0u8; 64];
    fb.put_pixel(&mut mem, 3, 3, Rgb::new(9, 8, 7));
    let o = offset(4, 3, 3);
    assert_eq!(o, 60);
    assert_eq!(&mem[o..o + 4], &[9, 8, 7, 0]);
}

#[test]
fn render_example_draws_white_screen_and_box() {
    let (w, h) = (300usize, 200usize);
    let fb: FrameBufferPayload<Rgb> = FrameBufferPayload::new(0, w as u32, (w as u32, h as u32));
    let mut mem = vec![0x11u8; 4 * w * h];
    render_example(&fb, &mut mem);
    for y in 0..h {
        for x in 0..w {
            let o = offset(w, x, y);
            let expected: [u8; 3] = if (50..250).contains(&x) && (50..150).contains(&y) {
                [50, 155, 255]
            } else {
                [255, 255, 255]
            };
            assert_eq!(&mem[o..o + 3], &expected, "pixel ({}, {})", x, y);
            assert_eq!(mem[o + 3], 0x11);
        }
    }
}

#[test]
fn render_example_on_bgr_buffer_writes_same_bytes() {
    let (w, h) = (260usize, 160usize);
    let fb: FrameBufferPayload<Bgr> = FrameBufferPayload::new(0, w as u32, (w as u32, h as u32));
    let mut mem = vec![0u8; 4 * w * h];
    render_example(&fb, &mut mem);
    let o = offset(w, 100, 100);
    assert_eq!(&mem[o..o + 4], &[50, 155, 255, 0]);
    let o = offset(w, 255, 155);
    assert_eq!(&mem[o..o + 4], &[255, 255, 255, 0]);
}

#[test]
fn area_fits_checks_the_last_pixel() {
    assert!(area_fits(10, 0, 10, 0, 10, 400));
    assert!(!area_fits(10, 0, 10, 0, 10, 398));
    assert!(area_fits(10, 0, 10, 0, 10, 399));
    assert!(area_fits(10, 5, 5, 0, 10, 0));
    assert!(area_fits(10, 0, 10, 7, 3, 0));
    assert!(!area_fits(u32::MAX, 0, 1, 0, 2, usize::MAX));
    assert!(area_fits(0x4000_0000, 0, 1, 0, 1, 3));
}
