use ilya::app::{App, AppOptions};

fn hardware(width: u32, height: u32, len: usize) -> Vec<u8> {
    let mut frame = vec![7u8; len];
    for (i, pixel) in frame.chunks_exact_mut(4).enumerate() {
        let x = i % width as usize;
        let y = i / width as usize;
        let r = x as f64 / (width - 1) as f64;
        let g = y as f64 / (height - 1) as f64;
        let b = 0.25;
        pixel.copy_from_slice(&[(255.999 * r) as u8, (255.999 * g) as u8, (255.999 * b) as u8, 255]);
    }
    frame
}

fn card(width: u32, height: u32, len: usize) -> Vec<u8> {
    let mut frame = vec![7u8; len];
    App::render(&mut frame, &AppOptions { width, height, name: "card" });
    frame
}

#[test]
fn card_matches_double_precision_arithmetic() {
    for &(w, h) in &[(2u32, 2u32), (3, 5), (16, 9), (64, 48), (7, 1), (1, 7), (1, 1), (257, 3)] {
        let len = (w * h * 4) as usize;
        assert_eq!(card(w, h, len), hardware(w, h, len), "{}x{}", w, h);
    }
}

#[test]
fn card_corners() {
    let frame = card(2, 2, 16);
    assert_eq!(frame, vec![0, 0, 63, 255, 255, 0, 63, 255, 0, 255, 63, 255, 255, 255, 63, 255]);
}

#[test]
fn card_leaves_trailing_bytes() {
    // 4 whole pixels and 3 bytes over; rows beyond the height are painted too.
    let frame = card(2, 2, 19);
    assert_eq!(&frame[16..], &[7, 7, 7]);
    let long = card(2, 2, 32);
    assert_eq!(long, hardware(2, 2, 32));
}
