use dedupe_estimator::palette::{generate_color_sequence, Rgb, PALETTE, SEQUENCE_LENGTH};

#[test]
fn one_owner_gives_one_colour() {
    let colors = generate_color_sequence(&[0]);
    assert_eq!(colors.len(), SEQUENCE_LENGTH);
    assert_eq!(colors.len(), 8192);
    for c in &colors {
        assert_eq!(*c, Rgb { r: 0, g: 255, b: 0 });
    }
}

#[test]
fn two_owners_fade_from_one_to_the_other() {
    let colors = generate_color_sequence(&[0, 1]);
    assert_eq!(colors[0], Rgb { r: 0, g: 255, b: 0 });
    assert_eq!(colors[2048], Rgb { r: 127, g: 127, b: 0 });
    assert_eq!(colors[1024], Rgb { r: 63, g: 191, b: 0 });
    assert_eq!(colors[4096], Rgb { r: 255, g: 0, b: 0 });
    assert_eq!(colors[8191], Rgb { r: 255, g: 0, b: 0 });
}

#[test]
fn many_segments_are_averaged() {
    let mut segments = Vec::new();
    for i in 0..16384usize {
        segments.push(i % 2);
    }
    let colors = generate_color_sequence(&segments);
    assert_eq!(colors[0], Rgb { r: 127, g: 127, b: 0 });
    assert_eq!(colors[8191], Rgb { r: 127, g: 127, b: 0 });
}

#[test]
fn owners_beyond_the_palette_wrap_around() {
    let colors = generate_color_sequence(&[34]);
    assert_eq!(PALETTE[2], 0x0000ff);
    assert_eq!(colors[17], Rgb { r: 0, g: 0, b: 255 });
    let orange = generate_color_sequence(&[4]);
    assert_eq!(orange[0], Rgb { r: 255, g: 165, b: 0 });
}
