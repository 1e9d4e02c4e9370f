use kagami::pixels::{cmyk_to_rgb, components, samples_to_rgba, write_palette, ColorSpace};

#[test]
fn gray_samples_repeat_over_the_channels() {
    let out = samples_to_rgba(&[0, 128, 255, 7], 2, 2, 8, &ColorSpace::Gray).unwrap();
    assert_eq!(out, vec![0, 0, 0, 255, 128, 128, 128, 255, 255, 255, 255, 255, 7, 7, 7, 255]);
}

#[test]
fn rgb_samples_get_an_opaque_alpha() {
    let out = samples_to_rgba(&[1, 2, 3, 4, 5, 6, 99], 1, 2, 8, &ColorSpace::Rgb).unwrap();
    assert_eq!(out, vec![1, 2, 3, 255, 4, 5, 6, 255]);
}

#[test]
fn cmyk_samples_multiply() {
    assert_eq!(cmyk_to_rgb(0, 0), 255);
    assert_eq!(cmyk_to_rgb(255, 0), 0);
    assert_eq!(cmyk_to_rgb(0, 255), 0);
    assert_eq!(cmyk_to_rgb(100, 50), 124);
    let out = samples_to_rgba(&[100, 0, 255, 50], 1, 1, 8, &ColorSpace::Cmyk).unwrap();
    assert_eq!(out, vec![124, 205, 0, 255]);
}

#[test]
fn indexed_samples_look_up_the_palette() {
    let rgb = ColorSpace::Indexed { base: 3, palette: vec![10, 11, 12, 20, 21, 22] };
    let out = samples_to_rgba(&[1, 0, 2], 3, 1, 8, &rgb).unwrap();
    assert_eq!(out, vec![20, 21, 22, 255, 10, 11, 12, 255, 0, 0, 0, 255]);
    let gray = ColorSpace::Indexed { base: 1, palette: vec![5, 6] };
    assert_eq!(samples_to_rgba(&[1], 1, 1, 8, &gray).unwrap(), vec![6, 6, 6, 255]);
    let cmyk = ColorSpace::Indexed { base: 4, palette: vec![100, 0, 255, 50] };
    assert_eq!(samples_to_rgba(&[0], 1, 1, 8, &cmyk).unwrap(), vec![124, 205, 0, 255]);
}

#[test]
fn one_bit_rows_are_padded_to_bytes() {
    // Ten pixels a row take two bytes.
    let raw = [0b1010_0000, 0b0100_0000, 0b0000_0001, 0b1000_0000];
    let out = samples_to_rgba(&raw, 10, 2, 1, &ColorSpace::Gray).unwrap();
    let white: Vec<usize> = (0..20).filter(|i| out[i * 4] == 255).collect();
    assert_eq!(white, vec![0, 2, 9, 17, 18]);
    assert!((0..20).all(|i| out[i * 4 + 3] == 255));
    assert!((0..20).all(|i| out[i * 4] == out[i * 4 + 1] && out[i * 4] == out[i * 4 + 2]));
}

#[test]
fn too_few_samples_and_other_layouts_give_nothing() {
    assert!(samples_to_rgba(&[1, 2, 3], 2, 2, 8, &ColorSpace::Gray).is_none());
    assert!(samples_to_rgba(&[1; 11], 2, 2, 8, &ColorSpace::Rgb).is_none());
    assert!(samples_to_rgba(&[1; 15], 2, 2, 8, &ColorSpace::Cmyk).is_none());
    assert!(samples_to_rgba(&[1; 3], 10, 2, 1, &ColorSpace::Gray).is_none());
    assert!(samples_to_rgba(&[1; 64], 2, 2, 16, &ColorSpace::Gray).is_none());
    assert!(samples_to_rgba(&[1; 64], 2, 2, 1, &ColorSpace::Rgb).is_none());
    assert!(samples_to_rgba(&[1; 64], u32::MAX, u32::MAX, 8, &ColorSpace::Gray).is_none());
    assert_eq!(samples_to_rgba(&[], 0, 5, 8, &ColorSpace::Gray).unwrap(), Vec::<u8>::new());
}

#[test]
fn palette_entries_are_written_in_place() {
    let mut out = vec![9u8; 8];
    write_palette(&mut out, 4, 1, 3, &vec![0, 0, 0, 1, 2, 3]);
    assert_eq!(out, vec![9, 9, 9, 9, 1, 2, 3, 9]);
    assert_eq!(components(&ColorSpace::Cmyk), 4);
    assert_eq!(components(&ColorSpace::Indexed { base: 3, palette: Vec::new() }), 1);
    assert_eq!(components(&ColorSpace::Rgb), 3);
    assert_eq!(components(&ColorSpace::Gray), 1);
}
