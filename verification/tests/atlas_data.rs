use strolle::atlas_data::{convert_to_rgba8unorm_srgb, pad_rows, padded_bytes_per_row, SourceFormat};

#[test]
fn r8_is_widened() {
    let out = convert_to_rgba8unorm_srgb(&[1, 2, 3], SourceFormat::R8Unorm, 3, 1);
    assert_eq!(out, vec![1, 0, 0, 255, 2, 0, 0, 255, 3, 0, 0, 255]);
}

#[test]
fn rg8_is_widened_and_odd_byte_dropped() {
    let out = convert_to_rgba8unorm_srgb(&[1, 2, 3, 4, 5], SourceFormat::Rg8Unorm, 2, 1);
    assert_eq!(out, vec![1, 2, 0, 255, 3, 4, 0, 255]);
}

#[test]
fn rgba8_is_copied() {
    let data = [9u8, 8, 7, 6, 5, 4, 3, 2];
    let out = convert_to_rgba8unorm_srgb(&data, SourceFormat::Rgba8UnormSrgb, 2, 1);
    assert_eq!(out, data.to_vec());
}

#[test]
fn unsupported_format_gives_nothing() {
    let out = convert_to_rgba8unorm_srgb(&[1, 2, 3, 4], SourceFormat::Unsupported, 1, 1);
    assert!(out.is_empty());
}

#[test]
fn padded_rows_are_aligned() {
    assert_eq!(padded_bytes_per_row(0), 0);
    assert_eq!(padded_bytes_per_row(1), 256);
    assert_eq!(padded_bytes_per_row(64), 256);
    assert_eq!(padded_bytes_per_row(65), 512);
    assert_eq!(padded_bytes_per_row(128), 512);
}

#[test]
fn aligned_rows_are_kept() {
    let data: Vec<u8> = (0..=255u8).collect();
    let out = pad_rows(data.clone(), 64, 1);
    assert_eq!(out, data);
}

#[test]
fn short_rows_are_padded() {
    // two rows of one pixel each
    let data = vec![1u8, 2, 3, 4, 5, 6, 7, 8];
    let out = pad_rows(data, 1, 2);
    assert_eq!(out.len(), 512);
    assert_eq!(&out[0..4], &[1, 2, 3, 4]);
    assert!(out[4..256].iter().all(|&b| b == 0));
    assert_eq!(&out[256..260], &[5, 6, 7, 8]);
    assert!(out[260..512].iter().all(|&b| b == 0));
}

#[test]
fn incomplete_last_row_is_dropped() {
    let data = vec![1u8, 2, 3, 4, 5, 6];
    let out = pad_rows(data, 1, 2);
    assert_eq!(out.len(), 256);
    assert_eq!(&out[0..4], &[1, 2, 3, 4]);
}
