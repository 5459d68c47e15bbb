use gloryport::icon::largest_image;

/// An ICO container with the given (size, offset) directory entries followed by
/// `data_len` bytes of image data.
fn ico(entries: &[(u32, u32)], data_len: usize) -> Vec<u8> {
    let mut b = vec![0u8, 0, 1, 0];
    b.extend_from_slice(&(entries.len() as u16).to_le_bytes());
    for &(size, offset) in entries {
        b.extend_from_slice(&[32, 32, 0, 0, 1, 0, 32, 0]);
        b.extend_from_slice(&size.to_le_bytes());
        b.extend_from_slice(&offset.to_le_bytes());
    }
    b.extend(std::iter::repeat(0xAB).take(data_len));
    b
}

fn sample() -> Vec<u8> {
    // Three images: 40 bytes at 54, 100 bytes at 94, 60 bytes at 194.
    ico(&[(40, 54), (100, 94), (60, 194)], 200)
}

#[test]
fn ico_has_valid_header() {
    let bytes = sample();
    assert_eq!(bytes[0], 0);
    assert_eq!(bytes[1], 0);
    assert_eq!(bytes[2], 1);
    assert!(u16::from_le_bytes([bytes[4], bytes[5]]) >= 1);
}

#[test]
fn largest_image_is_within_bounds() {
    let bytes = sample();
    let (offset, size) = largest_image(&bytes);
    assert!(size > 0);
    assert!(offset + size <= bytes.len());
    assert_eq!((offset, size), (94, 100));
}

#[test]
fn largest_image_skips_images_outside_the_file() {
    let bytes = ico(&[(10, 38), (5000, 38)], 20);
    assert_eq!(largest_image(&bytes), (38, 10));
}

#[test]
fn largest_image_stops_at_truncated_directory() {
    let mut bytes = ico(&[(10, 38), (20, 48)], 40);
    // Claim more entries than the file holds.
    bytes[4] = 9;
    assert_eq!(largest_image(&bytes), (48, 20));
    assert_eq!(largest_image(&[0, 0, 1, 0, 0, 0]), (6, 0));
}

#[test]
fn largest_image_keeps_first_of_equal_sizes() {
    let bytes = ico(&[(16, 38), (16, 54)], 40);
    assert_eq!(largest_image(&bytes), (38, 16));
}
