use gloryport::popup::{key_code, lparam_xy, wheel_delta};
use gloryport::tray::{copy_wide_into, encode_utf16, tray_mouse_message};

#[test]
fn utf16_matches_std() {
    for s in ["", "GLORYPORT — puertos", "ñandú", "emoji 😀 fin"] {
        let expected: Vec<u16> = s.encode_utf16().collect();
        assert_eq!(encode_utf16(s), expected);
    }
}

#[test]
fn wide_copy_truncates_and_terminates() {
    let mut buf = [0xFFFFu16; 5];
    copy_wide_into("abcdefgh", &mut buf);
    assert_eq!(buf, [97, 98, 99, 100, 0]);
    let mut buf = [0xFFFFu16; 6];
    copy_wide_into("ab", &mut buf);
    assert_eq!(buf, [97, 98, 0, 0, 0, 0]);
    let mut empty: [u16; 0] = [];
    copy_wide_into("x", &mut empty);
}

#[test]
fn message_words_are_decoded() {
    assert_eq!(tray_mouse_message(0x0001_0202), 0x0202);
    assert_eq!(lparam_xy(0x0064_0032), (50, 100));
    assert_eq!(lparam_xy(0xFFFF_FFFFu32 as isize), (65535, 65535));
    assert_eq!(wheel_delta(0xFF88_0000), -120);
    assert_eq!(wheel_delta(0x0078_0000), 120);
    assert_eq!(key_code(0x1B), 0x1B);
}
