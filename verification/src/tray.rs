//! Text handed to the shell's fixed-size UTF-16 buffers (tray tip, notifications,
//! tooltips) and decoding of the tray icon's callback message.

use vstd::prelude::*;

use crate::text::chars_of;

verus! {

/// The UTF-16 code units of one character.
pub open spec fn units(c: char) -> Seq<u16> {
    let v = c as u32;
    if v < 0x10000 {
        seq![v as u16]
    } else {
        seq![(0xD800 + (v - 0x10000) / 1024) as u16, (0xDC00 + (v - 0x10000) % 1024) as u16]
    }
}

/// UTF-16 encoding of a text (`str::encode_utf16`).
pub open spec fn utf16(s: Seq<char>) -> Seq<u16>
    decreases s.len(),
{
    if s.len() == 0 {
        Seq::<u16>::empty()
    } else {
        utf16(s.drop_last()) + units(s.last())
    }
}

fn char_units(c: char, out: &mut Vec<u16>)
    ensures
        final(out)@ == old(out)@ + units(c),
{
    let v: u32 = c as u32;
    assert(v <= 0x10FFFF);
    if v < 0x10000 {
        out.push(v as u16);
        assert(final(out)@ =~= old(out)@ + units(c));
    } else {
        out.push((0xD800 + (v - 0x10000) / 1024) as u16);
        out.push((0xDC00 + (v - 0x10000) % 1024) as u16);
        assert(final(out)@ =~= old(out)@ + units(c));
    }
}

/// UTF-16 code units of `text`.
pub fn encode_utf16(text: &str) -> (r: Vec<u16>)
    ensures
        r@ == utf16(text@),
{
    let cs = chars_of(text);
    let mut out: Vec<u16> = Vec::new();
    let mut i: usize = 0;
    assert(cs@.take(0) =~= Seq::<char>::empty());
    while i < cs.len()
        invariant
            i <= cs.len(),
            out@ == utf16(cs@.take(i as int)),
        decreases cs.len() - i,
    {
        char_units(cs[i], &mut out);
        assert(cs@.take(i + 1).drop_last() =~= cs@.take(i as int));
        i += 1;
    }
    assert(cs@.take(cs.len() as int) =~= cs@);
    out
}

/// Copies `text` as UTF-16 into a fixed buffer, truncated and NUL-terminated: at most
/// all but the last unit of the buffer receive text, and the rest is filled with zeros.
pub fn copy_wide_into(text: &str, buf: &mut [u16])
    ensures
        final(buf)@.len() == old(buf)@.len(),
        forall|i: int|
            0 <= i < old(buf)@.len() ==> #[trigger] final(buf)@[i] == if i < utf16(text@).len()
                && i + 1 < old(buf)@.len() {
                utf16(text@)[i]
            } else {
                0
            },
{
    let units = encode_utf16(text);
    let n = buf.len();
    let mut i: usize = 0;
    while i < n
        invariant
            n == buf@.len(),
            n == old(buf)@.len(),
            i <= n,
            units@ == utf16(text@),
            forall|k: int|
                0 <= k < i ==> #[trigger] buf@[k] == if k < units@.len() && k + 1 < n {
                    units@[k]
                } else {
                    0
                },
        decreases n - i,
    {
        let v: u16 = if i < units.len() && i + 1 < n {
            units[i]
        } else {
            0
        };
        buf[i] = v;
        i += 1;
    }
}

/// The mouse message carried in the low word of the tray callback's `lParam`.
pub fn tray_mouse_message(l: isize) -> (r: u32)
    ensures
        r == (l as u32) % 65536,
{
    let v: u32 = l as u32;
    v % 65536
}

} // verus!
