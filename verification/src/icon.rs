//! Choice of the image used for the tray icon inside an ICO container.

use vstd::prelude::*;

verus! {

/// Little-endian `u32` at offset `o` of `b`.
pub open spec fn le_u32(b: Seq<u8>, o: int) -> nat {
    (b[o] as nat) + (b[o + 1] as nat) * 256 + (b[o + 2] as nat) * 65536 + (b[o + 3] as nat)
        * 16777216
}

/// Number of directory entries of the ICO that are read: the count of its header,
/// stopping at the first entry that does not fit in the bytes.
pub open spec fn entries_read(b: Seq<u8>) -> nat {
    let count = (b[4] as nat) + (b[5] as nat) * 256;
    let fit = if b.len() >= 6 {
        ((b.len() - 6) / 16) as nat
    } else {
        0
    };
    if count < fit {
        count
    } else {
        fit
    }
}

/// `(offset, size)` of the largest image among the first `i` entries whose data lies
/// inside the bytes (the first of equal sizes); `(6, 0)` when there is none.
pub open spec fn best_image(b: Seq<u8>, i: nat) -> (nat, nat)
    decreases i,
{
    if i == 0 {
        (6, 0)
    } else {
        let prev = best_image(b, (i - 1) as nat);
        let e = 6 + 16 * (i - 1);
        let size = le_u32(b, e + 8);
        let off = le_u32(b, e + 12);
        if size > prev.1 && off + size <= b.len() {
            (off, size)
        } else {
            prev
        }
    }
}

fn read_le_u32(b: &[u8], o: usize) -> (r: u64)
    requires
        o + 4 <= b@.len(),
    ensures
        r == le_u32(b@, o as int),
{
    (b[o] as u64) + (b[o + 1] as u64) * 256 + (b[o + 2] as u64) * 65536 + (b[o + 3] as u64)
        * 16777216
}

/// `(offset, size)` of the largest image inside an ICO file.
pub fn largest_image(ico: &[u8]) -> (r: (usize, usize))
    requires
        ico@.len() >= 6,
    ensures
        r.0 == best_image(ico@, entries_read(ico@)).0,
        r.1 == best_image(ico@, entries_read(ico@)).1,
        r.1 > 0 ==> r.0 + r.1 <= ico@.len(),
{
    let count: usize = (ico[4] as usize) + (ico[5] as usize) * 256;
    let mut best_off: u64 = 6;
    let mut best_size: u64 = 0;
    let mut i: usize = 0;
    while i < count
        invariant
            i <= count,
            count == (ico@[4] as nat) + (ico@[5] as nat) * 256,
            ico@.len() >= 6,
            16 * i + 6 <= ico@.len(),
            i <= entries_read(ico@),
            (best_off as nat, best_size as nat) == best_image(ico@, i as nat),
            best_size > 0 ==> best_off + best_size <= ico@.len(),
            best_size == 0 ==> best_off == 6,
        ensures
            i == entries_read(ico@),
            (best_off as nat, best_size as nat) == best_image(ico@, i as nat),
            best_size > 0 ==> best_off + best_size <= ico@.len(),
        decreases count - i,
    {
        let entry = 6 + i * 16;
        if entry + 16 > ico.len() {
            assert(entries_read(ico@) == i) by (nonlinear_arith)
                requires
                    entry == 6 + i * 16,
                    entry + 16 > ico@.len(),
                    16 * i + 6 <= ico@.len(),
                    i <= entries_read(ico@),
                    entries_read(ico@) <= (ico@.len() - 6) / 16,
            ;
            break;
        }
        let size = read_le_u32(ico, entry + 8);
        let offset = read_le_u32(ico, entry + 12);
        if size > best_size && offset + size <= ico.len() as u64 {
            best_off = offset;
            best_size = size;
        }
        i += 1;
        assert(16 * i + 6 <= ico@.len());
    }
    (best_off as usize, best_size as usize)
}

} // verus!
