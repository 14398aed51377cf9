//! The pixel buffer of the system-tray icon: a solid, fully opaque blue
//! square, written as RGBA bytes. The display glue hands this buffer to
//! the tray library.

use vstd::prelude::*;

verus! {

/// The byte at offset `b` of the icon buffer: the fixed blue tone,
/// channel by channel.
pub open spec fn icon_byte(b: int) -> u8 {
    if b % 4 == 0 {
        60
    } else if b % 4 == 1 {
        120
    } else if b % 4 == 2 {
        216
    } else {
        255
    }
}

/// The RGBA buffer of a `size` by `size` icon in the fixed blue tone.
pub fn icon_rgba(size: u32) -> (v: Vec<u8>)
    requires
        size <= 4096,
    ensures
        v@.len() == 4 * (size as int) * (size as int),
        forall|b: int| 0 <= b < v@.len() ==> v@[b] == icon_byte(b),
{
    let side = size as usize;
    proof {
        assert(side * side <= 4096 * 4096) by (nonlinear_arith)
            requires
                side <= 4096,
        ;
    }
    let n = side * side;
    let mut v: Vec<u8> = Vec::new();
    let mut i: usize = 0;
    while i < n
        invariant
            n == side * side,
            n <= 4096 * 4096,
            0 <= i <= n,
            v@.len() == 4 * i,
            forall|b: int| 0 <= b < v@.len() ==> v@[b] == icon_byte(b),
        decreases n - i,
    {
        v.push(60);
        v.push(120);
        v.push(216);
        v.push(255);
        proof {
            let base = 4 * (i as int);
            assert(base % 4 == 0 && (base + 1) % 4 == 1 && (base + 2) % 4 == 2 && (base + 3) % 4
                == 3) by (nonlinear_arith)
                requires
                    base == 4 * (i as int),
            ;
            assert forall|b: int| 0 <= b < v@.len() implies v@[b] == icon_byte(b) by {
                if b < base {
                } else {
                    assert(b == base || b == base + 1 || b == base + 2 || b == base + 3);
                }
            }
        }
        i += 1;
    }
    proof {
        assert(4 * (side * side) == 4 * (size as int) * (size as int)) by (nonlinear_arith)
            requires
                side == size as int,
        ;
    }
    v
}

} // verus!
