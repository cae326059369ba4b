use vstd::prelude::*;

use crate::vec3::{Color, IVec3};

verus! {

/// The four bytes of `v`'s two's-complement word, least significant first.
pub open spec fn le_bytes(v: i32) -> Seq<u8> {
    let u = v as u32;
    seq![u as u8, (u >> 8u32) as u8, (u >> 16u32) as u8, (u >> 24u32) as u8]
}

/// One Pearson round over the bytes `a`, `b`, `c`.
pub open spec fn pearson_step(t: Seq<u8>, h: u8, a: u8, b: u8, c: u8) -> u8 {
    let h1 = t[(h ^ a) as int];
    let h2 = t[(h1 ^ b) as int];
    t[(h2 ^ c) as int]
}

/// The hash after the first `n` of the 64 rounds, one for every choice of an
/// x byte, a y byte and a z byte (z varying fastest), starting from `h0`.
pub open spec fn pearson_chain(t: Seq<u8>, h0: u8, xs: Seq<u8>, ys: Seq<u8>, zs: Seq<u8>, n: int) -> u8
    decreases n,
{
    if n <= 0 {
        h0
    } else {
        let k = n - 1;
        pearson_step(t, pearson_chain(t, h0, xs, ys, zs, k), xs[k / 16], ys[(k / 4) % 4], zs[k % 4])
    }
}

/// A colour for `pos` by Pearson hashing its coordinate bytes through the
/// byte permutation `table`, once per channel with seeds 1, 2 and 3.
pub open spec fn pearson_color(pos: IVec3, t: Seq<u8>) -> Color {
    let xs = le_bytes(pos.x);
    let ys = le_bytes(pos.y);
    let zs = le_bytes(pos.z);
    Color {
        r: pearson_chain(t, 1, xs, ys, zs, 64),
        g: pearson_chain(t, 2, xs, ys, zs, 64),
        b: pearson_chain(t, 3, xs, ys, zs, 64),
    }
}

fn bytes_of(v: i32) -> (r: [u8; 4])
    ensures
        r@ == le_bytes(v),
{
    let u = v as u32;
    let r = [u as u8, (u >> 8u32) as u8, (u >> 16u32) as u8, (u >> 24u32) as u8];
    assert(r@ =~= le_bytes(v));
    r
}

/// Pearson hash of a position into a colour (see `pearson_color`).
pub fn pearson_hash(pos: IVec3, table: &[u8; 256]) -> (c: Color)
    ensures
        c == pearson_color(pos, table@),
{
    let xs = bytes_of(pos.x);
    let ys = bytes_of(pos.y);
    let zs = bytes_of(pos.z);
    let ghost t = table@;
    let mut r: u8 = 1;
    let mut g: u8 = 2;
    let mut b: u8 = 3;
    let mut i: usize = 0;
    while i < 4
        invariant
            i <= 4,
            t == table@,
            r == pearson_chain(t, 1, xs@, ys@, zs@, 16 * i),
            g == pearson_chain(t, 2, xs@, ys@, zs@, 16 * i),
            b == pearson_chain(t, 3, xs@, ys@, zs@, 16 * i),
        decreases 4 - i,
    {
        let mut j: usize = 0;
        while j < 4
            invariant
                i < 4,
                j <= 4,
                t == table@,
                r == pearson_chain(t, 1, xs@, ys@, zs@, 16 * i + 4 * j),
                g == pearson_chain(t, 2, xs@, ys@, zs@, 16 * i + 4 * j),
                b == pearson_chain(t, 3, xs@, ys@, zs@, 16 * i + 4 * j),
            decreases 4 - j,
        {
            let mut k: usize = 0;
            while k < 4
                invariant
                    i < 4,
                    j < 4,
                    k <= 4,
                    t == table@,
                    r == pearson_chain(t, 1, xs@, ys@, zs@, 16 * i + 4 * j + k),
                    g == pearson_chain(t, 2, xs@, ys@, zs@, 16 * i + 4 * j + k),
                    b == pearson_chain(t, 3, xs@, ys@, zs@, 16 * i + 4 * j + k),
                decreases 4 - k,
            {
                let x = xs[i];
                let y = ys[j];
                let z = zs[k];
                let n = 16 * i + 4 * j + k;
                assert(n / 16 == i && (n / 4) % 4 == j && n % 4 == k);
                r = table[(r ^ x) as usize];
                r = table[(r ^ y) as usize];
                r = table[(r ^ z) as usize];
                g = table[(g ^ x) as usize];
                g = table[(g ^ y) as usize];
                g = table[(g ^ z) as usize];
                b = table[(b ^ x) as usize];
                b = table[(b ^ y) as usize];
                b = table[(b ^ z) as usize];
                k = k + 1;
            }
            j = j + 1;
        }
        i = i + 1;
    }
    Color { r, g, b }
}

} // verus!
