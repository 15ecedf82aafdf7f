//! Columnar bit-packing: up to 256 values are stored bit-plane by bit-plane,
//! one 256-bit row (four words) per bit, most significant plane first.
//! Positions past the input are padded with all-ones values.

use vstd::prelude::*;
use vstd::slice::*;

verus! {

/// Bit `i` of a 256-bit row held as four 64-bit words.
pub open spec fn plane_bit(row: Seq<u64>, i: int) -> bool
    recommends
        row.len() == 4,
        0 <= i < 256,
{
    (row[i / 64] >> ((i % 64) as u64)) & 1 == 1
}

/// Bit `j` of a value.
pub open spec fn val_bit(v: usize, j: u64) -> bool {
    ((v as u64) >> j) & 1u64 == 1
}

/// The value packed at position `i`: the input there, or all-ones padding
/// past its end.
pub open spec fn padded_value(s: Seq<usize>, i: int) -> usize {
    if 0 <= i < s.len() {
        s[i]
    } else {
        usize::MAX
    }
}

/// Setting one bit of a word leaves every other bit alone; the set bit
/// becomes the OR of what was there and the new bit.
proof fn lemma_or_bit(word: u64, b: u64, s: u64, t: u64)
    by (bit_vector)
    requires
        b <= 1,
        s < 64,
        t < 64,
    ensures
        t == s ==> ((((word | (b << s)) >> t) & 1 == 1) <==> ((word >> t) & 1 == 1 || b == 1)),
        t != s ==> ((word | (b << s)) >> t) & 1 == (word >> t) & 1,
{
}

/// A masked low bit is zero or one.
proof fn lemma_low_bit(v: u64, j: u64)
    by (bit_vector)
    ensures
        (v >> j) & 1 == 0 || (v >> j) & 1 == 1,
{
}

/// OR each value's bits into the planes: after the call, bit `i` of plane
/// row `r` (which holds value bit `len - 1 - r`) is what it was, OR the
/// corresponding bit of the value packed at position `i`. Rows keep their
/// count; input positions past 255 do not exist, and positions past the
/// input's end pack all-ones.
pub fn pack(dest: &mut [[u64; 4]], src: &[usize])
    requires
        src@.len() <= 256,
        old(dest)@.len() <= 64,
        forall|i: int| 0 < i < src@.len() ==> src@[i - 1] <= #[trigger] src@[i],
        forall|i: int, j: u64|
            0 <= i < src@.len() && old(dest)@.len() <= j < 64 ==> !(#[trigger] val_bit(
                src@[i],
                j,
            )),
    ensures
        final(dest)@.len() == old(dest)@.len(),
        forall|r: int, i: int|
            0 <= r < old(dest)@.len() && 0 <= i < 256 ==> #[trigger] plane_bit(
                final(dest)@[r]@,
                i,
            ) == (plane_bit(old(dest)@[r]@, i) || val_bit(
                padded_value(src@, i),
                (old(dest)@.len() - 1 - r) as u64,
            )),
{
    let w = dest.len();
    let n = src.len();
    let mut i: usize = 0;
    while i < 256
        invariant
            w == dest@.len() == old(dest)@.len(),
            n == src@.len() <= 256,
            w <= 64,
            i <= 256,
            forall|r: int, ii: int|
                0 <= r < w && 0 <= ii < i ==> #[trigger] plane_bit(dest@[r]@, ii) == (plane_bit(
                    old(dest)@[r]@,
                    ii,
                ) || val_bit(padded_value(src@, ii), (w - 1 - r) as u64)),
            forall|r: int, ii: int|
                0 <= r < w && i <= ii < 256 ==> #[trigger] plane_bit(dest@[r]@, ii) == plane_bit(
                    old(dest)@[r]@,
                    ii,
                ),
        decreases 256 - i,
    {
        let value: usize = if i < n {
            *slice_index_get(src, i)
        } else {
            usize::MAX
        };
        let wi = i / 64;
        let sh = (i % 64) as u64;
        let ghost snap = dest@;
        let mut r: usize = 0;
        while r < w
            invariant
                w == dest@.len() == snap.len(),
                w <= 64,
                r <= w,
                i < 256,
                wi == i / 64,
                sh == (i % 64) as u64,
                value == padded_value(src@, i as int),
                forall|rr: int| 0 <= rr < w ==> (#[trigger] dest@[rr])@.len() == 4,
                forall|rr: int| r <= rr < w ==> #[trigger] dest@[rr] == snap[rr],
                forall|rr: int, ii: int|
                    0 <= rr < r && 0 <= ii < 256 && ii != i ==> #[trigger] plane_bit(
                        dest@[rr]@,
                        ii,
                    ) == plane_bit(snap[rr]@, ii),
                forall|rr: int|
                    0 <= rr < r ==> #[trigger] plane_bit(dest@[rr]@, i as int) == (plane_bit(
                        snap[rr]@,
                        i as int,
                    ) || val_bit(value, (w - 1 - rr) as u64)),
            decreases w - r,
        {
            let j64 = (w - 1 - r) as u64;
            let v64 = value as u64;
            let b: u64 = (v64 >> j64) & 1;
            proof {
                lemma_low_bit(v64, j64);
            }
            let row: [u64; 4] = *slice_index_get(dest, r);
            let word: u64 = *vstd::array::array_index_get(&row, wi);
            let neww: u64 = word | (b << sh);
            let mut row2: [u64; 4] = row;
            row2[wi] = neww;
            dest[r] = row2;
            proof {
                assert forall|ii: int| 0 <= ii < 256 implies plane_bit(row2@, ii) == if ii == i {
                    (plane_bit(row@, ii) || b == 1)
                } else {
                    plane_bit(row@, ii)
                } by {
                    let t = (ii % 64) as u64;
                    lemma_or_bit(word, b, sh, t);
                    if ii / 64 == wi {
                        if ii != i {
                            assert(ii % 64 != i % 64);
                        }
                        assert(row2@[ii / 64] == neww);
                    } else {
                        assert(row2@[ii / 64] == row@[ii / 64]);
                    }
                }
                assert(b == 1 <==> val_bit(value, j64));
            }
            r += 1;
        }
        proof {
            assert forall|rr: int, ii: int|
                0 <= rr < w && 0 <= ii < i + 1 implies #[trigger] plane_bit(dest@[rr]@, ii) == (
            plane_bit(old(dest)@[rr]@, ii) || val_bit(
                padded_value(src@, ii),
                (w - 1 - rr) as u64,
            )) by {
                if ii < i {
                    assert(plane_bit(dest@[rr]@, ii) == plane_bit(snap[rr]@, ii));
                }
            }
        }
        i += 1;
    }
}

} // verus!
