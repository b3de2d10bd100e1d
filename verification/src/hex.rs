//! Lowercase hexadecimal rendering and parsing of 64-bit hashes.
//!
//! Hashes cross the boundary to the external builder as 16-digit lowercase
//! hex strings: they are injected into the build environment and read back
//! from artifact records.  Parsing is exact: anything that is not 16 hex
//! digits is rejected.

use vstd::prelude::*;

verus! {

/// Whether `b` is an ASCII hex digit as this crate writes and accepts them:
/// `0`-`9` or lowercase `a`-`f`.
pub open spec fn is_hex_digit(b: u8) -> bool {
    (48 <= b && b <= 57) || (97 <= b && b <= 102)
}

/// Numeric value of a hex digit byte.
pub open spec fn hex_val(b: u8) -> int {
    if 48 <= b && b <= 57 {
        b - 48
    } else {
        b - 97 + 10
    }
}

/// Hex digit byte for a value in `0..16`.
pub open spec fn hex_digit_of(v: int) -> u8 {
    if v < 10 {
        (48 + v) as u8
    } else {
        (97 + (v - 10)) as u8
    }
}

/// Digit `i` (most significant first) of the 16-digit rendering of `h`.
pub open spec fn nibble(h: u64, i: int) -> u64 {
    (h >> ((60 - 4 * i) as u64)) & 0xf
}

/// The canonical 16-digit lowercase hex rendering of `h`.
pub open spec fn hex64(h: u64) -> Seq<u8> {
    Seq::new(16, |i: int| hex_digit_of(nibble(h, i) as int))
}

/// The integer a hex digit string denotes (most significant digit first).
pub open spec fn hex_value(s: Seq<u8>) -> int
    decreases s.len(),
{
    if s.len() == 0 {
        0
    } else {
        hex_value(s.drop_last()) * 16 + hex_val(s.last())
    }
}

/// Whether every byte of `s` is a hex digit.
pub open spec fn all_hex_digits(s: Seq<u8>) -> bool {
    forall|i: int| 0 <= i < s.len() ==> is_hex_digit(#[trigger] s[i])
}

/// Renders `h` as exactly 16 lowercase hex digits, most significant first.
pub fn hex_encode(h: u64) -> (r: Vec<u8>)
    ensures
        r@ =~= hex64(h),
        r@.len() == 16,
{
    let mut out: Vec<u8> = Vec::new();
    let mut i: usize = 0;
    while i < 16
        invariant
            i <= 16,
            out@.len() == i,
            forall|k: int| 0 <= k < i ==> out@[k] == hex64(h)[k],
        decreases 16 - i,
    {
        let shift: u64 = (60 - 4 * (i as u64)) as u64;
        let v: u64 = (h >> shift) & 0xf;
        proof {
            assert((h >> shift) & 0xf < 16) by (bit_vector);
            assert(v == nibble(h, i as int));
        }
        let d: u8 = if v < 10 {
            (48 + v) as u8
        } else {
            (97 + (v - 10)) as u8
        };
        out.push(d);
        i = i + 1;
    }
    out
}

/// `16^k` for the bound on the decode accumulator.
pub open spec fn pow16(k: int) -> int
    decreases k,
{
    if k <= 0 {
        1
    } else {
        16 * pow16(k - 1)
    }
}

/// `16^k` fits a u64 (with one slack step) for `k <= 16`.
proof fn lemma_pow16_le(k: int)
    requires
        0 <= k <= 16,
    ensures
        pow16(k) <= u64::MAX as int + 1,
        pow16(k) >= 1,
    decreases 16 - k,
{
    if k < 16 {
        lemma_pow16_le(k + 1);
        assert(pow16(k + 1) == 16 * pow16(k));
    } else {
        assert(pow16(0) == 1);
        assert(pow16(1) == 16);
        assert(pow16(2) == 0x100);
        assert(pow16(3) == 0x1000);
        assert(pow16(4) == 0x10000);
        assert(pow16(5) == 0x100000);
        assert(pow16(6) == 0x1000000);
        assert(pow16(7) == 0x10000000);
        assert(pow16(8) == 0x100000000);
        assert(pow16(9) == 0x1000000000);
        assert(pow16(10) == 0x10000000000);
        assert(pow16(11) == 0x100000000000);
        assert(pow16(12) == 0x1000000000000);
        assert(pow16(13) == 0x10000000000000);
        assert(pow16(14) == 0x100000000000000);
        assert(pow16(15) == 0x1000000000000000);
        assert(pow16(16) == u64::MAX as int + 1);
    }
}

/// The value of a hex string of digits is below `16^len`.
proof fn lemma_hex_value_bound(s: Seq<u8>)
    requires
        all_hex_digits(s),
    ensures
        0 <= hex_value(s) < pow16(s.len() as int),
    decreases s.len(),
{
    if s.len() > 0 {
        assert(all_hex_digits(s.drop_last())) by {
            assert(forall|i: int|
                0 <= i < s.len() - 1 ==> s.drop_last()[i] == #[trigger] s[i]);
        }
        lemma_hex_value_bound(s.drop_last());
        assert(pow16(s.len() as int) == 16 * pow16(s.len() - 1));
        assert(0 <= hex_val(s.last()) < 16);
    }
}

/// Parses exactly 16 lowercase hex digits into the hash they denote.
/// Returns `None` for any other input: wrong length or a non-digit byte.
pub fn hex_decode(s: &Vec<u8>) -> (r: Option<u64>)
    ensures
        r is Some <==> (s@.len() == 16 && all_hex_digits(s@)),
        r is Some ==> r.unwrap() as int == hex_value(s@),
{
    if s.len() != 16 {
        return None;
    }
    let mut acc: u64 = 0;
    let mut i: usize = 0;
    while i < s.len()
        invariant
            i <= s.len(),
            s@.len() == 16,
            acc as int == hex_value(s@.take(i as int)),
            forall|k: int| 0 <= k < i ==> is_hex_digit(#[trigger] s@[k]),
        decreases s.len() - i,
    {
        let b: u8 = s[i];
        let v: u64;
        if 48 <= b && b <= 57 {
            v = (b - 48) as u64;
        } else if 97 <= b && b <= 102 {
            v = (b - 97) as u64 + 10;
        } else {
            return None;
        }
        proof {
            let pre = s@.take(i as int);
            let cur = s@.take(i + 1);
            assert(cur.drop_last() =~= pre);
            assert(cur.last() == s@[i as int]);
            assert(all_hex_digits(cur)) by {
                assert(forall|k: int| 0 <= k < cur.len() ==> cur[k] == #[trigger] s@[k]);
            }
            lemma_hex_value_bound(cur);
            lemma_pow16_le(i + 1);
        }
        acc = acc * 16 + v;
        i = i + 1;
    }
    proof {
        assert(s@.take(16) =~= s@);
    }
    Some(acc)
}

} // verus!
