use vstd::prelude::*;

use crate::error::{Error, ErrorKind};

verus! {

/// LEB128 encoding of `v`: seven bits per byte, low bits first, the high bit
/// set on every byte but the last.
pub open spec fn var_bytes(v: nat) -> Seq<u8>
    decreases v,
{
    if v < 128 {
        seq![v as u8]
    } else {
        seq![(v % 128 + 128) as u8] + var_bytes(v / 128)
    }
}

/// Encoding of a byte string: its length as a varint, then its bytes.
pub open spec fn string_bytes(s: Seq<u8>) -> Seq<u8> {
    var_bytes(s.len()) + s
}

/// Bound on what `d` more bytes of a varint can hold.
pub open spec fn var_cap(d: int) -> int
    decreases d,
{
    if d <= 0 {
        1
    } else {
        128 * var_cap(d - 1)
    }
}

/// Reads the varint whose byte `k` (of at most `n`) is at `p + k`: the value
/// of bytes `k..` and the position past the last one.
pub open spec fn var_dec(s: Seq<u8>, p: int, k: int, n: int) -> Option<(int, int)>
    decreases n - k,
{
    if k >= n || p + k < 0 || p + k >= s.len() {
        None
    } else if s[p + k] < 128 {
        Some((s[p + k] as int, p + k + 1))
    } else {
        match var_dec(s, p, k + 1, n) {
            Some((rest, e)) => Some((s[p + k] - 128 + 128 * rest, e)),
            None => None,
        }
    }
}

/// The unsigned 32-bit varint at `p`, where there is one that fits.
pub open spec fn var_u32_at(s: Seq<u8>, p: int) -> Option<(int, int)> {
    match var_dec(s, p, 0, 5) {
        Some((v, e)) => if v <= u32::MAX {
            Some((v, e))
        } else {
            None
        },
        None => None,
    }
}

/// The unsigned 64-bit varint at `p`, where there is one that fits.
pub open spec fn var_u64_at(s: Seq<u8>, p: int) -> Option<(int, int)> {
    match var_dec(s, p, 0, 10) {
        Some((v, e)) => if v <= u64::MAX {
            Some((v, e))
        } else {
            None
        },
        None => None,
    }
}

proof fn lemma_var_cap(d: int)
    requires
        0 <= d <= 10,
    ensures
        1 <= var_cap(d) <= 0x4_0000_0000_0000_0000_0000,
    decreases 10 - d,
{
    reveal_with_fuel(var_cap, 11);
    if d < 10 {
        lemma_var_cap(d + 1);
    }
}

fn read_var(b: &[u8], p: usize, k: usize, n: usize) -> (r: Option<(u128, usize)>)
    requires
        k <= n <= 10,
    ensures
        match var_dec(b@, p as int, k as int, n as int) {
            None => r is None,
            Some((v, e)) => r matches Some((rv, re)) && rv == v && re == e,
        },
        r matches Some((rv, _)) ==> rv < var_cap(n - k),
    decreases n - k,
{
    if k >= n || p >= b.len() || k >= b.len() - p {
        return None;
    }
    let byte = b[p + k];
    if byte < 128 {
        proof {
            lemma_var_cap(n - k);
        }
        return Some((byte as u128, p + k + 1));
    }
    match read_var(b, p, k + 1, n) {
        Some((rest, e)) => {
            proof {
                lemma_var_cap(n - k - 1);
                lemma_var_cap(n - k);
            }
            Some(((byte - 128) as u128 + 128 * rest, e))
        },
        None => None,
    }
}

fn malformed(msg: &str) -> (r: Error)
    ensures
        r.spec_kind() == ErrorKind::Malformed,
{
    Error::new(ErrorKind::Malformed, msg.to_owned())
}

/// Reads an unsigned 32-bit varint at `p`; returns it with the position past
/// it. Fails with `Malformed` on a truncated or overlong varint.
pub fn read_var_u32(b: &[u8], p: usize) -> (r: Result<(u32, usize), Error>)
    ensures
        match var_u32_at(b@, p as int) {
            None => r matches Err(e) && e.spec_kind() == ErrorKind::Malformed,
            Some((v, e)) => r matches Ok((rv, re)) && rv == v && re == e,
        },
{
    match read_var(b, p, 0, 5) {
        Some((v, e)) => {
            if v <= u32::MAX as u128 {
                Ok((v as u32, e))
            } else {
                Err(malformed("varint too large"))
            }
        },
        None => Err(malformed("truncated varint")),
    }
}

/// Reads an unsigned 64-bit varint at `p`; returns it with the position past
/// it. Fails with `Malformed` on a truncated or overlong varint.
pub fn read_var_u64(b: &[u8], p: usize) -> (r: Result<(u64, usize), Error>)
    ensures
        match var_u64_at(b@, p as int) {
            None => r matches Err(e) && e.spec_kind() == ErrorKind::Malformed,
            Some((v, e)) => r matches Ok((rv, re)) && rv == v && re == e,
        },
{
    match read_var(b, p, 0, 10) {
        Some((v, e)) => {
            if v <= u64::MAX as u128 {
                Ok((v as u64, e))
            } else {
                Err(malformed("varint too large"))
            }
        },
        None => Err(malformed("truncated varint")),
    }
}

/// Appends the varint encoding of `v`.
pub fn write_var_u64(buf: &mut Vec<u8>, v: u64)
    ensures
        final(buf)@ == old(buf)@ + var_bytes(v as nat),
{
    let mut x: u64 = v;
    while x >= 128
        invariant
            buf@ + var_bytes(x as nat) == old(buf)@ + var_bytes(v as nat),
        decreases x,
    {
        let ghost before = buf@;
        buf.push((x % 128 + 128) as u8);
        proof {
            assert(var_bytes(x as nat) == seq![(x % 128 + 128) as u8] + var_bytes((x / 128) as nat));
            assert(buf@ + var_bytes((x / 128) as nat) =~= before + var_bytes(x as nat));
        }
        x = x / 128;
    }
    buf.push(x as u8);
    assert(buf@ =~= old(buf)@ + var_bytes(v as nat));
}

/// Appends the varint encoding of `v`.
pub fn write_var_u32(buf: &mut Vec<u8>, v: u32)
    ensures
        final(buf)@ == old(buf)@ + var_bytes(v as nat),
{
    write_var_u64(buf, v as u64);
}

/// Appends `s` as a length-prefixed byte string.
pub fn write_bytes(buf: &mut Vec<u8>, s: &[u8])
    requires
        s@.len() <= u32::MAX,
    ensures
        final(buf)@ == old(buf)@ + string_bytes(s@),
{
    write_var_u32(buf, s.len() as u32);
    let ghost mid = buf@;
    let mut i: usize = 0;
    while i < s.len()
        invariant
            i <= s@.len(),
            buf@ == mid + s@.take(i as int),
        decreases s@.len() - i,
    {
        buf.push(s[i]);
        i = i + 1;
        assert(buf@ =~= mid + s@.take(i as int));
    }
    assert(s@.take(s@.len() as int) =~= s@);
    assert(buf@ =~= old(buf)@ + string_bytes(s@));
}


} // verus!
