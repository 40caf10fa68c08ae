//! The framing of memory-mapped snapshot files: an 8-byte magic number,
//! the payload length as 8 little-endian bytes, then the payload.
use vstd::prelude::*;
use crate::text::{dec, u64_to_string};

verus! {

/// The bytes before the payload.
pub const HEADER_LEN: usize = 16;

/// `HOLOMM01`.
pub open spec fn magic() -> Seq<u8> {
    seq![72u8, 79u8, 76u8, 79u8, 77u8, 77u8, 48u8, 49u8]
}

/// `x` as `n` little-endian bytes (the lowest byte first).
pub open spec fn le_bytes(x: nat, n: nat) -> Seq<u8>
    decreases n,
{
    if n == 0 {
        Seq::empty()
    } else {
        seq![(x % 256) as u8] + le_bytes(x / 256, (n - 1) as nat)
    }
}

/// The number written by little-endian bytes.
pub open spec fn le_value(s: Seq<u8>) -> nat
    decreases s.len(),
{
    if s.len() == 0 {
        0
    } else {
        (s[0] + 256 * le_value(s.drop_first())) as nat
    }
}

/// Bytes as `Debug` lists them: `[a, b, c]`.
pub open spec fn byte_list(s: Seq<u8>) -> Seq<char> {
    "["@ + byte_items(s) + "]"@
}

pub open spec fn byte_items(s: Seq<u8>) -> Seq<char>
    decreases s.len(),
{
    if s.len() == 0 {
        Seq::empty()
    } else if s.len() == 1 {
        dec(s[0] as nat)
    } else {
        byte_items(s.drop_last()) + ", "@ + dec(s.last() as nat)
    }
}

/// Why a file is not a snapshot.
#[derive(Debug, Clone)]
pub enum FrameError {
    FileTooSmall { expected: usize, actual: usize },
    InvalidFormat(String),
}

/// The header for a payload of `payload_len` bytes.
pub fn frame_header(payload_len: u64) -> (r: Vec<u8>)
    ensures
        r@ == magic() + le_bytes(payload_len as nat, 8),
{
    let mut h: Vec<u8> = vec![72u8, 79u8, 76u8, 79u8, 77u8, 77u8, 48u8, 49u8];
    let mut x: u64 = payload_len;
    let mut k: usize = 0;
    assert(h@ == magic());
    while k < 8
        invariant
            k <= 8,
            h@ == magic() + le_bytes(payload_len as nat, k as nat) ,
            le_bytes(payload_len as nat, 8) == le_bytes(payload_len as nat, k as nat) + le_bytes(x as nat, (8 - k) as nat),
        decreases 8 - k,
    {
        let b = (x % 256) as u8;
        proof {
            lemma_le_bytes_split(payload_len as nat, k as nat, x as nat);
        }
        h.push(b);
        x = x / 256;
        k = k + 1;
    }
    proof {
        assert(le_bytes(x as nat, 0) == Seq::<u8>::empty());
        assert(le_bytes(payload_len as nat, 8) == le_bytes(payload_len as nat, 8) + Seq::<u8>::empty());
    }
    h
}

pub(crate) proof fn lemma_le_bytes_split(v: nat, k: nat, x: nat)
    requires
        k < 8,
        le_bytes(v, 8) == le_bytes(v, k) + le_bytes(x, (8 - k) as nat),
    ensures
        le_bytes(v, 8) == le_bytes(v, k + 1) + le_bytes(x / 256, (8 - k - 1) as nat),
        le_bytes(v, k + 1) == le_bytes(v, k).push((x % 256) as u8),
{
    lemma_le_step(v, k, x);
}

proof fn lemma_le_step(v: nat, k: nat, x: nat)
    requires
        k < 8,
        le_bytes(v, 8) == le_bytes(v, k) + le_bytes(x, (8 - k) as nat),
    ensures
        le_bytes(v, 8) == le_bytes(v, k + 1) + le_bytes(x / 256, (8 - k - 1) as nat),
        le_bytes(v, k + 1) == le_bytes(v, k).push((x % 256) as u8),
{
    let t = le_bytes(x, (8 - k) as nat);
    assert(t == seq![(x % 256) as u8] + le_bytes(x / 256, (8 - k - 1) as nat));
    lemma_le_prefix_len(v, k);
    lemma_le_prefix_len(v, k + 1);
    lemma_le_bytes_prefix(v, k + 1, 8);
    lemma_le_bytes_prefix(v, k, k + 1);
    let a = le_bytes(v, 8);
    assert(a.take(k as int) == le_bytes(v, k));
    assert(a[k as int] == (x % 256) as u8);
    assert(le_bytes(v, k + 1) =~= a.take(k as int + 1));
    assert(a.take(k as int + 1) =~= le_bytes(v, k).push((x % 256) as u8));
    assert(a =~= a.take(k as int + 1) + le_bytes(x / 256, (8 - k - 1) as nat));
}

proof fn lemma_le_prefix_len(v: nat, n: nat)
    ensures
        le_bytes(v, n).len() == n,
    decreases n,
{
    if n > 0 {
        lemma_le_prefix_len(v / 256, (n - 1) as nat);
    }
}

/// Writing fewer bytes gives a prefix.
proof fn lemma_le_bytes_prefix(v: nat, m: nat, n: nat)
    requires
        m <= n,
    ensures
        le_bytes(v, n).take(m as int) == le_bytes(v, m),
    decreases m,
{
    lemma_le_prefix_len(v, n);
    lemma_le_prefix_len(v, m);
    if m > 0 {
        lemma_le_bytes_prefix(v / 256, (m - 1) as nat, (n - 1) as nat);
        assert(le_bytes(v, n).take(m as int) =~= seq![(v % 256) as u8] + le_bytes(v / 256, (n - 1) as nat).take(m - 1));
    } else {
        assert(le_bytes(v, n).take(0) =~= Seq::<u8>::empty());
    }
}

/// Bytes listed as `Debug` does.
fn list_bytes(s: &[u8], start: usize, end: usize) -> (r: String)
    requires
        start <= end <= s@.len(),
    ensures
        r@ == byte_list(s@.subrange(start as int, end as int)),
{
    let mut out = String::from_str("[");
    let mut i = start;
    while i < end
        invariant
            start <= i <= end <= s@.len(),
            out@ == "["@ + byte_items(s@.subrange(start as int, i as int)),
        decreases end - i,
    {
        let ghost before = out@;
        if i > start {
            out.append(", ");
        }
        out.append(u64_to_string(s[i] as u64).as_str());
        proof {
            let p = s@.subrange(start as int, i + 1);
            assert(p.drop_last() == s@.subrange(start as int, i as int));
            assert(p.last() == s@[i as int]);
            if i > start {
                assert(out@ == ("["@ + byte_items(s@.subrange(start as int, i as int))) + ", "@ + dec(s@[i as int] as nat));
                assert(out@ =~= "["@ + byte_items(p));
            } else {
                assert(p.len() == 1);
                assert(out@ =~= "["@ + byte_items(p));
            }
        }
        i = i + 1;
    }
    out.append("]");
    out
}

/// The number in 8 little-endian bytes from `start`.
pub(crate) fn read_le64(s: &[u8], start: usize) -> (r: u64)
    requires
        start + 8 <= s@.len(),
    ensures
        r == le_value(s@.subrange(start as int, start + 8)),
{
    let n = s.len();
    let mut v: u64 = 0;
    let mut k: usize = 8;
    while k > 0
        invariant
            0 <= k <= 8,
            n == s@.len(),
            start + 8 <= n,
            v == le_value(s@.subrange(start + k, start + 8)),
            v < pow256((8 - k) as nat),
        decreases k,
    {
        k = k - 1;
        let b = s[start + k];
        proof {
            let t = s@.subrange(start + k, start + 8);
            assert(t.drop_first() == s@.subrange(start + k + 1, start + 8));
            assert(t[0] == b);
            lemma_pow256_step((8 - k - 1) as nat);
            assert(v * 256 + b < pow256((8 - k) as nat)) by (nonlinear_arith)
                requires
                    v < pow256((8 - k - 1) as nat),
                    pow256((8 - k) as nat) == 256 * pow256((8 - k - 1) as nat),
                    b < 256,
            ;
            lemma_pow256_bound((8 - k) as nat);
        }
        v = v * 256 + b as u64;
    }
    v
}

pub open spec fn pow256(n: nat) -> nat
    decreases n,
{
    if n == 0 { 1 } else { 256 * pow256((n - 1) as nat) }
}

proof fn lemma_pow256_step(n: nat)
    ensures
        pow256(n + 1) == 256 * pow256(n),
{
}

proof fn lemma_pow256_bound(n: nat)
    requires
        n <= 8,
    ensures
        pow256(n) <= 0x1_0000_0000_0000_0000,
    decreases n,
{
    if n > 0 {
        lemma_pow256_bound((n - 1) as nat);
        assert(pow256(n) == 256 * pow256((n - 1) as nat));
        if n < 8 {
            lemma_pow256_small((n - 1) as nat);
        }
        reveal_with_fuel(pow256, 9);
    }
}

proof fn lemma_pow256_small(n: nat)
    requires
        n < 7,
    ensures
        pow256(n) <= 0x1_0000_0000_0000,
    decreases n,
{
    reveal_with_fuel(pow256, 8);
    if n > 0 {
        lemma_pow256_small((n - 1) as nat);
    }
}

/// Checks a snapshot file's bytes and gives the payload length: too small
/// for the header; wrong magic number (with both listed); or a length
/// running past the end (with the size needed).
pub fn check_frame(bytes: &[u8]) -> (r: Result<usize, FrameError>)
    requires
        bytes@.len() >= 16 && bytes@.take(8) == magic()
            && (le_value(bytes@.subrange(8, 16)) as usize) > bytes@.len() - 16
            ==> (le_value(bytes@.subrange(8, 16)) as usize) <= usize::MAX - 16,
    ensures
        bytes@.len() < 16 ==> (r matches Err(FrameError::FileTooSmall { expected, actual })
            && expected == 16 && actual == bytes@.len()),
        bytes@.len() >= 16 && bytes@.take(8) != magic() ==> (r matches Err(FrameError::InvalidFormat(m))
            && m@ == "魔数不匹配: 期望"@ + byte_list(magic()) + ", 实际"@ + byte_list(bytes@.take(8))),
        bytes@.len() >= 16 && bytes@.take(8) == magic() ==> {
            let d = le_value(bytes@.subrange(8, 16)) as usize;
            if d > bytes@.len() - 16 {
                (r matches Err(FrameError::FileTooSmall { expected, actual }) && expected == 16 + d && actual == bytes@.len())
            } else {
                r == Ok::<usize, FrameError>(d)
            }
        },
{
    let n = bytes.len();
    if n < HEADER_LEN {
        return Err(FrameError::FileTooSmall { expected: HEADER_LEN, actual: n });
    }
    let mut same = true;
    let mut i: usize = 0;
    let m: [u8; 8] = [72u8, 79u8, 76u8, 79u8, 77u8, 77u8, 48u8, 49u8];
    assert(m@ == magic());
    assert(bytes@.take(0) =~= magic().take(0));
    while i < 8
        invariant
            i <= 8,
            n == bytes@.len(),
            n >= 16,
            m@ == magic(),
            same == (bytes@.take(i as int) == magic().take(i as int)),
        decreases 8 - i,
    {
        proof {
            assert(bytes@.take(i + 1) == bytes@.take(i as int).push(bytes@[i as int]));
            assert(magic().take(i + 1) == magic().take(i as int).push(magic()[i as int]));
            if bytes@.take(i as int) != magic().take(i as int) {
                assert(bytes@.take(i + 1) != magic().take(i + 1)) by {
                    if bytes@.take(i + 1) == magic().take(i + 1) {
                        assert(bytes@.take(i + 1).drop_last() == bytes@.take(i as int));
                        assert(magic().take(i + 1).drop_last() == magic().take(i as int));
                    }
                }
            }
        }
        if bytes[i] != m[i] {
            same = false;
            assert(bytes@.take(i + 1)[i as int] != magic().take(i + 1)[i as int]);
        }
        i = i + 1;
    }
    assert(magic().take(8) == magic());
    if !same {
        let mut msg = String::from_str("魔数不匹配: 期望");
        msg.append(list_bytes(&m, 0, 8).as_str());
        msg.append(", 实际");
        msg.append(list_bytes(bytes, 0, 8).as_str());
        assert(m@.subrange(0, 8) == magic());
        assert(bytes@.subrange(0, 8) == bytes@.take(8));
        return Err(FrameError::InvalidFormat(msg));
    }
    let d = read_le64(bytes, 8) as usize;
    if d > n - HEADER_LEN {
        return Err(FrameError::FileTooSmall { expected: HEADER_LEN + d, actual: n });
    }
    Ok(d)
}

} // verus!
