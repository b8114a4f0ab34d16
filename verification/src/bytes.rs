use vstd::prelude::*;

verus! {

/// Whether `n` bytes starting at `at` lie inside `b`.
pub open spec fn in_range(b: Seq<u8>, at: int, n: int) -> bool {
    0 <= at && 0 <= n && at + n <= b.len()
}

/// The little-endian 16-bit number at `at`.
pub open spec fn le16_at(b: Seq<u8>, at: int) -> u16 {
    (b[at] as int + 256 * (b[at + 1] as int)) as u16
}

/// The little-endian 32-bit number at `at`.
pub open spec fn le32_at(b: Seq<u8>, at: int) -> u32 {
    (b[at] as int + 256 * (b[at + 1] as int) + 65536 * (b[at + 2] as int) + 16777216 * (b[at
        + 3] as int)) as u32
}

/// The big-endian 32-bit number at `at`.
pub open spec fn be32_at(b: Seq<u8>, at: int) -> u32 {
    (b[at + 3] as int + 256 * (b[at + 2] as int) + 65536 * (b[at + 1] as int) + 16777216 * (b[at] as int)) as u32
}

/// The little-endian 64-bit number at `at`.
pub open spec fn le64_at(b: Seq<u8>, at: int) -> u64 {
    (le32_at(b, at) as int + 4294967296 * (le32_at(b, at + 4) as int)) as u64
}

/// The byte at `at`, if there is one.
pub open spec fn byte_opt(b: Seq<u8>, at: int) -> Option<u8> {
    if in_range(b, at, 1) {
        Some(b[at])
    } else {
        None
    }
}

/// The little-endian 16-bit number at `at`, if two bytes are there.
pub open spec fn le16_opt(b: Seq<u8>, at: int) -> Option<u16> {
    if in_range(b, at, 2) {
        Some(le16_at(b, at))
    } else {
        None
    }
}

/// The little-endian 32-bit number at `at`, if four bytes are there.
pub open spec fn le32_opt(b: Seq<u8>, at: int) -> Option<u32> {
    if in_range(b, at, 4) {
        Some(le32_at(b, at))
    } else {
        None
    }
}

/// The `n` bytes at `at`, if they are there.
pub open spec fn bytes_opt(b: Seq<u8>, at: int, n: int) -> Option<Seq<u8>> {
    if in_range(b, at, n) {
        Some(b.subrange(at, at + n))
    } else {
        None
    }
}

/// Reads one byte.
pub fn get_u8(b: &Vec<u8>, at: usize) -> (r: Option<u8>)
    ensures
        r == byte_opt(b@, at as int),
{
    if at < b.len() {
        Some(b[at])
    } else {
        None
    }
}

/// Reads a little-endian 16-bit number.
pub fn get_le16(b: &Vec<u8>, at: usize) -> (r: Option<u16>)
    ensures
        r == le16_opt(b@, at as int),
{
    if b.len() >= 2 && at <= b.len() - 2 {
        let lo: u16 = b[at] as u16;
        let hi: u16 = b[at + 1] as u16;
        Some(lo + 256 * hi)
    } else {
        None
    }
}

/// Reads a little-endian 32-bit number.
pub fn get_le32(b: &Vec<u8>, at: usize) -> (r: Option<u32>)
    ensures
        r == le32_opt(b@, at as int),
{
    if b.len() >= 4 && at <= b.len() - 4 {
        let b0: u32 = b[at] as u32;
        let b1: u32 = b[at + 1] as u32;
        let b2: u32 = b[at + 2] as u32;
        let b3: u32 = b[at + 3] as u32;
        Some(b0 + 256 * b1 + 65536 * b2 + 16777216 * b3)
    } else {
        None
    }
}

/// Reads a little-endian 64-bit number.
pub fn get_le64(b: &Vec<u8>, at: usize) -> (r: Option<u64>)
    ensures
        r == (if in_range(b@, at as int, 8) {
            Some(le64_at(b@, at as int))
        } else {
            None
        }),
{
    if b.len() >= 8 && at <= b.len() - 8 {
        let lo: u64 = match get_le32(b, at) {
            Some(v) => v as u64,
            None => 0,
        };
        let hi: u64 = match get_le32(b, at + 4) {
            Some(v) => v as u64,
            None => 0,
        };
        Some(lo + 4294967296 * hi)
    } else {
        None
    }
}

/// The big-endian 32-bit number that starts a key of at least four bytes.
pub fn get_be32(b: &Vec<u8>, at: usize) -> (r: Option<u32>)
    ensures
        r == (if in_range(b@, at as int, 4) {
            Some(be32_at(b@, at as int))
        } else {
            None
        }),
{
    if b.len() >= 4 && at <= b.len() - 4 {
        let b0: u32 = b[at] as u32;
        let b1: u32 = b[at + 1] as u32;
        let b2: u32 = b[at + 2] as u32;
        let b3: u32 = b[at + 3] as u32;
        Some(b3 + 256 * b2 + 65536 * b1 + 16777216 * b0)
    } else {
        None
    }
}

/// Copies `n` bytes out of `b`.
pub fn get_bytes(b: &Vec<u8>, at: usize, n: usize) -> (r: Option<Vec<u8>>)
    ensures
        match r {
            Some(v) => bytes_opt(b@, at as int, n as int) == Some(v@),
            None => bytes_opt(b@, at as int, n as int) is None,
        },
{
    if at > b.len() || n > b.len() - at {
        return None;
    }
    let mut out: Vec<u8> = Vec::with_capacity(n);
    let mut i: usize = 0;
    while i < n
        invariant
            i <= n,
            at + n <= b.len(),
            out@ == b@.subrange(at as int, at + i),
        decreases n - i,
    {
        out.push(b[at + i]);
        i += 1;
        assert(out@ == b@.subrange(at as int, at + i));
    }
    Some(out)
}

/// The 16-bit number at `at`, which lies inside `b`.
pub fn half_at(b: &Vec<u8>, at: usize) -> (r: u16)
    requires
        at + 2 <= b.len(),
    ensures
        r == le16_at(b@, at as int),
{
    match get_le16(b, at) {
        Some(v) => v,
        None => {
            assert(false);
            0
        },
    }
}

/// The 32-bit number at `at`, which lies inside `b`.
pub fn word_at(b: &Vec<u8>, at: usize) -> (r: u32)
    requires
        at + 4 <= b.len(),
    ensures
        r == le32_at(b@, at as int),
{
    match get_le32(b, at) {
        Some(v) => v,
        None => {
            assert(false);
            0
        },
    }
}

/// The 64-bit number at `at`, which lies inside `b`.
pub fn quad_at(b: &Vec<u8>, at: usize) -> (r: u64)
    requires
        at + 8 <= b.len(),
    ensures
        r == le64_at(b@, at as int),
{
    match get_le64(b, at) {
        Some(v) => v,
        None => {
            assert(false);
            0
        },
    }
}

} // verus!
