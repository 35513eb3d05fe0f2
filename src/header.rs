//! The fixed header at the start of a device tree blob: a magic number and
//! the blob's total size, both stored big-endian.

use vstd::prelude::*;

verus! {

/// The magic number that opens every device tree blob.
pub const DTB_MAGIC: u32 = 0xd00d_feed;

/// Number of header bytes read: the magic word and the size word.
pub const HEADER_LEN: usize = 8;

/// The big-endian 32-bit integer stored in `b` at `off .. off + 4`.
pub open spec fn be_u32(b: Seq<u8>, off: int) -> int {
    b[off] as int * 0x100_0000 + b[off + 1] as int * 0x1_0000 + b[off + 2] as int * 0x100
        + b[off + 3] as int
}

/// The magic word of the header held in `b`.
pub open spec fn header_magic(b: Seq<u8>) -> int {
    be_u32(b, 0)
}

/// The total size that the header held in `b` declares.
pub open spec fn header_size(b: Seq<u8>) -> int {
    be_u32(b, 4)
}

/// What validating the header held in `b` yields: the declared size when
/// the magic word is right, nothing otherwise.
pub open spec fn header_result(b: Seq<u8>) -> Option<u32> {
    if header_magic(b) == DTB_MAGIC {
        Some(header_size(b) as u32)
    } else {
        None
    }
}

/// The four big-endian bytes of `x`.
pub open spec fn be_bytes(x: u32) -> Seq<u8> {
    seq![
        (x / 0x100_0000) as u8,
        (x / 0x1_0000 % 0x100) as u8,
        (x / 0x100 % 0x100) as u8,
        (x % 0x100) as u8,
    ]
}

/// The header bytes for a given magic word and size.
pub open spec fn encode_header(magic: u32, size: u32) -> Seq<u8> {
    be_bytes(magic) + be_bytes(size)
}

/// Reads the big-endian 32-bit integer at `off`, whatever the host's own
/// byte order.
pub fn read_be_u32(b: &[u8], off: usize) -> (r: u32)
    requires
        off + 4 <= b@.len(),
    ensures
        r as int == be_u32(b@, off as int),
{
    let b0 = b[off] as u32;
    let b1 = b[off + 1] as u32;
    let b2 = b[off + 2] as u32;
    let b3 = b[off + 3] as u32;
    assert(b0 * 0x100_0000 + b1 * 0x1_0000 + b2 * 0x100 + b3 <= u32::MAX) by (nonlinear_arith)
        requires
            b0 <= 255,
            b1 <= 255,
            b2 <= 255,
            b3 <= 255,
    ;
    b0 * 0x100_0000 + b1 * 0x1_0000 + b2 * 0x100 + b3
}

/// Checks the magic word of the header at the start of `header` and, when it
/// is right, returns the blob size that the header declares.
pub fn validate_and_size(header: &[u8]) -> (r: Option<u32>)
    requires
        header@.len() >= HEADER_LEN,
    ensures
        r == header_result(header@),
        r is Some <==> header_magic(header@) == DTB_MAGIC,
        r matches Some(s) ==> s as int == header_size(header@),
{
    let magic = read_be_u32(header, 0);
    if magic == DTB_MAGIC {
        let size = read_be_u32(header, 4);
        Some(size)
    } else {
        None
    }
}

/// The bytes of a big-endian word read back give the word itself.
pub proof fn lemma_be_round_trip(x: u32)
    ensures
        be_bytes(x).len() == 4,
        be_u32(be_bytes(x), 0) == x,
{
    let b = be_bytes(x);
    assert(b[0] as int == x / 0x100_0000);
    assert(b[1] as int == x / 0x1_0000 % 0x100);
    assert(b[2] as int == x / 0x100 % 0x100);
    assert(b[3] as int == x % 0x100);
    assert((x / 0x100_0000) * 0x100_0000 + (x / 0x1_0000 % 0x100) * 0x1_0000 + (x / 0x100
        % 0x100) * 0x100 + x % 0x100 == x) by (nonlinear_arith)
        requires
            0 <= x <= u32::MAX,
    ;
}

/// A header written big-endian with magic word `magic` and size `size`
/// validates to `Some(size)` exactly when `magic` is the device tree magic
/// number, and to `None` for every other magic word.
pub proof fn lemma_header_validation(magic: u32, size: u32)
    ensures
        encode_header(magic, size).len() == HEADER_LEN,
        header_result(encode_header(magic, size)) == (if magic == DTB_MAGIC {
            Some(size)
        } else {
            None::<u32>
        }),
{
    lemma_be_round_trip(magic);
    lemma_be_round_trip(size);
    let h = encode_header(magic, size);
    assert(h.subrange(0, 4) =~= be_bytes(magic));
    assert(h.subrange(4, 8) =~= be_bytes(size));
    assert(be_u32(h, 0) == be_u32(be_bytes(magic), 0));
    assert(be_u32(h, 4) == be_u32(be_bytes(size), 0));
}

} // verus!
