//! Numbers and digests among raw bytes.

use vstd::prelude::*;

verus! {

/// The number that four bytes denote, most significant first.
pub open spec fn be32(b: Seq<u8>) -> int {
    b[0] * 0x100_0000 + b[1] * 0x1_0000 + b[2] * 0x100 + b[3]
}

/// The four bytes of a number, most significant first; of a larger number,
/// those of its low 32 bits.
pub open spec fn be_bytes(n: int) -> Seq<u8> {
    seq![
        (n / 0x100_0000 % 0x100) as u8,
        (n / 0x1_0000 % 0x100) as u8,
        (n / 0x100 % 0x100) as u8,
        (n % 0x100) as u8,
    ]
}

/// Reads a number from four bytes, most significant first.
pub fn read_be32(b: &[u8; 4]) -> (n: u32)
    ensures
        n == be32(b@),
{
    b[0] as u32 * 0x100_0000 + b[1] as u32 * 0x1_0000 + b[2] as u32 * 0x100 + b[3] as u32
}

/// The four bytes of the low 32 bits of `n`, most significant first.
pub fn write_be32(n: usize) -> (b: [u8; 4])
    ensures
        b@ == be_bytes(n as int),
{
    let b = [
        (n / 0x100_0000 % 0x100) as u8,
        (n / 0x1_0000 % 0x100) as u8,
        (n / 0x100 % 0x100) as u8,
        (n % 0x100) as u8,
    ];
    assert(b@ =~= be_bytes(n as int));
    b
}

/// A number of 32 bits is read back from its four bytes.
pub proof fn law_be32_of_be_bytes(n: int)
    requires
        0 <= n <= u32::MAX,
    ensures
        be32(be_bytes(n)) == n,
{
}

/// Four bytes are given back by the number they denote.
pub proof fn law_be_bytes_of_be32(b: Seq<u8>)
    requires
        b.len() == 4,
    ensures
        be_bytes(be32(b)) == b,
        0 <= be32(b) <= u32::MAX,
{
    let n = be32(b);
    let (b0, b1, b2, b3) = (b[0] as int, b[1] as int, b[2] as int, b[3] as int);
    assert(n / 0x100_0000 == b0);
    assert(n / 0x1_0000 == b0 * 0x100 + b1);
    assert(n / 0x100 == b0 * 0x1_0000 + b1 * 0x100 + b2);
    assert((b0 * 0x100 + b1) % 0x100 == b1);
    assert((b0 * 0x1_0000 + b1 * 0x100 + b2) % 0x100 == b2);
    assert(n % 0x100 == b3);
    assert(be_bytes(n) =~= b);
}

/// The 20 bytes of `bytes` from `from` on.
pub fn array20(bytes: &[u8], from: usize) -> (a: [u8; 20])
    requires
        from + 20 <= bytes@.len(),
    ensures
        a@ == bytes@.subrange(from as int, from + 20),
{
    let len = bytes.len();
    let mut a = [0u8; 20];
    let mut i: usize = 0;
    while i < 20
        invariant
            i <= 20,
            from + 20 <= len,
            len == bytes@.len(),
            forall|j: int| 0 <= j < i ==> a@[j] == bytes@[from + j],
        decreases 20 - i,
    {
        a[i] = bytes[from + i];
        i += 1;
    }
    assert(a@ =~= bytes@.subrange(from as int, from + 20));
    a
}

/// Whether two digests are the same.
pub fn same20(a: &[u8; 20], b: &[u8; 20]) -> (same: bool)
    ensures
        same == (a@ == b@),
{
    let mut i: usize = 0;
    while i < 20
        invariant
            i <= 20,
            forall|j: int| 0 <= j < i ==> a@[j] == b@[j],
        decreases 20 - i,
    {
        if a[i] != b[i] {
            return false;
        }
        i += 1;
    }
    assert(a@ =~= b@);
    true
}

} // verus!
