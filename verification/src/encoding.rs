//! The two primitive number encodings an entry is assembled from: the
//! self-delimiting variable-length unsigned integer ("varint") used for the
//! key-length and value-length prefixes, and the fixed eight-byte
//! little-endian integer used for the tag. The byte-level calls go to the
//! integer-encoding crate; the spec functions here say exactly which bytes
//! those calls produce and read.

use vstd::prelude::*;

verus! {

/// The canonical varint encoding of `n`: seven bits per byte, lowest bits
/// first, the high bit of a byte marking that another byte follows.
pub open spec fn spec_varint(n: nat) -> Seq<u8>
    decreases n,
{
    if n < 128 {
        seq![n as u8]
    } else {
        seq![(128 + n % 128) as u8] + spec_varint(n / 128)
    }
}

/// Reading a varint back from the front of a byte string: the value and the
/// number of bytes it occupied, or nothing if the string ends before a byte
/// with a clear high bit.
pub open spec fn spec_varint_decode(b: Seq<u8>) -> Option<(nat, nat)>
    decreases b.len(),
{
    if b.len() == 0 {
        None
    } else if b[0] < 128 {
        Some((b[0] as nat, 1))
    } else {
        match spec_varint_decode(b.drop_first()) {
            None => None,
            Some((v, l)) => Some((((b[0] - 128) + 128 * v) as nat, (l + 1) as nat)),
        }
    }
}

/// A varint is read back losslessly from the front of any byte string that
/// begins with it, whatever follows.
pub proof fn lemma_varint_decode_prefix(n: nat, rest: Seq<u8>)
    ensures
        spec_varint_decode(spec_varint(n) + rest) == Some((n, spec_varint(n).len())),
    decreases n,
{
    let b = spec_varint(n) + rest;
    if n < 128 {
        assert(b[0] == n as u8);
    } else {
        lemma_varint_decode_prefix(n / 128, rest);
        assert(b.drop_first() =~= spec_varint(n / 128) + rest);
        assert(b[0] == (128 + n % 128) as u8);
        vstd::arithmetic::div_mod::lemma_fundamental_div_mod(n as int, 128);
    }
}

/// The little-endian byte string of length `n` for the value `x`
/// (lowest byte first; bytes beyond the `n`-th are dropped).
pub open spec fn le_bytes(x: nat, n: nat) -> Seq<u8>
    decreases n,
{
    if n == 0 {
        Seq::empty()
    } else {
        seq![(x % 256) as u8] + le_bytes(x / 256, (n - 1) as nat)
    }
}

/// The value a little-endian byte string stands for.
pub open spec fn le_value(b: Seq<u8>) -> nat
    decreases b.len(),
{
    if b.len() == 0 {
        0
    } else {
        (b[0] + 256 * le_value(b.drop_first())) as nat
    }
}

/// 256 to the `n`-th power: the number of values `n` little-endian bytes
/// can hold.
pub open spec fn pow256(n: nat) -> nat
    decreases n,
{
    if n == 0 {
        1
    } else {
        256 * pow256((n - 1) as nat)
    }
}

pub proof fn lemma_le_bytes_len(x: nat, n: nat)
    ensures
        le_bytes(x, n).len() == n,
    decreases n,
{
    if n > 0 {
        lemma_le_bytes_len(x / 256, (n - 1) as nat);
    }
}

/// A value is read back from its little-endian bytes, up to the range the
/// width can hold.
pub proof fn lemma_le_value_bytes(x: nat, n: nat)
    ensures
        le_value(le_bytes(x, n)) == x % pow256(n),
    decreases n,
{
    if n == 0 {
        assert(x % 1 == 0) by (nonlinear_arith);
    } else {
        let p = pow256((n - 1) as nat);
        lemma_le_value_bytes(x / 256, (n - 1) as nat);
        assert(le_bytes(x, n).drop_first() =~= le_bytes(x / 256, (n - 1) as nat));
        assert(p > 0) by {
            lemma_pow256_pos((n - 1) as nat);
        }
        vstd::arithmetic::div_mod::lemma_mod_breakdown(x as int, 256, p as int);
    }
}

pub proof fn lemma_pow256_pos(n: nat)
    ensures
        pow256(n) >= 1,
    decreases n,
{
    if n > 0 {
        lemma_pow256_pos((n - 1) as nat);
    }
}

/// Eight little-endian bytes hold exactly the `u64` range.
pub proof fn lemma_le_value_bytes_u64(x: u64)
    ensures
        le_value(le_bytes(x as nat, 8)) == x,
{
    lemma_le_value_bytes(x as nat, 8);
    assert(pow256(8) == 0x1_0000_0000_0000_0000) by {
        assert(pow256(0) == 1);
        assert(pow256(1) == 256);
        assert(pow256(2) == 0x1_0000);
        assert(pow256(3) == 0x100_0000);
        assert(pow256(4) == 0x1_0000_0000);
        assert(pow256(5) == 0x100_0000_0000);
        assert(pow256(6) == 0x1_0000_0000_0000);
        assert(pow256(7) == 0x100_0000_0000_0000);
    }
    assert(x as nat % 0x1_0000_0000_0000_0000 == x as nat) by {
        vstd::arithmetic::div_mod::lemma_small_mod(x as nat, 0x1_0000_0000_0000_0000);
    }
}

/// Appends a copy of `src` to `dst`.
pub(crate) fn append_bytes(dst: &mut Vec<u8>, src: &Vec<u8>)
    ensures
        final(dst)@ == old(dst)@ + src@,
{
    let ghost dst0 = dst@;
    let n = src.len();
    let mut i: usize = 0;
    while i < n
        invariant
            i <= n,
            n == src@.len(),
            dst@ == dst0 + src@.subrange(0, i as int),
        decreases n - i,
    {
        dst.push(src[i]);
        proof {
            assert(dst@ =~= dst0 + src@.subrange(0, i + 1));
        }
        i = i + 1;
    }
    proof {
        assert(dst0 + src@.subrange(0, i as int) =~= dst0 + src@);
    }
}

/// Relies on the integer-encoding crate's `VarInt::encode_var_vec` for
/// `usize`: it returns the canonical varint bytes of the value (seven bits
/// per byte, low bits first, the high bit marking continuation).
#[verifier::external_body]
pub(crate) fn varint_encode(n: usize) -> (r: Vec<u8>)
    ensures
        r@ == spec_varint(n as nat),
{
    integer_encoding::VarInt::encode_var_vec(n)
}

/// Relies on the integer-encoding crate's `VarInt::decode_var` for `usize`:
/// a slice that begins with the canonical varint encoding of a value that
/// fits in `usize` decodes to that value and the byte count of its encoding.
#[verifier::external_body]
pub(crate) fn varint_decode(b: &[u8]) -> (r: Option<(usize, usize)>)
    ensures
        forall|n: usize, rest: Seq<u8>|
            b@ == #[trigger] (spec_varint(n as nat) + rest) ==> r == Some(
                (n, spec_varint(n as nat).len() as usize),
            ),
{
    integer_encoding::VarInt::decode_var(b)
}

/// Relies on the integer-encoding crate's `FixedInt::encode_fixed_vec` for
/// `u64`: it returns the eight little-endian bytes of the value.
#[verifier::external_body]
pub(crate) fn fixed64_encode(x: u64) -> (r: Vec<u8>)
    ensures
        r@ == le_bytes(x as nat, 8),
{
    integer_encoding::FixedInt::encode_fixed_vec(x)
}

/// What reading a fixed eight-byte little-endian integer from a slice
/// yields: the value the bytes hold if the slice is exactly eight bytes
/// long, nothing otherwise.
pub open spec fn spec_fixed64_decode(b: Seq<u8>) -> Option<u64> {
    if b.len() == 8 {
        Some(le_value(b) as u64)
    } else {
        None
    }
}

/// Relies on the integer-encoding crate's `FixedInt::decode_fixed` for
/// `u64`: on an eight-byte slice it returns the value those little-endian
/// bytes hold, and on any other length it returns nothing.
#[verifier::external_body]
pub(crate) fn fixed64_decode(b: &[u8]) -> (r: Option<u64>)
    ensures
        r == spec_fixed64_decode(b@),
{
    integer_encoding::FixedInt::decode_fixed(b)
}

} // verus!
