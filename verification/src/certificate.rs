use crate::types::Digest;
use vstd::prelude::*;

verus! {

/// The byte that marks a recovery certificate.
pub const CERT_MARK: u8 = 2;

/// How many leading bytes of a recovery certificate hold the mark.
pub const CERT_PREFIX: usize = 16;

/// The number that `bytes` stands for, most significant byte first.
pub open spec fn be_value(bytes: Seq<u8>) -> nat
    decreases bytes.len(),
{
    if bytes.len() == 0 {
        0
    } else {
        be_value(bytes.drop_last()) * 256 + bytes.last() as nat
    }
}

/// The last `width` base-256 digits of `n`, most significant first.
pub open spec fn be_bytes(n: nat, width: nat) -> Seq<u8>
    decreases width,
{
    if width == 0 {
        Seq::empty()
    } else {
        be_bytes(n / 256, (width - 1) as nat).push((n % 256) as u8)
    }
}

/// `256` to the power of `width`.
pub open spec fn pow256(width: nat) -> nat
    decreases width,
{
    if width == 0 {
        1
    } else {
        256 * pow256((width - 1) as nat)
    }
}

/// The recovery certificate for position `index` in era `era`.
pub open spec fn certificate(era: nat, index: nat) -> Seq<u8> {
    Seq::new(CERT_PREFIX as nat, |i: int| CERT_MARK) + be_bytes(era, 8) + be_bytes(index, 8)
}

/// Whether `digest` is marked as a recovery certificate.
pub open spec fn is_cert(digest: Seq<u8>) -> bool {
    &&& digest.len() >= CERT_PREFIX
    &&& forall|i: int| 0 <= i < CERT_PREFIX ==> #[trigger] digest[i] == CERT_MARK
}

/// The era that a certificate names.
pub open spec fn cert_era(digest: Seq<u8>) -> nat {
    be_value(digest.subrange(16, 24))
}

/// The index that a certificate names.
pub open spec fn cert_index(digest: Seq<u8>) -> nat {
    be_value(digest.subrange(24, 32))
}

pub proof fn lemma_be_bytes_len(n: nat, width: nat)
    ensures
        be_bytes(n, width).len() == width,
    decreases width,
{
    if width > 0 {
        lemma_be_bytes_len(n / 256, (width - 1) as nat);
    }
}

pub proof fn lemma_pow256_eight()
    ensures
        pow256(8) == 0x1_0000_0000_0000_0000,
{
    reveal_with_fuel(pow256, 9);
}

/// Decoding the digits of a number that fits gives the number back.
pub proof fn lemma_value_of_bytes(n: nat, width: nat)
    requires
        n < pow256(width),
    ensures
        be_value(be_bytes(n, width)) == n,
    decreases width,
{
    if width > 0 {
        let high = be_bytes(n / 256, (width - 1) as nat);
        lemma_value_of_bytes(n / 256, (width - 1) as nat);
        assert(be_bytes(n, width).drop_last() =~= high);
    }
}

/// Bytes are the digits of the number that they stand for, which fits in them.
pub proof fn lemma_bytes_of_value(bytes: Seq<u8>)
    ensures
        be_bytes(be_value(bytes), bytes.len()) == bytes,
        be_value(bytes) < pow256(bytes.len()),
    decreases bytes.len(),
{
    if bytes.len() > 0 {
        let high = be_value(bytes.drop_last());
        lemma_bytes_of_value(bytes.drop_last());
        assert((high * 256 + bytes.last() as nat) / 256 == high);
        assert((high * 256 + bytes.last() as nat) % 256 == bytes.last() as nat);
        assert(bytes.drop_last().push(bytes.last()) =~= bytes);
    }
}

proof fn lemma_be_bytes_step(n: nat, width: nat, low: Seq<u8>)
    requires
        width > 0,
    ensures
        be_bytes(n, width) + low == be_bytes(n / 256, (width - 1) as nat) + (seq![(n % 256) as u8]
            + low),
{
    assert(be_bytes(n, width) + low =~= be_bytes(n / 256, (width - 1) as nat) + (seq![
        (n % 256) as u8,
    ] + low));
}

/// Writes `n` into the eight bytes of `buffer` from `at` on, most significant
/// byte first.
pub(crate) fn write_be(buffer: &mut [u8; 32], at: usize, n: u64)
    requires
        at <= 24,
    ensures
        final(buffer)@ == old(buffer)@.subrange(0, at as int) + be_bytes(n as nat, 8) + old(
            buffer,
        )@.subrange(at + 8, 32),
{
    let mut rest: u64 = n;
    let mut left: usize = 8;
    let ghost before = buffer@;
    assert(buffer@.subrange(at + 8, at + 8) =~= Seq::<u8>::empty());
    assert(be_bytes(n as nat, 8) + Seq::<u8>::empty() =~= be_bytes(n as nat, 8));
    while left > 0
        invariant
            at <= 24,
            left <= 8,
            before.len() == 32,
            buffer@.len() == 32,
            be_bytes(n as nat, 8) == be_bytes(rest as nat, left as nat) + buffer@.subrange(
                at + left,
                at + 8,
            ),
            forall|j: int| 0 <= j < at ==> buffer@[j] == before[j],
            forall|j: int| at + 8 <= j < 32 ==> buffer@[j] == before[j],
        decreases left,
    {
        let ghost low = buffer@.subrange(at + left, at + 8);
        let digit: u8 = (rest % 256) as u8;
        proof {
            lemma_be_bytes_step(rest as nat, left as nat, low);
        }
        left = left - 1;
        rest = rest / 256;
        buffer[at + left] = digit;
        assert(buffer@.subrange(at + left, at + 8) =~= seq![digit] + low);
    }
    proof {
        lemma_be_bytes_len(n as nat, 8);
        assert(be_bytes(n as nat, 8) =~= buffer@.subrange(at as int, at + 8));
        assert(buffer@ =~= before.subrange(0, at as int) + be_bytes(n as nat, 8) + before.subrange(
            at + 8,
            32,
        ));
    }
}

/// Reads the eight bytes of `digest` from `at` on as a number, most
/// significant byte first.
pub(crate) fn read_be(digest: &Digest, at: usize) -> (n: u64)
    requires
        at <= 24,
    ensures
        n == be_value(digest@.subrange(at as int, at + 8)),
{
    let mut n: u64 = 0;
    let mut i: usize = 0;
    while i < 8
        invariant
            at <= 24,
            i <= 8,
            n == be_value(digest@.subrange(at as int, at + i)),
        decreases 8 - i,
    {
        proof {
            let taken = digest@.subrange(at as int, at + i);
            let next = digest@.subrange(at as int, at + i + 1);
            assert(next.drop_last() =~= taken);
            lemma_bytes_of_value(taken);
            assert(be_value(taken) <= 0xff_ffff_ffff_ffff) by {
                reveal_with_fuel(pow256, 9);
            }
        }
        n = n * 256 + digest.0[at + i] as u64;
        i += 1;
    }
    n
}

} // verus!
