//! The byte layout of the wire format: big-endian 16-bit words, a header of
//! four words, then one word per digit group.
use vstd::prelude::*;

verus! {

/// Sign word of a non-negative value.
pub const SIGN_POSITIVE: u16 = 0x0000;

/// Sign word of a negative value.
pub const SIGN_NEGATIVE: u16 = 0x4000;

/// Sign word of not-a-number.
pub const SIGN_NAN: u16 = 0xC000;

/// Length of the header in bytes.
pub const HEADER_LEN: usize = 8;

/// The two big-endian bytes of a word.
pub open spec fn u16_bytes(x: u16) -> Seq<u8> {
    seq![(x / 256) as u8, (x % 256) as u8]
}

/// The big-endian word that starts at byte `k`.
pub open spec fn u16_at(b: Seq<u8>, k: int) -> u16 {
    (b[k] as nat * 256 + b[k + 1] as nat) as u16
}

/// The word that carries a signed weight (two's complement).
pub open spec fn weight_word(w: int) -> u16 {
    if w < 0 {
        (w + 65536) as u16
    } else {
        w as u16
    }
}

/// The signed weight that a word carries (two's complement).
pub open spec fn signed_word(u: u16) -> int {
    if u >= 32768 {
        u - 65536
    } else {
        u as int
    }
}

/// The bytes of a sequence of digit groups, one word each.
pub open spec fn groups_bytes(d: Seq<u16>) -> Seq<u8>
    decreases d.len(),
{
    if d.len() == 0 {
        seq![]
    } else {
        groups_bytes(d.drop_last()) + u16_bytes(d.last())
    }
}

/// The header words followed by the digit groups.
pub open spec fn wire_bytes(count: nat, weight: int, sign: u16, scale: nat, digits: Seq<u16>) -> Seq<u8> {
    u16_bytes(count as u16) + u16_bytes(weight_word(weight)) + u16_bytes(sign) + u16_bytes(
        scale as u16,
    ) + groups_bytes(digits)
}

/// The `n` digit groups that follow the header.
pub open spec fn wire_digits(b: Seq<u8>, n: nat) -> Seq<u16> {
    Seq::new(n, |i: int| u16_at(b, 8 + 2 * i))
}

/// A word read back from its bytes is the word.
pub proof fn lemma_u16_round_trip(x: u16)
    ensures
        u16_at(u16_bytes(x), 0) == x,
{
}

/// A weight in the 16-bit signed range survives its word.
pub proof fn lemma_weight_round_trip(w: int)
    requires
        -32768 <= w <= 32767,
    ensures
        signed_word(weight_word(w)) == w,
{
}

/// The bytes of digit groups hold two bytes per group, each group readable
/// where it stands.
pub proof fn lemma_groups_bytes(d: Seq<u16>)
    ensures
        groups_bytes(d).len() == 2 * d.len(),
        forall|i: int|
            0 <= i < d.len() ==> #[trigger] u16_at(groups_bytes(d), 2 * i) == d[i],
    decreases d.len(),
{
    if d.len() > 0 {
        let d1 = d.drop_last();
        lemma_groups_bytes(d1);
        let g = groups_bytes(d);
        assert forall|i: int| 0 <= i < d.len() implies #[trigger] u16_at(g, 2 * i) == d[i] by {
            if i < d1.len() {
                assert(g[2 * i] == groups_bytes(d1)[2 * i]);
                assert(g[2 * i + 1] == groups_bytes(d1)[2 * i + 1]);
                assert(u16_at(groups_bytes(d1), 2 * i) == d1[i]);
            } else {
                assert(g[2 * i] == u16_bytes(d.last())[0]);
                assert(g[2 * i + 1] == u16_bytes(d.last())[1]);
            }
        }
    }
}

/// The header words and the digit groups read back from the bytes written.
pub proof fn lemma_wire_read(count: nat, weight: int, sign: u16, scale: nat, digits: Seq<u16>)
    requires
        count == digits.len(),
        count <= 65535,
        -32768 <= weight <= 32767,
        scale <= 65535,
    ensures
        ({
            let b = wire_bytes(count, weight, sign, scale, digits);
            &&& b.len() == 8 + 2 * count
            &&& u16_at(b, 0) == count
            &&& signed_word(u16_at(b, 2)) == weight
            &&& u16_at(b, 4) == sign
            &&& u16_at(b, 6) == scale
            &&& wire_digits(b, count) == digits
        }),
{
    let b = wire_bytes(count, weight, sign, scale, digits);
    let g = groups_bytes(digits);
    lemma_groups_bytes(digits);
    let h = u16_bytes(count as u16) + u16_bytes(weight_word(weight)) + u16_bytes(sign) + u16_bytes(
        scale as u16,
    );
    assert(b == h + g);
    assert(h.len() == 8);
    assert(b[0] == u16_bytes(count as u16)[0] && b[1] == u16_bytes(count as u16)[1]);
    assert(b[2] == u16_bytes(weight_word(weight))[0] && b[3] == u16_bytes(weight_word(weight))[1]);
    assert(b[4] == u16_bytes(sign)[0] && b[5] == u16_bytes(sign)[1]);
    assert(b[6] == u16_bytes(scale as u16)[0] && b[7] == u16_bytes(scale as u16)[1]);
    lemma_u16_round_trip(count as u16);
    lemma_u16_round_trip(weight_word(weight));
    lemma_u16_round_trip(sign);
    lemma_u16_round_trip(scale as u16);
    lemma_weight_round_trip(weight);
    assert forall|i: int| 0 <= i < count implies #[trigger] wire_digits(b, count)[i] == digits[i] by {
        assert(b[8 + 2 * i] == g[2 * i]);
        assert(b[8 + 2 * i + 1] == g[2 * i + 1]);
        assert(u16_at(g, 2 * i) == digits[i]);
    }
    assert(wire_digits(b, count) =~= digits);
}

/// Appends the two big-endian bytes of a word.
pub fn push_u16(out: &mut Vec<u8>, x: u16)
    ensures
        final(out)@ == old(out)@ + u16_bytes(x),
{
    out.push((x / 256) as u8);
    out.push((x % 256) as u8);
    assert(out@ =~= old(out)@ + u16_bytes(x));
}

/// Reads the big-endian word that starts at byte `k`.
pub fn read_u16(b: &[u8], k: usize) -> (r: u16)
    requires
        k + 1 < b@.len(),
    ensures
        r == u16_at(b@, k as int),
{
    (b[k] as u16) * 256 + (b[k + 1] as u16)
}

/// Appends the bytes of the digit groups.
pub fn push_groups(out: &mut Vec<u8>, digits: &Vec<u16>)
    ensures
        final(out)@ == old(out)@ + groups_bytes(digits@),
{
    let mut i: usize = 0;
    while i < digits.len()
        invariant
            i <= digits@.len(),
            out@ == old(out)@ + groups_bytes(digits@.take(i as int)),
        decreases digits.len() - i,
    {
        let ghost before = out@;
        push_u16(out, digits[i]);
        proof {
            let t = digits@.take(i as int + 1);
            assert(t.drop_last() =~= digits@.take(i as int));
            assert(out@ =~= old(out)@ + groups_bytes(t));
        }
        i = i + 1;
    }
    assert(digits@.take(i as int) =~= digits@);
}

} // verus!
