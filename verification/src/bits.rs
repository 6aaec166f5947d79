use crate::codec::{PadeDecode, PadeEncode};
use crate::error::PadeDecodeError;
use crate::wire::take;
use vstd::arithmetic::div_mod::lemma_div_denominator;
use vstd::arithmetic::power2::{
    lemma2_to64, lemma_pow2_pos, lemma_pow2_strictly_increases, lemma_pow2_unfold, pow2,
};
use vstd::prelude::*;

verus! {

/// The width of an enum's tag in bits: one bit for up to two variants, and
/// one more each time the number of variants doubles.
pub open spec fn spec_tag_bits(count: nat) -> nat
    decreases count,
{
    if count <= 2 {
        1
    } else {
        1 + spec_tag_bits((count + 1) / 2)
    }
}

/// The tag width is the least number of bits, and at least one, whose values
/// tell `count` variants apart: the larger of 1 and the base-2 logarithm of
/// `count`, rounded up.
pub proof fn lemma_tag_bits_is_least_width(count: nat)
    ensures
        spec_tag_bits(count) >= 1,
        pow2(spec_tag_bits(count)) >= count,
        spec_tag_bits(count) > 1 ==> pow2((spec_tag_bits(count) - 1) as nat) < count,
    decreases count,
{
    lemma2_to64();
    if count > 2 {
        let half = (count + 1) / 2;
        lemma_tag_bits_is_least_width(half);
        lemma_pow2_unfold(spec_tag_bits(count));
        if spec_tag_bits(half) > 1 {
            lemma_pow2_unfold(spec_tag_bits(half));
        }
    }
}

/// No width below the tag width tells `count` variants apart, so the tag
/// width is the only number with the two properties above.
pub proof fn lemma_tag_bits_unique(count: nat, bits: nat)
    requires
        bits >= 1,
        pow2(bits) >= count,
        bits > 1 ==> pow2((bits - 1) as nat) < count,
    ensures
        bits == spec_tag_bits(count),
{
    let tag = spec_tag_bits(count);
    lemma_tag_bits_is_least_width(count);
    if bits < tag {
        if bits < tag - 1 {
            lemma_pow2_strictly_increases(bits, (tag - 1) as nat);
        }
    } else if tag < bits {
        if tag < bits - 1 {
            lemma_pow2_strictly_increases(tag, (bits - 1) as nat);
        }
    }
}

/// A tag of a `usize` count of variants takes at most 64 bits.
pub proof fn lemma_tag_bits_bound(count: nat)
    requires
        count <= usize::MAX,
    ensures
        1 <= spec_tag_bits(count) <= 64,
{
    lemma_tag_bits_is_least_width(count);
    lemma2_to64();
    if spec_tag_bits(count) > 65 {
        lemma_pow2_strictly_increases(64, (spec_tag_bits(count) - 1) as nat);
    }
}

/// The width of the tag of an enum with `count` variants. It depends on the
/// number of variants alone.
pub fn tag_bits(count: usize) -> (bits: usize)
    ensures
        bits == spec_tag_bits(count as nat),
        1 <= bits <= 64,
{
    let mut left: usize = count;
    let mut bits: usize = 1;
    proof {
        lemma_tag_bits_bound(count as nat);
    }
    while left > 2
        invariant
            bits >= 1,
            bits - 1 + spec_tag_bits(left as nat) == spec_tag_bits(count as nat),
            spec_tag_bits(count as nat) <= 64,
        decreases left,
    {
        proof {
            lemma_tag_bits_is_least_width(((left + 1) / 2) as nat);
        }
        left = left / 2 + left % 2;
        bits = bits + 1;
    }
    bits
}

/// The low `width` bits of `value`, most significant first.
pub open spec fn bits_of(value: nat, width: nat) -> Seq<bool>
    decreases width,
{
    if width == 0 {
        Seq::empty()
    } else {
        bits_of(value / 2, (width - 1) as nat).push(value % 2 == 1)
    }
}

/// The number that `bits` spell, most significant first.
pub open spec fn bits_value(bits: Seq<bool>) -> nat
    decreases bits.len(),
{
    if bits.len() == 0 {
        0
    } else {
        2 * bits_value(bits.drop_last()) + if bits.last() {
            1nat
        } else {
            0nat
        }
    }
}

/// The bits of a number at a width are as many as the width.
pub proof fn lemma_bits_of_len(value: nat, width: nat)
    ensures
        bits_of(value, width).len() == width,
    decreases width,
{
    if width > 0 {
        lemma_bits_of_len(value / 2, (width - 1) as nat);
    }
}

/// What `n` bits spell is below 2 to the `n`.
pub proof fn lemma_bits_value_bound(bits: Seq<bool>)
    ensures
        bits_value(bits) < pow2(bits.len()),
    decreases bits.len(),
{
    lemma2_to64();
    if bits.len() > 0 {
        lemma_bits_value_bound(bits.drop_last());
        lemma_pow2_unfold(bits.len());
    }
}

/// A number that fits in `width` bits, spelled and read again, is unchanged.
pub proof fn lemma_bits_round_trip(value: nat, width: nat)
    requires
        value < pow2(width),
    ensures
        bits_value(bits_of(value, width)) == value,
    decreases width,
{
    lemma2_to64();
    if width > 0 {
        let rest = (width - 1) as nat;
        lemma_pow2_unfold(width);
        lemma_bits_of_len(value / 2, rest);
        lemma_bits_round_trip(value / 2, rest);
        assert(bits_of(value, width).drop_last() =~= bits_of(value / 2, rest));
    }
}

/// One bit more in front is the next higher bit of the number.
pub proof fn lemma_bits_of_prepend(value: nat, width: nat)
    ensures
        bits_of(value, width + 1) == seq![(value / pow2(width)) % 2 == 1] + bits_of(value, width),
    decreases width,
{
    lemma2_to64();
    if width == 0 {
        reveal_with_fuel(bits_of, 2);
        assert(bits_of(value, 1) =~= seq![value % 2 == 1] + bits_of(value, 0));
    } else {
        let rest = (width - 1) as nat;
        lemma_bits_of_prepend(value / 2, rest);
        lemma_pow2_pos(rest);
        lemma_pow2_unfold(width);
        lemma_div_denominator(value as int, 2, pow2(rest) as int);
        assert(bits_of(value, width + 1) =~= seq![(value / pow2(width)) % 2 == 1] + bits_of(
            value,
            width,
        ));
    }
}

/// Bit `k` of `bits` as a number; 0 past the end.
pub open spec fn bit(bits: Seq<bool>, k: int) -> nat {
    if 0 <= k < bits.len() && bits[k] {
        1
    } else {
        0
    }
}

/// The weight of position `p` in a byte, where position 0 is the most
/// significant bit.
pub open spec fn weight(p: int) -> nat {
    if p == 0 {
        128
    } else if p == 1 {
        64
    } else if p == 2 {
        32
    } else if p == 3 {
        16
    } else if p == 4 {
        8
    } else if p == 5 {
        4
    } else if p == 6 {
        2
    } else {
        1
    }
}

/// Byte `j` of the header that holds `bits`: bit `8j` is its most
/// significant bit, and positions past the end of `bits` are zero.
pub open spec fn packed_byte(bits: Seq<bool>, j: int) -> nat {
    128 * bit(bits, 8 * j) + 64 * bit(bits, 8 * j + 1) + 32 * bit(bits, 8 * j + 2) + 16 * bit(
        bits,
        8 * j + 3,
    ) + 8 * bit(bits, 8 * j + 4) + 4 * bit(bits, 8 * j + 5) + 2 * bit(bits, 8 * j + 6) + bit(
        bits,
        8 * j + 7,
    )
}

/// The number of header bytes that hold `bits` bits.
pub open spec fn header_len(bits: nat) -> nat {
    (bits + 7) / 8
}

/// The header that holds `bits`: the least number of whole bytes, filled
/// from the most significant bit of the first byte on.
#[verifier::opaque]
pub open spec fn pack(bits: Seq<bool>) -> Seq<u8> {
    Seq::new(header_len(bits.len()), |j: int| packed_byte(bits, j) as u8)
}

/// Bit `k` of a header.
pub open spec fn bit_at(bytes: Seq<u8>, k: int) -> bool {
    (bytes[k / 8] as nat / weight(k % 8)) % 2 == 1
}

/// The `width` bits of a header from bit `from` on.
pub open spec fn unpack(bytes: Seq<u8>, from: int, width: nat) -> Seq<bool> {
    Seq::new(width, |t: int| bit_at(bytes, from + t))
}

/// A header has the least number of whole bytes that hold its bits.
pub proof fn lemma_pack_len(bits: Seq<bool>)
    ensures
        pack(bits).len() == header_len(bits.len()),
{
    reveal(pack);
}

/// Every bit that was packed is found again at its position.
pub proof fn lemma_pack_bit(bits: Seq<bool>, k: int)
    requires
        0 <= k < bits.len(),
    ensures
        bit_at(pack(bits), k) == bits[k],
{
    reveal(pack);
    let j = k / 8;
    let p = k % 8;
    let b0 = bit(bits, 8 * j);
    let b1 = bit(bits, 8 * j + 1);
    let b2 = bit(bits, 8 * j + 2);
    let b3 = bit(bits, 8 * j + 3);
    let b4 = bit(bits, 8 * j + 4);
    let b5 = bit(bits, 8 * j + 5);
    let b6 = bit(bits, 8 * j + 6);
    let b7 = bit(bits, 8 * j + 7);
    let byte = packed_byte(bits, j);
    assert(byte == 128 * b0 + 64 * b1 + 32 * b2 + 16 * b3 + 8 * b4 + 4 * b5 + 2 * b6 + b7);
    assert(byte < 256);
    assert(pack(bits)[j] == byte as u8);
    assert(bit(bits, k) == if bits[k] { 1nat } else { 0nat });
    if p == 0 {
        assert((byte / 128) % 2 == b0);
    } else if p == 1 {
        assert((byte / 64) % 2 == b1);
    } else if p == 2 {
        assert((byte / 32) % 2 == b2);
    } else if p == 3 {
        assert((byte / 16) % 2 == b3);
    } else if p == 4 {
        assert((byte / 8) % 2 == b4);
    } else if p == 5 {
        assert((byte / 4) % 2 == b5);
    } else if p == 6 {
        assert((byte / 2) % 2 == b6);
    } else {
        assert((byte / 1) % 2 == b7);
    }
}

/// A run of bits is read back from the header it was packed into, whatever
/// was packed before and after it.
pub proof fn lemma_unpack_pack(before: Seq<bool>, run: Seq<bool>, after: Seq<bool>)
    ensures
        unpack(pack(before + run + after), before.len() as int, run.len()) == run,
{
    let all = before + run + after;
    let got = unpack(pack(all), before.len() as int, run.len());
    assert forall|t: int| 0 <= t < run.len() implies got[t] == run[t] by {
        lemma_pack_bit(all, before.len() + t);
    }
    assert(got =~= run);
}

/// The header that holds the given bits.
pub fn pack_bits(bits: &Vec<bool>) -> (out: Vec<u8>)
    ensures
        out@ == pack(bits@),
{
    let len = bits.len();
    let count = len / 8 + if len % 8 == 0 {
        0
    } else {
        1
    };
    let mut out: Vec<u8> = Vec::new();
    let mut j: usize = 0;
    while j < count
        invariant
            j <= count,
            len == bits@.len(),
            count == header_len(len as nat),
            out@.len() == j,
            forall|i: int| 0 <= i < j ==> out@[i] == packed_byte(bits@, i) as u8,
        decreases count - j,
    {
        let base = j * 8;
        let mut byte: u8 = 0;
        let mut p: usize = 0;
        let ghost mut sum: nat = 0;
        while p < 8
            invariant
                p <= 8,
                base == 8 * j,
                j < count,
                len == bits@.len(),
                count == header_len(len as nat),
                byte as nat == sum,
                p == 0 ==> sum == 0,
                p == 1 ==> sum == 128 * bit(bits@, 8 * j),
                p == 2 ==> sum == 128 * bit(bits@, 8 * j) + 64 * bit(bits@, 8 * j + 1),
                p == 3 ==> sum == 128 * bit(bits@, 8 * j) + 64 * bit(bits@, 8 * j + 1) + 32 * bit(
                    bits@,
                    8 * j + 2,
                ),
                p == 4 ==> sum == 128 * bit(bits@, 8 * j) + 64 * bit(bits@, 8 * j + 1) + 32 * bit(
                    bits@,
                    8 * j + 2,
                ) + 16 * bit(bits@, 8 * j + 3),
                p == 5 ==> sum == 128 * bit(bits@, 8 * j) + 64 * bit(bits@, 8 * j + 1) + 32 * bit(
                    bits@,
                    8 * j + 2,
                ) + 16 * bit(bits@, 8 * j + 3) + 8 * bit(bits@, 8 * j + 4),
                p == 6 ==> sum == 128 * bit(bits@, 8 * j) + 64 * bit(bits@, 8 * j + 1) + 32 * bit(
                    bits@,
                    8 * j + 2,
                ) + 16 * bit(bits@, 8 * j + 3) + 8 * bit(bits@, 8 * j + 4) + 4 * bit(
                    bits@,
                    8 * j + 5,
                ),
                p == 7 ==> sum == 128 * bit(bits@, 8 * j) + 64 * bit(bits@, 8 * j + 1) + 32 * bit(
                    bits@,
                    8 * j + 2,
                ) + 16 * bit(bits@, 8 * j + 3) + 8 * bit(bits@, 8 * j + 4) + 4 * bit(
                    bits@,
                    8 * j + 5,
                ) + 2 * bit(bits@, 8 * j + 6),
                p == 8 ==> sum == packed_byte(bits@, j as int),
            decreases 8 - p,
        {
            if p < len - base && bits[base + p] {
                byte = byte + bit_weight(p);
                proof {
                    sum = sum + weight(p as int);
                }
            }
            p = p + 1;
        }
        out.push(byte);
        j = j + 1;
    }
    assert(out@ =~= pack(bits@)) by {
        reveal(pack);
    }
    out
}

/// The weight of position `p` in a byte.
pub fn bit_weight(p: usize) -> (w: u8)
    requires
        p < 8,
    ensures
        w == weight(p as int),
{
    if p == 0 {
        128
    } else if p == 1 {
        64
    } else if p == 2 {
        32
    } else if p == 3 {
        16
    } else if p == 4 {
        8
    } else if p == 5 {
        4
    } else if p == 6 {
        2
    } else {
        1
    }
}

/// Appends the low `width` bits of `value`, most significant first.
pub fn push_bits(bits: &mut Vec<bool>, value: u64, width: usize)
    ensures
        final(bits)@ == old(bits)@ + bits_of(value as nat, width as nat),
{
    let mut fresh: Vec<bool> = Vec::new();
    let mut k: usize = 0;
    while k < width
        invariant
            k <= width,
            fresh@.len() == k,
        decreases width - k,
    {
        fresh.push(false);
        k = k + 1;
    }
    let mut left: u64 = value;
    let mut j: usize = 0;
    proof {
        lemma2_to64();
        assert(fresh@.skip(width as int) =~= bits_of(value as nat, 0));
    }
    while j < width
        invariant
            j <= width,
            fresh@.len() == width,
            left == value as nat / pow2(j as nat),
            fresh@.skip(width - j) == bits_of(value as nat, j as nat),
        decreases width - j,
    {
        let ghost before = fresh@;
        proof {
            lemma_bits_of_prepend(value as nat, j as nat);
            lemma_pow2_pos(j as nat);
            lemma_pow2_unfold((j + 1) as nat);
            lemma_div_denominator(value as int, pow2(j as nat) as int, 2);
        }
        fresh.set(width - 1 - j, left % 2 == 1);
        left = left / 2;
        j = j + 1;
        assert(fresh@.skip(width - j) =~= seq![fresh@[width - j]] + before.skip(width - j + 1));
    }
    assert(fresh@.skip(0) =~= fresh@);
    let mut t: usize = 0;
    while t < width
        invariant
            t <= width == fresh@.len(),
            bits@ == old(bits)@ + fresh@.take(t as int),
        decreases width - t,
    {
        bits.push(fresh[t]);
        t = t + 1;
        assert(fresh@.take(t as int) =~= fresh@.take(t - 1).push(fresh@[t - 1]));
    }
    assert(fresh@.take(width as int) =~= fresh@);
}

/// The number that the `width` bits of a header from bit `from` on spell,
/// and the position of the bit after them.
pub fn read_bits(header: &[u8], from: u128, width: usize) -> (r: (u64, u128))
    requires
        width <= 64,
        from + width <= 8 * header@.len(),
    ensures
        r.0 == bits_value(unpack(header@, from as int, width as nat)),
        r.1 == from + width,
{
    let len = header.len();
    let mut acc: u64 = 0;
    let mut t: usize = 0;
    while t < width
        invariant
            t <= width <= 64,
            len == header@.len(),
            from + width <= 8 * header@.len(),
            acc == bits_value(unpack(header@, from as int, t as nat)),
        decreases width - t,
    {
        let pos: u128 = from + t as u128;
        let byte = header[(pos / 8) as usize];
        let set = (byte / bit_weight((pos % 8) as usize)) % 2 == 1;
        proof {
            let seen = unpack(header@, from as int, t as nat);
            let next = unpack(header@, from as int, (t + 1) as nat);
            assert(next.drop_last() =~= seen);
            assert(next.last() == set);
            lemma_bits_value_bound(seen);
            lemma_bits_value_bound(next);
            lemma_pow2_strictly_increases_or_equal((t + 1) as nat, 64);
            lemma2_to64();
        }
        acc = acc * 2 + if set {
            1
        } else {
            0
        };
        t = t + 1;
    }
    (acc, from + width as u128)
}

/// A power of two does not shrink when the exponent grows.
proof fn lemma_pow2_strictly_increases_or_equal(a: nat, b: nat)
    requires
        a <= b,
    ensures
        pow2(a) <= pow2(b),
{
    if a < b {
        lemma_pow2_strictly_increases(a, b);
    }
}

impl PadeEncode for bool {
    open spec fn encodable(&self) -> bool {
        true
    }

    /// A flag on its own is a header of one bit.
    open spec fn wire(&self) -> Seq<u8> {
        pack(seq![*self])
    }

    open spec fn header_width() -> nat {
        1
    }

    open spec fn variant_width() -> nat {
        0
    }

    fn pade_encode(&self) -> (out: Vec<u8>) {
        let mut out: Vec<u8> = Vec::new();
        out.push(if *self { 128 } else { 0 });
        assert(out@ =~= pack(seq![*self])) by {
            reveal(pack);
        }
        out
    }

    fn pade_header_bits(&self) -> (bits: usize) {
        1
    }

    fn pade_variant_map_bits(&self) -> (bits: usize) {
        0
    }
}

impl PadeDecode for bool {
    /// With bits from a shared header the flag is set when they are not
    /// zero, and no byte is read. Without, the flag is the first bit of the
    /// next byte.
    open spec fn parse(bytes: Seq<u8>, ctx: Option<u8>) -> Result<(bool, nat), PadeDecodeError> {
        match ctx {
            Some(field) => Ok((field != 0, 0)),
            None => if bytes.len() < 1 {
                Err(PadeDecodeError::InvalidSize)
            } else {
                Ok((bit_at(bytes, 0), 1))
            },
        }
    }

    fn pade_decode(buf: &mut &[u8], ctx: Option<u8>) -> (r: Result<Self, PadeDecodeError>) {
        match ctx {
            Some(field) => Ok(field != 0),
            None => match take(buf, 1) {
                Ok(head) => Ok(head[0] >= 128),
                Err(e) => Err(e),
            },
        }
    }
}

/// A flag, encoded on its own and decoded, comes back unchanged.
pub proof fn lemma_bool_round_trip(flag: bool, rest: Seq<u8>)
    ensures
        flag.wire().len() == 1,
        bool::parse(flag.wire() + rest, None) == Ok::<(bool, nat), PadeDecodeError>((flag, 1)),
{
    lemma_pack_bit(seq![flag], 0);
    lemma_pack_len(seq![flag]);
    assert((flag.wire() + rest)[0] == flag.wire()[0]);
}

} // verus!
