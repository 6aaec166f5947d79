use crate::error::PadeDecodeError;
use vstd::arithmetic::div_mod::lemma_div_denominator;
use vstd::prelude::*;
use vstd::slice::slice_subrange;

verus! {

/// 256 to the power `n`: the number of values that `n` bytes can hold.
pub open spec fn pow256(n: nat) -> nat
    decreases n,
{
    if n == 0 {
        1
    } else {
        256 * pow256((n - 1) as nat)
    }
}

/// The number that `s` spells, most significant byte first.
pub open spec fn be_value(s: Seq<u8>) -> nat
    decreases s.len(),
{
    if s.len() == 0 {
        0
    } else {
        256 * be_value(s.drop_last()) + s.last() as nat
    }
}

/// The low `n` bytes of `v`, most significant byte first.
pub open spec fn be_bytes(v: nat, n: nat) -> Seq<u8>
    decreases n,
{
    if n == 0 {
        Seq::empty()
    } else {
        be_bytes(v / 256, (n - 1) as nat).push((v % 256) as u8)
    }
}

/// `n` zero bytes.
pub open spec fn zeros(n: nat) -> Seq<u8> {
    Seq::new(n, |i: int| 0u8)
}

/// The first `k` bytes of `s` are all zero.
pub open spec fn leading_zeros(s: Seq<u8>, k: int) -> bool {
    forall|i: int| 0 <= i < k && i < s.len() ==> s[i] == 0
}

/// The two's complement of `x` in `n` bytes, as a natural number.
pub open spec fn twos(x: int, n: nat) -> nat {
    if x >= 0 {
        x as nat
    } else {
        (x + pow256(n)) as nat
    }
}

/// The signed number whose two's complement in `n` bytes is `v`.
pub open spec fn from_twos(v: nat, n: nat) -> int {
    if 2 * v < pow256(n) {
        v as int
    } else {
        v - pow256(n)
    }
}

/// A power of 256 is at least 1.
pub proof fn lemma_pow256_positive(n: nat)
    ensures
        pow256(n) >= 1,
    decreases n,
{
    if n > 0 {
        lemma_pow256_positive((n - 1) as nat);
    }
}

/// A power of 256 does not shrink when the exponent grows.
pub proof fn lemma_pow256_monotonic(a: nat, b: nat)
    requires
        a <= b,
    ensures
        pow256(a) <= pow256(b),
    decreases b,
{
    lemma_pow256_positive(a);
    if a < b {
        lemma_pow256_monotonic(a, (b - 1) as nat);
    }
}

/// The powers of 256 at the widths of the machine integers.
pub proof fn lemma_pow256_values()
    ensures
        pow256(0) == 1,
        pow256(1) == 0x100,
        pow256(2) == 0x1_0000,
        pow256(3) == 0x100_0000,
        pow256(4) == 0x1_0000_0000,
        pow256(8) == 0x1_0000_0000_0000_0000,
        pow256(16) == 0x1_0000_0000_0000_0000_0000_0000_0000_0000,
{
    assert(pow256(1) == 0x100) by {
        reveal_with_fuel(pow256, 2);
    }
    assert(pow256(2) == 0x1_0000) by {
        reveal_with_fuel(pow256, 3);
    }
    assert(pow256(3) == 256 * pow256(2));
    assert(pow256(4) == 256 * pow256(3));
    assert(pow256(8) == 0x1_0000_0000 * pow256(4)) by {
        reveal_with_fuel(pow256, 5);
    }
    assert(pow256(12) == 0x1_0000_0000 * pow256(8)) by {
        reveal_with_fuel(pow256, 5);
    }
    assert(pow256(16) == 0x1_0000_0000 * pow256(12)) by {
        reveal_with_fuel(pow256, 5);
    }
}

/// A number spelled in `n` bytes has `n` bytes.
pub proof fn lemma_be_bytes_len(v: nat, n: nat)
    ensures
        be_bytes(v, n).len() == n,
    decreases n,
{
    if n > 0 {
        lemma_be_bytes_len(v / 256, (n - 1) as nat);
    }
}

/// What `n` bytes spell is below 256 to the `n`.
pub proof fn lemma_be_value_bound(s: Seq<u8>)
    ensures
        be_value(s) < pow256(s.len()),
    decreases s.len(),
{
    if s.len() > 0 {
        lemma_be_value_bound(s.drop_last());
    }
}

/// Spelling a number that fits and reading it again gives the number.
pub proof fn lemma_be_value_of_bytes(v: nat, n: nat)
    requires
        v < pow256(n),
    ensures
        be_value(be_bytes(v, n)) == v,
    decreases n,
{
    if n > 0 {
        let m = (n - 1) as nat;
        lemma_be_bytes_len(v / 256, m);
        lemma_be_value_of_bytes(v / 256, m);
        assert(be_bytes(v, n).drop_last() =~= be_bytes(v / 256, m));
    }
}

/// Reading bytes and spelling the number again gives the bytes.
pub proof fn lemma_be_bytes_of_value(s: Seq<u8>)
    ensures
        be_bytes(be_value(s), s.len()) == s,
    decreases s.len(),
{
    if s.len() > 0 {
        lemma_be_bytes_of_value(s.drop_last());
        assert(be_value(s) / 256 == be_value(s.drop_last()));
        assert(be_value(s) % 256 == s.last() as nat);
        assert(be_bytes(be_value(s), s.len()) =~= s);
    } else {
        assert(be_bytes(be_value(s), s.len()) =~= s);
    }
}

/// Zero bytes in front do not change what the bytes spell.
pub proof fn lemma_be_value_zero_padded(k: nat, s: Seq<u8>)
    ensures
        be_value(zeros(k) + s) == be_value(s),
    decreases s.len(), k,
{
    let padded = zeros(k) + s;
    if s.len() > 0 {
        assert(padded.drop_last() =~= zeros(k) + s.drop_last());
        lemma_be_value_zero_padded(k, s.drop_last());
    } else if k > 0 {
        assert(padded.drop_last() =~= zeros((k - 1) as nat) + s);
        lemma_be_value_zero_padded((k - 1) as nat, s);
    } else {
        assert(padded =~= s);
    }
}

/// The last `w` bytes of a number spelled in `n` bytes are the number spelled
/// in `w` bytes.
pub proof fn lemma_be_bytes_tail(v: nat, n: nat, w: nat)
    requires
        w <= n,
    ensures
        be_bytes(v, n).skip(n - w) == be_bytes(v, w),
    decreases n,
{
    lemma_be_bytes_len(v, n);
    if w == 0 {
        assert(be_bytes(v, n).skip(n - w) =~= be_bytes(v, w));
    } else {
        let m = (n - 1) as nat;
        let u = (w - 1) as nat;
        lemma_be_bytes_tail(v / 256, m, u);
        lemma_be_bytes_len(v / 256, m);
        lemma_be_bytes_len(v / 256, u);
        assert(be_bytes(v, n).skip(n - w) =~= be_bytes(v / 256, m).skip(m - u).push(
            (v % 256) as u8,
        ));
    }
}

/// One byte more in front is the next higher byte of the number.
pub proof fn lemma_be_bytes_prepend(v: nat, n: nat)
    ensures
        be_bytes(v, n + 1) == seq![((v / pow256(n)) % 256) as u8] + be_bytes(v, n),
    decreases n,
{
    if n == 0 {
        assert(pow256(0) == 1);
        assert(be_bytes(v / 256, 0) =~= Seq::<u8>::empty());
        assert(be_bytes(v, 1) =~= seq![(v % 256) as u8] + be_bytes(v, 0));
    } else {
        let m = (n - 1) as nat;
        let high = ((v / 256) / pow256(m)) % 256;
        lemma_be_bytes_prepend(v / 256, m);
        lemma_pow256_positive(m);
        lemma_div_denominator(v as int, 256, pow256(m) as int);
        assert(pow256(n) == 256 * pow256(m));
        assert((v / 256) / pow256(m) == v / pow256(n));
        assert(be_bytes(v / 256, n) == seq![high as u8] + be_bytes(v / 256, m));
        assert(be_bytes(v, n + 1) == be_bytes(v / 256, n).push((v % 256) as u8));
        assert(be_bytes(v, n) == be_bytes(v / 256, m).push((v % 256) as u8));
        assert(be_bytes(v, n + 1) =~= seq![high as u8] + be_bytes(v, n));
    }
}

/// A number spelled in `n` bytes starts with `n - w` zero bytes exactly when
/// it is below 256 to the `w`.
pub proof fn lemma_leading_zeros_iff_small(v: nat, n: nat, w: nat)
    requires
        w <= n,
        v < pow256(n),
    ensures
        leading_zeros(be_bytes(v, n), n - w) <==> v < pow256(w),
{
    let s = be_bytes(v, n);
    lemma_be_bytes_len(v, n);
    lemma_be_bytes_tail(v, n, w);
    lemma_be_bytes_len(v, w);
    lemma_be_value_of_bytes(v, n);
    if leading_zeros(s, n - w) {
        assert(s =~= zeros((n - w) as nat) + be_bytes(v, w));
        lemma_be_value_zero_padded((n - w) as nat, be_bytes(v, w));
        lemma_be_value_bound(be_bytes(v, w));
    }
    if v < pow256(w) {
        lemma_be_value_of_bytes(v, w);
        let t = zeros((n - w) as nat) + be_bytes(v, w);
        lemma_be_value_zero_padded((n - w) as nat, be_bytes(v, w));
        lemma_be_bytes_of_value(t);
        assert(t =~= s);
    }
}

/// Two's complement and back is the identity on the numbers that `n` bytes
/// can hold.
pub proof fn lemma_twos_inverse(x: int, n: nat)
    requires
        n >= 1,
        -(pow256(n) as int) <= 2 * x < pow256(n),
    ensures
        twos(x, n) < pow256(n),
        from_twos(twos(x, n), n) == x,
{
}

/// Takes the next `n` bytes off the front of the cursor, or leaves the cursor
/// where it is when fewer remain.
pub fn take<'a>(buf: &mut &'a [u8], n: usize) -> (r: Result<&'a [u8], PadeDecodeError>)
    ensures
        old(buf)@.len() >= n ==> r is Ok && r->Ok_0@ == old(buf)@.take(n as int) && final(buf)@
            == old(buf)@.skip(n as int),
        old(buf)@.len() < n ==> r == Err::<&[u8], PadeDecodeError>(PadeDecodeError::InvalidSize)
            && final(buf)@ == old(buf)@,
{
    let len = buf.len();
    if len < n {
        return Err(PadeDecodeError::InvalidSize);
    }
    let head = slice_subrange(*buf, 0, n);
    *buf = slice_subrange(*buf, n, len);
    Ok(head)
}

/// The number that up to sixteen bytes spell, most significant byte first.
pub fn fold_be(bytes: &[u8]) -> (v: u128)
    requires
        bytes@.len() <= 16,
    ensures
        v == be_value(bytes@),
{
    let mut acc: u128 = 0;
    let mut i: usize = 0;
    while i < bytes.len()
        invariant
            i <= bytes@.len() <= 16,
            acc == be_value(bytes@.take(i as int)),
        decreases bytes@.len() - i,
    {
        proof {
            let next = bytes@.take(i + 1);
            assert(next.drop_last() =~= bytes@.take(i as int));
            lemma_be_value_bound(bytes@.take(i as int));
            lemma_be_value_bound(next);
            lemma_pow256_monotonic((i + 1) as nat, 16);
            lemma_pow256_values();
        }
        acc = acc * 256 + bytes[i] as u128;
        i = i + 1;
    }
    assert(bytes@.take(i as int) =~= bytes@);
    acc
}

/// The low `n` bytes of `v`, most significant byte first.
pub fn unfold_be(v: u128, n: usize) -> (out: Vec<u8>)
    ensures
        out@ == be_bytes(v as nat, n as nat),
{
    let mut out: Vec<u8> = Vec::new();
    let mut k: usize = 0;
    while k < n
        invariant
            k <= n,
            out@.len() == k,
        decreases n - k,
    {
        out.push(0);
        k = k + 1;
    }
    let mut left: u128 = v;
    let mut j: usize = 0;
    assert(out@.skip(n as int) =~= be_bytes(v as nat, 0));
    assert(pow256(0) == 1);
    while j < n
        invariant
            j <= n,
            out@.len() == n,
            left == v as nat / pow256(j as nat),
            out@.skip(n - j) == be_bytes(v as nat, j as nat),
        decreases n - j,
    {
        let ghost before = out@;
        proof {
            lemma_be_bytes_prepend(v as nat, j as nat);
            lemma_pow256_positive(j as nat);
            lemma_div_denominator(v as int, pow256(j as nat) as int, 256);
        }
        out.set(n - 1 - j, (left % 256) as u8);
        left = left / 256;
        j = j + 1;
        assert(out@.skip(n - j) =~= seq![out@[n - j]] + before.skip(n - j + 1));
    }
    assert(out@.skip(0) =~= out@);
    out
}

/// Whether the first `k` bytes are all zero.
pub fn starts_with_zeros(bytes: &[u8], k: usize) -> (ok: bool)
    requires
        k <= bytes@.len(),
    ensures
        ok == leading_zeros(bytes@, k as int),
{
    let mut i: usize = 0;
    while i < k
        invariant
            i <= k <= bytes@.len(),
            leading_zeros(bytes@, i as int),
        decreases k - i,
    {
        if bytes[i] != 0 {
            return false;
        }
        i = i + 1;
    }
    true
}

/// Appends `more` to `out`.
pub fn append(out: &mut Vec<u8>, more: &[u8])
    ensures
        final(out)@ == old(out)@ + more@,
{
    let mut i: usize = 0;
    while i < more.len()
        invariant
            i <= more@.len(),
            out@ == old(out)@ + more@.take(i as int),
        decreases more@.len() - i,
    {
        out.push(more[i]);
        i = i + 1;
        assert(more@.take(i as int) =~= more@.take(i - 1).push(more@[i - 1]));
    }
    assert(more@.take(i as int) =~= more@);
}

} // verus!
