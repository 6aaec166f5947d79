use crate::codec::{FixedWidth, PadeDecode, PadeEncode};
use crate::error::PadeDecodeError;
use crate::wire::{
    append, be_bytes, be_value, fold_be, from_twos, lemma_be_bytes_len, lemma_be_bytes_of_value,
    lemma_be_value_bound, lemma_be_value_of_bytes, lemma_leading_zeros_iff_small,
    lemma_pow256_monotonic, lemma_pow256_values, pow256, starts_with_zeros, take, twos, unfold_be,
};
use vstd::prelude::*;
use vstd::slice::slice_subrange;

verus! {

/// Copies `N` bytes into an array.
pub fn array_of<const N: usize>(bytes: &[u8]) -> (out: [u8; N])
    requires
        bytes@.len() == N,
    ensures
        out@ == bytes@,
{
    let mut out = [0u8; N];
    let mut i: usize = 0;
    while i < N
        invariant
            i <= N,
            bytes@.len() == N,
            out@.len() == N,
            forall|j: int| 0 <= j < i ==> out@[j] == bytes@[j],
        decreases N - i,
    {
        out[i] = bytes[i];
        i = i + 1;
    }
    assert(out@ =~= bytes@);
    out
}

/// Copies a slice into a fresh vector.
pub fn vec_of(bytes: &[u8]) -> (out: Vec<u8>)
    ensures
        out@ == bytes@,
{
    let mut out = Vec::new();
    append(&mut out, bytes);
    assert(out@ =~= bytes@);
    out
}

/// An unsigned integer of `BYTES` bytes, held most significant byte first.
/// Its view is the number.
#[derive(Clone, Copy, Debug, PartialEq, Eq)]
pub struct Uint<const BYTES: usize> {
    pub be: [u8; BYTES],
}

/// A 160-bit unsigned integer.
pub type U160 = Uint<20>;

/// A 256-bit unsigned integer.
pub type U256 = Uint<32>;

impl<const BYTES: usize> View for Uint<BYTES> {
    type V = nat;

    open spec fn view(&self) -> nat {
        be_value(self.be@)
    }
}

impl<const BYTES: usize> Uint<BYTES> {
    /// The integer with the given bytes, most significant first.
    pub fn from_be_bytes(be: [u8; BYTES]) -> (v: Self)
        ensures
            v.be == be,
    {
        Uint { be }
    }

    /// The bytes of the integer, most significant first.
    pub fn to_be_bytes(&self) -> (be: [u8; BYTES])
        ensures
            be == self.be,
    {
        self.be
    }

    /// The integer that equals `x`, which must fit in `BYTES` bytes; every
    /// `x` does where `BYTES` is at least 16.
    pub fn from_u128(x: u128) -> (v: Self)
        requires
            x < pow256(BYTES as nat),
        ensures
            v@ == x,
    {
        let bytes = unfold_be(x, BYTES);
        proof {
            lemma_be_bytes_len(x as nat, BYTES as nat);
            lemma_be_value_of_bytes(x as nat, BYTES as nat);
        }
        Uint { be: array_of(bytes.as_slice()) }
    }

    /// Whether `x` fits in `BYTES` bytes.
    pub fn holds_u128(x: u128) -> (ok: bool)
        ensures
            ok == (x < pow256(BYTES as nat)),
    {
        proof {
            lemma_pow256_values();
        }
        if BYTES >= 16 {
            proof {
                lemma_pow256_monotonic(16, BYTES as nat);
            }
            true
        } else {
            let bytes = unfold_be(x, 16);
            proof {
                lemma_be_bytes_len(x as nat, 16);
                lemma_leading_zeros_iff_small(x as nat, 16, BYTES as nat);
            }
            starts_with_zeros(bytes.as_slice(), 16 - BYTES)
        }
    }
}

impl<const BYTES: usize> FixedWidth for Uint<BYTES> {
    open spec fn native() -> nat {
        BYTES as nat
    }

    open spec fn be(v: nat) -> Seq<u8> {
        be_bytes(v, BYTES as nat)
    }

    open spec fn of_be(bytes: Seq<u8>) -> nat {
        be_value(bytes)
    }

    fn native_bytes() -> (n: usize) {
        BYTES
    }

    fn to_be_vec(&self) -> (out: Vec<u8>) {
        proof {
            lemma_be_bytes_of_value(self.be@);
        }
        vec_of(self.be.as_slice())
    }

    fn from_be_slice(bytes: &[u8]) -> (v: Self) {
        Uint { be: array_of(bytes) }
    }

    proof fn lemma_be_inverse(v: Self) {
        lemma_be_value_bound(v.be@);
        lemma_be_bytes_len(v@, BYTES as nat);
        lemma_be_value_of_bytes(v@, BYTES as nat);
    }
}

/// A signed integer of 24 bits, held as its two's complement, most
/// significant byte first. Its view is the number.
#[derive(Clone, Copy, Debug, PartialEq, Eq)]
pub struct I24 {
    pub be: [u8; 3],
}

impl View for I24 {
    type V = int;

    open spec fn view(&self) -> int {
        from_twos(be_value(self.be@), 3)
    }
}

impl I24 {
    /// The 24-bit integer that equals `x`, where there is one.
    pub fn new(x: i32) -> (r: Option<I24>)
        ensures
            -0x80_0000 <= x < 0x80_0000 ==> r is Some && r->Some_0@ == x,
            !(-0x80_0000 <= x < 0x80_0000) ==> r is None,
    {
        if x < -0x80_0000 || x >= 0x80_0000 {
            return None;
        }
        let raw: u128 = if x >= 0 {
            x as u128
        } else {
            (x as i64 + 0x100_0000) as u128
        };
        let bytes = unfold_be(raw, 3);
        proof {
            lemma_pow256_values();
            lemma_be_bytes_len(raw as nat, 3);
            lemma_be_value_of_bytes(raw as nat, 3);
        }
        Some(I24 { be: array_of(bytes.as_slice()) })
    }

    /// The integer as an `i32`.
    pub fn to_i32(&self) -> (x: i32)
        ensures
            x == self@,
    {
        proof {
            lemma_pow256_values();
            lemma_be_value_bound(self.be@);
        }
        let raw: u128 = fold_be(self.be.as_slice());
        if raw < 0x80_0000 {
            raw as i32
        } else {
            (raw as i32) - 0x100_0000
        }
    }
}

impl FixedWidth for I24 {
    open spec fn native() -> nat {
        3
    }

    open spec fn be(v: int) -> Seq<u8> {
        be_bytes(twos(v, 3), 3)
    }

    open spec fn of_be(bytes: Seq<u8>) -> int {
        from_twos(be_value(bytes), 3)
    }

    fn native_bytes() -> (n: usize) {
        3
    }

    fn to_be_vec(&self) -> (out: Vec<u8>) {
        proof {
            lemma_pow256_values();
            lemma_be_value_bound(self.be@);
            lemma_be_bytes_of_value(self.be@);
        }
        vec_of(self.be.as_slice())
    }

    fn from_be_slice(bytes: &[u8]) -> (v: Self) {
        I24 { be: array_of(bytes) }
    }

    proof fn lemma_be_inverse(v: Self) {
        lemma_pow256_values();
        lemma_be_value_bound(v.be@);
        lemma_be_bytes_len(twos(v@, 3), 3);
        lemma_be_value_of_bytes(twos(v@, 3), 3);
    }
}

/// A 20-byte account address. Its view is the bytes.
#[derive(Clone, Copy, Debug, PartialEq, Eq)]
pub struct Address {
    pub bytes: [u8; 20],
}

impl View for Address {
    type V = Seq<u8>;

    open spec fn view(&self) -> Seq<u8> {
        self.bytes@
    }
}

impl FixedWidth for Address {
    open spec fn native() -> nat {
        20
    }

    open spec fn be(v: Seq<u8>) -> Seq<u8> {
        v
    }

    open spec fn of_be(bytes: Seq<u8>) -> Seq<u8> {
        bytes
    }

    fn native_bytes() -> (n: usize) {
        20
    }

    fn to_be_vec(&self) -> (out: Vec<u8>) {
        vec_of(self.bytes.as_slice())
    }

    fn from_be_slice(bytes: &[u8]) -> (v: Self) {
        Address { bytes: array_of(bytes) }
    }

    proof fn lemma_be_inverse(v: Self) {
    }
}

/// A byte string of fixed length `N`, such as a 32-byte hash. Its view is
/// the bytes. It has no narrowed form.
#[derive(Clone, Copy, Debug, PartialEq, Eq)]
pub struct FixedBytes<const N: usize> {
    pub bytes: [u8; N],
}

impl<const N: usize> View for FixedBytes<N> {
    type V = Seq<u8>;

    open spec fn view(&self) -> Seq<u8> {
        self.bytes@
    }
}

impl<const N: usize> PadeEncode for FixedBytes<N> {
    open spec fn encodable(&self) -> bool {
        true
    }

    open spec fn wire(&self) -> Seq<u8> {
        self.bytes@
    }

    open spec fn header_width() -> nat {
        0
    }

    open spec fn variant_width() -> nat {
        0
    }

    fn pade_encode(&self) -> (out: Vec<u8>) {
        vec_of(self.bytes.as_slice())
    }

    fn pade_header_bits(&self) -> (bits: usize) {
        0
    }

    fn pade_variant_map_bits(&self) -> (bits: usize) {
        0
    }
}

impl<const N: usize> PadeDecode for FixedBytes<N> {
    open spec fn parse(bytes: Seq<u8>, ctx: Option<u8>) -> Result<(Seq<u8>, nat), PadeDecodeError> {
        if bytes.len() < N {
            Err(PadeDecodeError::InvalidSize)
        } else {
            Ok((bytes.take(N as int), N as nat))
        }
    }

    fn pade_decode(buf: &mut &[u8], ctx: Option<u8>) -> (r: Result<Self, PadeDecodeError>) {
        match take(buf, N) {
            Ok(head) => Ok(FixedBytes { bytes: array_of(head) }),
            Err(e) => Err(e),
        }
    }
}

/// The longest byte string that has an encoding: its length must fit in the
/// three bytes of the prefix.
pub const MAX_BYTES_LEN: usize = 0xFF_FFFF;

/// A byte string of variable length, written as a three-byte length and then
/// the bytes. Its view is the bytes.
#[derive(Clone, Debug, PartialEq, Eq)]
pub struct Bytes {
    pub data: Vec<u8>,
}

impl View for Bytes {
    type V = Seq<u8>;

    open spec fn view(&self) -> Seq<u8> {
        self.data@
    }
}

/// A byte string behind its three-byte length.
pub open spec fn bytes_wire(data: Seq<u8>) -> Seq<u8> {
    be_bytes(data.len(), 3) + data
}

/// The byte string at the front of `bytes`, and the bytes it takes.
pub open spec fn bytes_parse(bytes: Seq<u8>) -> Result<(Seq<u8>, nat), PadeDecodeError> {
    if bytes.len() < 3 {
        Err(PadeDecodeError::InvalidSize)
    } else {
        let len = be_value(bytes.take(3));
        if bytes.len() - 3 < len {
            Err(PadeDecodeError::InvalidSize)
        } else {
            Ok((bytes.subrange(3, 3 + len as int), 3 + len))
        }
    }
}

impl Bytes {
    /// The byte string with the given bytes.
    pub fn copy_from_slice(data: &[u8]) -> (b: Bytes)
        ensures
            b@ == data@,
    {
        Bytes { data: vec_of(data) }
    }

    /// Whether the byte string is short enough to be encoded.
    pub fn is_encodable(&self) -> (ok: bool)
        ensures
            ok == self.encodable(),
    {
        self.data.len() <= MAX_BYTES_LEN
    }
}

impl PadeEncode for Bytes {
    open spec fn encodable(&self) -> bool {
        self.data@.len() <= MAX_BYTES_LEN
    }

    open spec fn wire(&self) -> Seq<u8> {
        bytes_wire(self.data@)
    }

    open spec fn header_width() -> nat {
        0
    }

    open spec fn variant_width() -> nat {
        0
    }

    fn pade_encode(&self) -> (out: Vec<u8>) {
        let mut out = unfold_be(self.data.len() as u128, 3);
        append(&mut out, self.data.as_slice());
        out
    }

    fn pade_header_bits(&self) -> (bits: usize) {
        0
    }

    fn pade_variant_map_bits(&self) -> (bits: usize) {
        0
    }
}

impl PadeDecode for Bytes {
    open spec fn parse(bytes: Seq<u8>, ctx: Option<u8>) -> Result<(Seq<u8>, nat), PadeDecodeError> {
        bytes_parse(bytes)
    }

    fn pade_decode(buf: &mut &[u8], ctx: Option<u8>) -> (r: Result<Self, PadeDecodeError>) {
        let start: &[u8] = *buf;
        let prefix = match take(buf, 3) {
            Ok(prefix) => prefix,
            Err(e) => {
                return Err(e);
            },
        };
        proof {
            lemma_pow256_values();
            lemma_be_value_bound(prefix@);
        }
        let len = fold_be(prefix) as usize;
        match take(buf, len) {
            Ok(body) => {
                assert(body@ =~= start@.subrange(3, 3 + len));
                assert(buf@ =~= start@.skip(3 + len));
                Ok(Bytes { data: vec_of(body) })
            },
            Err(e) => {
                *buf = start;
                Err(e)
            },
        }
    }
}

/// Bytes behind their length are read back, and reading takes exactly the
/// prefix and the bytes.
pub proof fn lemma_bytes_wire_parse(data: Seq<u8>, rest: Seq<u8>)
    requires
        data.len() <= MAX_BYTES_LEN,
    ensures
        bytes_wire(data).len() == 3 + data.len(),
        bytes_parse(bytes_wire(data) + rest) == Ok::<(Seq<u8>, nat), PadeDecodeError>(
            (data, bytes_wire(data).len()),
        ),
{
    let len = data.len();
    let all = bytes_wire(data) + rest;
    lemma_pow256_values();
    lemma_be_bytes_len(len, 3);
    lemma_be_value_of_bytes(len, 3);
    assert(all.take(3) =~= be_bytes(len, 3));
    assert(all.subrange(3, 3 + len as int) =~= data);
}

/// A byte string that is short enough, encoded and decoded, comes back
/// unchanged, and decoding takes exactly the bytes that were written.
pub proof fn lemma_bytes_round_trip(b: Bytes, rest: Seq<u8>)
    requires
        b.encodable(),
    ensures
        b.wire().len() == 3 + b@.len(),
        Bytes::parse(b.wire() + rest, None) == Ok::<(Seq<u8>, nat), PadeDecodeError>(
            (b@, b.wire().len()),
        ),
{
    lemma_bytes_wire_parse(b@, rest);
}

/// A fixed-length byte string, encoded and decoded, comes back unchanged.
pub proof fn lemma_fixed_bytes_round_trip<const N: usize>(b: FixedBytes<N>, rest: Seq<u8>)
    ensures
        b.wire().len() == N,
        FixedBytes::<N>::parse(b.wire() + rest, None) == Ok::<(Seq<u8>, nat), PadeDecodeError>(
            (b@, N as nat),
        ),
{
    assert((b.wire() + rest).take(N as int) =~= b@);
}

/// The parity that a recovery byte stands for: 0 and 1 are the parity
/// itself, 27 and 28 the legacy form, 35 and above the chain-bound form.
/// Other bytes stand for none.
pub open spec fn parity_of(v: u64) -> Option<bool> {
    if v == 0 || v == 27 {
        Some(false)
    } else if v == 1 || v == 28 {
        Some(true)
    } else if v >= 35 {
        Some(v % 2 == 0)
    } else {
        None
    }
}

/// `normalize_v` of alloy-primitives: `None` unless `v` is 0, 1, 27, 28 or at
/// least 35; else whether `v` is odd where `v` is 0 or 1, and whether it is
/// even otherwise.
pub assume_specification[ alloy::primitives::normalize_v ](v: u64) -> (r: Option<bool>)
    ensures
        r == parity_of(v),
;

/// A recoverable signature: the parity of the recovery id and the two
/// scalars.
#[derive(Clone, Copy, Debug, PartialEq, Eq)]
pub struct Signature {
    pub v: bool,
    pub r: U256,
    pub s: U256,
}

/// What a signature holds.
pub ghost struct SignatureView {
    pub v: bool,
    pub r: nat,
    pub s: nat,
}

impl View for Signature {
    type V = SignatureView;

    open spec fn view(&self) -> SignatureView {
        SignatureView { v: self.v, r: self.r@, s: self.s@ }
    }
}

/// The 65 bytes of a signature: the parity as one byte, then the two scalars
/// in 32 bytes each.
pub open spec fn signature_wire(sig: SignatureView) -> Seq<u8> {
    seq![if sig.v { 1u8 } else { 0u8 }] + be_bytes(sig.r, 32) + be_bytes(sig.s, 32)
}

/// The signature at the front of `bytes`.
pub open spec fn signature_parse(bytes: Seq<u8>) -> Result<(SignatureView, nat), PadeDecodeError> {
    if bytes.len() < 65 {
        Err(PadeDecodeError::InvalidSize)
    } else {
        match parity_of(bytes[0] as u64) {
            None => Err(PadeDecodeError::UnknownVariant),
            Some(v) => Ok(
                (
                    SignatureView {
                        v,
                        r: be_value(bytes.subrange(1, 33)),
                        s: be_value(bytes.subrange(33, 65)),
                    },
                    65,
                ),
            ),
        }
    }
}

impl Signature {
    /// The signature with the given scalars and parity.
    pub fn new(r: U256, s: U256, v: bool) -> (sig: Signature)
        ensures
            sig == (Signature { v, r, s }),
    {
        Signature { v, r, s }
    }
}

impl PadeEncode for Signature {
    open spec fn encodable(&self) -> bool {
        true
    }

    open spec fn wire(&self) -> Seq<u8> {
        signature_wire(self@)
    }

    open spec fn header_width() -> nat {
        0
    }

    open spec fn variant_width() -> nat {
        0
    }

    fn pade_encode(&self) -> (out: Vec<u8>) {
        let mut out: Vec<u8> = Vec::new();
        out.push(if self.v { 1 } else { 0 });
        let r = self.r.to_be_vec();
        let s = self.s.to_be_vec();
        append(&mut out, r.as_slice());
        append(&mut out, s.as_slice());
        assert(out@ =~= signature_wire(self@));
        out
    }

    fn pade_header_bits(&self) -> (bits: usize) {
        0
    }

    fn pade_variant_map_bits(&self) -> (bits: usize) {
        0
    }
}

impl PadeDecode for Signature {
    open spec fn parse(bytes: Seq<u8>, ctx: Option<u8>) -> Result<
        (SignatureView, nat),
        PadeDecodeError,
    > {
        signature_parse(bytes)
    }

    fn pade_decode(buf: &mut &[u8], ctx: Option<u8>) -> (r: Result<Self, PadeDecodeError>) {
        if buf.len() < 65 {
            return Err(PadeDecodeError::InvalidSize);
        }
        let all: &[u8] = *buf;
        let v = match alloy::primitives::normalize_v(all[0] as u64) {
            Some(v) => v,
            None => {
                return Err(PadeDecodeError::UnknownVariant);
            },
        };
        let r = U256::from_be_slice(slice_subrange(all, 1, 33));
        let s = U256::from_be_slice(slice_subrange(all, 33, 65));
        *buf = slice_subrange(all, 65, all.len());
        Ok(Signature { v, r, s })
    }
}

/// The 65 bytes of a signature whose scalars fit in 32 bytes are read back
/// as that signature.
pub proof fn lemma_signature_wire_parse(sig: SignatureView, rest: Seq<u8>)
    requires
        sig.r < pow256(32),
        sig.s < pow256(32),
    ensures
        signature_wire(sig).len() == 65,
        signature_parse(signature_wire(sig) + rest) == Ok::<(SignatureView, nat), PadeDecodeError>(
            (sig, 65),
        ),
{
    let all = signature_wire(sig) + rest;
    lemma_be_bytes_len(sig.r, 32);
    lemma_be_bytes_len(sig.s, 32);
    lemma_be_value_of_bytes(sig.r, 32);
    lemma_be_value_of_bytes(sig.s, 32);
    assert(all.subrange(1, 33) =~= be_bytes(sig.r, 32));
    assert(all.subrange(33, 65) =~= be_bytes(sig.s, 32));
    assert(all[0] == if sig.v { 1u8 } else { 0u8 });
}

/// A signature, encoded and decoded, comes back unchanged, and its encoding
/// is 65 bytes.
pub proof fn lemma_signature_round_trip(sig: Signature, rest: Seq<u8>)
    ensures
        sig.wire().len() == 65,
        Signature::parse(sig.wire() + rest, None) == Ok::<(SignatureView, nat), PadeDecodeError>(
            (sig@, 65),
        ),
{
    lemma_be_value_bound(sig.r.be@);
    lemma_be_value_bound(sig.s.be@);
    lemma_signature_wire_parse(sig@, rest);
}

} // verus!
