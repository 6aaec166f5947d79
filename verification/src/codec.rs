use crate::error::PadeDecodeError;
use crate::wire::{append, leading_zeros, starts_with_zeros, take, zeros};
use vstd::prelude::*;
use vstd::slice::slice_subrange;

verus! {

/// A value that can be written in the packed encoding.
pub trait PadeEncode {
    /// The values that have an encoding. For most types every value has one.
    spec fn encodable(&self) -> bool;

    /// The bytes the value is written as.
    spec fn wire(&self) -> Seq<u8>;

    /// The bits a field of this type takes in a shared header.
    spec fn header_width() -> nat;

    /// Of those bits, the ones that select a variant.
    spec fn variant_width() -> nat;

    /// Encodes the value.
    fn pade_encode(&self) -> (out: Vec<u8>)
        requires
            self.encodable(),
        ensures
            out@ == self.wire(),
    ;

    /// The bits a field of this type takes in a shared header. It depends on
    /// the type alone, never on the value.
    fn pade_header_bits(&self) -> (bits: usize)
        ensures
            bits == Self::header_width(),
    ;

    /// The bits that select a variant of this type.
    fn pade_variant_map_bits(&self) -> (bits: usize)
        ensures
            bits == Self::variant_width(),
    ;
}

/// What a decoder owes: where `expected` is a value and a length, `got` is a
/// value with that view and the cursor has moved on by that length; where it
/// is an error, `got` is that error and the cursor has not moved.
pub open spec fn decoded_as<T: View>(
    expected: Result<(T::V, nat), PadeDecodeError>,
    got: Result<T, PadeDecodeError>,
    before: Seq<u8>,
    after: Seq<u8>,
) -> bool {
    match expected {
        Ok((v, n)) => got is Ok && got->Ok_0@ == v && n <= before.len() && after =~= before.skip(
            n as int,
        ),
        Err(e) => got == Err::<T, PadeDecodeError>(e) && after =~= before,
    }
}

/// A value that can be read from the packed encoding.
pub trait PadeDecode: Sized + View {
    /// What the front of `bytes` decodes to, and how many bytes that takes.
    /// `ctx` holds the bits that were already taken from a shared header for
    /// this field; only types with header bits look at it.
    spec fn parse(bytes: Seq<u8>, ctx: Option<u8>) -> Result<(Self::V, nat), PadeDecodeError>;

    /// Decodes one value from the front of the cursor and moves the cursor
    /// past it. On failure the cursor stays where it was.
    fn pade_decode(buf: &mut &[u8], ctx: Option<u8>) -> (r: Result<Self, PadeDecodeError>)
        ensures
            decoded_as::<Self>(Self::parse(old(buf)@, ctx), r, old(buf)@, final(buf)@),
    ;
}

/// A type whose encoding is a fixed number of bytes, most significant first.
pub trait FixedWidth: Sized + View {
    /// The type's own width in bytes.
    spec fn native() -> nat;

    /// The bytes of a value.
    spec fn be(v: Self::V) -> Seq<u8>;

    /// The value that `native()` bytes hold.
    spec fn of_be(bytes: Seq<u8>) -> Self::V;

    /// The type's own width in bytes.
    fn native_bytes() -> (n: usize)
        ensures
            n == Self::native(),
    ;

    /// The bytes of the value.
    fn to_be_vec(&self) -> (out: Vec<u8>)
        ensures
            out@ == Self::be(self@),
    ;

    /// The value that the bytes hold.
    fn from_be_slice(bytes: &[u8]) -> (v: Self)
        requires
            bytes@.len() == Self::native(),
        ensures
            v@ == Self::of_be(bytes@),
    ;

    /// The bytes of a value have the type's width and hold that value.
    proof fn lemma_be_inverse(v: Self)
        ensures
            Self::be(v@).len() == Self::native(),
            Self::of_be(Self::be(v@)) == v@,
    ;
}

impl<T: FixedWidth> PadeEncode for T {
    open spec fn encodable(&self) -> bool {
        true
    }

    open spec fn wire(&self) -> Seq<u8> {
        T::be(self@)
    }

    open spec fn header_width() -> nat {
        0
    }

    open spec fn variant_width() -> nat {
        0
    }

    fn pade_encode(&self) -> (out: Vec<u8>) {
        self.to_be_vec()
    }

    fn pade_header_bits(&self) -> (bits: usize) {
        0
    }

    fn pade_variant_map_bits(&self) -> (bits: usize) {
        0
    }
}

impl<T: FixedWidth> PadeDecode for T {
    open spec fn parse(bytes: Seq<u8>, ctx: Option<u8>) -> Result<(Self::V, nat), PadeDecodeError> {
        if bytes.len() < T::native() {
            Err(PadeDecodeError::InvalidSize)
        } else {
            Ok((T::of_be(bytes.take(T::native() as int)), T::native()))
        }
    }

    fn pade_decode(buf: &mut &[u8], ctx: Option<u8>) -> (r: Result<Self, PadeDecodeError>) {
        match take(buf, T::native_bytes()) {
            Ok(head) => Ok(T::from_be_slice(head)),
            Err(e) => Err(e),
        }
    }
}

/// A fixed-width value that a field may declare narrower on the wire than it
/// is in memory.
pub trait PadeWidth: PadeEncode + PadeDecode {
    /// The value can be written in `width` bytes: the width is not above the
    /// type's own, and the bytes that are left out are all zero.
    spec fn fits(&self, width: nat) -> bool;

    /// The value written in `width` bytes.
    spec fn narrow_wire(&self, width: nat) -> Seq<u8>;

    /// What the front of `bytes` decodes to when the value was written in
    /// `width` bytes.
    spec fn parse_narrow(bytes: Seq<u8>, width: nat) -> Result<(Self::V, nat), PadeDecodeError>;

    /// Whether the value can be written in `width` bytes.
    fn pade_fits_width(&self, width: usize) -> (ok: bool)
        ensures
            ok == self.fits(width as nat),
    ;

    /// Writes the value in `width` bytes.
    fn pade_encode_with_width(&self, width: usize) -> (out: Vec<u8>)
        requires
            self.fits(width as nat),
        ensures
            out@ == self.narrow_wire(width as nat),
    ;

    /// Reads a value that was written in `width` bytes: the bytes are padded
    /// with zeros on the left to the type's own width.
    fn pade_decode_with_width(buf: &mut &[u8], width: usize, ctx: Option<u8>) -> (r: Result<
        Self,
        PadeDecodeError,
    >)
        ensures
            decoded_as::<Self>(
                Self::parse_narrow(old(buf)@, width as nat),
                r,
                old(buf)@,
                final(buf)@,
            ),
    ;

    /// A value that fits in `width` bytes, written in `width` bytes and read
    /// at the same width, comes back unchanged.
    proof fn lemma_narrow_round_trip(v: Self, width: nat, rest: Seq<u8>)
        requires
            v.fits(width),
        ensures
            v.narrow_wire(width).len() == width,
            Self::parse_narrow(v.narrow_wire(width) + rest, width) == Ok::<
                (Self::V, nat),
                PadeDecodeError,
            >((v@, width)),
    ;
}

impl<T: FixedWidth> PadeWidth for T {
    open spec fn fits(&self, width: nat) -> bool {
        width <= T::native() && leading_zeros(T::be(self@), T::native() - width)
    }

    open spec fn narrow_wire(&self, width: nat) -> Seq<u8> {
        T::be(self@).skip(T::native() - width)
    }

    open spec fn parse_narrow(bytes: Seq<u8>, width: nat) -> Result<
        (Self::V, nat),
        PadeDecodeError,
    > {
        if width > T::native() {
            Err(PadeDecodeError::IncorrectWidth)
        } else if bytes.len() < width {
            Err(PadeDecodeError::InvalidSize)
        } else {
            Ok((T::of_be(zeros((T::native() - width) as nat) + bytes.take(width as int)), width))
        }
    }

    fn pade_fits_width(&self, width: usize) -> (ok: bool) {
        let native = T::native_bytes();
        if width > native {
            return false;
        }
        let bytes = self.to_be_vec();
        proof {
            T::lemma_be_inverse(*self);
        }
        starts_with_zeros(bytes.as_slice(), native - width)
    }

    fn pade_encode_with_width(&self, width: usize) -> (out: Vec<u8>) {
        let bytes = self.to_be_vec();
        proof {
            T::lemma_be_inverse(*self);
        }
        let native = T::native_bytes();
        let mut out = Vec::new();
        append(&mut out, slice_subrange(bytes.as_slice(), native - width, native));
        assert(out@ =~= bytes@.skip(native - width));
        out
    }

    fn pade_decode_with_width(buf: &mut &[u8], width: usize, ctx: Option<u8>) -> (r: Result<
        Self,
        PadeDecodeError,
    >) {
        let native = T::native_bytes();
        if width > native {
            return Err(PadeDecodeError::IncorrectWidth);
        }
        match take(buf, width) {
            Ok(head) => {
                let mut padded: Vec<u8> = Vec::new();
                let mut i: usize = 0;
                while i < native - width
                    invariant
                        i <= native - width,
                        padded@ == zeros(i as nat),
                    decreases native - width - i,
                {
                    padded.push(0);
                    i = i + 1;
                    assert(padded@ =~= zeros(i as nat));
                }
                append(&mut padded, head);
                Ok(T::from_be_slice(padded.as_slice()))
            },
            Err(e) => Err(e),
        }
    }

    proof fn lemma_narrow_round_trip(v: Self, width: nat, rest: Seq<u8>) {
        T::lemma_be_inverse(v);
        let full = T::be(v@);
        let narrow = v.narrow_wire(width);
        assert((narrow + rest).take(width as int) =~= narrow);
        assert(zeros((T::native() - width) as nat) + narrow =~= full);
    }
}

/// Decoding what `pade_encode` wrote gives the value back and takes exactly
/// the bytes that were written, whatever follows them.
pub proof fn lemma_fixed_round_trip<T: FixedWidth>(v: T, rest: Seq<u8>)
    ensures
        v.wire().len() == T::native(),
        T::parse(v.wire() + rest, None) == Ok::<(T::V, nat), PadeDecodeError>((v@, T::native())),
{
    T::lemma_be_inverse(v);
    assert((v.wire() + rest).take(T::native() as int) =~= v.wire());
}

/// A width above the type's own is rejected, whatever the bytes are.
pub proof fn lemma_width_above_native_is_rejected<T: FixedWidth>(bytes: Seq<u8>, width: nat)
    requires
        width > T::native(),
    ensures
        T::parse_narrow(bytes, width) == Err::<(T::V, nat), PadeDecodeError>(
            PadeDecodeError::IncorrectWidth,
        ),
{
}

} // verus!
