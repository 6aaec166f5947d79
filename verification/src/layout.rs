use crate::bits::{bits_of, bits_value, header_len, pack, spec_tag_bits, unpack};
use crate::domain::{
    bytes_parse, bytes_wire, signature_parse, signature_wire, Bytes, Signature, SignatureView,
    MAX_BYTES_LEN,
};
use crate::error::PadeDecodeError;
use crate::wire::{be_bytes, be_value, leading_zeros, pow256, zeros};
use vstd::prelude::*;

verus! {

/// The most elements a sequence can have: the count is written in two bytes.
pub const MAX_SEQUENCE_LEN: usize = 0xFFFF;

/// How a type is laid out on the wire: the role of each field, in the order
/// of declaration.
#[derive(Debug, PartialEq, Eq)]
pub enum Layout {
    /// A flag: one bit in the shared header, no bytes of its own.
    Bool,
    /// A value of the given number of bytes, most significant first.
    Fixed(usize),
    /// A value of `.0` bytes of which only the last `.1` are written.
    Narrow(usize, usize),
    /// A byte string behind a three-byte length.
    Bytes,
    /// A 65-byte signature.
    Signature,
    /// A value that may be absent: one bit in the shared header, and the
    /// value itself where the bit is set.
    Optional(Box<Layout>),
    /// A two-byte count and that many elements.
    Sequence(Box<Layout>),
    /// The fields of a struct.
    Struct(Vec<Layout>),
    /// The variants of an enum, each with the layout of what it carries: a
    /// tag in the shared header, then the variant's own encoding.
    Enum(Vec<Layout>),
}

/// A value of some layout.
#[derive(Debug, PartialEq, Eq)]
pub enum Value {
    Bool(bool),
    /// The bytes of a fixed-width value at its full width.
    Fixed(Vec<u8>),
    Bytes(Bytes),
    Signature(Signature),
    Optional(Option<Box<Value>>),
    Sequence(Vec<Value>),
    Struct(Vec<Value>),
    /// The index of the variant and what it carries.
    Enum(usize, Box<Value>),
}

/// What a value holds.
pub ghost enum ValueView {
    Bool(bool),
    Fixed(Seq<u8>),
    Bytes(Seq<u8>),
    Signature(SignatureView),
    Optional(Option<Box<ValueView>>),
    Sequence(Seq<ValueView>),
    Struct(Seq<ValueView>),
    Enum(nat, Box<ValueView>),
}

/// What a value holds: the bytes of its leaves and the shape around them.
pub open spec fn value_view(v: Value) -> ValueView
    decreases v,
{
    match v {
        Value::Bool(b) => ValueView::Bool(b),
        Value::Fixed(b) => ValueView::Fixed(b@),
        Value::Bytes(b) => ValueView::Bytes(b@),
        Value::Signature(s) => ValueView::Signature(s@),
        Value::Optional(None) => ValueView::Optional(None),
        Value::Optional(Some(x)) => ValueView::Optional(Some(Box::new(value_view(*x)))),
        Value::Sequence(vs) => ValueView::Sequence(views(vs)),
        Value::Struct(vs) => ValueView::Struct(views(vs)),
        Value::Enum(i, x) => ValueView::Enum(i as nat, Box::new(value_view(*x))),
    }
}

/// What each of `vs` holds.
pub open spec fn views(vs: Vec<Value>) -> Seq<ValueView>
    decreases vs,
{
    Seq::new(
        vs.len() as nat,
        |k: int|
            if 0 <= k < vs.len() {
                value_view(vs[k])
            } else {
                ValueView::Bool(false)
            },
    )
}

impl View for Value {
    type V = ValueView;

    open spec fn view(&self) -> ValueView {
        value_view(*self)
    }
}

/// The bits a field of this layout takes in a shared header. It depends on
/// the layout alone.
pub open spec fn header_width(l: Layout) -> nat {
    match l {
        Layout::Bool => 1,
        Layout::Optional(_) => 1,
        Layout::Enum(variants) => spec_tag_bits(variants.len() as nat),
        _ => 0,
    }
}

/// Of the header bits, those that select a variant.
pub open spec fn variant_width(l: Layout) -> nat {
    match l {
        Layout::Optional(_) => 1,
        Layout::Enum(variants) => spec_tag_bits(variants.len() as nat),
        _ => 0,
    }
}

/// The value is one of the layout and can be written: every width holds,
/// every narrowed field fits its width, every tag names a variant, and no
/// byte string or sequence is longer than its length prefix can say.
pub open spec fn conforms(l: Layout, v: ValueView) -> bool
    decreases l,
{
    match l {
        Layout::Bool => v is Bool,
        Layout::Fixed(n) => v matches ValueView::Fixed(b) && b.len() == n,
        Layout::Narrow(n, w) => v matches ValueView::Fixed(b) && w <= n && b.len() == n
            && leading_zeros(b, n - w),
        Layout::Bytes => v matches ValueView::Bytes(b) && b.len() <= MAX_BYTES_LEN,
        Layout::Signature => v matches ValueView::Signature(s) && s.r < pow256(32) && s.s < pow256(
            32,
        ),
        Layout::Optional(inner) => v matches ValueView::Optional(o) && (o matches Some(x)
            ==> conforms(*inner, *x)),
        Layout::Sequence(elem) => v matches ValueView::Sequence(vs) && vs.len() <= MAX_SEQUENCE_LEN
            && forall|k: int| 0 <= k < vs.len() ==> conforms(*elem, #[trigger] vs[k]),
        Layout::Struct(fields) => v matches ValueView::Struct(vs) && all_conform(fields, vs, 0),
        Layout::Enum(variants) => v matches ValueView::Enum(i, x) && i < variants.len() && conforms(
            variants[i as int],
            *x,
        ),
    }
}

/// There is a value for each field, and from field `i` on each conforms.
pub open spec fn all_conform(fields: Vec<Layout>, vs: Seq<ValueView>, i: nat) -> bool
    decreases fields, fields.len() - i,
{
    fields.len() == vs.len() && (i < fields.len() ==> conforms(fields[i as int], vs[i as int])
        && all_conform(fields, vs, i + 1))
}

/// The bits that the value puts into the shared header.
pub open spec fn head_bits(l: Layout, v: ValueView) -> Seq<bool> {
    match l {
        Layout::Bool => seq![v is Bool && v->Bool_0],
        Layout::Optional(_) => seq![v is Optional && v->Optional_0 is Some],
        Layout::Enum(variants) => bits_of(
            if v is Enum {
                v->Enum_0
            } else {
                0
            },
            spec_tag_bits(variants.len() as nat),
        ),
        _ => Seq::empty(),
    }
}

/// The bytes of a value on its own: its header, if it has one, and its body.
pub open spec fn encoding(l: Layout, v: ValueView) -> Seq<u8>
    decreases l, 2nat,
{
    pack(head_bits(l, v)) + body(l, v)
}

/// The bytes that the value puts behind the header.
pub open spec fn body(l: Layout, v: ValueView) -> Seq<u8>
    decreases l, 1nat,
{
    match l {
        Layout::Bool => Seq::empty(),
        Layout::Fixed(n) => if v is Fixed {
            v->Fixed_0
        } else {
            Seq::empty()
        },
        Layout::Narrow(n, w) => if v is Fixed {
            v->Fixed_0.skip(n - w)
        } else {
            Seq::empty()
        },
        Layout::Bytes => if v is Bytes {
            bytes_wire(v->Bytes_0)
        } else {
            Seq::empty()
        },
        Layout::Signature => if v is Signature {
            signature_wire(v->Signature_0)
        } else {
            Seq::empty()
        },
        Layout::Optional(inner) => match v {
            ValueView::Optional(Some(x)) => encoding(*inner, *x),
            _ => Seq::empty(),
        },
        Layout::Sequence(elem) => match v {
            ValueView::Sequence(vs) => be_bytes(vs.len(), 2) + sequence_bytes(*elem, vs, 0),
            _ => Seq::empty(),
        },
        Layout::Struct(fields) => match v {
            ValueView::Struct(vs) => struct_bytes(fields, vs, 0),
            _ => Seq::empty(),
        },
        Layout::Enum(variants) => match v {
            ValueView::Enum(i, x) => if i < variants.len() {
                encoding(variants[i as int], *x)
            } else {
                Seq::empty()
            },
            _ => Seq::empty(),
        },
    }
}

/// The encodings of the elements from `i` on, one after the other.
pub open spec fn sequence_bytes(elem: Layout, vs: Seq<ValueView>, i: nat) -> Seq<u8>
    decreases elem, 3 + vs.len() - i,
{
    if i >= vs.len() {
        Seq::empty()
    } else {
        encoding(elem, vs[i as int]) + sequence_bytes(elem, vs, i + 1)
    }
}

/// Field `i` has header bits and the field before it has none: a run of
/// fields that share a header starts here.
pub open spec fn starts_run(fields: Vec<Layout>, i: nat) -> bool {
    header_width(fields[i as int]) > 0 && (i == 0 || header_width(fields[i - 1]) == 0)
}

/// The header bits of the fields from `i` up to the next field without any.
pub open spec fn run_width(fields: Vec<Layout>, i: nat) -> nat
    decreases fields.len() - i,
{
    if i >= fields.len() || header_width(fields[i as int]) == 0 {
        0
    } else {
        header_width(fields[i as int]) + run_width(fields, i + 1)
    }
}

/// The bits that the values from `i` up to the next field without header
/// bits put into their shared header, in the order of the fields.
pub open spec fn run_bits(fields: Vec<Layout>, vs: Seq<ValueView>, i: nat) -> Seq<bool>
    decreases fields.len() - i,
{
    if i >= fields.len() || header_width(fields[i as int]) == 0 {
        Seq::empty()
    } else {
        head_bits(fields[i as int], vs[i as int]) + run_bits(fields, vs, i + 1)
    }
}

/// The bytes of field `i`: where a run starts at it, the header of the whole
/// run; then the body of the field.
pub open spec fn field_bytes(fields: Vec<Layout>, vs: Seq<ValueView>, i: nat) -> Seq<u8>
    decreases fields, 0nat,
{
    if i >= fields.len() {
        Seq::empty()
    } else {
        (if starts_run(fields, i) {
            pack(run_bits(fields, vs, i))
        } else {
            Seq::empty()
        }) + body(fields[i as int], vs[i as int])
    }
}

/// The bytes of the fields from `i` on, one after the other.
pub open spec fn struct_bytes(fields: Vec<Layout>, vs: Seq<ValueView>, i: nat) -> Seq<u8>
    decreases fields, 1 + fields.len() - i,
{
    if i >= fields.len() {
        Seq::empty()
    } else {
        field_bytes(fields, vs, i) + struct_bytes(fields, vs, i + 1)
    }
}

/// A result with `k` more bytes taken in front of it.
pub open spec fn after(k: nat, r: Result<(ValueView, nat), PadeDecodeError>) -> Result<
    (ValueView, nat),
    PadeDecodeError,
> {
    match r {
        Ok((v, n)) => Ok((v, k + n)),
        Err(e) => Err(e),
    }
}

/// The values `first`, which took `k` bytes, and then what `rest` gave.
pub open spec fn join(
    first: Seq<ValueView>,
    k: nat,
    rest: Result<(Seq<ValueView>, nat), PadeDecodeError>,
) -> Result<(Seq<ValueView>, nat), PadeDecodeError> {
    match rest {
        Ok((vs, n)) => Ok((first + vs, k + n)),
        Err(e) => Err(e),
    }
}

/// What the front of `bytes` decodes to as a value on its own, and how many
/// bytes that takes: the header, where the layout has header bits, and then
/// the body.
pub open spec fn parse(l: Layout, bytes: Seq<u8>) -> Result<(ValueView, nat), PadeDecodeError>
    decreases l, 2nat,
{
    let width = header_width(l);
    let need = header_len(width);
    if width == 0 {
        parse_body(l, bytes, 0)
    } else if bytes.len() < need {
        Err(PadeDecodeError::InvalidSize)
    } else {
        after(
            need,
            parse_body(
                l,
                bytes.skip(need as int),
                bits_value(unpack(bytes.take(need as int), 0, width)),
            ),
        )
    }
}

/// What the front of `bytes` decodes to behind the header, where `field` is
/// the number that the value's header bits spell.
pub open spec fn parse_body(l: Layout, bytes: Seq<u8>, field: nat) -> Result<
    (ValueView, nat),
    PadeDecodeError,
>
    decreases l, 1nat,
{
    match l {
        Layout::Bool => Ok((ValueView::Bool(field != 0), 0)),
        Layout::Fixed(n) => if bytes.len() < n {
            Err(PadeDecodeError::InvalidSize)
        } else {
            Ok((ValueView::Fixed(bytes.take(n as int)), n as nat))
        },
        Layout::Narrow(n, w) => if w > n {
            Err(PadeDecodeError::IncorrectWidth)
        } else if bytes.len() < w {
            Err(PadeDecodeError::InvalidSize)
        } else {
            Ok((ValueView::Fixed(zeros((n - w) as nat) + bytes.take(w as int)), w as nat))
        },
        Layout::Bytes => match bytes_parse(bytes) {
            Ok((b, n)) => Ok((ValueView::Bytes(b), n)),
            Err(e) => Err(e),
        },
        Layout::Signature => match signature_parse(bytes) {
            Ok((s, n)) => Ok((ValueView::Signature(s), n)),
            Err(e) => Err(e),
        },
        Layout::Optional(inner) => if field != 0 {
            match parse(*inner, bytes) {
                Ok((x, n)) => Ok((ValueView::Optional(Some(Box::new(x))), n)),
                Err(e) => Err(e),
            }
        } else {
            Ok((ValueView::Optional(None), 0))
        },
        Layout::Sequence(elem) => if bytes.len() < 2 {
            Err(PadeDecodeError::InvalidSize)
        } else {
            match parse_sequence(*elem, bytes.skip(2), be_value(bytes.take(2))) {
                Ok((vs, n)) => Ok((ValueView::Sequence(vs), 2 + n)),
                Err(e) => Err(e),
            }
        },
        Layout::Struct(fields) => match parse_fields(fields, Seq::empty(), 0, bytes, 0) {
            Ok((vs, n)) => Ok((ValueView::Struct(vs), n)),
            Err(e) => Err(e),
        },
        Layout::Enum(variants) => if field >= variants.len() {
            Err(PadeDecodeError::UnknownVariant)
        } else {
            match parse(variants[field as int], bytes) {
                Ok((x, n)) => Ok((ValueView::Enum(field, Box::new(x)), n)),
                Err(e) => Err(e),
            }
        },
    }
}

/// What the front of `bytes` decodes to as `count` elements.
pub open spec fn parse_sequence(elem: Layout, bytes: Seq<u8>, count: nat) -> Result<
    (Seq<ValueView>, nat),
    PadeDecodeError,
>
    decreases elem, 3 + count,
{
    if count == 0 {
        Ok((Seq::empty(), 0))
    } else {
        match parse(elem, bytes) {
            Ok((x, n)) => join(
                seq![x],
                n,
                parse_sequence(elem, bytes.skip(n as int), (count - 1) as nat),
            ),
            Err(e) => Err(e),
        }
    }
}

/// What reading one field of a struct gives: the value, the bytes taken,
/// and the header and bit offset at which the next field goes on.
pub ghost struct FieldStep {
    pub value: ValueView,
    pub taken: nat,
    pub header: Seq<u8>,
    pub offset: nat,
}

/// What the front of `bytes` decodes to as field `i`. A field without header
/// bits is read from the bytes alone. A field that starts a run first takes
/// the header of the whole run, whose size the layouts of the run's fields
/// fix. A field that goes on a run takes its bits from `header` at `offset`.
pub open spec fn parse_field(
    fields: Vec<Layout>,
    header: Seq<u8>,
    offset: nat,
    bytes: Seq<u8>,
    i: nat,
) -> Result<FieldStep, PadeDecodeError>
    decreases fields, 0nat,
{
    if i >= fields.len() {
        Err(PadeDecodeError::InvalidSize)
    } else {
        let l = fields[i as int];
        let width = header_width(l);
        if width == 0 {
            match parse_body(l, bytes, 0) {
                Ok((x, n)) => Ok(FieldStep { value: x, taken: n, header, offset }),
                Err(e) => Err(e),
            }
        } else if starts_run(fields, i) {
            let need = header_len(run_width(fields, i));
            if bytes.len() < need {
                Err(PadeDecodeError::InvalidSize)
            } else {
                let fresh = bytes.take(need as int);
                match parse_body(l, bytes.skip(need as int), bits_value(unpack(fresh, 0, width))) {
                    Ok((x, n)) => Ok(
                        FieldStep { value: x, taken: need + n, header: fresh, offset: width },
                    ),
                    Err(e) => Err(e),
                }
            }
        } else {
            match parse_body(l, bytes, bits_value(unpack(header, offset as int, width))) {
                Ok((x, n)) => Ok(
                    FieldStep { value: x, taken: n, header, offset: offset + width },
                ),
                Err(e) => Err(e),
            }
        }
    }
}

/// What the front of `bytes` decodes to as the fields from `i` on, one
/// after the other.
pub open spec fn parse_fields(
    fields: Vec<Layout>,
    header: Seq<u8>,
    offset: nat,
    bytes: Seq<u8>,
    i: nat,
) -> Result<(Seq<ValueView>, nat), PadeDecodeError>
    decreases fields, 1 + fields.len() - i,
{
    if i >= fields.len() {
        Ok((Seq::empty(), 0))
    } else {
        match parse_field(fields, header, offset, bytes, i) {
            Ok(step) => join(
                seq![step.value],
                step.taken,
                parse_fields(fields, step.header, step.offset, bytes.skip(step.taken as int), i + 1),
            ),
            Err(e) => Err(e),
        }
    }
}

} // verus!
