use crate::bits::{pack_bits, push_bits, read_bits, tag_bits};
use crate::codec::{decoded_as, FixedWidth, PadeDecode, PadeEncode};
use crate::domain::{vec_of, Bytes, Signature};
use crate::error::PadeDecodeError;
use crate::layout::{
    all_conform, body, conforms, encoding, field_bytes, head_bits, header_width, join, parse, parse_body,
    parse_field, parse_fields, parse_sequence, run_bits, run_width, sequence_bytes, starts_run, struct_bytes,
    variant_width, views, FieldStep, Layout, Value, ValueView, MAX_SEQUENCE_LEN,
};
use crate::wire::{
    append, be_bytes, be_value, fold_be, lemma_be_value_bound, lemma_pow256_values,
    starts_with_zeros, take, unfold_be, zeros,
};
use vstd::prelude::*;
use vstd::slice::slice_subrange;

verus! {

/// The bits a field of this layout takes in a shared header.
pub fn header_bits(l: &Layout) -> (bits: usize)
    ensures
        bits == header_width(*l),
        bits <= 64,
{
    match l {
        Layout::Bool => 1,
        Layout::Optional(_) => 1,
        Layout::Enum(variants) => tag_bits(variants.len()),
        _ => 0,
    }
}

/// Appends the bits that the value puts into the shared header.
pub fn push_head_bits(l: &Layout, v: &Value, bits: &mut Vec<bool>)
    ensures
        final(bits)@ == old(bits)@ + head_bits(*l, v@),
{
    match l {
        Layout::Bool => {
            let flag = match v {
                Value::Bool(b) => *b,
                _ => false,
            };
            bits.push(flag);
            assert(bits@ =~= old(bits)@ + head_bits(*l, v@));
        },
        Layout::Optional(_) => {
            let present = match v {
                Value::Optional(Some(_)) => true,
                _ => false,
            };
            bits.push(present);
            assert(bits@ =~= old(bits)@ + head_bits(*l, v@));
        },
        Layout::Enum(variants) => {
            let tag = match v {
                Value::Enum(i, _) => *i,
                _ => 0,
            };
            push_bits(bits, tag as u64, tag_bits(variants.len()));
        },
        _ => {
            assert(bits@ =~= old(bits)@ + head_bits(*l, v@));
        },
    }
}

/// Appends the encoding of a value on its own.
pub fn encode_value(l: &Layout, v: &Value, out: &mut Vec<u8>)
    requires
        conforms(*l, v@),
    ensures
        final(out)@ == old(out)@ + encoding(*l, v@),
    decreases *l, 1nat,
{
    let mut bits: Vec<bool> = Vec::new();
    push_head_bits(l, v, &mut bits);
    assert(bits@ =~= head_bits(*l, v@));
    let header = pack_bits(&bits);
    append(out, header.as_slice());
    encode_body(l, v, out);
    assert(out@ =~= old(out)@ + encoding(*l, v@));
}

/// Appends the bytes that a value puts behind the header.
pub fn encode_body(l: &Layout, v: &Value, out: &mut Vec<u8>)
    requires
        conforms(*l, v@),
    ensures
        final(out)@ == old(out)@ + body(*l, v@),
    decreases *l, 0nat,
{
    match l {
        Layout::Bool => {
            assert(out@ =~= old(out)@ + body(*l, v@));
        },
        Layout::Fixed(n) => {
            match v {
                Value::Fixed(b) => {
                    append(out, b.as_slice());
                },
                _ => {},
            }
        },
        Layout::Narrow(n, w) => {
            match v {
                Value::Fixed(b) => {
                    append(out, slice_subrange(b.as_slice(), *n - *w, *n));
                    assert(out@ =~= old(out)@ + b@.skip(*n - *w));
                },
                _ => {},
            }
        },
        Layout::Bytes => {
            match v {
                Value::Bytes(b) => {
                    let bytes = b.pade_encode();
                    append(out, bytes.as_slice());
                },
                _ => {},
            }
        },
        Layout::Signature => {
            match v {
                Value::Signature(s) => {
                    let bytes = s.pade_encode();
                    append(out, bytes.as_slice());
                },
                _ => {},
            }
        },
        Layout::Optional(inner) => {
            match v {
                Value::Optional(Some(x)) => {
                    encode_value(inner, x, out);
                },
                _ => {
                    assert(out@ =~= old(out)@ + body(*l, v@));
                },
            }
        },
        Layout::Sequence(elem) => {
            match v {
                Value::Sequence(vs) => {
                    assert(views(*vs).len() == vs.len());
                    encode_sequence(elem, vs, out);
                },
                _ => {},
            }
        },
        Layout::Struct(fields) => {
            match v {
                Value::Struct(vs) => {
                    encode_fields(fields, vs, out);
                },
                _ => {},
            }
        },
        Layout::Enum(variants) => {
            match v {
                Value::Enum(i, x) => {
                    encode_value(&variants[*i], x, out);
                },
                _ => {},
            }
        },
    }
}

/// Appends the count of a sequence and the encodings of its elements.
pub fn encode_sequence(elem: &Layout, vs: &Vec<Value>, out: &mut Vec<u8>)
    requires
        vs.len() <= MAX_SEQUENCE_LEN,
        forall|k: int| 0 <= k < vs.len() ==> conforms(*elem, #[trigger] views(*vs)[k]),
    ensures
        final(out)@ == old(out)@ + (be_bytes(vs.len() as nat, 2) + sequence_bytes(
            *elem,
            views(*vs),
            0,
        )),
    decreases *elem, 2nat,
{
    let count = unfold_be(vs.len() as u128, 2);
    append(out, count.as_slice());
    let ghost base = out@;
    let ghost all = views(*vs);
    let mut k: usize = 0;
    while k < vs.len()
        invariant
            k <= vs.len(),
            all == views(*vs),
            forall|j: int| 0 <= j < vs.len() ==> conforms(*elem, #[trigger] all[j]),
            out@ + sequence_bytes(*elem, all, k as nat) == base + sequence_bytes(*elem, all, 0),
        decreases vs.len() - k,
    {
        let ghost before = out@;
        assert(all[k as int] == vs[k as int]@);
        encode_value(elem, &vs[k], out);
        assert(out@ + sequence_bytes(*elem, all, (k + 1) as nat) =~= before + sequence_bytes(
            *elem,
            all,
            k as nat,
        ));
        k = k + 1;
    }
    assert(out@ =~= base + sequence_bytes(*elem, all, 0));
    assert(out@ =~= old(out)@ + (count@ + sequence_bytes(*elem, all, 0)));
}

/// Appends the bytes of the fields of a struct: the header of each run where
/// the run starts, and the body of each field.
pub fn encode_fields(fields: &Vec<Layout>, vs: &Vec<Value>, out: &mut Vec<u8>)
    requires
        all_conform(*fields, views(*vs), 0),
    ensures
        final(out)@ == old(out)@ + struct_bytes(*fields, views(*vs), 0),
    decreases *fields, 0nat,
{
    let ghost all = views(*vs);
    let mut i: usize = 0;
    while i < fields.len()
        invariant
            i <= fields.len() == vs.len(),
            all == views(*vs),
            all_conform(*fields, all, i as nat),
            out@ + struct_bytes(*fields, all, i as nat) == old(out)@ + struct_bytes(*fields, all, 0),
        decreases fields.len() - i,
    {
        let ghost before = out@;
        let ghost header: Seq<u8> = Seq::empty();
        if header_bits(&fields[i]) > 0 && (i == 0 || header_bits(&fields[i - 1]) == 0) {
            let mut bits: Vec<bool> = Vec::new();
            let mut k: usize = i;
            while k < fields.len() && header_bits(&fields[k]) > 0
                invariant
                    i <= k <= fields.len() == vs.len(),
                    all == views(*vs),
                    bits@ + run_bits(*fields, all, k as nat) == run_bits(*fields, all, i as nat),
                decreases fields.len() - k,
            {
                let ghost seen = bits@;
                assert(all[k as int] == vs[k as int]@);
                push_head_bits(&fields[k], &vs[k], &mut bits);
                assert(bits@ + run_bits(*fields, all, (k + 1) as nat) =~= seen + run_bits(
                    *fields,
                    all,
                    k as nat,
                ));
                k = k + 1;
            }
            assert(bits@ =~= run_bits(*fields, all, i as nat));
            let packed = pack_bits(&bits);
            append(out, packed.as_slice());
            proof {
                header = packed@;
            }
        }
        let ghost middle = out@;
        assert(middle == before + header);
        assert(all[i as int] == vs[i as int]@);
        assert(decreases_to!(*fields => fields[i as int]));
        encode_body(&fields[i], &vs[i], out);
        assert(field_bytes(*fields, all, i as nat) =~= header + body(
            fields[i as int],
            all[i as int],
        ));
        assert(out@ =~= before + field_bytes(*fields, all, i as nat));
        assert(out@ + struct_bytes(*fields, all, (i + 1) as nat) =~= before + struct_bytes(
            *fields,
            all,
            i as nat,
        ));
        i = i + 1;
    }
    assert(out@ =~= old(out)@ + struct_bytes(*fields, all, 0));
}

/// What a decoder of a list of values owes: as `decoded_as`, for the values
/// one by one.
pub open spec fn decoded_list(
    expected: Result<(Seq<ValueView>, nat), PadeDecodeError>,
    got: Result<Vec<Value>, PadeDecodeError>,
    before: Seq<u8>,
    after: Seq<u8>,
) -> bool {
    match expected {
        Ok((vs, n)) => got is Ok && views(got->Ok_0) == vs && n <= before.len() && after
            =~= before.skip(n as int),
        Err(e) => got == Err::<Vec<Value>, PadeDecodeError>(e) && after =~= before,
    }
}

/// What the front of `bytes` decodes to as a sequence: the count in two
/// bytes, then that many elements.
pub open spec fn parse_counted(elem: Layout, bytes: Seq<u8>) -> Result<
    (Seq<ValueView>, nat),
    PadeDecodeError,
> {
    if bytes.len() < 2 {
        Err(PadeDecodeError::InvalidSize)
    } else {
        match parse_sequence(elem, bytes.skip(2), be_value(bytes.take(2))) {
            Ok((vs, n)) => Ok((vs, 2 + n)),
            Err(e) => Err(e),
        }
    }
}

/// Joining nothing in front changes nothing.
proof fn lemma_join_nothing(r: Result<(Seq<ValueView>, nat), PadeDecodeError>)
    ensures
        join(Seq::empty(), 0, r) == r,
{
    match r {
        Ok((vs, n)) => {
            assert(Seq::<ValueView>::empty() + vs =~= vs);
        },
        Err(_) => {},
    }
}

/// Joining one more value in front of a result is joining it to what is in
/// front already.
proof fn lemma_join_join(
    first: Seq<ValueView>,
    k: nat,
    x: ValueView,
    n: nat,
    r: Result<(Seq<ValueView>, nat), PadeDecodeError>,
)
    ensures
        join(first, k, join(seq![x], n, r)) == join(first.push(x), k + n, r),
{
    match r {
        Ok((vs, m)) => {
            assert(first + (seq![x] + vs) =~= first.push(x) + vs);
        },
        Err(_) => {},
    }
}

/// With nothing left to read, what was read is the result.
proof fn lemma_join_done(first: Seq<ValueView>, k: nat)
    ensures
        join(first, k, Ok((Seq::empty(), 0))) == Ok::<(Seq<ValueView>, nat), PadeDecodeError>(
            (first, k),
        ),
{
    assert(first + Seq::<ValueView>::empty() =~= first);
}

/// A pushed value shows at the end of the views.
proof fn lemma_views_push(before: Vec<Value>, now: Vec<Value>, x: Value)
    requires
        now@ == before@.push(x),
    ensures
        views(now) == views(before).push(x@),
{
    assert(views(now) =~= views(before).push(x@));
}

/// Decodes a value on its own from the front of the cursor: its header,
/// where the layout has header bits, and then its body. On failure the
/// cursor stays where it was.
pub fn decode_value<'a>(l: &Layout, buf: &mut &'a [u8]) -> (r: Result<Value, PadeDecodeError>)
    ensures
        decoded_as::<Value>(parse(*l, old(buf)@), r, old(buf)@, final(buf)@),
    decreases *l, 1nat,
{
    let width = header_bits(l);
    if width == 0 {
        return decode_body(l, buf, 0);
    }
    let start: &'a [u8] = *buf;
    let need = (width + 7) / 8;
    let header = match take(buf, need) {
        Ok(header) => header,
        Err(e) => {
            return Err(e);
        },
    };
    let (field, _) = read_bits(header, 0, width);
    match decode_body(l, buf, field) {
        Ok(v) => {
            assert(forall|n: int|
                0 <= n <= start@.len() - need ==> #[trigger] start@.skip(need as int).skip(n)
                    =~= start@.skip(need + n));
            Ok(v)
        },
        Err(e) => {
            *buf = start;
            Err(e)
        },
    }
}

/// Decodes what a value puts behind the header, where `field` is the number
/// that its header bits spell. On failure the cursor stays where it was.
pub fn decode_body<'a>(l: &Layout, buf: &mut &'a [u8], field: u64) -> (r: Result<
    Value,
    PadeDecodeError,
>)
    ensures
        decoded_as::<Value>(parse_body(*l, old(buf)@, field as nat), r, old(buf)@, final(buf)@),
    decreases *l, 0nat,
{
    match l {
        Layout::Bool => Ok(Value::Bool(field != 0)),
        Layout::Fixed(n) => match take(buf, *n) {
            Ok(head) => Ok(Value::Fixed(vec_of(head))),
            Err(e) => Err(e),
        },
        Layout::Narrow(n, w) => {
            if *w > *n {
                return Err(PadeDecodeError::IncorrectWidth);
            }
            match take(buf, *w) {
                Ok(head) => {
                    let mut padded: Vec<u8> = Vec::new();
                    let mut i: usize = 0;
                    while i < *n - *w
                        invariant
                            i <= *n - *w,
                            padded@ == zeros(i as nat),
                        decreases *n - *w - i,
                    {
                        padded.push(0);
                        i = i + 1;
                        assert(padded@ =~= zeros(i as nat));
                    }
                    append(&mut padded, head);
                    Ok(Value::Fixed(padded))
                },
                Err(e) => Err(e),
            }
        },
        Layout::Bytes => match Bytes::pade_decode(buf, None) {
            Ok(b) => Ok(Value::Bytes(b)),
            Err(e) => Err(e),
        },
        Layout::Signature => match Signature::pade_decode(buf, None) {
            Ok(s) => Ok(Value::Signature(s)),
            Err(e) => Err(e),
        },
        Layout::Optional(inner) => {
            if field != 0 {
                match decode_value(inner, buf) {
                    Ok(x) => Ok(Value::Optional(Some(Box::new(x)))),
                    Err(e) => Err(e),
                }
            } else {
                Ok(Value::Optional(None))
            }
        },
        Layout::Sequence(elem) => match decode_sequence(elem, buf) {
            Ok(vs) => Ok(Value::Sequence(vs)),
            Err(e) => Err(e),
        },
        Layout::Struct(fields) => match decode_fields(fields, buf) {
            Ok(vs) => Ok(Value::Struct(vs)),
            Err(e) => Err(e),
        },
        Layout::Enum(variants) => {
            if field >= variants.len() as u64 {
                return Err(PadeDecodeError::UnknownVariant);
            }
            let index = field as usize;
            match decode_value(&variants[index], buf) {
                Ok(x) => Ok(Value::Enum(index, Box::new(x))),
                Err(e) => Err(e),
            }
        },
    }
}

/// Decodes the count of a sequence and that many elements. On failure the
/// cursor stays where it was.
pub fn decode_sequence<'a>(elem: &Layout, buf: &mut &'a [u8]) -> (r: Result<
    Vec<Value>,
    PadeDecodeError,
>)
    ensures
        decoded_list(parse_counted(*elem, old(buf)@), r, old(buf)@, final(buf)@),
    decreases *elem, 2nat,
{
    let start: &'a [u8] = *buf;
    let prefix = match take(buf, 2) {
        Ok(prefix) => prefix,
        Err(e) => {
            return Err(e);
        },
    };
    proof {
        lemma_pow256_values();
        lemma_be_value_bound(prefix@);
    }
    let count = fold_be(prefix) as usize;
    let mut out: Vec<Value> = Vec::new();
    let mut k: usize = 0;
    let ghost mut taken: nat = 0;
    proof {
        lemma_join_nothing(parse_sequence(*elem, start@.skip(2), count as nat));
        assert(views(out) =~= Seq::<ValueView>::empty());
        assert(start@.skip(2).skip(0) =~= start@.skip(2));
    }
    while k < count
        invariant
            k <= count,
            start@ == old(buf)@,
            count == be_value(start@.take(2)),
            2 + taken <= start@.len(),
            buf@ == start@.skip(2).skip(taken as int),
            parse_sequence(*elem, start@.skip(2), count as nat) == join(
                views(out),
                taken,
                parse_sequence(*elem, start@.skip(2).skip(taken as int), (count - k) as nat),
            ),
        decreases count - k,
    {
        let ghost here = start@.skip(2).skip(taken as int);
        let ghost seen = out;
        match decode_value(elem, buf) {
            Ok(x) => {
                out.push(x);
                proof {
                    let n = parse(*elem, here)->Ok_0.1;
                    assert(here.skip(n as int) =~= start@.skip(2).skip((taken + n) as int));
                    lemma_views_push(seen, out, x);
                    lemma_join_join(
                        views(seen),
                        taken,
                        x@,
                        n,
                        parse_sequence(*elem, here.skip(n as int), (count - k - 1) as nat),
                    );
                    taken = taken + n;
                }
            },
            Err(e) => {
                *buf = start;
                return Err(e);
            },
        }
        k = k + 1;
    }
    proof {
        lemma_join_done(views(out), taken);
        assert(start@.skip(2).skip(taken as int) =~= start@.skip((2 + taken) as int));
    }
    Ok(out)
}

/// The header bits of the fields from `i` up to the next field without any.
pub fn run_total(fields: &Vec<Layout>, i: usize) -> (total: u128)
    requires
        i <= fields.len(),
    ensures
        total == run_width(*fields, i as nat),
        total <= 64 * (fields.len() - i),
{
    let mut total: u128 = 0;
    let mut k: usize = i;
    while k < fields.len() && header_bits(&fields[k]) > 0
        invariant
            i <= k <= fields.len(),
            total <= 64 * (k - i),
            total + run_width(*fields, k as nat) == run_width(*fields, i as nat),
        decreases fields.len() - k,
    {
        total = total + header_bits(&fields[k]) as u128;
        k = k + 1;
    }
    total
}

/// What reading one field owes: the value, the cursor moved past the bytes
/// taken, and the header and offset for the next field; or the error, with
/// the cursor where it was.
pub open spec fn decoded_step(
    fields: Vec<Layout>,
    i: nat,
    expected: Result<FieldStep, PadeDecodeError>,
    got: Result<Value, PadeDecodeError>,
    before: Seq<u8>,
    after: Seq<u8>,
    header: Seq<u8>,
    offset: nat,
) -> bool {
    match expected {
        Ok(step) => got is Ok && got->Ok_0@ == step.value && step.taken <= before.len() && after
            =~= before.skip(step.taken as int) && header == step.header && offset == step.offset
            && run_fits(fields, i + 1, header, offset),
        Err(e) => got == Err::<Value, PadeDecodeError>(e) && after =~= before,
    }
}

/// The header at hand holds the bits of field `i` and of the fields that go
/// on its run, where field `i` goes on a run.
pub open spec fn run_fits(fields: Vec<Layout>, i: nat, header: Seq<u8>, offset: nat) -> bool {
    i < fields.len() && header_width(fields[i as int]) > 0 && !starts_run(fields, i) ==> offset
        + run_width(fields, i) <= 8 * header.len()
}

/// Decodes field `i` of a struct. Where the field starts a run, the header
/// of the run is taken first; where it goes on a run, its bits come from
/// the header at hand. On failure the cursor stays where it was.
pub fn decode_field<'a>(
    fields: &Vec<Layout>,
    i: usize,
    header: &mut &'a [u8],
    offset: &mut u128,
    buf: &mut &'a [u8],
) -> (r: Result<Value, PadeDecodeError>)
    requires
        i < fields.len(),
        run_fits(*fields, i as nat, old(header)@, *old(offset) as nat),
    ensures
        decoded_step(
            *fields,
            i as nat,
            parse_field(*fields, old(header)@, *old(offset) as nat, old(buf)@, i as nat),
            r,
            old(buf)@,
            final(buf)@,
            final(header)@,
            *final(offset) as nat,
        ),
    decreases *fields, 0nat,
{
    let start: &'a [u8] = *buf;
    let width = header_bits(&fields[i]);
    let mut field: u64 = 0;
    let ghost mut head_len: nat = 0;
    if width > 0 {
        if i == 0 || header_bits(&fields[i - 1]) == 0 {
            let total = run_total(fields, i);
            let need: u128 = (total + 7) / 8;
            if need > buf.len() as u128 {
                return Err(PadeDecodeError::InvalidSize);
            }
            match take(buf, need as usize) {
                Ok(fresh) => {
                    *header = fresh;
                },
                Err(e) => {
                    return Err(e);
                },
            }
            *offset = 0;
            proof {
                head_len = need as nat;
            }
        }
        let (bits, next) = read_bits(*header, *offset, width);
        field = bits;
        *offset = next;
    }
    assert(decreases_to!(*fields => fields[i as int]));
    let ghost at = buf@;
    match decode_body(&fields[i], buf, field) {
        Ok(x) => {
            proof {
                let n = parse_body(fields[i as int], at, field as nat)->Ok_0.1;
                assert(at.skip(n as int) =~= start@.skip((head_len + n) as int));
            }
            Ok(x)
        },
        Err(e) => {
            *buf = start;
            Err(e)
        },
    }
}

/// Decodes the fields of a struct: the header of each run where the run
/// starts, and the body of each field. On failure the cursor stays where it
/// was.
pub fn decode_fields<'a>(fields: &Vec<Layout>, buf: &mut &'a [u8]) -> (r: Result<
    Vec<Value>,
    PadeDecodeError,
>)
    ensures
        decoded_list(
            parse_fields(*fields, Seq::empty(), 0, old(buf)@, 0),
            r,
            old(buf)@,
            final(buf)@,
        ),
    decreases *fields, 1nat,
{
    let start: &'a [u8] = *buf;
    let mut out: Vec<Value> = Vec::new();
    let mut header: &'a [u8] = slice_subrange(start, 0, 0);
    let mut offset: u128 = 0;
    let mut i: usize = 0;
    let ghost mut taken: nat = 0;
    proof {
        lemma_join_nothing(parse_fields(*fields, Seq::empty(), 0, start@, 0));
        assert(views(out) =~= Seq::<ValueView>::empty());
        assert(start@.skip(0) =~= start@);
        assert(header@ =~= Seq::<u8>::empty());
    }
    while i < fields.len()
        invariant
            i <= fields.len(),
            start@ == old(buf)@,
            taken <= start@.len(),
            buf@ == start@.skip(taken as int),
            run_fits(*fields, i as nat, header@, offset as nat),
            parse_fields(*fields, Seq::empty(), 0, start@, 0) == join(
                views(out),
                taken,
                parse_fields(*fields, header@, offset as nat, start@.skip(taken as int), i as nat),
            ),
        decreases fields.len() - i,
    {
        let ghost here = start@.skip(taken as int);
        let ghost seen = out;
        let ghost step = parse_field(*fields, header@, offset as nat, here, i as nat);
        match decode_field(fields, i, &mut header, &mut offset, buf) {
            Ok(x) => {
                out.push(x);
                proof {
                    let n = step->Ok_0.taken;
                    assert(here.skip(n as int) =~= start@.skip((taken + n) as int));
                    lemma_views_push(seen, out, x);
                    lemma_join_join(
                        views(seen),
                        taken,
                        x@,
                        n,
                        parse_fields(
                            *fields,
                            header@,
                            offset as nat,
                            here.skip(n as int),
                            (i + 1) as nat,
                        ),
                    );
                    taken = taken + n;
                }
            },
            Err(e) => {
                *buf = start;
                return Err(e);
            },
        }
        i = i + 1;
    }
    proof {
        lemma_join_done(views(out), taken);
    }
    Ok(out)
}

/// Whether the value conforms to the layout.
pub fn admits_value(l: &Layout, v: &Value) -> (ok: bool)
    ensures
        ok == conforms(*l, v@),
    decreases *l, 0nat,
{
    match l {
        Layout::Bool => match v {
            Value::Bool(_) => true,
            _ => false,
        },
        Layout::Fixed(n) => match v {
            Value::Fixed(b) => b.len() == *n,
            _ => false,
        },
        Layout::Narrow(n, w) => match v {
            Value::Fixed(b) => *w <= *n && b.len() == *n && starts_with_zeros(
                b.as_slice(),
                *n - *w,
            ),
            _ => false,
        },
        Layout::Bytes => match v {
            Value::Bytes(b) => b.is_encodable(),
            _ => false,
        },
        Layout::Signature => match v {
            Value::Signature(s) => {
                proof {
                    lemma_be_value_bound(s.r.be@);
                    lemma_be_value_bound(s.s.be@);
                }
                true
            },
            _ => false,
        },
        Layout::Optional(inner) => match v {
            Value::Optional(None) => true,
            Value::Optional(Some(x)) => admits_value(inner, x),
            _ => false,
        },
        Layout::Sequence(elem) => match v {
            Value::Sequence(vs) => {
                assert(views(*vs).len() == vs.len());
                vs.len() <= MAX_SEQUENCE_LEN && admits_each(elem, vs)
            },
            _ => false,
        },
        Layout::Struct(fields) => match v {
            Value::Struct(vs) => admits_fields(fields, vs),
            _ => false,
        },
        Layout::Enum(variants) => match v {
            Value::Enum(i, x) => *i < variants.len() && admits_value(&variants[*i], x),
            _ => false,
        },
    }
}

/// Whether each of the values conforms to the layout.
pub fn admits_each(elem: &Layout, vs: &Vec<Value>) -> (ok: bool)
    ensures
        ok == (forall|k: int| 0 <= k < vs.len() ==> conforms(*elem, #[trigger] views(*vs)[k])),
    decreases *elem, 1nat,
{
    let ghost all = views(*vs);
    let mut k: usize = 0;
    while k < vs.len()
        invariant
            k <= vs.len(),
            all == views(*vs),
            forall|j: int| 0 <= j < k ==> conforms(*elem, #[trigger] all[j]),
        decreases vs.len() - k,
    {
        assert(all[k as int] == vs[k as int]@);
        if !admits_value(elem, &vs[k]) {
            return false;
        }
        k = k + 1;
    }
    true
}

/// Whether there is a value for each field and each conforms to its field.
pub fn admits_fields(fields: &Vec<Layout>, vs: &Vec<Value>) -> (ok: bool)
    ensures
        ok == all_conform(*fields, views(*vs), 0),
    decreases *fields, 0nat,
{
    if fields.len() != vs.len() {
        return false;
    }
    let ghost all = views(*vs);
    let mut i: usize = 0;
    while i < fields.len()
        invariant
            i <= fields.len() == vs.len(),
            all == views(*vs),
            all_conform(*fields, all, 0) == all_conform(*fields, all, i as nat),
        decreases fields.len() - i,
    {
        assert(all[i as int] == vs[i as int]@);
        assert(decreases_to!(*fields => fields[i as int]));
        if !admits_value(&fields[i], &vs[i]) {
            return false;
        }
        i = i + 1;
    }
    true
}

impl Layout {
    /// The layout of a fixed-width type at its own width.
    pub fn fixed<T: FixedWidth>() -> (l: Layout)
        ensures
            l == Layout::Fixed(T::native() as usize),
    {
        Layout::Fixed(T::native_bytes())
    }

    /// The layout of a fixed-width type that is written in `width` bytes.
    pub fn narrow<T: FixedWidth>(width: usize) -> (l: Layout)
        ensures
            l == Layout::Narrow(T::native() as usize, width),
    {
        Layout::Narrow(T::native_bytes(), width)
    }

    /// The bits a field of this layout takes in a shared header. It depends
    /// on the layout alone, never on a value.
    pub fn pade_header_bits(&self) -> (bits: usize)
        ensures
            bits == header_width(*self),
    {
        header_bits(self)
    }

    /// Of the header bits, those that select a variant.
    pub fn pade_variant_map_bits(&self) -> (bits: usize)
        ensures
            bits == variant_width(*self),
    {
        match self {
            Layout::Optional(_) => 1,
            Layout::Enum(variants) => tag_bits(variants.len()),
            _ => 0,
        }
    }

    /// Whether the value is one of this layout and can be written.
    pub fn admits(&self, value: &Value) -> (ok: bool)
        ensures
            ok == conforms(*self, value@),
    {
        admits_value(self, value)
    }

    /// Encodes a value of this layout.
    pub fn pade_encode(&self, value: &Value) -> (out: Vec<u8>)
        requires
            conforms(*self, value@),
        ensures
            out@ == encoding(*self, value@),
    {
        let mut out: Vec<u8> = Vec::new();
        encode_value(self, value, &mut out);
        assert(out@ =~= encoding(*self, value@));
        out
    }

    /// Encodes the value where it conforms to this layout; `None` where it
    /// does not.
    pub fn try_encode(&self, value: &Value) -> (out: Option<Vec<u8>>)
        ensures
            conforms(*self, value@) ==> out is Some && out->Some_0@ == encoding(*self, value@),
            !conforms(*self, value@) ==> out is None,
    {
        if admits_value(self, value) {
            Some(self.pade_encode(value))
        } else {
            None
        }
    }

    /// Decodes a value of this layout from the front of the cursor and moves
    /// the cursor past it. Every input gives a value or an error; on an
    /// error the cursor stays where it was.
    pub fn pade_decode(&self, buf: &mut &[u8]) -> (r: Result<Value, PadeDecodeError>)
        ensures
            decoded_as::<Value>(parse(*self, old(buf)@), r, old(buf)@, final(buf)@),
    {
        decode_value(self, buf)
    }
}

impl Value {
    /// The value of a fixed-width field that holds `x`.
    pub fn fixed<T: FixedWidth>(x: &T) -> (v: Value)
        ensures
            v@ == ValueView::Fixed(T::be(x@)),
            conforms(Layout::Fixed(T::native() as usize), v@),
    {
        proof {
            T::lemma_be_inverse(*x);
        }
        let width = T::native_bytes();
        assert(width == T::native());
        Value::Fixed(x.to_be_vec())
    }

    /// What a fixed-width field holds, as a `T`; `None` where the value is
    /// no fixed-width field of the width of `T`.
    pub fn to_fixed<T: FixedWidth>(&self) -> (r: Option<T>)
        ensures
            self@ is Fixed && self@->Fixed_0.len() == T::native() ==> r is Some && r->Some_0@
                == T::of_be(self@->Fixed_0),
            !(self@ is Fixed && self@->Fixed_0.len() == T::native()) ==> r is None,
    {
        match self {
            Value::Fixed(b) => {
                if b.len() == T::native_bytes() {
                    Some(T::from_be_slice(b.as_slice()))
                } else {
                    None
                }
            },
            _ => None,
        }
    }
}

} // verus!
