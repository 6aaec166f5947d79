use crate::bits::{
    bits_value, header_len, lemma_bits_of_len, lemma_bits_round_trip, lemma_pack_len,
    lemma_tag_bits_is_least_width, lemma_unpack_pack, pack, spec_tag_bits, unpack,
};
use crate::codec::FixedWidth;
use crate::domain::{lemma_bytes_wire_parse, lemma_signature_wire_parse};
use crate::error::PadeDecodeError;
use crate::layout::{
    all_conform, body, conforms, encoding, field_bytes, head_bits, header_width, parse,
    parse_body, parse_field, parse_fields, parse_sequence, run_bits, run_width, sequence_bytes,
    starts_run, struct_bytes, FieldStep, Layout, ValueView,
};
use crate::wire::{
    be_bytes, be_value, lemma_be_bytes_len, lemma_be_value_bound, lemma_be_value_of_bytes,
    lemma_pow256_values, zeros,
};
use vstd::prelude::*;

verus! {

/// The bits that a value puts into the header are as many as its layout
/// says, whatever the value is.
pub proof fn lemma_head_bits_len(l: Layout, v: ValueView)
    ensures
        head_bits(l, v).len() == header_width(l),
{
    match l {
        Layout::Enum(variants) => {
            lemma_bits_of_len(
                if v is Enum {
                    v->Enum_0
                } else {
                    0
                },
                spec_tag_bits(variants.len() as nat),
            );
        },
        _ => {},
    }
}

/// The bits of a run are as many as the layouts of its fields say.
pub proof fn lemma_run_bits_len(fields: Vec<Layout>, vs: Seq<ValueView>, i: nat)
    ensures
        run_bits(fields, vs, i).len() == run_width(fields, i),
    decreases fields.len() - i,
{
    if i < fields.len() && header_width(fields[i as int]) != 0 {
        lemma_head_bits_len(fields[i as int], vs[i as int]);
        lemma_run_bits_len(fields, vs, i + 1);
    }
}

/// The header that encoding writes for a value has the number of bytes that
/// decoding takes for its layout, for every value.
pub proof fn lemma_header_len_is_static(l: Layout, v: ValueView)
    ensures
        pack(head_bits(l, v)).len() == header_len(header_width(l)),
{
    lemma_head_bits_len(l, v);
    lemma_pack_len(head_bits(l, v));
}

/// The header that encoding writes for a run of fields has the number of
/// bytes that decoding takes for those fields, for every list of values.
pub proof fn lemma_run_header_len_is_static(fields: Vec<Layout>, vs: Seq<ValueView>, i: nat)
    ensures
        pack(run_bits(fields, vs, i)).len() == header_len(run_width(fields, i)),
{
    lemma_run_bits_len(fields, vs, i);
    lemma_pack_len(run_bits(fields, vs, i));
}

/// Decoding the encoding of a value that conforms to its layout gives the
/// value back and takes exactly the bytes of the encoding, whatever follows
/// them.
pub proof fn lemma_round_trip(l: Layout, v: ValueView, rest: Seq<u8>)
    requires
        conforms(l, v),
    ensures
        parse(l, encoding(l, v) + rest) == Ok::<(ValueView, nat), PadeDecodeError>(
            (v, encoding(l, v).len()),
        ),
    decreases l, 2nat,
{
    let bits = head_bits(l, v);
    let width = header_width(l);
    let need = header_len(width);
    let all = encoding(l, v) + rest;
    lemma_head_bits_len(l, v);
    lemma_pack_len(bits);
    lemma_body_round_trip(l, v, rest);
    if width == 0 {
        assert(bits =~= Seq::<bool>::empty());
        assert(pack(bits) =~= Seq::<u8>::empty());
        assert(all =~= body(l, v) + rest);
    } else {
        assert(all.take(need as int) =~= pack(bits));
        assert(all.skip(need as int) =~= body(l, v) + rest);
        lemma_unpack_pack(Seq::empty(), bits, Seq::empty());
        assert(Seq::<bool>::empty() + bits + Seq::<bool>::empty() =~= bits);
    }
}

/// Behind its header a conforming value is read back from its body, given
/// the number that its header bits spell.
pub proof fn lemma_body_round_trip(l: Layout, v: ValueView, rest: Seq<u8>)
    requires
        conforms(l, v),
    ensures
        parse_body(l, body(l, v) + rest, bits_value(head_bits(l, v))) == Ok::<
            (ValueView, nat),
            PadeDecodeError,
        >((v, body(l, v).len())),
    decreases l, 1nat,
{
    let all = body(l, v) + rest;
    let bits = head_bits(l, v);
    match l {
        Layout::Bool => {
            assert(bits.drop_last() =~= Seq::<bool>::empty());
            assert(bits_value(bits.drop_last()) == 0);
        },
        Layout::Fixed(n) => {
            assert(all.take(n as int) =~= v->Fixed_0);
        },
        Layout::Narrow(n, w) => {
            let b = v->Fixed_0;
            assert(all.take(w as int) =~= b.skip(n - w));
            assert(zeros((n - w) as nat) + b.skip(n - w) =~= b);
        },
        Layout::Bytes => {
            lemma_bytes_wire_parse(v->Bytes_0, rest);
        },
        Layout::Signature => {
            lemma_signature_wire_parse(v->Signature_0, rest);
        },
        Layout::Optional(inner) => {
            assert(bits.drop_last() =~= Seq::<bool>::empty());
            assert(bits_value(bits.drop_last()) == 0);
            match v {
                ValueView::Optional(Some(x)) => {
                    lemma_round_trip(*inner, *x, rest);
                },
                _ => {},
            }
        },
        Layout::Sequence(elem) => {
            let vs = v->Sequence_0;
            lemma_pow256_values();
            lemma_be_bytes_len(vs.len(), 2);
            lemma_be_value_of_bytes(vs.len(), 2);
            assert(all.take(2) =~= be_bytes(vs.len(), 2));
            assert(all.skip(2) =~= sequence_bytes(*elem, vs, 0) + rest);
            lemma_sequence_round_trip(*elem, vs, 0, rest);
            assert(vs.skip(0) =~= vs);
        },
        Layout::Struct(fields) => {
            let vs = v->Struct_0;
            lemma_fields_round_trip(fields, vs, 0, Seq::empty(), 0, Seq::empty(), rest);
            assert(vs.skip(0) =~= vs);
        },
        Layout::Enum(variants) => {
            let i = v->Enum_0;
            let x = v->Enum_1;
            let tag = spec_tag_bits(variants.len() as nat);
            lemma_tag_bits_is_least_width(variants.len() as nat);
            lemma_bits_round_trip(i, tag);
            lemma_round_trip(variants[i as int], *x, rest);
        },
    }
}

/// The elements of a sequence from `i` on are read back from their
/// encodings.
pub proof fn lemma_sequence_round_trip(elem: Layout, vs: Seq<ValueView>, i: nat, rest: Seq<u8>)
    requires
        i <= vs.len(),
        forall|k: int| 0 <= k < vs.len() ==> conforms(elem, #[trigger] vs[k]),
    ensures
        parse_sequence(elem, sequence_bytes(elem, vs, i) + rest, (vs.len() - i) as nat) == Ok::<
            (Seq<ValueView>, nat),
            PadeDecodeError,
        >((vs.skip(i as int), sequence_bytes(elem, vs, i).len())),
    decreases elem, 3 + vs.len() - i,
{
    if i < vs.len() {
        let first = encoding(elem, vs[i as int]);
        let tail = sequence_bytes(elem, vs, i + 1);
        let all = sequence_bytes(elem, vs, i) + rest;
        assert(all =~= first + (tail + rest));
        lemma_round_trip(elem, vs[i as int], tail + rest);
        assert(all.skip(first.len() as int) =~= tail + rest);
        lemma_sequence_round_trip(elem, vs, i + 1, rest);
        assert(seq![vs[i as int]] + vs.skip(i + 1 as int) =~= vs.skip(i as int));
    } else {
        assert(vs.skip(i as int) =~= Seq::<ValueView>::empty());
    }
}

/// Concatenation does not depend on how it is grouped.
proof fn lemma_concat_assoc(a: Seq<u8>, b: Seq<u8>, c: Seq<u8>)
    ensures
        (a + b) + c == a + (b + c),
{
    assert((a + b) + c =~= a + (b + c));
}

/// The parts of a concatenation are found again by their lengths.
proof fn lemma_concat_parts(a: Seq<u8>, b: Seq<u8>)
    ensures
        (a + b).len() == a.len() + b.len(),
        (a + b).take(a.len() as int) == a,
        (a + b).skip(a.len() as int) == b,
        Seq::<u8>::empty() + a == a,
{
    assert((a + b).take(a.len() as int) =~= a);
    assert((a + b).skip(a.len() as int) =~= b);
    assert(Seq::<u8>::empty() + a =~= a);
}

/// Reading a field without header bits is reading its body.
proof fn lemma_field_plain(
    fields: Vec<Layout>,
    header: Seq<u8>,
    offset: nat,
    all: Seq<u8>,
    i: nat,
    v: ValueView,
    n: nat,
)
    requires
        i < fields.len(),
        header_width(fields[i as int]) == 0,
        parse_body(fields[i as int], all, 0) == Ok::<(ValueView, nat), PadeDecodeError>((v, n)),
    ensures
        parse_field(fields, header, offset, all, i) == Ok::<FieldStep, PadeDecodeError>(
            FieldStep { value: v, taken: n, header, offset },
        ),
{
}

/// Reading the first field of a run is reading the header of the run and
/// then the body of the field.
proof fn lemma_field_start(
    fields: Vec<Layout>,
    header: Seq<u8>,
    offset: nat,
    fresh: Seq<u8>,
    after: Seq<u8>,
    i: nat,
    v: ValueView,
    n: nat,
)
    requires
        i < fields.len(),
        header_width(fields[i as int]) > 0,
        starts_run(fields, i),
        fresh.len() == header_len(run_width(fields, i)),
        parse_body(
            fields[i as int],
            after,
            bits_value(unpack(fresh, 0, header_width(fields[i as int]))),
        ) == Ok::<(ValueView, nat), PadeDecodeError>((v, n)),
    ensures
        parse_field(fields, header, offset, fresh + after, i) == Ok::<FieldStep, PadeDecodeError>(
            FieldStep {
                value: v,
                taken: fresh.len() + n,
                header: fresh,
                offset: header_width(fields[i as int]),
            },
        ),
{
    lemma_concat_parts(fresh, after);
}

/// Reading a field that goes on a run is reading its bits from the header
/// at hand and then its body.
proof fn lemma_field_continue(
    fields: Vec<Layout>,
    header: Seq<u8>,
    offset: nat,
    all: Seq<u8>,
    i: nat,
    v: ValueView,
    n: nat,
)
    requires
        i < fields.len(),
        header_width(fields[i as int]) > 0,
        !starts_run(fields, i),
        parse_body(
            fields[i as int],
            all,
            bits_value(unpack(header, offset as int, header_width(fields[i as int]))),
        ) == Ok::<(ValueView, nat), PadeDecodeError>((v, n)),
    ensures
        parse_field(fields, header, offset, all, i) == Ok::<FieldStep, PadeDecodeError>(
            FieldStep {
                value: v,
                taken: n,
                header,
                offset: offset + header_width(fields[i as int]),
            },
        ),
{
}

/// Reading the fields from `i` on is reading field `i` and then the others.
proof fn lemma_fields_unfolded(
    fields: Vec<Layout>,
    header: Seq<u8>,
    offset: nat,
    all: Seq<u8>,
    i: nat,
    step: FieldStep,
    others: Seq<ValueView>,
    m: nat,
)
    requires
        i < fields.len(),
        parse_field(fields, header, offset, all, i) == Ok::<FieldStep, PadeDecodeError>(step),
        parse_fields(fields, step.header, step.offset, all.skip(step.taken as int), i + 1) == Ok::<
            (Seq<ValueView>, nat),
            PadeDecodeError,
        >((others, m)),
    ensures
        parse_fields(fields, header, offset, all, i) == Ok::<(Seq<ValueView>, nat), PadeDecodeError>(
            (seq![step.value] + others, step.taken + m),
        ),
{
}

/// The header at hand for the field after `i`, when field `i` was read with
/// `header` at hand.
pub open spec fn next_header(
    fields: Vec<Layout>,
    vs: Seq<ValueView>,
    i: nat,
    header: Seq<u8>,
) -> Seq<u8> {
    if starts_run(fields, i) {
        pack(run_bits(fields, vs, i))
    } else {
        header
    }
}

/// The bit offset at which the field after `i` takes its bits, where it goes
/// on the run of field `i`.
pub open spec fn next_offset(fields: Vec<Layout>, i: nat, offset: nat) -> nat {
    if header_width(fields[i as int]) == 0 {
        offset
    } else if starts_run(fields, i) {
        header_width(fields[i as int])
    } else {
        offset + header_width(fields[i as int])
    }
}

/// Field `i` of a struct is read back from its bytes. Where the field goes
/// on a run, the header at hand must be the one that was packed for that
/// run: the bits `before` of the fields already read, then the bits of the
/// fields from `i` on.
pub proof fn lemma_field_round_trip(
    fields: Vec<Layout>,
    vs: Seq<ValueView>,
    i: nat,
    header: Seq<u8>,
    offset: nat,
    before: Seq<bool>,
    rest: Seq<u8>,
)
    requires
        i < fields.len(),
        all_conform(fields, vs, i),
        header_width(fields[i as int]) > 0 && !starts_run(fields, i) ==> header == pack(
            before + run_bits(fields, vs, i),
        ) && offset == before.len(),
    ensures
        parse_field(fields, header, offset, field_bytes(fields, vs, i) + rest, i) == Ok::<
            FieldStep,
            PadeDecodeError,
        >(
            FieldStep {
                value: vs[i as int],
                taken: field_bytes(fields, vs, i).len(),
                header: next_header(fields, vs, i, header),
                offset: next_offset(fields, i, offset),
            },
        ),
    decreases fields, 0nat,
{
    let l = fields[i as int];
    let v = vs[i as int];
    let width = header_width(l);
    let bits = head_bits(l, v);
    let mine = body(l, v);
    let later = run_bits(fields, vs, i + 1);
    lemma_head_bits_len(l, v);
    lemma_body_round_trip(l, v, rest);
    if width == 0 {
        assert(bits =~= Seq::<bool>::empty());
        lemma_concat_parts(mine, rest);
        lemma_field_plain(fields, header, offset, mine + rest, i, v, mine.len());
    } else if starts_run(fields, i) {
        let run = run_bits(fields, vs, i);
        let fresh = pack(run);
        lemma_run_bits_len(fields, vs, i);
        lemma_pack_len(run);
        assert(Seq::<bool>::empty() + bits + later =~= run);
        lemma_unpack_pack(Seq::empty(), bits, later);
        lemma_concat_assoc(fresh, mine, rest);
        lemma_concat_parts(fresh, mine);
        lemma_field_start(fields, header, offset, fresh, mine + rest, i, v, mine.len());
    } else {
        assert(before + bits + later =~= before + run_bits(fields, vs, i));
        lemma_unpack_pack(before, bits, later);
        lemma_concat_parts(mine, rest);
        lemma_field_continue(fields, header, offset, mine + rest, i, v, mine.len());
    }
}

/// The bits of the fields already read on the run that the field after `i`
/// goes on.
pub open spec fn next_before(
    fields: Vec<Layout>,
    vs: Seq<ValueView>,
    i: nat,
    before: Seq<bool>,
) -> Seq<bool> {
    if header_width(fields[i as int]) == 0 {
        before
    } else if starts_run(fields, i) {
        head_bits(fields[i as int], vs[i as int])
    } else {
        before + head_bits(fields[i as int], vs[i as int])
    }
}

/// Where the header at hand is right for field `i`, the header at hand after
/// it is right for the next field.
proof fn lemma_next_header(
    fields: Vec<Layout>,
    vs: Seq<ValueView>,
    i: nat,
    header: Seq<u8>,
    offset: nat,
    before: Seq<bool>,
)
    requires
        i < fields.len(),
        header_width(fields[i as int]) > 0 && !starts_run(fields, i) ==> header == pack(
            before + run_bits(fields, vs, i),
        ) && offset == before.len(),
    ensures
        i + 1 < fields.len() && header_width(fields[i + 1 as int]) > 0 && !starts_run(fields, i + 1)
            ==> next_header(fields, vs, i, header) == pack(
            next_before(fields, vs, i, before) + run_bits(fields, vs, i + 1),
        ) && next_offset(fields, i, offset) == next_before(fields, vs, i, before).len(),
{
    let bits = head_bits(fields[i as int], vs[i as int]);
    let later = run_bits(fields, vs, i + 1);
    lemma_head_bits_len(fields[i as int], vs[i as int]);
    if header_width(fields[i as int]) > 0 {
        if starts_run(fields, i) {
            assert(bits + later =~= run_bits(fields, vs, i));
        } else {
            assert((before + bits) + later =~= before + run_bits(fields, vs, i));
        }
    }
}

/// Reading a field from its bytes and then the others from theirs is
/// reading all of them from the bytes together.
proof fn lemma_fields_combined(
    fields: Vec<Layout>,
    i: nat,
    header: Seq<u8>,
    offset: nat,
    mine: Seq<u8>,
    tail: Seq<u8>,
    rest: Seq<u8>,
    step: FieldStep,
    others: Seq<ValueView>,
)
    requires
        i < fields.len(),
        step.taken == mine.len(),
        parse_field(fields, header, offset, mine + (tail + rest), i) == Ok::<
            FieldStep,
            PadeDecodeError,
        >(step),
        parse_fields(fields, step.header, step.offset, tail + rest, i + 1) == Ok::<
            (Seq<ValueView>, nat),
            PadeDecodeError,
        >((others, tail.len())),
    ensures
        parse_fields(fields, header, offset, (mine + tail) + rest, i) == Ok::<
            (Seq<ValueView>, nat),
            PadeDecodeError,
        >((seq![step.value] + others, (mine + tail).len())),
{
    lemma_concat_assoc(mine, tail, rest);
    lemma_concat_parts(mine, tail + rest);
    lemma_fields_unfolded(
        fields,
        header,
        offset,
        mine + (tail + rest),
        i,
        step,
        others,
        tail.len(),
    );
}

/// The fields of a struct from `i` on are read back from their bytes, under
/// the same condition on the header at hand.
pub proof fn lemma_fields_round_trip(
    fields: Vec<Layout>,
    vs: Seq<ValueView>,
    i: nat,
    header: Seq<u8>,
    offset: nat,
    before: Seq<bool>,
    rest: Seq<u8>,
)
    requires
        i <= fields.len(),
        all_conform(fields, vs, i),
        i < fields.len() && header_width(fields[i as int]) > 0 && !starts_run(fields, i) ==> header
            == pack(before + run_bits(fields, vs, i)) && offset == before.len(),
    ensures
        parse_fields(fields, header, offset, struct_bytes(fields, vs, i) + rest, i) == Ok::<
            (Seq<ValueView>, nat),
            PadeDecodeError,
        >((vs.skip(i as int), struct_bytes(fields, vs, i).len())),
    decreases fields, 1 + fields.len() - i,
{
    if i < fields.len() {
        let tail = struct_bytes(fields, vs, i + 1);
        let header2 = next_header(fields, vs, i, header);
        let offset2 = next_offset(fields, i, offset);
        let before2 = next_before(fields, vs, i, before);
        lemma_field_round_trip(fields, vs, i, header, offset, before, tail + rest);
        lemma_next_header(fields, vs, i, header, offset, before);
        lemma_fields_round_trip(fields, vs, i + 1, header2, offset2, before2, rest);
        lemma_fields_combined(
            fields,
            i,
            header,
            offset,
            field_bytes(fields, vs, i),
            tail,
            rest,
            FieldStep {
                value: vs[i as int],
                taken: field_bytes(fields, vs, i).len(),
                header: header2,
                offset: offset2,
            },
            vs.skip(i + 1 as int),
        );
        assert(struct_bytes(fields, vs, i) == field_bytes(fields, vs, i) + tail);
        assert(seq![vs[i as int]] + vs.skip(i + 1 as int) =~= vs.skip(i as int));
    } else {
        assert(vs.skip(i as int) =~= Seq::<ValueView>::empty());
    }
}

/// A narrowed field whose declared width is above the type's own is
/// rejected, whatever the bytes are.
pub proof fn lemma_narrow_above_native_is_rejected(native: usize, width: usize, bytes: Seq<u8>)
    requires
        width > native,
    ensures
        parse(Layout::Narrow(native, width), bytes) == Err::<(ValueView, nat), PadeDecodeError>(
            PadeDecodeError::IncorrectWidth,
        ),
{
}

/// A tag that names no variant is rejected: decoding gives a value of an
/// enum only with a tag below the number of variants.
pub proof fn lemma_decoded_tag_in_range(variants: Vec<Layout>, bytes: Seq<u8>)
    ensures
        parse(Layout::Enum(variants), bytes) matches Ok((v, _)) ==> v is Enum && v->Enum_0
            < variants.len(),
{
}

/// What decoding gives conforms to the layout, so it can be encoded again,
/// and decoding never takes more bytes than there are.
pub proof fn lemma_parse_conforms(l: Layout, bytes: Seq<u8>)
    ensures
        parse(l, bytes) matches Ok((v, n)) ==> conforms(l, v) && n <= bytes.len(),
    decreases l, 2nat,
{
    let width = header_width(l);
    let need = header_len(width);
    if width == 0 {
        lemma_parse_body_conforms(l, bytes, 0);
    } else if bytes.len() >= need {
        lemma_parse_body_conforms(
            l,
            bytes.skip(need as int),
            bits_value(unpack(bytes.take(need as int), 0, width)),
        );
    }
}

/// What decoding gives behind the header conforms to the layout.
pub proof fn lemma_parse_body_conforms(l: Layout, bytes: Seq<u8>, field: nat)
    ensures
        parse_body(l, bytes, field) matches Ok((v, n)) ==> conforms(l, v) && n <= bytes.len(),
    decreases l, 1nat,
{
    match l {
        Layout::Bool => {},
        Layout::Fixed(n) => {},
        Layout::Narrow(n, w) => {},
        Layout::Bytes => {
            if bytes.len() >= 3 {
                lemma_pow256_values();
                lemma_be_value_bound(bytes.take(3));
            }
        },
        Layout::Signature => {
            if bytes.len() >= 65 {
                lemma_be_value_bound(bytes.subrange(1, 33));
                lemma_be_value_bound(bytes.subrange(33, 65));
            }
        },
        Layout::Optional(inner) => {
            lemma_parse_conforms(*inner, bytes);
        },
        Layout::Sequence(elem) => {
            if bytes.len() >= 2 {
                lemma_pow256_values();
                lemma_be_value_bound(bytes.take(2));
                lemma_parse_sequence_conforms(*elem, bytes.skip(2), be_value(bytes.take(2)));
            }
        },
        Layout::Struct(fields) => {
            lemma_parse_fields_conforms(fields, Seq::empty(), 0, bytes, 0);
            match parse_fields(fields, Seq::empty(), 0, bytes, 0) {
                Ok((vs, n)) => {
                    lemma_all_conform(fields, vs, 0);
                },
                Err(_) => {},
            }
        },
        Layout::Enum(variants) => {
            if field < variants.len() {
                lemma_parse_conforms(variants[field as int], bytes);
            }
        },
    }
}

/// Decoding `count` elements gives `count` values that conform.
pub proof fn lemma_parse_sequence_conforms(elem: Layout, bytes: Seq<u8>, count: nat)
    ensures
        parse_sequence(elem, bytes, count) matches Ok((vs, n)) ==> vs.len() == count && n
            <= bytes.len() && forall|k: int| 0 <= k < vs.len() ==> conforms(elem, #[trigger] vs[k]),
    decreases elem, 3 + count,
{
    if count > 0 {
        lemma_parse_conforms(elem, bytes);
        match parse(elem, bytes) {
            Ok((x, n)) => {
                lemma_parse_sequence_conforms(elem, bytes.skip(n as int), (count - 1) as nat);
            },
            Err(_) => {},
        }
    }
}

/// Decoding one field gives a value that conforms to the field.
pub proof fn lemma_parse_field_conforms(
    fields: Vec<Layout>,
    header: Seq<u8>,
    offset: nat,
    bytes: Seq<u8>,
    i: nat,
)
    ensures
        parse_field(fields, header, offset, bytes, i) matches Ok(step) ==> i < fields.len()
            && conforms(fields[i as int], step.value) && step.taken <= bytes.len(),
    decreases fields, 0nat,
{
    if i < fields.len() {
        let l = fields[i as int];
        let width = header_width(l);
        if width == 0 {
            lemma_parse_body_conforms(l, bytes, 0);
        } else if starts_run(fields, i) {
            let need = header_len(run_width(fields, i));
            if bytes.len() >= need {
                lemma_parse_body_conforms(
                    l,
                    bytes.skip(need as int),
                    bits_value(unpack(bytes.take(need as int), 0, width)),
                );
            }
        } else {
            lemma_parse_body_conforms(l, bytes, bits_value(unpack(header, offset as int, width)));
        }
    }
}

/// Decoding the fields from `i` on gives a value for each, and each
/// conforms to its field.
pub proof fn lemma_parse_fields_conforms(
    fields: Vec<Layout>,
    header: Seq<u8>,
    offset: nat,
    bytes: Seq<u8>,
    i: nat,
)
    requires
        i <= fields.len(),
    ensures
        parse_fields(fields, header, offset, bytes, i) matches Ok((vs, n)) ==> vs.len()
            == fields.len() - i && n <= bytes.len() && forall|k: int|
            0 <= k < vs.len() ==> conforms(fields[i + k], #[trigger] vs[k]),
    decreases fields, 1 + fields.len() - i,
{
    if i < fields.len() {
        lemma_parse_field_conforms(fields, header, offset, bytes, i);
        match parse_field(fields, header, offset, bytes, i) {
            Ok(step) => {
                lemma_parse_fields_conforms(
                    fields,
                    step.header,
                    step.offset,
                    bytes.skip(step.taken as int),
                    i + 1,
                );
                match parse_fields(
                    fields,
                    step.header,
                    step.offset,
                    bytes.skip(step.taken as int),
                    i + 1,
                ) {
                    Ok((others, m)) => {
                        let vs = seq![step.value] + others;
                        assert forall|k: int| 0 <= k < vs.len() implies conforms(
                            fields[i + k],
                            #[trigger] vs[k],
                        ) by {
                            if k > 0 {
                                assert(vs[k] == others[k - 1]);
                                assert(fields[i + k] == fields[i + 1 + (k - 1)]);
                            }
                        }
                    },
                    Err(_) => {},
                }
            },
            Err(_) => {},
        }
    }
}

/// Values of which each conforms to its field conform as a whole.
pub proof fn lemma_all_conform(fields: Vec<Layout>, vs: Seq<ValueView>, i: nat)
    requires
        i <= fields.len(),
        vs.len() == fields.len(),
        forall|k: int| i <= k < fields.len() ==> conforms(fields[k], #[trigger] vs[k]),
    ensures
        all_conform(fields, vs, i),
    decreases fields.len() - i,
{
    if i < fields.len() {
        lemma_all_conform(fields, vs, i + 1);
    }
}

/// A typed value in a fixed-width field comes back as itself: the field is
/// read back as the bytes of the value, and those bytes hold the value.
pub proof fn lemma_typed_field_round_trip<T: FixedWidth>(x: T, rest: Seq<u8>)
    requires
        T::native() <= usize::MAX,
    ensures
        parse(Layout::Fixed(T::native() as usize), T::be(x@) + rest) == Ok::<
            (ValueView, nat),
            PadeDecodeError,
        >((ValueView::Fixed(T::be(x@)), T::native())),
        T::of_be(T::be(x@)) == x@,
{
    let l = Layout::Fixed(T::native() as usize);
    let v = ValueView::Fixed(T::be(x@));
    T::lemma_be_inverse(x);
    lemma_round_trip(l, v, rest);
    lemma_pack_len(head_bits(l, v));
    assert(encoding(l, v) =~= T::be(x@));
}

} // verus!
