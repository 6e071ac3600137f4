//! Decoding the fields of a fixed-size type that meet a byte range.

use crate::context::Context;
use crate::error::Error;
use crate::fixed_size::{
    fields_end, lemma_element_is_smaller, lemma_field_ends_inside, lemma_fields_are_smaller,
    length_of, slice_length, struct_length, type_length, FixedSizeSlice, FixedSizeStruct,
    FixedSizeType, StructField,
};
use crate::primitives::{FixedSize, FixedSizePrimitive};
use crate::property::{property_views, Hierarchy, Property, PropertyView, Step};
use vstd::prelude::*;
use vstd::slice::slice_subrange;

verus! {

broadcast use {lemma_fields_are_smaller, lemma_element_is_smaller};

/// Whether the `length` bytes from `start` and the bytes from `lo` up to
/// `hi` have a byte in common.
pub open spec fn spans_meet(start: int, length: int, lo: int, hi: int) -> bool {
    length > 0 && lo < hi && start < hi && lo < start + length
}

/// The value of the primitive `p` at `start` in `data`: the number that its
/// bytes stand for, or, where the data ends before the value does, where the
/// data ends and how many bytes are missing.
pub open spec fn primitive_value<P: FixedSizePrimitive>(
    p: P,
    start: int,
    data: Seq<u8>,
) -> Result<u64, Error> {
    let end = start + p.fixed_length();
    if end <= data.len() {
        Ok(p.decode_spec(data.subrange(start as int, end as int)))
    } else {
        Err(
            Error::TruncatedData {
                offset: data.len() as usize,
                missing: (end - data.len()) as usize,
            },
        )
    }
}

/// The decoded primitive `p` at `start` in `data`, found at `path`.
pub open spec fn primitive_property<P: FixedSizePrimitive>(
    p: P,
    start: int,
    path: Seq<Step>,
    data: Seq<u8>,
) -> PropertyView {
    PropertyView {
        path,
        offset: start as nat,
        length: p.fixed_length(),
        ty_name: p.name_spec(),
        value: primitive_value(p, start, data),
    }
}

/// The primitives inside a value of type `t` at `start` that meet the bytes
/// from `lo` up to `hi`, decoded from `data`, depth first. `path` is the path
/// of the value itself.
pub open spec fn type_decoded<P: FixedSizePrimitive>(
    t: FixedSizeType<P>,
    start: int,
    path: Seq<Step>,
    data: Seq<u8>,
    lo: int,
    hi: int,
) -> Seq<PropertyView>
    decreases t, 0nat,
{
    match t {
        FixedSizeType::Struct(s) => struct_decoded(s, start, path, data, lo, hi),
        FixedSizeType::Primitive(p) => if spans_meet(start, p.fixed_length() as int, lo, hi) {
            seq![primitive_property(*p, start, path, data)]
        } else {
            Seq::empty()
        },
        FixedSizeType::Slice(s) => slice_decoded(s, start, path, data, lo, hi),
    }
}

/// The decoded primitives of the fields of a struct at `start`, field after
/// field.
pub open spec fn struct_decoded<P: FixedSizePrimitive>(
    s: FixedSizeStruct<P>,
    start: int,
    path: Seq<Step>,
    data: Seq<u8>,
    lo: int,
    hi: int,
) -> Seq<PropertyView>
    decreases s, 0nat,
{
    fields_decoded(s.fields(), s.fields().len(), start, path, data, lo, hi)
}

/// The decoded primitives of the first `n` of `fields`. A field is found one
/// step further than its struct: under its name, at repetition 0.
pub open spec fn fields_decoded<P: FixedSizePrimitive>(
    fields: Seq<StructField<P>>,
    n: nat,
    start: int,
    path: Seq<Step>,
    data: Seq<u8>,
    lo: int,
    hi: int,
) -> Seq<PropertyView>
    decreases fields, n,
{
    if n == 0 || n > fields.len() {
        Seq::empty()
    } else {
        let field = fields[n - 1];
        fields_decoded(fields, (n - 1) as nat, start, path, data, lo, hi) + type_decoded(
            field.ty,
            start + field.offset,
            path.push((field.name@, 0nat)),
            data,
            lo,
            hi,
        )
    }
}

/// The decoded primitives of the elements of a slice at `start`, element
/// after element.
pub open spec fn slice_decoded<P: FixedSizePrimitive>(
    s: FixedSizeSlice<P>,
    start: int,
    path: Seq<Step>,
    data: Seq<u8>,
    lo: int,
    hi: int,
) -> Seq<PropertyView>
    decreases s, 0nat,
{
    elements_decoded(s.element(), s.count(), start, path, data, lo, hi)
}

/// The decoded primitives of the first `n` elements of type `element` that
/// follow one another from `start`. An element is found one step further
/// than its slice: without a name, at the repetition that is its index.
pub open spec fn elements_decoded<P: FixedSizePrimitive>(
    element: FixedSizeType<P>,
    n: nat,
    start: int,
    path: Seq<Step>,
    data: Seq<u8>,
    lo: int,
    hi: int,
) -> Seq<PropertyView>
    decreases element, n,
{
    if n == 0 {
        Seq::empty()
    } else {
        let index = (n - 1) as nat;
        elements_decoded(element, index, start, path, data, lo, hi) + type_decoded(
            element,
            start + index * type_length(element),
            path.push((Seq::<char>::empty(), index)),
            data,
            lo,
            hi,
        )
    }
}

/// The views of two sequences of properties, one after the other, are the
/// views of the two together.
pub proof fn lemma_views_of_concat(a: Seq<Property>, b: Seq<Property>)
    ensures
        property_views(a + b) == property_views(a) + property_views(b),
{
    assert(property_views(a + b) =~= property_views(a) + property_views(b));
}

/// A type whose bytes do not meet the range has no decoded primitive.
pub proof fn lemma_type_outside<P: FixedSizePrimitive>(
    t: FixedSizeType<P>,
    start: int,
    path: Seq<Step>,
    data: Seq<u8>,
    lo: int,
    hi: int,
)
    requires
        !spans_meet(start, type_length(t) as int, lo, hi),
    ensures
        type_decoded(t, start, path, data, lo, hi) == Seq::<PropertyView>::empty(),
    decreases t, 0nat,
{
    match t {
        FixedSizeType::Struct(s) => {
            lemma_fields_outside(s.fields(), s.fields().len(), start, path, data, lo, hi);
        },
        FixedSizeType::Primitive(p) => {},
        FixedSizeType::Slice(s) => {
            let each = type_length(s.element()) as int;
            let count = s.count() as int;
            assert(0 <= count * each) by (nonlinear_arith)
                requires
                    0 <= count,
                    0 <= each,
            ;
            assert(count > 0 && each > 0 ==> count * each > 0) by (nonlinear_arith);
            lemma_elements_skipped(s.element(), 0, s.count(), start, path, data, lo, hi);
        },
    }
}

/// The fields of a struct whose bytes do not meet the range have no decoded
/// primitive.
proof fn lemma_fields_outside<P: FixedSizePrimitive>(
    fields: Seq<StructField<P>>,
    n: nat,
    start: int,
    path: Seq<Step>,
    data: Seq<u8>,
    lo: int,
    hi: int,
)
    requires
        n <= fields.len(),
        !spans_meet(start, fields_end(fields, fields.len()) as int, lo, hi),
    ensures
        fields_decoded(fields, n, start, path, data, lo, hi) == Seq::<PropertyView>::empty(),
    decreases fields, n,
{
    if n > 0 {
        let field = fields[n - 1];
        lemma_fields_outside(fields, (n - 1) as nat, start, path, data, lo, hi);
        lemma_field_ends_inside(fields, n - 1);
        lemma_type_outside(
            field.ty,
            start + field.offset,
            path.push((field.name@, 0nat)),
            data,
            lo,
            hi,
        );
    }
}

/// Whether the elements from `m` up to `n`, each `each` bytes long, of a
/// slice at `start` all miss the range: they are empty, or the range is, or
/// they all end before it, or they all begin after it.
pub open spec fn elements_miss(m: nat, n: nat, each: nat, start: int, lo: int, hi: int) -> bool {
    each == 0 || lo >= hi || start + n * each <= lo || start + m * each >= hi
}

/// Elements that miss the range add no decoded primitive.
pub proof fn lemma_elements_skipped<P: FixedSizePrimitive>(
    element: FixedSizeType<P>,
    m: nat,
    n: nat,
    start: int,
    path: Seq<Step>,
    data: Seq<u8>,
    lo: int,
    hi: int,
)
    requires
        m <= n,
        m < n ==> elements_miss(m, n, type_length(element), start, lo, hi),
    ensures
        elements_decoded(element, n, start, path, data, lo, hi) == elements_decoded(
            element,
            m,
            start,
            path,
            data,
            lo,
            hi,
        ),
    decreases element, n,
{
    if m < n {
        let each = type_length(element) as int;
        let index = (n - 1) as nat;
        assert(index * each + each == n * each) by (nonlinear_arith)
            requires
                index + 1 == n,
        ;
        assert(m * each <= index * each) by (nonlinear_arith)
            requires
                m <= index,
                0 <= each,
        ;
        lemma_elements_skipped(element, m, index, start, path, data, lo, hi);
        lemma_type_outside(
            element,
            start + index * type_length(element),
            path.push((Seq::<char>::empty(), index)),
            data,
            lo,
            hi,
        );
    }
}

/// Whether the `length` bytes from `start` and the bytes from `lo` up to
/// `hi` have a byte in common.
pub fn meets(start: usize, length: usize, lo: usize, hi: usize) -> (r: bool)
    requires
        start + length <= usize::MAX,
    ensures
        r == spans_meet(start as int, length as int, lo as int, hi as int),
{
    length > 0 && lo < hi && start < hi && lo < start + length
}

/// Decodes the primitives inside a value of type `t` at `start` that meet
/// the bytes from `lo` up to `hi`.
pub(crate) fn decode_type<P: FixedSizePrimitive>(
    t: &FixedSizeType<P>,
    start: usize,
    path: Hierarchy,
    data: &[u8],
    lo: usize,
    hi: usize,
) -> (out: Vec<Property>)
    requires
        start + type_length(*t) <= usize::MAX,
    ensures
        property_views(out@) == type_decoded(
            *t,
            start as int,
            path@,
            data@,
            lo as int,
            hi as int,
        ),
    decreases t, 0nat,
{
    match t {
        FixedSizeType::Struct(s) => decode_struct(s, start, &path, data, lo, hi),
        FixedSizeType::Primitive(p) => decode_primitive(&**p, start, path, data, lo, hi),
        FixedSizeType::Slice(s) => decode_slice(s, start, &path, data, lo, hi),
    }
}

/// Decodes one primitive, if it meets the range.
pub(crate) fn decode_primitive<P: FixedSizePrimitive>(
    p: &P,
    start: usize,
    path: Hierarchy,
    data: &[u8],
    lo: usize,
    hi: usize,
) -> (out: Vec<Property>)
    requires
        start + p.fixed_length() <= usize::MAX,
    ensures
        property_views(out@) == type_decoded(
            FixedSizeType::Primitive(Box::new(*p)),
            start as int,
            path@,
            data@,
            lo as int,
            hi as int,
        ),
{
    let length = p.length(Context::new(data, start));
    let mut out: Vec<Property> = Vec::new();
    if meets(start, length, lo, hi) {
        let value = if length <= data.len() && start <= data.len() - length {
            Ok(p.decode(slice_subrange(data, start, start + length)))
        } else {
            Err(Error::TruncatedData { offset: data.len(), missing: start + length - data.len() })
        };
        let property = Property::new(path, start, length, p.name(), value);
        out.push(property);
        assert(out@.len() == 1);
        assert(property_views(out@) =~= seq![
            primitive_property(*p, start as int, path@, data@),
        ]);
    } else {
        assert(property_views(out@) =~= Seq::<PropertyView>::empty());
    }
    out
}

/// Decodes the fields of a struct that meet the range.
fn decode_struct<P: FixedSizePrimitive>(
    s: &FixedSizeStruct<P>,
    start: usize,
    path: &Hierarchy,
    data: &[u8],
    lo: usize,
    hi: usize,
) -> (out: Vec<Property>)
    requires
        start + struct_length(*s) <= usize::MAX,
    ensures
        property_views(out@) == struct_decoded(
            *s,
            start as int,
            path@,
            data@,
            lo as int,
            hi as int,
        ),
    decreases s, 1nat,
{
    let mut out: Vec<Property> = Vec::new();
    let count = s.field_count();
    let mut i: usize = 0;
    assert(property_views(out@) =~= Seq::<PropertyView>::empty());
    while i < count
        invariant
            i <= count,
            count == s.fields().len(),
            start + struct_length(*s) <= usize::MAX,
            property_views(out@) == fields_decoded(
                s.fields(),
                i as nat,
                start as int,
                path@,
                data@,
                lo as int,
                hi as int,
            ),
        decreases count - i,
    {
        let field = s.field(i);
        proof {
            lemma_field_ends_inside(s.fields(), i as int);
        }
        let length = length_of(&field.ty, Context::new(data, start));
        let field_start = start + field.offset;
        if meets(field_start, length, lo, hi) {
            let mut inner = decode_type(
                &field.ty,
                field_start,
                path.child(field.name.as_str(), 0),
                data,
                lo,
                hi,
            );
            proof {
                lemma_views_of_concat(out@, inner@);
            }
            out.append(&mut inner);
        } else {
            proof {
                lemma_type_outside(
                    field.ty,
                    field_start as int,
                    path@.push((field.name@, 0nat)),
                    data@,
                    lo as int,
                    hi as int,
                );
            }
        }
        i += 1;
    }
    out
}

/// Decodes the elements of a slice that meet the range. Only those are
/// visited.
fn decode_slice<P: FixedSizePrimitive>(
    s: &FixedSizeSlice<P>,
    start: usize,
    path: &Hierarchy,
    data: &[u8],
    lo: usize,
    hi: usize,
) -> (out: Vec<Property>)
    requires
        start + slice_length(*s) <= usize::MAX,
    ensures
        property_views(out@) == slice_decoded(
            *s,
            start as int,
            path@,
            data@,
            lo as int,
            hi as int,
        ),
    decreases s, 1nat,
{
    decode_elements(s.element_type(), s.element_count(), start, path, data, lo, hi)
}

/// Decodes those of `count` elements that follow one another from `start`
/// which meet the range. Only those are visited.
pub(crate) fn decode_elements<P: FixedSizePrimitive>(
    element: &FixedSizeType<P>,
    count: usize,
    start: usize,
    path: &Hierarchy,
    data: &[u8],
    lo: usize,
    hi: usize,
) -> (out: Vec<Property>)
    requires
        start + count * type_length(*element) <= usize::MAX,
    ensures
        property_views(out@) == elements_decoded(
            *element,
            count as nat,
            start as int,
            path@,
            data@,
            lo as int,
            hi as int,
        ),
    decreases element, 1nat,
{
    let mut out: Vec<Property> = Vec::new();
    assert(property_views(out@) =~= Seq::<PropertyView>::empty());
    let each = length_of(element, Context::new(data, start));
    if each == 0 || lo >= hi || start >= hi {
        proof {
            lemma_elements_skipped(
                *element,
                0,
                count as nat,
                start as int,
                path@,
                data@,
                lo as int,
                hi as int,
            );
        }
        return out;
    }
    // The first element that ends after `lo`, and the first that begins at
    // `hi` or later.
    let first_wanted: usize = if lo > start {
        (lo - start) / each
    } else {
        0
    };
    let last_wanted: usize = (hi - start - 1) / each + 1;
    let first = if first_wanted < count {
        first_wanted
    } else {
        count
    };
    let last = if last_wanted < count {
        last_wanted
    } else {
        count
    };
    proof {
        let width = each as int;
        assert(first_wanted * width <= lo - start || first_wanted == 0) by (nonlinear_arith)
            requires
                width > 0,
                first_wanted == (if lo > start {
                    (lo - start) / width
                } else {
                    0
                }),
        ;
        assert(first * width <= first_wanted * width) by (nonlinear_arith)
            requires
                first <= first_wanted,
                0 <= width,
        ;
        assert(last_wanted * width >= hi - start) by (nonlinear_arith)
            requires
                width > 0,
                hi - start >= 1,
                last_wanted == (hi - start - 1) / width + 1,
        ;
        lemma_elements_skipped(
            *element,
            0,
            first as nat,
            start as int,
            path@,
            data@,
            lo as int,
            hi as int,
        );
        lemma_elements_skipped(
            *element,
            last as nat,
            count as nat,
            start as int,
            path@,
            data@,
            lo as int,
            hi as int,
        );
    }
    if first >= last {
        proof {
            let width = each as int;
            assert(last * width <= first * width) by (nonlinear_arith)
                requires
                    last <= first,
                    0 <= width,
            ;
            lemma_elements_skipped(
                *element,
                0,
                last as nat,
                start as int,
                path@,
                data@,
                lo as int,
                hi as int,
            );
        }
        return out;
    }
    let mut index = first;
    while index < last
        invariant
            first <= index <= last <= count,
            each == type_length(*element),
            start + count * type_length(*element) <= usize::MAX,
            property_views(out@) == elements_decoded(
                *element,
                index as nat,
                start as int,
                path@,
                data@,
                lo as int,
                hi as int,
            ),
        decreases last - index,
    {
        proof {
            let width = each as int;
            assert(index * width + width <= count * width) by (nonlinear_arith)
                requires
                    index + 1 <= count,
                    0 <= width,
            ;
            assert(0 <= index * width) by (nonlinear_arith)
                requires
                    0 <= index,
                    0 <= width,
            ;
        }
        let mut inner = decode_type(
            element,
            start + index * each,
            path.child("", index),
            data,
            lo,
            hi,
        );
        proof {
            reveal_strlit("");
            assert(""@ =~= Seq::<char>::empty());
            lemma_views_of_concat(out@, inner@);
        }
        out.append(&mut inner);
        index += 1;
    }
    out
}


} // verus!
