//! Decoding the fields of any type, fixed or dynamic, that meet a byte
//! range.
//!
//! The fields of a dynamic struct and the elements of a dynamic slice follow
//! one another, so the place of each is known only once those before it are
//! measured: they are walked from the first to the last that meets the
//! range.

use crate::context::Context;
use crate::decode::{
    decode_elements, decode_primitive, decode_type, elements_decoded, lemma_type_outside,
    lemma_views_of_concat, primitive_property, spans_meet, type_decoded,
};
use crate::dynamic_size::{
    count_at, dynamic_slice_size, dynamic_struct_size, dynamic_type_size, elements_end,
    fields_walk_end,
    lemma_dynamic_element_is_smaller, lemma_dynamic_fields_are_smaller,
    lemma_elements_end_grows, lemma_fields_walk_end_grows, lemma_fixed_elements_end, read_count,
    size_of, type_size, DynamicField, DynamicSizeSlice, DynamicSizeStruct, DynamicSizeType, Type,
};
use crate::error::Error;
use crate::fixed_size::{length_of, type_length, FixedSizeType};
use crate::primitives::{FixedSize, FixedSizePrimitive};
use crate::property::{property_views, Hierarchy, Property, PropertyView, Step};
use vstd::prelude::*;

verus! {

broadcast use {lemma_dynamic_element_is_smaller, lemma_dynamic_fields_are_smaller};

/// Whether a value of type `t` can begin at `start`: a fixed-size value
/// must end at most at `usize::MAX`.
pub open spec fn type_fits<P: FixedSizePrimitive>(t: Type<P>, start: int) -> bool {
    match t {
        Type::Fixed(fixed) => start + type_length(fixed) <= usize::MAX,
        Type::Dynamic(dynamic) => dynamic_fits(dynamic, start),
    }
}

/// Whether a value of the dynamic type `t` can begin at `start`: the count
/// of a slice must end at most at `usize::MAX`.
pub open spec fn dynamic_fits<P: FixedSizePrimitive>(t: DynamicSizeType<P>, start: int) -> bool {
    match t {
        DynamicSizeType::Struct(_) => start <= usize::MAX,
        DynamicSizeType::Slice(s) => start + s.count_length() <= usize::MAX,
    }
}

/// A value that cannot begin where it is cannot end at most at
/// `usize::MAX` either.
pub proof fn lemma_unfit_has_no_end<P: FixedSizePrimitive>(t: Type<P>, data: Seq<u8>, start: int)
    requires
        0 <= start <= usize::MAX,
        !type_fits(t, start),
    ensures
        type_size(t, data, start) matches Ok(size) ==> start + size > usize::MAX,
{
    match t {
        Type::Fixed(fixed) => {},
        Type::Dynamic(dynamic) => {
            match dynamic {
                DynamicSizeType::Struct(_) => {},
                DynamicSizeType::Slice(s) => {
                    assert(count_at(s, data, start) is Err);
                    assert(dynamic_slice_size(s, data, start) is Err);
                    assert(dynamic_type_size(dynamic, data, start) is Err);
                },
            }
        },
    }
}

/// The primitives inside a value of type `t` at `start` that meet the bytes
/// from `lo` up to `hi`, decoded from `data`, depth first. `path` is the path
/// of the value itself.
pub open spec fn any_decoded<P: FixedSizePrimitive>(
    t: Type<P>,
    start: int,
    path: Seq<Step>,
    data: Seq<u8>,
    lo: int,
    hi: int,
) -> Seq<PropertyView>
    decreases t, 0nat,
{
    match t {
        Type::Fixed(fixed) => type_decoded(fixed, start, path, data, lo, hi),
        Type::Dynamic(dynamic) => dynamic_decoded(dynamic, start, path, data, lo, hi),
    }
}

/// The decoded primitives of a value of the dynamic type `t` at `start`.
pub open spec fn dynamic_decoded<P: FixedSizePrimitive>(
    t: DynamicSizeType<P>,
    start: int,
    path: Seq<Step>,
    data: Seq<u8>,
    lo: int,
    hi: int,
) -> Seq<PropertyView>
    decreases t, 0nat,
{
    match t {
        DynamicSizeType::Struct(s) => dynamic_struct_decoded(s, start, path, data, lo, hi),
        DynamicSizeType::Slice(s) => dynamic_slice_decoded(s, start, path, data, lo, hi),
    }
}

/// The decoded primitives of the struct `s` at `start`: those of its fields,
/// one after the other.
pub open spec fn dynamic_struct_decoded<P: FixedSizePrimitive>(
    s: DynamicSizeStruct<P>,
    start: int,
    path: Seq<Step>,
    data: Seq<u8>,
    lo: int,
    hi: int,
) -> Seq<PropertyView>
    decreases s, 0nat,
{
    fields_walk_decoded(s.fields(), s.fields().len(), start, start, path, data, lo, hi)
}

/// The decoded primitives of the first `n` of `fields` that follow one
/// another from `first`, in the struct at `origin`. A field is decoded where
/// the fields before it can be measured and it can begin where they end. It
/// is found one step further than its struct: under its name, at
/// repetition 0.
pub open spec fn fields_walk_decoded<P: FixedSizePrimitive>(
    fields: Seq<DynamicField<P>>,
    n: nat,
    first: int,
    origin: int,
    path: Seq<Step>,
    data: Seq<u8>,
    lo: int,
    hi: int,
) -> Seq<PropertyView>
    decreases fields, n,
{
    if n == 0 || n > fields.len() {
        Seq::empty()
    } else {
        let index = (n - 1) as nat;
        let field = fields[index as int];
        let before = fields_walk_decoded(fields, index, first, origin, path, data, lo, hi);
        match fields_walk_end(fields, index, data, first, origin) {
            Ok(position) => if type_fits(field.ty, position) {
                before + any_decoded(
                    field.ty,
                    position,
                    path.push((field.name@, 0nat)),
                    data,
                    lo,
                    hi,
                )
            } else {
                before
            },
            Err(_) => before,
        }
    }
}

/// The decoded count of the slice `s` at `start`, if it meets the range. The
/// count is found at the path of its slice.
pub open spec fn count_decoded<P: FixedSizePrimitive>(
    s: DynamicSizeSlice<P>,
    start: int,
    path: Seq<Step>,
    data: Seq<u8>,
    lo: int,
    hi: int,
) -> Seq<PropertyView> {
    if spans_meet(start, s.count_length() as int, lo, hi) {
        seq![primitive_property(s.count_type(), start, path, data)]
    } else {
        Seq::empty()
    }
}

/// The decoded primitives of the slice `s` at `start`: its count, then,
/// where the count can be read, its elements one after the other.
pub open spec fn dynamic_slice_decoded<P: FixedSizePrimitive>(
    s: DynamicSizeSlice<P>,
    start: int,
    path: Seq<Step>,
    data: Seq<u8>,
    lo: int,
    hi: int,
) -> Seq<PropertyView>
    decreases s, 0nat,
{
    count_decoded(s, start, path, data, lo, hi) + (match count_at(s, data, start) {
        Ok(count) => walk_decoded(
            s.element(),
            count,
            start + s.count_length(),
            start,
            path,
            data,
            lo,
            hi,
        ),
        Err(_) => Seq::empty(),
    })
}

/// The decoded primitives of the first `n` elements of type `element` that
/// follow one another from `first`, in the slice at `origin`. An element is
/// decoded where the elements before it can be measured and it can begin
/// where they end. It is found one step further than its slice: without a
/// name, at the repetition that is its index.
pub open spec fn walk_decoded<P: FixedSizePrimitive>(
    element: Type<P>,
    n: nat,
    first: int,
    origin: int,
    path: Seq<Step>,
    data: Seq<u8>,
    lo: int,
    hi: int,
) -> Seq<PropertyView>
    decreases element, n,
{
    if n == 0 {
        Seq::empty()
    } else {
        let index = (n - 1) as nat;
        let before = walk_decoded(element, index, first, origin, path, data, lo, hi);
        match elements_end(element, index, data, first, origin) {
            Ok(position) => if type_fits(element, position) {
                before + any_decoded(
                    element,
                    position,
                    path.push((Seq::<char>::empty(), index)),
                    data,
                    lo,
                    hi,
                )
            } else {
                before
            },
            Err(_) => before,
        }
    }
}

/// Where more elements end is where fewer end, or later.
pub proof fn lemma_elements_end_ordered<P: FixedSizePrimitive>(
    element: Type<P>,
    m: nat,
    n: nat,
    data: Seq<u8>,
    first: int,
    origin: int,
)
    requires
        m <= n,
        elements_end(element, n, data, first, origin) is Ok,
    ensures
        elements_end(element, m, data, first, origin) is Ok,
        elements_end(element, m, data, first, origin)->Ok_0 <= elements_end(
            element,
            n,
            data,
            first,
            origin,
        )->Ok_0,
    decreases n,
{
    if m < n {
        lemma_elements_end_ordered(element, m, (n - 1) as nat, data, first, origin);
    }
}

/// A value that begins at the end of the range or later, or a range that is
/// empty: nothing is decoded.
pub proof fn lemma_any_beyond<P: FixedSizePrimitive>(
    t: Type<P>,
    start: int,
    path: Seq<Step>,
    data: Seq<u8>,
    lo: int,
    hi: int,
)
    requires
        0 <= start,
        start >= hi || lo >= hi,
    ensures
        any_decoded(t, start, path, data, lo, hi) == Seq::<PropertyView>::empty(),
    decreases t, 0nat,
{
    match t {
        Type::Fixed(fixed) => {
            lemma_type_outside(fixed, start, path, data, lo, hi);
        },
        Type::Dynamic(dynamic) => {
            lemma_dynamic_beyond(dynamic, start, path, data, lo, hi);
        },
    }
}

/// A value of a dynamic type that begins at the end of the range or later,
/// or a range that is empty: nothing is decoded.
pub proof fn lemma_dynamic_beyond<P: FixedSizePrimitive>(
    t: DynamicSizeType<P>,
    start: int,
    path: Seq<Step>,
    data: Seq<u8>,
    lo: int,
    hi: int,
)
    requires
        0 <= start,
        start >= hi || lo >= hi,
    ensures
        dynamic_decoded(t, start, path, data, lo, hi) == Seq::<PropertyView>::empty(),
    decreases t, 0nat,
{
    match t {
        DynamicSizeType::Struct(s) => {
            if start <= usize::MAX {
                lemma_fields_walk_stops(
                    s.fields(),
                    0,
                    s.fields().len(),
                    start,
                    start,
                    path,
                    data,
                    lo,
                    hi,
                );
            } else {
                lemma_fields_walk_never_begins(
                    s.fields(),
                    s.fields().len(),
                    start,
                    start,
                    path,
                    data,
                    lo,
                    hi,
                );
            }
        },
        DynamicSizeType::Slice(s) => {
            match count_at(s, data, start) {
                Ok(count) => {
                    lemma_walk_stops(
                        s.element(),
                        0,
                        count,
                        start + s.count_length(),
                        start,
                        path,
                        data,
                        lo,
                        hi,
                    );
                },
                Err(_) => {},
            }
        },
    }
}

/// Where more fields end is where fewer end, or later.
pub proof fn lemma_fields_walk_end_ordered<P: FixedSizePrimitive>(
    fields: Seq<DynamicField<P>>,
    m: nat,
    n: nat,
    data: Seq<u8>,
    first: int,
    origin: int,
)
    requires
        m <= n <= fields.len(),
        fields_walk_end(fields, n, data, first, origin) is Ok,
    ensures
        fields_walk_end(fields, m, data, first, origin) is Ok,
        fields_walk_end(fields, m, data, first, origin)->Ok_0 <= fields_walk_end(
            fields,
            n,
            data,
            first,
            origin,
        )->Ok_0,
    decreases n,
{
    if m < n {
        lemma_fields_walk_end_ordered(fields, m, (n - 1) as nat, data, first, origin);
    }
}

/// Fields that would begin beyond `usize::MAX` are not decoded.
proof fn lemma_fields_walk_never_begins<P: FixedSizePrimitive>(
    fields: Seq<DynamicField<P>>,
    n: nat,
    first: int,
    origin: int,
    path: Seq<Step>,
    data: Seq<u8>,
    lo: int,
    hi: int,
)
    requires
        n <= fields.len(),
        first > usize::MAX,
    ensures
        fields_walk_decoded(fields, n, first, origin, path, data, lo, hi) == Seq::<
            PropertyView,
        >::empty(),
        fields_walk_end(fields, n, data, first, origin) matches Ok(end) ==> end > usize::MAX,
    decreases n,
{
    if n > 0 {
        lemma_fields_walk_never_begins(fields, (n - 1) as nat, first, origin, path, data, lo, hi);
    }
}

/// A value that ends where the range begins, or before: nothing is decoded.
pub proof fn lemma_any_before<P: FixedSizePrimitive>(
    t: Type<P>,
    start: int,
    path: Seq<Step>,
    data: Seq<u8>,
    lo: int,
    hi: int,
)
    requires
        0 <= start,
        type_size(t, data, start) matches Ok(size) && start + size <= lo,
    ensures
        any_decoded(t, start, path, data, lo, hi) == Seq::<PropertyView>::empty(),
    decreases t, 0nat,
{
    match t {
        Type::Fixed(fixed) => {
            lemma_type_outside(fixed, start, path, data, lo, hi);
        },
        Type::Dynamic(dynamic) => {
            lemma_dynamic_before(dynamic, start, path, data, lo, hi);
        },
    }
}

/// A value of a dynamic type that ends where the range begins, or before:
/// nothing is decoded.
pub proof fn lemma_dynamic_before<P: FixedSizePrimitive>(
    t: DynamicSizeType<P>,
    start: int,
    path: Seq<Step>,
    data: Seq<u8>,
    lo: int,
    hi: int,
)
    requires
        0 <= start,
        dynamic_type_size(t, data, start) matches Ok(size) && start + size <= lo,
    ensures
        dynamic_decoded(t, start, path, data, lo, hi) == Seq::<PropertyView>::empty(),
    decreases t, 0nat,
{
    match t {
        DynamicSizeType::Struct(s) => {
            assert(dynamic_struct_size(s, data, start) is Ok);
            if start <= usize::MAX {
                lemma_fields_walk_before(
                    s.fields(),
                    s.fields().len(),
                    start,
                    start,
                    path,
                    data,
                    lo,
                    hi,
                );
            } else {
                lemma_fields_walk_never_begins(
                    s.fields(),
                    s.fields().len(),
                    start,
                    start,
                    path,
                    data,
                    lo,
                    hi,
                );
            }
        },
        DynamicSizeType::Slice(s) => {
            assert(dynamic_slice_size(s, data, start) is Ok);
            let count = count_at(s, data, start)->Ok_0;
            let first = start + s.count_length();
            lemma_elements_end_grows(s.element(), count, data, first, start);
            lemma_walk_before(s.element(), count, first, start, path, data, lo, hi);
        },
    }
}

/// Elements that end where the range begins, or before, add no decoded
/// primitive.
pub proof fn lemma_walk_before<P: FixedSizePrimitive>(
    element: Type<P>,
    n: nat,
    first: int,
    origin: int,
    path: Seq<Step>,
    data: Seq<u8>,
    lo: int,
    hi: int,
)
    requires
        0 <= first <= usize::MAX,
        elements_end(element, n, data, first, origin) matches Ok(end) && end <= lo,
    ensures
        walk_decoded(element, n, first, origin, path, data, lo, hi) == Seq::<
            PropertyView,
        >::empty(),
    decreases element, n,
{
    if n > 0 {
        let index = (n - 1) as nat;
        lemma_elements_end_ordered(element, index, n, data, first, origin);
        lemma_elements_end_grows(element, index, data, first, origin);
        lemma_walk_before(element, index, first, origin, path, data, lo, hi);
        let position = elements_end(element, index, data, first, origin)->Ok_0;
        lemma_any_before(
            element,
            position,
            path.push((Seq::<char>::empty(), index)),
            data,
            lo,
            hi,
        );
    }
}

/// Fields that end where the range begins, or before, add no decoded
/// primitive.
pub proof fn lemma_fields_walk_before<P: FixedSizePrimitive>(
    fields: Seq<DynamicField<P>>,
    n: nat,
    first: int,
    origin: int,
    path: Seq<Step>,
    data: Seq<u8>,
    lo: int,
    hi: int,
)
    requires
        n <= fields.len(),
        0 <= first <= usize::MAX,
        fields_walk_end(fields, n, data, first, origin) matches Ok(end) && end <= lo,
    ensures
        fields_walk_decoded(fields, n, first, origin, path, data, lo, hi) == Seq::<
            PropertyView,
        >::empty(),
    decreases fields, n,
{
    if n > 0 {
        let index = (n - 1) as nat;
        lemma_fields_walk_end_ordered(fields, index, n, data, first, origin);
        lemma_fields_walk_end_grows(fields, index, data, first, origin);
        lemma_fields_walk_before(fields, index, first, origin, path, data, lo, hi);
        let position = fields_walk_end(fields, index, data, first, origin)->Ok_0;
        lemma_any_before(
            fields[index as int].ty,
            position,
            path.push((fields[index as int].name@, 0nat)),
            data,
            lo,
            hi,
        );
    }
}

/// Whether the walk over the fields is over after the first `m`: the range
/// is empty, or they end at the end of the range or later, or they cannot be
/// measured.
pub open spec fn fields_walk_is_over<P: FixedSizePrimitive>(
    fields: Seq<DynamicField<P>>,
    m: nat,
    data: Seq<u8>,
    first: int,
    origin: int,
    lo: int,
    hi: int,
) -> bool {
    lo >= hi || (match fields_walk_end(fields, m, data, first, origin) {
        Ok(position) => position >= hi,
        Err(_) => true,
    })
}

/// Once the walk over the fields is over, further fields add no decoded
/// primitive.
pub proof fn lemma_fields_walk_stops<P: FixedSizePrimitive>(
    fields: Seq<DynamicField<P>>,
    m: nat,
    n: nat,
    first: int,
    origin: int,
    path: Seq<Step>,
    data: Seq<u8>,
    lo: int,
    hi: int,
)
    requires
        m <= n <= fields.len(),
        0 <= first <= usize::MAX,
        fields_walk_is_over(fields, m, data, first, origin, lo, hi),
    ensures
        fields_walk_decoded(fields, n, first, origin, path, data, lo, hi) == fields_walk_decoded(
            fields,
            m,
            first,
            origin,
            path,
            data,
            lo,
            hi,
        ),
    decreases fields, n,
{
    if m < n {
        let index = (n - 1) as nat;
        lemma_fields_walk_stops(fields, m, index, first, origin, path, data, lo, hi);
        match fields_walk_end(fields, index, data, first, origin) {
            Ok(position) => {
                lemma_fields_walk_end_ordered(fields, m, index, data, first, origin);
                lemma_fields_walk_end_grows(fields, m, data, first, origin);
                lemma_any_beyond(
                    fields[index as int].ty,
                    position,
                    path.push((fields[index as int].name@, 0nat)),
                    data,
                    lo,
                    hi,
                );
            },
            Err(_) => {},
        }
    }
}

/// Whether the walk over the elements is over after the first `m`: the range
/// is empty, or they end at the end of the range or later, or they cannot be
/// measured.
pub open spec fn walk_is_over<P: FixedSizePrimitive>(
    element: Type<P>,
    m: nat,
    data: Seq<u8>,
    first: int,
    origin: int,
    lo: int,
    hi: int,
) -> bool {
    lo >= hi || (match elements_end(element, m, data, first, origin) {
        Ok(position) => position >= hi,
        Err(_) => true,
    })
}

/// Once the walk is over, further elements add no decoded primitive.
pub proof fn lemma_walk_stops<P: FixedSizePrimitive>(
    element: Type<P>,
    m: nat,
    n: nat,
    first: int,
    origin: int,
    path: Seq<Step>,
    data: Seq<u8>,
    lo: int,
    hi: int,
)
    requires
        m <= n,
        0 <= first <= usize::MAX,
        walk_is_over(element, m, data, first, origin, lo, hi),
    ensures
        walk_decoded(element, n, first, origin, path, data, lo, hi) == walk_decoded(
            element,
            m,
            first,
            origin,
            path,
            data,
            lo,
            hi,
        ),
    decreases element, n,
{
    if m < n {
        let index = (n - 1) as nat;
        lemma_walk_stops(element, m, index, first, origin, path, data, lo, hi);
        match elements_end(element, index, data, first, origin) {
            Ok(position) => {
                lemma_elements_end_ordered(element, m, index, data, first, origin);
                lemma_elements_end_grows(element, m, data, first, origin);
                lemma_any_beyond(
                    element,
                    position,
                    path.push((Seq::<char>::empty(), index)),
                    data,
                    lo,
                    hi,
                );
            },
            Err(_) => {},
        }
    }
}

/// The number of elements, of `n`, each `each` bytes long, that can follow
/// one another from `first` and end at most at `usize::MAX`.
pub open spec fn fitting_count(n: nat, each: nat, first: int) -> nat {
    if each == 0 {
        n
    } else {
        let room = (usize::MAX - first) / (each as int);
        if n <= room {
            n
        } else {
            room as nat
        }
    }
}

/// The walk over elements of a fixed-size type decodes the elements that
/// fit, each at its index times the length of one.
pub proof fn lemma_walk_of_fixed<P: FixedSizePrimitive>(
    element: FixedSizeType<P>,
    n: nat,
    first: int,
    origin: int,
    path: Seq<Step>,
    data: Seq<u8>,
    lo: int,
    hi: int,
)
    requires
        0 <= first <= usize::MAX,
    ensures
        walk_decoded(Type::Fixed(element), n, first, origin, path, data, lo, hi)
            == elements_decoded(
            element,
            fitting_count(n, type_length(element), first),
            first,
            path,
            data,
            lo,
            hi,
        ),
    decreases n,
{
    if n > 0 {
        let each = type_length(element) as int;
        let index = (n - 1) as nat;
        let whole = Type::Fixed(element);
        lemma_walk_of_fixed(element, index, first, origin, path, data, lo, hi);
        lemma_fixed_elements_end(element, index, data, first, origin);
        let position = first + index * each;
        assert(0 <= index * each) by (nonlinear_arith)
            requires
                0 <= index,
                0 <= each,
        ;
        assert(index * each + each == n * each) by (nonlinear_arith)
            requires
                index + 1 == n,
        ;
        if each > 0 {
            let room = (usize::MAX - first) / each;
            assert(n <= room <==> n * each <= usize::MAX - first) by (nonlinear_arith)
                requires
                    each > 0,
                    0 <= n,
                    usize::MAX - first >= 0,
                    room == (usize::MAX - first) / each,
            ;
        }
        assert(any_decoded(
            whole,
            position,
            path.push((Seq::<char>::empty(), index)),
            data,
            lo,
            hi,
        ) == type_decoded(
            element,
            position,
            path.push((Seq::<char>::empty(), index)),
            data,
            lo,
            hi,
        ));
    }
}

/// Whether a value of type `t` can begin at `position`.
fn fits<P: FixedSizePrimitive>(t: &Type<P>, data: &[u8], position: usize) -> (b: bool)
    ensures
        b == type_fits(*t, position as int),
{
    let ctx = Context::new(data, position);
    match t {
        Type::Fixed(fixed) => length_of(fixed, ctx) <= usize::MAX - position,
        Type::Dynamic(dynamic) => match dynamic {
            DynamicSizeType::Struct(_) => true,
            DynamicSizeType::Slice(s) => s.count_primitive().length(ctx) <= usize::MAX - position,
        },
    }
}

/// Decodes the primitives inside a value of type `t` at `start` that meet
/// the bytes from `lo` up to `hi`.
pub(crate) fn decode_any<P: FixedSizePrimitive>(
    t: &Type<P>,
    start: usize,
    path: Hierarchy,
    data: &[u8],
    lo: usize,
    hi: usize,
) -> (out: Vec<Property>)
    requires
        type_fits(*t, start as int),
    ensures
        property_views(out@) == any_decoded(
            *t,
            start as int,
            path@,
            data@,
            lo as int,
            hi as int,
        ),
    decreases t, 0nat,
{
    match t {
        Type::Fixed(fixed) => decode_type(fixed, start, path, data, lo, hi),
        Type::Dynamic(dynamic) => decode_dynamic(dynamic, start, path, data, lo, hi),
    }
}

/// Decodes the primitives inside a value of the dynamic type `t` at `start`
/// that meet the range.
fn decode_dynamic<P: FixedSizePrimitive>(
    t: &DynamicSizeType<P>,
    start: usize,
    path: Hierarchy,
    data: &[u8],
    lo: usize,
    hi: usize,
) -> (out: Vec<Property>)
    requires
        dynamic_fits(*t, start as int),
    ensures
        property_views(out@) == dynamic_decoded(
            *t,
            start as int,
            path@,
            data@,
            lo as int,
            hi as int,
        ),
    decreases t, 0nat,
{
    match t {
        DynamicSizeType::Struct(s) => decode_dynamic_struct(s, start, &path, data, lo, hi),
        DynamicSizeType::Slice(s) => decode_dynamic_slice(s, start, path, data, lo, hi),
    }
}

/// Decodes those fields of a struct whose fields follow one another which
/// meet the range. The fields are walked from the first on, up to the last
/// that meets the range.
fn decode_dynamic_struct<P: FixedSizePrimitive>(
    s: &DynamicSizeStruct<P>,
    start: usize,
    path: &Hierarchy,
    data: &[u8],
    lo: usize,
    hi: usize,
) -> (out: Vec<Property>)
    ensures
        property_views(out@) == dynamic_struct_decoded(
            *s,
            start as int,
            path@,
            data@,
            lo as int,
            hi as int,
        ),
    decreases s, 1nat,
{
    let count = s.field_count();
    let mut out: Vec<Property> = Vec::new();
    assert(property_views(out@) =~= Seq::<PropertyView>::empty());
    let mut position = start;
    let mut walked: usize = 0;
    while walked < count
        invariant
            walked <= count,
            count == s.fields().len(),
            fields_walk_end(s.fields(), walked as nat, data@, start as int, start as int)
                == Ok::<int, Error>(position as int),
            property_views(out@) == fields_walk_decoded(
                s.fields(),
                walked as nat,
                start as int,
                start as int,
                path@,
                data@,
                lo as int,
                hi as int,
            ),
        decreases count - walked,
    {
        let ghost next = (walked + 1) as nat;
        if lo >= hi || position >= hi {
            proof {
                lemma_fields_walk_stops(
                    s.fields(),
                    walked as nat,
                    count as nat,
                    start as int,
                    start as int,
                    path@,
                    data@,
                    lo as int,
                    hi as int,
                );
            }
            return out;
        }
        let field = s.field(walked);
        if !fits(&field.ty, data, position) {
            proof {
                lemma_unfit_has_no_end(field.ty, data@, position as int);
                assert(fields_walk_end(
                    s.fields(),
                    next,
                    data@,
                    start as int,
                    start as int,
                ) is Err);
                lemma_fields_walk_stops(
                    s.fields(),
                    next,
                    count as nat,
                    start as int,
                    start as int,
                    path@,
                    data@,
                    lo as int,
                    hi as int,
                );
            }
            return out;
        }
        let mut found = decode_any(
            &field.ty,
            position,
            path.child(field.name.as_str(), 0),
            data,
            lo,
            hi,
        );
        proof {
            lemma_views_of_concat(out@, found@);
        }
        out.append(&mut found);
        assert(property_views(out@) == fields_walk_decoded(
            s.fields(),
            next,
            start as int,
            start as int,
            path@,
            data@,
            lo as int,
            hi as int,
        ));
        let size = match size_of(&field.ty, data, position) {
            Ok(size) => size,
            Err(_) => {
                proof {
                    assert(fields_walk_end(
                        s.fields(),
                        next,
                        data@,
                        start as int,
                        start as int,
                    ) is Err);
                    lemma_fields_walk_stops(
                        s.fields(),
                        next,
                        count as nat,
                        start as int,
                        start as int,
                        path@,
                        data@,
                        lo as int,
                        hi as int,
                    );
                }
                return out;
            },
        };
        if size > usize::MAX - position {
            proof {
                assert(fields_walk_end(
                    s.fields(),
                    next,
                    data@,
                    start as int,
                    start as int,
                ) is Err);
                lemma_fields_walk_stops(
                    s.fields(),
                    next,
                    count as nat,
                    start as int,
                    start as int,
                    path@,
                    data@,
                    lo as int,
                    hi as int,
                );
            }
            return out;
        }
        position = position + size;
        walked = walked + 1;
    }
    out
}

/// Decodes the count of a dynamic slice and those of its elements that meet
/// the range.
fn decode_dynamic_slice<P: FixedSizePrimitive>(
    s: &DynamicSizeSlice<P>,
    start: usize,
    path: Hierarchy,
    data: &[u8],
    lo: usize,
    hi: usize,
) -> (out: Vec<Property>)
    requires
        start + s.count_length() <= usize::MAX,
    ensures
        property_views(out@) == dynamic_slice_decoded(
            *s,
            start as int,
            path@,
            data@,
            lo as int,
            hi as int,
        ),
    decreases s, 1nat,
{
    let mut out = decode_primitive(s.count_primitive(), start, path.duplicate(), data, lo, hi);
    assert(property_views(out@) == count_decoded(
        *s,
        start as int,
        path@,
        data@,
        lo as int,
        hi as int,
    ));
    let count = match read_count(s, data, start) {
        Ok(count) => count,
        Err(_) => {
            assert(property_views(out@) + Seq::<PropertyView>::empty() =~= property_views(out@));
            return out;
        },
    };
    let first = start + s.count_primitive().length(Context::new(data, start));
    let mut elements = decode_walk(s.element_type(), count, first, start, &path, data, lo, hi);
    proof {
        lemma_views_of_concat(out@, elements@);
    }
    out.append(&mut elements);
    out
}

/// Decodes those of `count` elements that follow one another from `first`
/// which meet the range. Elements of a fixed size are reached directly;
/// others are walked from the first on, up to the last that meets the range.
fn decode_walk<P: FixedSizePrimitive>(
    element: &Type<P>,
    count: usize,
    first: usize,
    origin: usize,
    path: &Hierarchy,
    data: &[u8],
    lo: usize,
    hi: usize,
) -> (out: Vec<Property>)
    ensures
        property_views(out@) == walk_decoded(
            *element,
            count as nat,
            first as int,
            origin as int,
            path@,
            data@,
            lo as int,
            hi as int,
        ),
    decreases element, 1nat,
{
    match element {
        Type::Fixed(fixed) => {
            let each = length_of(fixed, Context::new(data, first));
            proof {
                lemma_walk_of_fixed(
                    *fixed,
                    count as nat,
                    first as int,
                    origin as int,
                    path@,
                    data@,
                    lo as int,
                    hi as int,
                );
            }
            let fitting = if each == 0 {
                count
            } else {
                let room = (usize::MAX - first) / each;
                if count <= room {
                    count
                } else {
                    room
                }
            };
            assert(first + fitting * each <= usize::MAX) by (nonlinear_arith)
                requires
                    0 <= first <= usize::MAX,
                    0 <= fitting,
                    0 <= each,
                    each == 0 || fitting <= (usize::MAX - first) / (each as int),
            ;
            decode_elements(fixed, fitting, first, path, data, lo, hi)
        },
        Type::Dynamic(_) => {
            let mut out: Vec<Property> = Vec::new();
            assert(property_views(out@) =~= Seq::<PropertyView>::empty());
            let mut position = first;
            let mut walked: usize = 0;
            while walked < count
                invariant
                    walked <= count,
                    *element is Dynamic,
                    elements_end(*element, walked as nat, data@, first as int, origin as int)
                        == Ok::<int, Error>(position as int),
                    property_views(out@) == walk_decoded(
                        *element,
                        walked as nat,
                        first as int,
                        origin as int,
                        path@,
                        data@,
                        lo as int,
                        hi as int,
                    ),
                decreases count - walked,
            {
                let ghost next = (walked + 1) as nat;
                if lo >= hi || position >= hi {
                    proof {
                        lemma_walk_stops(
                            *element,
                            walked as nat,
                            count as nat,
                            first as int,
                            origin as int,
                            path@,
                            data@,
                            lo as int,
                            hi as int,
                        );
                    }
                    return out;
                }
                if !fits(element, data, position) {
                    proof {
                        lemma_unfit_has_no_end(*element, data@, position as int);
                        assert(elements_end(
                            *element,
                            next,
                            data@,
                            first as int,
                            origin as int,
                        ) is Err);
                        lemma_walk_stops(
                            *element,
                            next,
                            count as nat,
                            first as int,
                            origin as int,
                            path@,
                            data@,
                            lo as int,
                            hi as int,
                        );
                    }
                    return out;
                }
                let mut found = decode_any(
                    element,
                    position,
                    path.child("", walked),
                    data,
                    lo,
                    hi,
                );
                proof {
                    reveal_strlit("");
                    assert(""@ =~= Seq::<char>::empty());
                    lemma_views_of_concat(out@, found@);
                }
                out.append(&mut found);
                assert(property_views(out@) == walk_decoded(
                    *element,
                    next,
                    first as int,
                    origin as int,
                    path@,
                    data@,
                    lo as int,
                    hi as int,
                ));
                let size = match size_of(element, data, position) {
                    Ok(size) => size,
                    Err(_) => {
                        proof {
                            assert(elements_end(
                                *element,
                                next,
                                data@,
                                first as int,
                                origin as int,
                            ) is Err);
                            lemma_walk_stops(
                                *element,
                                next,
                                count as nat,
                                first as int,
                                origin as int,
                                path@,
                                data@,
                                lo as int,
                                hi as int,
                            );
                        }
                        return out;
                    },
                };
                if size > usize::MAX - position {
                    proof {
                        assert(elements_end(
                            *element,
                            next,
                            data@,
                            first as int,
                            origin as int,
                        ) is Err);
                        lemma_walk_stops(
                            *element,
                            next,
                            count as nat,
                            first as int,
                            origin as int,
                            path@,
                            data@,
                            lo as int,
                            hi as int,
                        );
                    }
                    return out;
                }
                position = position + size;
                walked = walked + 1;
            }
            out
        },
    }
}

} // verus!
