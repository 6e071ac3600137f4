//! Types whose size depends on the data: slices whose number of elements is
//! stored in front of them, and structs whose fields follow one another.

use crate::context::Context;
use crate::error::Error;
use crate::fixed_size::{length_of, type_length, type_wf, FixedSizeType};
use crate::primitives::{FixedSize, FixedSizePrimitive};
use vstd::prelude::*;
use vstd::slice::slice_subrange;

verus! {

/// A type: one whose size follows from its declaration, or one whose size
/// depends on the data.
pub enum Type<P: FixedSizePrimitive> {
    Fixed(FixedSizeType<P>),
    Dynamic(DynamicSizeType<P>),
}

/// A type whose size depends on the data.
pub enum DynamicSizeType<P: FixedSizePrimitive> {
    Struct(DynamicSizeStruct<P>),
    Slice(DynamicSizeSlice<P>),
}

/// A named field of a struct whose fields follow one another.
pub struct DynamicField<P: FixedSizePrimitive> {
    pub name: String,
    pub ty: Type<P>,
}

/// An ordered collection of named fields of any type, each beginning where
/// the one before it ends.
pub struct DynamicSizeStruct<P: FixedSizePrimitive> {
    fields: Vec<DynamicField<P>>,
}

/// A count followed by as many elements of one type, one after the other.
/// The count is a primitive; the elements may themselves depend on the data.
pub struct DynamicSizeSlice<P: FixedSizePrimitive> {
    count_type: P,
    element_type: Box<Type<P>>,
}

impl<P: FixedSizePrimitive> DynamicSizeStruct<P> {
    /// The fields, in the order in which they were added.
    pub closed spec fn fields(&self) -> Seq<DynamicField<P>> {
        self.fields@
    }

    /// A struct without fields.
    pub fn new() -> (s: Self)
        ensures
            s.fields().len() == 0,
    {
        DynamicSizeStruct { fields: Vec::new() }
    }

    /// Appends a field called `name`, of type `ty`, behind the fields that
    /// are there.
    pub fn add_field(&mut self, name: &str, ty: Type<P>)
        ensures
            final(self).fields().len() == old(self).fields().len() + 1,
            final(self).fields().drop_last() == old(self).fields(),
            final(self).fields().last().name@ == name@,
            final(self).fields().last().ty == ty,
    {
        let ghost before = self.fields@;
        self.fields.push(DynamicField { name: name.to_owned(), ty });
        assert(self.fields@.drop_last() =~= before);
    }

    /// The number of fields.
    pub fn field_count(&self) -> (n: usize)
        ensures
            n == self.fields().len(),
    {
        self.fields.len()
    }

    /// The field at position `i`.
    pub fn field(&self, i: usize) -> (field: &DynamicField<P>)
        requires
            i < self.fields().len(),
        ensures
            *field == self.fields()[i as int],
    {
        &self.fields[i]
    }
}

/// The fields of a struct are smaller than the struct: a recursion from a
/// struct into its fields ends.
pub broadcast proof fn lemma_dynamic_fields_are_smaller<P: FixedSizePrimitive>(
    s: DynamicSizeStruct<P>,
)
    ensures
        #[trigger] (decreases_to!(s => s.fields())),
{
}

impl<P: FixedSizePrimitive> DynamicSizeSlice<P> {
    /// The type of the count in front of the elements.
    pub closed spec fn count_type(&self) -> P {
        self.count_type
    }

    /// The type of each element.
    pub closed spec fn element(&self) -> Type<P> {
        *self.element_type
    }

    /// The number of bytes of the count.
    pub open spec fn count_length(&self) -> nat {
        self.count_type().fixed_length()
    }

    /// A slice whose number of elements is stored in front of it as a
    /// `count_type`, with elements of type `element_type`.
    pub fn new(count_type: P, element_type: Type<P>) -> (s: Self)
        ensures
            s.count_type() == count_type,
            s.element() == element_type,
    {
        DynamicSizeSlice { count_type, element_type: Box::new(element_type) }
    }

    /// The type of the count in front of the elements.
    pub fn count_primitive(&self) -> (p: &P)
        ensures
            *p == self.count_type(),
    {
        &self.count_type
    }

    /// The type of each element.
    pub fn element_type(&self) -> (element: &Type<P>)
        ensures
            *element == self.element(),
    {
        &self.element_type
    }
}

/// The element type of a slice is smaller than the slice: a recursion from
/// a slice into its element type ends.
pub broadcast proof fn lemma_dynamic_element_is_smaller<P: FixedSizePrimitive>(
    s: DynamicSizeSlice<P>,
)
    ensures
        #[trigger] (decreases_to!(s => s.element())),
{
}

/// The data ends at `data.len()`, before the `end` of what was to be read.
pub open spec fn truncated_at(data: Seq<u8>, end: int) -> Error {
    Error::TruncatedData { offset: data.len() as usize, missing: (end - data.len()) as usize }
}

/// The number of elements of the slice `s` at `start` in `data`, as its
/// count says. There is none where the count would end beyond `usize::MAX`,
/// none where the data ends before the count does, and none where the count
/// says more than `usize::MAX`.
pub open spec fn count_at<P: FixedSizePrimitive>(
    s: DynamicSizeSlice<P>,
    data: Seq<u8>,
    start: int,
) -> Result<nat, Error> {
    let end = start + s.count_length();
    if end > usize::MAX {
        Err(Error::MalformedDynamicSize { offset: start as usize })
    } else if end > data.len() {
        Err(truncated_at(data, end))
    } else {
        let count = s.count_type().decode_spec(data.subrange(start, end));
        if count > usize::MAX {
            Err(Error::MalformedDynamicSize { offset: start as usize })
        } else {
            Ok(count as nat)
        }
    }
}

/// The number of bytes that a value of type `t` at `start` in `data`
/// occupies, or why there is no such number.
pub open spec fn type_size<P: FixedSizePrimitive>(t: Type<P>, data: Seq<u8>, start: int) -> Result<
    nat,
    Error,
>
    decreases t, 0nat,
{
    match t {
        Type::Fixed(fixed) => Ok(type_length(fixed)),
        Type::Dynamic(dynamic) => dynamic_type_size(dynamic, data, start),
    }
}

/// The number of bytes that a value of the dynamic type `t` at `start` in
/// `data` occupies, or why there is no such number.
pub open spec fn dynamic_type_size<P: FixedSizePrimitive>(
    t: DynamicSizeType<P>,
    data: Seq<u8>,
    start: int,
) -> Result<nat, Error>
    decreases t, 0nat,
{
    match t {
        DynamicSizeType::Struct(s) => dynamic_struct_size(s, data, start),
        DynamicSizeType::Slice(s) => dynamic_slice_size(s, data, start),
    }
}

/// The number of bytes that the struct `s` at `start` in `data` occupies:
/// its fields, one after the other.
pub open spec fn dynamic_struct_size<P: FixedSizePrimitive>(
    s: DynamicSizeStruct<P>,
    data: Seq<u8>,
    start: int,
) -> Result<nat, Error>
    decreases s, 0nat,
{
    match fields_walk_end(s.fields(), s.fields().len(), data, start, start) {
        Ok(end) => Ok((end - start) as nat),
        Err(e) => Err(e),
    }
}

/// Where the first `n` of `fields` end that follow one another from `first`
/// in `data`. Each field begins where the one before it ends, so the fields
/// are measured one after the other, and the first that cannot be measured
/// decides. Fields that would end beyond `usize::MAX` make the struct at
/// `origin` malformed.
pub open spec fn fields_walk_end<P: FixedSizePrimitive>(
    fields: Seq<DynamicField<P>>,
    n: nat,
    data: Seq<u8>,
    first: int,
    origin: int,
) -> Result<int, Error>
    decreases fields, n,
{
    if n == 0 || n > fields.len() {
        Ok(first)
    } else {
        match fields_walk_end(fields, (n - 1) as nat, data, first, origin) {
            Ok(position) => match type_size(fields[n - 1].ty, data, position) {
                Ok(size) => if position + size <= usize::MAX {
                    Ok(position + size)
                } else {
                    Err(Error::MalformedDynamicSize { offset: origin as usize })
                },
                Err(e) => Err(e),
            },
            Err(e) => Err(e),
        }
    }
}

/// The number of bytes that the slice `s` at `start` in `data` occupies: its
/// count and its elements.
pub open spec fn dynamic_slice_size<P: FixedSizePrimitive>(
    s: DynamicSizeSlice<P>,
    data: Seq<u8>,
    start: int,
) -> Result<nat, Error>
    decreases s, 0nat,
{
    match count_at(s, data, start) {
        Ok(count) => match elements_end(
            s.element(),
            count,
            data,
            start + s.count_length(),
            start,
        ) {
            Ok(end) => Ok((end - start) as nat),
            Err(e) => Err(e),
        },
        Err(e) => Err(e),
    }
}

/// Where the first `n` elements of type `element` end that follow one
/// another from `first` in `data`. Each element begins where the one before
/// it ends, so the elements are measured one after the other, and the first
/// that cannot be measured decides. Elements that would end beyond
/// `usize::MAX` make the slice at `origin` malformed.
pub open spec fn elements_end<P: FixedSizePrimitive>(
    element: Type<P>,
    n: nat,
    data: Seq<u8>,
    first: int,
    origin: int,
) -> Result<int, Error>
    decreases element, n,
{
    if n == 0 {
        Ok(first)
    } else {
        match elements_end(element, (n - 1) as nat, data, first, origin) {
            Ok(position) => match type_size(element, data, position) {
                Ok(size) => if position + size <= usize::MAX {
                    Ok(position + size)
                } else {
                    Err(Error::MalformedDynamicSize { offset: origin as usize })
                },
                Err(e) => Err(e),
            },
            Err(e) => Err(e),
        }
    }
}

/// Elements of a fixed-size type end where their number times their length
/// says.
pub proof fn lemma_fixed_elements_end<P: FixedSizePrimitive>(
    element: FixedSizeType<P>,
    n: nat,
    data: Seq<u8>,
    first: int,
    origin: int,
)
    requires
        first <= usize::MAX,
    ensures
        elements_end(Type::Fixed(element), n, data, first, origin) == (if first + n * type_length(
            element,
        ) <= usize::MAX {
            Ok::<int, Error>(first + n * type_length(element))
        } else {
            Err::<int, Error>(Error::MalformedDynamicSize { offset: origin as usize })
        }),
    decreases n,
{
    if n > 0 {
        let each = type_length(element) as int;
        let before = (n - 1) as nat;
        lemma_fixed_elements_end(element, before, data, first, origin);
        assert(before * each + each == n * each) by (nonlinear_arith)
            requires
                before + 1 == n,
        ;
        assert(0 <= before * each) by (nonlinear_arith)
            requires
                0 <= before,
                0 <= each,
        ;
        assert(type_size(Type::Fixed(element), data, first + before * each) == Ok::<nat, Error>(
            type_length(element),
        ));
    }
}

/// Once an element cannot be measured, no further one can.
pub proof fn lemma_elements_end_fails_on<P: FixedSizePrimitive>(
    element: Type<P>,
    m: nat,
    n: nat,
    data: Seq<u8>,
    first: int,
    origin: int,
)
    requires
        m <= n,
        elements_end(element, m, data, first, origin) is Err,
    ensures
        elements_end(element, n, data, first, origin) == elements_end(
            element,
            m,
            data,
            first,
            origin,
        ),
    decreases n,
{
    if m < n {
        lemma_elements_end_fails_on(element, m, (n - 1) as nat, data, first, origin);
    }
}

/// Once a field cannot be measured, no further one can.
pub proof fn lemma_fields_walk_end_fails_on<P: FixedSizePrimitive>(
    fields: Seq<DynamicField<P>>,
    m: nat,
    n: nat,
    data: Seq<u8>,
    first: int,
    origin: int,
)
    requires
        m <= n <= fields.len(),
        fields_walk_end(fields, m, data, first, origin) is Err,
    ensures
        fields_walk_end(fields, n, data, first, origin) == fields_walk_end(
            fields,
            m,
            data,
            first,
            origin,
        ),
    decreases n,
{
    if m < n {
        lemma_fields_walk_end_fails_on(fields, m, (n - 1) as nat, data, first, origin);
    }
}

/// Fields end where they begin or later.
pub proof fn lemma_fields_walk_end_grows<P: FixedSizePrimitive>(
    fields: Seq<DynamicField<P>>,
    n: nat,
    data: Seq<u8>,
    first: int,
    origin: int,
)
    requires
        0 <= first <= usize::MAX,
    ensures
        fields_walk_end(fields, n, data, first, origin) matches Ok(end) ==> first <= end
            <= usize::MAX,
    decreases n,
{
    if 0 < n <= fields.len() {
        lemma_fields_walk_end_grows(fields, (n - 1) as nat, data, first, origin);
    }
}

/// Whether `r` is the size `expected`, or the reason why there is none.
pub open spec fn is_size(r: Result<usize, Error>, expected: Result<nat, Error>) -> bool {
    match r {
        Ok(size) => expected == Ok::<nat, Error>(size as nat),
        Err(e) => expected == Err::<nat, Error>(e),
    }
}

/// Whether `r` is the position `expected`, or the reason why there is
/// none.
pub open spec fn is_position(r: Result<usize, Error>, expected: Result<int, Error>) -> bool {
    match r {
        Ok(position) => expected == Ok::<int, Error>(position as int),
        Err(e) => expected == Err::<int, Error>(e),
    }
}

impl<P: FixedSizePrimitive> Type<P> {
    /// The number of bytes that a value of this type occupies in the
    /// context `ctx`: at the context's offset in the context's data. A
    /// fixed-size type has its size in every context.
    pub fn size(&self, ctx: Context) -> (r: Result<usize, Error>)
        ensures
            is_size(r, type_size(*self, ctx@.data, ctx@.offset as int)),
    {
        size_of(self, ctx.data(), ctx.offset())
    }
}

impl<P: FixedSizePrimitive> DynamicSizeType<P> {
    /// The number of bytes that a value of this type occupies in the
    /// context `ctx`.
    pub fn size(&self, ctx: Context) -> (r: Result<usize, Error>)
        ensures
            is_size(r, dynamic_type_size(*self, ctx@.data, ctx@.offset as int)),
    {
        size_of_dynamic(self, ctx.data(), ctx.offset())
    }
}

impl<P: FixedSizePrimitive> DynamicSizeStruct<P> {
    /// The number of bytes that this struct occupies in the context `ctx`:
    /// its fields, one after the other.
    pub fn size(&self, ctx: Context) -> (r: Result<usize, Error>)
        ensures
            is_size(r, dynamic_struct_size(*self, ctx@.data, ctx@.offset as int)),
    {
        size_of_struct(self, ctx.data(), ctx.offset())
    }
}

impl<P: FixedSizePrimitive> DynamicSizeSlice<P> {
    /// The number of bytes that this slice occupies in the context `ctx`:
    /// its count and its elements.
    pub fn size(&self, ctx: Context) -> (r: Result<usize, Error>)
        ensures
            is_size(r, dynamic_slice_size(*self, ctx@.data, ctx@.offset as int)),
    {
        size_of_slice(self, ctx.data(), ctx.offset())
    }
}

/// The number of bytes of a value of type `t` at `start` in `data`.
pub(crate) fn size_of<P: FixedSizePrimitive>(t: &Type<P>, data: &[u8], start: usize) -> (r: Result<
    usize,
    Error,
>)
    ensures
        is_size(r, type_size(*t, data@, start as int)),
        *t matches Type::Fixed(fixed) ==> type_wf(fixed) && r is Ok,
    decreases t, 0nat,
{
    match t {
        Type::Fixed(fixed) => Ok(length_of(fixed, Context::new(data, start))),
        Type::Dynamic(dynamic) => size_of_dynamic(dynamic, data, start),
    }
}

/// The number of bytes of a value of the dynamic type `t` at `start` in
/// `data`.
pub(crate) fn size_of_dynamic<P: FixedSizePrimitive>(
    t: &DynamicSizeType<P>,
    data: &[u8],
    start: usize,
) -> (r: Result<usize, Error>)
    ensures
        is_size(r, dynamic_type_size(*t, data@, start as int)),
    decreases t, 0nat,
{
    match t {
        DynamicSizeType::Struct(s) => size_of_struct(s, data, start),
        DynamicSizeType::Slice(s) => size_of_slice(s, data, start),
    }
}

/// The number of bytes of the struct `s` at `start` in `data`: its fields
/// are measured one after the other.
pub(crate) fn size_of_struct<P: FixedSizePrimitive>(
    s: &DynamicSizeStruct<P>,
    data: &[u8],
    start: usize,
) -> (r: Result<usize, Error>)
    ensures
        is_size(r, dynamic_struct_size(*s, data@, start as int)),
    decreases s, 1nat,
{
    let count = s.fields.len();
    let mut position = start;
    let mut measured: usize = 0;
    while measured < count
        invariant
            measured <= count,
            count == s.fields().len(),
            start <= position,
            fields_walk_end(s.fields(), measured as nat, data@, start as int, start as int)
                == Ok::<int, Error>(position as int),
        decreases count - measured,
    {
        let ghost next = (measured + 1) as nat;
        let field = &s.fields[measured];
        let size = match size_of(&field.ty, data, position) {
            Ok(size) => size,
            Err(e) => {
                proof {
                    assert(fields_walk_end(s.fields(), next, data@, start as int, start as int)
                        == Err::<int, Error>(e));
                    lemma_fields_walk_end_fails_on(
                        s.fields(),
                        next,
                        count as nat,
                        data@,
                        start as int,
                        start as int,
                    );
                }
                return Err(e);
            },
        };
        if size > usize::MAX - position {
            proof {
                assert(fields_walk_end(s.fields(), next, data@, start as int, start as int) is Err);
                lemma_fields_walk_end_fails_on(
                    s.fields(),
                    next,
                    count as nat,
                    data@,
                    start as int,
                    start as int,
                );
            }
            return Err(Error::MalformedDynamicSize { offset: start });
        }
        position = position + size;
        measured = measured + 1;
    }
    Ok(position - start)
}

/// Reads the number of elements of the slice `s` at `start` in `data`.
pub(crate) fn read_count<P: FixedSizePrimitive>(
    s: &DynamicSizeSlice<P>,
    data: &[u8],
    start: usize,
) -> (r: Result<usize, Error>)
    ensures
        match r {
            Ok(count) => count_at(*s, data@, start as int) == Ok::<nat, Error>(count as nat),
            Err(e) => count_at(*s, data@, start as int) == Err::<nat, Error>(e),
        },
{
    let length = s.count_type.length(Context::new(data, start));
    if length > usize::MAX - start {
        return Err(Error::MalformedDynamicSize { offset: start });
    }
    let end = start + length;
    if end > data.len() {
        return Err(Error::TruncatedData { offset: data.len(), missing: end - data.len() });
    }
    let count = s.count_type.decode(slice_subrange(data, start, end));
    if count > usize::MAX as u64 {
        return Err(Error::MalformedDynamicSize { offset: start });
    }
    Ok(count as usize)
}

/// The number of bytes of the slice `s` at `start` in `data`.
pub(crate) fn size_of_slice<P: FixedSizePrimitive>(
    s: &DynamicSizeSlice<P>,
    data: &[u8],
    start: usize,
) -> (r: Result<usize, Error>)
    ensures
        is_size(r, dynamic_slice_size(*s, data@, start as int)),
    decreases s, 1nat,
{
    let count = match read_count(s, data, start) {
        Ok(count) => count,
        Err(e) => {
            return Err(e);
        },
    };
    let first = start + s.count_type.length(Context::new(data, start));
    match end_of_elements(&s.element_type, count, data, first, start) {
        Ok(end) => {
            proof {
                lemma_elements_end_grows(
                    s.element(),
                    count as nat,
                    data@,
                    first as int,
                    start as int,
                );
            }
            Ok(end - start)
        },
        Err(e) => Err(e),
    }
}

/// Elements end where they begin or later.
pub proof fn lemma_elements_end_grows<P: FixedSizePrimitive>(
    element: Type<P>,
    n: nat,
    data: Seq<u8>,
    first: int,
    origin: int,
)
    requires
        0 <= first <= usize::MAX,
    ensures
        elements_end(element, n, data, first, origin) matches Ok(end) ==> first <= end
            <= usize::MAX,
    decreases n,
{
    if n > 0 {
        lemma_elements_end_grows(element, (n - 1) as nat, data, first, origin);
    }
}

/// Where `count` elements of type `element` end that follow one another
/// from `first` in `data`. Fixed-size elements are measured at once, others
/// one after the other.
pub(crate) fn end_of_elements<P: FixedSizePrimitive>(
    element: &Type<P>,
    count: usize,
    data: &[u8],
    first: usize,
    origin: usize,
) -> (r: Result<usize, Error>)
    ensures
        is_position(r, elements_end(*element, count as nat, data@, first as int, origin as int)),
    decreases element, 1nat,
{
    match element {
        Type::Fixed(fixed) => {
            let each = length_of(fixed, Context::new(data, first));
            proof {
                lemma_fixed_elements_end(
                    *fixed,
                    count as nat,
                    data@,
                    first as int,
                    origin as int,
                );
            }
            if each == 0 || count == 0 {
                assert(count * each == 0) by (nonlinear_arith)
                    requires
                        each == 0 || count == 0,
                ;
                return Ok(first);
            }
            let room = (usize::MAX - first) / each;
            if count > room {
                assert(count * each > usize::MAX - first) by (nonlinear_arith)
                    requires
                        count >= room + 1,
                        each > 0,
                        room == (usize::MAX - first) / (each as int),
                ;
                return Err(Error::MalformedDynamicSize { offset: origin });
            }
            assert(count * each <= usize::MAX - first) by (nonlinear_arith)
                requires
                    0 <= count <= room,
                    each > 0,
                    room == (usize::MAX - first) / (each as int),
            ;
            Ok(first + count * each)
        },
        Type::Dynamic(inner) => {
            let mut position = first;
            let mut measured: usize = 0;
            while measured < count
                invariant
                    measured <= count,
                    *element == Type::Dynamic(*inner),
                    elements_end(*element, measured as nat, data@, first as int, origin as int)
                        == Ok::<int, Error>(position as int),
                decreases count - measured,
            {
                let ghost next = (measured + 1) as nat;
                let size = match size_of_dynamic(inner, data, position) {
                    Ok(size) => size,
                    Err(e) => {
                        proof {
                            assert(type_size(*element, data@, position as int) == Err::<
                                nat,
                                Error,
                            >(e));
                            assert(elements_end(
                                *element,
                                next,
                                data@,
                                first as int,
                                origin as int,
                            ) == Err::<int, Error>(e));
                            lemma_elements_end_fails_on(
                                *element,
                                next,
                                count as nat,
                                data@,
                                first as int,
                                origin as int,
                            );
                        }
                        return Err(e);
                    },
                };
                proof {
                    assert(type_size(*element, data@, position as int) == Ok::<nat, Error>(
                        size as nat,
                    ));
                }
                if size > usize::MAX - position {
                    proof {
                        assert(elements_end(
                            *element,
                            next,
                            data@,
                            first as int,
                            origin as int,
                        ) is Err);
                        lemma_elements_end_fails_on(
                            *element,
                            next,
                            count as nat,
                            data@,
                            first as int,
                            origin as int,
                        );
                    }
                    return Err(Error::MalformedDynamicSize { offset: origin });
                }
                position = position + size;
                measured = measured + 1;
                assert(elements_end(
                    *element,
                    measured as nat,
                    data@,
                    first as int,
                    origin as int,
                ) == Ok::<int, Error>(position as int));
            }
            Ok(position)
        },
    }
}

} // verus!
