//! Types whose size follows from their declaration: primitives, structs of
//! fixed-size fields at declared offsets, and slices of a declared number of
//! fixed-size elements.

use crate::context::Context;
use crate::error::Error;
use crate::primitives::{FixedSize, FixedSizePrimitive};
use vstd::prelude::*;

verus! {

/// A fixed-size type.
pub enum FixedSizeType<P: FixedSizePrimitive> {
    Struct(FixedSizeStruct<P>),
    Primitive(Box<P>),
    Slice(FixedSizeSlice<P>),
}

/// A named field of a struct, at an offset from the start of the struct.
pub struct StructField<P: FixedSizePrimitive> {
    pub name: String,
    pub offset: usize,
    pub ty: FixedSizeType<P>,
}

/// An ordered collection of named fields, each at its own offset from the
/// start of the struct. Fields may leave gaps between them.
pub struct FixedSizeStruct<P: FixedSizePrimitive> {
    fields: Vec<StructField<P>>,
}

/// A declared number of elements of one type, one after the other.
pub struct FixedSizeSlice<P: FixedSizePrimitive> {
    element_type: Box<FixedSizeType<P>>,
    count: usize,
}

/// The larger of two natural numbers.
pub open spec fn max_nat(a: nat, b: nat) -> nat {
    if a >= b {
        a
    } else {
        b
    }
}

/// The number of bytes that a value of type `t` occupies.
pub open spec fn type_length<P: FixedSizePrimitive>(t: FixedSizeType<P>) -> nat
    decreases t, 0nat,
{
    match t {
        FixedSizeType::Struct(s) => struct_length(s),
        FixedSizeType::Primitive(p) => p.fixed_length(),
        FixedSizeType::Slice(s) => slice_length(s),
    }
}

/// The number of bytes that a struct occupies: the furthest end of its
/// fields.
pub open spec fn struct_length<P: FixedSizePrimitive>(s: FixedSizeStruct<P>) -> nat
    decreases s, 0nat,
{
    fields_end(s.fields(), s.fields().len())
}

/// The number of bytes that a slice occupies: as many times the length of
/// an element as it has elements.
pub open spec fn slice_length<P: FixedSizePrimitive>(s: FixedSizeSlice<P>) -> nat
    decreases s, 0nat,
{
    s.count() * type_length(s.element())
}

/// The furthest end of the first `n` of `fields`, from the start of their
/// struct: 0 where there is none.
pub open spec fn fields_end<P: FixedSizePrimitive>(fields: Seq<StructField<P>>, n: nat) -> nat
    decreases fields, n,
{
    if n == 0 || n > fields.len() {
        0
    } else {
        let field = fields[n - 1];
        max_nat(
            fields_end(fields, (n - 1) as nat),
            (field.offset + type_length(field.ty)) as nat,
        )
    }
}

/// Whether every size inside `t` is representable: each primitive and each
/// slice is long, and each field of a struct ends, at most `usize::MAX`
/// bytes.
pub open spec fn type_wf<P: FixedSizePrimitive>(t: FixedSizeType<P>) -> bool
    decreases t,
{
    match t {
        FixedSizeType::Struct(s) => struct_wf(s),
        FixedSizeType::Primitive(p) => p.fixed_length() <= usize::MAX,
        FixedSizeType::Slice(s) => slice_wf(s),
    }
}

/// Whether each field of the struct is well-formed.
pub open spec fn struct_wf<P: FixedSizePrimitive>(s: FixedSizeStruct<P>) -> bool
    decreases s,
{
    forall|i: int| 0 <= i < s.fields().len() ==> field_wf(#[trigger] s.fields()[i])
}

/// Whether a field's type is well-formed and the field ends at most
/// `usize::MAX` bytes from the start of its struct.
pub open spec fn field_wf<P: FixedSizePrimitive>(field: StructField<P>) -> bool
    decreases field,
{
    type_wf(field.ty) && field.offset + type_length(field.ty) <= usize::MAX
}

/// Whether the element type is well-formed and the slice is at most
/// `usize::MAX` bytes long.
pub open spec fn slice_wf<P: FixedSizePrimitive>(s: FixedSizeSlice<P>) -> bool
    decreases s,
{
    type_wf(s.element()) && slice_length(s) <= usize::MAX
}

impl<P: FixedSizePrimitive> FixedSizeStruct<P> {
    /// The fields, in the order in which they were added.
    pub closed spec fn fields(&self) -> Seq<StructField<P>> {
        self.fields@
    }

    #[verifier::type_invariant]
    closed spec fn inv(self) -> bool {
        struct_wf(self)
    }

    /// The number of fields.
    pub fn field_count(&self) -> (n: usize)
        ensures
            n == self.fields().len(),
    {
        self.fields.len()
    }

    /// The field at position `i`.
    pub fn field(&self, i: usize) -> (field: &StructField<P>)
        requires
            i < self.fields().len(),
        ensures
            *field == self.fields()[i as int],
    {
        &self.fields[i]
    }

    /// A struct without fields.
    pub fn new() -> (s: Self)
        ensures
            s.fields().len() == 0,
            struct_wf(s),
    {
        FixedSizeStruct { fields: Vec::new() }
    }

    /// Appends a field called `name`, of type `ty`, at `offset` bytes from
    /// the start of the struct. A field that would end more than
    /// `usize::MAX` bytes from the start is refused, and the struct stays as
    /// it was.
    pub fn add_field(&mut self, name: &str, offset: usize, ty: FixedSizeType<P>) -> (r: Result<
        (),
        Error,
    >)
        ensures
            r is Ok <==> offset + type_length(ty) <= usize::MAX,
            r is Ok ==> {
                &&& final(self).fields().len() == old(self).fields().len() + 1
                &&& final(self).fields().drop_last() == old(self).fields()
                &&& final(self).fields().last().name@ == name@
                &&& final(self).fields().last().offset == offset
                &&& final(self).fields().last().ty == ty
            },
            r matches Err(e) ==> e == Error::InvalidConfiguration && final(self).fields() == old(
                self,
            ).fields(),
            struct_wf(*final(self)),
    {
        proof {
            use_type_invariant(&*self);
        }
        let length = length_of(&ty, Context::detached());
        if length > usize::MAX - offset {
            return Err(Error::InvalidConfiguration);
        }
        let ghost before = self.fields@;
        let field = StructField { name: name.to_owned(), offset, ty };
        assert(field_wf(field));
        let mut fields: Vec<StructField<P>> = Vec::new();
        core::mem::swap(&mut self.fields, &mut fields);
        fields.push(field);
        proof {
            assert(fields@.drop_last() == before);
            assert forall|i: int| 0 <= i < fields@.len() implies field_wf(#[trigger] fields@[i]) by {
                if i < before.len() {
                    assert(fields@[i] == old(self).fields()[i]);
                } else {
                    assert(fields@[i] == field);
                }
            }
        }
        self.fields = fields;
        Ok(())
    }
}

impl<P: FixedSizePrimitive> FixedSizeSlice<P> {
    /// The type of each element.
    pub closed spec fn element(&self) -> FixedSizeType<P> {
        *self.element_type
    }

    /// The number of elements.
    pub closed spec fn count(&self) -> nat {
        self.count as nat
    }

    #[verifier::type_invariant]
    closed spec fn inv(self) -> bool {
        slice_wf(self)
    }

    /// The type of each element.
    pub fn element_type(&self) -> (element: &FixedSizeType<P>)
        ensures
            *element == self.element(),
    {
        &self.element_type
    }

    /// The number of elements.
    pub fn element_count(&self) -> (count: usize)
        ensures
            count == self.count(),
    {
        self.count
    }

    /// A slice of `count` elements of type `element_type`. One that would
    /// be longer than `usize::MAX` bytes is refused.
    pub fn new(element_type: FixedSizeType<P>, count: usize) -> (r: Result<Self, Error>)
        ensures
            r is Ok <==> count * type_length(element_type) <= usize::MAX,
            r matches Ok(s) ==> s.element() == element_type && s.count() == count && slice_wf(s),
            r matches Err(e) ==> e == Error::InvalidConfiguration,
    {
        let each = length_of(&element_type, Context::detached());
        match count.checked_mul(each) {
            Some(_) => Ok(FixedSizeSlice { element_type: Box::new(element_type), count }),
            None => Err(Error::InvalidConfiguration),
        }
    }
}

impl<P: FixedSizePrimitive> FixedSize for FixedSizeType<P> {
    open spec fn fixed_length(&self) -> nat {
        type_length(*self)
    }

    fn length(&self, ctx: Context) -> (n: usize) {
        length_of(self, ctx)
    }
}

impl<P: FixedSizePrimitive> FixedSize for FixedSizeStruct<P> {
    open spec fn fixed_length(&self) -> nat {
        struct_length(*self)
    }

    fn length(&self, ctx: Context) -> (n: usize) {
        length_of_struct(self, ctx)
    }
}

impl<P: FixedSizePrimitive> FixedSize for FixedSizeSlice<P> {
    open spec fn fixed_length(&self) -> nat {
        slice_length(*self)
    }

    fn length(&self, ctx: Context) -> (n: usize) {
        length_of_slice(self, ctx)
    }
}

/// The fields of a struct are smaller than the struct: a recursion from a
/// struct into its fields ends.
pub broadcast proof fn lemma_fields_are_smaller<P: FixedSizePrimitive>(s: FixedSizeStruct<P>)
    ensures
        #[trigger] (decreases_to!(s => s.fields())),
{
}

/// The element type of a slice is smaller than the slice: a recursion from
/// a slice into its element type ends.
pub broadcast proof fn lemma_element_is_smaller<P: FixedSizePrimitive>(s: FixedSizeSlice<P>)
    ensures
        #[trigger] (decreases_to!(s => s.element())),
{
}

/// The furthest end of the fields grows with their number.
pub proof fn lemma_fields_end_grows<P: FixedSizePrimitive>(fields: Seq<StructField<P>>, m: nat, n: nat)
    requires
        m <= n <= fields.len(),
    ensures
        fields_end(fields, m) <= fields_end(fields, n),
    decreases n,
{
    if m < n {
        lemma_fields_end_grows(fields, m, (n - 1) as nat);
    }
}

/// Each field of a struct ends inside the struct.
pub proof fn lemma_field_ends_inside<P: FixedSizePrimitive>(fields: Seq<StructField<P>>, i: int)
    requires
        0 <= i < fields.len(),
    ensures
        fields[i].offset + type_length(fields[i].ty) <= fields_end(fields, fields.len()),
{
    lemma_fields_end_grows(fields, (i + 1) as nat, fields.len());
}

/// The number of bytes that a value of type `t` occupies.
pub(crate) fn length_of<P: FixedSizePrimitive>(t: &FixedSizeType<P>, ctx: Context) -> (n: usize)
    ensures
        n == type_length(*t),
        type_wf(*t),
    decreases t, 0nat,
{
    match t {
        FixedSizeType::Struct(s) => length_of_struct(s, ctx),
        FixedSizeType::Primitive(p) => p.length(ctx),
        FixedSizeType::Slice(s) => length_of_slice(s, ctx),
    }
}

/// The number of bytes that a slice occupies.
fn length_of_slice<P: FixedSizePrimitive>(s: &FixedSizeSlice<P>, ctx: Context) -> (n: usize)
    ensures
        n == slice_length(*s),
        slice_wf(*s),
    decreases s, 1nat,
{
    proof {
        use_type_invariant(s);
    }
    let each = length_of(&s.element_type, ctx);
    s.count * each
}

/// The number of bytes that a struct occupies.
fn length_of_struct<P: FixedSizePrimitive>(s: &FixedSizeStruct<P>, ctx: Context) -> (n: usize)
    ensures
        n == struct_length(*s),
        struct_wf(*s),
    decreases s, 1nat,
{
    proof {
        use_type_invariant(s);
    }
    let mut end: usize = 0;
    let mut i: usize = 0;
    while i < s.fields.len()
        invariant
            i <= s.fields.len(),
            end == fields_end(s.fields@, i as nat),
            struct_wf(*s),
        decreases s.fields.len() - i,
    {
        let field = &s.fields[i];
        assert(field_wf(s.fields()[i as int]));
        let field_end = field.offset + length_of(&field.ty, ctx);
        if field_end > end {
            end = field_end;
        }
        i += 1;
    }
    end
}

} // verus!
