//! A view applying a format definition to a buffer.

use crate::context::Context;
use crate::decode::{lemma_type_outside, lemma_views_of_concat, meets, spans_meet};
use crate::dynamic_decode::{
    any_decoded, decode_any, lemma_any_before, lemma_any_beyond, type_fits,
};
use crate::dynamic_size::{is_size, size_of, type_size, Type};
use crate::error::Error;
use crate::fixed_size::{length_of, type_length, FixedSizeType};
use crate::format::{children_conflict, Format, FormatChild};
use crate::primitives::{FixedSize, FixedSizePrimitive};
use crate::property::{property_views, Hierarchy, Property, PropertyView, Step};
use core::ops::Range;
use vstd::prelude::*;
use vstd::view::View as _;

verus! {

/// The path of the child at position `index` of a format: one step, without
/// a name, at the repetition that is the position.
pub open spec fn child_path(index: nat) -> Seq<Step> {
    seq![(Seq::<char>::empty(), index)]
}

/// The decoded primitives of the first `n` of `children` that meet the bytes
/// from `lo` up to `hi`: child after child, each depth first.
pub open spec fn children_decoded<P: FixedSizePrimitive>(
    children: Seq<FormatChild<P>>,
    n: nat,
    data: Seq<u8>,
    lo: int,
    hi: int,
) -> Seq<PropertyView>
    decreases n,
{
    if n == 0 || n > children.len() {
        Seq::empty()
    } else {
        let index = (n - 1) as nat;
        let child = children[index as int];
        children_decoded(children, index, data, lo, hi) + any_decoded(
            child.ty,
            child.offset as int,
            child_path(index),
            data,
            lo,
            hi,
        )
    }
}

/// The furthest end of the first `n` of `children` in `data`: the number of
/// bytes that they need. Where a child cannot be measured, the first such
/// child says why; a child that would end beyond `usize::MAX` is malformed.
pub open spec fn children_end<P: FixedSizePrimitive>(
    children: Seq<FormatChild<P>>,
    n: nat,
    data: Seq<u8>,
) -> Result<nat, Error>
    decreases n,
{
    if n == 0 || n > children.len() {
        Ok(0nat)
    } else {
        let child = children[n - 1];
        match children_end(children, (n - 1) as nat, data) {
            Ok(end) => match type_size(child.ty, data, child.offset as int) {
                Ok(size) => if child.offset + size > usize::MAX {
                    Err(Error::MalformedDynamicSize { offset: child.offset })
                } else if child.offset + size > end {
                    Ok((child.offset + size) as nat)
                } else {
                    Ok(end)
                },
                Err(e) => Err(e),
            },
            Err(e) => Err(e),
        }
    }
}

/// Where the part of `data` ends that `children` describe: where the
/// children end or where the data ends, whichever comes first; where the
/// data ends if a child cannot be measured.
pub open spec fn described_end<P: FixedSizePrimitive>(
    children: Seq<FormatChild<P>>,
    data: Seq<u8>,
) -> nat {
    match children_end(children, children.len(), data) {
        Ok(end) => if end <= data.len() {
            end
        } else {
            data.len()
        },
        Err(_) => data.len(),
    }
}

/// What a query of the bytes from `lo` up to `hi` says of a range that lies
/// wholly beyond the described part of `data`: where that part ends, and how
/// many bytes the range asks for beyond it. A range that begins inside the
/// described part gets nothing here: what is missing of a field is told with
/// that field. An empty range asks for nothing.
pub open spec fn truncation<P: FixedSizePrimitive>(
    children: Seq<FormatChild<P>>,
    data: Seq<u8>,
    lo: int,
    hi: int,
) -> Option<Error> {
    let end = described_end(children, data);
    if lo < hi && end <= lo {
        Some(Error::TruncatedData { offset: end as usize, missing: (hi - end) as usize })
    } else {
        None
    }
}

/// What a query found.
#[derive(Debug)]
pub struct QueryResult {
    /// The decoded fields that meet the range, in the order of the format,
    /// each with its value or the reason why it has none.
    pub fields: Vec<Property>,
    /// Set where the range lies wholly beyond the described part of the
    /// data.
    pub truncated: Option<Error>,
}

/// A format applied to a buffer. The view borrows the buffer and never
/// changes it.
pub struct View<'data, P: FixedSizePrimitive> {
    data: &'data [u8],
    format: Format<P>,
}

impl<'data, P: FixedSizePrimitive> View<'data, P> {
    /// The bytes of the buffer.
    pub closed spec fn data(&self) -> Seq<u8> {
        self.data@
    }

    /// The format.
    pub closed spec fn format(&self) -> Format<P> {
        self.format
    }

    /// The view of `data` through `format`.
    pub fn new(data: &'data [u8], format: Format<P>) -> (view: Self)
        ensures
            view.data() == data@,
            view.format() == format,
    {
        Self { data, format }
    }

    /// The number of bytes that the format needs: the furthest end of its
    /// children, or why a child cannot be measured.
    pub fn required_length(&self) -> (r: Result<usize, Error>)
        ensures
            is_size(
                r,
                children_end(self.format().children(), self.format().children().len(), self.data()),
            ),
    {
        let count = self.format.len();
        let mut end: usize = 0;
        let mut i: usize = 0;
        while i < count
            invariant
                i <= count,
                count == self.format.children().len(),
                children_end(self.format.children(), i as nat, self.data@) == Ok::<nat, Error>(
                    end as nat,
                ),
            decreases count - i,
        {
            let child = self.format.child(i);
            let ghost next = (i + 1) as nat;
            let size = match size_of(&child.ty, self.data, child.offset) {
                Ok(size) => size,
                Err(e) => {
                    proof {
                        assert(children_end(self.format.children(), next, self.data@) == Err::<
                            nat,
                            Error,
                        >(e));
                        lemma_children_end_fails_on(
                            self.format.children(),
                            next,
                            count as nat,
                            self.data@,
                        );
                    }
                    return Err(e);
                },
            };
            if size > usize::MAX - child.offset {
                proof {
                    assert(children_end(self.format.children(), next, self.data@) is Err);
                    lemma_children_end_fails_on(
                        self.format.children(),
                        next,
                        count as nat,
                        self.data@,
                    );
                }
                return Err(Error::MalformedDynamicSize { offset: child.offset });
            }
            if child.offset + size > end {
                end = child.offset + size;
            }
            i += 1;
        }
        Ok(end)
    }

    /// Where the part of the buffer ends that the format describes.
    pub fn described_end(&self) -> (end: usize)
        ensures
            end == described_end(self.format().children(), self.data()),
    {
        match self.required_length() {
            Ok(end) => if end <= self.data.len() {
                end
            } else {
                self.data.len()
            },
            Err(_) => self.data.len(),
        }
    }

    /// Decodes the fields that meet the bytes of `range`, and only those.
    /// A field that the buffer does not hold in full is listed with the
    /// number of bytes that are missing, and does not stop the fields beside
    /// it. Of a range that lies wholly beyond the described part of the
    /// buffer, the result says so as a whole. Nothing is changed.
    pub fn query(&mut self, range: Range<usize>) -> (result: QueryResult)
        ensures
            *final(self) == *old(self),
            property_views(result.fields@) == children_decoded(
                old(self).format().children(),
                old(self).format().children().len(),
                old(self).data(),
                range.start as int,
                range.end as int,
            ),
            result.truncated == truncation(
                old(self).format().children(),
                old(self).data(),
                range.start as int,
                range.end as int,
            ),
    {
        let fields = self.decode(range.start, range.end);
        let end = self.described_end();
        let truncated = if range.start < range.end && end <= range.start {
            Some(Error::TruncatedData { offset: end, missing: range.end - end })
        } else {
            None
        };
        QueryResult { fields, truncated }
    }

    /// Decodes the fields that meet the bytes from `lo` up to `hi`. A child
    /// that does not meet them is passed over.
    fn decode(&self, lo: usize, hi: usize) -> (fields: Vec<Property>)
        ensures
            property_views(fields@) == children_decoded(
                self.format().children(),
                self.format().children().len(),
                self.data(),
                lo as int,
                hi as int,
            ),
    {
        let count = self.format.len();
        let mut fields: Vec<Property> = Vec::new();
        assert(property_views(fields@) =~= Seq::<PropertyView>::empty());
        let mut i: usize = 0;
        while i < count
            invariant
                i <= count,
                count == self.format.children().len(),
                property_views(fields@) == children_decoded(
                    self.format.children(),
                    i as nat,
                    self.data@,
                    lo as int,
                    hi as int,
                ),
            decreases count - i,
        {
            let child = self.format.child(i);
            let root = Hierarchy::new();
            let path = root.child("", i);
            proof {
                reveal_strlit("");
                assert(""@ =~= Seq::<char>::empty());
                assert(path@ =~= child_path(i as nat));
            }
            let passed_over = match &child.ty {
                Type::Fixed(fixed) => {
                    let length = length_of(fixed, Context::new(self.data, child.offset));
                    proof {
                        if !spans_meet(child.offset as int, length as int, lo as int, hi as int) {
                            lemma_type_outside(
                                *fixed,
                                child.offset as int,
                                path@,
                                self.data@,
                                lo as int,
                                hi as int,
                            );
                        }
                    }
                    !meets(child.offset, length, lo, hi)
                },
                Type::Dynamic(_) => {
                    proof {
                        if lo >= hi || child.offset >= hi {
                            lemma_any_beyond(
                                child.ty,
                                child.offset as int,
                                path@,
                                self.data@,
                                lo as int,
                                hi as int,
                            );
                        }
                    }
                    lo >= hi || child.offset >= hi
                },
            };
            if !passed_over {
                let mut found = decode_any(&child.ty, child.offset, path, self.data, lo, hi);
                proof {
                    lemma_views_of_concat(fields@, found@);
                }
                fields.append(&mut found);
            } else {
                assert(any_decoded(
                    child.ty,
                    child.offset as int,
                    child_path(i as nat),
                    self.data@,
                    lo as int,
                    hi as int,
                ) == Seq::<PropertyView>::empty());
            }
            i += 1;
        }
        fields
    }
}

/// Once a child cannot be measured, the children cannot.
pub proof fn lemma_children_end_fails_on<P: FixedSizePrimitive>(
    children: Seq<FormatChild<P>>,
    m: nat,
    n: nat,
    data: Seq<u8>,
)
    requires
        m <= n <= children.len(),
        children_end(children, m, data) is Err,
    ensures
        children_end(children, n, data) == children_end(children, m, data),
    decreases n,
{
    if m < n {
        lemma_children_end_fails_on(children, m, (n - 1) as nat, data);
    }
}

/// The children end where fewer of them end, or later, and none of them
/// ends beyond that.
proof fn lemma_children_end_bounds<P: FixedSizePrimitive>(
    children: Seq<FormatChild<P>>,
    n: nat,
    data: Seq<u8>,
)
    requires
        0 < n <= children.len(),
        children_end(children, n, data) is Ok,
    ensures
        children_end(children, (n - 1) as nat, data) matches Ok(fewer) && fewer <= children_end(
            children,
            n,
            data,
        )->Ok_0,
        type_size(children[n - 1].ty, data, children[n - 1].offset as int) matches Ok(size)
            && children[n - 1].offset + size <= children_end(children, n, data)->Ok_0,
{
}

/// A range that begins where the first `n` of `children` end, or later,
/// meets none of them: nothing is decoded.
pub proof fn lemma_nothing_past_the_children<P: FixedSizePrimitive>(
    children: Seq<FormatChild<P>>,
    n: nat,
    data: Seq<u8>,
    lo: int,
    hi: int,
)
    requires
        n <= children.len(),
        children_end(children, n, data) matches Ok(end) && end <= lo,
    ensures
        children_decoded(children, n, data, lo, hi) == Seq::<PropertyView>::empty(),
    decreases n,
{
    if n > 0 {
        let index = (n - 1) as nat;
        let child = children[index as int];
        lemma_children_end_bounds(children, n, data);
        lemma_nothing_past_the_children(children, index, data, lo, hi);
        lemma_any_before(child.ty, child.offset as int, child_path(index), data, lo, hi);
    }
}

/// A range that is not empty and lies wholly past a format finds no field,
/// and is told that it is beyond the described part of the data.
pub proof fn lemma_range_past_the_format<P: FixedSizePrimitive>(
    format: Format<P>,
    data: Seq<u8>,
    lo: int,
    hi: int,
)
    requires
        lo < hi <= usize::MAX,
        children_end(format.children(), format.children().len(), data) matches Ok(end) && end
            <= lo,
    ensures
        children_decoded(format.children(), format.children().len(), data, lo, hi) == Seq::<
            PropertyView,
        >::empty(),
        truncation(format.children(), data, lo, hi) matches Some(
            Error::TruncatedData { offset, missing },
        ) && offset == described_end(format.children(), data) && offset + missing == hi,
{
    lemma_nothing_past_the_children(format.children(), format.children().len(), data, lo, hi);
}

/// The number of bytes of a child of a fixed size.
pub open spec fn child_length<P: FixedSizePrimitive>(child: FormatChild<P>) -> nat {
    match child.ty {
        Type::Fixed(fixed) => type_length(fixed),
        Type::Dynamic(_) => 0,
    }
}

/// The sum of the lengths of the first `n` of `children`.
pub open spec fn lengths_sum<P: FixedSizePrimitive>(children: Seq<FormatChild<P>>, n: nat) -> nat
    decreases n,
{
    if n == 0 || n > children.len() {
        0
    } else {
        lengths_sum(children, (n - 1) as nat) + child_length(children[n - 1])
    }
}

/// Whether each of `children` is a primitive.
pub open spec fn only_primitives<P: FixedSizePrimitive>(children: Seq<FormatChild<P>>) -> bool {
    forall|i: int|
        0 <= i < children.len() ==> (#[trigger] children[i]).ty matches Type::Fixed(
            FixedSizeType::Primitive(_),
        )
}

/// Whether `child` claims the byte at `byte`.
pub open spec fn child_holds<P: FixedSizePrimitive>(child: FormatChild<P>, byte: int) -> bool {
    child.offset <= byte < child.offset + child_length(child)
}

/// Whether one of `children` claims the byte at `byte`.
pub open spec fn some_child_holds<P: FixedSizePrimitive>(
    children: Seq<FormatChild<P>>,
    byte: int,
) -> bool {
    exists|i: int| 0 <= i < children.len() && child_holds(#[trigger] children[i], byte)
}

/// Whether no byte is claimed by two of `children`.
pub open spec fn disjoint<P: FixedSizePrimitive>(children: Seq<FormatChild<P>>) -> bool {
    forall|i: int, j: int, byte: int|
        0 <= i < j < children.len() && #[trigger] child_holds(children[i], byte)
            ==> !#[trigger] child_holds(children[j], byte)
}

/// Whether `children` leave no gap in `data`: each byte below their furthest
/// end is claimed by one of them.
pub open spec fn gapless<P: FixedSizePrimitive>(
    children: Seq<FormatChild<P>>,
    data: Seq<u8>,
) -> bool {
    match children_end(children, children.len(), data) {
        Ok(end) => forall|byte: int| 0 <= byte < end ==> #[trigger] some_child_holds(children, byte),
        Err(_) => true,
    }
}

/// The number of bytes below `bound` that the first `n` of `children` claim,
/// a byte counted once for each child that claims it.
pub open spec fn claimed_below<P: FixedSizePrimitive>(
    children: Seq<FormatChild<P>>,
    n: nat,
    bound: int,
) -> int
    decreases n,
{
    if n == 0 || n > children.len() {
        0
    } else {
        let child = children[n - 1];
        let end = child.offset + child_length(child);
        let from = if child.offset <= bound {
            child.offset as int
        } else {
            bound
        };
        let to = if end <= bound {
            end
        } else {
            bound
        };
        claimed_below(children, (n - 1) as nat, bound) + (to - from)
    }
}

/// The number of the first `n` of `children` that claim the byte at `byte`.
pub open spec fn holders<P: FixedSizePrimitive>(
    children: Seq<FormatChild<P>>,
    n: nat,
    byte: int,
) -> int
    decreases n,
{
    if n == 0 || n > children.len() {
        0
    } else {
        holders(children, (n - 1) as nat, byte) + (if child_holds(children[n - 1], byte) {
            1int
        } else {
            0int
        })
    }
}

/// One byte further, the claimed bytes grow by the number of children that
/// claim that byte.
proof fn lemma_claimed_one_further<P: FixedSizePrimitive>(
    children: Seq<FormatChild<P>>,
    n: nat,
    bound: int,
)
    requires
        n <= children.len(),
    ensures
        claimed_below(children, n, bound + 1) == claimed_below(children, n, bound) + holders(
            children,
            n,
            bound,
        ),
    decreases n,
{
    if n > 0 {
        lemma_claimed_one_further(children, (n - 1) as nat, bound);
    }
}

/// Below 0 nothing is claimed.
proof fn lemma_claimed_below_zero<P: FixedSizePrimitive>(children: Seq<FormatChild<P>>, n: nat)
    requires
        n <= children.len(),
    ensures
        claimed_below(children, n, 0) == 0,
    decreases n,
{
    if n > 0 {
        lemma_claimed_below_zero(children, (n - 1) as nat);
    }
}

/// Below a bound that no child reaches beyond, the children claim as many
/// bytes as their lengths add up to.
proof fn lemma_claimed_below_all<P: FixedSizePrimitive>(
    children: Seq<FormatChild<P>>,
    n: nat,
    bound: int,
)
    requires
        n <= children.len(),
        forall|i: int|
            0 <= i < n ==> (#[trigger] children[i]).offset + child_length(children[i]) <= bound,
    ensures
        claimed_below(children, n, bound) == lengths_sum(children, n),
    decreases n,
{
    if n > 0 {
        lemma_claimed_below_all(children, (n - 1) as nat, bound);
        assert(children[n - 1].offset + child_length(children[n - 1]) <= bound);
    }
}

/// A byte that none of the first `n` children claims has no holder among
/// them.
proof fn lemma_no_holder<P: FixedSizePrimitive>(
    children: Seq<FormatChild<P>>,
    n: nat,
    byte: int,
)
    requires
        n <= children.len(),
        forall|i: int| 0 <= i < n ==> !child_holds(#[trigger] children[i], byte),
    ensures
        holders(children, n, byte) == 0,
    decreases n,
{
    if n > 0 {
        lemma_no_holder(children, (n - 1) as nat, byte);
        assert(!child_holds(children[n - 1], byte));
    }
}

/// A byte that child `k` alone claims has one holder.
proof fn lemma_one_holder<P: FixedSizePrimitive>(
    children: Seq<FormatChild<P>>,
    n: nat,
    byte: int,
    k: int,
)
    requires
        0 <= k < n <= children.len(),
        child_holds(children[k], byte),
        forall|i: int| 0 <= i < n && i != k ==> !child_holds(#[trigger] children[i], byte),
    ensures
        holders(children, n, byte) == 1,
    decreases n,
{
    if n - 1 == k {
        lemma_no_holder(children, (n - 1) as nat, byte);
    } else {
        lemma_one_holder(children, (n - 1) as nat, byte, k);
        assert(!child_holds(children[n - 1], byte));
    }
}

/// Children that share no byte and leave no gap below `limit` claim, below
/// each bound up to `limit`, as many bytes as the bound says.
proof fn lemma_claimed_is_bound<P: FixedSizePrimitive>(
    children: Seq<FormatChild<P>>,
    limit: int,
    bound: nat,
)
    requires
        bound <= limit,
        disjoint(children),
        forall|byte: int| 0 <= byte < limit ==> #[trigger] some_child_holds(children, byte),
    ensures
        claimed_below(children, children.len(), bound as int) == bound,
    decreases bound,
{
    if bound == 0 {
        lemma_claimed_below_zero(children, children.len());
    } else {
        let byte = bound - 1;
        lemma_claimed_is_bound(children, limit, byte as nat);
        lemma_claimed_one_further(children, children.len(), byte);
        assert(some_child_holds(children, byte));
        let k = choose|i: int| 0 <= i < children.len() && child_holds(#[trigger] children[i], byte);
        assert forall|i: int| 0 <= i < children.len() && i != k implies !child_holds(
            #[trigger] children[i],
            byte,
        ) by {
            if i < k {
                assert(child_holds(children[i], byte) ==> !child_holds(children[k], byte));
            } else {
                assert(child_holds(children[k], byte) ==> !child_holds(children[i], byte));
            }
        }
        lemma_one_holder(children, children.len(), byte, k);
    }
}

/// Children of a fixed size that can begin at their offsets can be
/// measured, and none of them ends beyond their furthest end.
proof fn lemma_fixed_children_end<P: FixedSizePrimitive>(
    children: Seq<FormatChild<P>>,
    n: nat,
    data: Seq<u8>,
)
    requires
        n <= children.len(),
        only_primitives(children),
        forall|i: int|
            0 <= i < children.len() ==> type_fits(
                (#[trigger] children[i]).ty,
                children[i].offset as int,
            ),
    ensures
        children_end(children, n, data) is Ok,
        forall|i: int|
            0 <= i < n ==> (#[trigger] children[i]).offset + child_length(children[i])
                <= children_end(children, n, data)->Ok_0,
    decreases n,
{
    if n > 0 {
        let child = children[n - 1];
        lemma_fixed_children_end(children, (n - 1) as nat, data);
        assert(type_fits(child.ty, child.offset as int));
        assert(type_size(child.ty, data, child.offset as int) == Ok::<nat, Error>(
            child_length(child),
        ));
    }
}

/// In a format of primitives that is no union, no byte is claimed by two
/// children.
pub proof fn lemma_children_are_disjoint<P: FixedSizePrimitive>(format: Format<P>)
    requires
        format.wf(),
        !format.is_union(),
        only_primitives(format.children()),
    ensures
        disjoint(format.children()),
{
    let children = format.children();
    assert forall|i: int, j: int, byte: int|
        0 <= i < j < children.len() && #[trigger] child_holds(
            children[i],
            byte,
        ) implies !#[trigger] child_holds(children[j], byte) by {
        assert(!children_conflict(children[i], children[j]));
    }
}

/// A format of primitives that share no byte and leave no gap needs as many
/// bytes as the lengths of its children add up to, whatever the data. That
/// the children share no byte is asked of a union only: the children of
/// another format never do.
pub proof fn lemma_primitives_need_their_sum<P: FixedSizePrimitive>(
    format: Format<P>,
    data: Seq<u8>,
)
    requires
        format.wf(),
        only_primitives(format.children()),
        format.is_union() ==> disjoint(format.children()),
        gapless(format.children(), data),
    ensures
        children_end(format.children(), format.children().len(), data) == Ok::<nat, Error>(
            lengths_sum(format.children(), format.children().len()),
        ),
{
    let children = format.children();
    if !format.is_union() {
        lemma_children_are_disjoint(format);
    }
    lemma_fixed_children_end(children, children.len(), data);
    let end = children_end(children, children.len(), data)->Ok_0;
    lemma_claimed_is_bound(children, end as int, end);
    lemma_claimed_below_all(children, children.len(), end as int);
}

} // verus!
