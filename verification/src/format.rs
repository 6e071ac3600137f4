//! Generic definition of a format: types bound to byte offsets.

use crate::context::Context;
use crate::decode::{meets, spans_meet};
use crate::dynamic_decode::{dynamic_fits, type_fits};
use crate::dynamic_size::{DynamicSizeType, Type};
use crate::error::Error;
use crate::fixed_size::{length_of, type_length, FixedSizeType};
use crate::primitives::{FixedSize, FixedSizePrimitive};
use vstd::prelude::*;

verus! {

/// A type at a byte offset.
pub struct FormatChild<P: FixedSizePrimitive> {
    pub offset: usize,
    pub ty: Type<P>,
}

/// Whether two children both have a fixed size and claim a byte in common.
pub open spec fn children_conflict<P: FixedSizePrimitive>(
    a: FormatChild<P>,
    b: FormatChild<P>,
) -> bool {
    match (a.ty, b.ty) {
        (Type::Fixed(first), Type::Fixed(second)) => spans_meet(
            a.offset as int,
            type_length(first) as int,
            b.offset as int,
            b.offset + type_length(second),
        ),
        _ => false,
    }
}

/// An ordered collection of types, each at its own byte offset. The
/// children keep the order in which they were added. Unless the format is a
/// union, no two fixed-size children claim a byte in common.
pub struct Format<P: FixedSizePrimitive> {
    children: Vec<FormatChild<P>>,
    union: bool,
}

impl<P: FixedSizePrimitive> Format<P> {
    /// The children, in the order in which they were added.
    pub closed spec fn children(&self) -> Seq<FormatChild<P>> {
        self.children@
    }

    /// Whether the children may overlap.
    pub closed spec fn is_union(&self) -> bool {
        self.union
    }

    /// Whether each child can begin at its offset and, unless the format is
    /// a union, no two children conflict.
    pub open spec fn wf(&self) -> bool {
        &&& forall|i: int|
            0 <= i < self.children().len() ==> type_fits(
                (#[trigger] self.children()[i]).ty,
                self.children()[i].offset as int,
            )
        &&& !self.is_union() ==> forall|i: int, j: int|
            0 <= i < j < self.children().len() ==> !children_conflict(
                #[trigger] self.children()[i],
                #[trigger] self.children()[j],
            )
    }

    #[verifier::type_invariant]
    closed spec fn inv(self) -> bool {
        self.wf()
    }

    /// Whether `child` can be added: it can begin at its offset and, unless
    /// the format is a union, conflicts with no child.
    pub open spec fn accepts(&self, child: FormatChild<P>) -> bool {
        &&& type_fits(child.ty, child.offset as int)
        &&& !self.is_union() ==> forall|i: int|
            0 <= i < self.children().len() ==> !children_conflict(
                #[trigger] self.children()[i],
                child,
            )
    }

    /// Whether `error` is the reason why `child` cannot be added: that it
    /// cannot begin at its offset, or else the first child that it conflicts
    /// with, and the position that it would have had.
    pub open spec fn refuses(&self, child: FormatChild<P>, error: Error) -> bool {
        if !type_fits(child.ty, child.offset as int) {
            error == Error::InvalidConfiguration
        } else {
            &&& !self.is_union()
            &&& error matches Error::LayoutConflict { first, second }
            &&& second == self.children().len()
            &&& first < self.children().len()
            &&& children_conflict(self.children()[first as int], child)
            &&& forall|i: int| 0 <= i < first ==> !children_conflict(self.children()[i], child)
        }
    }

    /// A format without children, in which no two children may overlap.
    pub fn new() -> (format: Self)
        ensures
            format.children().len() == 0,
            !format.is_union(),
            format.wf(),
    {
        Format { children: Vec::new(), union: false }
    }

    /// A format without children, in which children may overlap: each is a
    /// reading of its own of the same bytes.
    pub fn new_union() -> (format: Self)
        ensures
            format.children().len() == 0,
            format.is_union(),
            format.wf(),
    {
        Format { children: Vec::new(), union: true }
    }

    /// Appends a child of the fixed-size type `ty` at `offset`. A child
    /// that would end beyond `usize::MAX`, or that overlaps a child of a
    /// format that is no union, is refused, and the format stays as it was.
    pub fn add_child(&mut self, offset: usize, ty: FixedSizeType<P>) -> (r: Result<(), Error>)
        ensures
            final(self).is_union() == old(self).is_union(),
            final(self).wf(),
            r is Ok <==> old(self).accepts(FormatChild { offset, ty: Type::Fixed(ty) }),
            r is Ok ==> final(self).children() == old(self).children().push(
                FormatChild { offset, ty: Type::Fixed(ty) },
            ),
            r matches Err(e) ==> final(self).children() == old(self).children() && old(
                self,
            ).refuses(FormatChild { offset, ty: Type::Fixed(ty) }, e),
    {
        self.add(FormatChild { offset, ty: Type::Fixed(ty) })
    }

    /// Appends a child of the dynamic type `ty` at `offset`. A child that
    /// cannot begin there is refused, and the format stays as it was.
    pub fn add_dynamic_child(&mut self, offset: usize, ty: DynamicSizeType<P>) -> (r: Result<
        (),
        Error,
    >)
        ensures
            final(self).is_union() == old(self).is_union(),
            final(self).wf(),
            r is Ok <==> dynamic_fits(ty, offset as int),
            r is Ok ==> final(self).children() == old(self).children().push(
                FormatChild { offset, ty: Type::Dynamic(ty) },
            ),
            r matches Err(e) ==> final(self).children() == old(self).children() && e
                == Error::InvalidConfiguration,
    {
        self.add(FormatChild { offset, ty: Type::Dynamic(ty) })
    }

    /// Appends `child`, or says why it cannot be added.
    pub fn add(&mut self, child: FormatChild<P>) -> (r: Result<(), Error>)
        ensures
            final(self).is_union() == old(self).is_union(),
            final(self).wf(),
            r is Ok <==> old(self).accepts(child),
            r is Ok ==> final(self).children() == old(self).children().push(child),
            r matches Err(e) ==> final(self).children() == old(self).children() && old(
                self,
            ).refuses(child, e),
    {
        proof {
            use_type_invariant(&*self);
        }
        let nothing = Context::detached();
        match &child.ty {
            Type::Fixed(fixed) => {
                let length = length_of(fixed, nothing);
                if length > usize::MAX - child.offset {
                    return Err(Error::InvalidConfiguration);
                }
                if !self.union {
                    let end = child.offset + length;
                    let count = self.children.len();
                    let mut i: usize = 0;
                    while i < count
                        invariant
                            i <= count,
                            count == self.children@.len(),
                            *self == *old(self),
                            self.wf(),
                            !self.union,
                            child.ty == Type::Fixed(*fixed),
                            length == type_length(*fixed),
                            end == child.offset + length,
                            forall|k: int|
                                0 <= k < i ==> !children_conflict(self.children@[k], child),
                        decreases count - i,
                    {
                        let other = &self.children[i];
                        match &other.ty {
                            Type::Fixed(claimed) => {
                                let claimed_length = length_of(claimed, nothing);
                                proof {
                                    assert(type_fits(
                                        self.children()[i as int].ty,
                                        self.children()[i as int].offset as int,
                                    ));
                                }
                                if meets(other.offset, claimed_length, child.offset, end) {
                                    assert(children_conflict(self.children()[i as int], child));
                                    return Err(Error::LayoutConflict { first: i, second: count });
                                }
                            },
                            Type::Dynamic(_) => {},
                        }
                        i += 1;
                    }
                }
            },
            Type::Dynamic(dynamic) => {
                match dynamic {
                    DynamicSizeType::Struct(_) => {},
                    DynamicSizeType::Slice(s) => {
                        let prefix = s.count_primitive().length(nothing);
                        if prefix > usize::MAX - child.offset {
                            return Err(Error::InvalidConfiguration);
                        }
                    },
                }
            },
        }
        let ghost before = self.children@;
        let mut children: Vec<FormatChild<P>> = Vec::new();
        core::mem::swap(&mut self.children, &mut children);
        children.push(child);
        proof {
            assert forall|i: int| 0 <= i < children@.len() implies type_fits(
                (#[trigger] children@[i]).ty,
                children@[i].offset as int,
            ) by {
                if i < before.len() {
                    assert(children@[i] == old(self).children()[i]);
                }
            }
            if !self.union {
                assert forall|i: int, j: int| 0 <= i < j < children@.len() implies !children_conflict(
                    #[trigger] children@[i],
                    #[trigger] children@[j],
                ) by {
                    assert(children@[i] == old(self).children()[i]);
                    if j < before.len() {
                        assert(children@[j] == old(self).children()[j]);
                    }
                }
            }
        }
        self.children = children;
        Ok(())
    }

    /// The number of children.
    pub fn len(&self) -> (n: usize)
        ensures
            n == self.children().len(),
    {
        self.children.len()
    }

    /// The child at position `i`.
    pub fn child(&self, i: usize) -> (child: &FormatChild<P>)
        requires
            i < self.children().len(),
        ensures
            *child == self.children()[i as int],
            type_fits(child.ty, child.offset as int),
    {
        proof {
            use_type_invariant(self);
        }
        &self.children[i]
    }
}

} // verus!
