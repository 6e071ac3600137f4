//! What a query hands back: decoded fields, each labelled with its path.

use crate::error::Error;
use vstd::prelude::*;

verus! {

/// One step of a path: the name of a field and a repetition index.
pub type Step = (Seq<char>, nat);

/// The position of a field inside nested structs and slices: a path of
/// steps, each the name of a field and a repetition index.
///
/// A path is a label. Nothing is decoded by it.
#[derive(Debug)]
pub struct Hierarchy {
    path: Vec<(String, usize)>,
}

impl View for Hierarchy {
    type V = Seq<Step>;

    closed spec fn view(&self) -> Seq<Step> {
        Seq::new(self.path@.len(), |i: int| (self.path@[i].0@, self.path@[i].1 as nat))
    }
}

impl Hierarchy {
    /// The empty path.
    pub fn new() -> (path: Self)
        ensures
            path@ == Seq::<Step>::empty(),
    {
        Hierarchy { path: Vec::new() }
    }

    /// A copy of this path.
    pub fn duplicate(&self) -> (copy: Self)
        ensures
            copy@ == self@,
    {
        let mut path: Vec<(String, usize)> = Vec::new();
        let mut i: usize = 0;
        while i < self.path.len()
            invariant
                i <= self.path.len(),
                path@.len() == i,
                forall|k: int|
                    0 <= k < i ==> (#[trigger] path@[k]).0@ == self.path@[k].0@ && path@[k].1
                        == self.path@[k].1,
            decreases self.path.len() - i,
        {
            let step = &self.path[i];
            path.push((step.0.clone(), step.1));
            i += 1;
        }
        let copy = Hierarchy { path };
        assert(copy@ =~= self@);
        copy
    }

    /// This path, one step further: into the field `name`, at repetition
    /// `index`.
    pub fn child(&self, name: &str, index: usize) -> (longer: Self)
        ensures
            longer@ == self@.push((name@, index as nat)),
    {
        let mut longer = self.duplicate();
        longer.path.push((name.to_owned(), index));
        assert(longer@ =~= self@.push((name@, index as nat)));
        longer
    }

    /// The number of steps.
    pub fn len(&self) -> (n: usize)
        ensures
            n == self@.len(),
    {
        self.path.len()
    }

    /// The field name of step `i`.
    pub fn name_at(&self, i: usize) -> (name: &str)
        requires
            i < self@.len(),
        ensures
            name@ == self@[i as int].0,
    {
        self.path[i].0.as_str()
    }

    /// The repetition index of step `i`.
    pub fn index_at(&self, i: usize) -> (index: usize)
        requires
            i < self@.len(),
        ensures
            index == self@[i as int].1,
    {
        self.path[i].1
    }
}

/// A [`Property`] as mathematical values.
pub struct PropertyView {
    pub path: Seq<Step>,
    pub offset: nat,
    pub length: nat,
    pub ty_name: Seq<char>,
    pub value: Result<u64, Error>,
}

impl PropertyView {
    /// The name of the field: that of the last step of its path, empty for
    /// the empty path.
    pub open spec fn name(self) -> Seq<char> {
        if self.path.len() == 0 {
            Seq::empty()
        } else {
            self.path.last().0
        }
    }

    /// The first byte of the field.
    pub open spec fn start(self) -> nat {
        self.offset
    }

    /// One past the last byte of the field.
    pub open spec fn end(self) -> nat {
        self.offset + self.length
    }
}

/// A decoded field: where it is, what it is, and its value, or why it has
/// none.
#[derive(Debug)]
pub struct Property {
    path: Hierarchy,
    offset: usize,
    length: usize,
    ty_name: String,
    value: Result<u64, Error>,
}

impl View for Property {
    type V = PropertyView;

    closed spec fn view(&self) -> PropertyView {
        PropertyView {
            path: self.path@,
            offset: self.offset as nat,
            length: self.length as nat,
            ty_name: self.ty_name@,
            value: self.value,
        }
    }
}

impl Property {
    #[verifier::type_invariant]
    closed spec fn inv(self) -> bool {
        self.offset + self.length <= usize::MAX
    }

    /// The field of `length` bytes at `offset`, of the type called
    /// `ty_name`, found at `path`, with its decoded value or the reason why
    /// it has none.
    pub(crate) fn new(
        path: Hierarchy,
        offset: usize,
        length: usize,
        ty_name: String,
        value: Result<u64, Error>,
    ) -> (property: Self)
        requires
            offset + length <= usize::MAX,
        ensures
            property@ == (PropertyView {
                path: path@,
                offset: offset as nat,
                length: length as nat,
                ty_name: ty_name@,
                value,
            }),
    {
        Property { path, offset, length, ty_name, value }
    }

    /// The name of the field: that of the last step of its path.
    pub fn name(&self) -> (name: &str)
        ensures
            name@ == self@.name(),
    {
        let steps = self.path.len();
        if steps == 0 {
            proof {
                reveal_strlit("");
            }
            assert(""@ =~= Seq::<char>::empty());
            ""
        } else {
            self.path.name_at(steps - 1)
        }
    }

    /// The first byte of the field.
    pub fn start(&self) -> (start: usize)
        ensures
            start == self@.start(),
    {
        self.offset
    }

    /// One past the last byte of the field.
    pub fn end(&self) -> (end: usize)
        ensures
            end == self@.end(),
    {
        proof {
            use_type_invariant(self);
        }
        self.offset + self.length
    }

    /// Where the field is inside nested structs and slices.
    pub fn path(&self) -> (path: &Hierarchy)
        ensures
            path@ == self@.path,
    {
        &self.path
    }

    /// The number of bytes of the field.
    pub fn length(&self) -> (length: usize)
        ensures
            length == self@.length,
    {
        self.length
    }

    /// The name of the field's type.
    pub fn ty_name(&self) -> (name: &str)
        ensures
            name@ == self@.ty_name,
    {
        self.ty_name.as_str()
    }

    /// The decoded value, or why the field has none.
    pub fn value(&self) -> (value: Result<u64, Error>)
        ensures
            value == self@.value,
    {
        self.value
    }
}

/// The views of a sequence of properties.
pub open spec fn property_views(properties: Seq<Property>) -> Seq<PropertyView> {
    Seq::new(properties.len(), |i: int| properties[i]@)
}

} // verus!
