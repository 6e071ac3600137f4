//! The environment in which a size is computed.

use vstd::prelude::*;

verus! {

/// What a size computation may look at: the data, and the position in it of
/// the value whose size is asked for.
///
/// A size is a function of the type and of its context alone; computing one
/// changes neither.
#[derive(Clone, Copy, Debug)]
pub struct Context<'data> {
    data: &'data [u8],
    offset: usize,
}

/// A [`Context`] as mathematical values.
pub struct ContextView {
    pub data: Seq<u8>,
    pub offset: nat,
}

impl<'data> View for Context<'data> {
    type V = ContextView;

    closed spec fn view(&self) -> ContextView {
        ContextView { data: self.data@, offset: self.offset as nat }
    }
}

impl<'data> Context<'data> {
    /// The context of a value that starts at `offset` in `data`.
    pub fn new(data: &'data [u8], offset: usize) -> (ctx: Self)
        ensures
            ctx@ == (ContextView { data: data@, offset: offset as nat }),
    {
        Context { data, offset }
    }

    /// The context of a value that is not in any data: there is nothing to
    /// look at.
    pub fn detached() -> (ctx: Context<'static>)
        ensures
            ctx@ == (ContextView { data: Seq::<u8>::empty(), offset: 0 }),
    {
        let nothing: &'static [u8] = &[];
        assert(nothing@ =~= Seq::<u8>::empty());
        Context { data: nothing, offset: 0 }
    }

    /// The data.
    pub fn data(&self) -> (data: &'data [u8])
        ensures
            data@ == self@.data,
    {
        self.data
    }

    /// The position of the value in the data.
    pub fn offset(&self) -> (offset: usize)
        ensures
            offset == self@.offset,
    {
        self.offset
    }
}

} // verus!
