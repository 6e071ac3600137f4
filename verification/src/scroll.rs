//! A container calculating which items of a long list have to be rendered.
//!
//! ```text
//! ┌ scroll position / offset
//! │  ┌╌╌╌╌╌╌╌╌╌┐
//! │  ╎         ╎ "virtual" content before rendered content
//! │  ╎         ╎
//! │  ├─────────┤
//! │  │         │ rendered content outside viewport (before)
//! ↓  │         │
//! ┏━━┿━━━━━━━━━┿━━┓ viewport
//! ┃  │         │  ┃
//! ┃  │         │  ┃  rendered content inside viewport
//! ┃  │         │  ┃
//! ┗━━┿━━━━━━━━━┿━━┛
//!    │         │
//!    │         │ rendered content outside viewport (after)
//!    ├─────────┤
//!    ╎         ╎
//!    ╎         ╎ "virtual" content after rendered content
//!    └╌╌╌╌╌╌╌╌╌┘
//! ```

use crate::error::Error;
use core::ops::Range;
use vstd::arithmetic::div_mod::lemma_div_is_ordered;
use vstd::arithmetic::mul::lemma_mul_inequality;
use vstd::prelude::*;

verus! {

/// `a / b` rounded to the nearest integer, a tie rounding up.
pub open spec fn rounded_div(a: int, b: int) -> int {
    (a + b / 2) / b
}

/// The smaller of two integers.
pub open spec fn min_int(a: int, b: int) -> int {
    if a <= b {
        a
    } else {
        b
    }
}

/// The rounded quotient is never negative and never above the dividend.
pub proof fn lemma_rounded_div_bounds(a: int, b: int)
    requires
        0 <= a,
        0 < b,
    ensures
        0 <= rounded_div(a, b) <= a,
{
    assert(0 <= (a + b / 2) / b <= a) by (nonlinear_arith)
        requires
            0 <= a,
            0 < b,
    ;
}

/// Rounding division is monotonic in the dividend.
pub proof fn lemma_rounded_div_monotonic(a1: int, a2: int, b: int)
    requires
        a1 <= a2,
        0 < b,
    ensures
        rounded_div(a1, b) <= rounded_div(a2, b),
{
    lemma_div_is_ordered(a1 + b / 2, a2 + b / 2, b);
}

/// The product of two 32-bit values fits 64 bits.
proof fn lemma_product_fits(a: int, b: int)
    requires
        0 <= a <= u32::MAX,
        0 <= b <= u32::MAX,
    ensures
        0 <= a * b <= u64::MAX,
{
    assert(0 <= a * b <= 0xffff_ffff * 0xffff_ffff) by (nonlinear_arith)
        requires
            0 <= a <= 0xffff_ffff,
            0 <= b <= 0xffff_ffff,
    ;
}

/// Divides `a` by `b`, rounding to the nearest integer, a tie rounding up.
pub fn rounding_div(a: u32, b: u32) -> (q: u32)
    requires
        b > 0,
    ensures
        q == rounded_div(a as int, b as int),
{
    proof {
        lemma_rounded_div_bounds(a as int, b as int);
    }
    let wide: u64 = (a as u64 + (b as u64) / 2) / (b as u64);
    wide as u32
}

/// The state of a [`Container`] as mathematical integers.
pub struct ContainerView {
    pub num_items: nat,
    pub average_item_size: nat,
    pub viewport_size: nat,
    pub items_per_chunk: nat,
    pub rendered_items: nat,
    pub scroll_position: nat,
}

impl ContainerView {
    /// What every state of a container satisfies: sizes and chunks are
    /// positive, and the whole list fits the coordinate space.
    pub open spec fn valid(self) -> bool {
        &&& self.average_item_size > 0
        &&& self.items_per_chunk >= 1
        &&& self.num_items * self.average_item_size <= u32::MAX
    }

    /// The same state scrolled to `scroll_position`.
    pub open spec fn scrolled_to(self, scroll_position: nat) -> ContainerView {
        ContainerView { scroll_position, ..self }
    }

    /// The number of items in a chunk for a viewport of `viewport_size`:
    /// the viewport divided by the average item size, rounded, at least 1.
    pub open spec fn chunk_size_for(self, viewport_size: nat) -> int {
        let rounded = rounded_div(viewport_size as int, self.average_item_size as int);
        if rounded < 1 {
            1
        } else {
            rounded
        }
    }

    /// The same state after the viewport was resized to `viewport_size`.
    pub open spec fn resized_to(self, viewport_size: nat) -> ContainerView {
        let items_per_chunk = self.chunk_size_for(viewport_size);
        ContainerView {
            viewport_size,
            items_per_chunk: items_per_chunk as nat,
            rendered_items: min_int(3 * items_per_chunk, self.num_items as int) as nat,
            ..self
        }
    }

    /// The item under the scroll position.
    pub open spec fn item_at_position(self) -> int {
        rounded_div(self.scroll_position as int, self.average_item_size as int)
    }

    /// The chunk under the scroll position.
    pub open spec fn chunk_at_position(self) -> int {
        rounded_div(self.item_at_position(), self.items_per_chunk as int)
    }

    /// The first rendered item: the start of the chunk before the one under
    /// the scroll position, never past the end of the list.
    pub open spec fn first_item(self) -> int {
        let chunk = self.chunk_at_position();
        let before = if chunk < 1 {
            0
        } else {
            chunk - 1
        };
        min_int(before * self.items_per_chunk, self.num_items as int)
    }

    /// One past the last rendered item, never past the end of the list.
    pub open spec fn last_item(self) -> int {
        min_int(self.first_item() + self.rendered_items, self.num_items as int)
    }

    /// The space taken by the items before the rendered ones.
    pub open spec fn virtual_before(self) -> int {
        self.first_item() * self.average_item_size
    }

    /// The space taken by the items after the rendered ones.
    pub open spec fn virtual_after(self) -> int {
        (self.num_items - self.last_item()) * self.average_item_size
    }
}

/// What has to be rendered, and how much space surrounds it.
#[derive(Debug)]
pub struct LayoutUpdate {
    pub virtual_before: u32,
    pub item_range: Range<u32>,
    pub virtual_after: u32,
}

impl LayoutUpdate {
    /// Whether this is the layout of the state `state`.
    pub open spec fn is_layout_of(self, state: ContainerView) -> bool {
        &&& self.virtual_before == state.virtual_before()
        &&& self.item_range.start == state.first_item()
        &&& self.item_range.end == state.last_item()
        &&& self.virtual_after == state.virtual_after()
    }
}

/// A container calculating scroll positions.
#[derive(Debug)]
pub struct Container {
    num_items: u32,
    average_item_size: u32,
    viewport_size: u32,
    items_per_chunk: u32,
    rendered_items: u32,
    scroll_position: u32,
}

impl View for Container {
    type V = ContainerView;

    closed spec fn view(&self) -> ContainerView {
        ContainerView {
            num_items: self.num_items as nat,
            average_item_size: self.average_item_size as nat,
            viewport_size: self.viewport_size as nat,
            items_per_chunk: self.items_per_chunk as nat,
            rendered_items: self.rendered_items as nat,
            scroll_position: self.scroll_position as nat,
        }
    }
}

impl Container {
    #[verifier::type_invariant]
    closed spec fn inv(self) -> bool {
        self@.valid()
    }

    /// Whether `num_items` items of `average_item_size` each can be laid
    /// out: the size is positive and the whole list fits the coordinates.
    pub open spec fn accepts(num_items: u32, average_item_size: u32) -> bool {
        average_item_size > 0 && num_items * average_item_size <= u32::MAX
    }

    /// A container of `num_items` items, scrolled to the top, with a
    /// viewport the size of one item.
    pub fn new(num_items: u32, average_item_size: u32) -> (r: Result<Self, Error>)
        ensures
            Self::accepts(num_items, average_item_size) <==> r is Ok,
            r matches Ok(c) ==> c@ == (ContainerView {
                num_items: num_items as nat,
                average_item_size: average_item_size as nat,
                viewport_size: average_item_size as nat,
                items_per_chunk: 1,
                rendered_items: 1,
                scroll_position: 0,
            }) && c@.valid(),
            r matches Err(e) ==> e == Error::InvalidConfiguration,
    {
        if average_item_size == 0 {
            return Err(Error::InvalidConfiguration);
        }
        proof {
            lemma_product_fits(num_items as int, average_item_size as int);
        }
        if num_items as u64 * average_item_size as u64 > u32::MAX as u64 {
            return Err(Error::InvalidConfiguration);
        }
        Ok(
            Self {
                num_items,
                average_item_size,
                viewport_size: average_item_size,
                items_per_chunk: 1,
                rendered_items: 1,
                scroll_position: 0,
            },
        )
    }

    /// Adapts the chunk size and the number of rendered items to a viewport
    /// of `viewport_size`.
    pub fn on_resize(&mut self, viewport_size: u32)
        ensures
            final(self)@ == old(self)@.resized_to(viewport_size as nat),
            final(self)@.valid(),
            final(self)@.items_per_chunk >= 1,
    {
        proof {
            use_type_invariant(&*self);
            lemma_rounded_div_bounds(viewport_size as int, self.average_item_size as int);
        }
        let rounded = rounding_div(viewport_size, self.average_item_size);
        let items_per_chunk: u32 = if rounded < 1 {
            1
        } else {
            rounded
        };
        let tripled: u64 = 3 * (items_per_chunk as u64);
        let rendered_items: u32 = if tripled <= self.num_items as u64 {
            tripled as u32
        } else {
            self.num_items
        };
        self.viewport_size = viewport_size;
        self.items_per_chunk = items_per_chunk;
        self.rendered_items = rendered_items;
    }

    /// Moves to `scroll_position` and says what has to be rendered there.
    pub fn on_scroll(&mut self, scroll_position: u32) -> (update: LayoutUpdate)
        ensures
            final(self)@ == old(self)@.scrolled_to(scroll_position as nat),
            final(self)@.valid(),
            update.is_layout_of(final(self)@),
    {
        proof {
            use_type_invariant(&*self);
        }
        self.scroll_position = scroll_position;
        self.query()
    }

    /// The number of items in one chunk.
    pub fn items_per_chunk(&self) -> (n: u32)
        ensures
            n == self@.items_per_chunk,
            n >= 1,
    {
        proof {
            use_type_invariant(self);
        }
        self.items_per_chunk
    }

    /// The number of items rendered at once.
    pub fn rendered_items(&self) -> (n: u32)
        ensures
            n == self@.rendered_items,
    {
        self.rendered_items
    }

    /// The item under the scroll position.
    pub fn item_at_position(&self) -> (item: u32)
        ensures
            item == self@.item_at_position(),
            self@.valid(),
    {
        proof {
            use_type_invariant(self);
        }
        rounding_div(self.scroll_position, self.average_item_size)
    }

    /// The chunk under the scroll position.
    pub fn chunk_at_position(&self) -> (chunk: u32)
        ensures
            chunk == self@.chunk_at_position(),
            self@.valid(),
    {
        proof {
            use_type_invariant(self);
        }
        rounding_div(self.item_at_position(), self.items_per_chunk)
    }

    /// What has to be rendered at the current scroll position.
    pub fn query(&self) -> (update: LayoutUpdate)
        ensures
            update.is_layout_of(self@),
            self@.valid(),
    {
        proof {
            use_type_invariant(self);
            lemma_layout_bounds(self@);
        }
        let chunk_at_position = self.chunk_at_position();
        let before: u64 = if chunk_at_position < 1 {
            0
        } else {
            (chunk_at_position - 1) as u64
        };
        proof {
            lemma_product_fits(before as int, self.items_per_chunk as int);
        }
        let unclamped: u64 = before * (self.items_per_chunk as u64);
        let first_item: u32 = if unclamped <= self.num_items as u64 {
            unclamped as u32
        } else {
            self.num_items
        };
        let end: u64 = first_item as u64 + self.rendered_items as u64;
        let last_item: u32 = if end <= self.num_items as u64 {
            end as u32
        } else {
            self.num_items
        };
        let virtual_before = first_item * self.average_item_size;
        let virtual_after = (self.num_items - last_item) * self.average_item_size;
        LayoutUpdate { virtual_before, item_range: first_item..last_item, virtual_after }
    }
}

/// In every valid state the rendered range lies inside the list, and the
/// virtual space before and after it fits the coordinate space.
pub proof fn lemma_layout_bounds(state: ContainerView)
    requires
        state.valid(),
    ensures
        0 <= state.first_item() <= state.last_item() <= state.num_items,
        0 <= state.virtual_before() <= u32::MAX,
        0 <= state.virtual_after() <= u32::MAX,
        0 <= state.chunk_at_position() <= state.item_at_position() <= state.scroll_position,
{
    lemma_rounded_div_bounds(state.scroll_position as int, state.average_item_size as int);
    lemma_rounded_div_bounds(state.item_at_position(), state.items_per_chunk as int);
    let chunk = state.chunk_at_position();
    let before = if chunk < 1 {
        0
    } else {
        chunk - 1
    };
    let ipc = state.items_per_chunk as int;
    let avg = state.average_item_size as int;
    let num = state.num_items as int;
    assert(0 <= before * ipc) by (nonlinear_arith)
        requires
            0 <= before,
            0 <= ipc,
    ;
    let first = state.first_item();
    let last = state.last_item();
    lemma_mul_inequality(first, num, avg);
    lemma_mul_inequality(num - last, num, avg);
    assert(0 <= first * avg) by (nonlinear_arith)
        requires
            0 <= first,
            0 <= avg,
    ;
    assert(0 <= (num - last) * avg) by (nonlinear_arith)
        requires
            0 <= num - last,
            0 <= avg,
    ;
}

/// Whatever the viewport, a chunk holds at least one item.
pub proof fn lemma_chunk_holds_an_item(state: ContainerView, viewport_size: nat)
    requires
        state.average_item_size > 0,
    ensures
        state.chunk_size_for(viewport_size) >= 1,
        state.resized_to(viewport_size).items_per_chunk >= 1,
{
}

/// Two queries of one state, with no scroll and no resize between them,
/// report the same layout.
pub proof fn lemma_query_repeatable(state: ContainerView, first: LayoutUpdate, second: LayoutUpdate)
    requires
        first.is_layout_of(state),
        second.is_layout_of(state),
    ensures
        first == second,
{
}

/// Scrolling further down never moves the first rendered item up.
pub proof fn lemma_first_item_monotonic(state: ContainerView, lower: nat, upper: nat)
    requires
        state.valid(),
        lower <= upper,
    ensures
        state.scrolled_to(lower).first_item() <= state.scrolled_to(upper).first_item(),
{
    let low = state.scrolled_to(lower);
    let high = state.scrolled_to(upper);
    let avg = state.average_item_size as int;
    let ipc = state.items_per_chunk as int;
    lemma_rounded_div_monotonic(lower as int, upper as int, avg);
    lemma_rounded_div_monotonic(low.item_at_position(), high.item_at_position(), ipc);
    let low_chunk = low.chunk_at_position();
    let high_chunk = high.chunk_at_position();
    let low_before = if low_chunk < 1 {
        0
    } else {
        low_chunk - 1
    };
    let high_before = if high_chunk < 1 {
        0
    } else {
        high_chunk - 1
    };
    lemma_mul_inequality(low_before, high_before, ipc);
}

/// An empty list renders nothing and has no virtual space around it.
pub proof fn lemma_empty_list_layout(state: ContainerView)
    requires
        state.valid(),
        state.num_items == 0,
    ensures
        state.first_item() == 0,
        state.last_item() == 0,
        state.virtual_before() == 0,
        state.virtual_after() == 0,
{
    lemma_layout_bounds(state);
}

} // verus!
