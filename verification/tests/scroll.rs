use hexite::{rounding_div, Container, Error};

#[test]
fn test_start_edge() {
    let num_items = 1_000;
    let average_item_size = 10;
    let viewport_size = 50;

    let mut container = Container::new(num_items, average_item_size).unwrap();

    container.on_resize(viewport_size);
    assert_eq!(container.items_per_chunk(), 5);
    assert_eq!(container.rendered_items(), 15);

    let update = container.on_scroll(0);
    assert_eq!(update.virtual_before, 0);
    assert_eq!(update.item_range, 0..15);
    assert_eq!(update.virtual_after, 9850);

    let update = container.on_scroll(15);
    assert_eq!(update.virtual_before, 0);
    assert_eq!(update.item_range, 0..15);
    assert_eq!(update.virtual_after, 9850);

    let update = container.on_scroll(60);
    assert_eq!(update.virtual_before, 0);
    assert_eq!(update.item_range, 0..15);
    assert_eq!(update.virtual_after, 9850);

    let update = container.on_scroll(80);
    assert_eq!(update.virtual_before, 50);
    assert_eq!(update.item_range, 5..20);
    assert_eq!(update.virtual_after, 9800);

    let update = container.on_scroll(120);
    assert_eq!(container.item_at_position(), 12);
    assert_eq!(container.chunk_at_position(), 2);
    assert_eq!(update.virtual_before, 50);
    assert_eq!(update.item_range, 5..20);
    assert_eq!(update.virtual_after, 9800);
}

#[test]
fn rounding_div_rounds_to_nearest() {
    assert_eq!(rounding_div(0, 10), 0);
    assert_eq!(rounding_div(4, 10), 0);
    assert_eq!(rounding_div(14, 10), 1);
    assert_eq!(rounding_div(16, 10), 2);
    assert_eq!(rounding_div(7, 1), 7);
}

#[test]
fn rounding_div_rounds_a_tie_up() {
    assert_eq!(rounding_div(5, 10), 1);
    assert_eq!(rounding_div(15, 10), 2);
    assert_eq!(rounding_div(1, 2), 1);
    assert_eq!(rounding_div(3, 2), 2);
}

#[test]
fn rounding_div_takes_the_largest_operands() {
    assert_eq!(rounding_div(u32::MAX, 1), u32::MAX);
    assert_eq!(rounding_div(u32::MAX, u32::MAX), 1);
    assert_eq!(rounding_div(u32::MAX, 2), 2_147_483_648);
    assert_eq!(rounding_div(0, u32::MAX), 0);
}

#[test]
fn new_rejects_a_zero_item_size() {
    assert_eq!(Container::new(10, 0).err(), Some(Error::InvalidConfiguration));
    assert_eq!(Container::new(0, 0).err(), Some(Error::InvalidConfiguration));
}

#[test]
fn new_rejects_a_list_larger_than_the_coordinates() {
    assert_eq!(Container::new(u32::MAX, 2).err(), Some(Error::InvalidConfiguration));
    assert_eq!(Container::new(65_536, 65_536).err(), Some(Error::InvalidConfiguration));
    assert!(Container::new(u32::MAX, 1).is_ok());
    assert!(Container::new(65_535, 65_537).is_ok());
}

#[test]
fn new_starts_with_one_item_per_chunk() {
    let container = Container::new(1_000, 10).unwrap();
    assert_eq!(container.items_per_chunk(), 1);
    assert_eq!(container.rendered_items(), 1);
    let update = container.query();
    assert_eq!(update.virtual_before, 0);
    assert_eq!(update.item_range, 0..1);
    assert_eq!(update.virtual_after, 9990);
}

#[test]
fn a_chunk_holds_at_least_one_item() {
    let mut container = Container::new(100, 10).unwrap();
    container.on_resize(0);
    assert_eq!(container.items_per_chunk(), 1);
    assert_eq!(container.rendered_items(), 3);
    container.on_resize(4);
    assert_eq!(container.items_per_chunk(), 1);
    container.on_resize(u32::MAX);
    assert_eq!(container.items_per_chunk(), 429_496_730);
    assert_eq!(container.rendered_items(), 100);
}

#[test]
fn rendered_items_are_three_chunks_or_the_whole_list() {
    let mut container = Container::new(10, 10).unwrap();
    container.on_resize(30);
    assert_eq!(container.items_per_chunk(), 3);
    assert_eq!(container.rendered_items(), 9);
    container.on_resize(40);
    assert_eq!(container.items_per_chunk(), 4);
    assert_eq!(container.rendered_items(), 10);
}

#[test]
fn the_rendered_range_stays_inside_the_list() {
    let mut container = Container::new(1_000, 10).unwrap();
    container.on_resize(50);
    for position in [0, 1, 49, 50, 4_999, 9_900, 9_999, 10_000, 1_000_000, u32::MAX] {
        let update = container.on_scroll(position);
        assert!(update.item_range.start <= update.item_range.end);
        assert!(update.item_range.end <= 1_000);
    }
    let update = container.on_scroll(9_940);
    assert_eq!(update.item_range, 990..1_000);
    assert_eq!(update.virtual_before, 9_900);
    assert_eq!(update.virtual_after, 0);
    let update = container.on_scroll(u32::MAX);
    assert_eq!(update.item_range, 1_000..1_000);
    assert_eq!(update.virtual_before, 10_000);
    assert_eq!(update.virtual_after, 0);
}

#[test]
fn query_is_repeatable() {
    let mut container = Container::new(1_000, 10).unwrap();
    container.on_resize(50);
    let scrolled = container.on_scroll(120);
    let first = container.query();
    let second = container.query();
    assert_eq!(first.virtual_before, second.virtual_before);
    assert_eq!(first.item_range, second.item_range);
    assert_eq!(first.virtual_after, second.virtual_after);
    assert_eq!(scrolled.virtual_before, first.virtual_before);
    assert_eq!(scrolled.item_range, first.item_range);
    assert_eq!(scrolled.virtual_after, first.virtual_after);
}

#[test]
fn scrolling_down_never_moves_the_first_item_up() {
    let mut container = Container::new(1_000, 7).unwrap();
    container.on_resize(40);
    let mut previous = 0;
    let mut position = 0;
    while position < 8_000 {
        let update = container.on_scroll(position);
        assert!(previous <= update.item_range.start);
        previous = update.item_range.start;
        position += 13;
    }
}

#[test]
fn an_empty_list_renders_nothing() {
    let mut container = Container::new(0, 10).unwrap();
    let update = container.query();
    assert_eq!(update.virtual_before, 0);
    assert_eq!(update.item_range, 0..0);
    assert_eq!(update.virtual_after, 0);
    container.on_resize(50);
    let update = container.on_scroll(120);
    assert_eq!(update.virtual_before, 0);
    assert_eq!(update.item_range, 0..0);
    assert_eq!(update.virtual_after, 0);
}
