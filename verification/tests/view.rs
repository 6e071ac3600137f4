use hexite::{
    DynamicSizeSlice, DynamicSizeStruct, DynamicSizeType, Error, FixedSizeSlice, FixedSizeStruct,
    FixedSizeType, Format, Property, Type, View, U32,
};

fn u32_type() -> FixedSizeType<U32> {
    FixedSizeType::Primitive(Box::new(U32 {}))
}

fn numbers(count: u32) -> Vec<u8> {
    let mut data = Vec::new();
    for number in 0..count {
        data.extend_from_slice(&number.to_le_bytes());
    }
    data
}

fn steps(property: &Property) -> Vec<(String, usize)> {
    let path = property.path();
    (0..path.len()).map(|i| (path.name_at(i).to_string(), path.index_at(i))).collect()
}

fn step(name: &str, index: usize) -> (String, usize) {
    (name.to_string(), index)
}

#[test]
fn test_primitive() {
    let data = &[1, 0, 0, 0];

    let mut format = Format::new();
    format.add_child(0, FixedSizeType::Primitive(Box::new(U32 {}))).unwrap();
    let mut view = View::new(data, format);

    let result = view.query(0..0x1000);
    println!("{:?}", result);
    assert_eq!(result.fields.len(), 1);
    assert_eq!(result.fields[0].start(), 0);
    assert_eq!(result.fields[0].end(), 4);
    assert_eq!(result.fields[0].value(), Ok(1));
    assert_eq!(result.truncated, None);
}

#[test]
fn a_primitive_decodes_inside_its_range() {
    let data = &[1, 0, 0, 0];
    let mut format = Format::new();
    format.add_child(0, u32_type()).unwrap();
    let mut view = View::new(data, format);

    let result = view.query(0..4);
    assert_eq!(result.fields.len(), 1);
    let field = &result.fields[0];
    assert_eq!(field.value(), Ok(1));
    assert_eq!(field.start(), 0);
    assert_eq!(field.end(), 4);
    assert_eq!(field.length(), 4);
    assert_eq!(field.ty_name(), "u32");
    assert_eq!(field.name(), "");
    assert_eq!(steps(field), vec![step("", 0)]);
    assert_eq!(result.truncated, None);
}

#[test]
fn a_range_past_the_format_finds_nothing_and_says_so() {
    let data = &[1, 0, 0, 0];
    let mut format = Format::new();
    format.add_child(0, u32_type()).unwrap();
    let mut view = View::new(data, format);

    let result = view.query(100..200);
    assert!(result.fields.is_empty());
    assert_eq!(result.truncated, Some(Error::TruncatedData { offset: 4, missing: 196 }));
}

#[test]
fn a_range_past_the_format_but_inside_the_buffer_says_so_too() {
    let data = numbers(10);
    let mut format = Format::new();
    format.add_child(0, u32_type()).unwrap();
    let mut view = View::new(&data, format);

    let result = view.query(8..12);
    assert!(result.fields.is_empty());
    assert_eq!(result.truncated, Some(Error::TruncatedData { offset: 4, missing: 8 }));
    assert_eq!(view.described_end(), 4);
}

#[test]
fn an_empty_range_finds_nothing_and_is_no_error() {
    let data = &[1, 0, 0, 0];
    let mut format = Format::new();
    format.add_child(0, u32_type()).unwrap();
    let mut view = View::new(data, format);

    let result = view.query(2..2);
    assert!(result.fields.is_empty());
    assert_eq!(result.truncated, None);
    let result = view.query(100..100);
    assert!(result.fields.is_empty());
    assert_eq!(result.truncated, None);
    let result = view.query(3..1);
    assert!(result.fields.is_empty());
    assert_eq!(result.truncated, None);
}

#[test]
fn a_field_that_the_buffer_holds_in_part_is_reported_truncated() {
    let data = &[1, 2, 3];
    let mut format = Format::new();
    format.add_child(2, u32_type()).unwrap();
    let mut view = View::new(data, format);

    let result = view.query(0..10);
    assert_eq!(result.fields.len(), 1);
    assert_eq!(result.fields[0].start(), 2);
    assert_eq!(result.fields[0].end(), 6);
    assert_eq!(
        result.fields[0].value(),
        Err(Error::TruncatedData { offset: 3, missing: 3 })
    );
    assert_eq!(result.truncated, None);

    let result = view.query(3..10);
    assert_eq!(result.fields.len(), 1);
    assert_eq!(
        result.fields[0].value(),
        Err(Error::TruncatedData { offset: 3, missing: 3 })
    );
    assert_eq!(result.truncated, Some(Error::TruncatedData { offset: 3, missing: 7 }));
}

#[test]
fn a_truncated_field_does_not_stop_its_siblings() {
    let data = &[5, 0, 0, 0, 6, 0];
    let mut format = Format::new();
    format.add_child(4, u32_type()).unwrap();
    format.add_child(0, u32_type()).unwrap();
    let mut view = View::new(data, format);

    let result = view.query(0..8);
    assert_eq!(result.fields.len(), 2);
    assert_eq!(
        result.fields[0].value(),
        Err(Error::TruncatedData { offset: 6, missing: 2 })
    );
    assert_eq!(steps(&result.fields[0]), vec![step("", 0)]);
    assert_eq!(result.fields[1].value(), Ok(5));
    assert_eq!(steps(&result.fields[1]), vec![step("", 1)]);
}

#[test]
fn a_field_beyond_the_buffer_is_listed_as_truncated() {
    let data = &[5, 0, 0, 0];
    let mut format = Format::new();
    format.add_child(0, u32_type()).unwrap();
    format.add_child(8, u32_type()).unwrap();
    let mut view = View::new(data, format);

    let result = view.query(0..16);
    assert_eq!(result.fields.len(), 2);
    assert_eq!(result.fields[0].value(), Ok(5));
    assert_eq!(result.fields[1].start(), 8);
    assert_eq!(result.fields[1].end(), 12);
    assert_eq!(
        result.fields[1].value(),
        Err(Error::TruncatedData { offset: 4, missing: 8 })
    );
    assert_eq!(steps(&result.fields[1]), vec![step("", 1)]);
    assert_eq!(result.truncated, None);
    assert_eq!(view.required_length(), Ok(12));
    assert_eq!(view.described_end(), 4);

    let result = view.query(4..16);
    assert_eq!(result.fields.len(), 1);
    assert_eq!(
        result.fields[0].value(),
        Err(Error::TruncatedData { offset: 4, missing: 8 })
    );
    assert_eq!(result.truncated, Some(Error::TruncatedData { offset: 4, missing: 12 }));
}

#[test]
fn a_viewport_larger_than_the_data_is_no_error() {
    let data = numbers(2);
    let mut format = Format::new();
    format.add_child(0, u32_type()).unwrap();
    format.add_child(4, u32_type()).unwrap();
    let mut view = View::new(&data, format);

    let result = view.query(0..usize::MAX);
    let values: Vec<_> = result.fields.iter().map(|field| field.value()).collect();
    assert_eq!(values, vec![Ok(0), Ok(1)]);
    assert_eq!(result.truncated, None);

    let result = view.query(7..1_000);
    assert_eq!(result.fields.len(), 1);
    assert_eq!(result.truncated, None);

    let result = view.query(8..1_000);
    assert!(result.fields.is_empty());
    assert_eq!(result.truncated, Some(Error::TruncatedData { offset: 8, missing: 992 }));
}

#[test]
fn only_the_children_that_meet_the_range_are_decoded() {
    let data = numbers(4);
    let mut format = Format::new();
    format.add_child(0, u32_type()).unwrap();
    format.add_child(4, u32_type()).unwrap();
    format.add_child(8, u32_type()).unwrap();
    format.add_child(12, u32_type()).unwrap();
    let mut view = View::new(&data, format);

    let result = view.query(4..5);
    assert_eq!(result.fields.len(), 1);
    assert_eq!(result.fields[0].value(), Ok(1));
    assert_eq!(steps(&result.fields[0]), vec![step("", 1)]);

    let result = view.query(7..9);
    assert_eq!(result.fields.len(), 2);
    assert_eq!(result.fields[0].value(), Ok(1));
    assert_eq!(result.fields[1].value(), Ok(2));
    assert_eq!(result.truncated, None);

    let result = view.query(0..16);
    assert_eq!(result.fields.len(), 4);
    assert_eq!(result.truncated, None);
}

#[test]
fn the_fields_keep_the_order_in_which_they_were_added() {
    let data = numbers(3);
    let mut format = Format::new();
    format.add_child(8, u32_type()).unwrap();
    format.add_child(0, u32_type()).unwrap();
    format.add_child(4, u32_type()).unwrap();
    let mut view = View::new(&data, format);

    let result = view.query(0..12);
    let values: Vec<_> = result.fields.iter().map(|field| field.value()).collect();
    assert_eq!(values, vec![Ok(2), Ok(0), Ok(1)]);
}

#[test]
fn the_fields_of_a_struct_are_found_under_their_names() {
    let mut record = FixedSizeStruct::new();
    record.add_field("id", 0, u32_type()).unwrap();
    record.add_field("flags", 8, u32_type()).unwrap();
    let data = numbers(5);
    let mut format = Format::new();
    format.add_child(4, FixedSizeType::Struct(record)).unwrap();
    let mut view = View::new(&data, format);

    let result = view.query(0..20);
    assert_eq!(result.fields.len(), 2);
    assert_eq!(result.fields[0].name(), "id");
    assert_eq!(result.fields[0].start(), 4);
    assert_eq!(result.fields[0].value(), Ok(1));
    assert_eq!(steps(&result.fields[0]), vec![step("", 0), step("id", 0)]);
    assert_eq!(result.fields[1].name(), "flags");
    assert_eq!(result.fields[1].start(), 12);
    assert_eq!(result.fields[1].end(), 16);
    assert_eq!(result.fields[1].value(), Ok(3));
    assert_eq!(steps(&result.fields[1]), vec![step("", 0), step("flags", 0)]);
    assert_eq!(view.required_length(), Ok(16));

    let result = view.query(8..12);
    assert!(result.fields.is_empty());
    assert_eq!(result.truncated, None);
}

#[test]
fn only_the_elements_of_a_slice_that_meet_the_range_are_decoded() {
    let data = numbers(1_000);
    let slice = FixedSizeSlice::new(u32_type(), 1_000).unwrap();
    let mut format = Format::new();
    format.add_child(0, FixedSizeType::Slice(slice)).unwrap();
    let mut view = View::new(&data, format);

    let result = view.query(400..408);
    assert_eq!(result.fields.len(), 2);
    assert_eq!(result.fields[0].value(), Ok(100));
    assert_eq!(result.fields[0].start(), 400);
    assert_eq!(steps(&result.fields[0]), vec![step("", 0), step("", 100)]);
    assert_eq!(result.fields[1].value(), Ok(101));
    assert_eq!(steps(&result.fields[1]), vec![step("", 0), step("", 101)]);

    let result = view.query(401..402);
    assert_eq!(result.fields.len(), 1);
    assert_eq!(result.fields[0].value(), Ok(100));

    let result = view.query(403..405);
    assert_eq!(result.fields.len(), 2);
    assert_eq!(result.fields[1].value(), Ok(101));

    let result = view.query(3_996..5_000);
    assert_eq!(result.fields.len(), 1);
    assert_eq!(result.fields[0].value(), Ok(999));
    assert_eq!(result.truncated, None);

    let result = view.query(4_000..5_000);
    assert!(result.fields.is_empty());
    assert_eq!(result.truncated, Some(Error::TruncatedData { offset: 4_000, missing: 1_000 }));

    let result = view.query(0..4_000);
    assert_eq!(result.fields.len(), 1_000);
    assert_eq!(result.truncated, None);
}

#[test]
fn a_slice_of_structs_is_decoded_depth_first() {
    let mut pair = FixedSizeStruct::new();
    pair.add_field("x", 0, u32_type()).unwrap();
    pair.add_field("y", 4, u32_type()).unwrap();
    let slice = FixedSizeSlice::new(FixedSizeType::Struct(pair), 3).unwrap();
    let data = numbers(6);
    let mut format = Format::new();
    format.add_child(0, FixedSizeType::Slice(slice)).unwrap();
    let mut view = View::new(&data, format);

    let result = view.query(4..20);
    let values: Vec<_> = result.fields.iter().map(|field| field.value()).collect();
    assert_eq!(values, vec![Ok(1), Ok(2), Ok(3), Ok(4)]);
    assert_eq!(steps(&result.fields[0]), vec![step("", 0), step("", 0), step("y", 0)]);
    assert_eq!(steps(&result.fields[1]), vec![step("", 0), step("", 1), step("x", 0)]);
    assert_eq!(steps(&result.fields[3]), vec![step("", 0), step("", 2), step("x", 0)]);
}

#[test]
fn the_elements_of_a_slice_beyond_the_buffer_are_listed_as_truncated() {
    let mut data = numbers(2);
    data.push(9);
    let slice = FixedSizeSlice::new(u32_type(), usize::MAX / 4).unwrap();
    let mut format = Format::new();
    format.add_child(0, FixedSizeType::Slice(slice)).unwrap();
    let mut view = View::new(&data, format);

    let result = view.query(0..16);
    let values: Vec<_> = result.fields.iter().map(|field| field.value()).collect();
    assert_eq!(
        values,
        vec![
            Ok(0),
            Ok(1),
            Err(Error::TruncatedData { offset: 9, missing: 3 }),
            Err(Error::TruncatedData { offset: 9, missing: 7 }),
        ]
    );
    assert_eq!(steps(&result.fields[3]), vec![step("", 0), step("", 3)]);
    assert_eq!(result.truncated, None);

    let far = usize::MAX / 4 * 4;
    let result = view.query(far - 4..far);
    assert_eq!(result.fields.len(), 1);
    assert_eq!(result.fields[0].start(), far - 4);
    assert_eq!(result.fields[0].end(), far);
    assert_eq!(
        result.fields[0].value(),
        Err(Error::TruncatedData { offset: 9, missing: far - 9 })
    );
    assert_eq!(steps(&result.fields[0]), vec![step("", 0), step("", usize::MAX / 4 - 1)]);
    assert_eq!(
        result.truncated,
        Some(Error::TruncatedData { offset: 9, missing: far - 9 })
    );
}

#[test]
fn a_dynamic_slice_is_decoded_with_its_count() {
    let data = [&[3u8, 0, 0, 0][..], &numbers(5)[4..]].concat();
    let slice = DynamicSizeSlice::new(U32 {}, Type::Fixed(u32_type()));
    let mut format = Format::new();
    format.add_dynamic_child(0, DynamicSizeType::Slice(slice)).unwrap();
    let mut view = View::new(&data, format);

    let result = view.query(0..16);
    let values: Vec<_> = result.fields.iter().map(|field| field.value()).collect();
    assert_eq!(values, vec![Ok(3), Ok(1), Ok(2), Ok(3)]);
    assert_eq!(steps(&result.fields[0]), vec![step("", 0)]);
    assert_eq!(result.fields[0].start(), 0);
    assert_eq!(steps(&result.fields[1]), vec![step("", 0), step("", 0)]);
    assert_eq!(result.fields[1].start(), 4);
    assert_eq!(steps(&result.fields[3]), vec![step("", 0), step("", 2)]);
    assert_eq!(result.fields[3].end(), 16);
    assert_eq!(result.truncated, None);
    assert_eq!(view.required_length(), Ok(16));

    let result = view.query(9..10);
    assert_eq!(result.fields.len(), 1);
    assert_eq!(result.fields[0].value(), Ok(2));

    let result = view.query(16..20);
    assert!(result.fields.is_empty());
    assert_eq!(result.truncated, Some(Error::TruncatedData { offset: 16, missing: 4 }));
}

#[test]
fn the_elements_of_a_slice_of_dynamic_slices_are_walked_one_after_the_other() {
    let mut data = Vec::new();
    for number in [2u32, 1, 7, 2, 8, 9] {
        data.extend_from_slice(&number.to_le_bytes());
    }
    let inner = DynamicSizeSlice::new(U32 {}, Type::Fixed(u32_type()));
    let outer = DynamicSizeSlice::new(U32 {}, Type::Dynamic(DynamicSizeType::Slice(inner)));
    let mut format = Format::new();
    format.add_dynamic_child(0, DynamicSizeType::Slice(outer)).unwrap();
    let mut view = View::new(&data, format);

    let result = view.query(0..24);
    let values: Vec<_> = result.fields.iter().map(|field| field.value()).collect();
    assert_eq!(values, vec![Ok(2), Ok(1), Ok(7), Ok(2), Ok(8), Ok(9)]);
    let starts: Vec<_> = result.fields.iter().map(|field| field.start()).collect();
    assert_eq!(starts, vec![0, 4, 8, 12, 16, 20]);
    assert_eq!(steps(&result.fields[1]), vec![step("", 0), step("", 0)]);
    assert_eq!(steps(&result.fields[2]), vec![step("", 0), step("", 0), step("", 0)]);
    assert_eq!(steps(&result.fields[3]), vec![step("", 0), step("", 1)]);
    assert_eq!(steps(&result.fields[5]), vec![step("", 0), step("", 1), step("", 1)]);
    assert_eq!(result.truncated, None);
    assert_eq!(view.required_length(), Ok(24));

    let result = view.query(17..18);
    assert_eq!(result.fields.len(), 1);
    assert_eq!(result.fields[0].value(), Ok(8));
    assert_eq!(steps(&result.fields[0]), vec![step("", 0), step("", 1), step("", 0)]);
}

#[test]
fn a_dynamic_slice_whose_data_ends_early_keeps_what_was_decoded() {
    let mut data = Vec::new();
    for number in [3u32, 1, 7] {
        data.extend_from_slice(&number.to_le_bytes());
    }
    data.extend_from_slice(&[2, 0]);
    let inner = DynamicSizeSlice::new(U32 {}, Type::Fixed(u32_type()));
    let outer = DynamicSizeSlice::new(U32 {}, Type::Dynamic(DynamicSizeType::Slice(inner)));
    let mut format = Format::new();
    format.add_dynamic_child(0, DynamicSizeType::Slice(outer)).unwrap();
    let mut view = View::new(&data, format);

    let result = view.query(0..100);
    let values: Vec<_> = result.fields.iter().map(|field| field.value()).collect();
    assert_eq!(
        values,
        vec![Ok(3), Ok(1), Ok(7), Err(Error::TruncatedData { offset: 14, missing: 2 })]
    );
    assert_eq!(steps(&result.fields[3]), vec![step("", 0), step("", 1)]);
    assert_eq!(result.truncated, None);

    let result = view.query(14..100);
    assert_eq!(
        result.fields.iter().map(|field| field.value()).collect::<Vec<_>>(),
        vec![Err(Error::TruncatedData { offset: 14, missing: 2 })]
    );
    assert_eq!(result.truncated, Some(Error::TruncatedData { offset: 14, missing: 86 }));
    assert_eq!(
        view.required_length(),
        Err(Error::TruncatedData { offset: 14, missing: 2 })
    );
    assert_eq!(view.described_end(), 14);
}

#[test]
fn a_format_of_packed_primitives_needs_the_sum_of_their_lengths() {
    let data = numbers(3);
    let mut format = Format::new();
    format.add_child(0, u32_type()).unwrap();
    format.add_child(4, u32_type()).unwrap();
    format.add_child(8, u32_type()).unwrap();
    let view = View::new(&data, format);
    assert_eq!(view.required_length(), Ok(4 + 4 + 4));

    let mut format = Format::new();
    format.add_child(8, u32_type()).unwrap();
    format.add_child(0, u32_type()).unwrap();
    format.add_child(4, u32_type()).unwrap();
    let view = View::new(&data, format);
    assert_eq!(view.required_length(), Ok(4 + 4 + 4));

    let empty: Format<U32> = Format::new();
    let view = View::new(&data, empty);
    assert_eq!(view.required_length(), Ok(0));
}

#[test]
fn a_format_with_a_gap_needs_more_than_the_sum_of_its_lengths() {
    let data = numbers(3);
    let mut format = Format::new();
    format.add_child(4, u32_type()).unwrap();
    let view = View::new(&data, format);
    assert_eq!(view.required_length(), Ok(8));
}

#[test]
fn a_query_changes_nothing() {
    let data = numbers(2);
    let mut format = Format::new();
    format.add_child(0, u32_type()).unwrap();
    format.add_child(4, u32_type()).unwrap();
    let mut view = View::new(&data, format);

    let first = view.query(0..8);
    let second = view.query(0..8);
    assert_eq!(first.fields.len(), second.fields.len());
    assert_eq!(first.fields[1].value(), second.fields[1].value());
    assert_eq!(first.truncated, second.truncated);
    assert_eq!(data, numbers(2));
}

#[test]
fn the_children_of_a_union_are_all_decoded() {
    let data = &[1, 0, 0, 0, 2, 0, 0, 0];
    let mut format = Format::new_union();
    format.add_child(0, u32_type()).unwrap();
    format.add_child(0, u32_type()).unwrap();
    format.add_child(2, u32_type()).unwrap();
    let mut view = View::new(data, format);

    let result = view.query(0..4);
    let values: Vec<_> = result.fields.iter().map(|field| field.value()).collect();
    assert_eq!(values, vec![Ok(1), Ok(1), Ok(0x0002_0000)]);
    assert_eq!(view.required_length(), Ok(6));
}

fn words(numbers: &[u32]) -> Vec<u8> {
    let mut data = Vec::new();
    for number in numbers {
        data.extend_from_slice(&number.to_le_bytes());
    }
    data
}

fn counted_numbers() -> Type<U32> {
    Type::Dynamic(DynamicSizeType::Slice(DynamicSizeSlice::new(U32 {}, Type::Fixed(u32_type()))))
}

#[test]
fn the_fields_of_a_dynamic_struct_follow_one_another() {
    let mut record = DynamicSizeStruct::new();
    record.add_field("items", counted_numbers());
    record.add_field("checksum", Type::Fixed(u32_type()));
    let data = words(&[2, 10, 11, 99]);
    let mut format = Format::new();
    format.add_dynamic_child(0, DynamicSizeType::Struct(record)).unwrap();
    let mut view = View::new(&data, format);

    let result = view.query(0..16);
    let values: Vec<_> = result.fields.iter().map(|field| field.value()).collect();
    assert_eq!(values, vec![Ok(2), Ok(10), Ok(11), Ok(99)]);
    let starts: Vec<_> = result.fields.iter().map(|field| field.start()).collect();
    assert_eq!(starts, vec![0, 4, 8, 12]);
    assert_eq!(steps(&result.fields[0]), vec![step("", 0), step("items", 0)]);
    assert_eq!(result.fields[0].name(), "items");
    assert_eq!(steps(&result.fields[2]), vec![step("", 0), step("items", 0), step("", 1)]);
    assert_eq!(steps(&result.fields[3]), vec![step("", 0), step("checksum", 0)]);
    assert_eq!(result.fields[3].name(), "checksum");
    assert_eq!(result.truncated, None);
    assert_eq!(view.required_length(), Ok(16));

    let result = view.query(12..16);
    assert_eq!(result.fields.len(), 1);
    assert_eq!(result.fields[0].value(), Ok(99));
    assert_eq!(result.fields[0].start(), 12);

    let result = view.query(5..6);
    assert_eq!(result.fields.len(), 1);
    assert_eq!(result.fields[0].value(), Ok(10));
}

#[test]
fn a_dynamic_struct_whose_data_ends_early_keeps_what_was_decoded() {
    let mut record = DynamicSizeStruct::new();
    record.add_field("items", counted_numbers());
    record.add_field("checksum", Type::Fixed(u32_type()));
    let mut data = words(&[2, 10]);
    data.extend_from_slice(&[11, 0]);
    let mut format = Format::new();
    format.add_dynamic_child(0, DynamicSizeType::Struct(record)).unwrap();
    let mut view = View::new(&data, format);

    let result = view.query(0..100);
    let values: Vec<_> = result.fields.iter().map(|field| field.value()).collect();
    assert_eq!(
        values,
        vec![
            Ok(2),
            Ok(10),
            Err(Error::TruncatedData { offset: 10, missing: 2 }),
            Err(Error::TruncatedData { offset: 10, missing: 6 }),
        ]
    );
    assert_eq!(steps(&result.fields[3]), vec![step("", 0), step("checksum", 0)]);
    assert_eq!(result.truncated, None);
    assert_eq!(view.required_length(), Ok(16));
    assert_eq!(view.described_end(), 10);
}

#[test]
fn a_slice_of_dynamic_structs_is_walked_one_element_after_the_other() {
    let mut entry = DynamicSizeStruct::new();
    entry.add_field("tag", Type::Fixed(u32_type()));
    entry.add_field("values", counted_numbers());
    let entries = DynamicSizeSlice::new(U32 {}, Type::Dynamic(DynamicSizeType::Struct(entry)));
    let data = words(&[2, 7, 1, 100, 8, 0]);
    let mut format = Format::new();
    format.add_dynamic_child(0, DynamicSizeType::Slice(entries)).unwrap();
    let mut view = View::new(&data, format);

    let result = view.query(0..24);
    let values: Vec<_> = result.fields.iter().map(|field| field.value()).collect();
    assert_eq!(values, vec![Ok(2), Ok(7), Ok(1), Ok(100), Ok(8), Ok(0)]);
    let starts: Vec<_> = result.fields.iter().map(|field| field.start()).collect();
    assert_eq!(starts, vec![0, 4, 8, 12, 16, 20]);
    assert_eq!(steps(&result.fields[1]), vec![step("", 0), step("", 0), step("tag", 0)]);
    assert_eq!(steps(&result.fields[2]), vec![step("", 0), step("", 0), step("values", 0)]);
    assert_eq!(
        steps(&result.fields[3]),
        vec![step("", 0), step("", 0), step("values", 0), step("", 0)]
    );
    assert_eq!(steps(&result.fields[4]), vec![step("", 0), step("", 1), step("tag", 0)]);
    assert_eq!(steps(&result.fields[5]), vec![step("", 0), step("", 1), step("values", 0)]);
    assert_eq!(view.required_length(), Ok(24));

    let result = view.query(16..20);
    assert_eq!(result.fields.len(), 1);
    assert_eq!(result.fields[0].value(), Ok(8));
    assert_eq!(result.fields[0].name(), "tag");
}
