use hexite::{
    Context, DynamicSizeSlice, DynamicSizeStruct, DynamicSizeType, Error, FixedSize,
    FixedSizePrimitive, FixedSizeSlice, FixedSizeStruct, FixedSizeType, Format, Type, U32,
};

fn u32_type() -> FixedSizeType<U32> {
    FixedSizeType::Primitive(Box::new(U32 {}))
}

#[test]
fn test_parsing_stuff() {
    let data = &[1, 0, 0, 0];

    let ty = U32 {};
    let value = ty.decode(data);
    println!("{} (0..{}) = {}", ty.name(), ty.length(Context::detached()), value);
    assert_eq!(ty.name(), "u32");
    assert_eq!(ty.length(Context::detached()), 4);
    assert_eq!(value, 1);
}

#[test]
fn a_u32_is_little_endian() {
    let ty = U32 {};
    assert_eq!(ty.decode(&[0, 0, 0, 0]), 0);
    assert_eq!(ty.decode(&[0, 1, 0, 0]), 256);
    assert_eq!(ty.decode(&[0x78, 0x56, 0x34, 0x12]), 0x1234_5678);
    assert_eq!(ty.decode(&[0, 0, 0, 1]), 16_777_216);
    assert_eq!(ty.decode(&[255, 255, 255, 255]), 4_294_967_295);
}

#[test]
fn a_fixed_size_does_not_depend_on_the_context() {
    let data = [9u8; 32];
    let ty = u32_type();
    assert_eq!(ty.length(Context::detached()), 4);
    assert_eq!(ty.length(Context::new(&data, 0)), 4);
    assert_eq!(ty.length(Context::new(&data, 30)), 4);
    assert_eq!(Type::Fixed(u32_type()).size(Context::new(&data, 1_000)), Ok(4));
}

#[test]
fn a_context_holds_data_and_offset() {
    let data = [1u8, 2, 3];
    let ctx = Context::new(&data, 2);
    assert_eq!(ctx.data(), &[1, 2, 3]);
    assert_eq!(ctx.offset(), 2);
    let nothing = Context::detached();
    assert!(nothing.data().is_empty());
    assert_eq!(nothing.offset(), 0);
}

#[test]
fn a_struct_is_as_long_as_its_furthest_field_ends() {
    let mut record = FixedSizeStruct::new();
    assert_eq!(record.length(Context::detached()), 0);
    assert_eq!(record.field_count(), 0);
    record.add_field("late", 12, u32_type()).unwrap();
    assert_eq!(record.length(Context::detached()), 16);
    record.add_field("early", 0, u32_type()).unwrap();
    assert_eq!(record.length(Context::detached()), 16);
    record.add_field("last", 20, u32_type()).unwrap();
    assert_eq!(record.length(Context::detached()), 24);
    assert_eq!(record.field_count(), 3);
    assert_eq!(record.field(0).name, "late");
    assert_eq!(record.field(0).offset, 12);
    assert_eq!(record.field(2).name, "last");
    assert_eq!(FixedSizeType::Struct(record).length(Context::detached()), 24);
}

#[test]
fn a_field_that_ends_too_far_is_refused() {
    let mut record = FixedSizeStruct::new();
    assert_eq!(
        record.add_field("far", usize::MAX - 2, u32_type()),
        Err(Error::InvalidConfiguration)
    );
    assert_eq!(record.field_count(), 0);
    assert_eq!(record.add_field("edge", usize::MAX - 4, u32_type()), Ok(()));
    assert_eq!(record.length(Context::detached()), usize::MAX);
}

#[test]
fn a_slice_is_as_long_as_its_elements_together() {
    let slice = FixedSizeSlice::new(u32_type(), 10).unwrap();
    assert_eq!(slice.length(Context::detached()), 40);
    assert_eq!(slice.element_count(), 10);
    assert_eq!(slice.element_type().length(Context::detached()), 4);
    let nested = FixedSizeSlice::new(FixedSizeType::Slice(slice), 3).unwrap();
    assert_eq!(nested.length(Context::detached()), 120);
    let none = FixedSizeSlice::new(u32_type(), 0).unwrap();
    assert_eq!(none.length(Context::detached()), 0);
}

#[test]
fn a_slice_that_is_too_long_is_refused() {
    assert_eq!(
        FixedSizeSlice::new(u32_type(), usize::MAX).err(),
        Some(Error::InvalidConfiguration)
    );
    assert_eq!(
        FixedSizeSlice::new(u32_type(), usize::MAX / 4 + 1).err(),
        Some(Error::InvalidConfiguration)
    );
    assert!(FixedSizeSlice::new(u32_type(), usize::MAX / 4).is_ok());
}

#[test]
fn a_dynamic_slice_is_as_long_as_its_count_says() {
    let data = [0u8, 0, 3, 0, 0, 0, 1, 1, 1, 1];
    let slice = DynamicSizeSlice::new(U32 {}, Type::Fixed(u32_type()));
    assert_eq!(slice.size(Context::new(&data, 2)), Ok(16));
    assert_eq!(slice.count_primitive().length(Context::detached()), 4);
    let none = [0u8; 4];
    assert_eq!(slice.size(Context::new(&none, 0)), Ok(4));
    assert_eq!(Type::Dynamic(DynamicSizeType::Slice(slice)).size(Context::new(&data, 2)), Ok(16));
}

#[test]
fn a_slice_of_dynamic_slices_is_measured_one_element_after_the_other() {
    let mut data = Vec::new();
    for number in [2u32, 1, 7, 2, 8, 9] {
        data.extend_from_slice(&number.to_le_bytes());
    }
    let inner = DynamicSizeSlice::new(U32 {}, Type::Fixed(u32_type()));
    let outer = DynamicSizeSlice::new(U32 {}, Type::Dynamic(DynamicSizeType::Slice(inner)));
    assert_eq!(outer.size(Context::new(&data, 0)), Ok(24));
    assert_eq!(outer.element_type().size(Context::new(&data, 4)), Ok(8));
    assert_eq!(outer.element_type().size(Context::new(&data, 12)), Ok(12));
}

#[test]
fn a_count_that_the_data_does_not_hold_is_truncated() {
    let data = [1u8, 0];
    let slice = DynamicSizeSlice::new(U32 {}, Type::Fixed(u32_type()));
    assert_eq!(
        slice.size(Context::new(&data, 0)),
        Err(Error::TruncatedData { offset: 2, missing: 2 })
    );
    assert_eq!(
        slice.size(Context::new(&data, 10)),
        Err(Error::TruncatedData { offset: 2, missing: 12 })
    );
    assert_eq!(
        slice.size(Context::detached()),
        Err(Error::TruncatedData { offset: 0, missing: 4 })
    );
}

#[test]
fn an_inner_count_that_the_data_does_not_hold_is_truncated() {
    let mut data = Vec::new();
    for number in [2u32, 1, 7] {
        data.extend_from_slice(&number.to_le_bytes());
    }
    data.push(5);
    let inner = DynamicSizeSlice::new(U32 {}, Type::Fixed(u32_type()));
    let outer = DynamicSizeSlice::new(U32 {}, Type::Dynamic(DynamicSizeType::Slice(inner)));
    assert_eq!(
        outer.size(Context::new(&data, 0)),
        Err(Error::TruncatedData { offset: 13, missing: 3 })
    );
}

#[test]
fn a_count_that_implies_an_impossible_size_is_malformed() {
    let data = [4u8, 0, 0, 0, 9, 9];
    let huge = FixedSizeSlice::new(u32_type(), usize::MAX / 8).unwrap();
    let slice = DynamicSizeSlice::new(U32 {}, Type::Fixed(FixedSizeType::Slice(huge)));
    assert_eq!(
        slice.size(Context::new(&data, 0)),
        Err(Error::MalformedDynamicSize { offset: 0 })
    );
    let one = [0u8, 1, 0, 0, 0];
    assert_eq!(slice.size(Context::new(&one, 1)), Ok(4 + (usize::MAX / 8) * 4));
}

#[test]
fn a_count_that_would_end_beyond_the_address_space_is_malformed() {
    let data = [4u8, 0, 0, 0];
    let slice = DynamicSizeSlice::new(U32 {}, Type::Fixed(u32_type()));
    assert_eq!(
        slice.size(Context::new(&data, usize::MAX - 1)),
        Err(Error::MalformedDynamicSize { offset: usize::MAX - 1 })
    );
}

#[test]
fn children_that_overlap_are_refused() {
    let mut format = Format::new();
    assert_eq!(format.add_child(0, u32_type()), Ok(()));
    assert_eq!(
        format.add_child(2, u32_type()),
        Err(Error::LayoutConflict { first: 0, second: 1 })
    );
    assert_eq!(format.len(), 1);
    assert_eq!(format.add_child(4, u32_type()), Ok(()));
    assert_eq!(
        format.add_child(3, u32_type()),
        Err(Error::LayoutConflict { first: 0, second: 2 })
    );
    assert_eq!(
        format.add_child(5, u32_type()),
        Err(Error::LayoutConflict { first: 1, second: 2 })
    );
    assert_eq!(format.len(), 2);
    assert_eq!(format.child(1).offset, 4);
}

#[test]
fn children_may_come_in_any_order() {
    let mut format = Format::new();
    assert_eq!(format.add_child(8, u32_type()), Ok(()));
    assert_eq!(format.add_child(0, u32_type()), Ok(()));
    assert_eq!(format.add_child(4, u32_type()), Ok(()));
    assert_eq!(format.len(), 3);
    assert_eq!(format.child(0).offset, 8);
    assert_eq!(format.child(1).offset, 0);
    assert_eq!(format.child(2).offset, 4);
}

#[test]
fn empty_children_overlap_nothing() {
    let mut format = Format::new();
    assert_eq!(format.add_child(0, u32_type()), Ok(()));
    let nothing = FixedSizeSlice::new(u32_type(), 0).unwrap();
    assert_eq!(format.add_child(2, FixedSizeType::Slice(nothing)), Ok(()));
    assert_eq!(format.add_child(2, FixedSizeType::Struct(FixedSizeStruct::new())), Ok(()));
    assert_eq!(format.len(), 3);
}

#[test]
fn the_children_of_a_union_may_overlap() {
    let mut format = Format::new_union();
    assert_eq!(format.add_child(0, u32_type()), Ok(()));
    assert_eq!(format.add_child(0, u32_type()), Ok(()));
    assert_eq!(format.add_child(2, u32_type()), Ok(()));
    assert_eq!(format.len(), 3);
}

#[test]
fn a_child_that_ends_too_far_is_refused() {
    let mut format = Format::new();
    assert_eq!(format.add_child(usize::MAX - 3, u32_type()), Err(Error::InvalidConfiguration));
    assert_eq!(format.add_child(usize::MAX - 4, u32_type()), Ok(()));
    let slice = DynamicSizeSlice::new(U32 {}, Type::Fixed(u32_type()));
    assert_eq!(
        format.add_dynamic_child(usize::MAX - 3, DynamicSizeType::Slice(slice)),
        Err(Error::InvalidConfiguration)
    );
    assert_eq!(format.len(), 1);
}

#[test]
fn a_dynamic_child_is_never_in_conflict() {
    let mut format = Format::new();
    assert_eq!(format.add_child(0, u32_type()), Ok(()));
    let slice = DynamicSizeSlice::new(U32 {}, Type::Fixed(u32_type()));
    assert_eq!(format.add_dynamic_child(2, DynamicSizeType::Slice(slice)), Ok(()));
    assert_eq!(format.add_child(4, u32_type()), Ok(()));
    assert_eq!(format.len(), 3);
}

#[test]
fn a_dynamic_struct_is_as_long_as_its_fields_together() {
    let mut record = DynamicSizeStruct::new();
    assert_eq!(record.size(Context::detached()), Ok(0));
    record.add_field("id", Type::Fixed(u32_type()));
    assert_eq!(record.size(Context::detached()), Ok(4));
    let items = DynamicSizeSlice::new(U32 {}, Type::Fixed(u32_type()));
    record.add_field("items", Type::Dynamic(DynamicSizeType::Slice(items)));
    record.add_field("checksum", Type::Fixed(u32_type()));
    assert_eq!(record.field_count(), 3);
    assert_eq!(record.field(1).name, "items");

    let mut data = vec![0xffu8; 3];
    for number in [1u32, 2, 10, 11, 99] {
        data.extend_from_slice(&number.to_le_bytes());
    }
    assert_eq!(record.size(Context::new(&data, 3)), Ok(20));
    assert_eq!(
        record.size(Context::new(&data[..9], 3)),
        Err(Error::TruncatedData { offset: 9, missing: 2 })
    );
    let record = DynamicSizeType::Struct(record);
    assert_eq!(record.size(Context::new(&data, 3)), Ok(20));
    assert_eq!(Type::Dynamic(record).size(Context::new(&data, 3)), Ok(20));
}

#[test]
fn a_dynamic_struct_that_would_end_beyond_the_address_space_is_malformed() {
    let mut record = DynamicSizeStruct::new();
    record.add_field("first", Type::Fixed(u32_type()));
    record.add_field("second", Type::Fixed(u32_type()));
    let data = [0u8; 8];
    assert_eq!(
        record.size(Context::new(&data, usize::MAX - 6)),
        Err(Error::MalformedDynamicSize { offset: usize::MAX - 6 })
    );
    assert_eq!(record.size(Context::new(&data, usize::MAX - 8)), Ok(8));
}
