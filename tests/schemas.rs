use mcproto::block_state_registry::BlockStateRegistry;
use mcproto::error::ProtocolError;
use mcproto::ids::{Block, BlockWithState};
use mcproto::schema::{
    derive_block_schema, enum_value_index, has_competing_definition, int_value_index, int_width,
    schema_radices, DerivedField, FieldDescriptor, FieldType, FieldValues, IntWidth,
};

fn labels(v: &[&str]) -> Vec<String> {
    v.iter().map(|s| s.to_string()).collect()
}

fn field(name: &str, values: FieldValues) -> FieldDescriptor {
    FieldDescriptor { name: name.to_string(), values }
}

#[test]
fn integer_widths() {
    assert_eq!(int_width(&vec![0, 15]), IntWidth::U8);
    assert_eq!(int_width(&vec![]), IntWidth::U8);
    assert_eq!(int_width(&vec![-1, 5]), IntWidth::I8);
    assert_eq!(int_width(&vec![0, 300]), IntWidth::U16);
    assert_eq!(int_width(&vec![-200, 3]), IntWidth::I16);
    assert_eq!(int_width(&vec![70000]), IntWidth::U32);
    assert_eq!(int_width(&vec![-70000]), IntWidth::I32);
    assert_eq!(int_width(&vec![5_000_000_000]), IntWidth::U64);
    assert_eq!(int_width(&vec![-5_000_000_000]), IntWidth::I64);
    assert_eq!(int_width(&vec![i128::MAX]), IntWidth::I128);
}

fn catalog() -> Vec<Vec<FieldDescriptor>> {
    vec![
        vec![
            field("waterlogged", FieldValues::Bool),
            field("type", FieldValues::Enum(labels(&["top", "bottom", "double"]))),
        ],
        vec![
            field("facing", FieldValues::Enum(labels(&["north", "south", "west", "east"]))),
            field("age", FieldValues::Int(vec![0, 1, 2, 3, 4, 5, 6, 7])),
        ],
        vec![
            field("type", FieldValues::Enum(labels(&["normal", "sticky"]))),
            field("facing", FieldValues::Enum(labels(&["north", "south", "west", "east"]))),
        ],
    ]
}

#[test]
fn competing_definitions_get_block_qualified_types() {
    let c = catalog();
    assert!(has_competing_definition(&c, &"type".to_string(), &labels(&["top", "bottom", "double"])));
    assert!(!has_competing_definition(&c, &"facing".to_string(), &labels(&["north", "south", "west", "east"])));
    assert!(!has_competing_definition(&c, &"shape".to_string(), &labels(&["x"])));
    let schema = derive_block_schema(&c, 2).unwrap();
    assert_eq!(
        schema,
        vec![
            DerivedField { ty: FieldType::BlockQualifiedEnum, radix: 2 },
            DerivedField { ty: FieldType::SharedEnum, radix: 4 },
        ]
    );
    let schema = derive_block_schema(&c, 1).unwrap();
    assert_eq!(schema[1], DerivedField { ty: FieldType::Int(IntWidth::U8), radix: 8 });
    assert_eq!(schema_radices(&schema), vec![4, 8]);
    assert_eq!(derive_block_schema(&c, 3), Err(ProtocolError::StateIdOutOfRange));
    let bad = vec![vec![field("empty", FieldValues::Enum(vec![]))]];
    assert_eq!(derive_block_schema(&bad, 0), Err(ProtocolError::InvalidFieldValue));
}

#[test]
fn derived_schema_feeds_the_registry() {
    let c = catalog();
    let mut r = BlockStateRegistry::new();
    let mut start = 0;
    for b in 0..c.len() {
        let radices = schema_radices(&derive_block_schema(&c, b).unwrap());
        r.add(Block::from_id(b as u32), radices, BlockWithState::from_id(start)).unwrap();
        let (lo, hi) = r.block_to_block_states(Block::from_id(b as u32)).unwrap();
        start = hi + 1;
        assert!(lo < start);
    }
    assert_eq!(r.total_states(), 6 + 32 + 8);
}

#[test]
fn value_lookups() {
    let l = labels(&["north", "south", "west", "east"]);
    assert_eq!(enum_value_index(&l, &"west".to_string()), Some(2));
    assert_eq!(enum_value_index(&l, &"up".to_string()), None);
    assert_eq!(int_value_index(&vec![1, 2, 3, 4], 3), Some(2));
    assert_eq!(int_value_index(&vec![1, 2, 3, 4], 5), None);
    assert_eq!(int_value_index(&vec![1, 2, 3, 4], 0), None);
    assert_eq!(int_value_index(&vec![0, 5, 10], 10), Some(2));
    assert_eq!(int_value_index(&vec![0, 5, 10], 7), None);
    assert_eq!(int_value_index(&vec![], 0), None);
}
