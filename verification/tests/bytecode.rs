use shocovox_rs::bytecode::{decode_value, encode_value, BencodeValue, BytecodeError};
use shocovox_rs::object_pool::empty_marker;
use shocovox_rs::types::{Albedo, BrickData, NodeChildren, NodeChildrenArray, NodeContent};

#[test]
fn test_node_brickdata_serialization() {
    let brick_data_empty = BrickData::<Albedo>::Empty;
    let brick_data_solid = BrickData::<Albedo>::Solid(Albedo::default().with_red(50));
    let brick_data_parted = BrickData::Parted(vec![Albedo::default(); 4 * 4 * 4]);

    let brick_data_empty_deserialized =
        BrickData::<Albedo>::from_bencode(&brick_data_empty.to_bencode().ok().unwrap())
            .ok()
            .unwrap();
    let brick_data_solid_deserialized =
        BrickData::<Albedo>::from_bencode(&brick_data_solid.to_bencode().ok().unwrap())
            .ok()
            .unwrap();
    let brick_data_parted_deserialized =
        BrickData::<Albedo>::from_bencode(&brick_data_parted.to_bencode().ok().unwrap())
            .ok()
            .unwrap();

    assert!(brick_data_empty_deserialized == brick_data_empty);
    assert!(brick_data_solid_deserialized == brick_data_solid);
    assert!(brick_data_parted_deserialized == brick_data_parted);
}

#[test]
fn test_nodecontent_serialization() {
    let node_content_nothing = NodeContent::<Albedo>::Nothing;
    let node_content_internal = NodeContent::<Albedo>::Internal(0xAB);
    let node_content_leaf = NodeContent::<Albedo>::Leaf([
        BrickData::<Albedo>::Empty,
        BrickData::<Albedo>::Solid(Albedo::default().with_blue(3)),
        BrickData::<Albedo>::Parted(vec![Albedo::default(); 2 * 2 * 2]),
        BrickData::<Albedo>::Empty,
        BrickData::<Albedo>::Empty,
        BrickData::<Albedo>::Empty,
        BrickData::<Albedo>::Empty,
        BrickData::<Albedo>::Empty,
    ]);
    let node_content_uniform_leaf = NodeContent::<Albedo>::UniformLeaf(BrickData::<Albedo>::Solid(
        Albedo::default().with_blue(3),
    ));

    let node_content_nothing_deserialized =
        NodeContent::<Albedo>::from_bencode(&node_content_nothing.to_bencode().ok().unwrap())
            .ok()
            .unwrap();
    let node_content_internal_deserialized =
        NodeContent::<Albedo>::from_bencode(&node_content_internal.to_bencode().ok().unwrap())
            .ok()
            .unwrap();
    let node_content_leaf_deserialized =
        NodeContent::<Albedo>::from_bencode(&node_content_leaf.to_bencode().ok().unwrap())
            .ok()
            .unwrap();
    let node_content_uniform_leaf_deserialized =
        NodeContent::<Albedo>::from_bencode(&node_content_uniform_leaf.to_bencode().ok().unwrap())
            .ok()
            .unwrap();

    assert_eq!(
        node_content_nothing_deserialized, node_content_nothing,
        "Expected {:?} == {:?}",
        node_content_nothing_deserialized, node_content_nothing
    );
    assert_eq!(
        node_content_leaf_deserialized, node_content_leaf,
        "Expected {:?} == {:?}",
        node_content_leaf_deserialized, node_content_leaf
    );
    assert_eq!(
        node_content_uniform_leaf_deserialized, node_content_uniform_leaf,
        "Expected {:?} == {:?}",
        node_content_uniform_leaf_deserialized, node_content_uniform_leaf
    );

    // Node content internal has a special equality implementation, where there is no equality between internal nodes
    match (node_content_internal_deserialized, node_content_internal) {
        (NodeContent::Internal(bits1), NodeContent::Internal(bits2)) => {
            assert_eq!(bits1, bits2);
        }
        _ => {
            assert!(
                false,
                "Deserialized and Original NodeContent enums should match!"
            )
        }
    }
}

#[test]
fn test_node_children_serialization() {
    let node_children_empty = NodeChildren::new(empty_marker());
    let node_children_filled = NodeChildren {
        empty_marker: empty_marker(),
        content: NodeChildrenArray::Children([1, 2, 3, 4, 5, 6, 7, 8]),
    };
    let node_children_bitmap = NodeChildren {
        empty_marker: empty_marker(),
        content: NodeChildrenArray::OccupancyBitmap(666),
    };

    let serialized_node_children_empty = node_children_empty.to_bencode();
    let serialized_node_children_filled = node_children_filled.to_bencode();
    let serialized_node_children_bitmap = node_children_bitmap.to_bencode();

    let deserialized_node_children_empty =
        NodeChildren::from_bencode(&serialized_node_children_empty.ok().unwrap())
            .ok()
            .unwrap();
    let deserialized_node_children_filled =
        NodeChildren::from_bencode(&serialized_node_children_filled.ok().unwrap())
            .ok()
            .unwrap();
    let deserialized_node_children_bitmap =
        NodeChildren::from_bencode(&serialized_node_children_bitmap.ok().unwrap())
            .ok()
            .unwrap();

    assert!(deserialized_node_children_empty == node_children_empty);
    assert!(deserialized_node_children_filled == node_children_filled);
    assert!(deserialized_node_children_bitmap == node_children_bitmap);
}

#[test]
fn bencoding_of_bricks_is_exact() {
    assert_eq!(BrickData::<Albedo>::Empty.to_bencode().ok().unwrap(), b"2:#b".to_vec());
    let solid = BrickData::<Albedo>::Solid(Albedo { r: 1, g: 20, b: 255, a: 0 });
    assert_eq!(
        solid.to_bencode().ok().unwrap(),
        b"l3:##bi1ei20ei255ei0ei0ee".to_vec()
    );
}

#[test]
fn bencoding_of_node_content_is_exact() {
    assert_eq!(NodeContent::<Albedo>::Nothing.to_bencode().ok().unwrap(), b"1:#".to_vec());
    assert_eq!(
        NodeContent::<Albedo>::Internal(171).to_bencode().ok().unwrap(),
        b"l2:##i171ee".to_vec()
    );
}

#[test]
fn bencoding_of_children_is_exact() {
    let bitmaps = NodeChildren {
        empty_marker: empty_marker(),
        content: NodeChildrenArray::OccupancyBitmaps([0, 1, 2, 3, 4, 5, 6, u64::MAX]),
    };
    let bytes = bitmaps.to_bencode().ok().unwrap();
    assert_eq!(
        bytes,
        b"l6:##bs##i0ei1ei2ei3ei4ei5ei6ei18446744073709551615ee".to_vec()
    );
    assert!(NodeChildren::from_bencode(&bytes).ok().unwrap() == bitmaps);
}

#[test]
fn generic_values_round_trip() {
    let value = BencodeValue::List(vec![
        BencodeValue::Int(0),
        BencodeValue::Bytes(vec![]),
        BencodeValue::List(vec![BencodeValue::Int(12345678901234)]),
    ]);
    let bytes = encode_value(&value).ok().unwrap();
    assert_eq!(bytes, b"li0e0:li12345678901234eee".to_vec());
    assert!(decode_value(&bytes).ok().unwrap() == value);
}

#[test]
fn malformed_or_foreign_bytes_are_refused() {
    assert_eq!(
        BrickData::<Albedo>::from_bencode(b"i5e").err(),
        Some(BytecodeError::UnexpectedContent)
    );
    assert_eq!(
        BrickData::<Albedo>::from_bencode(b"l3:##bi300ei0ei0ei0ei0ee").err(),
        Some(BytecodeError::UnexpectedContent)
    );
    assert_eq!(
        NodeContent::<Albedo>::from_bencode(b"l5:hello").err(),
        Some(BytecodeError::Decoding)
    );
    assert_eq!(decode_value(b"").err(), Some(BytecodeError::Decoding));
    assert_eq!(decode_value(b"i-3e").err(), Some(BytecodeError::UnexpectedContent));
    assert_eq!(
        NodeChildren::from_bencode(b"l5:##c##i1ei2ee").err(),
        Some(BytecodeError::UnexpectedContent)
    );
}
