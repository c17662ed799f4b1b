use shocovox_rs::bytecode::BytecodeError;
use shocovox_rs::object_pool::{empty_marker, key_might_be_valid, key_none_value, ObjectPool};
use shocovox_rs::types::{Albedo, BrickData, NodeContent};

#[test]
fn test_push_pop_modify() {
    let mut pool = ObjectPool::<f32>::with_capacity(3);
    let test_value = 5.;
    let key = pool.push(test_value);
    assert!(*pool.get(key) == test_value);

    *pool.get_mut(key) = 10.;
    assert!(*pool.get(key) == 10.);

    assert!(pool.pop(key).unwrap() == 10.);
    assert!(pool.pop(key).is_none());
}

#[test]
fn test_push_deallocate() {
    let mut pool = ObjectPool::<f32>::with_capacity(3);
    let test_value = 5.;
    let key = pool.push(test_value);
    assert!(*pool.get(key) == test_value);

    pool.free(key);
    assert!(pool.pop(key).is_none());
}

#[test]
fn reused_key_holds_latest_value() {
    let mut pool = ObjectPool::<f32>::with_capacity(3);
    let test_value = 5.;
    let key_1 = pool.push(test_value);
    pool.push(test_value * 2.);
    pool.pop(key_1);
    pool.push(test_value * 3.);
    assert!(*pool.get(key_1) == test_value * 3.);
    assert_eq!(pool.len(), 2);
}

#[test]
fn test_special_key_values() {
    assert!(empty_marker() == 4294967295u32);
}

#[test]
fn missing_key_marker_is_never_valid() {
    assert_eq!(key_none_value(), usize::MAX);
    assert!(!key_might_be_valid(key_none_value()));
    assert!(key_might_be_valid(0));
}

#[test]
fn allocate_then_set_and_free() {
    let mut pool = ObjectPool::<u32>::with_capacity(2);
    let key = pool.allocate();
    assert!(pool.key_is_valid(key));
    assert_eq!(*pool.get(key), 0);
    pool.set(key, 42);
    assert_eq!(*pool.get(key), 42);
    assert!(pool.free(key));
    assert!(!pool.key_is_valid(key));
    assert!(!pool.free(key));
    let again = pool.allocate();
    assert_eq!(again, key);
    assert_eq!(pool.len(), 1);
}

fn content_bytes(content: &NodeContent<Albedo>) -> Vec<u8> {
    content.to_bencode().unwrap()
}

#[test]
fn pool_bencode_layout() {
    let mut pool = ObjectPool::<NodeContent<Albedo>>::with_capacity(2);
    let key = pool.push(NodeContent::Internal(7));
    assert_eq!(key, 0);
    let mut expected = b"li0elli1e".to_vec();
    expected.extend(content_bytes(&NodeContent::Internal(7)));
    expected.extend(b"eee");
    assert_eq!(pool.to_bencode().unwrap(), expected);
}

#[test]
fn pool_bencode_roundtrip() {
    let mut pool = ObjectPool::<NodeContent<Albedo>>::with_capacity(4);
    let first = pool.push(NodeContent::Nothing);
    let second = pool.push(NodeContent::Internal(0x0F0F));
    let third = pool.push(NodeContent::UniformLeaf(BrickData::Solid(Albedo {
        r: 10,
        g: 20,
        b: 30,
        a: 255,
    })));
    pool.pop(first);
    let bytes = pool.to_bencode().unwrap();
    let mut read = ObjectPool::<NodeContent<Albedo>>::from_bencode(&bytes).unwrap();
    assert_eq!(read.len(), 3);
    assert!(!read.key_is_valid(first));
    assert_eq!(*read.get(second), NodeContent::Internal(0x0F0F));
    assert_eq!(*read.get(third), *pool.get(third));
    // the freed slot is handed out again, as it would have been by the written pool
    assert_eq!(read.push(NodeContent::Nothing), first);
    assert_eq!(read.to_bencode().unwrap().len() > 0, true);
}

#[test]
fn pool_bencode_hint_beyond_slots() {
    let mut bytes = b"li9elli0e".to_vec();
    bytes.extend(content_bytes(&NodeContent::Nothing));
    bytes.extend(b"eee");
    let mut read = ObjectPool::<NodeContent<Albedo>>::from_bencode(&bytes).unwrap();
    assert_eq!(read.len(), 1);
    assert!(!read.key_is_valid(0));
    // with the hint past the last slot, the next allocation appends one
    assert_eq!(read.push(NodeContent::Internal(1)), 1);
}

#[test]
fn pool_bencode_rejects_bad_slots() {
    let mut bytes = b"li0elli2e".to_vec();
    bytes.extend(content_bytes(&NodeContent::Nothing));
    bytes.extend(b"eee");
    assert!(matches!(
        ObjectPool::<NodeContent<Albedo>>::from_bencode(&bytes),
        Err(BytecodeError::UnexpectedContent)
    ));
    assert!(matches!(
        ObjectPool::<NodeContent<Albedo>>::from_bencode(b"li0ee"),
        Err(BytecodeError::UnexpectedContent)
    ));
    assert!(matches!(
        ObjectPool::<NodeContent<Albedo>>::from_bencode(b"li0ei5ee"),
        Err(BytecodeError::UnexpectedContent)
    ));
    assert!(ObjectPool::<NodeContent<Albedo>>::from_bencode(b"l").is_err());
    let empty = ObjectPool::<NodeContent<Albedo>>::from_bencode(b"li0elee").unwrap();
    assert_eq!(empty.len(), 0);
}

#[test]
fn allocated_slot_item() {
    let mut pool = ObjectPool::<u32>::with_capacity(2);
    let first = pool.push(5);
    let second = pool.push(6);
    // a freed slot keeps its item and hands it out again
    assert!(pool.free(first));
    assert_eq!(pool.allocate(), first);
    assert_eq!(*pool.get(first), 5);
    // a popped slot gives its item away and holds the default
    assert_eq!(pool.pop(second), Some(6));
    assert_eq!(pool.allocate(), second);
    assert_eq!(*pool.get(second), 0);
    // a fresh slot holds the default
    let third = pool.allocate();
    assert_eq!(third, 2);
    assert_eq!(*pool.get(third), 0);
}
