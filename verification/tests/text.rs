//! Text CRDT behaviour: local editing, concurrent editing, convergence.

use synckit_core::crdt::Text;

#[test]
fn test_basic_insert() {
    let mut text = Text::new(1);

    text.insert(0, "Hello");
    assert_eq!(text.to_string(), "Hello");
    assert_eq!(text.len(), 5);
}

#[test]
fn test_insert_at_position() {
    let mut text = Text::new(1);

    text.insert(0, "Hello");
    text.insert(5, " World");

    assert_eq!(text.to_string(), "Hello World");
    assert_eq!(text.len(), 11);
}

#[test]
fn test_insert_in_middle() {
    let mut text = Text::new(1);

    text.insert(0, "Helo");
    text.insert(2, "l");

    assert_eq!(text.to_string(), "Hello");
}

#[test]
fn test_basic_delete() {
    let mut text = Text::new(1);

    text.insert(0, "Hello World");
    text.delete(5, 6);

    assert_eq!(text.to_string(), "Hello");
    assert_eq!(text.len(), 5);
}

#[test]
fn test_delete_in_middle() {
    let mut text = Text::new(1);

    text.insert(0, "Hello");
    text.delete(1, 3);

    assert_eq!(text.to_string(), "Ho");
}

#[test]
fn test_sequential_typing() {
    let mut text = Text::new(1);

    text.insert(0, "H");
    text.insert(1, "e");
    text.insert(2, "l");
    text.insert(3, "l");
    text.insert(4, "o");

    assert_eq!(text.to_string(), "Hello");
    assert_eq!(text.len(), 5);
}

#[test]
fn test_concurrent_insert_same_position() {
    let mut text1 = Text::new(1);
    let mut text2 = Text::new(2);

    text1.insert(0, "A");
    text2.insert(0, "B");

    text1.merge(&text2);
    text2.merge(&text1);

    assert_eq!(text1.to_string(), text2.to_string());

    let result = text1.to_string();
    assert!(result == "AB" || result == "BA");
}

#[test]
fn test_concurrent_insert_different_positions() {
    let mut text1 = Text::new(1);
    let mut text2 = Text::new(2);

    text1.insert(0, "Hello");
    text2.merge(&text1);

    text1.insert(0, "A");
    text2.insert(5, "B");

    text1.merge(&text2);
    text2.merge(&text1);

    assert_eq!(text1.to_string(), text2.to_string());
    assert_eq!(text1.to_string(), "AHelloB");
}

#[test]
fn test_concurrent_delete() {
    let mut text1 = Text::new(1);
    let mut text2 = Text::new(2);

    text1.insert(0, "Hello World");
    text2.merge(&text1);

    text1.delete(0, 5);
    text2.delete(6, 5);

    text1.merge(&text2);
    text2.merge(&text1);

    assert_eq!(text1.to_string(), text2.to_string());
    assert_eq!(text1.to_string(), " ");
}

#[test]
fn test_merge_convergence() {
    let mut text1 = Text::new(1);
    let mut text2 = Text::new(2);
    let mut text3 = Text::new(3);

    text1.insert(0, "abc");
    text2.merge(&text1);
    text3.merge(&text1);

    text1.insert(1, "X");
    text2.insert(2, "Y");
    text3.delete(0, 1);

    text1.merge(&text2);
    text1.merge(&text3);

    text2.merge(&text1);
    text2.merge(&text3);

    text3.merge(&text1);
    text3.merge(&text2);

    assert_eq!(text1.to_string(), text2.to_string());
    assert_eq!(text2.to_string(), text3.to_string());
}

#[test]
fn test_empty_text() {
    let text = Text::new(1);

    assert_eq!(text.to_string(), "");
    assert_eq!(text.len(), 0);
    assert!(text.is_empty());
}

#[test]
fn test_delete_everything() {
    let mut text = Text::new(1);

    text.insert(0, "Hello");
    text.delete(0, 5);

    assert_eq!(text.to_string(), "");
    assert!(text.is_empty());
}

#[test]
fn test_clone_via_merge_then_edit() {
    let mut text1 = Text::new(1);
    text1.insert(0, "Hello");

    let mut text2 = Text::new(2);
    text2.merge(&text1);

    text1.insert(0, "A");
    text2.insert(5, "B");

    text1.merge(&text2);
    text2.merge(&text1);

    assert_eq!(text1.to_string(), "AHelloB");
    assert_eq!(text2.to_string(), "AHelloB");
}

#[test]
fn test_insert_returns_item_ids() {
    let mut text = Text::new(9);
    let ids = text.insert(0, "ab");
    assert_eq!(ids.len(), 2);
    assert_eq!(ids[0].client, 9);
    assert_eq!(ids[0].clock, 0);
    assert_eq!(ids[1].clock, 1);
    assert_eq!(text.clock(), 2);
    assert_eq!(text.client_id(), 9);
}

#[test]
fn test_merge_idempotent_render() {
    let mut text1 = Text::new(1);
    text1.insert(0, "same");
    let mut copy = Text::new(2);
    copy.merge(&text1);
    copy.merge(&text1);
    assert_eq!(copy.to_string(), "same");
}

#[test]
fn test_concurrent_head_inserts_order_by_replica() {
    // Concurrent head insertions resolve by replica order: the lower
    // replica's character comes first on both sides.
    let mut text1 = Text::new(1);
    let mut text2 = Text::new(2);

    text1.insert(0, "A");
    text2.insert(0, "B");

    text1.merge(&text2);
    text2.merge(&text1);

    assert_eq!(text1.to_string(), "AB");
    assert_eq!(text2.to_string(), "AB");
}

#[test]
fn test_merge_blocks_compacts_invisibly() {
    let mut text = Text::new(1);
    text.insert(0, "H");
    text.insert(1, "e");
    text.insert(2, "llo");
    text.merge_blocks();
    assert_eq!(text.to_string(), "Hello");
    assert_eq!(text.len(), 5);
}
