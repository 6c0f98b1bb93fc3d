use message_board::Message;
use message_board::MessageError;
use message_board::MessageStore;
use message_board::Principal;

fn principal(bytes: &[u8]) -> Principal {
    Principal::from_bytes(bytes.to_vec())
}

fn assert_messages_equal(a: &Message, b: &Message) {
    assert_eq!(a.id, b.id);
    assert!(a.author == b.author);
    assert_eq!(a.content, b.content);
    assert_eq!(a.created_at, b.created_at);
    assert_eq!(a.updated_at, b.updated_at);
    assert_eq!(a.likes, b.likes);
    assert_eq!(a.replies, b.replies);
    assert_eq!(a.parent_id, b.parent_id);
}

#[test]
fn create_rejects_empty_content() {
    let mut store = MessageStore::new();
    let alice = principal(b"alice");
    let r = store.create_message(String::new(), None, alice.clone(), 10);
    assert_eq!(r.err(), Some(MessageError::EmptyContent));
    assert_eq!(store.next_message_id(), 1);
    assert_eq!(store.author_message_count(&alice), 0);
}

#[test]
fn create_rejects_whitespace_only_content() {
    let mut store = MessageStore::new();
    let alice = principal(b"alice");
    for blank in ["   ", "\t\n\r ", "\u{00A0}\u{2003}", "\u{3000}"] {
        let r = store.create_message(blank.to_string(), None, alice.clone(), 10);
        assert_eq!(r.err(), Some(MessageError::EmptyContent));
    }
    assert_eq!(store.next_message_id(), 1);
    assert!(store.get_messages_by_author(alice).is_empty());
}

#[test]
fn update_rejects_blank_content_and_changes_nothing() {
    let mut store = MessageStore::new();
    let alice = principal(b"alice");
    let id = store
        .create_message("hello".to_string(), None, alice.clone(), 10)
        .unwrap()
        .id;
    for blank in ["", "  \t "] {
        let r = store.update_message(id, blank.to_string(), &alice, 20);
        assert_eq!(r.err(), Some(MessageError::EmptyContent));
    }
    let m = store.get_message(id).unwrap();
    assert_eq!(m.content, "hello");
    assert_eq!(m.updated_at, None);
}

#[test]
fn create_rejects_missing_parent_without_advancing_counter() {
    let mut store = MessageStore::new();
    let alice = principal(b"alice");
    let r = store.create_message("hi".to_string(), Some(42), alice.clone(), 10);
    assert_eq!(r.err(), Some(MessageError::InvalidParent));
    assert_eq!(store.next_message_id(), 1);
    let ok = store.create_message("hi".to_string(), None, alice, 11).unwrap();
    assert_eq!(ok.id, 1);
}

#[test]
fn created_message_round_trips_through_get() {
    let mut store = MessageStore::new();
    let alice = principal(b"alice");
    let created = store
        .create_message("hello".to_string(), None, alice.clone(), 123)
        .unwrap();
    assert_eq!(created.id, 1);
    assert!(created.author == alice);
    assert_eq!(created.content, "hello");
    assert_eq!(created.created_at, 123);
    assert_eq!(created.updated_at, None);
    assert_eq!(created.likes, 0);
    assert!(created.replies.is_empty());
    assert_eq!(created.parent_id, None);
    let fetched = store.get_message(1).unwrap();
    assert_messages_equal(&created, &fetched);
}

#[test]
fn reply_is_linked_into_parent_reply_list() {
    let mut store = MessageStore::new();
    let alice = principal(b"alice");
    store
        .create_message("parent".to_string(), None, alice.clone(), 1)
        .unwrap();
    let child = store
        .create_message("c1".to_string(), Some(1), alice.clone(), 2)
        .unwrap();
    assert_eq!(child.parent_id, Some(1));
    let parent = store.get_message(1).unwrap();
    assert_eq!(parent.replies, vec![child.id]);
    let second = store
        .create_message("c2".to_string(), Some(1), alice, 3)
        .unwrap();
    let parent = store.get_message(1).unwrap();
    assert_eq!(parent.replies, vec![child.id, second.id]);
}

#[test]
fn get_unknown_id_is_not_found() {
    let store = MessageStore::new();
    assert_eq!(store.get_message(7).err(), Some(MessageError::NotFound));
}

#[test]
fn update_replaces_content_and_sets_edit_time_only() {
    let mut store = MessageStore::new();
    let alice = principal(b"alice");
    store
        .create_message("first".to_string(), None, alice.clone(), 5)
        .unwrap();
    let updated = store
        .update_message(1, "second".to_string(), &alice, 9)
        .unwrap();
    assert_eq!(updated.content, "second");
    assert_eq!(updated.updated_at, Some(9));
    assert_eq!(updated.created_at, 5);
    assert_eq!(updated.likes, 0);
    assert_eq!(updated.parent_id, None);
    let fetched = store.get_message(1).unwrap();
    assert_messages_equal(&updated, &fetched);
}

#[test]
fn update_of_missing_message_reports_not_found_even_to_non_owner() {
    let mut store = MessageStore::new();
    let mallory = principal(b"mallory");
    let r = store.update_message(3, "new".to_string(), &mallory, 1);
    assert_eq!(r.err(), Some(MessageError::NotFound));
}

#[test]
fn only_the_author_may_update() {
    let mut store = MessageStore::new();
    let alice = principal(b"alice");
    let mallory = principal(b"mallory");
    store
        .create_message("mine".to_string(), None, alice.clone(), 1)
        .unwrap();
    let r = store.update_message(1, "taken over".to_string(), &mallory, 2);
    assert_eq!(r.err(), Some(MessageError::Unauthorized));
    let m = store.get_message(1).unwrap();
    assert_eq!(m.content, "mine");
    assert_eq!(m.updated_at, None);
}

#[test]
fn only_the_author_may_delete() {
    let mut store = MessageStore::new();
    let alice = principal(b"alice");
    let mallory = principal(b"mallory");
    store
        .create_message("mine".to_string(), None, alice.clone(), 1)
        .unwrap();
    let r = store.delete_message(1, &mallory);
    assert_eq!(r.err(), Some(MessageError::Unauthorized));
    assert!(store.get_message(1).is_ok());
    assert!(!store.is_message_deleted(1));
    assert_eq!(store.author_message_count(&alice), 1);
}

#[test]
fn delete_removes_message_and_records_the_id() {
    let mut store = MessageStore::new();
    let alice = principal(b"alice");
    store
        .create_message("parent".to_string(), None, alice.clone(), 1)
        .unwrap();
    let child = store
        .create_message("child".to_string(), Some(1), alice.clone(), 2)
        .unwrap();
    assert_eq!(store.author_message_count(&alice), 2);

    store.delete_message(child.id, &alice).unwrap();

    assert_eq!(store.get_message(child.id).err(), Some(MessageError::NotFound));
    assert!(store.is_message_deleted(child.id));
    let parent = store.get_message(1).unwrap();
    assert!(parent.replies.is_empty());
    assert_eq!(store.author_message_count(&alice), 1);
}

#[test]
fn second_delete_of_same_id_is_not_found() {
    let mut store = MessageStore::new();
    let alice = principal(b"alice");
    store
        .create_message("gone soon".to_string(), None, alice.clone(), 1)
        .unwrap();
    store.delete_message(1, &alice).unwrap();
    assert_eq!(store.author_message_count(&alice), 0);
    // The record was physically removed, so the existence check fires first
    // and a repeated delete reports NotFound; the count stays at zero.
    let r = store.delete_message(1, &alice);
    assert_eq!(r.err(), Some(MessageError::NotFound));
    assert_eq!(store.author_message_count(&alice), 0);
    assert!(store.is_message_deleted(1));
}

#[test]
fn deleting_a_parent_leaves_children_dangling() {
    let mut store = MessageStore::new();
    let alice = principal(b"alice");
    store
        .create_message("parent".to_string(), None, alice.clone(), 1)
        .unwrap();
    let child = store
        .create_message("child".to_string(), Some(1), alice.clone(), 2)
        .unwrap();
    store.delete_message(1, &alice).unwrap();
    // The child keeps pointing at the removed identifier.
    let orphan = store.get_message(child.id).unwrap();
    assert_eq!(orphan.parent_id, Some(1));
    // A removed identifier is no valid parent for new messages.
    let r = store.create_message("late reply".to_string(), Some(1), alice.clone(), 3);
    assert_eq!(r.err(), Some(MessageError::InvalidParent));
    // Deleting the dangling child still works and skips the absent parent.
    store.delete_message(child.id, &alice).unwrap();
    assert!(store.is_message_deleted(child.id));
}

#[test]
fn author_listing_is_exact_and_ascending() {
    let mut store = MessageStore::new();
    let alice = principal(b"alice");
    let bob = principal(b"bob");
    store
        .create_message("a1".to_string(), None, alice.clone(), 1)
        .unwrap();
    store.create_message("b1".to_string(), None, bob.clone(), 2).unwrap();
    store
        .create_message("a2".to_string(), None, alice.clone(), 3)
        .unwrap();
    store
        .create_message("a3".to_string(), None, alice.clone(), 4)
        .unwrap();
    store.delete_message(3, &alice).unwrap();

    let listed = store.get_messages_by_author(alice.clone());
    let ids: Vec<u64> = listed.iter().map(|m| m.id).collect();
    assert_eq!(ids, vec![1, 4]);
    for m in &listed {
        assert!(m.author == alice);
    }

    let bobs = store.get_messages_by_author(bob);
    assert_eq!(bobs.len(), 1);
    assert_eq!(bobs[0].id, 2);
    assert_eq!(bobs[0].content, "b1");

    let nobody = store.get_messages_by_author(principal(b"nobody"));
    assert!(nobody.is_empty());
}

#[test]
fn identifiers_rise_across_failures_and_deletions() {
    let mut store = MessageStore::new();
    let alice = principal(b"alice");
    let first = store
        .create_message("one".to_string(), None, alice.clone(), 1)
        .unwrap();
    assert_eq!(first.id, 1);
    // Failed creations issue nothing.
    assert!(store.create_message("  ".to_string(), None, alice.clone(), 2).is_err());
    assert!(store.create_message("x".to_string(), Some(99), alice.clone(), 3).is_err());
    let second = store
        .create_message("two".to_string(), None, alice.clone(), 4)
        .unwrap();
    assert_eq!(second.id, 2);
    // A deleted identifier is never reissued.
    store.delete_message(2, &alice).unwrap();
    let third = store
        .create_message("three".to_string(), None, alice.clone(), 5)
        .unwrap();
    assert_eq!(third.id, 3);
    assert_eq!(store.next_message_id(), 4);
}

#[test]
fn is_deleted_is_false_for_live_and_unknown_ids() {
    let mut store = MessageStore::new();
    let alice = principal(b"alice");
    store
        .create_message("live".to_string(), None, alice.clone(), 1)
        .unwrap();
    assert!(!store.is_message_deleted(1));
    assert!(!store.is_message_deleted(999));
}

#[test]
fn counts_track_authors_separately() {
    let mut store = MessageStore::new();
    let alice = principal(b"alice");
    let bob = principal(b"bob");
    store
        .create_message("a".to_string(), None, alice.clone(), 1)
        .unwrap();
    store.create_message("b".to_string(), None, bob.clone(), 2).unwrap();
    store
        .create_message("c".to_string(), None, alice.clone(), 3)
        .unwrap();
    assert_eq!(store.author_message_count(&alice), 2);
    assert_eq!(store.author_message_count(&bob), 1);
    store.delete_message(1, &alice).unwrap();
    assert_eq!(store.author_message_count(&alice), 1);
    assert_eq!(store.author_message_count(&bob), 1);
}
