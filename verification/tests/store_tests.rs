use chat_core::speaker::{parse_who, Who};
use chat_core::store::{Store, StoreError};

fn store_with_models(names: &[&str]) -> Store {
    let mut s = Store::new();
    let owned: Vec<String> = names.iter().map(|n| n.to_string()).collect();
    s.refresh_models(&owned);
    s
}

#[test]
fn create_conversation_requires_a_known_model() {
    let mut s = Store::new();
    assert!(matches!(s.create_conversation(), Err(StoreError::NoModels)));
    let names = vec!["m1".to_string()];
    s.refresh_models(&names);
    let id = s.create_conversation().expect("a model is known now");
    assert_eq!(id, 1);
    let detail = s.conversation_detail(id).expect("conversation exists");
    assert_eq!(detail.conversation.name, "a new conversation");
    assert_eq!(detail.model_name, "m1");
    assert!(detail.source_name.is_none());
    assert!(detail.conversation.source_conversation_id.is_none());
}

#[test]
fn messages_come_back_in_insertion_order() {
    let mut s = store_with_models(&["m1"]);
    let c = s.create_conversation().unwrap();
    let id1 = s.insert_message(c, Who::Me, "first".to_string()).unwrap();
    s.advance_clock();
    let id2 = s.insert_message(c, Who::Llama, "second".to_string()).unwrap();
    assert!(id1 < id2);
    let msgs = s.messages_of(c);
    assert_eq!(msgs.len(), 2);
    assert_eq!(msgs[0].body, "first");
    assert!(matches!(msgs[0].who, Who::Me));
    assert_eq!(msgs[1].body, "second");
    assert!(matches!(msgs[1].who, Who::Llama));
    assert!(msgs[0].inserted_at < msgs[1].inserted_at);
}

#[test]
fn equal_timestamps_are_ordered_by_identity() {
    let mut s = store_with_models(&["m1"]);
    let c = s.create_conversation().unwrap();
    // No clock advance between the inserts: both rows share one instant.
    let id1 = s.insert_message(c, Who::Me, "a".to_string()).unwrap();
    let id2 = s.insert_message(c, Who::Me, "b".to_string()).unwrap();
    let msgs = s.messages_of(c);
    assert_eq!(msgs[0].inserted_at, msgs[1].inserted_at);
    assert_eq!(msgs[0].id, id1);
    assert_eq!(msgs[1].id, id2);
    // Reads are stable: a second read returns the same sequence.
    let again = s.messages_of(c);
    assert_eq!(again.len(), msgs.len());
    for (a, b) in msgs.iter().zip(again.iter()) {
        assert_eq!(a.id, b.id);
        assert_eq!(a.body, b.body);
        assert_eq!(a.inserted_at, b.inserted_at);
    }
}

#[test]
fn insert_into_unknown_conversation_is_refused() {
    let mut s = store_with_models(&["m1"]);
    assert!(matches!(
        s.insert_message(7, Who::Me, "x".to_string()),
        Err(StoreError::ConversationNotFound)
    ));
}

#[test]
fn append_extends_only_the_addressed_body() {
    let mut s = store_with_models(&["m1"]);
    let c = s.create_conversation().unwrap();
    let other = s.insert_message(c, Who::Me, "untouched".to_string()).unwrap();
    let reply = s.insert_message(c, Who::Llama, String::new()).unwrap();
    s.append_to_message(reply, "Hel");
    s.append_to_message(reply, "lo");
    assert_eq!(s.get_message(reply).unwrap().body, "Hello");
    assert_eq!(s.get_message(other).unwrap().body, "untouched");
}

#[test]
fn append_to_unknown_message_changes_nothing() {
    let mut s = store_with_models(&["m1"]);
    let c = s.create_conversation().unwrap();
    let m = s.insert_message(c, Who::Me, "hi".to_string()).unwrap();
    s.append_to_message(m + 40, "junk");
    assert_eq!(s.messages_of(c).len(), 1);
    assert_eq!(s.get_message(m).unwrap().body, "hi");
}

#[test]
fn rename_changes_the_display_name() {
    let mut s = store_with_models(&["m1"]);
    let c = s.create_conversation().unwrap();
    s.rename_conversation(c, "plans".to_string());
    assert_eq!(s.conversation_detail(c).unwrap().conversation.name, "plans");
    // Renaming an unknown conversation is a no-op.
    s.rename_conversation(c + 9, "ghost".to_string());
    assert_eq!(s.conversation_detail(c).unwrap().conversation.name, "plans");
}

#[test]
fn select_model_enforces_the_reference() {
    let mut s = store_with_models(&["m1", "m2"]);
    let c = s.create_conversation().unwrap();
    assert_eq!(s.conversation_detail(c).unwrap().model_name, "m1");
    assert!(matches!(s.select_model(c, 99), Err(StoreError::ModelNotFound)));
    let m2 = s.get_model(2).expect("second model exists").id;
    s.select_model(c, m2).unwrap();
    assert_eq!(s.conversation_detail(c).unwrap().model_name, "m2");
    // Selecting for an unknown conversation matches no row and succeeds.
    assert!(s.select_model(c + 5, m2).is_ok());
}

#[test]
fn refresh_models_caches_each_name_once() {
    let mut s = Store::new();
    let first = vec!["a".to_string(), "b".to_string(), "a".to_string()];
    s.refresh_models(&first);
    let second = vec!["b".to_string(), "c".to_string()];
    s.refresh_models(&second);
    assert_eq!(s.get_model(1).unwrap().name, "a");
    assert_eq!(s.get_model(2).unwrap().name, "b");
    assert_eq!(s.get_model(3).unwrap().name, "c");
    assert!(s.get_model(4).is_none());
    let all = s.models_list();
    let names_seen: Vec<&str> = all.iter().map(|m| m.name.as_str()).collect();
    assert_eq!(names_seen, vec!["a", "b", "c"]);
}

#[test]
fn deleting_a_conversation_cascades_to_its_messages_only() {
    let mut s = store_with_models(&["m1"]);
    let parent = s.create_conversation().unwrap();
    let other = s.create_conversation().unwrap();
    s.insert_message(parent, Who::Me, "p1".to_string()).unwrap();
    let cut = s.insert_message(parent, Who::Llama, "p2".to_string()).unwrap();
    s.insert_message(other, Who::Me, "o1".to_string()).unwrap();
    let child = s.fork(parent, cut).unwrap();
    assert_eq!(
        s.conversation_detail(child).unwrap().source_name.as_deref(),
        Some("a new conversation")
    );

    s.delete_conversation(parent);

    // The parent and its rows are gone.
    assert!(s.get_conversation(parent).is_none());
    assert!(s.messages_of(parent).is_empty());
    // Other conversations keep their messages.
    assert_eq!(s.messages_of(other).len(), 1);
    assert_eq!(s.messages_of(other)[0].body, "o1");
    // The fork child survives with its copied rows, but the lineage pointer
    // is cleared.
    let child_msgs = s.messages_of(child);
    assert_eq!(child_msgs.len(), 2);
    assert_eq!(child_msgs[0].body, "p1");
    assert_eq!(child_msgs[1].body, "p2");
    let detail = s.conversation_detail(child).unwrap();
    assert!(detail.conversation.source_conversation_id.is_none());
    assert!(detail.source_name.is_none());
}

#[test]
fn deleting_an_unknown_conversation_changes_nothing() {
    let mut s = store_with_models(&["m1"]);
    let c = s.create_conversation().unwrap();
    s.insert_message(c, Who::Me, "kept".to_string()).unwrap();
    s.delete_conversation(c + 100);
    assert_eq!(s.messages_of(c).len(), 1);
}

#[test]
fn overview_lists_conversations_with_messages_newest_first() {
    let mut s = store_with_models(&["m1"]);
    let early = s.create_conversation().unwrap();
    s.insert_message(early, Who::Me, "hello".to_string()).unwrap();
    s.advance_clock();
    let empty = s.create_conversation().unwrap();
    s.advance_clock();
    let late = s.create_conversation().unwrap();
    s.insert_message(late, Who::Me, "hi".to_string()).unwrap();
    s.advance_clock();
    let cut = s.messages_of(late)[0].id;
    let forked = s.fork(late, cut).unwrap();

    let rows = s.conversations_overview();
    // The message-less conversation does not appear; newest first.
    assert_eq!(rows.len(), 3);
    assert_eq!(rows[0].id, forked);
    assert_eq!(rows[1].id, late);
    assert_eq!(rows[2].id, early);
    assert!(rows.iter().all(|r| r.id != empty));
    // The fork row names its source; plain rows name none.
    assert_eq!(rows[0].source_conversation_id, Some(late));
    assert_eq!(rows[0].source_name.as_deref(), Some("a new conversation"));
    assert!(rows[1].source_name.is_none());
    // Each row carries its latest message's timestamp.
    let late_msgs = s.messages_of(late);
    assert_eq!(rows[1].last_message_at, late_msgs.last().unwrap().inserted_at);
}

#[test]
fn fork_preconditions_are_checked() {
    let mut s = store_with_models(&["m1"]);
    let c1 = s.create_conversation().unwrap();
    let c2 = s.create_conversation().unwrap();
    let m = s.insert_message(c1, Who::Me, "x".to_string()).unwrap();
    assert!(matches!(s.fork(c1, m + 50), Err(StoreError::MessageNotFound)));
    assert!(matches!(
        s.fork(c2, m),
        Err(StoreError::MessageNotInConversation)
    ));
    // Nothing was created by the refused forks.
    assert!(s.get_conversation(c2 + 1).is_none());
}

#[test]
fn speaker_tags_round_trip() {
    assert_eq!(Who::Me.tag(), "Me");
    assert_eq!(Who::Llama.tag(), "LlaMA");
    assert!(matches!(parse_who("Me"), Some(Who::Me)));
    assert!(matches!(parse_who("LlaMA"), Some(Who::Llama)));
    assert!(parse_who("llama").is_none());
    assert!(parse_who("").is_none());
}

#[test]
fn store_errors_describe_themselves() {
    assert_eq!(
        StoreError::ConversationNotFound.describe(),
        "no such conversation"
    );
    assert_eq!(StoreError::MessageNotFound.describe(), "no such message");
    assert_eq!(
        StoreError::MessageNotInConversation.describe(),
        "message belongs to another conversation"
    );
    assert_eq!(StoreError::ModelNotFound.describe(), "no such model");
    assert_eq!(StoreError::NoModels.describe(), "no model is known yet");
}
