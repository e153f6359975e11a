use chat_core::client::{GenEvent, ReplyDecoder};
use chat_core::hub::{Delivery, Hub};
use chat_core::orchestrate::render_live_event;
use chat_core::speaker::Who;
use chat_core::store::{Store, StoreError};

#[test]
fn sending_hello_persists_the_streamed_reply() {
    let mut s = Store::new();
    let names = vec!["m1".to_string()];
    s.refresh_models(&names);
    let c = s.create_conversation().unwrap();

    let start = s.begin_generation(c, "Hello".to_string()).unwrap();
    assert_eq!(start.model_name, "m1");
    assert_eq!(start.prompt, "Me: Hello\n");
    assert_eq!(start.history_len, 1);
    assert!(start.user_message_id < start.placeholder_id);

    // The user message is durable, followed by the empty placeholder.
    let msgs = s.messages_of(c);
    assert_eq!(msgs.len(), 2);
    assert!(matches!(msgs[0].who, Who::Me));
    assert_eq!(msgs[0].body, "Hello");
    assert_eq!(msgs[0].id, start.user_message_id);
    assert!(matches!(msgs[1].who, Who::Llama));
    assert_eq!(msgs[1].body, "");
    assert_eq!(msgs[1].id, start.placeholder_id);

    // The generator streams two fragments and completes.
    let mut decoder = ReplyDecoder::new();
    let events = decoder.feed(
        b"{\"response\":\"Hi\",\"done\":false}\n{\"response\":\" there\",\"done\":false}\n{\"response\":\"\",\"done\":true}\n",
    );
    s.apply_generation_events(start.placeholder_id, &events);

    let final_msgs = s.messages_of(c);
    assert_eq!(final_msgs.len(), 2);
    assert_eq!(final_msgs[1].body, "Hi there");
    assert_eq!(final_msgs[0].body, "Hello");
}

#[test]
fn the_reply_still_follows_the_prompt_of_a_longer_history() {
    let mut s = Store::new();
    let names = vec!["m1".to_string()];
    s.refresh_models(&names);
    let c = s.create_conversation().unwrap();
    s.insert_message(c, Who::Me, "question".to_string()).unwrap();
    let reply = s.insert_message(c, Who::Llama, "answer".to_string()).unwrap();
    s.append_to_message(reply, " extended");

    let start = s.begin_generation(c, "follow-up".to_string()).unwrap();
    assert_eq!(
        start.prompt,
        "Me: question\nLlaMA: answer extended\nMe: follow-up\n"
    );
    assert_eq!(start.history_len, 3);
}

#[test]
fn a_stream_cut_off_without_done_keeps_the_partial_reply() {
    let mut s = Store::new();
    let names = vec!["m1".to_string()];
    s.refresh_models(&names);
    let c = s.create_conversation().unwrap();
    let start = s.begin_generation(c, "Hello".to_string()).unwrap();

    let mut decoder = ReplyDecoder::new();
    let events = decoder.feed(b"{\"response\":\"par\",\"done\":false}\n{\"response\":\"tial\",\"done\":false}\n");
    s.apply_generation_events(start.placeholder_id, &events);

    // No completion ever arrived; whatever was appended stays.
    assert_eq!(s.messages_of(c)[1].body, "partial");
}

#[test]
fn begin_generation_needs_the_conversation() {
    let mut s = Store::new();
    let names = vec!["m1".to_string()];
    s.refresh_models(&names);
    assert!(matches!(
        s.begin_generation(3, "hi".to_string()),
        Err(StoreError::ConversationNotFound)
    ));
}

#[test]
fn forking_at_the_third_of_five_copies_the_prefix() {
    let mut s = Store::new();
    let names = vec!["m1".to_string()];
    s.refresh_models(&names);
    let c = s.create_conversation().unwrap();
    let bodies = ["one", "two", "three", "four", "five"];
    let speakers = [Who::Me, Who::Llama, Who::Me, Who::Llama, Who::Me];
    for (b, w) in bodies.iter().zip(speakers.iter()) {
        s.insert_message(c, *w, b.to_string()).unwrap();
        s.advance_clock();
    }
    let third = s.messages_of(c)[2].id;

    let forked = s.fork(c, third).unwrap();

    let copied = s.messages_of(forked);
    assert_eq!(copied.len(), 3);
    for (i, m) in copied.iter().enumerate() {
        assert_eq!(m.body, bodies[i]);
        assert_eq!(m.who.tag(), speakers[i].tag());
        assert_eq!(m.conversation_id, forked);
    }
    // Fresh identities, not the source's.
    let source_ids: Vec<u64> = s.messages_of(c).iter().map(|m| m.id).collect();
    assert!(copied.iter().all(|m| !source_ids.contains(&m.id)));
    // The source still holds all five messages, unchanged.
    let src = s.messages_of(c);
    assert_eq!(src.len(), 5);
    for (i, m) in src.iter().enumerate() {
        assert_eq!(m.body, bodies[i]);
    }
    // Lineage is recorded.
    let detail = s.conversation_detail(forked).unwrap();
    assert_eq!(detail.conversation.source_conversation_id, Some(c));
}

#[test]
fn a_fork_cut_between_equal_timestamps_respects_identity_order() {
    let mut s = Store::new();
    let names = vec!["m1".to_string()];
    s.refresh_models(&names);
    let c = s.create_conversation().unwrap();
    // All three rows share one instant; the identity is the tie-break.
    s.insert_message(c, Who::Me, "a".to_string()).unwrap();
    let mid = s.insert_message(c, Who::Me, "b".to_string()).unwrap();
    s.insert_message(c, Who::Me, "c".to_string()).unwrap();

    let forked = s.fork(c, mid).unwrap();
    let copied = s.messages_of(forked);
    assert_eq!(copied.len(), 2);
    assert_eq!(copied[0].body, "a");
    assert_eq!(copied[1].body, "b");
}

#[test]
fn live_viewers_see_only_events_after_they_subscribe() {
    let mut hub = Hub::new();
    hub.publish(GenEvent::More { text: "before".to_string() });

    let mut sub = hub.subscribe();
    assert!(matches!(hub.poll(&mut sub), Delivery::Empty));

    hub.publish(GenEvent::More { text: "after".to_string() });
    hub.publish(GenEvent::Done);

    match hub.poll(&mut sub) {
        Delivery::Event(GenEvent::More { text }) => assert_eq!(text, "after"),
        _ => panic!("expected the first event after attachment"),
    }
    assert!(matches!(hub.poll(&mut sub), Delivery::Event(GenEvent::Done)));
    assert!(matches!(hub.poll(&mut sub), Delivery::Empty));
}

#[test]
fn a_slow_viewer_lags_and_resumes_at_the_oldest_retained_event() {
    let mut hub = Hub::new();
    let mut sub = hub.subscribe();
    for i in 0..15 {
        hub.publish(GenEvent::More { text: format!("{}", i) });
    }
    // Fifteen unread events exceed the backlog of ten: the viewer is told it
    // lagged and resumes at event five.
    assert!(matches!(hub.poll(&mut sub), Delivery::Lagged));
    match hub.poll(&mut sub) {
        Delivery::Event(GenEvent::More { text }) => assert_eq!(text, "5"),
        _ => panic!("expected the oldest retained event"),
    }
    let mut seen = 1;
    loop {
        match hub.poll(&mut sub) {
            Delivery::Event(_) => seen += 1,
            Delivery::Empty => break,
            Delivery::Lagged => panic!("caught up already"),
        }
    }
    assert_eq!(seen, 10);
}

#[test]
fn live_frames_carry_the_typing_indicator() {
    let more = GenEvent::More { text: "Hi".to_string() };
    let frame = render_live_event(&more);
    assert_eq!(frame.event, "ChatData");
    assert_eq!(frame.data, "Hi\u{2588}");

    let done_frame = render_live_event(&GenEvent::Done);
    assert_eq!(done_frame.event, "ChatDone");
    assert_eq!(done_frame.data, "");
}
