use chat_core::client::{event_for_line, GenEvent, LineDecoder, ReplyDecoder};

fn texts_of(events: &[GenEvent]) -> Vec<Option<String>> {
    events
        .iter()
        .map(|e| match e {
            GenEvent::More { text } => Some(text.clone()),
            GenEvent::Done => None,
        })
        .collect()
}

#[test]
fn a_line_parses_to_its_fragment() {
    let e = event_for_line(b"{\"response\":\"A\",\"done\":false}").expect("parses");
    match e {
        GenEvent::More { text } => assert_eq!(text, "A"),
        GenEvent::Done => panic!("not a completion record"),
    }
}

#[test]
fn a_completion_record_parses_to_done() {
    let e = event_for_line(b"{\"response\":\"\",\"done\":true}").expect("parses");
    assert!(matches!(e, GenEvent::Done));
}

#[test]
fn records_keep_extra_fields_and_escapes() {
    let e = event_for_line(
        b"{\"model\":\"m\",\"created_at\":\"now\",\"response\":\"a\\nb\",\"done\":false}",
    )
    .expect("parses");
    match e {
        GenEvent::More { text } => assert_eq!(text, "a\nb"),
        GenEvent::Done => panic!("not a completion record"),
    }
}

#[test]
fn lines_that_do_not_parse_are_skipped() {
    assert!(event_for_line(b"not json at all").is_none());
    assert!(event_for_line(b"{\"response\":5,\"done\":false}").is_none());
    assert!(event_for_line(b"{\"response\":\"x\"}").is_none());
    assert!(event_for_line(b"{\"done\":false}").is_none());
    assert!(event_for_line(b"").is_none());
}

#[test]
fn the_line_decoder_waits_for_the_separator() {
    let mut d = LineDecoder::new();
    assert!(d.feed(b"{\"respon").is_empty());
    assert!(d.feed(b"se\":\"x\",\"done\":false}").is_empty());
    let lines = d.feed(b"\n");
    assert_eq!(lines.len(), 1);
    assert_eq!(lines[0], b"{\"response\":\"x\",\"done\":false}");
}

#[test]
fn the_line_decoder_splits_a_chunk_with_many_lines() {
    let mut d = LineDecoder::new();
    let lines = d.feed(b"one\ntwo\nthree");
    assert_eq!(lines.len(), 2);
    assert_eq!(lines[0], b"one");
    assert_eq!(lines[1], b"two");
    let lines = d.feed(b"\n");
    assert_eq!(lines.len(), 1);
    assert_eq!(lines[0], b"three");
}

#[test]
fn chunking_does_not_change_the_decoded_events() {
    let stream: &[u8] = b"{\"response\":\"Hi\",\"done\":false}\n{\"response\":\" there\",\"done\":false}\n{\"response\":\"\",\"done\":true}\n";
    // One whole chunk.
    let mut whole = ReplyDecoder::new();
    let all = whole.feed(stream);
    // Byte-by-byte.
    let mut dribble = ReplyDecoder::new();
    let mut dribbled: Vec<GenEvent> = Vec::new();
    for b in stream {
        dribbled.extend(dribble.feed(&[*b]));
    }
    // Split mid-line.
    let mut split = ReplyDecoder::new();
    let mut parts: Vec<GenEvent> = Vec::new();
    parts.extend(split.feed(&stream[..17]));
    parts.extend(split.feed(&stream[17..48]));
    parts.extend(split.feed(&stream[48..]));

    assert_eq!(texts_of(&all), texts_of(&dribbled));
    assert_eq!(texts_of(&all), texts_of(&parts));
    assert_eq!(
        texts_of(&all),
        vec![
            Some("Hi".to_string()),
            Some(" there".to_string()),
            None
        ]
    );
}

#[test]
fn a_malformed_line_does_not_abort_the_stream() {
    let mut d = ReplyDecoder::new();
    let events = d.feed(b"garbage\n{\"response\":\"ok\",\"done\":false}\n");
    assert_eq!(texts_of(&events), vec![Some("ok".to_string())]);
}

#[test]
fn nothing_follows_the_terminal_done() {
    let mut d = ReplyDecoder::new();
    let events = d.feed(
        b"{\"response\":\"a\",\"done\":false}\n{\"response\":\"\",\"done\":true}\n{\"response\":\"late\",\"done\":false}\n",
    );
    assert_eq!(texts_of(&events), vec![Some("a".to_string()), None]);
    // Even a later chunk yields nothing once the generation finished.
    let more = d.feed(b"{\"response\":\"later\",\"done\":false}\n");
    assert!(more.is_empty());
}
