//! The generation orchestrator: what happens between an accepted user
//! message and the completed reply.
//!
//! Accepting a user message is one store step: the message is persisted,
//! the full history — now including it — becomes the prompt, an empty
//! placeholder reply is created after it, and the conversation's selected
//! model is read. The user message is durable before the placeholder
//! exists, and the placeholder exists before any event can target it. The
//! persistence writer then drains the generation's events, appending each
//! fragment to the placeholder's body and stopping at the terminal `Done`;
//! a stream that ends without `Done` simply leaves the partial body in
//! place, which is exactly what draining fewer events yields.

use vstd::prelude::*;

use crate::client::{EventView, GenEvent};
use crate::prompt::{build_prompt, spec_prompt};
use crate::speaker::Who;
use crate::store::{
    lemma_filter_push, MessageView, Store, StoreError, StoreView,
};

verus! {

/// What accepting a user message hands back: enough to render the new rows
/// and to run the generation — the identities of the user message and of
/// the placeholder reply, the prompt of the history up to and including the
/// user message, the selected model's name, and how many messages the
/// history now holds.
pub struct GenerationStart {
    pub user_message_id: u64,
    pub placeholder_id: u64,
    pub prompt: String,
    pub model_name: String,
    pub history_len: usize,
}

/// `ms` with `text` appended to the body of the row carrying `id` — every
/// other row, and every other field, untouched.
pub open spec fn append_to_body(ms: Seq<MessageView>, id: u64, text: Seq<char>) -> Seq<
    MessageView,
> {
    ms.map_values(
        |m: MessageView|
            if m.id == id {
                MessageView { body: m.body + text, ..m }
            } else {
                m
            },
    )
}

/// The store after the persistence writer handles one event: a fragment is
/// appended to the placeholder's body, the completion signal changes
/// nothing.
pub open spec fn spec_apply_event(s: StoreView, placeholder_id: u64, e: EventView) -> StoreView {
    match e {
        EventView::More { text } => StoreView {
            messages: append_to_body(s.messages, placeholder_id, text),
            ..s
        },
        EventView::Done => s,
    }
}

/// The store after the persistence writer drains a run of events, stopping
/// at the first completion signal.
pub open spec fn spec_apply_events(s: StoreView, placeholder_id: u64, evs: Seq<EventView>) -> StoreView
    decreases evs.len(),
{
    if evs.len() == 0 {
        s
    } else {
        match evs[0] {
            EventView::Done => s,
            EventView::More { .. } => spec_apply_events(
                spec_apply_event(s, placeholder_id, evs[0]),
                placeholder_id,
                evs.drop_first(),
            ),
        }
    }
}

/// The concatenation of a run of text fragments, in order.
pub open spec fn concat_texts(ts: Seq<Seq<char>>) -> Seq<char>
    decreases ts.len(),
{
    if ts.len() == 0 {
        Seq::<char>::empty()
    } else {
        ts[0] + concat_texts(ts.drop_first())
    }
}

impl Store {
    /// Accept a user message: persist it, build the prompt from the full
    /// history including it, create the empty placeholder reply after it,
    /// and read the conversation's selected model. Refused — with the store
    /// unchanged — when the conversation does not exist.
    pub fn begin_generation(&mut self, conversation_id: u64, body: String) -> (r: Result<
        GenerationStart,
        StoreError,
    >)
        requires
            old(self)@.wf(),
            old(self)@.next_message_id + 2 <= u64::MAX,
        ensures
            final(self)@.wf(),
            !old(self)@.has_conversation(conversation_id) ==> r == Err::<
                GenerationStart,
                StoreError,
            >(StoreError::ConversationNotFound) && final(self)@ == old(self)@,
            old(self)@.has_conversation(conversation_id) ==> ({
                let user = MessageView {
                    id: old(self)@.next_message_id,
                    conversation_id,
                    who: Who::Me,
                    body: body@,
                    inserted_at: old(self)@.clock,
                };
                let placeholder = MessageView {
                    id: (old(self)@.next_message_id + 1) as u64,
                    conversation_id,
                    who: Who::Llama,
                    body: Seq::<char>::empty(),
                    inserted_at: old(self)@.clock,
                };
                &&& r matches Ok(g)
                    && g.user_message_id == user.id
                    && g.placeholder_id == placeholder.id
                    && g.user_message_id < g.placeholder_id
                    && g.history_len == old(self)@.conversation_seq(conversation_id).len() + 1
                    && g.prompt@ == spec_prompt(
                    old(self)@.conversation_seq(conversation_id).push(user),
                )
                    && g.model_name@ == old(self)@.model(
                    old(self)@.conversation(conversation_id).model_id,
                ).name
                &&& final(self)@ =~= (StoreView {
                    messages: old(self)@.messages.push(user).push(placeholder),
                    next_message_id: (old(self)@.next_message_id + 2) as u64,
                    ..old(self)@
                })
            }),
    {
        let ghost pre = self@;
        let user_message_id = match self.insert_message(conversation_id, Who::Me, body) {
            Err(e) => {
                return Err(e);
            },
            Ok(id) => id,
        };
        let ghost mid = self@;
        let ghost user = mid.messages.last();
        proof {
            // The conversation still exists after the first insert.
            let k = choose|k: int|
                0 <= k < pre.conversations.len() && (#[trigger] pre.conversations[k]).id
                    == conversation_id;
            assert(mid.conversations[k].id == conversation_id);
            // The history read back is the old history plus the user row.
            lemma_filter_push(
                pre.messages,
                |m: MessageView| m.conversation_id == conversation_id,
                user,
            );
            assert(pre.messages.push(user) =~= pre.messages + seq![user]);
            assert(mid.messages =~= pre.messages.push(user));
            assert(mid.conversation_seq(conversation_id) == pre.conversation_seq(conversation_id)
                + seq![user]);
            assert(pre.conversation_seq(conversation_id) + seq![user] =~= pre.conversation_seq(
                conversation_id,
            ).push(user));
        }
        let history = self.messages_of(conversation_id);
        let prompt = build_prompt(&history);
        let placeholder_id = match self.insert_message(
            conversation_id,
            Who::Llama,
            String::new(),
        ) {
            Err(e) => {
                return Err(e);
            },
            Ok(id) => id,
        };
        proof {
            // The conversation also survives the second insert.
            let k = choose|k: int|
                0 <= k < mid.conversations.len() && (#[trigger] mid.conversations[k]).id
                    == conversation_id;
            assert(self@.conversations[k].id == conversation_id);
        }
        let conv = match self.get_conversation(conversation_id) {
            None => {
                return Err(StoreError::ConversationNotFound);
            },
            Some(c) => c,
        };
        let model_id = conv.model_id;
        proof {
            // The conversation row, hence its model reference, is the one
            // the caller saw: only messages were appended since.
            let kc = choose|k: int|
                0 <= k < pre.conversations.len() && (#[trigger] pre.conversations[k]).id
                    == conversation_id;
            let kn = choose|k: int|
                0 <= k < self@.conversations.len() && (#[trigger] self@.conversations[k]).id
                    == conversation_id;
            assert(self@.conversations[kc].id == conversation_id);
            assert(pre.conversations[kn].id == conversation_id);
            assert(pre.conversation(conversation_id) == self@.conversation(conversation_id));
            assert(pre.has_model(pre.conversation(conversation_id).model_id));
            let km = choose|k: int|
                0 <= k < pre.models.len() && (#[trigger] pre.models[k]).id == model_id;
            assert(self@.models[km].id == model_id);
        }
        let model = match self.get_model(model_id) {
            None => {
                return Err(StoreError::ModelNotFound);
            },
            Some(m) => m,
        };
        let model_name = model.name.clone();
        proof {
            let km1 = choose|k: int|
                0 <= k < pre.models.len() && (#[trigger] pre.models[k]).id == model_id;
            let km2 = choose|k: int|
                0 <= k < self@.models.len() && (#[trigger] self@.models[k]).id == model_id;
            assert(self@.models[km1].id == model_id);
            assert(pre.models[km2].id == model_id);
            assert(pre.model(model_id) == self@.model(model_id));
        }
        Ok(
            GenerationStart {
                user_message_id,
                placeholder_id,
                prompt,
                model_name,
                history_len: history.len(),
            },
        )
    }

    /// Let the persistence writer handle one generation event: append a
    /// fragment to the placeholder's body, or — on the completion signal —
    /// change nothing and report that the writer is done.
    pub fn apply_generation_event(&mut self, placeholder_id: u64, e: &GenEvent) -> (done: bool)
        requires
            old(self)@.wf(),
        ensures
            final(self)@.wf(),
            done <==> e@ is Done,
            final(self)@ == spec_apply_event(old(self)@, placeholder_id, e@),
    {
        let ghost pre = self@;
        match e {
            GenEvent::Done => {
                proof {
                    assert(self@ == spec_apply_event(pre, placeholder_id, e@));
                }
                true
            },
            GenEvent::More { text } => {
                self.append_to_message(placeholder_id, text.as_str());
                proof {
                    let tv = text@;
                    if pre.has_message(placeholder_id) {
                        let i = choose|i: int|
                            0 <= i < pre.messages.len() && (#[trigger] pre.messages[i]).id
                                == placeholder_id;
                        assert forall|k: int| 0 <= k < pre.messages.len() implies #[trigger] append_to_body(
                            pre.messages,
                            placeholder_id,
                            tv,
                        )[k] == self@.messages[k] by {
                            if k != i {
                                assert(pre.messages[k].id != pre.messages[i].id);
                                assert(self@.messages[k] == pre.messages[k]);
                            } else {
                                assert(self@.messages[i] == (MessageView {
                                    body: pre.messages[i].body + tv,
                                    ..pre.messages[i]
                                }));
                            }
                        }
                        assert(append_to_body(pre.messages, placeholder_id, tv)
                            =~= self@.messages);
                        assert(self@ =~= spec_apply_event(pre, placeholder_id, e@));
                    } else {
                        assert forall|k: int| 0 <= k < pre.messages.len() implies #[trigger] append_to_body(
                            pre.messages,
                            placeholder_id,
                            tv,
                        )[k] == pre.messages[k] by {
                            assert(pre.messages[k].id != placeholder_id);
                        }
                        assert(append_to_body(pre.messages, placeholder_id, tv)
                            =~= pre.messages);
                        assert(self@ =~= spec_apply_event(pre, placeholder_id, e@));
                    }
                }
                false
            },
        }
    }

    /// Let the persistence writer drain a whole run of events, stopping at
    /// the first completion signal. A run that never reaches `Done` — a
    /// stream cut off by a failure — simply leaves the fragments persisted
    /// so far.
    pub fn apply_generation_events(&mut self, placeholder_id: u64, events: &Vec<GenEvent>)
        requires
            old(self)@.wf(),
        ensures
            final(self)@.wf(),
            final(self)@ == spec_apply_events(old(self)@, placeholder_id, events.deep_view()),
    {
        let ghost pre = self@;
        let ghost dv = events.deep_view();
        let ghost target = spec_apply_events(pre, placeholder_id, dv);
        proof {
            assert(dv.skip(0) =~= dv);
        }
        let mut done = false;
        let mut i: usize = 0;
        while i < events.len()
            invariant
                0 <= i <= dv.len(),
                dv == events.deep_view(),
                dv.len() == events@.len(),
                self@.wf(),
                done ==> self@ == target,
                !done ==> spec_apply_events(self@, placeholder_id, dv.skip(i as int)) == target,
            decreases dv.len() - i,
        {
            if !done {
                let ghost rest = dv.skip(i as int);
                proof {
                    assert(rest[0] == dv[i as int]);
                    assert(rest.drop_first() =~= dv.skip(i as int + 1));
                }
                let d = self.apply_generation_event(placeholder_id, &events[i]);
                if d {
                    done = true;
                }
            }
            i = i + 1;
        }
        proof {
            if !done {
                assert(dv.skip(dv.len() as int) =~= Seq::<EventView>::empty());
            }
        }
    }
}

/// Draining `More(t1) … More(tN)` and then `Done` into a placeholder reply
/// persists exactly the concatenation t1‖…‖tN, appended to the
/// placeholder's body; no other row and no other field changes. However the
/// transport chunked the stream, these are the events the decoder yields,
/// so the persisted reply is the whole generated text.
pub proof fn lemma_reply_assembly(s: StoreView, placeholder_id: u64, texts: Seq<Seq<char>>)
    ensures
        ({
            let evs = texts.map_values(|t: Seq<char>| EventView::More { text: t }).push(
                EventView::Done,
            );
            spec_apply_events(s, placeholder_id, evs) == (StoreView {
                messages: append_to_body(s.messages, placeholder_id, concat_texts(texts)),
                ..s
            })
        }),
    decreases texts.len(),
{
    let evs = texts.map_values(|t: Seq<char>| EventView::More { text: t }).push(EventView::Done);
    if texts.len() == 0 {
        assert(evs[0] == EventView::Done);
        assert(spec_apply_events(s, placeholder_id, evs) == s);
        assert forall|k: int| 0 <= k < s.messages.len() implies #[trigger] append_to_body(
            s.messages,
            placeholder_id,
            concat_texts(texts),
        )[k] == s.messages[k] by {
            assert(s.messages[k].body + Seq::<char>::empty() =~= s.messages[k].body);
            assert((MessageView { body: s.messages[k].body + Seq::<char>::empty(), ..s.messages[k] })
                =~= s.messages[k]);
        }
        assert(append_to_body(s.messages, placeholder_id, concat_texts(texts)) =~= s.messages);
        assert((StoreView {
            messages: append_to_body(s.messages, placeholder_id, concat_texts(texts)),
            ..s
        }) =~= s);
    } else {
        let t0 = texts[0];
        let rest = texts.drop_first();
        assert(evs[0] == EventView::More { text: t0 });
        let s1 = spec_apply_event(s, placeholder_id, evs[0]);
        assert(evs.drop_first() =~= rest.map_values(|t: Seq<char>| EventView::More { text: t }).push(
            EventView::Done,
        ));
        assert(spec_apply_events(s, placeholder_id, evs) == spec_apply_events(
            s1,
            placeholder_id,
            evs.drop_first(),
        ));
        lemma_reply_assembly(s1, placeholder_id, rest);
        // Appending t0 and then the rest's concatenation appends
        // t0 followed by that concatenation.
        assert forall|k: int| 0 <= k < s.messages.len() implies #[trigger] append_to_body(
            s1.messages,
            placeholder_id,
            concat_texts(rest),
        )[k] == append_to_body(s.messages, placeholder_id, concat_texts(texts))[k] by {
            let m = s.messages[k];
            if m.id == placeholder_id {
                assert(s1.messages[k] == (MessageView { body: m.body + t0, ..m }));
                assert((m.body + t0) + concat_texts(rest) =~= m.body + (t0 + concat_texts(rest)));
                assert(concat_texts(texts) == t0 + concat_texts(rest));
            } else {
                assert(s1.messages[k] == m);
            }
        }
        assert(append_to_body(s1.messages, placeholder_id, concat_texts(rest)) =~= append_to_body(
            s.messages,
            placeholder_id,
            concat_texts(texts),
        ));
        assert((StoreView {
            messages: append_to_body(s1.messages, placeholder_id, concat_texts(rest)),
            ..s1
        }) =~= (StoreView {
            messages: append_to_body(s.messages, placeholder_id, concat_texts(texts)),
            ..s
        }));
    }
}

/// One frame of the live view feed: the frame's kind tag and its payload.
pub struct FeedFrame {
    pub event: String,
    pub data: String,
}

/// Render one generation event for the live view feed: a fragment becomes a
/// data frame carrying the text with the typing-indicator block appended; the
/// completion signal becomes an empty completion frame.
pub fn render_live_event(e: &GenEvent) -> (f: FeedFrame)
    ensures
        e@ matches EventView::More { text } ==> f.event@ == "ChatData"@ && f.data@ == text
            + "\u{2588}"@,
        e@ is Done ==> f.event@ == "ChatDone"@ && f.data@ == Seq::<char>::empty(),
{
    match e {
        GenEvent::More { text } => {
            let mut data = text.clone();
            data.append("\u{2588}");
            FeedFrame { event: String::from_str("ChatData"), data }
        },
        GenEvent::Done => FeedFrame {
            event: String::from_str("ChatDone"),
            data: String::new(),
        },
    }
}

} // verus!
