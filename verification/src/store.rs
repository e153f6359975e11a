//! The durable state of the application and the operations on it.
//!
//! The store holds three kinds of rows: known model names, conversations and
//! messages. Rows carry integer identities handed out by per-kind counters
//! that only grow, and integer insertion timestamps drawn from a clock that
//! only advances, so within one kind both the identity and the timestamp are
//! nondecreasing in insertion order. Messages of one conversation are ordered
//! by (timestamp, identity); since identities are unique this is a strict
//! total order, and the tie-break matters exactly when two rows are inserted
//! at the same instant.
//!
//! Every operation promises `wf` of the result: identities unique and below
//! the counters, timestamps at or below the clock, every message owned by an
//! existing conversation, every conversation holding an existing model, and
//! every fork-source reference pointing to an older, existing conversation.

use vstd::prelude::*;

use crate::speaker::Who;

verus! {

/// A known model name, cached from the external generator.
pub struct Model {
    pub id: u64,
    pub name: String,
}

/// A named thread of messages with a selected model and, when the thread was
/// created by forking, a reference to its source conversation.
pub struct Conversation {
    pub id: u64,
    pub name: String,
    pub model_id: u64,
    pub source_conversation_id: Option<u64>,
    pub inserted_at: u64,
}

/// One turn of a conversation.
pub struct Message {
    pub id: u64,
    pub conversation_id: u64,
    pub who: Who,
    pub body: String,
    pub inserted_at: u64,
}

/// Mathematical value of a `Model`.
#[verifier::ext_equal]
pub struct ModelView {
    pub id: u64,
    pub name: Seq<char>,
}

/// Mathematical value of a `Conversation`.
#[verifier::ext_equal]
pub struct ConversationView {
    pub id: u64,
    pub name: Seq<char>,
    pub model_id: u64,
    pub source_conversation_id: Option<u64>,
    pub inserted_at: u64,
}

/// Mathematical value of a `Message`.
#[verifier::ext_equal]
pub struct MessageView {
    pub id: u64,
    pub conversation_id: u64,
    pub who: Who,
    pub body: Seq<char>,
    pub inserted_at: u64,
}

impl View for Model {
    type V = ModelView;

    open spec fn view(&self) -> ModelView {
        ModelView { id: self.id, name: self.name@ }
    }
}

impl DeepView for Model {
    type V = ModelView;

    open spec fn deep_view(&self) -> ModelView {
        self@
    }
}

impl View for Conversation {
    type V = ConversationView;

    open spec fn view(&self) -> ConversationView {
        ConversationView {
            id: self.id,
            name: self.name@,
            model_id: self.model_id,
            source_conversation_id: self.source_conversation_id,
            inserted_at: self.inserted_at,
        }
    }
}

impl DeepView for Conversation {
    type V = ConversationView;

    open spec fn deep_view(&self) -> ConversationView {
        self@
    }
}

impl View for Message {
    type V = MessageView;

    open spec fn view(&self) -> MessageView {
        MessageView {
            id: self.id,
            conversation_id: self.conversation_id,
            who: self.who,
            body: self.body@,
            inserted_at: self.inserted_at,
        }
    }
}

impl DeepView for Message {
    type V = MessageView;

    open spec fn deep_view(&self) -> MessageView {
        self@
    }
}

impl Clone for Message {
    fn clone(&self) -> (r: Self)
        ensures
            r@ == self@,
    {
        Message {
            id: self.id,
            conversation_id: self.conversation_id,
            who: self.who,
            body: self.body.clone(),
            inserted_at: self.inserted_at,
        }
    }
}

impl Clone for Conversation {
    fn clone(&self) -> (r: Self)
        ensures
            r@ == self@,
    {
        Conversation {
            id: self.id,
            name: self.name.clone(),
            model_id: self.model_id,
            source_conversation_id: self.source_conversation_id,
            inserted_at: self.inserted_at,
        }
    }
}

impl Clone for Model {
    fn clone(&self) -> (r: Self)
        ensures
            r@ == self@,
    {
        Model { id: self.id, name: self.name.clone() }
    }
}

/// `a` ranks strictly before `b` in the (timestamp, identity) order.
pub open spec fn msg_key_lt(a: MessageView, b: MessageView) -> bool {
    a.inserted_at < b.inserted_at || (a.inserted_at == b.inserted_at && a.id < b.id)
}

/// `a` ranks at or before `b` in the (timestamp, identity) order.
pub open spec fn msg_key_le(a: MessageView, b: MessageView) -> bool {
    a.inserted_at < b.inserted_at || (a.inserted_at == b.inserted_at && a.id <= b.id)
}

/// Mathematical value of the whole store.
#[verifier::ext_equal]
pub struct StoreView {
    pub models: Seq<ModelView>,
    pub conversations: Seq<ConversationView>,
    pub messages: Seq<MessageView>,
    pub next_model_id: u64,
    pub next_conversation_id: u64,
    pub next_message_id: u64,
    pub clock: u64,
}

impl StoreView {
    /// Some conversation row carries this identity.
    pub open spec fn has_conversation(self, id: u64) -> bool {
        exists|i: int|
            0 <= i < self.conversations.len() && (#[trigger] self.conversations[i]).id == id
    }

    /// The conversation row with this identity (meaningful when unique, which
    /// `wf` guarantees).
    pub open spec fn conversation(self, id: u64) -> ConversationView {
        self.conversations[choose|i: int|
            0 <= i < self.conversations.len() && (#[trigger] self.conversations[i]).id == id]
    }

    /// Some model row carries this identity.
    pub open spec fn has_model(self, id: u64) -> bool {
        exists|i: int| 0 <= i < self.models.len() && (#[trigger] self.models[i]).id == id
    }

    /// The model row with this identity.
    pub open spec fn model(self, id: u64) -> ModelView {
        self.models[choose|i: int|
            0 <= i < self.models.len() && (#[trigger] self.models[i]).id == id]
    }

    /// Some message row carries this identity.
    pub open spec fn has_message(self, id: u64) -> bool {
        exists|i: int| 0 <= i < self.messages.len() && (#[trigger] self.messages[i]).id == id
    }

    /// The message row with this identity.
    pub open spec fn message(self, id: u64) -> MessageView {
        self.messages[choose|i: int|
            0 <= i < self.messages.len() && (#[trigger] self.messages[i]).id == id]
    }

    /// The messages of one conversation, in store order — which `wf` makes
    /// the (timestamp, identity) order.
    pub open spec fn conversation_seq(self, c: u64) -> Seq<MessageView> {
        filter_conversation(self.messages, c)
    }

    /// Message rows are ordered, fresh to the counters and the clock, and
    /// owned by existing conversations.
    pub open spec fn messages_wf(self) -> bool {
        &&& forall|i: int, j: int|
            #![trigger self.messages[i], self.messages[j]]
            0 <= i < j < self.messages.len() ==> self.messages[i].id < self.messages[j].id
                && self.messages[i].inserted_at <= self.messages[j].inserted_at
        &&& forall|i: int|
            0 <= i < self.messages.len() ==> (#[trigger] self.messages[i]).id
                < self.next_message_id && self.messages[i].inserted_at <= self.clock
                && self.has_conversation(self.messages[i].conversation_id)
    }

    /// Conversation rows are ordered and fresh, reference existing models,
    /// and any fork-source reference points to an older, existing
    /// conversation.
    pub open spec fn conversations_wf(self) -> bool {
        &&& forall|i: int, j: int|
            #![trigger self.conversations[i], self.conversations[j]]
            0 <= i < j < self.conversations.len() ==> self.conversations[i].id
                < self.conversations[j].id && self.conversations[i].inserted_at
                <= self.conversations[j].inserted_at
        &&& forall|i: int|
            0 <= i < self.conversations.len() ==> (#[trigger] self.conversations[i]).id
                < self.next_conversation_id && self.conversations[i].inserted_at <= self.clock
                && self.has_model(self.conversations[i].model_id)
                && (self.conversations[i].source_conversation_id matches Some(s)
                    ==> self.has_conversation(s) && s < self.conversations[i].id)
    }

    /// Model rows are ordered and fresh, with pairwise distinct names.
    pub open spec fn models_wf(self) -> bool {
        &&& forall|i: int, j: int|
            #![trigger self.models[i], self.models[j]]
            0 <= i < j < self.models.len() ==> self.models[i].id < self.models[j].id
                && self.models[i].name != self.models[j].name
        &&& forall|i: int|
            0 <= i < self.models.len() ==> (#[trigger] self.models[i]).id < self.next_model_id
    }

    /// The store invariant: every operation takes it and gives it back.
    pub open spec fn wf(self) -> bool {
        self.messages_wf() && self.conversations_wf() && self.models_wf()
    }
}

/// The relational store, modeled in memory: rows in insertion order plus the
/// identity counters and the clock.
pub struct Store {
    models: Vec<Model>,
    conversations: Vec<Conversation>,
    messages: Vec<Message>,
    next_model_id: u64,
    next_conversation_id: u64,
    next_message_id: u64,
    clock: u64,
}

impl View for Store {
    type V = StoreView;

    closed spec fn view(&self) -> StoreView {
        StoreView {
            models: self.models.deep_view(),
            conversations: self.conversations.deep_view(),
            messages: self.messages.deep_view(),
            next_model_id: self.next_model_id,
            next_conversation_id: self.next_conversation_id,
            next_message_id: self.next_message_id,
            clock: self.clock,
        }
    }
}

/// Why a store operation was rejected. Each constraint violation mirrors a
/// referential-integrity rule of the schema; `NoModels` stands for the
/// missing default model of a new conversation.
#[derive(Clone, Copy, Debug, PartialEq, Eq, Structural)]
pub enum StoreError {
    ConversationNotFound,
    MessageNotFound,
    MessageNotInConversation,
    ModelNotFound,
    NoModels,
}

impl StoreError {
    /// A short description, for surfacing the rejection to a caller.
    pub fn describe(&self) -> (r: &'static str)
        ensures
            r@ == spec_describe_store_error(*self),
    {
        match self {
            StoreError::ConversationNotFound => "no such conversation",
            StoreError::MessageNotFound => "no such message",
            StoreError::MessageNotInConversation => "message belongs to another conversation",
            StoreError::ModelNotFound => "no such model",
            StoreError::NoModels => "no model is known yet",
        }
    }
}

/// The description `StoreError::describe` returns.
pub open spec fn spec_describe_store_error(e: StoreError) -> Seq<char> {
    match e {
        StoreError::ConversationNotFound => "no such conversation"@,
        StoreError::MessageNotFound => "no such message"@,
        StoreError::MessageNotInConversation => "message belongs to another conversation"@,
        StoreError::ModelNotFound => "no such model"@,
        StoreError::NoModels => "no model is known yet"@,
    }
}

impl Store {
    /// An empty store: no rows, counters at one (identities start at one, as
    /// the schema's autoincrement does), clock at zero.
    pub fn new() -> (s: Store)
        ensures
            s@.wf(),
            s@.models =~= Seq::<ModelView>::empty(),
            s@.conversations =~= Seq::<ConversationView>::empty(),
            s@.messages =~= Seq::<MessageView>::empty(),
            s@.next_model_id == 1 && s@.next_conversation_id == 1 && s@.next_message_id == 1,
            s@.clock == 0,
    {
        Store {
            models: Vec::new(),
            conversations: Vec::new(),
            messages: Vec::new(),
            next_model_id: 1,
            next_conversation_id: 1,
            next_message_id: 1,
            clock: 0,
        }
    }

    /// Advance the clock by one instant. Rows inserted without an intervening
    /// advance share a timestamp and are told apart by identity.
    pub fn advance_clock(&mut self)
        requires
            old(self)@.clock < u64::MAX,
        ensures
            final(self)@ =~= (StoreView { clock: (old(self)@.clock + 1) as u64, ..old(self)@ }),
            old(self)@.wf() ==> final(self)@.wf(),
    {
        self.clock = self.clock + 1;
        proof {
            let o = old(self)@;
            let n = self@;
            if o.wf() {
                assert forall|i: int| 0 <= i < n.messages.len() implies (#[trigger] n.messages[i]).id
                    < n.next_message_id && n.messages[i].inserted_at <= n.clock
                    && n.has_conversation(n.messages[i].conversation_id) by {
                    assert(o.messages[i].inserted_at <= o.clock);
                    assert(o.has_conversation(o.messages[i].conversation_id));
                }
                assert forall|i: int| 0 <= i < n.conversations.len() implies (#[trigger] n.conversations[i]).id
                    < n.next_conversation_id && n.conversations[i].inserted_at <= n.clock
                    && n.has_model(n.conversations[i].model_id)
                    && (n.conversations[i].source_conversation_id matches Some(s)
                        ==> n.has_conversation(s) && s < n.conversations[i].id) by {
                    assert(o.conversations[i].inserted_at <= o.clock);
                    assert(o.has_model(o.conversations[i].model_id));
                    let km = choose|k: int|
                        0 <= k < o.models.len() && (#[trigger] o.models[k]).id
                            == o.conversations[i].model_id;
                    assert(n.models[km].id == o.conversations[i].model_id);
                    if let Some(s) = o.conversations[i].source_conversation_id {
                        assert(o.has_conversation(s) && s < o.conversations[i].id);
                        let k = choose|k: int|
                            0 <= k < o.conversations.len() && (#[trigger] o.conversations[k]).id
                                == s;
                        assert(n.conversations[k].id == s);
                    }
                }
            }
        }
    }

    /// The current clock value.
    pub fn now(&self) -> (t: u64)
        ensures
            t == self@.clock,
    {
        self.clock
    }
}

/// The rows of `ms` owned by conversation `c`, in their order in `ms`.
pub open spec fn filter_conversation(ms: Seq<MessageView>, c: u64) -> Seq<MessageView> {
    ms.filter(|m: MessageView| m.conversation_id == c)
}

/// Filtering a sequence extended by one element keeps the filtered prefix and
/// appends the element exactly when it satisfies the predicate.
pub proof fn lemma_filter_push<A>(s: Seq<A>, p: spec_fn(A) -> bool, x: A)
    ensures
        (s.push(x)).filter(p) == s.filter(p) + (if p(x) {
            seq![x]
        } else {
            Seq::<A>::empty()
        }),
{
    reveal(Seq::filter);
    assert(s.push(x).drop_last() =~= s);
    assert(s.push(x).last() == x);
    if p(x) {
        assert(s.filter(p).push(x) =~= s.filter(p) + seq![x]);
    } else {
        assert(s.filter(p) =~= s.filter(p) + Seq::<A>::empty());
    }
}

/// Whether some row of `models` carries this name.
pub open spec fn models_have_name(models: Seq<ModelView>, name: Seq<char>) -> bool {
    exists|i: int| 0 <= i < models.len() && (#[trigger] models[i]).name == name
}

/// The model rows and counter after caching `names`, in order: a name already
/// present changes nothing, a new name is appended under the next identity.
pub open spec fn spec_refresh_models(
    models: Seq<ModelView>,
    next_id: u64,
    names: Seq<Seq<char>>,
) -> (Seq<ModelView>, u64)
    decreases names.len(),
{
    if names.len() == 0 {
        (models, next_id)
    } else if models_have_name(models, names[0]) {
        spec_refresh_models(models, next_id, names.drop_first())
    } else {
        spec_refresh_models(
            models.push(ModelView { id: next_id, name: names[0] }),
            (next_id + 1) as u64,
            names.drop_first(),
        )
    }
}

impl Store {
    /// The position of the model row with this name, if any.
    fn find_model_by_name(&self, name: &String) -> (r: Option<usize>)
        ensures
            match r {
                Some(i) => 0 <= i < self@.models.len() && self@.models[i as int].name == name@,
                None => !models_have_name(self@.models, name@),
            },
    {
        let mut i: usize = 0;
        while i < self.models.len()
            invariant
                0 <= i <= self@.models.len(),
                self@.models.len() == self.models@.len(),
                forall|k: int| 0 <= k < i ==> (#[trigger] self@.models[k]).name != name@,
            decreases self@.models.len() - i,
        {
            if self.models[i].name == *name {
                return Some(i);
            }
            i = i + 1;
        }
        None
    }

    /// Cache model names reported by the external generator: insert each name
    /// that is not yet present, in the order given; names already known leave
    /// the table untouched.
    pub fn refresh_models(&mut self, names: &Vec<String>)
        requires
            old(self)@.wf(),
            old(self)@.next_model_id + names@.len() <= u64::MAX,
        ensures
            final(self)@.wf(),
            ({
                let (m, nid) = spec_refresh_models(
                    old(self)@.models,
                    old(self)@.next_model_id,
                    names.deep_view(),
                );
                final(self)@ =~= (StoreView { models: m, next_model_id: nid, ..old(self)@ })
            }),
    {
        let ghost target = spec_refresh_models(
            old(self)@.models,
            old(self)@.next_model_id,
            names.deep_view(),
        );
        proof {
            assert(names.deep_view().skip(0) =~= names.deep_view());
        }
        let mut i: usize = 0;
        while i < names.len()
            invariant
                0 <= i <= names@.len(),
                self@.wf(),
                self@.next_model_id + (names@.len() - i) <= u64::MAX,
                spec_refresh_models(
                    self@.models,
                    self@.next_model_id,
                    names.deep_view().skip(i as int),
                ) == target,
                self@ =~= (StoreView {
                    models: self@.models,
                    next_model_id: self@.next_model_id,
                    ..old(self)@
                }),
            decreases names@.len() - i,
        {
            let ghost pre = self@;
            assert(names.deep_view().skip(i as int)[0] == names@[i as int]@);
            assert(names.deep_view().skip(i as int).drop_first() =~= names.deep_view().skip(
                i as int + 1,
            ));
            match self.find_model_by_name(&names[i]) {
                Some(_) => {},
                None => {
                    let m = Model { id: self.next_model_id, name: names[i].clone() };
                    self.models.push(m);
                    self.next_model_id = self.next_model_id + 1;
                    proof {
                        let n = self@;
                        assert(n.models =~= pre.models.push(
                            ModelView { id: pre.next_model_id, name: names@[i as int]@ },
                        ));
                        assert forall|p: int, q: int|
                            #![trigger n.models[p], n.models[q]]
                            0 <= p < q < n.models.len() implies n.models[p].id < n.models[q].id
                            && n.models[p].name != n.models[q].name by {
                            if q < n.models.len() - 1 {
                                assert(pre.models[p].id < pre.models[q].id);
                            } else {
                                assert(n.models[p] == pre.models[p]);
                                assert(!models_have_name(pre.models, names@[i as int]@));
                            }
                        }
                        assert forall|p: int| 0 <= p < n.conversations.len() implies (
                        #[trigger] n.conversations[p]).id < n.next_conversation_id
                            && n.conversations[p].inserted_at <= n.clock && n.has_model(
                            n.conversations[p].model_id,
                        ) && (n.conversations[p].source_conversation_id matches Some(s)
                            ==> n.has_conversation(s) && s < n.conversations[p].id) by {
                            assert(pre.has_model(pre.conversations[p].model_id));
                            let km = choose|k: int|
                                0 <= k < pre.models.len() && (#[trigger] pre.models[k]).id
                                    == pre.conversations[p].model_id;
                            assert(n.models[km].id == pre.conversations[p].model_id);
                            if let Some(s) = pre.conversations[p].source_conversation_id {
                                assert(pre.has_conversation(s));
                            }
                        }
                        assert(n.wf());
                    }
                },
            }
            i = i + 1;
        }
        proof {
            assert(names.deep_view().skip(names@.len() as int) =~= Seq::<Seq<char>>::empty());
        }
    }

    /// Create a new conversation under the default name, selecting the first
    /// known model; with no model known yet there is nothing to select and
    /// the conversation is refused.
    pub fn create_conversation(&mut self) -> (r: Result<u64, StoreError>)
        requires
            old(self)@.wf(),
            old(self)@.next_conversation_id < u64::MAX,
        ensures
            final(self)@.wf(),
            old(self)@.models.len() == 0 ==> r == Err::<u64, StoreError>(StoreError::NoModels)
                && final(self)@ == old(self)@,
            old(self)@.models.len() > 0 ==> ({
                let c = ConversationView {
                    id: old(self)@.next_conversation_id,
                    name: "a new conversation"@,
                    model_id: old(self)@.models[0].id,
                    source_conversation_id: None,
                    inserted_at: old(self)@.clock,
                };
                &&& r == Ok::<u64, StoreError>(old(self)@.next_conversation_id)
                &&& final(self)@ =~= (StoreView {
                    conversations: old(self)@.conversations.push(c),
                    next_conversation_id: (old(self)@.next_conversation_id + 1) as u64,
                    ..old(self)@
                })
            }),
    {
        if self.models.len() == 0 {
            return Err(StoreError::NoModels);
        }
        let ghost pre = self@;
        let c = Conversation {
            id: self.next_conversation_id,
            name: String::from_str("a new conversation"),
            model_id: self.models[0].id,
            source_conversation_id: None,
            inserted_at: self.clock,
        };
        self.conversations.push(c);
        self.next_conversation_id = self.next_conversation_id + 1;
        proof {
            let n = self@;
            let cv = ConversationView {
                id: pre.next_conversation_id,
                name: "a new conversation"@,
                model_id: pre.models[0].id,
                source_conversation_id: None,
                inserted_at: pre.clock,
            };
            assert(n.conversations =~= pre.conversations.push(cv));
            assert forall|p: int| 0 <= p < n.conversations.len() implies (
            #[trigger] n.conversations[p]).id < n.next_conversation_id
                && n.conversations[p].inserted_at <= n.clock && n.has_model(
                n.conversations[p].model_id,
            ) && (n.conversations[p].source_conversation_id matches Some(s)
                ==> n.has_conversation(s) && s < n.conversations[p].id) by {
                if p < n.conversations.len() - 1 {
                    assert(pre.has_model(pre.conversations[p].model_id));
                    let km = choose|k: int|
                        0 <= k < pre.models.len() && (#[trigger] pre.models[k]).id
                            == pre.conversations[p].model_id;
                    assert(n.models[km].id == pre.conversations[p].model_id);
                    if let Some(s) = pre.conversations[p].source_conversation_id {
                        let kc = choose|k: int|
                            0 <= k < pre.conversations.len() && (
                            #[trigger] pre.conversations[k]).id == s;
                        assert(n.conversations[kc].id == s);
                    }
                } else {
                    assert(n.models[0].id == cv.model_id);
                }
            }
            assert forall|p: int| 0 <= p < n.messages.len() implies (#[trigger] n.messages[p]).id
                < n.next_message_id && n.messages[p].inserted_at <= n.clock && n.has_conversation(
                n.messages[p].conversation_id,
            ) by {
                assert(pre.has_conversation(pre.messages[p].conversation_id));
                let kc = choose|k: int|
                    0 <= k < pre.conversations.len() && (#[trigger] pre.conversations[k]).id
                        == pre.messages[p].conversation_id;
                assert(n.conversations[kc].id == pre.messages[p].conversation_id);
            }
            assert(n.wf());
        }
        Ok(self.next_conversation_id - 1)
    }
}

impl Store {
    /// The position of the conversation row with this identity, if any.
    fn find_conversation(&self, id: u64) -> (r: Option<usize>)
        ensures
            match r {
                Some(i) => 0 <= i < self@.conversations.len() && self@.conversations[i as int].id
                    == id,
                None => !self@.has_conversation(id),
            },
    {
        let mut i: usize = 0;
        while i < self.conversations.len()
            invariant
                0 <= i <= self@.conversations.len(),
                self@.conversations.len() == self.conversations@.len(),
                forall|k: int| 0 <= k < i ==> (#[trigger] self@.conversations[k]).id != id,
            decreases self@.conversations.len() - i,
        {
            if self.conversations[i].id == id {
                return Some(i);
            }
            i = i + 1;
        }
        None
    }

    /// The position of the message row with this identity, if any.
    fn find_message(&self, id: u64) -> (r: Option<usize>)
        ensures
            match r {
                Some(i) => 0 <= i < self@.messages.len() && self@.messages[i as int].id == id,
                None => !self@.has_message(id),
            },
    {
        let mut i: usize = 0;
        while i < self.messages.len()
            invariant
                0 <= i <= self@.messages.len(),
                self@.messages.len() == self.messages@.len(),
                forall|k: int| 0 <= k < i ==> (#[trigger] self@.messages[k]).id != id,
            decreases self@.messages.len() - i,
        {
            if self.messages[i].id == id {
                return Some(i);
            }
            i = i + 1;
        }
        None
    }

    /// The conversation row with this identity, if any.
    pub fn get_conversation(&self, id: u64) -> (r: Option<&Conversation>)
        requires
            self@.wf(),
        ensures
            match r {
                Some(c) => self@.has_conversation(id) && c@ == self@.conversation(id),
                None => !self@.has_conversation(id),
            },
    {
        match self.find_conversation(id) {
            Some(i) => {
                proof {
                    let k = choose|k: int|
                        0 <= k < self@.conversations.len() && (#[trigger] self@.conversations[k]).id
                            == id;
                    assert(self@.conversations[k].id == self@.conversations[i as int].id);
                }
                Some(&self.conversations[i])
            },
            None => None,
        }
    }

    /// The message row with this identity, if any.
    pub fn get_message(&self, id: u64) -> (r: Option<&Message>)
        requires
            self@.wf(),
        ensures
            match r {
                Some(m) => self@.has_message(id) && m@ == self@.message(id),
                None => !self@.has_message(id),
            },
    {
        match self.find_message(id) {
            Some(i) => {
                proof {
                    let k = choose|k: int|
                        0 <= k < self@.messages.len() && (#[trigger] self@.messages[k]).id == id;
                    assert(self@.messages[k].id == self@.messages[i as int].id);
                }
                Some(&self.messages[i])
            },
            None => None,
        }
    }

    /// The model row with this identity, if any.
    pub fn get_model(&self, id: u64) -> (r: Option<&Model>)
        requires
            self@.wf(),
        ensures
            match r {
                Some(m) => self@.has_model(id) && m@ == self@.model(id),
                None => !self@.has_model(id),
            },
    {
        match self.find_model_by_id(id) {
            Some(i) => {
                proof {
                    let k = choose|k: int|
                        0 <= k < self@.models.len() && (#[trigger] self@.models[k]).id == id;
                    assert(self@.models[k].id == self@.models[i as int].id);
                }
                Some(&self.models[i])
            },
            None => None,
        }
    }

    /// Every known model, in insertion order.
    pub fn models_list(&self) -> (r: Vec<Model>)
        ensures
            r.deep_view() == self@.models,
    {
        let mut r: Vec<Model> = Vec::new();
        proof {
            assert(r.deep_view() =~= self@.models.take(0));
        }
        let mut i: usize = 0;
        while i < self.models.len()
            invariant
                0 <= i <= self@.models.len(),
                self@.models.len() == self.models@.len(),
                r.deep_view() == self@.models.take(i as int),
            decreases self@.models.len() - i,
        {
            let ghost rv0 = r.deep_view();
            r.push(self.models[i].clone());
            proof {
                assert(r.deep_view() =~= rv0.push(self@.models[i as int]));
                assert(r.deep_view() =~= self@.models.take(i as int + 1));
            }
            i = i + 1;
        }
        proof {
            assert(self@.models.take(self@.models.len() as int) =~= self@.models);
        }
        r
    }

    /// Insert one message into a conversation, stamped with the current
    /// clock and the next identity. Refused when the conversation does not
    /// exist, as the schema's ownership constraint demands.
    pub fn insert_message(&mut self, conversation_id: u64, who: Who, body: String) -> (r: Result<
        u64,
        StoreError,
    >)
        requires
            old(self)@.wf(),
            old(self)@.next_message_id < u64::MAX,
        ensures
            final(self)@.wf(),
            !old(self)@.has_conversation(conversation_id) ==> r == Err::<u64, StoreError>(
                StoreError::ConversationNotFound,
            ) && final(self)@ == old(self)@,
            old(self)@.has_conversation(conversation_id) ==> ({
                let m = MessageView {
                    id: old(self)@.next_message_id,
                    conversation_id,
                    who,
                    body: body@,
                    inserted_at: old(self)@.clock,
                };
                &&& r == Ok::<u64, StoreError>(old(self)@.next_message_id)
                &&& final(self)@ =~= (StoreView {
                    messages: old(self)@.messages.push(m),
                    next_message_id: (old(self)@.next_message_id + 1) as u64,
                    ..old(self)@
                })
            }),
    {
        if self.find_conversation(conversation_id).is_none() {
            return Err(StoreError::ConversationNotFound);
        }
        let ghost pre = self@;
        let m = Message {
            id: self.next_message_id,
            conversation_id,
            who,
            body,
            inserted_at: self.clock,
        };
        self.messages.push(m);
        self.next_message_id = self.next_message_id + 1;
        proof {
            let n = self@;
            assert(n.messages =~= pre.messages.push(
                MessageView {
                    id: pre.next_message_id,
                    conversation_id,
                    who,
                    body: n.messages.last().body,
                    inserted_at: pre.clock,
                },
            ));
            assert forall|p: int| 0 <= p < n.messages.len() implies (#[trigger] n.messages[p]).id
                < n.next_message_id && n.messages[p].inserted_at <= n.clock && n.has_conversation(
                n.messages[p].conversation_id,
            ) by {
                if p < n.messages.len() - 1 {
                    assert(pre.has_conversation(pre.messages[p].conversation_id));
                    let kc = choose|k: int|
                        0 <= k < pre.conversations.len() && (#[trigger] pre.conversations[k]).id
                            == pre.messages[p].conversation_id;
                    assert(n.conversations[kc].id == pre.messages[p].conversation_id);
                } else {
                    assert(pre.has_conversation(conversation_id));
                    let kc = choose|k: int|
                        0 <= k < pre.conversations.len() && (#[trigger] pre.conversations[k]).id
                            == conversation_id;
                    assert(n.conversations[kc].id == conversation_id);
                }
            }
            assert forall|p: int| 0 <= p < n.conversations.len() implies (
            #[trigger] n.conversations[p]).id < n.next_conversation_id
                && n.conversations[p].inserted_at <= n.clock && n.has_model(
                n.conversations[p].model_id,
            ) && (n.conversations[p].source_conversation_id matches Some(s)
                ==> n.has_conversation(s) && s < n.conversations[p].id) by {
                assert(pre.has_model(pre.conversations[p].model_id));
                let km = choose|k: int|
                    0 <= k < pre.models.len() && (#[trigger] pre.models[k]).id
                        == pre.conversations[p].model_id;
                assert(n.models[km].id == pre.conversations[p].model_id);
                if let Some(s) = pre.conversations[p].source_conversation_id {
                    let kc = choose|k: int|
                        0 <= k < pre.conversations.len() && (#[trigger] pre.conversations[k]).id
                            == s;
                    assert(n.conversations[kc].id == s);
                }
            }
            assert(n.wf());
        }
        Ok(self.next_message_id - 1)
    }

    /// Append text to the body of the message with this identity — the
    /// atomic, suffix-only update a streamed reply is persisted with. A
    /// missing identity changes nothing, as an update matching no row.
    pub fn append_to_message(&mut self, message_id: u64, text: &str)
        requires
            old(self)@.wf(),
        ensures
            final(self)@.wf(),
            !old(self)@.has_message(message_id) ==> final(self)@ == old(self)@,
            old(self)@.has_message(message_id) ==> ({
                let i = choose|i: int|
                    0 <= i < old(self)@.messages.len() && (#[trigger] old(self)@.messages[i]).id
                        == message_id;
                let m = old(self)@.messages[i];
                final(self)@ =~= (StoreView {
                    messages: old(self)@.messages.update(
                        i,
                        MessageView { body: m.body + text@, ..m },
                    ),
                    ..old(self)@
                })
            }),
    {
        let ghost pre = self@;
        match self.find_message(message_id) {
            None => {},
            Some(i) => {
                proof {
                    let k = choose|k: int|
                        0 <= k < pre.messages.len() && (#[trigger] pre.messages[k]).id
                            == message_id;
                    assert(pre.messages[k].id == pre.messages[i as int].id);
                }
                let m = &mut self.messages[i];
                m.body.append(text);
                proof {
                    let n = self@;
                    let mv = MessageView { body: pre.messages[i as int].body + text@, ..pre
                        .messages[i as int] };
                    assert(n.messages =~= pre.messages.update(i as int, mv));
                    assert forall|p: int| 0 <= p < n.messages.len() implies (
                    #[trigger] n.messages[p]).id < n.next_message_id && n.messages[p].inserted_at
                        <= n.clock && n.has_conversation(n.messages[p].conversation_id) by {
                        assert(pre.messages[p].id == n.messages[p].id);
                        assert(pre.messages[p].conversation_id == n.messages[p].conversation_id);
                        assert(pre.has_conversation(pre.messages[p].conversation_id));
                        let kc = choose|k: int|
                            0 <= k < pre.conversations.len() && (#[trigger] pre.conversations[k]).id
                                == pre.messages[p].conversation_id;
                        assert(n.conversations[kc].id == pre.messages[p].conversation_id);
                    }
                    assert forall|p: int, q: int|
                        #![trigger n.messages[p], n.messages[q]]
                        0 <= p < q < n.messages.len() implies n.messages[p].id < n.messages[q].id
                        && n.messages[p].inserted_at <= n.messages[q].inserted_at by {
                        assert(pre.messages[p].id < pre.messages[q].id);
                    }
                    assert forall|p: int| 0 <= p < n.conversations.len() implies (
                    #[trigger] n.conversations[p]).id < n.next_conversation_id
                        && n.conversations[p].inserted_at <= n.clock && n.has_model(
                        n.conversations[p].model_id,
                    ) && (n.conversations[p].source_conversation_id matches Some(s)
                        ==> n.has_conversation(s) && s < n.conversations[p].id) by {
                        assert(pre.has_model(pre.conversations[p].model_id));
                        let km = choose|k: int|
                            0 <= k < pre.models.len() && (#[trigger] pre.models[k]).id
                                == pre.conversations[p].model_id;
                        assert(n.models[km].id == pre.conversations[p].model_id);
                        if let Some(s) = pre.conversations[p].source_conversation_id {
                            let kc = choose|k: int|
                                0 <= k < pre.conversations.len() && (
                                #[trigger] pre.conversations[k]).id == s;
                            assert(n.conversations[kc].id == s);
                        }
                    }
                    assert(n.wf());
                }
            },
        }
    }

    /// The messages of one conversation, in (timestamp, identity) order. An
    /// unknown conversation yields the empty list.
    pub fn messages_of(&self, conversation_id: u64) -> (r: Vec<Message>)
        ensures
            r.deep_view() == self@.conversation_seq(conversation_id),
    {
        let ghost p = |m: MessageView| m.conversation_id == conversation_id;
        let mut r: Vec<Message> = Vec::new();
        proof {
            assert(self@.messages.take(0) =~= Seq::<MessageView>::empty());
            assert(r.deep_view() =~= filter_conversation(self@.messages.take(0), conversation_id));
        }
        let mut i: usize = 0;
        while i < self.messages.len()
            invariant
                0 <= i <= self@.messages.len(),
                self@.messages.len() == self.messages@.len(),
                r.deep_view() == filter_conversation(
                    self@.messages.take(i as int),
                    conversation_id,
                ),
            decreases self@.messages.len() - i,
        {
            let ghost prefix = self@.messages.take(i as int);
            let ghost rv0 = r.deep_view();
            proof {
                assert(self@.messages.take(i as int + 1) =~= prefix.push(
                    self@.messages[i as int],
                ));
                lemma_filter_push(
                    prefix,
                    |m: MessageView| m.conversation_id == conversation_id,
                    self@.messages[i as int],
                );
            }
            let m = &self.messages[i];
            if m.conversation_id == conversation_id {
                r.push(m.clone());
                proof {
                    assert(r.deep_view() =~= rv0.push(self@.messages[i as int]));
                    assert(r.deep_view() =~= filter_conversation(
                        self@.messages.take(i as int + 1),
                        conversation_id,
                    ));
                }
            } else {
                proof {
                    assert(r.deep_view() =~= filter_conversation(
                        self@.messages.take(i as int + 1),
                        conversation_id,
                    ));
                }
            }
            i = i + 1;
        }
        proof {
            assert(self@.messages.take(self@.messages.len() as int) =~= self@.messages);
        }
        r
    }
}

/// Filtering keeps everything when the predicate holds everywhere.
pub proof fn lemma_filter_all<A>(s: Seq<A>, p: spec_fn(A) -> bool)
    requires
        forall|i: int| 0 <= i < s.len() ==> p(#[trigger] s[i]),
    ensures
        s.filter(p) == s,
    decreases s.len(),
{
    reveal(Seq::filter);
    if s.len() == 0 {
        assert(s.filter(p) =~= s);
    } else {
        lemma_filter_all(s.drop_last(), p);
        assert(p(s.last()));
        assert(s.drop_last().push(s.last()) =~= s);
    }
}

/// Filtering keeps nothing when the predicate holds nowhere.
pub proof fn lemma_filter_none<A>(s: Seq<A>, p: spec_fn(A) -> bool)
    requires
        forall|i: int| 0 <= i < s.len() ==> !p(#[trigger] s[i]),
    ensures
        s.filter(p) == Seq::<A>::empty(),
    decreases s.len(),
{
    reveal(Seq::filter);
    if s.len() == 0 {
        assert(s.filter(p) =~= Seq::<A>::empty());
    } else {
        lemma_filter_none(s.drop_last(), p);
        assert(!p(s.last()));
    }
}

/// When the predicate holds exactly on the first `k + 1` positions, the
/// filtered sequence is that prefix.
pub proof fn lemma_filter_prefix<A>(s: Seq<A>, p: spec_fn(A) -> bool, k: int)
    requires
        0 <= k < s.len(),
        forall|i: int| 0 <= i < s.len() ==> (p(#[trigger] s[i]) <==> i <= k),
    ensures
        s.filter(p) == s.take(k + 1),
    decreases s.len(),
{
    reveal(Seq::filter);
    let dl = s.drop_last();
    if s.len() - 1 == k {
        assert(p(s.last()));
        lemma_filter_all(dl, p);
        assert(dl.push(s.last()) =~= s.take(k + 1));
    } else {
        assert(!p(s.last()));
        assert(s.filter(p) == dl.filter(p));
        lemma_filter_prefix(dl, p, k);
        assert(dl.take(k + 1) =~= s.take(k + 1));
    }
}

/// `c` with its fork-source reference cleared when it pointed at `id`.
pub open spec fn detach_source(c: ConversationView, id: u64) -> ConversationView {
    if c.source_conversation_id == Some(id) {
        ConversationView { source_conversation_id: None, ..c }
    } else {
        c
    }
}

/// The conversation rows after deleting `id`: the row itself is gone, and a
/// surviving row that recorded `id` as its fork source keeps its messages
/// but has the lineage pointer cleared.
pub open spec fn spec_delete_conversations(cs: Seq<ConversationView>, id: u64) -> Seq<
    ConversationView,
> {
    cs.filter(|c: ConversationView| c.id != id).map_values(|c: ConversationView| detach_source(c, id))
}

impl Store {
    /// Give the conversation with this identity a new display name; an
    /// unknown identity changes nothing, as an update matching no row.
    pub fn rename_conversation(&mut self, id: u64, name: String)
        requires
            old(self)@.wf(),
        ensures
            final(self)@.wf(),
            !old(self)@.has_conversation(id) ==> final(self)@ == old(self)@,
            old(self)@.has_conversation(id) ==> ({
                let i = choose|i: int|
                    0 <= i < old(self)@.conversations.len() && (
                    #[trigger] old(self)@.conversations[i]).id == id;
                let c = old(self)@.conversations[i];
                final(self)@ =~= (StoreView {
                    conversations: old(self)@.conversations.update(
                        i,
                        ConversationView { name: name@, ..c },
                    ),
                    ..old(self)@
                })
            }),
    {
        let ghost pre = self@;
        match self.find_conversation(id) {
            None => {},
            Some(i) => {
                proof {
                    let k = choose|k: int|
                        0 <= k < pre.conversations.len() && (#[trigger] pre.conversations[k]).id
                            == id;
                    assert(pre.conversations[k].id == pre.conversations[i as int].id);
                }
                let c = &mut self.conversations[i];
                c.name = name;
                proof {
                    let n = self@;
                    let cv = ConversationView { name: n.conversations[i as int].name, ..pre
                        .conversations[i as int] };
                    assert(n.conversations =~= pre.conversations.update(i as int, cv));
                    lemma_wf_conversations_update(pre, n, i as int);
                }
            },
        }
    }

    /// Select a model for a conversation. Refused when the model does not
    /// exist, as the schema's reference constraint demands; an unknown
    /// conversation changes nothing, as an update matching no row.
    pub fn select_model(&mut self, conversation_id: u64, model_id: u64) -> (r: Result<
        (),
        StoreError,
    >)
        requires
            old(self)@.wf(),
        ensures
            final(self)@.wf(),
            !old(self)@.has_conversation(conversation_id) ==> r == Ok::<(), StoreError>(())
                && final(self)@ == old(self)@,
            old(self)@.has_conversation(conversation_id) && !old(self)@.has_model(model_id) ==> r
                == Err::<(), StoreError>(StoreError::ModelNotFound) && final(self)@ == old(self)@,
            old(self)@.has_conversation(conversation_id) && old(self)@.has_model(model_id) ==> ({
                let i = choose|i: int|
                    0 <= i < old(self)@.conversations.len() && (
                    #[trigger] old(self)@.conversations[i]).id == conversation_id;
                let c = old(self)@.conversations[i];
                &&& r == Ok::<(), StoreError>(())
                &&& final(self)@ =~= (StoreView {
                    conversations: old(self)@.conversations.update(
                        i,
                        ConversationView { model_id, ..c },
                    ),
                    ..old(self)@
                })
            }),
    {
        let ghost pre = self@;
        match self.find_conversation(conversation_id) {
            None => Ok(()),
            Some(i) => {
                if self.find_model_by_id(model_id).is_none() {
                    return Err(StoreError::ModelNotFound);
                }
                proof {
                    let k = choose|k: int|
                        0 <= k < pre.conversations.len() && (#[trigger] pre.conversations[k]).id
                            == conversation_id;
                    assert(pre.conversations[k].id == pre.conversations[i as int].id);
                }
                let c = &mut self.conversations[i];
                c.model_id = model_id;
                proof {
                    let n = self@;
                    let cv = ConversationView { model_id, ..pre.conversations[i as int] };
                    assert(n.conversations =~= pre.conversations.update(i as int, cv));
                    lemma_wf_conversations_update(pre, n, i as int);
                }
                Ok(())
            },
        }
    }

    /// The position of the model row with this identity, if any.
    fn find_model_by_id(&self, id: u64) -> (r: Option<usize>)
        ensures
            match r {
                Some(i) => 0 <= i < self@.models.len() && self@.models[i as int].id == id,
                None => !self@.has_model(id),
            },
    {
        let mut i: usize = 0;
        while i < self.models.len()
            invariant
                0 <= i <= self@.models.len(),
                self@.models.len() == self.models@.len(),
                forall|k: int| 0 <= k < i ==> (#[trigger] self@.models[k]).id != id,
            decreases self@.models.len() - i,
        {
            if self.models[i].id == id {
                return Some(i);
            }
            i = i + 1;
        }
        None
    }
}

/// A conversation row updated in place — same identity, same timestamp, a
/// valid model, and a source reference no broader than before — keeps the
/// store well-formed.
proof fn lemma_wf_conversations_update(pre: StoreView, n: StoreView, i: int)
    requires
        pre.wf(),
        0 <= i < pre.conversations.len(),
        n.conversations.len() == pre.conversations.len(),
        forall|k: int|
            0 <= k < pre.conversations.len() && k != i ==> #[trigger] n.conversations[k]
                == pre.conversations[k],
        n.conversations[i].id == pre.conversations[i].id,
        n.conversations[i].inserted_at == pre.conversations[i].inserted_at,
        pre.has_model(n.conversations[i].model_id),
        n.conversations[i].source_conversation_id == pre.conversations[i].source_conversation_id
            || n.conversations[i].source_conversation_id is None,
        n.models == pre.models,
        n.messages == pre.messages,
        n.next_model_id == pre.next_model_id,
        n.next_conversation_id == pre.next_conversation_id,
        n.next_message_id == pre.next_message_id,
        n.clock == pre.clock,
    ensures
        n.wf(),
{
    assert forall|p: int| 0 <= p < n.conversations.len() implies (#[trigger] n.conversations[p]).id
        < n.next_conversation_id && n.conversations[p].inserted_at <= n.clock && n.has_model(
        n.conversations[p].model_id,
    ) && (n.conversations[p].source_conversation_id matches Some(s)
        ==> n.has_conversation(s) && s < n.conversations[p].id) by {
        assert(pre.conversations[p].id < pre.next_conversation_id);
        let mid = n.conversations[p].model_id;
        assert(pre.has_model(mid));
        let km = choose|k: int| 0 <= k < pre.models.len() && (#[trigger] pre.models[k]).id == mid;
        assert(n.models[km].id == mid);
        if let Some(s) = n.conversations[p].source_conversation_id {
            assert(pre.conversations[p].source_conversation_id == Some(s));
            assert(pre.has_conversation(s) && s < pre.conversations[p].id);
            let kc = choose|k: int|
                0 <= k < pre.conversations.len() && (#[trigger] pre.conversations[k]).id == s;
            if kc == i {
                assert(n.conversations[i].id == s);
            } else {
                assert(n.conversations[kc].id == s);
            }
        }
    }
    assert forall|p: int, q: int|
        #![trigger n.conversations[p], n.conversations[q]]
        0 <= p < q < n.conversations.len() implies n.conversations[p].id < n.conversations[q].id
        && n.conversations[p].inserted_at <= n.conversations[q].inserted_at by {
        assert(pre.conversations[p].id < pre.conversations[q].id);
        assert(pre.conversations[p].inserted_at <= pre.conversations[q].inserted_at);
    }
    assert forall|p: int| 0 <= p < n.messages.len() implies (#[trigger] n.messages[p]).id
        < n.next_message_id && n.messages[p].inserted_at <= n.clock && n.has_conversation(
        n.messages[p].conversation_id,
    ) by {
        let cid = n.messages[p].conversation_id;
        assert(pre.has_conversation(cid));
        let kc = choose|k: int|
            0 <= k < pre.conversations.len() && (#[trigger] pre.conversations[k]).id == cid;
        if kc == i {
            assert(n.conversations[i].id == cid);
        } else {
            assert(n.conversations[kc].id == cid);
        }
    }
}

/// The message rows after deleting conversation `id`: its rows are gone,
/// every other row survives in order.
pub open spec fn spec_delete_messages(ms: Seq<MessageView>, id: u64) -> Seq<MessageView> {
    ms.filter(|m: MessageView| m.conversation_id != id)
}

/// Filtering twice with the narrower predicate last is filtering once with
/// it, whenever the narrow predicate entails the wide one.
pub proof fn lemma_filter_filter<A>(s: Seq<A>, wide: spec_fn(A) -> bool, narrow: spec_fn(A) -> bool)
    requires
        forall|x: A| #[trigger] narrow(x) ==> wide(x),
    ensures
        s.filter(wide).filter(narrow) == s.filter(narrow),
    decreases s.len(),
{
    reveal(Seq::filter);
    if s.len() == 0 {
    } else {
        let dl = s.drop_last();
        lemma_filter_filter(dl, wide, narrow);
        if wide(s.last()) {
            assert(s.filter(wide) == dl.filter(wide).push(s.last()));
            lemma_filter_push(dl.filter(wide), narrow, s.last());
            if narrow(s.last()) {
                assert(dl.filter(wide).filter(narrow).push(s.last()) =~= dl.filter(wide).filter(
                    narrow,
                ) + seq![s.last()]);
                assert(dl.filter(narrow).push(s.last()) =~= dl.filter(narrow) + seq![s.last()]);
            } else {
                assert(dl.filter(wide).filter(narrow) =~= dl.filter(wide).filter(narrow)
                    + Seq::<A>::empty());
            }
        } else {
            assert(s.filter(wide) == dl.filter(wide));
            assert(!narrow(s.last()));
        }
    }
}

impl Store {
    /// Delete a conversation: the row is removed together with every message
    /// it owns, and a conversation that recorded it as fork source survives
    /// with the lineage pointer cleared. Deleting an unknown identity
    /// changes nothing.
    pub fn delete_conversation(&mut self, id: u64)
        requires
            old(self)@.wf(),
        ensures
            final(self)@.wf(),
            final(self)@ =~= (StoreView {
                conversations: spec_delete_conversations(old(self)@.conversations, id),
                messages: spec_delete_messages(old(self)@.messages, id),
                ..old(self)@
            }),
    {
        let ghost pre = self@;
        let ghost pc = |c: ConversationView| c.id != id;
        let ghost pm = |m: MessageView| m.conversation_id != id;
        let mut new_convs: Vec<Conversation> = Vec::new();
        proof {
            assert(pre.conversations.take(0) =~= Seq::<ConversationView>::empty());
            assert(new_convs.deep_view() =~= spec_delete_conversations(
                pre.conversations.take(0),
                id,
            ));
        }
        let mut i: usize = 0;
        while i < self.conversations.len()
            invariant
                0 <= i <= pre.conversations.len(),
                self@ == pre,
                pre.conversations.len() == self.conversations@.len(),
                new_convs.deep_view() == spec_delete_conversations(
                    pre.conversations.take(i as int),
                    id,
                ),
            decreases pre.conversations.len() - i,
        {
            let ghost t0 = pre.conversations.take(i as int);
            let ghost rv0 = new_convs.deep_view();
            proof {
                assert(pre.conversations.take(i as int + 1) =~= t0.push(
                    pre.conversations[i as int],
                ));
                lemma_filter_push(
                    t0,
                    |c: ConversationView| c.id != id,
                    pre.conversations[i as int],
                );
                assert(pre.conversations.take(i as int + 1).filter(
                    |c: ConversationView| c.id != id,
                ) == t0.filter(|c: ConversationView| c.id != id) + (
                if pre.conversations[i as int].id != id {
                    seq![pre.conversations[i as int]]
                } else {
                    Seq::<ConversationView>::empty()
                }));
            }
            let c = &self.conversations[i];
            if c.id != id {
                let src: Option<u64> = match c.source_conversation_id {
                    Some(s) => if s == id {
                        None
                    } else {
                        Some(s)
                    },
                    None => None,
                };
                let c2 = Conversation {
                    id: c.id,
                    name: c.name.clone(),
                    model_id: c.model_id,
                    source_conversation_id: src,
                    inserted_at: c.inserted_at,
                };
                new_convs.push(c2);
                proof {
                    assert(c2@ == detach_source(pre.conversations[i as int], id));
                    assert(new_convs.deep_view() =~= rv0.push(
                        detach_source(pre.conversations[i as int], id),
                    ));
                    assert(new_convs.deep_view() =~= spec_delete_conversations(
                        pre.conversations.take(i as int + 1),
                        id,
                    ));
                }
            } else {
                proof {
                    assert(new_convs.deep_view() =~= spec_delete_conversations(
                        pre.conversations.take(i as int + 1),
                        id,
                    ));
                }
            }
            i = i + 1;
        }
        let mut new_msgs: Vec<Message> = Vec::new();
        proof {
            assert(pre.conversations.take(pre.conversations.len() as int) =~= pre.conversations);
            assert(pre.messages.take(0) =~= Seq::<MessageView>::empty());
            assert(new_msgs.deep_view() =~= spec_delete_messages(pre.messages.take(0), id));
        }
        let mut j: usize = 0;
        while j < self.messages.len()
            invariant
                0 <= j <= pre.messages.len(),
                self@ == pre,
                pre.messages.len() == self.messages@.len(),
                new_msgs.deep_view() == spec_delete_messages(pre.messages.take(j as int), id),
            decreases pre.messages.len() - j,
        {
            let ghost t0 = pre.messages.take(j as int);
            let ghost rv0 = new_msgs.deep_view();
            proof {
                assert(pre.messages.take(j as int + 1) =~= t0.push(pre.messages[j as int]));
                lemma_filter_push(
                    t0,
                    |m: MessageView| m.conversation_id != id,
                    pre.messages[j as int],
                );
            }
            let m = &self.messages[j];
            if m.conversation_id != id {
                new_msgs.push(m.clone());
                proof {
                    assert(new_msgs.deep_view() =~= rv0.push(pre.messages[j as int]));
                    assert(new_msgs.deep_view() =~= spec_delete_messages(
                        pre.messages.take(j as int + 1),
                        id,
                    ));
                }
            } else {
                proof {
                    assert(new_msgs.deep_view() =~= spec_delete_messages(
                        pre.messages.take(j as int + 1),
                        id,
                    ));
                }
            }
            j = j + 1;
        }
        proof {
            assert(pre.messages.take(pre.messages.len() as int) =~= pre.messages);
        }
        self.conversations = new_convs;
        self.messages = new_msgs;
        proof {
            let n = self@;
            let fc = lemma_filter_subsequence(pre.conversations, pc);
            let fm = lemma_filter_subsequence(pre.messages, pm);
            let kept = pre.conversations.filter(pc);
            assert(n.conversations =~= kept.map_values(
                |c: ConversationView| detach_source(c, id),
            ));
            assert forall|p: int, q: int|
                #![trigger n.conversations[p], n.conversations[q]]
                0 <= p < q < n.conversations.len() implies n.conversations[p].id
                < n.conversations[q].id && n.conversations[p].inserted_at
                <= n.conversations[q].inserted_at by {
                assert(pre.conversations[fc[p]] == kept[p]);
                assert(pre.conversations[fc[q]] == kept[q]);
                assert(fc[p] < fc[q]);
            }
            assert forall|p: int| 0 <= p < n.conversations.len() implies (
            #[trigger] n.conversations[p]).id < n.next_conversation_id
                && n.conversations[p].inserted_at <= n.clock && n.has_model(
                n.conversations[p].model_id,
            ) && (n.conversations[p].source_conversation_id matches Some(s)
                ==> n.has_conversation(s) && s < n.conversations[p].id) by {
                assert(pre.conversations[fc[p]] == kept[p]);
                assert(n.conversations[p] == detach_source(kept[p], id));
                let cv = kept[p];
                assert(pre.has_model(cv.model_id));
                let km = choose|k: int|
                    0 <= k < pre.models.len() && (#[trigger] pre.models[k]).id == cv.model_id;
                assert(n.models[km].id == cv.model_id);
                if let Some(s) = n.conversations[p].source_conversation_id {
                    assert(cv.source_conversation_id == Some(s) && s != id);
                    assert(pre.has_conversation(s) && s < cv.id);
                    let kc = choose|k: int|
                        0 <= k < pre.conversations.len() && (#[trigger] pre.conversations[k]).id
                            == s;
                    pre.conversations.lemma_filter_contains(pc, kc);
                    let w = choose|w: int| 0 <= w < kept.len() && #[trigger] kept[w]
                        == pre.conversations[kc];
                    assert(n.conversations[w].id == s);
                }
            }
            assert forall|p: int, q: int|
                #![trigger n.messages[p], n.messages[q]]
                0 <= p < q < n.messages.len() implies n.messages[p].id < n.messages[q].id
                && n.messages[p].inserted_at <= n.messages[q].inserted_at by {
                assert(pre.messages[fm[p]] == n.messages[p]);
                assert(pre.messages[fm[q]] == n.messages[q]);
                assert(fm[p] < fm[q]);
            }
            assert forall|p: int| 0 <= p < n.messages.len() implies (#[trigger] n.messages[p]).id
                < n.next_message_id && n.messages[p].inserted_at <= n.clock && n.has_conversation(
                n.messages[p].conversation_id,
            ) by {
                assert(pre.messages[fm[p]] == n.messages[p]);
                assert(pm(n.messages[p]));
                let cid = n.messages[p].conversation_id;
                assert(pre.has_conversation(cid));
                let kc = choose|k: int|
                    0 <= k < pre.conversations.len() && (#[trigger] pre.conversations[k]).id == cid;
                pre.conversations.lemma_filter_contains(pc, kc);
                let w = choose|w: int| 0 <= w < kept.len() && #[trigger] kept[w]
                    == pre.conversations[kc];
                assert(n.conversations[w].id == cid);
            }
            assert(n.wf());
        }
    }
}

/// Deleting a conversation cascades to exactly its own messages: the deleted
/// conversation and its rows are gone, every other conversation keeps its
/// message sequence unchanged, and a conversation forked from the deleted
/// one survives with its lineage pointer cleared and everything else intact.
pub proof fn lemma_delete_cascade(s: StoreView, id: u64, c: u64)
    requires
        s.wf(),
    ensures
        ({
            let t = StoreView {
                conversations: spec_delete_conversations(s.conversations, id),
                messages: spec_delete_messages(s.messages, id),
                ..s
            };
            &&& !t.has_conversation(id)
            &&& t.conversation_seq(id) == Seq::<MessageView>::empty()
            &&& c != id ==> t.conversation_seq(c) == s.conversation_seq(c)
            &&& c != id && s.has_conversation(c) ==> t.has_conversation(c) && t.conversation(c)
                =~= detach_source(s.conversation(c), id)
        }),
{
    let t = StoreView {
        conversations: spec_delete_conversations(s.conversations, id),
        messages: spec_delete_messages(s.messages, id),
        ..s
    };
    let pc = |cv: ConversationView| cv.id != id;
    let pm = |m: MessageView| m.conversation_id != id;
    let kept = s.conversations.filter(pc);
    let fc = lemma_filter_subsequence(s.conversations, pc);
    let fm = lemma_filter_subsequence(s.messages, pm);
    assert forall|k: int| 0 <= k < t.conversations.len() implies (#[trigger] t.conversations[k]).id
        != id by {
        assert(s.conversations[fc[k]] == kept[k]);
        assert(pc(kept[k]));
        assert(t.conversations[k] == detach_source(kept[k], id));
    }
    assert(!t.has_conversation(id));
    let gone = t.conversation_seq(id);
    assert(gone.len() == 0) by {
        if gone.len() > 0 {
            let fg = lemma_filter_subsequence(t.messages, |m: MessageView| m.conversation_id == id);
            assert(t.messages[fg[0]] == gone[0]);
            assert(pm(t.messages[fg[0]]));
            assert(gone[0].conversation_id == id);
        }
    }
    assert(gone =~= Seq::<MessageView>::empty());
    if c != id {
        lemma_filter_filter(
            s.messages,
            |m: MessageView| m.conversation_id != id,
            |m: MessageView| m.conversation_id == c,
        );
        assert(t.conversation_seq(c) == s.conversation_seq(c));
        if s.has_conversation(c) {
            let kc = choose|k: int|
                0 <= k < s.conversations.len() && (#[trigger] s.conversations[k]).id == c;
            s.conversations.lemma_filter_contains(pc, kc);
            let w = choose|w: int| 0 <= w < kept.len() && #[trigger] kept[w] == s.conversations[kc];
            assert(t.conversations[w] == detach_source(s.conversations[kc], id));
            assert(t.conversations[w].id == c);
            assert(t.has_conversation(c));
            let wt = choose|k: int|
                0 <= k < t.conversations.len() && (#[trigger] t.conversations[k]).id == c;
            assert(t.conversations[wt].id == t.conversations[w].id);
            assert forall|p: int, q: int|
                #![trigger t.conversations[p], t.conversations[q]]
                0 <= p < q < t.conversations.len() implies t.conversations[p].id
                != t.conversations[q].id by {
                assert(s.conversations[fc[p]] == kept[p]);
                assert(s.conversations[fc[q]] == kept[q]);
                assert(fc[p] < fc[q]);
                assert(kept[p].id < kept[q].id);
            }
            assert(wt == w);
            assert(s.conversations[kc] == s.conversation(c));
        }
    }
}

/// A filtered sequence is a subsequence: there is a strictly increasing map
/// from its positions back into the original sequence.
pub proof fn lemma_filter_subsequence<A>(s: Seq<A>, p: spec_fn(A) -> bool) -> (f: Seq<int>)
    ensures
        f.len() == s.filter(p).len(),
        forall|i: int|
            0 <= i < f.len() ==> 0 <= #[trigger] f[i] < s.len() && s[f[i]] == s.filter(p)[i],
        forall|i: int, j: int| 0 <= i < j < f.len() ==> f[i] < f[j],
    decreases s.len(),
{
    reveal(Seq::filter);
    if s.len() == 0 {
        assert(s.filter(p).len() == 0);
        Seq::<int>::empty()
    } else {
        let sub = lemma_filter_subsequence(s.drop_last(), p);
        assert(forall|i: int|
            0 <= i < sub.len() ==> s.drop_last()[#[trigger] sub[i]] == s[sub[i]]);
        if p(s.last()) {
            let f = sub.push(s.len() - 1);
            assert(s.filter(p) == s.drop_last().filter(p).push(s.last()));
            assert(forall|i: int|
                0 <= i < f.len() ==> 0 <= #[trigger] f[i] < s.len() && s[f[i]] == s.filter(p)[i]);
            f
        } else {
            assert(s.filter(p) == s.drop_last().filter(p));
            sub
        }
    }
}

/// The messages of one conversation stand in strictly ascending
/// (timestamp, identity) order, each owned by that conversation.
pub proof fn lemma_conversation_seq_ordered(s: StoreView, c: u64)
    requires
        s.wf(),
    ensures
        ({
            let q = s.conversation_seq(c);
            &&& forall|i: int, j: int|
                #![trigger q[i], q[j]]
                0 <= i < j < q.len() ==> msg_key_lt(q[i], q[j]) && q[i].id < q[j].id
            &&& forall|i: int| 0 <= i < q.len() ==> (#[trigger] q[i]).conversation_id == c
        }),
{
    let p = |m: MessageView| m.conversation_id == c;
    let q = s.messages.filter(p);
    let f = lemma_filter_subsequence(s.messages, p);
    assert forall|i: int, j: int|
        #![trigger q[i], q[j]]
        0 <= i < j < q.len() implies msg_key_lt(q[i], q[j]) && q[i].id < q[j].id by {
        assert(s.messages[f[i]] == q[i]);
        assert(s.messages[f[j]] == q[j]);
        assert(f[i] < f[j]);
    }
    assert forall|i: int| 0 <= i < q.len() implies (#[trigger] q[i]).conversation_id == c by {
        assert(s.messages[f[i]] == q[i]);
        assert(p(q[i]));
    }
}

/// Reads are stable: the ordered message list of a conversation is a
/// function of the store value alone, so two reads with no write in between
/// return the same sequence, and that sequence is strictly ordered by
/// (timestamp, identity).
pub proof fn lemma_reads_stable(s: StoreView, c: u64, r1: Seq<MessageView>, r2: Seq<MessageView>)
    requires
        s.wf(),
        r1 == s.conversation_seq(c),
        r2 == s.conversation_seq(c),
    ensures
        r1 == r2,
        forall|i: int, j: int|
            #![trigger r1[i], r1[j]]
            0 <= i < j < r1.len() ==> msg_key_lt(r1[i], r1[j]),
{
    lemma_conversation_seq_ordered(s, c);
}

/// Whether a fork of conversation `source`, cut at `cut`, copies message
/// `m`: the row belongs to the source and ranks at or before the cut in the
/// (timestamp, identity) order.
pub open spec fn fork_keeps(m: MessageView, source: u64, cut: MessageView) -> bool {
    m.conversation_id == source && msg_key_le(m, cut)
}

/// The source rows a fork copies, in store order.
pub open spec fn fork_selected(s: StoreView, source: u64, cut: MessageView) -> Seq<MessageView> {
    s.messages.filter(|m: MessageView| fork_keeps(m, source, cut))
}

/// `sel` re-identified for the forked conversation: fresh consecutive
/// identities from `first_id` on, the new owning conversation, one shared
/// insertion instant — speakers and bodies kept, order kept.
pub open spec fn renumber(
    sel: Seq<MessageView>,
    first_id: u64,
    conversation_id: u64,
    at: u64,
) -> Seq<MessageView> {
    Seq::new(
        sel.len(),
        |i: int|
            MessageView {
                id: (first_id + i) as u64,
                conversation_id,
                who: sel[i].who,
                body: sel[i].body,
                inserted_at: at,
            },
    )
}

/// The message rows a fork of `source` cut at `cut` appends to the store.
pub open spec fn spec_fork_copies(s: StoreView, source: u64, cut: MessageView) -> Seq<MessageView> {
    renumber(
        fork_selected(s, source, cut),
        s.next_message_id,
        s.next_conversation_id,
        s.clock,
    )
}

impl Store {
    /// Fork a conversation: copy every message of `source_conversation_id`
    /// ranking at or before the cut message into a brand-new conversation
    /// that records the source as its lineage. The copies keep speaker, body
    /// and relative order but get fresh identities and their own insertion
    /// instant. Refused — leaving the store unchanged — when the cut message
    /// does not exist, belongs to another conversation, or no model is known
    /// to select for the new conversation.
    pub fn fork(&mut self, source_conversation_id: u64, cut_message_id: u64) -> (r: Result<
        u64,
        StoreError,
    >)
        requires
            old(self)@.wf(),
            old(self)@.next_conversation_id < u64::MAX,
            old(self)@.next_message_id + old(self)@.messages.len() <= u64::MAX,
        ensures
            final(self)@.wf(),
            !old(self)@.has_message(cut_message_id) ==> r == Err::<u64, StoreError>(
                StoreError::MessageNotFound,
            ) && final(self)@ == old(self)@,
            old(self)@.has_message(cut_message_id) && old(self)@.message(
                cut_message_id,
            ).conversation_id != source_conversation_id ==> r == Err::<u64, StoreError>(
                StoreError::MessageNotInConversation,
            ) && final(self)@ == old(self)@,
            old(self)@.has_message(cut_message_id) && old(self)@.message(
                cut_message_id,
            ).conversation_id == source_conversation_id && old(self)@.models.len() == 0 ==> r
                == Err::<u64, StoreError>(StoreError::NoModels) && final(self)@ == old(self)@,
            old(self)@.has_message(cut_message_id) && old(self)@.message(
                cut_message_id,
            ).conversation_id == source_conversation_id && old(self)@.models.len() > 0 ==> ({
                let new_id = old(self)@.next_conversation_id;
                let cut = old(self)@.message(cut_message_id);
                let copies = spec_fork_copies(old(self)@, source_conversation_id, cut);
                let c = ConversationView {
                    id: new_id,
                    name: "a new conversation"@,
                    model_id: old(self)@.models[0].id,
                    source_conversation_id: Some(source_conversation_id),
                    inserted_at: old(self)@.clock,
                };
                &&& r == Ok::<u64, StoreError>(new_id)
                &&& final(self)@ =~= (StoreView {
                    conversations: old(self)@.conversations.push(c),
                    messages: old(self)@.messages + copies,
                    next_conversation_id: (new_id + 1) as u64,
                    next_message_id: (old(self)@.next_message_id + copies.len()) as u64,
                    ..old(self)@
                })
            }),
    {
        let ghost pre = self@;
        let cut_idx = match self.find_message(cut_message_id) {
            None => {
                return Err(StoreError::MessageNotFound);
            },
            Some(i) => i,
        };
        proof {
            let k = choose|k: int|
                0 <= k < pre.messages.len() && (#[trigger] pre.messages[k]).id == cut_message_id;
            assert(pre.messages[k].id == pre.messages[cut_idx as int].id);
            assert(pre.message(cut_message_id) == pre.messages[cut_idx as int]);
        }
        let cut_ts = self.messages[cut_idx].inserted_at;
        if self.messages[cut_idx].conversation_id != source_conversation_id {
            return Err(StoreError::MessageNotInConversation);
        }
        if self.models.len() == 0 {
            return Err(StoreError::NoModels);
        }
        let ghost cut = pre.message(cut_message_id);
        let new_id = self.next_conversation_id;
        // Copy the selected source rows, in source order, under fresh
        // consecutive identities.
        let mut copies: Vec<Message> = Vec::new();
        let mut next_id: u64 = self.next_message_id;
        proof {
            assert(pre.messages.take(0) =~= Seq::<MessageView>::empty());
            assert(copies.deep_view() =~= renumber(
                pre.messages.take(0).filter(|m: MessageView| fork_keeps(m, source_conversation_id, cut)),
                pre.next_message_id,
                new_id,
                pre.clock,
            ));
        }
        let mut j: usize = 0;
        while j < self.messages.len()
            invariant
                0 <= j <= pre.messages.len(),
                self@ == pre,
                pre.messages.len() == self.messages@.len(),
                new_id == pre.next_conversation_id,
                cut == pre.message(cut_message_id),
                cut_ts == cut.inserted_at,
                cut_message_id == cut.id,
                pre.next_message_id + pre.messages.len() <= u64::MAX,
                copies.deep_view() == renumber(
                    pre.messages.take(j as int).filter(
                        |m: MessageView| fork_keeps(m, source_conversation_id, cut),
                    ),
                    pre.next_message_id,
                    new_id,
                    pre.clock,
                ),
                next_id == pre.next_message_id + copies.deep_view().len(),
                copies.deep_view().len() <= j,
            decreases pre.messages.len() - j,
        {
            let ghost t0 = pre.messages.take(j as int);
            let ghost sel0 = t0.filter(
                |m: MessageView| fork_keeps(m, source_conversation_id, cut),
            );
            let ghost rv0 = copies.deep_view();
            proof {
                assert(pre.messages.take(j as int + 1) =~= t0.push(pre.messages[j as int]));
                lemma_filter_push(
                    t0,
                    |m: MessageView| fork_keeps(m, source_conversation_id, cut),
                    pre.messages[j as int],
                );
            }
            let m = &self.messages[j];
            if m.conversation_id == source_conversation_id && (m.inserted_at < cut_ts || (
            m.inserted_at == cut_ts && m.id <= cut_message_id)) {
                let copy = Message {
                    id: next_id,
                    conversation_id: new_id,
                    who: m.who,
                    body: m.body.clone(),
                    inserted_at: self.clock,
                };
                let ghost cpv = copy@;
                copies.push(copy);
                next_id = next_id + 1;
                proof {
                    assert(copies.deep_view() =~= rv0.push(cpv));
                    assert(fork_keeps(pre.messages[j as int], source_conversation_id, cut));
                    assert(pre.messages.take(j as int + 1).filter(
                        |m: MessageView| fork_keeps(m, source_conversation_id, cut),
                    ) =~= sel0.push(pre.messages[j as int]));
                    assert(copies.deep_view() =~= renumber(
                        sel0.push(pre.messages[j as int]),
                        pre.next_message_id,
                        new_id,
                        pre.clock,
                    ));
                }
            } else {
                proof {
                    assert(!fork_keeps(pre.messages[j as int], source_conversation_id, cut));
                    assert(pre.messages.take(j as int + 1).filter(
                        |m: MessageView| fork_keeps(m, source_conversation_id, cut),
                    ) =~= sel0);
                }
            }
            j = j + 1;
        }
        proof {
            assert(pre.messages.take(pre.messages.len() as int) =~= pre.messages);
        }
        let n_copies = copies.len();
        // The new conversation row, with the source recorded as lineage.
        let c = Conversation {
            id: new_id,
            name: String::from_str("a new conversation"),
            model_id: self.models[0].id,
            source_conversation_id: Some(source_conversation_id),
            inserted_at: self.clock,
        };
        self.conversations.push(c);
        self.next_conversation_id = self.next_conversation_id + 1;
        self.messages.append(&mut copies);
        self.next_message_id = next_id;
        proof {
            let n = self@;
            let copies_v = spec_fork_copies(pre, source_conversation_id, cut);
            let cv = ConversationView {
                id: new_id,
                name: "a new conversation"@,
                model_id: pre.models[0].id,
                source_conversation_id: Some(source_conversation_id),
                inserted_at: pre.clock,
            };
            assert(n.conversations =~= pre.conversations.push(cv));
            assert(n.messages =~= pre.messages + copies_v);
            assert(copies_v.len() <= pre.messages.len());
            // The new conversation row is well-formed among the others.
            assert forall|p: int| 0 <= p < n.conversations.len() implies (
            #[trigger] n.conversations[p]).id < n.next_conversation_id
                && n.conversations[p].inserted_at <= n.clock && n.has_model(
                n.conversations[p].model_id,
            ) && (n.conversations[p].source_conversation_id matches Some(s)
                ==> n.has_conversation(s) && s < n.conversations[p].id) by {
                if p < n.conversations.len() - 1 {
                    assert(pre.has_model(pre.conversations[p].model_id));
                    let km = choose|k: int|
                        0 <= k < pre.models.len() && (#[trigger] pre.models[k]).id
                            == pre.conversations[p].model_id;
                    assert(n.models[km].id == pre.conversations[p].model_id);
                    if let Some(s) = pre.conversations[p].source_conversation_id {
                        let kc = choose|k: int|
                            0 <= k < pre.conversations.len() && (
                            #[trigger] pre.conversations[k]).id == s;
                        assert(n.conversations[kc].id == s);
                    }
                } else {
                    assert(n.models[0].id == cv.model_id);
                    assert(pre.has_conversation(cut.conversation_id));
                    let kc = choose|k: int|
                        0 <= k < pre.conversations.len() && (#[trigger] pre.conversations[k]).id
                            == source_conversation_id;
                    assert(n.conversations[kc].id == source_conversation_id);
                    assert(pre.conversations[kc].id < pre.next_conversation_id);
                }
            }
            // Old and copied message rows stay ordered and owned.
            assert forall|p: int, q: int|
                #![trigger n.messages[p], n.messages[q]]
                0 <= p < q < n.messages.len() implies n.messages[p].id < n.messages[q].id
                && n.messages[p].inserted_at <= n.messages[q].inserted_at by {
                let w = pre.messages.len() as int;
                if q < w {
                    assert(pre.messages[p].id < pre.messages[q].id);
                } else if p >= w {
                    assert(n.messages[p] == copies_v[p - w]);
                    assert(n.messages[q] == copies_v[q - w]);
                } else {
                    assert(n.messages[p] == pre.messages[p]);
                    assert(n.messages[q] == copies_v[q - w]);
                    assert(pre.messages[p].id < pre.next_message_id);
                    assert(pre.messages[p].inserted_at <= pre.clock);
                }
            }
            assert forall|p: int| 0 <= p < n.messages.len() implies (#[trigger] n.messages[p]).id
                < n.next_message_id && n.messages[p].inserted_at <= n.clock && n.has_conversation(
                n.messages[p].conversation_id,
            ) by {
                let w = pre.messages.len() as int;
                if p < w {
                    assert(pre.has_conversation(pre.messages[p].conversation_id));
                    let kc = choose|k: int|
                        0 <= k < pre.conversations.len() && (#[trigger] pre.conversations[k]).id
                            == pre.messages[p].conversation_id;
                    assert(n.conversations[kc].id == pre.messages[p].conversation_id);
                } else {
                    assert(n.messages[p] == copies_v[p - w]);
                    assert(n.messages[p].conversation_id == new_id);
                    assert(n.conversations[n.conversations.len() - 1].id == new_id);
                }
            }
            assert(n.wf());
        }
        Ok(new_id)
    }
}

/// Forking at a message of a conversation produces a new conversation whose
/// message sequence is exactly the prefix of the source's (timestamp,
/// identity)-ordered sequence ending at the cut message: the same speakers
/// and bodies in the same relative order, under fresh identities, while the
/// source's own sequence is untouched and the new conversation records the
/// source as its lineage.
pub proof fn lemma_fork_prefix(s: StoreView, source: u64, cut_id: u64)
    requires
        s.wf(),
        s.has_message(cut_id),
        s.message(cut_id).conversation_id == source,
        s.models.len() > 0,
        s.next_conversation_id < u64::MAX,
        s.next_message_id + s.messages.len() <= u64::MAX,
    ensures
        ({
            let new_id = s.next_conversation_id;
            let cut = s.message(cut_id);
            let copies = spec_fork_copies(s, source, cut);
            let c = ConversationView {
                id: new_id,
                name: "a new conversation"@,
                model_id: s.models[0].id,
                source_conversation_id: Some(source),
                inserted_at: s.clock,
            };
            let t = StoreView {
                conversations: s.conversations.push(c),
                messages: s.messages + copies,
                next_conversation_id: (new_id + 1) as u64,
                next_message_id: (s.next_message_id + copies.len()) as u64,
                ..s
            };
            let src = s.conversation_seq(source);
            let dst = t.conversation_seq(new_id);
            let k = choose|k: int| 0 <= k < src.len() && (#[trigger] src[k]).id == cut_id;
            &&& 0 <= k < src.len() && src[k] == cut
            &&& dst.len() == k + 1
            &&& forall|i: int|
                0 <= i <= k ==> (#[trigger] dst[i]).who == src[i].who && dst[i].body == src[i].body
            &&& forall|i: int| 0 <= i <= k ==> (#[trigger] dst[i]).id >= s.next_message_id
            &&& forall|i: int| 0 <= i <= k ==> (#[trigger] dst[i]).conversation_id == new_id
            &&& t.conversation_seq(source) == src
            &&& t.has_conversation(new_id) && t.conversation(new_id).source_conversation_id
                == Some(source)
        }),
{
    let new_id = s.next_conversation_id;
    let cut = s.message(cut_id);
    let copies = spec_fork_copies(s, source, cut);
    let c = ConversationView {
        id: new_id,
        name: "a new conversation"@,
        model_id: s.models[0].id,
        source_conversation_id: Some(source),
        inserted_at: s.clock,
    };
    let t = StoreView {
        conversations: s.conversations.push(c),
        messages: s.messages + copies,
        next_conversation_id: (new_id + 1) as u64,
        next_message_id: (s.next_message_id + copies.len()) as u64,
        ..s
    };
    let src = s.conversation_seq(source);
    let pm = |m: MessageView| m.conversation_id == source;
    let pk = |m: MessageView| fork_keeps(m, source, cut);
    let pn = |m: MessageView| m.conversation_id == new_id;
    let sel = fork_selected(s, source, cut);
    // The cut message appears in the source sequence, exactly once.
    let km = choose|k: int| 0 <= k < s.messages.len() && (#[trigger] s.messages[k]).id == cut_id;
    s.messages.lemma_filter_contains(pm, km);
    let k = choose|k: int| 0 <= k < src.len() && (#[trigger] src[k]).id == cut_id;
    assert(src.contains(s.messages[km]));
    assert(exists|i: int| 0 <= i < src.len() && (#[trigger] src[i]).id == cut_id) by {
        let w = choose|w: int| 0 <= w < src.len() && #[trigger] src[w] == s.messages[km];
        assert(src[w].id == cut_id);
    }
    assert(0 <= k < src.len() && src[k].id == cut_id);
    let f = lemma_filter_subsequence(s.messages, pm);
    assert(s.messages[f[k]] == src[k]);
    assert(s.messages[f[k]].id == s.messages[km].id);
    assert(src[k] == cut);
    lemma_conversation_seq_ordered(s, source);
    // Selecting by rank keeps exactly the prefix of the source sequence that
    // ends at the cut.
    lemma_filter_filter(s.messages, pm, pk);
    assert(sel == src.filter(pk));
    assert forall|i: int| 0 <= i < src.len() implies (pk(#[trigger] src[i]) <==> i <= k) by {
        if i < k {
            assert(msg_key_lt(src[i], src[k]));
        } else if i == k {
        } else {
            assert(msg_key_lt(src[k], src[i]));
        }
    }
    lemma_filter_prefix(src, pk, k);
    assert(sel == src.take(k + 1));
    // The new conversation's sequence is exactly the renumbered selection.
    Seq::filter_distributes_over_add(s.messages, copies, pn);
    assert forall|i: int| 0 <= i < s.messages.len() implies !pn(#[trigger] s.messages[i]) by {
        assert(s.has_conversation(s.messages[i].conversation_id));
        let kc = choose|w: int|
            0 <= w < s.conversations.len() && (#[trigger] s.conversations[w]).id == s.messages[i].conversation_id;
        assert(s.conversations[kc].id < s.next_conversation_id);
    }
    lemma_filter_none(s.messages, pn);
    assert forall|i: int| 0 <= i < copies.len() implies pn(#[trigger] copies[i]) by {
        assert(copies[i].conversation_id == new_id);
    }
    lemma_filter_all(copies, pn);
    assert(t.conversation_seq(new_id) =~= copies);
    let dst = t.conversation_seq(new_id);
    assert(dst.len() == k + 1);
    assert forall|i: int| 0 <= i <= k implies (#[trigger] dst[i]).who == src[i].who && dst[i].body
        == src[i].body && dst[i].id >= s.next_message_id && dst[i].conversation_id == new_id by {
        assert(dst[i] == copies[i]);
        assert(copies[i].who == sel[i].who && copies[i].body == sel[i].body);
        assert(sel[i] == src.take(k + 1)[i]);
    }
    // The source's own sequence is untouched.
    Seq::filter_distributes_over_add(s.messages, copies, pm);
    assert forall|i: int| 0 <= i < copies.len() implies !pm(#[trigger] copies[i]) by {
        assert(copies[i].conversation_id == new_id);
        assert(s.has_conversation(source));
        let kc = choose|w: int|
            0 <= w < s.conversations.len() && (#[trigger] s.conversations[w]).id == source;
        assert(s.conversations[kc].id < s.next_conversation_id);
    }
    lemma_filter_none(copies, pm);
    assert(t.conversation_seq(source) =~= src);
    // The new conversation row records its lineage.
    assert(t.conversations[t.conversations.len() - 1].id == new_id);
    assert(t.has_conversation(new_id));
    let wc = choose|w: int|
        0 <= w < t.conversations.len() && (#[trigger] t.conversations[w]).id == new_id;
    assert forall|i: int| 0 <= i < s.conversations.len() implies (#[trigger] t.conversations[i]).id
        != new_id by {
        assert(t.conversations[i] == s.conversations[i]);
        assert(s.conversations[i].id < s.next_conversation_id);
    }
    assert(wc == t.conversations.len() - 1);
}

/// The last position at or after which nothing satisfies the predicate
/// marks the last element of the filtered sequence.
pub proof fn lemma_filter_last<A>(s: Seq<A>, p: spec_fn(A) -> bool, j: int)
    requires
        0 <= j < s.len(),
        p(s[j]),
        forall|i: int| j < i < s.len() ==> !p(#[trigger] s[i]),
    ensures
        s.filter(p).len() > 0,
        s.filter(p).last() == s[j],
    decreases s.len(),
{
    reveal(Seq::filter);
    let dl = s.drop_last();
    if j == s.len() - 1 {
        assert(s.filter(p) == dl.filter(p).push(s.last()));
    } else {
        assert(!p(s.last()));
        assert(s.filter(p) == dl.filter(p));
        lemma_filter_last(dl, p, j);
    }
}

/// A row of the conversation index: one conversation that has at least one
/// message, with the name of its fork source, if any, and the timestamp of
/// its latest message.
pub struct ConversationSummary {
    pub id: u64,
    pub name: String,
    pub source_conversation_id: Option<u64>,
    pub source_name: Option<String>,
    pub inserted_at: u64,
    pub last_message_at: u64,
}

/// Mathematical value of a `ConversationSummary`.
#[verifier::ext_equal]
pub struct SummaryView {
    pub id: u64,
    pub name: Seq<char>,
    pub source_conversation_id: Option<u64>,
    pub source_name: Option<Seq<char>>,
    pub inserted_at: u64,
    pub last_message_at: u64,
}

impl View for ConversationSummary {
    type V = SummaryView;

    open spec fn view(&self) -> SummaryView {
        SummaryView {
            id: self.id,
            name: self.name@,
            source_conversation_id: self.source_conversation_id,
            source_name: match self.source_name {
                Some(n) => Some(n@),
                None => None,
            },
            inserted_at: self.inserted_at,
            last_message_at: self.last_message_at,
        }
    }
}

impl DeepView for ConversationSummary {
    type V = SummaryView;

    open spec fn deep_view(&self) -> SummaryView {
        self@
    }
}

impl Clone for ConversationSummary {
    fn clone(&self) -> (r: Self)
        ensures
            r@ == self@,
    {
        ConversationSummary {
            id: self.id,
            name: self.name.clone(),
            source_conversation_id: self.source_conversation_id,
            source_name: match &self.source_name {
                Some(n) => Some(n.clone()),
                None => None,
            },
            inserted_at: self.inserted_at,
            last_message_at: self.last_message_at,
        }
    }
}

/// The index row of conversation `c` in store `s` (meaningful when `c` has
/// at least one message).
pub open spec fn spec_summary(s: StoreView, c: ConversationView) -> SummaryView {
    SummaryView {
        id: c.id,
        name: c.name,
        source_conversation_id: c.source_conversation_id,
        source_name: match c.source_conversation_id {
            Some(src) => if s.has_conversation(src) {
                Some(s.conversation(src).name)
            } else {
                None
            },
            None => None,
        },
        inserted_at: c.inserted_at,
        last_message_at: s.conversation_seq(c.id).last().inserted_at,
    }
}

/// The conversation index: every conversation that has at least one message,
/// newest conversation first.
pub open spec fn spec_overview(s: StoreView) -> Seq<SummaryView> {
    s.conversations.filter(|c: ConversationView| s.conversation_seq(c.id).len() > 0).map_values(
        |c: ConversationView| spec_summary(s, c),
    ).reverse()
}

impl Store {
    /// The position of the latest message of conversation `c`, if any.
    fn find_last_message_of(&self, c: u64) -> (r: Option<usize>)
        ensures
            match r {
                Some(j) => 0 <= j < self@.messages.len() && self@.messages[j as int].conversation_id
                    == c && (forall|i: int|
                    j < i < self@.messages.len() ==> (#[trigger] self@.messages[i]).conversation_id
                        != c),
                None => self@.conversation_seq(c).len() == 0,
            },
    {
        let mut j: usize = self.messages.len();
        while j > 0
            invariant
                0 <= j <= self@.messages.len(),
                self@.messages.len() == self.messages@.len(),
                forall|i: int|
                    j <= i < self@.messages.len() ==> (#[trigger] self@.messages[i]).conversation_id
                        != c,
            decreases j,
        {
            j = j - 1;
            if self.messages[j].conversation_id == c {
                return Some(j);
            }
        }
        proof {
            lemma_filter_none(self@.messages, |m: MessageView| m.conversation_id == c);
        }
        None
    }

    /// The conversation row with this identity together with the name of its
    /// selected model and, for a fork, the name of its source conversation.
    pub fn conversation_detail(&self, id: u64) -> (r: Option<ConversationDetail>)
        requires
            self@.wf(),
        ensures
            r is Some <==> self@.has_conversation(id),
            r matches Some(d) ==> ({
                let c = self@.conversation(id);
                &&& d.conversation@ == c
                &&& self@.has_model(c.model_id) && d.model_name@ == self@.model(c.model_id).name
                &&& (match c.source_conversation_id {
                    Some(src) => self@.has_conversation(src) && (d.source_name matches Some(nm)
                        && nm@ == self@.conversation(src).name),
                    None => d.source_name is None,
                })
            }),
    {
        let i = match self.find_conversation(id) {
            None => {
                return None;
            },
            Some(i) => i,
        };
        proof {
            let k = choose|k: int|
                0 <= k < self@.conversations.len() && (#[trigger] self@.conversations[k]).id == id;
            assert(self@.conversations[k].id == self@.conversations[i as int].id);
        }
        let c = self.conversations[i].clone();
        let mi = match self.find_model_by_id(c.model_id) {
            None => {
                proof {
                    assert(self@.has_model(self@.conversation(id).model_id));
                }
                return None;
            },
            Some(mi) => mi,
        };
        proof {
            let k = choose|k: int|
                0 <= k < self@.models.len() && (#[trigger] self@.models[k]).id == c.model_id;
            assert(self@.models[k].id == self@.models[mi as int].id);
        }
        let model_name = self.models[mi].name.clone();
        let source_name: Option<String> = match c.source_conversation_id {
            None => None,
            Some(src) => {
                match self.find_conversation(src) {
                    None => {
                        proof {
                            assert(self@.has_conversation(src));
                        }
                        return None;
                    },
                    Some(si) => {
                        proof {
                            let k = choose|k: int|
                                0 <= k < self@.conversations.len() && (
                                #[trigger] self@.conversations[k]).id == src;
                            assert(self@.conversations[k].id == self@.conversations[si as int].id);
                        }
                        Some(self.conversations[si].name.clone())
                    },
                }
            },
        };
        Some(ConversationDetail { conversation: c, model_name, source_name })
    }

    /// The conversation index: every conversation that has at least one
    /// message, newest conversation first (the store keeps conversations in
    /// ascending insertion order, so the reversal is the descending one),
    /// each with its latest message's timestamp and its fork source's name.
    pub fn conversations_overview(&self) -> (r: Vec<ConversationSummary>)
        requires
            self@.wf(),
        ensures
            r.deep_view() == spec_overview(self@),
    {
        let ghost keep = |c: ConversationView| self@.conversation_seq(c.id).len() > 0;
        let mut asc: Vec<ConversationSummary> = Vec::new();
        proof {
            assert(self@.conversations.take(0) =~= Seq::<ConversationView>::empty());
            assert(asc.deep_view() =~= self@.conversations.take(0).filter(
                |c: ConversationView| self@.conversation_seq(c.id).len() > 0,
            ).map_values(|c: ConversationView| spec_summary(self@, c)));
        }
        let mut i: usize = 0;
        while i < self.conversations.len()
            invariant
                0 <= i <= self@.conversations.len(),
                self@.conversations.len() == self.conversations@.len(),
                self@.wf(),
                asc.deep_view() == self@.conversations.take(i as int).filter(
                    |c: ConversationView| self@.conversation_seq(c.id).len() > 0,
                ).map_values(|c: ConversationView| spec_summary(self@, c)),
            decreases self@.conversations.len() - i,
        {
            let ghost t0 = self@.conversations.take(i as int);
            let ghost cv = self@.conversations[i as int];
            let ghost rv0 = asc.deep_view();
            proof {
                assert(self@.conversations.take(i as int + 1) =~= t0.push(cv));
                lemma_filter_push(
                    t0,
                    |c: ConversationView| self@.conversation_seq(c.id).len() > 0,
                    cv,
                );
            }
            let c = &self.conversations[i];
            match self.find_last_message_of(c.id) {
                None => {
                    proof {
                        assert(asc.deep_view() =~= self@.conversations.take(i as int + 1).filter(
                            |c: ConversationView| self@.conversation_seq(c.id).len() > 0,
                        ).map_values(|c: ConversationView| spec_summary(self@, c)));
                    }
                },
                Some(j) => {
                    proof {
                        lemma_filter_last(
                            self@.messages,
                            |m: MessageView| m.conversation_id == cv.id,
                            j as int,
                        );
                    }
                    let source_name: Option<String> = match c.source_conversation_id {
                        None => None,
                        Some(src) => {
                            match self.find_conversation(src) {
                                None => None,
                                Some(si) => {
                                    proof {
                                        let k = choose|k: int|
                                            0 <= k < self@.conversations.len() && (
                                            #[trigger] self@.conversations[k]).id == src;
                                        assert(self@.conversations[k].id
                                            == self@.conversations[si as int].id);
                                    }
                                    Some(self.conversations[si].name.clone())
                                },
                            }
                        },
                    };
                    let summary = ConversationSummary {
                        id: c.id,
                        name: c.name.clone(),
                        source_conversation_id: c.source_conversation_id,
                        source_name,
                        inserted_at: c.inserted_at,
                        last_message_at: self.messages[j].inserted_at,
                    };
                    let ghost sv = summary@;
                    asc.push(summary);
                    proof {
                        assert(sv =~= spec_summary(self@, cv));
                        assert(asc.deep_view() =~= rv0.push(sv));
                        assert(asc.deep_view() =~= self@.conversations.take(i as int + 1).filter(
                            |c: ConversationView| self@.conversation_seq(c.id).len() > 0,
                        ).map_values(|c: ConversationView| spec_summary(self@, c)));
                    }
                },
            }
            i = i + 1;
        }
        proof {
            assert(self@.conversations.take(self@.conversations.len() as int)
                =~= self@.conversations);
        }
        let ghost full = asc.deep_view();
        let mut r: Vec<ConversationSummary> = Vec::new();
        proof {
            assert(r.deep_view() =~= full.reverse().take(0));
        }
        let mut k: usize = 0;
        while k < asc.len()
            invariant
                0 <= k <= full.len(),
                asc.deep_view() == full,
                asc@.len() == full.len(),
                r.deep_view() == full.reverse().take(k as int),
            decreases full.len() - k,
        {
            let ghost rv0 = r.deep_view();
            let item = asc[asc.len() - 1 - k].clone();
            r.push(item);
            proof {
                assert(r.deep_view() =~= rv0.push(full[full.len() - 1 - k as int]));
                assert(r.deep_view() =~= full.reverse().take(k as int + 1));
            }
            k = k + 1;
        }
        proof {
            assert(full.reverse().take(full.len() as int) =~= full.reverse());
        }
        r
    }
}

/// A conversation row joined with the names its references stand for: the
/// selected model's name and, for a fork, the source conversation's name.
pub struct ConversationDetail {
    pub conversation: Conversation,
    pub model_name: String,
    pub source_name: Option<String>,
}

} // verus!
