//! The prompt builder: an ordered message history rendered as one
//! speaker-prefixed transcript string.
//!
//! The external generator receives the whole history as a single prompt,
//! one line per message, `<speaker>: <body>` each, and is expected to
//! continue the transcript. Building the prompt is pure: the result is a
//! function of the history alone.

use vstd::prelude::*;

use crate::speaker::spec_who_tag;
use crate::store::{Message, MessageView};

verus! {

/// The transcript line of one message: its speaker's tag, a separating
/// colon and space, its body, and a line break.
pub open spec fn spec_prompt_line(m: MessageView) -> Seq<char> {
    spec_who_tag(m.who) + ": "@ + m.body + "\n"@
}

/// The prompt of an ordered message history: its transcript lines
/// concatenated in history order.
pub open spec fn spec_prompt(ms: Seq<MessageView>) -> Seq<char>
    decreases ms.len(),
{
    if ms.len() == 0 {
        Seq::<char>::empty()
    } else {
        spec_prompt_line(ms[0]) + spec_prompt(ms.drop_first())
    }
}

/// Extending the history by one message appends exactly one transcript line.
pub proof fn lemma_prompt_push(ms: Seq<MessageView>, m: MessageView)
    ensures
        spec_prompt(ms.push(m)) == spec_prompt(ms) + spec_prompt_line(m),
    decreases ms.len(),
{
    if ms.len() == 0 {
        assert(ms.push(m).drop_first() =~= Seq::<MessageView>::empty());
        assert(ms.push(m)[0] == m);
        assert(spec_prompt(Seq::<MessageView>::empty()) =~= Seq::<char>::empty());
        assert(spec_prompt(ms.push(m)) =~= spec_prompt_line(m));
        assert(spec_prompt(ms) + spec_prompt_line(m) =~= spec_prompt_line(m));
    } else {
        assert(ms.push(m).drop_first() =~= ms.drop_first().push(m));
        assert(ms.push(m)[0] == ms[0]);
        lemma_prompt_push(ms.drop_first(), m);
        assert(spec_prompt_line(ms[0]) + (spec_prompt(ms.drop_first()) + spec_prompt_line(m)) =~= (
        spec_prompt_line(ms[0]) + spec_prompt(ms.drop_first())) + spec_prompt_line(m));
    }
}

/// Render an ordered message history as the generator's prompt.
pub fn build_prompt(messages: &Vec<Message>) -> (r: String)
    ensures
        r@ == spec_prompt(messages.deep_view()),
{
    let ghost dv = messages.deep_view();
    let mut out = String::new();
    proof {
        assert(dv.take(0) =~= Seq::<MessageView>::empty());
        assert(out@ =~= spec_prompt(dv.take(0)));
    }
    let mut i: usize = 0;
    while i < messages.len()
        invariant
            0 <= i <= dv.len(),
            dv == messages.deep_view(),
            dv.len() == messages@.len(),
            out@ == spec_prompt(dv.take(i as int)),
        decreases dv.len() - i,
    {
        let m = &messages[i];
        out.append(m.who.tag());
        out.append(": ");
        out.append(m.body.as_str());
        out.append("\n");
        proof {
            assert(dv.take(i as int + 1) =~= dv.take(i as int).push(dv[i as int]));
            lemma_prompt_push(dv.take(i as int), dv[i as int]);
            assert(out@ =~= spec_prompt(dv.take(i as int)) + spec_prompt_line(dv[i as int]));
        }
        i = i + 1;
    }
    proof {
        assert(dv.take(dv.len() as int) =~= dv);
    }
    out
}

} // verus!
