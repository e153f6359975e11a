//! The two speakers of a conversation, with their serialized tags.
//!
//! A message is authored either by the human or by the model. The store keeps
//! the speaker as a text tag with exactly two accepted values; this module
//! fixes the tag of each speaker and validates tags read back at the store
//! boundary.

use vstd::prelude::*;

verus! {

/// Who authored a message: the human (`Me`) or the model (`Llama`).
#[derive(Clone, Copy, Debug, PartialEq, Eq, Structural)]
pub enum Who {
    Me,
    Llama,
}

/// The serialized tag of a speaker.
pub open spec fn spec_who_tag(w: Who) -> Seq<char> {
    match w {
        Who::Me => "Me"@,
        Who::Llama => "LlaMA"@,
    }
}

/// The speaker a tag stands for, if it is one of the two accepted tags.
pub open spec fn spec_parse_who(tag: Seq<char>) -> Option<Who> {
    if tag == spec_who_tag(Who::Me) {
        Some(Who::Me)
    } else if tag == spec_who_tag(Who::Llama) {
        Some(Who::Llama)
    } else {
        None
    }
}

impl Who {
    /// The serialized tag of this speaker, used both in transcripts and in
    /// the persisted rows.
    pub fn tag(&self) -> (r: &'static str)
        ensures
            r@ == spec_who_tag(*self),
    {
        match self {
            Who::Me => "Me",
            Who::Llama => "LlaMA",
        }
    }
}

/// Validates a serialized speaker tag at the store boundary.
pub fn parse_who(tag: &str) -> (r: Option<Who>)
    ensures
        r == spec_parse_who(tag@),
{
    let t = tag.to_owned();
    if t == String::from_str("Me") {
        Some(Who::Me)
    } else if t == String::from_str("LlaMA") {
        Some(Who::Llama)
    } else {
        None
    }
}

/// Tags are faithful: serializing a speaker and validating the tag gives the
/// speaker back, and the two speakers have distinct tags.
pub proof fn lemma_who_tag_round_trip(w: Who)
    ensures
        spec_parse_who(spec_who_tag(w)) == Some(w),
        spec_who_tag(Who::Me) != spec_who_tag(Who::Llama),
{
    reveal_strlit("Me");
    reveal_strlit("LlaMA");
    assert(spec_who_tag(Who::Me).len() == 2);
    assert(spec_who_tag(Who::Llama).len() == 5);
}

} // verus!
