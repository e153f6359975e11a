//! The generation client's decoding pipeline.
//!
//! The external generator answers a streaming call with newline-delimited
//! records, each carrying an incremental text fragment and a completion
//! flag; the transport chunks the byte stream arbitrarily. This module
//! reassembles chunks into lines, parses each line independently, and
//! normalizes the records into events: `More` for a fragment, one terminal
//! `Done` for the completion flag, nothing further afterwards. A line that
//! does not parse is skipped — graceful degradation, not an error.

use vstd::prelude::*;

verus! {

/// The newline byte that delimits records in the generator's stream.
pub const RECORD_SEPARATOR: u8 = 10;

/// One normalized generation event: an incremental text fragment, or the
/// completion signal after which no event follows.
pub enum GenEvent {
    More { text: String },
    Done,
}

/// Mathematical value of a `GenEvent`.
pub enum EventView {
    More { text: Seq<char> },
    Done,
}

impl View for GenEvent {
    type V = EventView;

    open spec fn view(&self) -> EventView {
        match self {
            GenEvent::More { text } => EventView::More { text: text@ },
            GenEvent::Done => EventView::Done,
        }
    }
}

impl DeepView for GenEvent {
    type V = EventView;

    open spec fn deep_view(&self) -> EventView {
        self@
    }
}

impl Clone for GenEvent {
    fn clone(&self) -> (r: Self)
        ensures
            r@ == self@,
    {
        match self {
            GenEvent::More { text } => GenEvent::More { text: text.clone() },
            GenEvent::Done => GenEvent::Done,
        }
    }
}

/// The record a line of the generator's stream parses to, if any: the text
/// fragment and the completion flag.
pub uninterp spec fn chat_record_of(line: Seq<u8>) -> Option<(Seq<char>, bool)>;

/// Relies on serde_json::from_slice and serde_json::Value's accessors
/// (get, and matching the String and Bool variants): whether a line parses
/// as a record with a string under "response" and a boolean under "done" —
/// and what those two fields hold — depends on the line's bytes alone.
#[verifier::external_body]
fn parse_chat_line(line: &[u8]) -> (r: Option<(String, bool)>)
    ensures
        r is Some <==> chat_record_of(line@) is Some,
        r matches Some((t, d)) ==> chat_record_of(line@) == Some((t@, d)),
{
    let v: serde_json::Value = match serde_json::from_slice(line) {
        Ok(v) => v,
        Err(_) => return None,
    };
    let text = match v.get("response") {
        Some(serde_json::Value::String(s)) => s.clone(),
        _ => return None,
    };
    match v.get("done") {
        Some(serde_json::Value::Bool(b)) => Some((text, *b)),
        _ => None,
    }
}

/// The event a line normalizes to: `Done` when the record's completion flag
/// is set, `More` with the record's fragment otherwise, nothing for a line
/// that does not parse.
pub open spec fn event_of_line(line: Seq<u8>) -> Option<EventView> {
    match chat_record_of(line) {
        None => None,
        Some(p) => if p.1 {
            Some(EventView::Done)
        } else {
            Some(EventView::More { text: p.0 })
        },
    }
}

/// Normalize one parsed record: a set completion flag is the terminal
/// `Done`, anything else carries its fragment as `More`; an unparsed line
/// yields nothing.
pub fn classify_record(parsed: Option<(String, bool)>) -> (r: Option<GenEvent>)
    ensures
        match parsed {
            None => r is None,
            Some((t, d)) => r == if d {
                Some(GenEvent::Done)
            } else {
                Some((GenEvent::More { text: t }))
            },
        },
{
    match parsed {
        None => None,
        Some((t, d)) => if d {
            Some(GenEvent::Done)
        } else {
            Some(GenEvent::More { text: t })
        },
    }
}

/// Parse and normalize one line of the stream.
pub fn event_for_line(line: &[u8]) -> (r: Option<GenEvent>)
    ensures
        r is Some <==> event_of_line(line@) is Some,
        r matches Some(e) ==> event_of_line(line@) == Some(e@),
{
    classify_record(parse_chat_line(line))
}

/// The position of the first record separator in `s`; the length of `s`
/// when there is none.
pub open spec fn first_nl(s: Seq<u8>) -> nat
    decreases s.len(),
{
    if s.len() == 0 {
        0
    } else if s[0] == RECORD_SEPARATOR {
        0
    } else {
        1 + first_nl(s.drop_first())
    }
}

/// `first_nl` points at the first separator: nothing before it is one, and
/// it is one unless it is the end.
pub proof fn lemma_first_nl(s: Seq<u8>)
    ensures
        first_nl(s) <= s.len(),
        forall|j: int| 0 <= j < first_nl(s) ==> s[j] != RECORD_SEPARATOR,
        first_nl(s) < s.len() ==> s[first_nl(s) as int] == RECORD_SEPARATOR,
    decreases s.len(),
{
    if s.len() == 0 {
    } else if s[0] == RECORD_SEPARATOR {
    } else {
        lemma_first_nl(s.drop_first());
        assert forall|j: int| 0 <= j < first_nl(s) implies s[j] != RECORD_SEPARATOR by {
            if j > 0 {
                assert(s.drop_first()[j - 1] == s[j]);
                assert(s.drop_first()[j - 1] != RECORD_SEPARATOR);
            }
        }
        if first_nl(s) < s.len() {
            assert(s.drop_first()[first_nl(s.drop_first()) as int] == s[first_nl(s) as int]);
        }
    }
}

/// The complete lines of `s`: every separator-terminated run of bytes, in
/// order, without its separator.
pub open spec fn complete_lines(s: Seq<u8>) -> Seq<Seq<u8>>
    decreases s.len(),
{
    let i = first_nl(s) as int;
    if i < s.len() {
        seq![s.take(i)] + complete_lines(s.skip(i + 1))
    } else {
        Seq::<Seq<u8>>::empty()
    }
}

/// What follows the last separator of `s`: the bytes of a line still
/// incomplete.
pub open spec fn line_rest(s: Seq<u8>) -> Seq<u8>
    decreases s.len(),
{
    let i = first_nl(s) as int;
    if i < s.len() {
        line_rest(s.skip(i + 1))
    } else {
        s
    }
}

/// The incomplete tail holds no separator.
pub proof fn lemma_line_rest_no_nl(s: Seq<u8>)
    ensures
        first_nl(line_rest(s)) == line_rest(s).len(),
    decreases s.len(),
{
    lemma_first_nl(s);
    let i = first_nl(s) as int;
    if i < s.len() {
        lemma_line_rest_no_nl(s.skip(i + 1));
    } else {
        assert(forall|j: int| 0 <= j < s.len() ==> s[j] != RECORD_SEPARATOR);
        lemma_first_nl_total(s);
    }
}

/// A sequence without separators has `first_nl` at its end.
proof fn lemma_first_nl_total(s: Seq<u8>)
    requires
        forall|j: int| 0 <= j < s.len() ==> s[j] != RECORD_SEPARATOR,
    ensures
        first_nl(s) == s.len(),
    decreases s.len(),
{
    if s.len() == 0 {
    } else {
        assert(forall|j: int| 0 <= j < s.drop_first().len() ==> s.drop_first()[j] == s[j + 1]);
        lemma_first_nl_total(s.drop_first());
    }
}

/// How the first separator of a concatenation relates to the parts.
proof fn lemma_first_nl_concat(a: Seq<u8>, b: Seq<u8>)
    ensures
        first_nl(a) < a.len() ==> first_nl(a + b) == first_nl(a),
        first_nl(a) == a.len() ==> first_nl(a + b) == a.len() + first_nl(b),
    decreases a.len(),
{
    lemma_first_nl(a);
    if a.len() == 0 {
        assert(a + b =~= b);
    } else if a[0] == RECORD_SEPARATOR {
        assert((a + b)[0] == RECORD_SEPARATOR);
    } else {
        assert((a + b)[0] == a[0]);
        assert((a + b).drop_first() =~= a.drop_first() + b);
        lemma_first_nl_concat(a.drop_first(), b);
    }
}

/// Splitting the input anywhere splits the decoding: the lines of the whole
/// input are the lines of the first part followed by the lines of its
/// incomplete tail joined with the second part, and the incomplete tails
/// agree likewise. This is why transport chunking cannot change what a
/// streamed reply decodes to.
pub proof fn lemma_lines_split(a: Seq<u8>, b: Seq<u8>)
    ensures
        complete_lines(a + b) == complete_lines(a) + complete_lines(line_rest(a) + b),
        line_rest(a + b) == line_rest(line_rest(a) + b),
    decreases a.len(),
{
    lemma_first_nl(a);
    lemma_first_nl_concat(a, b);
    let i = first_nl(a) as int;
    if i < a.len() {
        assert((a + b).take(i) =~= a.take(i));
        assert((a + b).skip(i + 1) =~= a.skip(i + 1) + b);
        lemma_lines_split(a.skip(i + 1), b);
        assert(complete_lines(a + b) == seq![a.take(i)] + complete_lines(a.skip(i + 1) + b));
        assert(line_rest(a) == line_rest(a.skip(i + 1)));
        assert(seq![a.take(i)] + (complete_lines(a.skip(i + 1)) + complete_lines(
            line_rest(a) + b,
        )) =~= (seq![a.take(i)] + complete_lines(a.skip(i + 1))) + complete_lines(
            line_rest(a) + b,
        ));
    } else {
        assert(line_rest(a) == a);
        assert(complete_lines(a) =~= Seq::<Seq<u8>>::empty());
        assert(Seq::<Seq<u8>>::empty() + complete_lines(a + b) =~= complete_lines(a + b));
    }
}

/// Appending one byte: a separator completes the pending line, any other
/// byte extends it.
pub proof fn lemma_lines_snoc(s: Seq<u8>, x: u8)
    ensures
        x == RECORD_SEPARATOR ==> complete_lines(s.push(x)) == complete_lines(s).push(line_rest(s))
            && line_rest(s.push(x)) == Seq::<u8>::empty(),
        x != RECORD_SEPARATOR ==> complete_lines(s.push(x)) == complete_lines(s) && line_rest(
            s.push(x),
        ) == line_rest(s).push(x),
{
    assert(s.push(x) =~= s + seq![x]);
    lemma_lines_split(s, seq![x]);
    lemma_line_rest_no_nl(s);
    let r = line_rest(s) + seq![x];
    lemma_first_nl_concat(line_rest(s), seq![x]);
    if x == RECORD_SEPARATOR {
        assert(seq![x][0] == RECORD_SEPARATOR);
        assert(first_nl(seq![x]) == 0);
        assert(first_nl(r) == line_rest(s).len());
        assert(first_nl(r) < r.len());
        assert(r.take(line_rest(s).len() as int) =~= line_rest(s));
        assert(r.skip(line_rest(s).len() as int + 1) =~= Seq::<u8>::empty());
        assert(first_nl(Seq::<u8>::empty()) == 0);
        assert(complete_lines(Seq::<u8>::empty()) =~= Seq::<Seq<u8>>::empty());
        assert(line_rest(Seq::<u8>::empty()) == Seq::<u8>::empty());
        assert(complete_lines(r) =~= seq![line_rest(s)]);
        assert(complete_lines(s) + seq![line_rest(s)] =~= complete_lines(s).push(line_rest(s)));
        assert(line_rest(r) == Seq::<u8>::empty());
    } else {
        assert(seq![x][0] != RECORD_SEPARATOR);
        assert(seq![x].drop_first() =~= Seq::<u8>::empty());
        assert(first_nl(Seq::<u8>::empty()) == 0);
        assert(first_nl(seq![x]) == 1);
        assert(first_nl(r) == r.len());
        assert(complete_lines(r) =~= Seq::<Seq<u8>>::empty());
        assert(complete_lines(s) + Seq::<Seq<u8>>::empty() =~= complete_lines(s));
        assert(line_rest(r) == r);
        assert(r =~= line_rest(s).push(x));
    }
}

/// Reassembles a byte stream, chunked arbitrarily by the transport, into
/// separator-terminated lines, keeping the bytes of an incomplete line
/// pending until its separator arrives.
pub struct LineDecoder {
    buf: Vec<u8>,
}

impl LineDecoder {
    /// The bytes of the incomplete line received so far.
    pub closed spec fn pending(self) -> Seq<u8> {
        self.buf@
    }

    /// A decoder with nothing pending.
    pub fn new() -> (d: Self)
        ensures
            d.pending() == Seq::<u8>::empty(),
    {
        LineDecoder { buf: Vec::new() }
    }

    /// Take in one transport chunk; out come the lines it completes, and
    /// the tail stays pending.
    pub fn feed(&mut self, chunk: &[u8]) -> (lines: Vec<Vec<u8>>)
        ensures
            lines.deep_view() == complete_lines(old(self).pending() + chunk@),
            final(self).pending() == line_rest(old(self).pending() + chunk@),
    {
        let ghost total = self.buf@ + chunk@;
        let n0 = self.buf.len();
        let mut lines: Vec<Vec<u8>> = Vec::new();
        let mut cur: Vec<u8> = Vec::new();
        proof {
            assert(total.take(0) =~= Seq::<u8>::empty());
            assert(first_nl(Seq::<u8>::empty()) == 0);
            assert(complete_lines(Seq::<u8>::empty()) =~= Seq::<Seq<u8>>::empty());
            assert(lines.deep_view() =~~= complete_lines(total.take(0)));
            assert(cur@ =~= line_rest(total.take(0)));
        }
        let mut i: usize = 0;
        while i < n0
            invariant
                0 <= i <= n0,
                n0 == self.buf@.len(),
                total == self.buf@ + chunk@,
                total.len() == n0 + chunk@.len(),
                lines.deep_view() == complete_lines(total.take(i as int)),
                cur@ == line_rest(total.take(i as int)),
            decreases n0 - i,
        {
            let b = self.buf[i];
            proof {
                assert(total[i as int] == b);
                assert(total.take(i as int + 1) =~= total.take(i as int).push(b));
                lemma_lines_snoc(total.take(i as int), b);
            }
            if b == RECORD_SEPARATOR {
                let ghost done_line = cur@;
                lines.push(cur);
                cur = Vec::new();
                proof {
                    assert(lines.deep_view() =~~= complete_lines(total.take(i as int)).push(
                        done_line,
                    ));
                    assert(cur@ =~= line_rest(total.take(i as int + 1)));
                }
            } else {
                cur.push(b);
            }
            i = i + 1;
        }
        let mut j: usize = 0;
        while j < chunk.len()
            invariant
                0 <= j <= chunk@.len(),
                n0 == self.buf@.len(),
                total == self.buf@ + chunk@,
                total.len() == n0 + chunk@.len(),
                lines.deep_view() == complete_lines(total.take(n0 + j as int)),
                cur@ == line_rest(total.take(n0 + j as int)),
            decreases chunk@.len() - j,
        {
            let b = chunk[j];
            proof {
                assert(total[n0 + j as int] == b);
                assert(total.take(n0 + j as int + 1) =~= total.take(n0 + j as int).push(b));
                lemma_lines_snoc(total.take(n0 + j as int), b);
            }
            if b == RECORD_SEPARATOR {
                let ghost done_line = cur@;
                lines.push(cur);
                cur = Vec::new();
                proof {
                    assert(lines.deep_view() =~~= complete_lines(total.take(n0 + j as int)).push(
                        done_line,
                    ));
                    assert(cur@ =~= line_rest(total.take(n0 + j as int + 1)));
                }
            } else {
                cur.push(b);
            }
            j = j + 1;
        }
        proof {
            assert(total.take(total.len() as int) =~= total);
        }
        self.buf = cur;
        lines
    }
}

/// The normalized events of a run of lines: unparsable lines are skipped,
/// each fragment record yields `More`, and the first completion record
/// yields the terminal `Done`, after which no line is considered.
pub open spec fn events_of_lines(lines: Seq<Seq<u8>>) -> Seq<EventView>
    decreases lines.len(),
{
    if lines.len() == 0 {
        Seq::<EventView>::empty()
    } else {
        match event_of_line(lines[0]) {
            None => events_of_lines(lines.drop_first()),
            Some(e) => if e is Done {
                seq![EventView::Done]
            } else {
                seq![e] + events_of_lines(lines.drop_first())
            },
        }
    }
}

/// Whether a run of lines reaches a completion record.
pub open spec fn lines_reach_done(lines: Seq<Seq<u8>>) -> bool
    decreases lines.len(),
{
    if lines.len() == 0 {
        false
    } else {
        match event_of_line(lines[0]) {
            None => lines_reach_done(lines.drop_first()),
            Some(e) => if e is Done {
                true
            } else {
                lines_reach_done(lines.drop_first())
            },
        }
    }
}

/// Normalizing a run of lines piecewise gives the events of the whole run:
/// the first part's events, then — unless the first part already reached the
/// terminal completion record — the second part's. Together with the line
/// decoder's split law, feeding a generation's stream chunk by chunk yields
/// exactly the events of feeding it whole, however the transport cut it.
pub proof fn lemma_events_concat(l1: Seq<Seq<u8>>, l2: Seq<Seq<u8>>)
    ensures
        events_of_lines(l1 + l2) == events_of_lines(l1) + (if lines_reach_done(l1) {
            Seq::<EventView>::empty()
        } else {
            events_of_lines(l2)
        }),
        lines_reach_done(l1 + l2) == (lines_reach_done(l1) || lines_reach_done(l2)),
    decreases l1.len(),
{
    if l1.len() == 0 {
        assert(l1 + l2 =~= l2);
        assert(events_of_lines(l1) =~= Seq::<EventView>::empty());
        assert(Seq::<EventView>::empty() + events_of_lines(l2) =~= events_of_lines(l2));
    } else {
        assert((l1 + l2)[0] == l1[0]);
        assert((l1 + l2).drop_first() =~= l1.drop_first() + l2);
        lemma_events_concat(l1.drop_first(), l2);
        match event_of_line(l1[0]) {
            None => {},
            Some(e) => {
                if e is Done {
                } else {
                    if lines_reach_done(l1.drop_first()) {
                        assert(seq![e] + (events_of_lines(l1.drop_first())
                            + Seq::<EventView>::empty()) =~= (seq![e] + events_of_lines(
                            l1.drop_first(),
                        )) + Seq::<EventView>::empty());
                    } else {
                        assert(seq![e] + (events_of_lines(l1.drop_first()) + events_of_lines(l2))
                            =~= (seq![e] + events_of_lines(l1.drop_first())) + events_of_lines(
                            l2,
                        ));
                    }
                }
            },
        }
    }
}

/// The full normalizer of one generation's stream: chunks in, events out.
/// After the terminal `Done` it emits nothing more, whatever else arrives.
pub struct ReplyDecoder {
    lines: LineDecoder,
    finished: bool,
}

impl ReplyDecoder {
    /// The bytes of the incomplete line received so far.
    pub closed spec fn pending(self) -> Seq<u8> {
        self.lines.pending()
    }

    /// Whether the terminal `Done` has been emitted.
    pub closed spec fn is_finished(self) -> bool {
        self.finished
    }

    /// A decoder at the start of a generation.
    pub fn new() -> (d: Self)
        ensures
            d.pending() == Seq::<u8>::empty(),
            !d.is_finished(),
    {
        ReplyDecoder { lines: LineDecoder::new(), finished: false }
    }

    /// Take in one transport chunk; out come the normalized events of the
    /// lines it completes — none once the generation has finished.
    pub fn feed(&mut self, chunk: &[u8]) -> (events: Vec<GenEvent>)
        ensures
            ({
                let ls = complete_lines(old(self).pending() + chunk@);
                &&& final(self).pending() == line_rest(old(self).pending() + chunk@)
                &&& old(self).is_finished() ==> events.deep_view() == Seq::<EventView>::empty()
                    && final(self).is_finished()
                &&& !old(self).is_finished() ==> events.deep_view() == events_of_lines(ls) && (
                final(self).is_finished() <==> lines_reach_done(ls))
            }),
    {
        let ls = self.lines.feed(chunk);
        let ghost pend = self.lines.pending();
        let ghost lsv = ls.deep_view();
        let mut events: Vec<GenEvent> = Vec::new();
        if self.finished {
            proof {
                assert(events.deep_view() =~= Seq::<EventView>::empty());
            }
            return events;
        }
        proof {
            assert(lsv.skip(0) =~= lsv);
            assert(events.deep_view() =~= Seq::<EventView>::empty());
        }
        let mut i: usize = 0;
        while i < ls.len()
            invariant
                0 <= i <= lsv.len(),
                lsv == ls.deep_view(),
                lsv.len() == ls@.len(),
                self.lines.pending() == pend,
                self.finished ==> events.deep_view() == events_of_lines(lsv) && lines_reach_done(
                    lsv,
                ),
                !self.finished ==> events.deep_view() + events_of_lines(lsv.skip(i as int))
                    == events_of_lines(lsv) && (lines_reach_done(lsv) <==> lines_reach_done(
                    lsv.skip(i as int),
                )),
            decreases lsv.len() - i,
        {
            if !self.finished {
                let ghost rest = lsv.skip(i as int);
                let ghost ev0 = events.deep_view();
                proof {
                    assert(rest[0] == lsv[i as int]);
                    assert(lsv[i as int] =~= ls@[i as int]@);
                    assert(rest.drop_first() =~= lsv.skip(i as int + 1));
                }
                match event_for_line(ls[i].as_slice()) {
                    None => {
                        proof {
                            assert(events_of_lines(rest) == events_of_lines(
                                lsv.skip(i as int + 1),
                            ));
                        }
                    },
                    Some(e) => {
                        let done = match &e {
                            GenEvent::Done => true,
                            GenEvent::More { .. } => false,
                        };
                        let ghost evv = e@;
                        events.push(e);
                        proof {
                            assert(events.deep_view() =~= ev0.push(evv));
                        }
                        if done {
                            self.finished = true;
                            proof {
                                assert(events_of_lines(rest) =~= seq![EventView::Done]);
                                assert(ev0.push(evv) =~= ev0 + seq![EventView::Done]);
                                assert(events.deep_view() =~= events_of_lines(lsv));
                            }
                        } else {
                            proof {
                                assert(events_of_lines(rest) == seq![evv] + events_of_lines(
                                    lsv.skip(i as int + 1),
                                ));
                                assert(ev0.push(evv) + events_of_lines(lsv.skip(i as int + 1))
                                    =~= ev0 + events_of_lines(rest));
                            }
                        }
                    },
                }
            }
            i = i + 1;
        }
        proof {
            if !self.finished {
                assert(lsv.skip(lsv.len() as int) =~= Seq::<Seq<u8>>::empty());
                assert(events.deep_view() + Seq::<EventView>::empty() =~= events.deep_view());
            }
        }
        events
    }
}

} // verus!
