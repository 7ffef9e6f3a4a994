//! One extraction round trip, minus the transport: the session gate, the
//! collection and byte-bounding of the turn's text inputs, the state
//! machine that consumes the response event stream, and the cap on how
//! many candidates one turn may write.
use vstd::prelude::*;
use vstd::string::StringExecFns;

use crate::parse::{parse_candidates_spec, parse_memory_candidates};
use crate::text::{chars_to_string, str_to_chars, trim_chars, trim_spec};

verus! {

/// The byte budget for the extraction prompt's user text.
pub const MEMORIES_PROMPT_MAX_BYTES: usize = 2000;

/// How many new notes one turn may write; extra candidates are dropped.
pub const MAX_NEW_MEMORIES_PER_TURN: usize = 6;

/// How the hosting session was started, as far as this library needs to
/// know: extraction runs only for interactive kinds.
pub enum SessionSource {
    Cli,
    VsCode,
    Mcp,
    Exec,
    SubAgent,
}

/// Extraction is allowed unless the session comes from one of the two
/// automation sources.
pub fn should_record_memories(source: &SessionSource) -> (r: bool)
    ensures
        r == !(source is Exec || source is SubAgent),
{
    match source {
        SessionSource::Exec => false,
        SessionSource::SubAgent => false,
        _ => true,
    }
}

/// One turn input as this library reads it: text carries its content,
/// an image is opaque.
pub enum UserInput {
    Text { text: String },
    Image { image_url: String },
}

/// The texts that feed extraction: each text input whose trimmed content is
/// non-empty, unchanged and in order; everything else is dropped.
pub open spec fn collect_texts_spec(inputs: Seq<UserInput>) -> Seq<Seq<char>>
    decreases inputs.len(),
{
    if inputs.len() == 0 {
        Seq::empty()
    } else {
        let prev = collect_texts_spec(inputs.drop_last());
        match inputs.last() {
            UserInput::Text { text } => if trim_spec(text@).len() > 0 {
                prev.push(text@)
            } else {
                prev
            },
            _ => prev,
        }
    }
}

/// Keeps the text inputs with non-blank content, in input order.
pub fn collect_user_input_texts(inputs: &Vec<UserInput>) -> (r: Vec<String>)
    ensures
        r.deep_view() == collect_texts_spec(inputs@),
{
    let mut r: Vec<String> = Vec::new();
    let mut i: usize = 0;
    assert(inputs@.take(0) =~= Seq::<UserInput>::empty());
    while i < inputs.len()
        invariant
            i <= inputs.len(),
            r.deep_view() =~~= collect_texts_spec(inputs@.take(i as int)),
        decreases inputs.len() - i,
    {
        assert(inputs@.take(i as int + 1).drop_last() =~= inputs@.take(i as int));
        assert(inputs@.take(i as int + 1).last() == inputs@[i as int]);
        match &inputs[i] {
            UserInput::Text { text } => {
                let c = str_to_chars(text.as_str());
                let t = trim_chars(&c);
                if t.len() > 0 {
                    let ghost old_r = r.deep_view();
                    r.push(text.clone());
                    assert(r.deep_view() =~~= old_r.push(text@));
                }
            },
            _ => {},
        }
        i += 1;
    }
    assert(inputs@.take(inputs.len() as int) =~= inputs@);
    r
}

/// Texts joined with a separator between neighbours.
pub open spec fn join_with(ts: Seq<Seq<char>>, sep: Seq<char>) -> Seq<char>
    decreases ts.len(),
{
    if ts.len() == 0 {
        Seq::empty()
    } else if ts.len() == 1 {
        ts[0]
    } else {
        join_with(ts.drop_last(), sep) + sep + ts.last()
    }
}

/// Joins strings with a fixed separator.
pub fn join_strings(ts: &Vec<String>, sep: &str) -> (r: String)
    ensures
        r@ == join_with(ts.deep_view(), sep@),
{
    let ghost tds = ts.deep_view();
    let mut r = String::new();
    let mut i: usize = 0;
    assert(tds.take(0) =~= Seq::<Seq<char>>::empty());
    while i < ts.len()
        invariant
            i <= ts.len(),
            tds == ts.deep_view(),
            r@ =~= join_with(tds.take(i as int), sep@),
        decreases ts.len() - i,
    {
        assert(tds.take(i as int + 1).drop_last() =~= tds.take(i as int));
        assert(tds[i as int] == ts@[i as int]@);
        assert(tds.take(i as int + 1).last() == ts@[i as int]@);
        if i > 0 {
            r.append(sep);
        }
        r.append(ts[i].as_str());
        assert(r@ =~= join_with(tds.take(i as int + 1), sep@));
        i += 1;
    }
    assert(tds.take(ts.len() as int) =~= tds);
    r
}

/// The UTF-8 byte length of one character.
pub open spec fn utf8_len(c: char) -> int {
    let u = c as u32;
    if u < 0x80 {
        1
    } else if u < 0x800 {
        2
    } else if u < 0x10000 {
        3
    } else {
        4
    }
}

/// The UTF-8 byte length of a character sequence.
pub open spec fn utf8_len_seq(s: Seq<char>) -> int
    decreases s.len(),
{
    if s.len() == 0 {
        0int
    } else {
        utf8_len(s[0]) + utf8_len_seq(s.skip(1))
    }
}

pub proof fn lemma_utf8_len_seq_bounds(s: Seq<char>)
    ensures
        s.len() <= utf8_len_seq(s) <= 4 * s.len(),
    decreases s.len(),
{
    if s.len() > 0 {
        lemma_utf8_len_seq_bounds(s.skip(1));
    }
}

/// A sequence's byte length splits at any cut.
pub proof fn lemma_utf8_len_seq_split(s: Seq<char>, k: int)
    requires
        0 <= k <= s.len(),
    ensures
        utf8_len_seq(s) == utf8_len_seq(s.take(k)) + utf8_len_seq(s.skip(k)),
    decreases k,
{
    if k > 0 {
        lemma_utf8_len_seq_split(s.skip(1), k - 1);
        assert(s.take(k)[0] == s[0]);
        assert(s.take(k).skip(1) =~= s.skip(1).take(k - 1));
        assert(s.skip(k) =~= s.skip(1).skip(k - 1));
    } else {
        assert(s.take(0) =~= Seq::<char>::empty());
        assert(s.skip(0) =~= s);
    }
}

/// The longest prefix whose UTF-8 byte length stays within the budget.
pub open spec fn byte_budget_take(s: Seq<char>, budget: int) -> Seq<char>
    decreases s.len(),
{
    if s.len() == 0 {
        Seq::empty()
    } else if utf8_len(s[0]) > budget {
        Seq::empty()
    } else {
        seq![s[0]] + byte_budget_take(s.skip(1), budget - utf8_len(s[0]))
    }
}

/// What the budgeted prefix promises: it fits the budget, it is a prefix,
/// and a text that already fits is kept whole.
pub proof fn lemma_byte_budget_take(s: Seq<char>, budget: int)
    requires
        budget >= 0,
    ensures
        utf8_len_seq(byte_budget_take(s, budget)) <= budget,
        byte_budget_take(s, budget).is_prefix_of(s),
        utf8_len_seq(s) <= budget ==> byte_budget_take(s, budget) == s,
    decreases s.len(),
{
    if s.len() == 0 {
        assert(byte_budget_take(s, budget) =~= s);
    } else if utf8_len(s[0]) > budget {
        lemma_utf8_len_seq_bounds(s.skip(1));
        assert(byte_budget_take(s, budget).is_prefix_of(s));
    } else {
        lemma_byte_budget_take(s.skip(1), budget - utf8_len(s[0]));
        let tail = byte_budget_take(s.skip(1), budget - utf8_len(s[0]));
        let whole = seq![s[0]] + tail;
        assert(whole[0] == s[0]);
        assert(whole.skip(1) =~= tail);
        assert(utf8_len_seq(whole) == utf8_len(s[0]) + utf8_len_seq(tail));
        assert(whole.is_prefix_of(s)) by {
            assert(tail.is_prefix_of(s.skip(1)));
            assert(whole =~= s.take(whole.len() as int));
        }
        if utf8_len_seq(s) <= budget {
            assert(tail == s.skip(1));
            assert(whole =~= s);
        }
    }
}

/// Cuts characters to the longest prefix within a byte budget.
pub fn truncate_chars_to_bytes(s: &Vec<char>, budget: usize) -> (r: Vec<char>)
    ensures
        r@ == byte_budget_take(s@, budget as int),
{
    let mut r: Vec<char> = Vec::new();
    let mut used: usize = 0;
    let mut i: usize = 0;
    assert(s@.skip(0) =~= s@);
    while i < s.len()
        invariant
            i <= s.len(),
            used <= budget,
            r@ =~= s@.take(i as int),
            byte_budget_take(s@, budget as int) == r@ + byte_budget_take(
                s@.skip(i as int),
                budget - used,
            ),
        decreases s.len() - i,
    {
        let ghost rest = s@.skip(i as int);
        assert(rest[0] == s@[i as int]);
        assert(rest.skip(1) =~= s@.skip(i as int + 1));
        let c = s[i];
        let u: u32 = c as u32;
        let l: usize = if u < 0x80 {
            1
        } else if u < 0x800 {
            2
        } else if u < 0x10000 {
            3
        } else {
            4
        };
        assert(l == utf8_len(c));
        if l > budget - used {
            assert(byte_budget_take(rest, budget - used) =~= Seq::<char>::empty());
            assert(byte_budget_take(s@, budget as int) =~= r@);
            return r;
        }
        r.push(c);
        used = used + l;
        assert(seq![rest[0]] + byte_budget_take(rest.skip(1), budget - used) =~= r@.skip(
            i as int,
        ) + byte_budget_take(s@.skip(i as int + 1), budget - used)) by {
            assert(r@.skip(i as int) =~= seq![c]);
        }
        assert(byte_budget_take(s@, budget as int) =~= r@ + byte_budget_take(
            s@.skip(i as int + 1),
            budget - used,
        ));
        i += 1;
    }
    assert(s@.skip(s@.len() as int) =~= Seq::<char>::empty());
    assert(byte_budget_take(s@, budget as int) =~= r@);
    r
}

/// The extraction prompt's user text: the kept input texts joined by one
/// blank line, cut to the byte budget when longer; nothing when no text
/// input survives collection.
pub open spec fn extraction_input_spec(inputs: Seq<UserInput>) -> Option<Seq<char>> {
    let ts = collect_texts_spec(inputs);
    if ts.len() == 0 {
        None
    } else {
        let joined = join_with(ts, "\n\n"@);
        if utf8_len_seq(joined) > MEMORIES_PROMPT_MAX_BYTES {
            Some(byte_budget_take(joined, MEMORIES_PROMPT_MAX_BYTES as int))
        } else {
            Some(joined)
        }
    }
}

/// Builds the user text of the extraction prompt from the turn's inputs.
pub fn build_extraction_input(inputs: &Vec<UserInput>) -> (r: Option<String>)
    ensures
        r.deep_view() == extraction_input_spec(inputs@),
{
    let texts = collect_user_input_texts(inputs);
    if texts.len() == 0 {
        assert(collect_texts_spec(inputs@).len() == 0);
        return None;
    }
    assert(collect_texts_spec(inputs@).len() > 0);
    let joined = join_strings(&texts, "\n\n");
    let chars = str_to_chars(joined.as_str());
    let ghost jv = joined@;
    let mut used: usize = 0;
    let mut i: usize = 0;
    while i < chars.len()
        invariant
            i <= chars.len(),
            chars@ == jv,
            jv == join_with(collect_texts_spec(inputs@), "\n\n"@),
            collect_texts_spec(inputs@).len() > 0,
            used == utf8_len_seq(jv.take(i as int)),
            used <= MEMORIES_PROMPT_MAX_BYTES,
        decreases chars.len() - i,
    {
        let c = chars[i];
        let u: u32 = c as u32;
        let l: usize = if u < 0x80 {
            1
        } else if u < 0x800 {
            2
        } else if u < 0x10000 {
            3
        } else {
            4
        };
        proof {
            lemma_utf8_len_seq_split(jv.take(i as int + 1), i as int);
            assert(jv.take(i as int + 1).take(i as int) =~= jv.take(i as int));
            assert(jv.take(i as int + 1).skip(i as int) =~= seq![jv[i as int]]);
            assert(utf8_len_seq(seq![jv[i as int]]) == utf8_len(c)) by {
                assert(seq![jv[i as int]].skip(1) =~= Seq::<char>::empty());
                assert(utf8_len_seq(Seq::<char>::empty()) == 0);
                assert(seq![jv[i as int]][0] == c);
            }
        }
        if used + l > MEMORIES_PROMPT_MAX_BYTES {
            proof {
                lemma_utf8_len_seq_split(jv, i as int + 1);
                lemma_utf8_len_seq_bounds(jv.skip(i as int + 1));
            }
            assert(utf8_len_seq(jv) > MEMORIES_PROMPT_MAX_BYTES);
            let cut = truncate_chars_to_bytes(&chars, MEMORIES_PROMPT_MAX_BYTES);
            let out = chars_to_string(&cut);
            assert(collect_texts_spec(inputs@).len() > 0);
            assert(out@ == byte_budget_take(jv, MEMORIES_PROMPT_MAX_BYTES as int));
            return Some(out);
        }
        used = used + l;
        i += 1;
    }
    assert(jv.take(chars@.len() as int) =~= jv);
    assert(utf8_len_seq(jv) <= MEMORIES_PROMPT_MAX_BYTES);
    Some(joined)
}

/// Where one extraction's stream consumption stands.
#[derive(PartialEq, Eq, Structural, Clone, Copy, Debug)]
pub enum ExtractionState {
    Streaming,
    Completed,
    Aborted,
}

/// One arrived response event, reduced to what the extraction reads: a
/// finished message item with its decoded text, a raw text delta, the two
/// bookkeeping snapshots, or anything else.
pub enum StreamEvent {
    MessageDone { text: Option<String> },
    OtherItemDone,
    TextDelta { delta: String },
    RateLimits,
    Completed,
    Other,
}

/// What the driver owes after handing one event in: carry on, forward the
/// rate-limit snapshot, or forward the token usage and stop — the stream
/// has delivered its completion.
#[derive(PartialEq, Eq, Structural, Clone, Copy, Debug)]
pub enum StreamAction {
    Continue,
    ForwardRateLimits,
    ForwardUsageAndFinish,
}

/// The state machine of one extraction's stream consumption. The driver
/// feeds every event in arrival order and performs the returned action;
/// on a transport error, or when the stream closes without a completion
/// event, it calls [`Extraction::abort`] and writes nothing.
pub struct Extraction {
    pub state: ExtractionState,
    pub output_items: Vec<String>,
    pub streamed_text: String,
}

impl Extraction {
    /// A fresh consumption: streaming, nothing seen yet.
    pub fn new() -> (r: Extraction)
        ensures
            r.state is Streaming,
            r.output_items.deep_view() == Seq::<Seq<char>>::empty(),
            r.streamed_text@ == Seq::<char>::empty(),
    {
        let r = Extraction { state: ExtractionState::Streaming, output_items: Vec::new(), streamed_text: String::new() };
        assert(r.output_items.deep_view() =~= Seq::<Seq<char>>::empty());
        r
    }

    /// Feeds one arrived event: a finished message item's text is recorded,
    /// a delta extends the raw accumulator, bookkeeping events are handed
    /// back for forwarding, a completion ends the stream with success, and
    /// unrecognized events are ignored.
    pub fn on_event(&mut self, ev: StreamEvent) -> (a: StreamAction)
        requires
            old(self).state is Streaming,
        ensures
            match ev {
                StreamEvent::MessageDone { text: t } => {
                    &&& final(self).state is Streaming
                    &&& final(self).streamed_text == old(self).streamed_text
                    &&& match t {
                        Some(s) => final(self).output_items.deep_view() == old(
                            self,
                        ).output_items.deep_view().push(s@),
                        None => final(self).output_items == old(self).output_items,
                    }
                    &&& a is Continue
                },
                StreamEvent::TextDelta { delta: d } => {
                    &&& final(self).state is Streaming
                    &&& final(self).output_items == old(self).output_items
                    &&& final(self).streamed_text@ == old(self).streamed_text@ + d@
                    &&& a is Continue
                },
                StreamEvent::RateLimits => {
                    &&& *final(self) == (Extraction {
                        state: ExtractionState::Streaming,
                        ..*old(self)
                    })
                    &&& a is ForwardRateLimits
                },
                StreamEvent::Completed => {
                    &&& *final(self) == (Extraction {
                        state: ExtractionState::Completed,
                        ..*old(self)
                    })
                    &&& a is ForwardUsageAndFinish
                },
                _ => {
                    &&& *final(self) == (Extraction { state: ExtractionState::Streaming, ..*old(self) })
                    &&& a is Continue
                },
            },
    {
        match ev {
            StreamEvent::MessageDone { text } => {
                match text {
                    Some(s) => {
                        let ghost old_items = self.output_items.deep_view();
                        let ghost sv = s@;
                        self.output_items.push(s);
                        assert(self.output_items.deep_view() =~~= old_items.push(sv));
                    },
                    None => {},
                }
                StreamAction::Continue
            },
            StreamEvent::TextDelta { delta } => {
                self.streamed_text.append(delta.as_str());
                StreamAction::Continue
            },
            StreamEvent::RateLimits => StreamAction::ForwardRateLimits,
            StreamEvent::Completed => {
                self.state = ExtractionState::Completed;
                StreamAction::ForwardUsageAndFinish
            },
            _ => StreamAction::Continue,
        }
    }

    /// The transport failed or the stream closed without a completion
    /// event: the extraction is abandoned and nothing is written.
    pub fn abort(&mut self)
        ensures
            *final(self) == (Extraction { state: ExtractionState::Aborted, ..*old(self) }),
    {
        self.state = ExtractionState::Aborted;
    }

    /// The text handed to the candidate parser: the finished items' texts
    /// joined by a newline when any exist, else the accumulated deltas.
    pub fn raw_output(&self) -> (r: String)
        ensures
            r@ == raw_output_spec(self.output_items.deep_view(), self.streamed_text@),
    {
        if self.output_items.len() == 0 {
            let out = self.streamed_text.clone();
            assert(self.output_items.deep_view().len() == 0);
            out
        } else {
            join_strings(&self.output_items, "\n")
        }
    }
}

/// Structured output wins over raw deltas: item texts joined by newline
/// when any item finished, else the delta accumulator.
pub open spec fn raw_output_spec(items: Seq<Seq<char>>, streamed: Seq<char>) -> Seq<char> {
    if items.len() == 0 {
        streamed
    } else {
        join_with(items, "\n"@)
    }
}

/// The candidate batch one turn may write: the parsed candidates, cut to
/// the first six; extras are dropped, never rotated in.
pub open spec fn capped_candidates_spec(text: Seq<char>) -> Seq<Seq<char>> {
    let c = parse_candidates_spec(text);
    if c.len() > MAX_NEW_MEMORIES_PER_TURN {
        c.take(MAX_NEW_MEMORIES_PER_TURN as int)
    } else {
        c
    }
}

/// Parses the extraction's raw output and caps the batch before any write.
pub fn candidates_for_write(raw_output: &str) -> (r: Vec<String>)
    ensures
        r.deep_view() == capped_candidates_spec(raw_output@),
        r@.len() <= MAX_NEW_MEMORIES_PER_TURN,
{
    let mut v = parse_memory_candidates(raw_output);
    let ghost all = v.deep_view();
    if v.len() > MAX_NEW_MEMORIES_PER_TURN {
        v.truncate(MAX_NEW_MEMORIES_PER_TURN);
        assert(v.deep_view() =~~= all.take(MAX_NEW_MEMORIES_PER_TURN as int));
    }
    v
}

} // verus!
