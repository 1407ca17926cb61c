//! What is said to a text-generation service, and what is read from its event stream.

use crate::conversation::{Role, text_view};
use crate::text::{
    leading, lemma_leading_is, line_views, lines, push_chars, same_text, split_lines,
    starts_with, starts_with_at, text_views, to_chars, to_text, trim, trimmed,
};
use vstd::prelude::*;
use vstd::string::StringExecFns;

verus! {

/// The instruction that goes with each message of the user.
pub open spec fn system_instruction() -> Seq<char> {
    "You are a helpful assistant. Always respond in markdown format. When referring to information you've previously provided in this conversation, reference the relevant sections instead of repeating the information. Be concise and avoid unnecessary repetition."@
}

/// A turn's content as it is sent: the user's with the instruction after it,
/// the assistant's as it is.
pub open spec fn sent_content(role: Role, content: Seq<char>) -> Seq<char> {
    match role {
        Role::User => content + "\n\nSystem instruction: "@ + system_instruction(),
        Role::Assistant => content,
    }
}

/// A turn's content as it is sent to the service.
pub fn request_content(role: Role, content: &str) -> (out: String)
    ensures
        out@ == sent_content(role, content@),
{
    let mut out = content.to_owned();
    match role {
        Role::User => {
            out.append("\n\nSystem instruction: ");
            out.append(
                "You are a helpful assistant. Always respond in markdown format. When referring to information you've previously provided in this conversation, reference the relevant sections instead of repeating the information. Be concise and avoid unnecessary repetition.",
            );
        },
        Role::Assistant => {},
    }
    out
}

/// The request for a title for a conversation that begins with the message.
pub open spec fn title_request_text(message: Seq<char>) -> Seq<char> {
    "Generate a concise, descriptive title (max 50 characters) for a conversation that starts with this user message: \""@
        + message
        + "\"\n\nRespond with ONLY the title, no additional text or formatting."@
}

/// Asks for a title for the conversation that begins with the message.
pub fn title_request(user_message: &str) -> (out: String)
    ensures
        out@ == title_request_text(user_message@),
{
    let mut out = String::new();
    out.append(
        "Generate a concise, descriptive title (max 50 characters) for a conversation that starts with this user message: \"",
    );
    out.append(user_message);
    out.append("\"\n\nRespond with ONLY the title, no additional text or formatting.");
    assert(out@ =~= title_request_text(user_message@));
    out
}

/// The title in a reply: its text without the whitespace around it.
pub fn title_from_reply(reply: &str) -> (out: String)
    ensures
        out@ == trim(reply@),
{
    trimmed(reply)
}

/// What a line of an event stream carries: the data after `data: `, unless
/// the line is no data line or marks the end of the stream.
pub open spec fn payload_of(line: Seq<char>) -> Option<Seq<char>> {
    if starts_with(line, "data: "@) && line.skip("data: "@.len() as int) != "[DONE]"@ {
        Some(line.skip("data: "@.len() as int))
    } else {
        None
    }
}

/// The payloads of the lines, in order.
pub open spec fn payloads(ls: Seq<Seq<char>>) -> Seq<Seq<char>>
    decreases ls.len(),
{
    if ls.len() == 0 {
        Seq::empty()
    } else {
        match payload_of(ls.last()) {
            Some(data) => payloads(ls.drop_last()).push(data),
            None => payloads(ls.drop_last()),
        }
    }
}

/// The payloads of the data lines in a piece of an event stream, in order.
pub fn event_payloads(text: &str) -> (out: Vec<String>)
    ensures
        text_views(out@) == payloads(lines(text@)),
{
    let chars = to_chars(text);
    let ls = split_lines(&chars);
    let prefix = to_chars("data: ");
    let done = to_chars("[DONE]");
    let ghost all = line_views(ls@);
    let mut out: Vec<String> = Vec::new();
    let mut i: usize = 0;
    assert(text_views(out@) =~= Seq::<Seq<char>>::empty());
    assert(all.take(0) =~= Seq::<Seq<char>>::empty());
    while i < ls.len()
        invariant
            i <= ls.len(),
            all == line_views(ls@),
            prefix@ == "data: "@,
            done@ == "[DONE]"@,
            text_views(out@) == payloads(all.take(i as int)),
        decreases ls.len() - i,
    {
        let line = &ls[i];
        let ghost before = text_views(out@);
        assert(all.take(i + 1).drop_last() =~= all.take(i as int));
        assert(all.take(i + 1).last() == line@);
        assert(line@.subrange(0, line@.len() as int) =~= line@);
        if starts_with_at(line, 0, line.len(), &prefix) {
            let mut data: Vec<char> = Vec::new();
            push_chars(&mut data, line, prefix.len(), line.len());
            assert(data@ =~= line@.skip(prefix@.len() as int));
            if !same_text(&data, &done) {
                let payload = to_text(&data, 0, data.len());
                assert(data@.subrange(0, data@.len() as int) =~= data@);
                out.push(payload);
                assert(text_views(out@) =~= before.push(payload@));
            }
        }
        i += 1;
    }
    assert(all.take(i as int) =~= all);
    out
}

/// An event of the stream, as far as the response depends on it: its type,
/// and the text of its delta where it has one.
#[derive(Clone, Debug, PartialEq, Eq)]
pub struct StreamEvent {
    pub event_type: String,
    pub text: Option<String>,
}

/// An event as contracts speak of it.
pub ghost struct StreamEventView {
    pub event_type: Seq<char>,
    pub text: Option<Seq<char>>,
}

impl View for StreamEvent {
    type V = StreamEventView;

    open spec fn view(&self) -> StreamEventView {
        StreamEventView { event_type: self.event_type@, text: text_view(self.text) }
    }
}

/// The views of a list of events.
pub open spec fn event_views(es: Seq<StreamEvent>) -> Seq<StreamEventView> {
    es.map_values(|e: StreamEvent| e@)
}

/// The text that an event adds to the response: the text of its delta where
/// the event is a content delta, nothing for any other event.
pub open spec fn event_text(e: StreamEventView) -> Option<Seq<char>> {
    if e.event_type == "content_block_delta"@ {
        e.text
    } else {
        None
    }
}

/// Events that add nothing to the response.
pub open spec fn silent() -> spec_fn(StreamEventView) -> bool {
    |e: StreamEventView| event_text(e) is None
}

/// The fragment that a piece of the stream gives: the text of the first of
/// its events that has any, else nothing.
pub open spec fn fragment_of(es: Seq<StreamEventView>) -> Seq<char> {
    let k = leading(es, silent()) as int;
    if k < es.len() {
        event_text(es[k])->0
    } else {
        Seq::empty()
    }
}

/// The text that an event adds to the response, where it adds any.
pub fn delta_text(event: &StreamEvent) -> (out: Option<String>)
    ensures
        text_view(out) == event_text(event@),
{
    let given = to_chars(event.event_type.as_str());
    let delta = to_chars("content_block_delta");
    if same_text(&given, &delta) {
        event.text.clone()
    } else {
        None
    }
}

/// The fragment that the events of one piece of the stream give.
pub fn fragment_text(events: &Vec<StreamEvent>) -> (out: String)
    ensures
        out@ == fragment_of(event_views(events@)),
{
    let ghost all = event_views(events@);
    let mut k: usize = 0;
    while k < events.len()
        invariant
            k <= events.len(),
            all == event_views(events@),
            forall|j: int| 0 <= j < k ==> silent()(#[trigger] all[j]),
        decreases events.len() - k,
    {
        match delta_text(&events[k]) {
            Some(text) => {
                proof {
                    lemma_leading_is(all, silent(), k as int);
                }
                return text;
            },
            None => {},
        }
        k += 1;
    }
    proof {
        lemma_leading_is(all, silent(), k as int);
    }
    String::new()
}

} // verus!
