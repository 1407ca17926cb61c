//! What a line typed by the user asks for, and what follows an exchange.

use crate::conversation::{Conversation, ConversationView, Role, TurnView};
use crate::text::{same_text, to_chars, trim, trimmed};
use vstd::prelude::*;

verus! {

/// What is done with a line.
#[derive(Clone, Copy, Debug, PartialEq, Eq, Structural)]
pub enum Action {
    /// The line is empty: nothing is done.
    Nothing,
    /// The session ends.
    Quit,
    /// A new conversation begins.
    NewConversation,
    /// The line is a command that is not known.
    UnknownCommand,
    /// The line is sent as the user's message.
    Message,
}

/// What a line asks for: whether the commands are shown first, and what is
/// done then.
#[derive(Clone, Copy, Debug, PartialEq, Eq, Structural)]
pub struct Request {
    pub show_help: bool,
    pub action: Action,
}

/// What `str::to_lowercase` makes of a text.
pub uninterp spec fn lowercase(s: Seq<char>) -> Seq<char>;

/// `str::to_lowercase`: the text with each character in its lower case. The
/// result depends on the text alone.
#[verifier::external_body]
fn to_lower(s: &str) -> (out: String)
    ensures
        out@ == lowercase(s@),
{
    s.to_lowercase()
}

/// What a trimmed line asks for, given the line in lower case. `exit` and
/// `quit` end the session; `help` shows the commands, and the line is then
/// treated like any other; a line that begins with `/` is a command, of which
/// `/new-conversation` is the only one known; any other line is a message.
pub open spec fn request_of(line: Seq<char>, lower: Seq<char>) -> Request {
    if line.len() == 0 {
        Request { show_help: false, action: Action::Nothing }
    } else if lower == "exit"@ || lower == "quit"@ {
        Request { show_help: false, action: Action::Quit }
    } else {
        Request {
            show_help: lower == "help"@,
            action: if line[0] != '/' {
                Action::Message
            } else if lower == "/new-conversation"@ {
                Action::NewConversation
            } else {
                Action::UnknownCommand
            },
        }
    }
}

/// What a trimmed line asks for, given the line in lower case.
pub fn interpret_lowered(line: &str, lower: &str) -> (r: Request)
    ensures
        r == request_of(line@, lower@),
{
    let chars = to_chars(line);
    let low = to_chars(lower);
    if chars.len() == 0 {
        return Request { show_help: false, action: Action::Nothing };
    }
    if same_text(&low, &to_chars("exit")) || same_text(&low, &to_chars("quit")) {
        return Request { show_help: false, action: Action::Quit };
    }
    let show_help = same_text(&low, &to_chars("help"));
    let action = if chars[0] != '/' {
        Action::Message
    } else if same_text(&low, &to_chars("/new-conversation")) {
        Action::NewConversation
    } else {
        Action::UnknownCommand
    };
    Request { show_help, action }
}

/// What a line asks for. The whitespace around it does not count, nor does
/// the case of its letters where it is compared with a command.
pub fn interpret(line: &str) -> (r: Request)
    ensures
        r == request_of(trim(line@), lowercase(trim(line@))),
{
    let input = trimmed(line);
    let lower = to_lower(input.as_str());
    interpret_lowered(input.as_str(), lower.as_str())
}

/// Whether the conversation is due a title: it has none, and its first
/// exchange is complete.
pub fn wants_title(conversation: &Conversation) -> (b: bool)
    ensures
        b == (conversation@.title is None && conversation@.turns.len() == 2),
{
    conversation.title.is_none() && conversation.messages.len() == 2
}

/// Whether nothing was ever said in the conversation, so that its document
/// need not be kept.
pub fn is_unused(conversation: &Conversation) -> (b: bool)
    ensures
        b == (conversation@.turns.len() == 0),
{
    conversation.messages.len() == 0
}

/// Adds the response as the assistant's turn, unless nothing arrived. Gives
/// the text by which the document grows, where it does.
pub fn record_response(conversation: &mut Conversation, response: &str) -> (written: Option<String>)
    ensures
        response@.len() == 0 ==> written is None && *final(conversation) == *old(conversation),
        response@.len() > 0 ==> written is Some && written->0@ == crate::conversation::turn_text(
            TurnView { role: Role::Assistant, content: response@ },
        ) && final(conversation)@ == (ConversationView {
            turns: old(conversation)@.turns.push(
                TurnView { role: Role::Assistant, content: response@ },
            ),
            ..old(conversation)@
        }),
{
    if response.is_empty() {
        None
    } else {
        Some(conversation.add_message(Role::Assistant, response))
    }
}

} // verus!
