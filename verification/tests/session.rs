use rye::conversation::{Conversation, Role, Turn};
use rye::session::{
    interpret, interpret_lowered, is_unused, record_response, wants_title, Action, Request,
};

fn asks(show_help: bool, action: Action) -> Request {
    Request { show_help, action }
}

#[test]
fn lines_and_what_they_ask_for() {
    assert_eq!(interpret(""), asks(false, Action::Nothing));
    assert_eq!(interpret("  \t "), asks(false, Action::Nothing));
    assert_eq!(interpret("exit"), asks(false, Action::Quit));
    assert_eq!(interpret("  QUIT\n"), asks(false, Action::Quit));
    assert_eq!(interpret("Exit"), asks(false, Action::Quit));
    assert_eq!(interpret("help"), asks(true, Action::Message));
    assert_eq!(interpret(" HeLp "), asks(true, Action::Message));
    assert_eq!(interpret("/new-conversation"), asks(false, Action::NewConversation));
    assert_eq!(interpret("/New-Conversation "), asks(false, Action::NewConversation));
    assert_eq!(interpret("/help"), asks(false, Action::UnknownCommand));
    assert_eq!(interpret("/"), asks(false, Action::UnknownCommand));
    assert_eq!(interpret("exit now"), asks(false, Action::Message));
    assert_eq!(interpret("What is /new-conversation?"), asks(false, Action::Message));
    assert_eq!(interpret("ÉCOUTE"), asks(false, Action::Message));
}

#[test]
fn lines_with_their_lower_case_given() {
    assert_eq!(interpret_lowered("Quit", "quit"), asks(false, Action::Quit));
    assert_eq!(interpret_lowered("Quit", "Quit"), asks(false, Action::Message));
    assert_eq!(interpret_lowered("", "exit"), asks(false, Action::Nothing));
    assert_eq!(interpret_lowered("/x", "help"), asks(true, Action::UnknownCommand));
    assert_eq!(interpret_lowered("/X", "/new-conversation"), asks(false, Action::NewConversation));
    assert_eq!(interpret_lowered("x", "/new-conversation"), asks(false, Action::Message));
}

#[test]
fn title_is_due_after_the_first_exchange() {
    let mut c = Conversation::with_id("d", "i".to_string());
    assert!(is_unused(&c));
    assert!(!wants_title(&c));
    c.add_message(Role::User, "q");
    assert!(!is_unused(&c));
    assert!(!wants_title(&c));
    c.add_message(Role::Assistant, "a");
    assert!(wants_title(&c));
    let mut titled = c.clone();
    titled.set_title("d", "T".to_string());
    assert!(!wants_title(&titled));
    c.add_message(Role::User, "q2");
    assert!(!wants_title(&c));
}

#[test]
fn empty_response_is_not_recorded() {
    let mut c = Conversation::with_id("d", "i".to_string());
    c.add_message(Role::User, "q");
    let before = c.clone();
    assert_eq!(record_response(&mut c, ""), None);
    assert_eq!(c, before);
    assert_eq!(record_response(&mut c, "a"), Some("\n## Assistant\n\na\n\n".to_string()));
    assert_eq!(c.messages.len(), 2);
    assert_eq!(c.messages[1], Turn { role: Role::Assistant, content: "a".to_string() });
    assert_eq!(record_response(&mut c, " "), Some("\n## Assistant\n\n \n\n".to_string()));
}
