use rye::conversation::{ConversationInfo, Role};
use rye::provider::{
    delta_text, event_payloads, fragment_text, request_content, title_from_reply, title_request,
    StreamEvent,
};

fn event(event_type: &str, text: Option<&str>) -> StreamEvent {
    StreamEvent { event_type: event_type.to_string(), text: text.map(|t| t.to_string()) }
}
use rye::selection::{conversation_label, selected_command, selected_identifier};

#[test]
fn user_messages_carry_the_instruction() {
    assert_eq!(
        request_content(Role::User, "hi"),
        "hi\n\nSystem instruction: You are a helpful assistant. Always respond in markdown format. When referring to information you've previously provided in this conversation, reference the relevant sections instead of repeating the information. Be concise and avoid unnecessary repetition."
    );
    assert_eq!(request_content(Role::Assistant, "hello"), "hello");
    assert_eq!(request_content(Role::Assistant, ""), "");
}

#[test]
fn title_request_quotes_the_message() {
    assert_eq!(
        title_request("What is Rust?"),
        "Generate a concise, descriptive title (max 50 characters) for a conversation that starts with this user message: \"What is Rust?\"\n\nRespond with ONLY the title, no additional text or formatting."
    );
}

#[test]
fn title_reply_is_trimmed() {
    assert_eq!(title_from_reply("  About Rust \n"), "About Rust");
    assert_eq!(title_from_reply("\n\n"), "");
    assert_eq!(title_from_reply("as is"), "as is");
}

#[test]
fn payloads_of_data_lines() {
    let text = "event: content_block_delta\ndata: {\"a\":1}\n\ndata: [DONE]\ndata:no space\ndata: \r\n data: indented\ndata: last";
    assert_eq!(event_payloads(text), vec!["{\"a\":1}".to_string(), String::new(), "last".to_string()]);
    assert_eq!(event_payloads(""), Vec::<String>::new());
    assert_eq!(event_payloads("data: [DONE]\n"), Vec::<String>::new());
    assert_eq!(event_payloads("data: [DONE] \n"), vec!["[DONE] ".to_string()]);
}

#[test]
fn only_content_deltas_give_text() {
    assert_eq!(delta_text(&event("content_block_delta", Some("Hi"))), Some("Hi".to_string()));
    assert_eq!(delta_text(&event("content_block_delta", None)), None);
    assert_eq!(delta_text(&event("message_start", Some("Hi"))), None);
    assert_eq!(delta_text(&event("content_block_delta ", Some("Hi"))), None);
    assert_eq!(delta_text(&event("", None)), None);
}

#[test]
fn fragment_is_the_first_text() {
    let events = vec![
        event("message_start", Some("no")),
        event("content_block_delta", None),
        event("content_block_delta", Some("first")),
        event("content_block_delta", Some("second")),
    ];
    assert_eq!(fragment_text(&events), "first");
    assert_eq!(fragment_text(&events[..2].to_vec()), "");
    assert_eq!(fragment_text(&Vec::new()), "");
    assert_eq!(fragment_text(&vec![event("content_block_delta", Some(""))]), "");
}

#[test]
fn labels_and_what_they_stand_for() {
    let titled = ConversationInfo {
        id: "ab-12".to_string(),
        title: Some("Sums - easy".to_string()),
        file_path: "/s/ab-12.md".to_string(),
        modified: None,
    };
    let untitled = ConversationInfo { title: None, ..titled.clone() };
    assert_eq!(conversation_label(&titled), "Sums - easy - ab-12");
    assert_eq!(conversation_label(&untitled), "ab-12");
    assert_eq!(selected_identifier(&conversation_label(&titled)), "ab-12");
    assert_eq!(selected_identifier(&conversation_label(&untitled)), "ab-12");
    assert_eq!(selected_identifier("a - b - "), "");
    assert_eq!(selected_identifier(" - "), "");
    assert_eq!(selected_identifier(""), "");
    assert_eq!(selected_identifier("a -b"), "a -b");
    assert_eq!(selected_identifier("x -  - y"), " - y".trim_start_matches(" - "));
}

#[test]
fn commands_from_their_lines() {
    assert_eq!(selected_command("/new-conversation - Start a new conversation"), "/new-conversation");
    assert_eq!(selected_command("/a - b - c"), "/a");
    assert_eq!(selected_command("/plain"), "/plain");
    assert_eq!(selected_command(" - x"), "");
    assert_eq!(selected_command(""), "");
}
