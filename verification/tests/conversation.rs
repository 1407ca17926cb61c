use rye::conversation::{
    choose_conversations_dir, document_stem, find_conversation_file, get_conversations_dir,
    is_conversation_document,
    is_written_before, list_conversations, locate, parse_markdown_conversation,
    sanitize_filename, Conversation, ConversationInfo, Document, Role, StoreError, Turn,
};

fn turn(role: Role, content: &str) -> Turn {
    Turn { role, content: content.to_string() }
}

fn names(list: &[&str]) -> Vec<String> {
    list.iter().map(|n| n.to_string()).collect()
}

fn file(name: &str, content: &str, modified: Option<u64>) -> Document {
    Document { name: name.to_string(), content: content.to_string(), modified }
}

#[test]
fn parses_titled_document() {
    let text = "# My Title\n\n## You\n\nHello\n\n## Assistant\n\nHi there\n";
    let (turns, title) = parse_markdown_conversation(text);
    assert_eq!(turns, vec![turn(Role::User, "Hello"), turn(Role::Assistant, "Hi there")]);
    assert_eq!(title, Some("My Title".to_string()));
}

#[test]
fn placeholder_heading_is_no_title() {
    let text = "# Conversation 1234\n\n\n## You\n\nHello\n\n";
    let (turns, title) = parse_markdown_conversation(text);
    assert_eq!(turns, vec![turn(Role::User, "Hello")]);
    assert_eq!(title, None);
}

#[test]
fn empty_document_has_nothing() {
    let (turns, title) = parse_markdown_conversation("");
    assert!(turns.is_empty());
    assert_eq!(title, None);
}

#[test]
fn document_without_heading_line() {
    let (turns, title) = parse_markdown_conversation("## You\nhi\n## Assistant\nho");
    assert_eq!(turns, vec![turn(Role::User, "hi"), turn(Role::Assistant, "ho")]);
    assert_eq!(title, None);
}

#[test]
fn title_loses_repeated_markers_and_whitespace() {
    let (_, title) = parse_markdown_conversation("# # #   Spaced out  \n");
    assert_eq!(title, Some("Spaced out".to_string()));
    let (_, title) = parse_markdown_conversation("# ## Deep  \n");
    assert_eq!(title, Some("## Deep".to_string()));
    let (_, title) = parse_markdown_conversation("# # Twice\n");
    assert_eq!(title, Some("Twice".to_string()));
    let (_, title) = parse_markdown_conversation("# \n");
    assert_eq!(title, Some(String::new()));
}

#[test]
fn placeholder_without_identifier_is_a_title() {
    let (_, title) = parse_markdown_conversation("# Conversation \n");
    assert_eq!(title, Some("Conversation".to_string()));
}

#[test]
fn decorated_role_heading_opens_a_turn() {
    let (turns, _) = parse_markdown_conversation("# T\n\n## You (edited)\n\nHello\n");
    assert_eq!(turns, vec![turn(Role::User, "Hello")]);
    let (turns, _) = parse_markdown_conversation("## Assistant:\nanswer\n");
    assert_eq!(turns, vec![turn(Role::Assistant, "answer")]);
}

#[test]
fn stray_text_before_the_first_turn_is_ignored() {
    let text = "# T\nstray\n## Notes\nmore stray\n## You\nq\n## Assistant\na\n";
    let (turns, _) = parse_markdown_conversation(text);
    assert_eq!(turns, vec![turn(Role::User, "q"), turn(Role::Assistant, "a")]);
}

#[test]
fn only_role_headings_end_a_turn() {
    let text = "# T\nstray\nmore stray\n## You\nq\n## Notes\nnot a turn\n## Assistant\na\n";
    let (turns, _) = parse_markdown_conversation(text);
    assert_eq!(
        turns,
        vec![turn(Role::User, "q\n## Notes\nnot a turn"), turn(Role::Assistant, "a")]
    );
    let (turns, title) = parse_markdown_conversation("## Assistant\n\na\n## Notes\nb\n");
    assert_eq!(turns, vec![turn(Role::Assistant, "a\n## Notes\nb")]);
    assert_eq!(title, None);
    let (turns, _) = parse_markdown_conversation("## You\n## \n##\n## you\n## Assistants\nx\n");
    assert_eq!(turns, vec![turn(Role::User, "## \n##\n## you"), turn(Role::Assistant, "x")]);
}

#[test]
fn blank_turns_are_dropped() {
    let text = "# T\n\n## You\n\n   \n\t\n\n## Assistant\n\nonly me\n\n## You\n";
    let (turns, _) = parse_markdown_conversation(text);
    assert_eq!(turns, vec![turn(Role::Assistant, "only me")]);
}

#[test]
fn inner_blank_lines_and_markup_are_kept() {
    let text = "## You\n\n\nfirst\n\n  indented\n### deeper\n# top\n\n\n";
    let (turns, _) = parse_markdown_conversation(text);
    assert_eq!(turns, vec![turn(Role::User, "first\n\n  indented\n### deeper\n# top")]);
}

#[test]
fn carriage_returns_before_newlines_are_dropped() {
    let (turns, title) = parse_markdown_conversation("# T\r\n\r\n## You\r\n\r\na\r\nb\r\n");
    assert_eq!(turns, vec![turn(Role::User, "a\nb")]);
    assert_eq!(title, Some("T".to_string()));
    let (turns, _) = parse_markdown_conversation("## You\nlast\r");
    assert_eq!(turns, vec![turn(Role::User, "last\r")]);
}

#[test]
fn sanitize_replaces_reserved_and_control() {
    assert_eq!(sanitize_filename("a/b\\c:d*e?f\"g<h>i|j"), "a_b_c_d_e_f_g_h_i_j");
    assert_eq!(sanitize_filename("tab\there\u{7f}\u{0}\u{9f}"), "tab_here___");
    assert_eq!(sanitize_filename("  padded title \u{3000}"), "padded title");
    assert_eq!(sanitize_filename("\n\nlines\n"), "__lines_");
    assert_eq!(sanitize_filename("   "), "");
    assert_eq!(sanitize_filename(""), "");
    assert_eq!(sanitize_filename("Ünïcödé ok"), "Ünïcödé ok");
}

#[test]
fn sanitize_twice_is_sanitize_once() {
    for title in ["a/b", "  x  ", "\t\tq?\t", "plain", "", " / ", "\u{85}a:b\u{a0}", "_ _"] {
        let once = sanitize_filename(title);
        assert_eq!(sanitize_filename(&once), once);
    }
}

#[test]
fn roles_by_name() {
    assert_eq!(Role::from_name("user"), Role::User);
    assert_eq!(Role::from_name("assistant"), Role::Assistant);
    assert_eq!(Role::from_name("system"), Role::Assistant);
    assert_eq!(Role::from_name("User"), Role::Assistant);
    assert_eq!(Role::from_name("users"), Role::Assistant);
    assert_eq!(Role::from_name(""), Role::Assistant);
    assert_eq!(Role::User.name(), "user");
    assert_eq!(Role::Assistant.name(), "assistant");
    assert_eq!(Role::User.heading(), "## You");
    assert_eq!(Role::Assistant.heading(), "## Assistant");
}

#[test]
fn new_conversation_is_empty_and_placed() {
    let c = Conversation::with_id("/data/rye", "abc".to_string());
    assert_eq!(c.id, "abc");
    assert_eq!(c.file_path, "/data/rye/abc.md");
    assert!(c.messages.is_empty());
    assert_eq!(c.title, None);
    assert_eq!(c.write_header(), "# Conversation abc\n\n");
    assert_eq!(c.rewrite_file_with_title(), "# Conversation abc\n\n");
}

#[test]
fn generated_identifiers_are_hyphenated_hex() {
    let a = Conversation::new("/d");
    let b = Conversation::new("/d");
    assert_eq!(a.id.chars().count(), 36);
    assert!(a.id.chars().all(|c| c == '-' || c.is_ascii_digit() || ('a'..='f').contains(&c)));
    assert_eq!(a.id.chars().filter(|c| *c == '-').count(), 4);
    assert_ne!(a.id, b.id);
    assert_eq!(a.file_path, format!("/d/{}.md", a.id));
    assert!(a.messages.is_empty());
    assert_eq!(a.title, None);
}

#[test]
fn add_message_gives_what_the_document_grows_by() {
    let mut c = Conversation::with_id("d", "id".to_string());
    let first = c.add_message(Role::User, "Hello");
    assert_eq!(first, "\n## You\n\nHello\n\n");
    let second = c.add_message(Role::Assistant, "Hi\nthere");
    assert_eq!(second, "\n## Assistant\n\nHi\nthere\n\n");
    assert_eq!(c.messages, vec![turn(Role::User, "Hello"), turn(Role::Assistant, "Hi\nthere")]);
    assert_eq!(c.id, "id");
    assert_eq!(c.file_path, "d/id.md");
    assert_eq!(c.title, None);
}

#[test]
fn appends_equal_one_write() {
    let mut c = Conversation::with_id("d", "7f".to_string());
    let mut grown = c.write_header();
    let contents = ["one", "two\n\nparagraphs", "", "## You", "  spaced  "];
    for (i, content) in contents.iter().enumerate() {
        let role = if i % 2 == 0 { Role::User } else { Role::Assistant };
        grown.push_str(&c.add_message(role, content));
        assert_eq!(grown, c.rewrite_file_with_title());
    }
    assert_eq!(
        grown,
        "# Conversation 7f\n\n\n## You\n\none\n\n\n## Assistant\n\ntwo\n\nparagraphs\n\n\n## You\n\n\n\n\n## Assistant\n\n## You\n\n\n## You\n\n  spaced  \n\n"
    );
}

#[test]
fn written_document_reads_back() {
    let mut c = Conversation::new("d");
    let mut grown = c.write_header();
    grown.push_str(&c.add_message(Role::User, "What is 2 + 2?"));
    grown.push_str(&c.add_message(Role::Assistant, "It is **4**.\n\n- four\n- vier"));
    grown.push_str(&c.add_message(Role::User, "# thanks"));
    let (turns, title) = parse_markdown_conversation(&grown);
    assert_eq!(turns, c.messages);
    assert_eq!(title, c.title);
    assert_eq!(title, None);
}

#[test]
fn titled_document_reads_back() {
    let mut c = Conversation::with_id("d", "x".to_string());
    c.add_message(Role::User, "q");
    c.add_message(Role::Assistant, "a");
    let text = c.set_title("d", "Sums: easy".to_string());
    assert_eq!(text, "# Sums: easy\n\n\n## You\n\nq\n\n\n## Assistant\n\na\n\n");
    assert_eq!(c.title, Some("Sums: easy".to_string()));
    assert_eq!(c.file_path, "d/Sums_ easy.md");
    assert_eq!(c.id, "x");
    let (turns, title) = parse_markdown_conversation(&text);
    assert_eq!(turns, c.messages);
    assert_eq!(title, c.title);
}

#[test]
fn content_that_does_not_read_back() {
    let mut c = Conversation::with_id("d", "x".to_string());
    let mut text = c.write_header();
    text.push_str(&c.add_message(Role::User, "before\n## You\nafter"));
    let (turns, _) = parse_markdown_conversation(&text);
    assert_eq!(turns, vec![turn(Role::User, "before"), turn(Role::User, "after")]);
}

#[test]
fn titled_path_uses_the_sanitized_title() {
    assert_eq!(Conversation::titled_path("/s", " a/b "), "/s/a_b.md");
    assert_eq!(Conversation::titled_path("/s", "plain"), "/s/plain.md");
}

#[test]
fn load_takes_identifier_from_file_name() {
    let c = Conversation::load("/s", "My-Title-abc123.md", "# My Title\n\n## You\n\nhi\n");
    assert_eq!(c.id, "My-Title-abc123");
    assert_eq!(c.file_path, "/s/My-Title-abc123.md");
    assert_eq!(c.title, Some("My Title".to_string()));
    assert_eq!(c.messages, vec![turn(Role::User, "hi")]);
}

#[test]
fn document_names_and_stems() {
    assert!(is_conversation_document("a.md"));
    assert!(is_conversation_document("..md"));
    assert!(is_conversation_document("notes.txt.md"));
    assert!(!is_conversation_document(".md"));
    assert!(!is_conversation_document("md"));
    assert!(!is_conversation_document("a.MD"));
    assert!(!is_conversation_document("a.md.bak"));
    assert!(!is_conversation_document(""));
    assert_eq!(document_stem("a.md"), "a");
    assert_eq!(document_stem("notes.txt.md"), "notes.txt");
    assert_eq!(document_stem(".md"), ".md");
    assert_eq!(document_stem("plain"), "plain");
}

#[test]
fn fragment_finds_first_document_holding_it() {
    let listing = names(&["other.md", "abc.txt", "My-Title-abc123.md", "abc-second.md"]);
    assert_eq!(find_conversation_file(&listing, "abc"), Ok("My-Title-abc123.md".to_string()));
    assert_eq!(locate(&listing, "abc"), Ok("My-Title-abc123.md".to_string()));
    let c = Conversation::load("/s", &locate(&listing, "abc").unwrap(), "# My Title\n");
    assert_eq!(c.id, "My-Title-abc123");
    assert_eq!(c.title, Some("My Title".to_string()));
}

#[test]
fn exact_name_wins_over_earlier_fragment_match() {
    let listing = names(&["xabcx.md", "abc.md"]);
    assert_eq!(find_conversation_file(&listing, "abc"), Ok("xabcx.md".to_string()));
    assert_eq!(locate(&listing, "abc"), Ok("abc.md".to_string()));
}

#[test]
fn nothing_found() {
    let listing = names(&["one.md", "two.md", "abc.txt"]);
    assert_eq!(find_conversation_file(&listing, "abc"), Err(StoreError::NotFound));
    assert_eq!(locate(&listing, "abc"), Err(StoreError::NotFound));
    assert_eq!(locate(&Vec::new(), "abc"), Err(StoreError::NotFound));
    assert_eq!(find_conversation_file(&Vec::new(), ""), Err(StoreError::NotFound));
}

#[test]
fn fragment_may_lie_anywhere_in_the_name() {
    let listing = names(&["alpha.md", "beta.md"]);
    assert_eq!(find_conversation_file(&listing, ""), Ok("alpha.md".to_string()));
    assert_eq!(find_conversation_file(&listing, "ta.m"), Ok("beta.md".to_string()));
    assert_eq!(find_conversation_file(&listing, "beta.md"), Ok("beta.md".to_string()));
    assert_eq!(find_conversation_file(&listing, "beta.mdx"), Err(StoreError::NotFound));
}

#[test]
fn storage_directory_choice() {
    let s = |t: &str| Some(t.to_string());
    assert_eq!(
        choose_conversations_dir(s("/custom"), true, s("/home/u")),
        Ok("/custom".to_string())
    );
    assert_eq!(choose_conversations_dir(s("/custom"), true, None), Ok("/custom".to_string()));
    assert_eq!(
        choose_conversations_dir(s("/custom"), false, s("/home/u")),
        Ok("/home/u/.rye".to_string())
    );
    assert_eq!(choose_conversations_dir(None, true, s("/home/u")), Ok("/home/u/.rye".to_string()));
    assert_eq!(choose_conversations_dir(None, false, None), Err(StoreError::NoHomeDirectory));
    assert_eq!(
        choose_conversations_dir(s("/custom"), false, None),
        Err(StoreError::NoHomeDirectory)
    );
}

#[test]
fn storage_directory_with_the_systems_home() {
    assert_eq!(get_conversations_dir(Some("/custom".to_string()), true), Ok("/custom".to_string()));
    for custom in [None, Some("/custom".to_string())] {
        match get_conversations_dir(custom, false) {
            Ok(dir) => {
                assert!(dir.ends_with("/.rye"));
                assert_ne!(dir, "/custom");
            }
            Err(e) => assert_eq!(e, StoreError::NoHomeDirectory),
        }
    }
}

#[test]
fn listing_is_newest_first() {
    let files = vec![
        file("old.md", "# Old\n", Some(10)),
        file("note.txt", "# Not listed\n", Some(99)),
        file("new.md", "# Conversation new\n", Some(30)),
        file("unknown.md", "no heading", None),
        file("mid.md", "# Mid\n\n## You\n\nhi\n", Some(20)),
    ];
    let listed = list_conversations("/s", &files);
    let ids: Vec<&str> = listed.iter().map(|c| c.id.as_str()).collect();
    assert_eq!(ids, vec!["new", "mid", "old", "unknown"]);
    assert_eq!(
        listed[1],
        ConversationInfo {
            id: "mid".to_string(),
            title: Some("Mid".to_string()),
            file_path: "/s/mid.md".to_string(),
            modified: Some(20),
        }
    );
    assert_eq!(listed[0].title, None);
    assert_eq!(listed[3].modified, None);
}

#[test]
fn listing_keeps_directory_order_among_equals() {
    let files = vec![
        file("a.md", "", Some(5)),
        file("b.md", "", None),
        file("c.md", "", Some(5)),
        file("d.md", "", None),
        file("e.md", "", Some(7)),
        file("f.md", "", Some(5)),
    ];
    let listed = list_conversations("s", &files);
    let ids: Vec<&str> = listed.iter().map(|c| c.id.as_str()).collect();
    assert_eq!(ids, vec!["e", "a", "c", "f", "b", "d"]);
    assert!(list_conversations("s", &Vec::new()).is_empty());
}

#[test]
fn order_of_write_times() {
    assert!(is_written_before(None, Some(0)));
    assert!(is_written_before(Some(1), Some(2)));
    assert!(!is_written_before(Some(2), Some(2)));
    assert!(!is_written_before(Some(3), Some(2)));
    assert!(!is_written_before(Some(0), None));
    assert!(!is_written_before(None, None));
}
