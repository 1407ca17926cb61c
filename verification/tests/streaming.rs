use rye::streaming::{
    is_list_item, list_item_marked, stream_and_render_response, Block, StreamRenderer,
};

fn text(s: &str) -> Block {
    Block::Text(s.to_string())
}

fn separator(s: &str) -> Block {
    Block::Separator(s.to_string())
}

fn pieces(list: &[&str]) -> Vec<Result<String, String>> {
    list.iter().map(|p| Ok(p.to_string())).collect()
}

fn source(blocks: &[Block]) -> String {
    let mut all = String::new();
    for b in blocks {
        match b {
            Block::Text(s) => all.push_str(s),
            Block::Separator(s) => all.push_str(s),
        }
    }
    all
}

#[test]
fn heading_paragraph_and_code_are_three_blocks() {
    let input = "# Heading\n\nSome text\n\n```\ncode\n```\n";
    let (full, blocks) = stream_and_render_response(&pieces(&[input]));
    assert_eq!(full, input);
    assert_eq!(
        blocks,
        vec![
            text("# Heading\n"),
            separator("\n"),
            text("Some text\n"),
            separator("\n"),
            text("```\ncode\n```\n"),
        ]
    );
    let shown: Vec<&Block> = blocks.iter().filter(|b| matches!(b, Block::Text(_))).collect();
    assert_eq!(shown.len(), 3);
}

#[test]
fn every_character_arrives_once_and_in_order() {
    let inputs = [
        "",
        "no newline",
        "a\nb\n\n  \n# h\n- item\n1. one\n```rust\nfn x() {}\n\n# not a heading\n```\ntail",
        "   ```\nopen only\n\n",
        "\n\n\n",
        "# one\n# two\n",
        "x\r\ny\r\n",
    ];
    for input in inputs {
        let (full, blocks) = stream_and_render_response(&pieces(&[input]));
        assert_eq!(full, input);
        assert_eq!(source(&blocks), input);
    }
}

#[test]
fn cutting_the_stream_differently_changes_nothing() {
    let input = "# T\ntext one\ntext two\n\n```\ncode\n```\nrest";
    let (_, whole) = stream_and_render_response(&pieces(&[input]));
    let by_char: Vec<String> = input.chars().map(|c| c.to_string()).collect();
    let by_char: Vec<Result<String, String>> = by_char.into_iter().map(Ok).collect();
    let (full, cut) = stream_and_render_response(&by_char);
    assert_eq!(full, input);
    assert_eq!(cut, whole);
    let (_, halves) = stream_and_render_response(&pieces(&["# T\ntext o", "", "ne\ntext two\n\n``", "`\ncode\n```\nrest"]));
    assert_eq!(halves, whole);
}

#[test]
fn open_fence_is_flushed_at_the_end() {
    let (_, blocks) = stream_and_render_response(&pieces(&["intro\n```\ncode\n\n# inside\nmore"]));
    assert_eq!(blocks, vec![text("intro\n"), text("```\ncode\n\n# inside\nmore")]);
    let (_, blocks) = stream_and_render_response(&pieces(&["```\na\n```\n```\nb\n"]));
    assert_eq!(blocks, vec![text("```\na\n```\n"), text("```\nb\n")]);
}

#[test]
fn paragraph_and_list_lines_gather_until_a_boundary() {
    let (_, blocks) = stream_and_render_response(&pieces(&["one\n- two\n3. three\n\nfour\n# five\nsix"]));
    assert_eq!(
        blocks,
        vec![
            text("one\n- two\n3. three\n"),
            separator("\n"),
            text("four\n"),
            text("# five\n"),
            text("six"),
        ]
    );
}

#[test]
fn blank_line_keeps_its_whitespace_as_separator() {
    let (_, blocks) = stream_and_render_response(&pieces(&["a\n \t \nb\n"]));
    assert_eq!(blocks, vec![text("a\n"), separator(" \t \n"), text("b\n")]);
}

#[test]
fn indented_fence_and_heading_count() {
    let (_, blocks) = stream_and_render_response(&pieces(&["p\n  ```py\nx\n  ```  \n   ## h\n"]));
    assert_eq!(blocks, vec![text("p\n"), text("  ```py\nx\n  ```  \n"), text("   ## h\n")]);
}

#[test]
fn failure_ends_the_stream_and_keeps_what_arrived() {
    let stream = vec![
        Ok("first\nsec".to_string()),
        Err("connection reset".to_string()),
        Ok("ond\n".to_string()),
    ];
    let (full, blocks) = stream_and_render_response(&stream);
    assert_eq!(full, "first\nsec");
    assert_eq!(blocks, vec![text("first\nsec")]);
    let (full, blocks) = stream_and_render_response(&vec![Err("down".to_string())]);
    assert_eq!(full, "");
    assert!(blocks.is_empty());
    let (full, blocks) = stream_and_render_response(&Vec::new());
    assert_eq!(full, "");
    assert!(blocks.is_empty());
}

#[test]
fn renderer_piece_by_piece() {
    let mut r = StreamRenderer::new();
    assert!(!r.in_code_block());
    assert_eq!(r.feed("# Hea"), Vec::new());
    assert_eq!(r.feed("ding\nSome"), vec![text("# Heading\n")]);
    assert_eq!(r.feed(" text\n"), Vec::new());
    assert_eq!(r.feed("\n```\n"), vec![text("Some text\n"), separator("\n")]);
    assert!(r.in_code_block());
    assert_eq!(r.feed("code\n\n"), Vec::new());
    assert_eq!(r.feed("```\nend"), vec![text("```\ncode\n\n```\n")]);
    assert!(!r.in_code_block());
    assert_eq!(r.finish(), vec![text("end")]);
    assert_eq!(r.finish(), Vec::new());
    assert_eq!(r.feed("again\n"), Vec::new());
    assert_eq!(r.finish(), vec![text("again\n")]);
}

#[test]
fn finish_closes_an_open_fence() {
    let mut r = StreamRenderer::new();
    assert_eq!(r.feed("```\nx\n"), Vec::new());
    assert!(r.in_code_block());
    assert_eq!(r.finish(), vec![text("```\nx\n")]);
    assert!(!r.in_code_block());
}

#[test]
fn list_items() {
    assert!(is_list_item("- a"));
    assert!(is_list_item("-"));
    assert!(is_list_item("* a"));
    assert!(is_list_item("+ a"));
    assert!(is_list_item("1. one"));
    assert!(is_list_item("9.x"));
    assert!(is_list_item("\u{b2}."));
    assert!(is_list_item("\u{663}. three"));
    assert!(!is_list_item("1."));
    assert!(!is_list_item("a. one"));
    assert!(!is_list_item("12. twelve"));
    assert!(!is_list_item("1) one"));
    assert!(!is_list_item("text"));
    assert!(!is_list_item(""));
}

#[test]
fn list_items_by_mark() {
    assert!(list_item_marked("x. y", true));
    assert!(!list_item_marked("x. y", false));
    assert!(!list_item_marked("x.", true));
    assert!(list_item_marked("- y", false));
    assert!(!list_item_marked("", true));
    assert!(!list_item_marked("x", true));
}
