//! Cutting streamed text into blocks that can be shown as soon as each is complete.

use crate::text::{
    has_no_newline, lemma_leading_bounds, line_end, not_newline, starts_with, starts_with_at,
    to_chars, to_text, trim, trim_bounds,
};
use vstd::prelude::*;
use vstd::string::StringExecFns;

verus! {

/// What the renderer hands to the display.
#[derive(Clone, Debug, PartialEq, Eq)]
pub enum Block {
    /// A complete block of formatted text: a paragraph, a heading or a fenced
    /// code block, with its line ends.
    Text(String),
    /// A blank line between blocks, as it was received. It is shown as an empty line.
    Separator(String),
}

/// A block as contracts speak of it.
pub ghost enum BlockView {
    Text(Seq<char>),
    Separator(Seq<char>),
}

impl View for Block {
    type V = BlockView;

    open spec fn view(&self) -> BlockView {
        match self {
            Block::Text(s) => BlockView::Text(s@),
            Block::Separator(s) => BlockView::Separator(s@),
        }
    }
}

/// The views of a list of blocks.
pub open spec fn block_views(bs: Seq<Block>) -> Seq<BlockView> {
    bs.map_values(|b: Block| b@)
}

/// The characters that a block was made of.
pub open spec fn block_source(b: BlockView) -> Seq<char> {
    match b {
        BlockView::Text(s) => s,
        BlockView::Separator(s) => s,
    }
}

/// The characters that a list of blocks was made of, in order.
pub open spec fn blocks_source(bs: Seq<BlockView>) -> Seq<char>
    decreases bs.len(),
{
    if bs.len() == 0 {
        Seq::empty()
    } else {
        blocks_source(bs.drop_last()) + block_source(bs.last())
    }
}

/// What a completed line is to the renderer.
#[derive(Clone, Copy, Debug, PartialEq, Eq, Structural)]
pub enum LineKind {
    /// Opens or closes a fenced code block.
    Fence,
    /// Holds whitespace only.
    Blank,
    /// Begins with `#`.
    Heading,
    /// Anything else: prose and list items alike.
    Text,
}

/// The kind of a line, by what is left of it without the whitespace around it.
pub open spec fn line_kind(line: Seq<char>) -> LineKind {
    let t = trim(line);
    if starts_with(t, "```"@) {
        LineKind::Fence
    } else if t.len() == 0 {
        LineKind::Blank
    } else if t[0] == '#' {
        LineKind::Heading
    } else {
        LineKind::Text
    }
}

/// The renderer between two characters: the line that is being received, the
/// lines held back for the block that is growing, and whether a fence is open.
pub struct StreamRenderer {
    current_line: Vec<char>,
    buffer: Vec<char>,
    in_code_block: bool,
}

/// The renderer as contracts speak of it.
pub ghost struct RendererView {
    pub line: Seq<char>,
    pub pending: Seq<char>,
    pub in_fence: bool,
}

impl View for StreamRenderer {
    type V = RendererView;

    closed spec fn view(&self) -> RendererView {
        RendererView {
            line: self.current_line@,
            pending: self.buffer@,
            in_fence: self.in_code_block,
        }
    }
}

/// The renderer before anything was received.
pub open spec fn initial() -> RendererView {
    RendererView { line: Seq::empty(), pending: Seq::empty(), in_fence: false }
}

/// The block that flushing gives: the pending text, unless there is none.
pub open spec fn flushed(pending: Seq<char>) -> Seq<BlockView> {
    if pending.len() > 0 {
        seq![BlockView::Text(pending)]
    } else {
        Seq::empty()
    }
}

/// What happens when the line in `s` is complete: the state after it, and the
/// blocks that leave.
pub open spec fn end_line(s: RendererView) -> (RendererView, Seq<BlockView>) {
    let line = s.line;
    let none = Seq::<char>::empty();
    let kind = line_kind(line);
    if kind == LineKind::Fence {
        if s.in_fence {
            (
                RendererView { line: none, pending: none, in_fence: false },
                seq![BlockView::Text(s.pending + line)],
            )
        } else {
            (RendererView { line: none, pending: line, in_fence: true }, flushed(s.pending))
        }
    } else if s.in_fence {
        (RendererView { line: none, pending: s.pending + line, in_fence: true }, Seq::empty())
    } else if kind == LineKind::Blank {
        (
            RendererView { line: none, pending: none, in_fence: false },
            flushed(s.pending).push(BlockView::Separator(line)),
        )
    } else if kind == LineKind::Heading {
        (
            RendererView { line: none, pending: none, in_fence: false },
            flushed(s.pending).push(BlockView::Text(line)),
        )
    } else {
        (RendererView { line: none, pending: s.pending + line, in_fence: false }, Seq::empty())
    }
}

/// The renderer takes one character.
pub open spec fn step(s: RendererView, c: char) -> (RendererView, Seq<BlockView>) {
    let t = RendererView { line: s.line.push(c), ..s };
    if c == '\n' {
        end_line(t)
    } else {
        (t, Seq::empty())
    }
}

/// The renderer takes the characters of `input` one after the other.
pub open spec fn run(s: RendererView, input: Seq<char>) -> (RendererView, Seq<BlockView>)
    decreases input.len(),
{
    if input.len() == 0 {
        (s, Seq::empty())
    } else {
        let before = run(s, input.drop_last());
        let last = step(before.0, input.last());
        (last.0, before.1 + last.1)
    }
}

/// What leaves at the end of the stream: all that is still held, as one block.
pub open spec fn finish(s: RendererView) -> Seq<BlockView> {
    flushed(s.pending + s.line)
}

/// All the blocks that a whole stream gives.
pub open spec fn rendered(input: Seq<char>) -> Seq<BlockView> {
    let r = run(initial(), input);
    r.1 + finish(r.0)
}

fn classify(line: &Vec<char>) -> (kind: LineKind)
    ensures
        kind == line_kind(line@),
        kind == LineKind::Fence ==> line@.len() > 0,
{
    let fence = to_chars("```");
    proof {
        reveal_strlit("```");
    }
    assert(line@.subrange(0, line@.len() as int) =~= line@);
    let (lo, hi) = trim_bounds(line, 0, line.len());
    if starts_with_at(line, lo, hi, &fence) {
        LineKind::Fence
    } else if lo == hi {
        LineKind::Blank
    } else if line[lo] == '#' {
        LineKind::Heading
    } else {
        LineKind::Text
    }
}

impl StreamRenderer {
    /// A renderer that has received nothing.
    pub fn new() -> (r: StreamRenderer)
        ensures
            r@ == initial(),
    {
        StreamRenderer { current_line: Vec::new(), buffer: Vec::new(), in_code_block: false }
    }

    /// Whether a fence is open.
    pub fn in_code_block(&self) -> (b: bool)
        ensures
            b == self@.in_fence,
    {
        self.in_code_block
    }

    /// Empties the buffer into a block, where it holds anything.
    fn flush(&mut self, out: &mut Vec<Block>)
        ensures
            final(self)@ == (RendererView { pending: Seq::empty(), ..old(self)@ }),
            block_views(final(out)@) == block_views(old(out)@) + flushed(old(self)@.pending),
    {
        let ghost before = block_views(out@);
        if self.buffer.len() > 0 {
            let block = Block::Text(to_text(&self.buffer, 0, self.buffer.len()));
            assert(self.buffer@.subrange(0, self.buffer@.len() as int) =~= self.buffer@);
            out.push(block);
            self.buffer.clear();
            assert(block_views(out@) =~= before + flushed(old(self)@.pending));
        } else {
            assert(block_views(out@) =~= before + flushed(old(self)@.pending));
            assert(self.buffer@ =~= Seq::<char>::empty());
        }
    }

    /// Moves the completed line to the end of the buffer.
    fn hold_line(&mut self)
        ensures
            final(self)@ == (RendererView {
                line: Seq::empty(),
                pending: old(self)@.pending + old(self)@.line,
                ..old(self)@
            }),
    {
        self.buffer.append(&mut self.current_line);
    }

    /// Takes the completed line out as text.
    fn take_line(&mut self) -> (text: String)
        ensures
            final(self)@ == (RendererView { line: Seq::empty(), ..old(self)@ }),
            text@ == old(self)@.line,
    {
        let text = to_text(&self.current_line, 0, self.current_line.len());
        assert(self.current_line@.subrange(0, self.current_line@.len() as int)
            =~= self.current_line@);
        self.current_line.clear();
        text
    }

    /// Acts on the line that was just completed.
    fn complete_line(&mut self, out: &mut Vec<Block>)
        ensures
            final(self)@ == end_line(old(self)@).0,
            block_views(final(out)@) == block_views(old(out)@) + end_line(old(self)@).1,
    {
        let ghost before = block_views(out@);
        let ghost s = self@;
        let kind = classify(&self.current_line);
        match kind {
            LineKind::Fence => {
                if self.in_code_block {
                    self.hold_line();
                    self.flush(out);
                    self.in_code_block = false;
                } else {
                    self.flush(out);
                    self.hold_line();
                    self.in_code_block = true;
                    assert(self@.pending =~= s.line);
                }
            },
            _ => {
                if self.in_code_block {
                    self.hold_line();
                    assert(block_views(out@) =~= before + Seq::<BlockView>::empty());
                } else {
                    match kind {
                        LineKind::Blank => {
                            self.flush(out);
                            let text = self.take_line();
                            let ghost mid = block_views(out@);
                            out.push(Block::Separator(text));
                            assert(block_views(out@) =~= mid.push(BlockView::Separator(s.line)));
                        },
                        LineKind::Heading => {
                            self.flush(out);
                            let text = self.take_line();
                            let ghost mid = block_views(out@);
                            out.push(Block::Text(text));
                            assert(block_views(out@) =~= mid.push(BlockView::Text(s.line)));
                        },
                        _ => {
                            self.hold_line();
                            assert(block_views(out@) =~= before + Seq::<BlockView>::empty());
                        },
                    }
                }
            },
        }
        assert(block_views(out@) =~= before + end_line(s).1);
    }

    /// Takes the next piece of the stream, and gives the blocks that it completes.
    pub fn feed(&mut self, chunk: &str) -> (out: Vec<Block>)
        ensures
            final(self)@ == run(old(self)@, chunk@).0,
            block_views(out@) == run(old(self)@, chunk@).1,
    {
        let chars = to_chars(chunk);
        let ghost start = self@;
        let mut out: Vec<Block> = Vec::new();
        let mut i: usize = 0;
        assert(block_views(out@) =~= Seq::<BlockView>::empty());
        while i < chars.len()
            invariant
                i <= chars.len(),
                self@ == run(start, chars@.take(i as int)).0,
                block_views(out@) == run(start, chars@.take(i as int)).1,
            decreases chars.len() - i,
        {
            let c = chars[i];
            self.current_line.push(c);
            if c == '\n' {
                self.complete_line(&mut out);
            } else {
                assert(block_views(out@) + Seq::<BlockView>::empty() =~= block_views(out@));
            }
            i += 1;
            assert(chars@.take(i as int).drop_last() =~= chars@.take(i - 1));
        }
        assert(chars@.take(i as int) =~= chars@);
        out
    }

    /// Ends the stream: what is still held leaves as one last block.
    pub fn finish(&mut self) -> (out: Vec<Block>)
        ensures
            final(self)@ == initial(),
            block_views(out@) == finish(old(self)@),
    {
        let mut out: Vec<Block> = Vec::new();
        assert(block_views(out@) =~= Seq::<BlockView>::empty());
        self.hold_line();
        self.flush(&mut out);
        self.in_code_block = false;
        out
    }
}

/// Taking `a` and then `b` is taking `a` followed by `b`: the state and the
/// blocks do not depend on how a stream is cut into pieces.
pub proof fn lemma_run_concat(s: RendererView, a: Seq<char>, b: Seq<char>)
    ensures
        run(s, a + b).0 == run(run(s, a).0, b).0,
        run(s, a + b).1 == run(s, a).1 + run(run(s, a).0, b).1,
    decreases b.len(),
{
    if b.len() == 0 {
        assert(a + b =~= a);
        assert(run(s, a).1 + Seq::<BlockView>::empty() =~= run(s, a).1);
    } else {
        lemma_run_concat(s, a, b.drop_last());
        assert((a + b).drop_last() =~= a + b.drop_last());
        let mid = run(s, a);
        let before = run(mid.0, b.drop_last());
        let last = step(before.0, b.last());
        assert(mid.1 + (before.1 + last.1) =~= (mid.1 + before.1) + last.1);
    }
}

/// The characters of two lists of blocks, one after the other.
pub proof fn lemma_source_concat(a: Seq<BlockView>, b: Seq<BlockView>)
    ensures
        blocks_source(a + b) == blocks_source(a) + blocks_source(b),
    decreases b.len(),
{
    if b.len() == 0 {
        assert(a + b =~= a);
        assert(blocks_source(a) + Seq::<char>::empty() =~= blocks_source(a));
    } else {
        lemma_source_concat(a, b.drop_last());
        assert((a + b).drop_last() =~= a + b.drop_last());
        assert(blocks_source(a + b) =~= blocks_source(a) + blocks_source(b));
    }
}

proof fn lemma_source_one(b: BlockView)
    ensures
        blocks_source(seq![b]) == block_source(b),
{
    reveal_with_fuel(blocks_source, 2);
    assert(seq![b].drop_last() =~= Seq::<BlockView>::empty());
    assert(blocks_source(seq![b]) =~= block_source(b));
}

proof fn lemma_source_flushed(pending: Seq<char>)
    ensures
        blocks_source(flushed(pending)) == pending,
{
    if pending.len() > 0 {
        lemma_source_one(BlockView::Text(pending));
    } else {
        assert(pending =~= Seq::<char>::empty());
    }
}

/// One character in, one character kept: what leaves and what is held after a
/// step is what was held before it, and the character.
proof fn lemma_step_source(s: RendererView, c: char)
    ensures
        blocks_source(step(s, c).1) + step(s, c).0.pending + step(s, c).0.line == s.pending
            + s.line + seq![c],
{
    let t = RendererView { line: s.line.push(c), ..s };
    let r = step(s, c);
    let held = s.pending + s.line + seq![c];
    assert(t.pending + t.line =~= held);
    if c == '\n' {
        lemma_source_flushed(t.pending);
        lemma_source_one(BlockView::Text(t.pending + t.line));
        lemma_source_concat(flushed(t.pending), seq![BlockView::Separator(t.line)]);
        lemma_source_concat(flushed(t.pending), seq![BlockView::Text(t.line)]);
        lemma_source_one(BlockView::Separator(t.line));
        lemma_source_one(BlockView::Text(t.line));
        assert(flushed(t.pending).push(BlockView::Separator(t.line)) =~= flushed(t.pending)
            + seq![BlockView::Separator(t.line)]);
        assert(flushed(t.pending).push(BlockView::Text(t.line)) =~= flushed(t.pending)
            + seq![BlockView::Text(t.line)]);
        assert(blocks_source(r.1) + r.0.pending + r.0.line =~= held);
    } else {
        assert(blocks_source(r.1) + r.0.pending + r.0.line =~= held);
    }
}

proof fn lemma_run_source(s: RendererView, input: Seq<char>)
    ensures
        blocks_source(run(s, input).1) + run(s, input).0.pending + run(s, input).0.line
            == s.pending + s.line + input,
    decreases input.len(),
{
    if input.len() == 0 {
        assert(blocks_source(run(s, input).1) + s.pending + s.line =~= s.pending + s.line + input);
    } else {
        let before = run(s, input.drop_last());
        let last = step(before.0, input.last());
        lemma_run_source(s, input.drop_last());
        lemma_step_source(before.0, input.last());
        lemma_source_concat(before.1, last.1);
        assert(input.drop_last() + seq![input.last()] =~= input);
        assert(blocks_source(before.1 + last.1) + last.0.pending + last.0.line =~= blocks_source(
            before.1,
        ) + (blocks_source(last.1) + last.0.pending + last.0.line));
        assert(blocks_source(before.1) + (before.0.pending + before.0.line + seq![input.last()])
            =~= (blocks_source(before.1) + before.0.pending + before.0.line) + seq![
            input.last(),
        ]);
        assert((s.pending + s.line + input.drop_last()) + seq![input.last()] =~= s.pending
            + s.line + input);
    }
}

/// Nothing is lost and nothing moves: the blocks of a stream, put end to end,
/// are the stream.
pub proof fn lemma_rendered_source(input: Seq<char>)
    ensures
        blocks_source(rendered(input)) == input,
{
    let r = run(initial(), input);
    lemma_run_source(initial(), input);
    lemma_source_concat(r.1, finish(r.0));
    lemma_source_flushed(r.0.pending + r.0.line);
    assert(blocks_source(r.1) + (r.0.pending + r.0.line) =~= blocks_source(r.1) + r.0.pending
        + r.0.line);
    assert(initial().pending + initial().line + input =~= input);
}

/// How many complete lines of a stream are fence lines.
pub open spec fn fence_count(input: Seq<char>) -> nat
    decreases input.len(),
{
    let e = line_end(input);
    if 0 <= e < input.len() {
        let here: nat = if line_kind(input.take(e + 1)) == LineKind::Fence {
            1
        } else {
            0
        };
        here + fence_count(input.skip(e + 1))
    } else {
        0
    }
}

/// Characters other than newlines gather in the line and nothing leaves.
proof fn lemma_run_within_line(s: RendererView, part: Seq<char>)
    requires
        has_no_newline(part),
    ensures
        run(s, part).0 == (RendererView { line: s.line + part, ..s }),
        run(s, part).1 == Seq::<BlockView>::empty(),
    decreases part.len(),
{
    if part.len() == 0 {
        assert(s.line + part =~= s.line);
    } else {
        lemma_run_within_line(s, part.drop_last());
        assert(part.last() == part[part.len() - 1]);
        assert((s.line + part.drop_last()).push(part.last()) =~= s.line + part);
        assert(run(s, part).1 =~= Seq::<BlockView>::empty());
    }
}

/// Between two lines, a fence is open exactly when the fence lines so far are
/// odd in number, and an open fence holds at least its opening line.
pub proof fn lemma_fence_parity(s: RendererView, input: Seq<char>)
    requires
        s.line.len() == 0,
        s.in_fence ==> s.pending.len() > 0,
    ensures
        run(s, input).0.in_fence == (s.in_fence != (fence_count(input) % 2 == 1)),
        run(s, input).0.in_fence ==> run(s, input).0.pending.len() > 0,
    decreases input.len(),
{
    let e = line_end(input);
    lemma_leading_bounds(input, not_newline());
    if 0 <= e < input.len() {
        let body = input.take(e);
        let line = input.take(e + 1);
        let rest = input.skip(e + 1);
        assert forall|j: int| 0 <= j < body.len() implies #[trigger] body[j] != '\n' by {
            assert(not_newline()(input[j]));
        }
        lemma_run_within_line(s, body);
        assert(line.drop_last() =~= body);
        assert(line.last() == '\n');
        assert(s.line + body =~= body);
        assert(body.push('\n') =~= line);
        let mid = run(s, line);
        assert(mid.0 == end_line(RendererView { line: line, ..s }).0);
        assert(input =~= line + rest);
        lemma_run_concat(s, line, rest);
        lemma_fence_parity(mid.0, rest);
    } else {
        assert forall|j: int| 0 <= j < input.len() implies #[trigger] input[j] != '\n' by {
            assert(not_newline()(input[j]));
        }
        lemma_run_within_line(s, input);
    }
}

/// A stream with an odd number of fence lines ends inside a fence, and what
/// is held then, from the opening fence line on, leaves as the last block.
pub proof fn lemma_open_fence_is_flushed(input: Seq<char>)
    requires
        fence_count(input) % 2 == 1,
    ensures
        run(initial(), input).0.in_fence,
        run(initial(), input).0.pending.len() > 0,
        rendered(input) == run(initial(), input).1.push(
            BlockView::Text(run(initial(), input).0.pending + run(initial(), input).0.line),
        ),
{
    lemma_fence_parity(initial(), input);
    let r = run(initial(), input);
    assert(rendered(input) =~= r.1.push(BlockView::Text(r.0.pending + r.0.line)));
}

/// The text that a stream delivers: its pieces in order, up to the first failure.
pub open spec fn received(stream: Seq<Result<String, String>>) -> Seq<char>
    decreases stream.len(),
{
    if stream.len() == 0 {
        Seq::empty()
    } else {
        match stream[0] {
            Ok(chunk) => chunk@ + received(stream.drop_first()),
            Err(_) => Seq::empty(),
        }
    }
}

/// Renders a stream of pieces, each a piece of text or a failure that ends the
/// stream. Gives the whole text that arrived, and the blocks in the order in
/// which they were complete.
pub fn stream_and_render_response(stream: &Vec<Result<String, String>>) -> (r: (String, Vec<Block>))
    ensures
        r.0@ == received(stream@),
        block_views(r.1@) == rendered(r.0@),
{
    let mut full_response = String::new();
    let mut blocks: Vec<Block> = Vec::new();
    let mut renderer = StreamRenderer::new();
    let mut i: usize = 0;
    let mut failed = false;
    assert(block_views(blocks@) =~= Seq::<BlockView>::empty());
    assert(stream@.skip(0) =~= stream@);
    assert(full_response@ + received(stream@) =~= received(stream@));
    while i < stream.len() && !failed
        invariant
            i <= stream.len(),
            failed ==> received(stream@) == full_response@,
            !failed ==> received(stream@) == full_response@ + received(stream@.skip(i as int)),
            renderer@ == run(initial(), full_response@).0,
            block_views(blocks@) == run(initial(), full_response@).1,
        decreases stream.len() - i,
    {
        let ghost rest = stream@.skip(i as int);
        let ghost so_far = full_response@;
        let ghost done = block_views(blocks@);
        assert(rest[0] == stream@[i as int]);
        assert(rest.drop_first() =~= stream@.skip(i + 1));
        match &stream[i] {
            Ok(chunk) => {
                let mut more = renderer.feed(chunk.as_str());
                let ghost added = block_views(more@);
                full_response.append(chunk.as_str());
                blocks.append(&mut more);
                proof {
                    lemma_run_concat(initial(), so_far, chunk@);
                    assert(block_views(blocks@) =~= done + added);
                    assert(full_response@ + received(stream@.skip(i + 1)) =~= so_far + (chunk@
                        + received(stream@.skip(i + 1))));
                }
            },
            Err(_) => {
                failed = true;
            },
        }
        i += 1;
    }
    assert(received(stream@) =~= full_response@) by {
        if !failed {
            assert(received(stream@.skip(i as int)) =~= Seq::<char>::empty());
        }
        assert(full_response@ + Seq::<char>::empty() =~= full_response@);
    }
    let ghost done = block_views(blocks@);
    let mut last = renderer.finish();
    let ghost added = block_views(last@);
    blocks.append(&mut last);
    assert(block_views(blocks@) =~= done + added);
    (full_response, blocks)
}

/// Whether a character is numeric, as `char::is_numeric` tells.
pub uninterp spec fn is_numeric(c: char) -> bool;

/// `char::is_numeric`: whether the character is in one of Unicode's numeric
/// categories. The answer depends on the character alone.
#[verifier::external_body]
fn char_is_numeric(c: char) -> (b: bool)
    ensures
        b == is_numeric(c),
{
    c.is_numeric()
}

/// A trimmed line is a list item when it begins with `-`, `*` or `+`, or
/// begins with a numeric character and a full stop and is longer than two
/// bytes: something follows the full stop, or the numeric character is not
/// an ASCII one.
pub open spec fn list_item(t: Seq<char>, first_numeric: bool) -> bool {
    t.len() > 0 && (t[0] == '-' || t[0] == '*' || t[0] == '+' || (first_numeric && t.len() > 1
        && t[1] == '.' && (t.len() > 2 || t[0] as u32 >= 0x80)))
}

/// Whether a trimmed line is a list item, given whether its first character is numeric.
pub fn list_item_marked(trimmed: &str, first_numeric: bool) -> (b: bool)
    ensures
        b == list_item(trimmed@, first_numeric),
{
    let chars = to_chars(trimmed);
    if chars.len() == 0 {
        return false;
    }
    let first = chars[0];
    first == '-' || first == '*' || first == '+' || (first_numeric && chars.len() > 1 && chars[1]
        == '.' && (chars.len() > 2 || first as u32 >= 0x80))
}

/// Whether a trimmed line is a list item.
pub fn is_list_item(trimmed: &str) -> (b: bool)
    ensures
        b == list_item(trimmed@, trimmed@.len() > 0 && is_numeric(trimmed@[0])),
{
    let chars = to_chars(trimmed);
    let first_numeric = chars.len() > 0 && char_is_numeric(chars[0]);
    list_item_marked(trimmed, first_numeric)
}

} // verus!
