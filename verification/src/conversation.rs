//! Conversations as ordered turns, and the text document that stores one.

use crate::text::{
    char_is_control, contains, contains_text, ends_with, ends_with_text, is_blank, is_control,
    join_lines, leading, lemma_leading_bounds, lemma_leading_is, lemma_strip_idempotent,
    lemma_strip_is, lemma_trailing_bounds, line_views, lines, push_chars, same_text,
    split_lines, starts_with, starts_with_at, strip, text_views, to_chars, to_text, trim,
    trim_bounds, whitespace,
};
use vstd::prelude::*;
use vstd::string::StringExecFns;

verus! {

/// Who speaks in a turn.
#[derive(Clone, Copy, Debug, PartialEq, Eq, Structural)]
pub enum Role {
    User,
    Assistant,
}

/// One message of a conversation.
#[derive(Clone, Debug, PartialEq, Eq)]
pub struct Turn {
    pub role: Role,
    pub content: String,
}

/// A turn as contracts speak of it.
pub ghost struct TurnView {
    pub role: Role,
    pub content: Seq<char>,
}

impl View for Turn {
    type V = TurnView;

    open spec fn view(&self) -> TurnView {
        TurnView { role: self.role, content: self.content@ }
    }
}

/// The views of a list of turns.
pub open spec fn turn_views(ts: Seq<Turn>) -> Seq<TurnView> {
    ts.map_values(|t: Turn| t@)
}

/// The view of a text that may be missing.
pub open spec fn text_view(o: Option<String>) -> Option<Seq<char>> {
    match o {
        Some(s) => Some(s@),
        None => None,
    }
}

/// The name by which a role goes outside the document.
pub open spec fn role_name(role: Role) -> Seq<char> {
    match role {
        Role::User => "user"@,
        Role::Assistant => "assistant"@,
    }
}

/// The heading that opens a turn of the role in a document.
pub open spec fn role_heading(role: Role) -> Seq<char> {
    match role {
        Role::User => "## You"@,
        Role::Assistant => "## Assistant"@,
    }
}

impl Role {
    /// The role that a name stands for: `user` is the user, any other name the assistant.
    pub fn from_name(name: &str) -> (role: Role)
        ensures
            role == (if name@ == "user"@ {
                Role::User
            } else {
                Role::Assistant
            }),
    {
        let given = to_chars(name);
        let user = to_chars("user");
        if same_text(&given, &user) {
            Role::User
        } else {
            Role::Assistant
        }
    }

    /// The name by which the role goes outside the document.
    pub fn name(&self) -> (out: &'static str)
        ensures
            out@ == role_name(*self),
    {
        match self {
            Role::User => "user",
            Role::Assistant => "assistant",
        }
    }

    /// The heading that opens the role's turns in a document.
    pub fn heading(&self) -> (out: &'static str)
        ensures
            out@ == role_heading(*self),
    {
        match self {
            Role::User => "## You",
            Role::Assistant => "## Assistant",
        }
    }
}

/// The first line of a document and the blank line after it: the title, or the
/// placeholder that holds the identifier.
pub open spec fn header_text(id: Seq<char>, title: Option<Seq<char>>) -> Seq<char> {
    match title {
        Some(t) => "# "@ + t + "\n\n"@,
        None => "# "@ + "Conversation "@ + id + "\n\n"@,
    }
}

/// What one turn adds to a document.
pub open spec fn turn_text(t: TurnView) -> Seq<char> {
    "\n"@ + role_heading(t.role) + "\n\n"@ + t.content + "\n\n"@
}

/// The turns of a document, one after the other.
pub open spec fn turns_text(ts: Seq<TurnView>) -> Seq<char>
    decreases ts.len(),
{
    if ts.len() == 0 {
        Seq::empty()
    } else {
        turn_text(ts[0]) + turns_text(ts.drop_first())
    }
}

/// The whole document of a conversation.
pub open spec fn document_text(id: Seq<char>, title: Option<Seq<char>>, ts: Seq<TurnView>) -> Seq<
    char,
> {
    header_text(id, title) + turns_text(ts)
}

/// Writing the turns one at a time gives what writing them all at once gives:
/// the text of `ts` followed by `t` is the text of `ts` with the text of `t` after it.
pub proof fn lemma_turns_text_push(ts: Seq<TurnView>, t: TurnView)
    ensures
        turns_text(ts.push(t)) == turns_text(ts) + turn_text(t),
    decreases ts.len(),
{
    if ts.len() == 0 {
        assert(ts.push(t).drop_first() =~= ts);
        assert(turns_text(ts.push(t)) =~= turns_text(ts) + turn_text(t));
    } else {
        lemma_turns_text_push(ts.drop_first(), t);
        assert(ts.push(t).drop_first() =~= ts.drop_first().push(t));
        assert(turns_text(ts.push(t)) =~= turns_text(ts) + turn_text(t));
    }
}

/// The document after a header was written and each turn of `ts` appended in turn.
pub open spec fn appended_text(header: Seq<char>, ts: Seq<TurnView>) -> Seq<char>
    decreases ts.len(),
{
    if ts.len() == 0 {
        header
    } else {
        appended_text(header, ts.drop_last()) + turn_text(ts.last())
    }
}

/// A document grown by appending turn after turn equals the document written in
/// one piece from the same turns.
pub proof fn lemma_appends_equal_document(
    id: Seq<char>,
    title: Option<Seq<char>>,
    ts: Seq<TurnView>,
)
    ensures
        appended_text(header_text(id, title), ts) == document_text(id, title, ts),
    decreases ts.len(),
{
    if ts.len() == 0 {
        assert(document_text(id, title, ts) =~= header_text(id, title));
    } else {
        lemma_appends_equal_document(id, title, ts.drop_last());
        lemma_turns_text_push(ts.drop_last(), ts.last());
        assert(ts.drop_last().push(ts.last()) =~= ts);
        assert(appended_text(header_text(id, title), ts) =~= document_text(id, title, ts));
    }
}

/// Characters that a file name cannot hold.
pub open spec fn is_reserved(c: char) -> bool {
    c == '/' || c == '\\' || c == ':' || c == '*' || c == '?' || c == '"' || c == '<' || c == '>'
        || c == '|'
}

/// A character as it stands in a file name.
pub open spec fn sanitize_char(c: char) -> char {
    if is_reserved(c) || is_control(c) {
        '_'
    } else {
        c
    }
}

/// A title as a file name: reserved and control characters become `_`, then
/// the whitespace at either end is removed.
pub open spec fn sanitized(title: Seq<char>) -> Seq<char> {
    trim(title.map_values(|c: char| sanitize_char(c)))
}

/// Makes a file name of a title.
pub fn sanitize_filename(title: &str) -> (out: String)
    ensures
        out@ == sanitized(title@),
{
    let chars = to_chars(title);
    let mut mapped: Vec<char> = Vec::new();
    let mut i: usize = 0;
    while i < chars.len()
        invariant
            i <= chars.len(),
            mapped@ == chars@.take(i as int).map_values(|c: char| sanitize_char(c)),
        decreases chars.len() - i,
    {
        let c = chars[i];
        let reserved = c == '/' || c == '\\' || c == ':' || c == '*' || c == '?' || c == '"' || c
            == '<' || c == '>' || c == '|';
        let m = if reserved || char_is_control(c) {
            '_'
        } else {
            c
        };
        mapped.push(m);
        i += 1;
        assert(chars@.take(i as int).map_values(|c: char| sanitize_char(c)) =~= chars@.take(
            i - 1,
        ).map_values(|c: char| sanitize_char(c)).push(sanitize_char(c)));
    }
    assert(chars@.take(i as int) =~= chars@);
    assert(mapped@.subrange(0, mapped@.len() as int) =~= mapped@);
    let (lo, hi) = trim_bounds(&mapped, 0, mapped.len());
    to_text(&mapped, lo, hi)
}

/// Sanitizing a sanitized title changes nothing.
pub proof fn lemma_sanitize_idempotent(title: Seq<char>)
    ensures
        sanitized(sanitized(title)) == sanitized(title),
{
    let f = |c: char| sanitize_char(c);
    let m = title.map_values(f);
    let r = sanitized(title);
    lemma_leading_bounds(m, whitespace());
    lemma_trailing_bounds(m.skip(leading(m, whitespace()) as int), whitespace());
    assert(r.map_values(f) =~= r);
    lemma_strip_idempotent(m, whitespace());
}

/// A first line that is a heading begins with `# `.
pub open spec fn has_title_marker(l: Seq<char>) -> bool {
    l.len() >= 2 && l[0] == '#' && l[1] == ' '
}

/// A heading line without the markers that it begins with.
pub open spec fn strip_title_markers(l: Seq<char>) -> Seq<char>
    decreases l.len(),
{
    if has_title_marker(l) {
        strip_title_markers(l.skip(2))
    } else {
        l
    }
}

/// The title that a heading line gives: its text without markers and without
/// the whitespace around it, unless that text is the placeholder of an
/// untitled conversation.
pub open spec fn line_title(l: Seq<char>) -> Option<Seq<char>> {
    let t = trim(strip_title_markers(l));
    if starts_with(t, "Conversation "@) {
        None
    } else {
        Some(t)
    }
}

/// The title of a document, from its lines.
pub open spec fn title_of(ls: Seq<Seq<char>>) -> Option<Seq<char>> {
    if ls.len() > 0 && has_title_marker(ls[0]) {
        line_title(ls[0])
    } else {
        None
    }
}

/// The lines of a document after its heading line, if it has one.
pub open spec fn body_of(ls: Seq<Seq<char>>) -> Seq<Seq<char>> {
    if ls.len() > 0 && has_title_marker(ls[0]) {
        ls.drop_first()
    } else {
        ls
    }
}

/// The role whose turn a line opens. A line opens a turn when it begins with a
/// role's heading, whatever follows on the line.
pub open spec fn heading_role(l: Seq<char>) -> Option<Role> {
    if starts_with(l, "## You"@) {
        Some(Role::User)
    } else if starts_with(l, "## Assistant"@) {
        Some(Role::Assistant)
    } else {
        None
    }
}

/// Lines that continue a turn: those that open no turn themselves.
pub open spec fn in_section() -> spec_fn(Seq<char>) -> bool {
    |l: Seq<char>| heading_role(l) is None
}

/// Lines that hold whitespace only.
pub open spec fn blank() -> spec_fn(Seq<char>) -> bool {
    |l: Seq<char>| is_blank(l)
}

/// The turns that a document's body holds. A role heading opens a turn; the
/// turn's lines run up to the next role heading or to the end, and any other
/// line among them, a heading of another kind too, is kept as it is; blank
/// lines at either end of them are dropped, and a turn with nothing left is
/// dropped too. Lines before the first role heading are passed over.
pub open spec fn turns_of(ls: Seq<Seq<char>>) -> Seq<TurnView>
    decreases ls.len(),
    via turns_of_decreases
{
    if ls.len() == 0 {
        Seq::empty()
    } else {
        let rest = ls.drop_first();
        match heading_role(ls[0]) {
            Some(role) => {
                let n = leading(rest, in_section()) as int;
                let body = strip(rest.take(n), blank());
                let first = if body.len() > 0 {
                    seq![TurnView { role, content: join_lines(body) }]
                } else {
                    Seq::empty()
                };
                first + turns_of(rest.skip(n))
            },
            None => turns_of(rest),
        }
    }
}

#[via_fn]
proof fn turns_of_decreases(ls: Seq<Seq<char>>) {
    if ls.len() > 0 {
        lemma_leading_bounds(ls.drop_first(), in_section());
    }
}

/// The turns that a document holds.
pub open spec fn parsed_turns(text: Seq<char>) -> Seq<TurnView> {
    turns_of(body_of(lines(text)))
}

/// The title that a document holds, if it has one.
pub open spec fn parsed_title(text: Seq<char>) -> Option<Seq<char>> {
    title_of(lines(text))
}

/// Joined lines of which the first is not blank hold at least one character.
proof fn lemma_join_not_empty(ls: Seq<Seq<char>>)
    requires
        ls.len() > 0,
        !is_blank(ls[0]),
    ensures
        join_lines(ls).len() > 0,
{
}

/// No turn that is read from a document is empty: a turn with nothing but
/// blank lines is dropped.
pub proof fn lemma_turns_have_content(ls: Seq<Seq<char>>)
    ensures
        forall|i: int| 0 <= i < turns_of(ls).len() ==> (#[trigger] turns_of(ls)[i]).content.len() > 0,
    decreases ls.len(),
{
    if ls.len() > 0 {
        let rest = ls.drop_first();
        lemma_leading_bounds(rest, in_section());
        match heading_role(ls[0]) {
            Some(role) => {
                let n = leading(rest, in_section()) as int;
                let section = rest.take(n);
                let body = strip(section, blank());
                lemma_turns_have_content(rest.skip(n));
                if body.len() > 0 {
                    let lead = leading(section, blank()) as int;
                    lemma_leading_bounds(section, blank());
                    let t = section.skip(lead);
                    lemma_trailing_bounds(t, blank());
                    assert(body[0] == t[0]);
                    assert(t[0] == section[lead]);
                    assert(!blank()(section[lead]));
                    lemma_join_not_empty(body);
                }
            },
            None => {
                lemma_turns_have_content(rest);
            },
        }
    }
}

proof fn lemma_strip_marker(l: Seq<char>)
    requires
        has_title_marker(l),
    ensures
        strip_title_markers(l) == strip_title_markers(l.skip(2)),
{
}

fn title_of_line(l: &Vec<char>) -> (out: Option<String>)
    ensures
        text_view(out) == line_title(l@),
{
    let placeholder = to_chars("Conversation ");
    let mut k: usize = 0;
    let ghost mut rest = l@;
    assert(l@.skip(0) =~= l@);
    while l.len() - k >= 2 && l[k] == '#' && l[k + 1] == ' '
        invariant
            k <= l.len(),
            rest == l@.skip(k as int),
            strip_title_markers(l@) == strip_title_markers(rest),
        decreases l.len() - k,
    {
        proof {
            assert(rest[0] == l@[k as int] && rest[1] == l@[k + 1]);
            lemma_strip_marker(rest);
            assert(rest.skip(2) =~= l@.skip(k + 2));
            rest = rest.skip(2);
        }
        k += 2;
    }
    proof {
        if l.len() - k >= 2 {
            assert(rest[0] == l@[k as int] && rest[1] == l@[k + 1]);
        }
        assert(!has_title_marker(rest));
        assert(strip_title_markers(rest) == rest);
        assert(l@.subrange(k as int, l@.len() as int) =~= rest);
    }
    let (lo, hi) = trim_bounds(l, k, l.len());
    if starts_with_at(l, lo, hi, &placeholder) {
        None
    } else {
        Some(to_text(l, lo, hi))
    }
}

fn role_of_line(l: &Vec<char>, you: &Vec<char>, assistant: &Vec<char>) -> (out: Option<Role>)
    requires
        you@ == "## You"@,
        assistant@ == "## Assistant"@,
    ensures
        out == heading_role(l@),
{
    assert(l@.subrange(0, l@.len() as int) =~= l@);
    if starts_with_at(l, 0, l.len(), you) {
        Some(Role::User)
    } else if starts_with_at(l, 0, l.len(), assistant) {
        Some(Role::Assistant)
    } else {
        None
    }
}

fn line_is_blank(l: &Vec<char>) -> (b: bool)
    ensures
        b == is_blank(l@),
{
    assert(l@.subrange(0, l@.len() as int) =~= l@);
    let (lo, hi) = trim_bounds(l, 0, l.len());
    lo == hi
}

fn join_range(ls: &Vec<Vec<char>>, a: usize, b: usize) -> (out: String)
    requires
        a <= b <= ls.len(),
    ensures
        out@ == join_lines(line_views(ls@).subrange(a as int, b as int)),
{
    let ghost all = line_views(ls@);
    let mut buf: Vec<char> = Vec::new();
    let mut k: usize = a;
    while k < b
        invariant
            a <= k <= b <= ls.len(),
            all == line_views(ls@),
            buf@ == join_lines(all.subrange(a as int, k as int)),
        decreases b - k,
    {
        let ghost before = all.subrange(a as int, k as int);
        if k > a {
            buf.push('\n');
        }
        push_chars(&mut buf, &ls[k], 0, ls[k].len());
        k += 1;
        proof {
            let now = all.subrange(a as int, k as int);
            assert(now.drop_last() =~= before);
            assert(now.last() == ls@[k - 1]@);
            assert(ls@[k - 1]@.subrange(0, ls@[k - 1]@.len() as int) =~= ls@[k - 1]@);
            assert(buf@ =~= join_lines(now));
        }
    }
    to_text(&buf, 0, buf.len())
}

fn parse_lines(ls: &Vec<Vec<char>>, start: usize) -> (out: Vec<Turn>)
    requires
        start <= ls.len(),
    ensures
        turn_views(out@) == turns_of(line_views(ls@).skip(start as int)),
{
    let ghost all = line_views(ls@);
    let you = to_chars("## You");
    let assistant = to_chars("## Assistant");
    let mut out: Vec<Turn> = Vec::new();
    let mut i: usize = start;
    assert(turn_views(out@) =~= Seq::<TurnView>::empty());
    while i < ls.len()
        invariant
            start <= i <= ls.len(),
            all == line_views(ls@),
            you@ == "## You"@,
            assistant@ == "## Assistant"@,
            turns_of(all.skip(start as int)) == turn_views(out@) + turns_of(all.skip(i as int)),
        decreases ls.len() - i,
    {
        let ghost here = all.skip(i as int);
        let ghost rest = here.drop_first();
        let ghost done = turn_views(out@);
        assert(rest =~= all.skip(i + 1));
        assert(here[0] == ls@[i as int]@);
        let found = role_of_line(&ls[i], &you, &assistant);
        i += 1;
        match found {
            Some(role) => {
                let from = i;
                while i < ls.len() && role_of_line(&ls[i], &you, &assistant).is_none()
                    invariant
                        from <= i <= ls.len(),
                        all == line_views(ls@),
                        you@ == "## You"@,
                        assistant@ == "## Assistant"@,
                        forall|j: int| from <= j < i ==> in_section()(#[trigger] all[j]),
                    decreases ls.len() - i,
                {
                    i += 1;
                }
                let mut a: usize = from;
                while a < i && line_is_blank(&ls[a])
                    invariant
                        from <= a <= i <= ls.len(),
                        all == line_views(ls@),
                        forall|j: int| from <= j < a ==> is_blank(#[trigger] all[j]),
                    decreases i - a,
                {
                    a += 1;
                }
                let mut b: usize = i;
                while b > a && line_is_blank(&ls[b - 1])
                    invariant
                        a <= b <= i <= ls.len(),
                        all == line_views(ls@),
                        forall|j: int| b <= j < i ==> is_blank(#[trigger] all[j]),
                    decreases b,
                {
                    b -= 1;
                }
                proof {
                    let n = i - from;
                    if i < ls.len() {
                        assert(rest[n] == all[i as int]);
                    }
                    assert forall|j: int| 0 <= j < n implies in_section()(#[trigger] rest[j]) by {
                        assert(rest[j] == all[from + j]);
                    }
                    lemma_leading_is(rest, in_section(), n);
                    let section = rest.take(n);
                    assert(section =~= all.subrange(from as int, i as int));
                    assert forall|j: int| 0 <= j < a - from implies blank()(
                        #[trigger] section[j],
                    ) by {
                        assert(section[j] == all[from + j]);
                    }
                    assert forall|j: int| b - from <= j < section.len() implies blank()(
                        #[trigger] section[j],
                    ) by {
                        assert(section[j] == all[from + j]);
                    }
                    if a < i {
                        assert(section[a - from] == all[a as int]);
                    }
                    if b > a {
                        assert(section[b - from - 1] == all[b - 1]);
                    }
                    lemma_strip_is(section, blank(), a - from, b - from);
                    assert(section.subrange(a - from, b - from) =~= all.subrange(
                        a as int,
                        b as int,
                    ));
                    assert(rest.skip(n) =~= all.skip(i as int));
                }
                if a < b {
                    let content = join_range(ls, a, b);
                    let turn = Turn { role, content };
                    out.push(turn);
                    proof {
                        assert(turn_views(out@) =~= done.push(turn@));
                        assert(turns_of(all.skip(start as int)) =~= turn_views(out@) + turns_of(
                            all.skip(i as int),
                        ));
                    }
                } else {
                    proof {
                        assert(turns_of(all.skip(start as int)) =~= turn_views(out@) + turns_of(
                            all.skip(i as int),
                        ));
                    }
                }
            },
            None => {},
        }
    }
    assert(turn_views(out@) + Seq::<TurnView>::empty() =~= turn_views(out@));
    out
}

/// Reads a document: its turns in order, and its title if it has one.
pub fn parse_markdown_conversation(content: &str) -> (r: (Vec<Turn>, Option<String>))
    ensures
        turn_views(r.0@) == parsed_turns(content@),
        text_view(r.1) == parsed_title(content@),
{
    let chars = to_chars(content);
    let ls = split_lines(&chars);
    let ghost all = line_views(ls@);
    let titled = ls.len() > 0 && ls[0].len() >= 2 && ls[0][0] == '#' && ls[0][1] == ' ';
    assert(titled == (all.len() > 0 && has_title_marker(all[0])));
    if titled {
        let title = title_of_line(&ls[0]);
        assert(all.skip(1) =~= all.drop_first());
        let turns = parse_lines(&ls, 1);
        (turns, title)
    } else {
        assert(all.skip(0) =~= all);
        let turns = parse_lines(&ls, 0);
        (turns, None)
    }
}

/// Why a conversation could not be found or placed.
#[derive(Clone, Copy, Debug, PartialEq, Eq, Structural)]
pub enum StoreError {
    /// No document matches the identifier or fragment.
    NotFound,
    /// No usable storage directory was given and no home directory is known.
    NoHomeDirectory,
}

/// A conversation: its turns in order, and where its document is kept.
#[derive(Clone, Debug, PartialEq, Eq)]
pub struct Conversation {
    pub id: String,
    pub file_path: String,
    pub messages: Vec<Turn>,
    pub title: Option<String>,
}

/// A conversation as contracts speak of it.
pub ghost struct ConversationView {
    pub id: Seq<char>,
    pub file_path: Seq<char>,
    pub turns: Seq<TurnView>,
    pub title: Option<Seq<char>>,
}

impl View for Conversation {
    type V = ConversationView;

    open spec fn view(&self) -> ConversationView {
        ConversationView {
            id: self.id@,
            file_path: self.file_path@,
            turns: turn_views(self.messages@),
            title: text_view(self.title),
        }
    }
}

/// What a listing shows of a stored conversation.
#[derive(Clone, Debug, PartialEq, Eq)]
pub struct ConversationInfo {
    pub id: String,
    pub title: Option<String>,
    pub file_path: String,
    /// When the document was last written, where that is known.
    pub modified: Option<u64>,
}

/// A listing entry as contracts speak of it.
pub ghost struct ConversationInfoView {
    pub id: Seq<char>,
    pub title: Option<Seq<char>>,
    pub file_path: Seq<char>,
    pub modified: Option<u64>,
}

impl View for ConversationInfo {
    type V = ConversationInfoView;

    open spec fn view(&self) -> ConversationInfoView {
        ConversationInfoView {
            id: self.id@,
            title: text_view(self.title),
            file_path: self.file_path@,
            modified: self.modified,
        }
    }
}

/// The name of the document with the given stem.
pub open spec fn document_name(stem: Seq<char>) -> Seq<char> {
    stem + ".md"@
}

/// Where a file of the given name lies in a directory.
pub open spec fn path_in(dir: Seq<char>, name: Seq<char>) -> Seq<char> {
    dir + "/"@ + name
}

/// A file name is a document's when it ends in `.md` after a stem that is not empty.
pub open spec fn is_document_name(name: Seq<char>) -> bool {
    ends_with(name, ".md"@) && name.len() > ".md"@.len()
}

/// A document's name without `.md`; any other name as it is.
pub open spec fn stem_of(name: Seq<char>) -> Seq<char> {
    if is_document_name(name) {
        name.take(name.len() - ".md"@.len())
    } else {
        name
    }
}

/// The characters of a generated identifier: lower-case hexadecimal digits and hyphens.
pub open spec fn is_identifier_char(c: char) -> bool {
    ('0' <= c <= '9') || ('a' <= c <= 'f') || c == '-'
}

/// The form of a generated identifier: 36 such characters.
pub open spec fn is_generated_identifier(id: Seq<char>) -> bool {
    id.len() == 36 && forall|i: int| 0 <= i < id.len() ==> is_identifier_char(#[trigger] id[i])
}

/// `uuid::Uuid::new_v4`, written out by the identifier's `Display`: a random
/// identifier in hyphenated form, 36 characters, each a lower-case hexadecimal
/// digit or a hyphen. Which identifier comes is not stated. The call fails
/// only where the system has no source of random bytes.
#[verifier::external_body]
fn generate_identifier() -> (id: String)
    ensures
        is_generated_identifier(id@),
{
    uuid::Uuid::new_v4().to_string()
}

fn join_path(dir: &str, name: &str) -> (out: String)
    ensures
        out@ == path_in(dir@, name@),
{
    let mut out = String::new();
    out.append(dir);
    out.append("/");
    out.append(name);
    assert(out@ =~= path_in(dir@, name@));
    out
}

/// Whether a file of this name is a conversation's document.
pub fn is_conversation_document(name: &str) -> (b: bool)
    ensures
        b == is_document_name(name@),
{
    let chars = to_chars(name);
    let suffix = to_chars(".md");
    ends_with_text(&chars, &suffix) && chars.len() > suffix.len()
}

/// The identifier that a document's file name gives.
pub fn document_stem(name: &str) -> (out: String)
    ensures
        out@ == stem_of(name@),
{
    let chars = to_chars(name);
    let suffix = to_chars(".md");
    let out = if ends_with_text(&chars, &suffix) && chars.len() > suffix.len() {
        to_text(&chars, 0, chars.len() - suffix.len())
    } else {
        to_text(&chars, 0, chars.len())
    };
    assert(chars@.subrange(0, chars@.len() as int) =~= chars@);
    out
}

impl Conversation {
    /// A conversation without turns or title, kept under `dir` in the document
    /// named after `id`.
    pub fn with_id(dir: &str, id: String) -> (c: Conversation)
        ensures
            c@ == (ConversationView {
                id: id@,
                file_path: path_in(dir@, document_name(id@)),
                turns: Seq::empty(),
                title: None,
            }),
    {
        let mut name = id.clone();
        name.append(".md");
        let file_path = join_path(dir, name.as_str());
        let c = Conversation { id, file_path, messages: Vec::new(), title: None };
        assert(c@.turns =~= Seq::<TurnView>::empty());
        c
    }

    /// A conversation without turns or title under a freshly generated identifier.
    pub fn new(dir: &str) -> (c: Conversation)
        ensures
            is_generated_identifier(c@.id),
            c@ == (ConversationView {
                id: c@.id,
                file_path: path_in(dir@, document_name(c@.id)),
                turns: Seq::empty(),
                title: None,
            }),
    {
        Conversation::with_id(dir, generate_identifier())
    }

    /// The conversation that the document `file_name` under `dir` holds.
    pub fn load(dir: &str, file_name: &str, content: &str) -> (c: Conversation)
        ensures
            c@ == (ConversationView {
                id: stem_of(file_name@),
                file_path: path_in(dir@, file_name@),
                turns: parsed_turns(content@),
                title: parsed_title(content@),
            }),
    {
        let (messages, title) = parse_markdown_conversation(content);
        Conversation {
            id: document_stem(file_name),
            file_path: join_path(dir, file_name),
            messages,
            title,
        }
    }

    /// The first line of the conversation's document, with the blank line after it.
    pub fn write_header(&self) -> (out: String)
        ensures
            out@ == header_text(self@.id, self@.title),
    {
        let mut out = String::new();
        out.append("# ");
        match &self.title {
            Some(title) => {
                out.append(title.as_str());
            },
            None => {
                out.append("Conversation ");
                out.append(self.id.as_str());
            },
        }
        out.append("\n\n");
        assert(out@ =~= header_text(self@.id, self@.title));
        out
    }

    /// The conversation's whole document.
    pub fn rewrite_file_with_title(&self) -> (out: String)
        ensures
            out@ == document_text(self@.id, self@.title, self@.turns),
    {
        let mut out = self.write_header();
        let ghost header = out@;
        let ghost all = self@.turns;
        let mut i: usize = 0;
        assert(all.take(0) =~= Seq::<TurnView>::empty());
        assert(out@ =~= header + turns_text(all.take(0)));
        while i < self.messages.len()
            invariant
                i <= self.messages.len(),
                all == turn_views(self.messages@),
                out@ == header + turns_text(all.take(i as int)),
            decreases self.messages.len() - i,
        {
            let turn = &self.messages[i];
            out.append("\n");
            out.append(turn.role.heading());
            out.append("\n\n");
            out.append(turn.content.as_str());
            out.append("\n\n");
            proof {
                lemma_turns_text_push(all.take(i as int), turn@);
                assert(all.take(i + 1) =~= all.take(i as int).push(turn@));
                assert(out@ =~= header + turns_text(all.take(i + 1)));
            }
            i += 1;
        }
        assert(all.take(i as int) =~= all);
        out
    }

    /// Adds a turn at the end, and gives the text by which the document grows.
    pub fn add_message(&mut self, role: Role, content: &str) -> (written: String)
        ensures
            final(self)@ == (ConversationView {
                turns: old(self)@.turns.push(TurnView { role, content: content@ }),
                ..old(self)@
            }),
            written@ == turn_text(TurnView { role, content: content@ }),
    {
        let turn = Turn { role, content: content.to_owned() };
        let ghost before = turn_views(self.messages@);
        self.messages.push(turn);
        assert(turn_views(self.messages@) =~= before.push(turn@));
        let mut out = String::new();
        out.append("\n");
        out.append(role.heading());
        out.append("\n\n");
        out.append(content);
        out.append("\n\n");
        assert(out@ =~= turn_text(TurnView { role, content: content@ }));
        out
    }

    /// Where the document goes under `dir` once the conversation has the title.
    pub fn titled_path(dir: &str, title: &str) -> (out: String)
        ensures
            out@ == path_in(dir@, document_name(sanitized(title@))),
    {
        let mut name = sanitize_filename(title);
        name.append(".md");
        join_path(dir, name.as_str())
    }

    /// Gives the conversation its title and its place under `dir`, and returns
    /// the document as it is to be written there.
    pub fn set_title(&mut self, dir: &str, title: String) -> (document: String)
        ensures
            final(self)@ == (ConversationView {
                title: Some(title@),
                file_path: path_in(dir@, document_name(sanitized(title@))),
                ..old(self)@
            }),
            document@ == document_text(old(self)@.id, Some(title@), old(self)@.turns),
    {
        self.file_path = Conversation::titled_path(dir, title.as_str());
        self.title = Some(title);
        self.rewrite_file_with_title()
    }
}

/// The storage directory: the override where one is given and usable, else
/// `.rye` under the home directory.
pub open spec fn storage_dir(
    custom: Option<Seq<char>>,
    usable: bool,
    home: Option<Seq<char>>,
) -> Result<Seq<char>, StoreError> {
    if custom is Some && usable {
        Ok(custom->0)
    } else if home is Some {
        Ok(path_in(home->0, ".rye"@))
    } else {
        Err(StoreError::NoHomeDirectory)
    }
}

/// The view of a path, or the error in its place.
pub open spec fn path_result_view(r: Result<String, StoreError>) -> Result<Seq<char>, StoreError> {
    match r {
        Ok(s) => Ok(s@),
        Err(e) => Err(e),
    }
}

/// Chooses the storage directory. `custom` is the override path where one is
/// set, `custom_usable` says whether it or its parent exists, `home` is the
/// home directory where one is known.
pub fn choose_conversations_dir(
    custom: Option<String>,
    custom_usable: bool,
    home: Option<String>,
) -> (r: Result<String, StoreError>)
    ensures
        path_result_view(r) == storage_dir(text_view(custom), custom_usable, text_view(home)),
{
    match custom {
        Some(path) => {
            if custom_usable {
                return Ok(path);
            }
        },
        None => {},
    }
    match home {
        Some(h) => Ok(join_path(h.as_str(), ".rye")),
        None => Err(StoreError::NoHomeDirectory),
    }
}

/// `dirs::home_dir`: the home directory of the user, where the system names
/// one and its path can be written as text. Nothing is stated of which
/// directory that is: it depends on the environment.
#[verifier::external_body]
fn home_directory() -> (home: Option<String>) {
    match dirs::home_dir() {
        Some(path) => path.into_os_string().into_string().ok(),
        None => None,
    }
}

/// The storage directory: the override where it is usable, else `.rye` under
/// the home directory that the system names. The home directory is asked for
/// only where the override does not decide.
pub fn get_conversations_dir(custom: Option<String>, custom_usable: bool) -> (r: Result<
    String,
    StoreError,
>)
    ensures
        exists|home: Option<Seq<char>>|
            path_result_view(r) == #[trigger] storage_dir(text_view(custom), custom_usable, home),
        custom is Some && custom_usable ==> path_result_view(r) == Ok::<Seq<char>, StoreError>(
            custom->0@,
        ),
{
    if custom.is_some() && custom_usable {
        let r = choose_conversations_dir(custom, custom_usable, None);
        assert(path_result_view(r) == storage_dir(text_view(custom), custom_usable, None));
        r
    } else {
        let home = home_directory();
        let r = choose_conversations_dir(custom, custom_usable, home);
        assert(path_result_view(r) == storage_dir(
            text_view(custom),
            custom_usable,
            text_view(home),
        ));
        r
    }
}

/// Names that are no document holding the fragment.
pub open spec fn no_match(fragment: Seq<char>) -> spec_fn(Seq<char>) -> bool {
    |name: Seq<char>| !(is_document_name(name) && contains(name, fragment))
}

/// The first document, in the order given, whose name holds the fragment.
pub open spec fn first_match(names: Seq<Seq<char>>, fragment: Seq<char>) -> Result<
    Seq<char>,
    StoreError,
> {
    let k = leading(names, no_match(fragment)) as int;
    if k < names.len() {
        Ok(names[k])
    } else {
        Err(StoreError::NotFound)
    }
}

/// Finds, among the names of a directory's files, the first document whose
/// name holds `id` somewhere.
pub fn find_conversation_file(names: &Vec<String>, id: &str) -> (r: Result<String, StoreError>)
    ensures
        path_result_view(r) == first_match(text_views(names@), id@),
{
    let fragment = to_chars(id);
    let suffix = to_chars(".md");
    let ghost all = text_views(names@);
    let mut k: usize = 0;
    while k < names.len()
        invariant
            k <= names.len(),
            all == text_views(names@),
            fragment@ == id@,
            suffix@ == ".md"@,
            forall|j: int| 0 <= j < k ==> no_match(id@)(#[trigger] all[j]),
        decreases names.len() - k,
    {
        let name = to_chars(names[k].as_str());
        if ends_with_text(&name, &suffix) && name.len() > suffix.len() && contains_text(
            &name,
            &fragment,
        ) {
            proof {
                lemma_leading_is(all, no_match(id@), k as int);
            }
            return Ok(names[k].clone());
        }
        k += 1;
    }
    proof {
        lemma_leading_is(all, no_match(id@), k as int);
    }
    Err(StoreError::NotFound)
}

/// The document that an identifier or a fragment of a name stands for: the
/// document named exactly after it where there is one, else the first whose
/// name holds it.
pub open spec fn located(names: Seq<Seq<char>>, id: Seq<char>) -> Result<Seq<char>, StoreError> {
    if names.contains(document_name(id)) {
        Ok(document_name(id))
    } else {
        first_match(names, id)
    }
}

/// Picks the document to load for `id` among the names of a directory's files.
pub fn locate(names: &Vec<String>, id: &str) -> (r: Result<String, StoreError>)
    ensures
        path_result_view(r) == located(text_views(names@), id@),
{
    let mut wanted = String::new();
    wanted.append(id);
    wanted.append(".md");
    assert(wanted@ =~= document_name(id@));
    let exact = to_chars(wanted.as_str());
    let ghost all = text_views(names@);
    let mut k: usize = 0;
    while k < names.len()
        invariant
            k <= names.len(),
            all == text_views(names@),
            exact@ == document_name(id@),
            wanted@ == document_name(id@),
            forall|j: int| 0 <= j < k ==> #[trigger] all[j] != document_name(id@),
        decreases names.len() - k,
    {
        let name = to_chars(names[k].as_str());
        if same_text(&name, &exact) {
            assert(all[k as int] == document_name(id@));
            return Ok(wanted);
        }
        k += 1;
    }
    find_conversation_file(names, id)
}

/// A file of the storage directory, as it was read.
#[derive(Clone, Debug, PartialEq, Eq)]
pub struct Document {
    pub name: String,
    pub content: String,
    /// When the file was last written, where that is known.
    pub modified: Option<u64>,
}

/// A file of the storage directory as contracts speak of it.
pub ghost struct DocumentView {
    pub name: Seq<char>,
    pub content: Seq<char>,
    pub modified: Option<u64>,
}

impl View for Document {
    type V = DocumentView;

    open spec fn view(&self) -> DocumentView {
        DocumentView { name: self.name@, content: self.content@, modified: self.modified }
    }
}

/// The views of a list of files.
pub open spec fn document_views(ds: Seq<Document>) -> Seq<DocumentView> {
    ds.map_values(|d: Document| d@)
}

/// The views of a listing.
pub open spec fn info_views(cs: Seq<ConversationInfo>) -> Seq<ConversationInfoView> {
    cs.map_values(|c: ConversationInfo| c@)
}

/// What a listing shows of a document kept under `dir`.
pub open spec fn info_of(dir: Seq<char>, d: DocumentView) -> ConversationInfoView {
    ConversationInfoView {
        id: stem_of(d.name),
        title: parsed_title(d.content),
        file_path: path_in(dir, d.name),
        modified: d.modified,
    }
}

/// `a` was written before `b`. A time that is not known is before every known one.
pub open spec fn written_before(a: Option<u64>, b: Option<u64>) -> bool {
    match (a, b) {
        (None, Some(_)) => true,
        (Some(x), Some(y)) => x < y,
        _ => false,
    }
}

/// Whether `a` was written before `b`.
pub fn is_written_before(a: Option<u64>, b: Option<u64>) -> (r: bool)
    ensures
        r == written_before(a, b),
{
    match (a, b) {
        (None, Some(_)) => true,
        (Some(x), Some(y)) => x < y,
        _ => false,
    }
}

/// Entries that were not written before `m`.
pub open spec fn not_before(m: Option<u64>) -> spec_fn(ConversationInfoView) -> bool {
    |c: ConversationInfoView| !written_before(c.modified, m)
}

/// A listing with one more entry, put behind those that are not older than it.
pub open spec fn placed(cs: Seq<ConversationInfoView>, c: ConversationInfoView) -> Seq<
    ConversationInfoView,
> {
    cs.insert(leading(cs, not_before(c.modified)) as int, c)
}

/// The listing of a directory: its documents, the newest first, and of two
/// written at the same time the one that the directory gave first.
pub open spec fn listed(dir: Seq<char>, ds: Seq<DocumentView>) -> Seq<ConversationInfoView>
    decreases ds.len(),
{
    if ds.len() == 0 {
        Seq::empty()
    } else if is_document_name(ds.last().name) {
        placed(listed(dir, ds.drop_last()), info_of(dir, ds.last()))
    } else {
        listed(dir, ds.drop_last())
    }
}

/// No entry comes before one that was written later.
pub open spec fn newest_first(cs: Seq<ConversationInfoView>) -> bool {
    forall|i: int, j: int|
        0 <= i < j < cs.len() ==> !written_before(#[trigger] cs[i].modified, #[trigger] cs[j].modified)
}

proof fn lemma_placed_newest_first(cs: Seq<ConversationInfoView>, c: ConversationInfoView)
    requires
        newest_first(cs),
    ensures
        newest_first(placed(cs, c)),
        placed(cs, c).len() == cs.len() + 1,
{
    let p = not_before(c.modified);
    let k = leading(cs, p) as int;
    lemma_leading_bounds(cs, p);
    let out = placed(cs, c);
    assert forall|i: int, j: int| 0 <= i < j < out.len() implies !written_before(
        #[trigger] out[i].modified,
        #[trigger] out[j].modified,
    ) by {
        if i < k {
            assert(out[i] == cs[i]);
            assert(p(cs[i]));
        }
        if j > k {
            assert(out[j] == cs[j - 1]);
            assert(!p(cs[k]));
        }
        if i > k {
            assert(out[i] == cs[i - 1]);
        }
        if j < k {
            assert(out[j] == cs[j]);
        }
    }
}

/// A listing shows the newest first, and only documents.
pub proof fn lemma_listed_newest_first(dir: Seq<char>, ds: Seq<DocumentView>)
    ensures
        newest_first(listed(dir, ds)),
        listed(dir, ds).len() <= ds.len(),
    decreases ds.len(),
{
    if ds.len() > 0 {
        lemma_listed_newest_first(dir, ds.drop_last());
        if is_document_name(ds.last().name) {
            lemma_placed_newest_first(listed(dir, ds.drop_last()), info_of(dir, ds.last()));
        }
    }
}

/// The entries for the documents of a directory, in the order in which the
/// directory gave them.
pub open spec fn documents_of(dir: Seq<char>, ds: Seq<DocumentView>) -> Seq<ConversationInfoView>
    decreases ds.len(),
{
    if ds.len() == 0 {
        Seq::empty()
    } else if is_document_name(ds.last().name) {
        documents_of(dir, ds.drop_last()).push(info_of(dir, ds.last()))
    } else {
        documents_of(dir, ds.drop_last())
    }
}

/// A listing holds an entry for each document of the directory, as often as
/// the directory gave it, and nothing else: it only puts them in order.
pub proof fn lemma_listed_rearranges(dir: Seq<char>, ds: Seq<DocumentView>)
    ensures
        listed(dir, ds).to_multiset() == documents_of(dir, ds).to_multiset(),
        listed(dir, ds).len() == documents_of(dir, ds).len(),
    decreases ds.len(),
{
    if ds.len() > 0 {
        lemma_listed_rearranges(dir, ds.drop_last());
        if is_document_name(ds.last().name) {
            let rest = listed(dir, ds.drop_last());
            let c = info_of(dir, ds.last());
            lemma_leading_bounds(rest, not_before(c.modified));
            vstd::seq_lib::to_multiset_insert(rest, leading(rest, not_before(c.modified)) as int, c);
            vstd::seq_lib::to_multiset_build(documents_of(dir, ds.drop_last()), c);
        }
    }
}

/// Lists the conversations among the files of the directory `dir`: one entry
/// for each document, the newest first.
pub fn list_conversations(dir: &str, files: &Vec<Document>) -> (out: Vec<ConversationInfo>)
    ensures
        info_views(out@) == listed(dir@, document_views(files@)),
        newest_first(info_views(out@)),
{
    let ghost all = document_views(files@);
    let mut out: Vec<ConversationInfo> = Vec::new();
    let mut i: usize = 0;
    assert(info_views(out@) =~= Seq::<ConversationInfoView>::empty());
    assert(all.take(0) =~= Seq::<DocumentView>::empty());
    while i < files.len()
        invariant
            i <= files.len(),
            all == document_views(files@),
            info_views(out@) == listed(dir@, all.take(i as int)),
            out.len() <= i,
        decreases files.len() - i,
    {
        let file = &files[i];
        let ghost before = info_views(out@);
        assert(all.take(i + 1).drop_last() =~= all.take(i as int));
        assert(all.take(i + 1).last() == file@);
        if is_conversation_document(file.name.as_str()) {
            let (_, title) = parse_markdown_conversation(file.content.as_str());
            let info = ConversationInfo {
                id: document_stem(file.name.as_str()),
                title,
                file_path: join_path(dir, file.name.as_str()),
                modified: file.modified,
            };
            assert(info@ == info_of(dir@, file@));
            let mut k: usize = 0;
            while k < out.len() && !is_written_before(out[k].modified, info.modified)
                invariant
                    k <= out.len(),
                    before == info_views(out@),
                    forall|j: int| 0 <= j < k ==> not_before(info.modified)(#[trigger] before[j]),
                decreases out.len() - k,
            {
                k += 1;
            }
            proof {
                lemma_leading_is(before, not_before(info.modified), k as int);
            }
            out.insert(k, info);
            assert(info_views(out@) =~= before.insert(k as int, info@));
        }
        i += 1;
    }
    proof {
        assert(all.take(i as int) =~= all);
        lemma_listed_newest_first(dir@, all);
    }
    out
}

} // verus!
