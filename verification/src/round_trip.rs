//! A document that was written from a conversation reads back as that conversation.

use crate::conversation::{
    appended_text, blank, body_of, document_text, has_title_marker, header_text, heading_role,
    in_section, is_generated_identifier, is_identifier_char, lemma_appends_equal_document,
    line_title, parsed_title, parsed_turns, Role, role_heading, strip_title_markers, turn_text,
    turns_of, turns_text, TurnView,
};
use crate::text::{
    has_no_newline, is_blank, is_whitespace, is_whole_line, lemma_leading_is,
    lemma_lines_unlines, lemma_pieces, lemma_strip_is, lemma_unlines_concat, lines, pieces,
    starts_with, trim, unlines, whitespace,
};
use vstd::prelude::*;

verus! {

/// A line of content that stays a line of content: it opens no turn and ends
/// in no carriage return.
pub open spec fn plain_line(l: Seq<char>) -> bool {
    heading_role(l) is None && !(l.len() > 0 && l.last() == '\r')
}

/// Content that a document gives back as it took it: its first and its last
/// line are not blank, and each of its lines is plain.
pub open spec fn plain_content(c: Seq<char>) -> bool {
    let ls = pieces(c);
    &&& !is_blank(ls[0])
    &&& !is_blank(ls.last())
    &&& forall|i: int| 0 <= i < ls.len() ==> plain_line(#[trigger] ls[i])
}

/// A title that a document gives back as it took it: one line without
/// whitespace at either end, that begins with no heading marker and is not in
/// the form of the placeholder.
pub open spec fn plain_title(t: Seq<char>) -> bool {
    &&& has_no_newline(t)
    &&& !has_title_marker(t)
    &&& !starts_with(t, "Conversation "@)
    &&& t.len() > 0 ==> !is_whitespace(t[0]) && !is_whitespace(t.last())
}

/// The first line of a document.
pub open spec fn heading_line(id: Seq<char>, title: Option<Seq<char>>) -> Seq<char> {
    match title {
        Some(t) => "# "@ + t,
        None => "# "@ + "Conversation "@ + id,
    }
}

/// A line without characters.
pub open spec fn empty_line() -> Seq<char> {
    Seq::empty()
}

/// The lines that a turn adds to a document.
pub open spec fn turn_lines(t: TurnView) -> Seq<Seq<char>> {
    seq![empty_line(), role_heading(t.role), empty_line()] + pieces(t.content) + seq![empty_line()]
}

/// The lines that the turns add to a document.
pub open spec fn turns_lines(ts: Seq<TurnView>) -> Seq<Seq<char>>
    decreases ts.len(),
{
    if ts.len() == 0 {
        Seq::empty()
    } else {
        turn_lines(ts[0]) + turns_lines(ts.drop_first())
    }
}

proof fn lemma_role_heading(role: Role)
    ensures
        heading_role(role_heading(role)) == Some(role),
        heading_role(empty_line()) is None,
        !in_section()(role_heading(role)),
        in_section()(empty_line()),
        is_whole_line(role_heading(role)),
        is_whole_line(empty_line()),
        blank()(empty_line()),
{
    reveal_strlit("## You");
    reveal_strlit("## Assistant");
    let h = role_heading(role);
    assert("## You"@ =~= seq!['#', '#', ' ', 'Y', 'o', 'u']);
    assert("## Assistant"@ =~= seq!['#', '#', ' ', 'A', 's', 's', 'i', 's', 't', 'a', 'n', 't']);
    assert(h.take(h.len() as int) =~= h);
    assert("## Assistant"@.take(6)[3] == 'A');
}

proof fn lemma_unlines_one(l: Seq<char>)
    ensures
        unlines(seq![l]) == l + seq!['\n'],
{
    assert(seq![l].drop_first() =~= Seq::<Seq<char>>::empty());
    assert(unlines(seq![l].drop_first()) =~= Seq::<char>::empty());
    assert(unlines(seq![l]) =~= l + seq!['\n']);
}

proof fn lemma_turn_text(t: TurnView)
    ensures
        turn_text(t) == unlines(turn_lines(t)),
{
    reveal_strlit("\n");
    reveal_strlit("\n\n");
    let e = empty_line();
    let h = role_heading(t.role);
    let nl = seq!['\n'];
    assert("\n"@ =~= nl);
    assert("\n\n"@ =~= nl + nl);
    lemma_pieces(t.content);
    lemma_unlines_one(e);
    lemma_unlines_one(h);
    lemma_unlines_concat(seq![e], seq![h]);
    lemma_unlines_concat(seq![e] + seq![h], seq![e]);
    assert(seq![e] + seq![h] + seq![e] =~= seq![e, h, e]);
    lemma_unlines_concat(seq![e, h, e], pieces(t.content));
    lemma_unlines_concat(seq![e, h, e] + pieces(t.content), seq![e]);
    assert(unlines(turn_lines(t)) =~= (e + nl) + (h + nl) + (e + nl) + (t.content + nl) + (e + nl));
    assert(turn_text(t) =~= (e + nl) + (h + nl) + (e + nl) + (t.content + nl) + (e + nl));
}

proof fn lemma_turns_text(ts: Seq<TurnView>)
    ensures
        turns_text(ts) == unlines(turns_lines(ts)),
    decreases ts.len(),
{
    if ts.len() > 0 {
        lemma_turns_text(ts.drop_first());
        lemma_turn_text(ts[0]);
        lemma_unlines_concat(turn_lines(ts[0]), turns_lines(ts.drop_first()));
    }
}

proof fn lemma_turns_lines_whole(ts: Seq<TurnView>)
    requires
        forall|i: int| 0 <= i < ts.len() ==> plain_content(#[trigger] ts[i].content),
    ensures
        forall|i: int|
            0 <= i < turns_lines(ts).len() ==> is_whole_line(#[trigger] turns_lines(ts)[i]),
    decreases ts.len(),
{
    if ts.len() > 0 {
        let t = ts[0];
        let p = pieces(t.content);
        let first = turn_lines(t);
        let rest = turns_lines(ts.drop_first());
        assert forall|i: int| 0 <= i < ts.drop_first().len() implies plain_content(
            #[trigger] ts.drop_first()[i].content,
        ) by {
            assert(ts.drop_first()[i] == ts[i + 1]);
        }
        lemma_turns_lines_whole(ts.drop_first());
        lemma_role_heading(t.role);
        lemma_pieces(t.content);
        assert(plain_content(t.content));
        assert forall|i: int| 0 <= i < turns_lines(ts).len() implies is_whole_line(
            #[trigger] turns_lines(ts)[i],
        ) by {
            let all = turns_lines(ts);
            if i < 3 {
            } else if i < 3 + p.len() {
                assert(all[i] == p[i - 3]);
                assert(plain_line(p[i - 3]));
            } else if i < first.len() {
            } else {
                assert(all[i] == rest[i - first.len()]);
            }
        }
    }
}

proof fn lemma_turns_lines_front(ts: Seq<TurnView>)
    ensures
        ts.len() == 0 ==> turns_lines(ts).len() == 0,
        ts.len() > 0 ==> turns_lines(ts).len() >= 2 && turns_lines(ts)[0] == empty_line()
            && turns_lines(ts)[1] == role_heading(ts[0].role),
{
}

/// The lines that the turns add to a document read back as the turns.
proof fn lemma_turns_of_lines(ts: Seq<TurnView>)
    requires
        forall|i: int| 0 <= i < ts.len() ==> plain_content(#[trigger] ts[i].content),
    ensures
        turns_of(turns_lines(ts)) == ts,
    decreases ts.len(),
{
    if ts.len() == 0 {
        assert(turns_of(turns_lines(ts)) =~= ts);
    } else {
        let t = ts[0];
        let later = ts.drop_first();
        let e = empty_line();
        let h = role_heading(t.role);
        let p = pieces(t.content);
        let k = p.len() as int;
        let r = turns_lines(later);
        let x = turns_lines(ts);
        assert forall|i: int| 0 <= i < later.len() implies plain_content(
            #[trigger] later[i].content,
        ) by {
            assert(later[i] == ts[i + 1]);
        }
        lemma_turns_of_lines(later);
        lemma_turns_lines_front(later);
        lemma_role_heading(t.role);
        lemma_pieces(t.content);
        assert(plain_content(t.content));
        assert(x =~= seq![e, h, e] + p + seq![e] + r);
        let y = x.drop_first();
        assert(x[0] == e);
        assert(turns_of(x) == turns_of(y));
        assert(y[0] == h);
        let rest = y.drop_first();
        assert(rest =~= seq![e] + p + seq![e] + r);
        let n = if later.len() == 0 {
            k + 2
        } else {
            k + 3
        };
        assert forall|j: int| 0 <= j < n implies in_section()(#[trigger] rest[j]) by {
            if 1 <= j <= k {
                assert(rest[j] == p[j - 1]);
                assert(plain_line(p[j - 1]));
            } else if j == k + 2 {
                assert(rest[j] == r[0]);
            }
        }
        if later.len() > 0 {
            lemma_role_heading(later[0].role);
            assert(rest[n] == r[1]);
        }
        lemma_leading_is(rest, in_section(), n);
        let section = rest.take(n);
        assert forall|j: int| k + 1 <= j < section.len() implies blank()(#[trigger] section[j]) by {
            if j == k + 2 {
                assert(section[j] == r[0]);
            }
        }
        assert(section[0] == e);
        assert(section[1] == p[0]);
        assert(section[k] == p[k - 1]);
        lemma_strip_is(section, blank(), 1, k + 1);
        assert(section.subrange(1, k + 1) =~= p);
        let after = rest.skip(n);
        if later.len() == 0 {
            assert(after =~= Seq::<Seq<char>>::empty());
            assert(turns_of(after) =~= later);
        } else {
            assert(after =~= r.drop_first());
            lemma_role_heading(later[0].role);
            assert(turns_of(r) == turns_of(r.drop_first()));
        }
        assert(turns_of(y) =~= seq![t] + later);
        assert(seq![t] + later =~= ts);
    }
}

proof fn lemma_heading_line(id: Seq<char>, title: Option<Seq<char>>)
    requires
        match title {
            Some(t) => plain_title(t),
            None => is_generated_identifier(id),
        },
    ensures
        is_whole_line(heading_line(id, title)),
        has_title_marker(heading_line(id, title)),
        line_title(heading_line(id, title)) == title,
        header_text(id, title) == unlines(seq![heading_line(id, title), empty_line()]),
{
    reveal_strlit("# ");
    reveal_strlit("Conversation ");
    reveal_strlit("\n\n");
    let hl = heading_line(id, title);
    let e = empty_line();
    let nl = seq!['\n'];
    assert("# "@ =~= seq!['#', ' ']);
    assert("Conversation "@ =~= seq![
        'C',
        'o',
        'n',
        'v',
        'e',
        'r',
        's',
        'a',
        't',
        'i',
        'o',
        'n',
        ' ',
    ]);
    assert("\n\n"@ =~= nl + nl);
    let w = match title {
        Some(t) => t,
        None => "Conversation "@ + id,
    };
    assert(hl =~= "# "@ + w);
    assert(hl.skip(2) =~= w);
    assert(!has_title_marker(w));
    assert(strip_title_markers(w) == w);
    assert(strip_title_markers(hl) == strip_title_markers(hl.skip(2)));
    match title {
        Some(t) => {
            assert(forall|j: int| 0 <= j < t.len() ==> #[trigger] hl[j + 2] == t[j]);
        },
        None => {
            assert(forall|j: int| 0 <= j < id.len() ==> #[trigger] hl[j + 15] == id[j]);
            assert(forall|j: int| 0 <= j < id.len() ==> is_identifier_char(#[trigger] id[j]));
            assert(w.last() == id[35]);
            assert(w[0] == 'C');
            assert(w.take(13) =~= "Conversation "@);
        },
    }
    if w.len() > 0 {
        assert(!is_whitespace(w[0]));
        assert(!is_whitespace(w.last()));
        assert(!whitespace()(w[0]));
        assert(!whitespace()(w[w.len() - 1]));
    }
    lemma_strip_is(w, whitespace(), 0, w.len() as int);
    assert(w.subrange(0, w.len() as int) =~= w);
    assert(trim(w) == w);
    assert(has_no_newline(hl)) by {
        assert forall|i: int| 0 <= i < hl.len() implies #[trigger] hl[i] != '\n' by {
            if i >= 2 {
                assert(hl[i] == w[i - 2]);
                match title {
                    Some(t) => {},
                    None => {
                        if i >= 15 {
                            assert(hl[i] == id[i - 15]);
                            assert(is_identifier_char(id[i - 15]));
                        }
                    },
                }
            }
        }
    }
    assert(hl.last() != '\r') by {
        if w.len() > 0 {
            assert(hl.last() == w.last());
        }
    }
    assert(seq![hl, e].drop_first() =~= seq![e]);
    lemma_unlines_one(e);
    assert(unlines(seq![hl, e]) =~= hl + nl + (e + nl));
    assert(header_text(id, title) =~= hl + nl + (e + nl));
}

/// A document reads back as the conversation it was written from: the same
/// turns in the same order, and the same title. This holds of a conversation
/// without a title whose identifier was generated, and of one with a plain
/// title, where each turn's content is plain.
pub proof fn lemma_document_reads_back(id: Seq<char>, title: Option<Seq<char>>, ts: Seq<TurnView>)
    requires
        match title {
            Some(t) => plain_title(t),
            None => is_generated_identifier(id),
        },
        forall|i: int| 0 <= i < ts.len() ==> plain_content(#[trigger] ts[i].content),
    ensures
        parsed_turns(document_text(id, title, ts)) == ts,
        parsed_title(document_text(id, title, ts)) == title,
{
    let hl = heading_line(id, title);
    let e = empty_line();
    let all = seq![hl, e] + turns_lines(ts);
    lemma_heading_line(id, title);
    lemma_turns_text(ts);
    lemma_unlines_concat(seq![hl, e], turns_lines(ts));
    assert(document_text(id, title, ts) == unlines(all));
    lemma_turns_lines_whole(ts);
    lemma_role_heading(Role::User);
    assert forall|i: int| 0 <= i < all.len() implies is_whole_line(#[trigger] all[i]) by {
        if i >= 2 {
            assert(all[i] == turns_lines(ts)[i - 2]);
        }
    }
    lemma_lines_unlines(all);
    assert(all[0] == hl);
    let body = body_of(all);
    assert(body =~= seq![e] + turns_lines(ts));
    assert(body[0] == e);
    assert(body.drop_first() =~= turns_lines(ts));
    assert(turns_of(body) == turns_of(body.drop_first()));
    lemma_turns_of_lines(ts);
}

/// What was written by creating a conversation and appending turn after turn
/// reads back as those turns, in order, and without a title.
pub proof fn lemma_appended_document_reads_back(id: Seq<char>, ts: Seq<TurnView>)
    requires
        is_generated_identifier(id),
        forall|i: int| 0 <= i < ts.len() ==> plain_content(#[trigger] ts[i].content),
    ensures
        parsed_turns(appended_text(header_text(id, None), ts)) == ts,
        parsed_title(appended_text(header_text(id, None), ts)) is None,
{
    lemma_appends_equal_document(id, None, ts);
    lemma_document_reads_back(id, None, ts);
}

} // verus!
