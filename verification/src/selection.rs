//! The lines that a selector shows, and what a chosen line stands for.

use crate::conversation::{ConversationInfo, text_view};
use crate::text::{starts_with_at, to_chars, to_text};
use vstd::prelude::*;
use vstd::string::StringExecFns;

verus! {

/// The line that stands for a conversation: its title and its identifier
/// with ` - ` between them, or the identifier alone where it has no title.
pub open spec fn label_text(title: Option<Seq<char>>, id: Seq<char>) -> Seq<char> {
    match title {
        Some(t) => t + " - "@ + id,
        None => id,
    }
}

/// The line that stands for a conversation in a selector.
pub fn conversation_label(info: &ConversationInfo) -> (out: String)
    ensures
        out@ == label_text(text_view(info.title), info.id@),
{
    let mut out = String::new();
    match &info.title {
        Some(title) => {
            out.append(title.as_str());
            out.append(" - ");
            out.append(info.id.as_str());
            assert(out@ =~= label_text(text_view(info.title), info.id@));
        },
        None => {
            out.append(info.id.as_str());
            assert(out@ =~= info.id@);
        },
    }
    out
}

/// `p` stands in `s` at `k`.
pub open spec fn occurs_at(s: Seq<char>, p: Seq<char>, k: int) -> bool {
    0 <= k && k + p.len() <= s.len() && s.subrange(k, k + p.len()) == p
}

/// What follows the last ` - ` of a line; the whole line where it has none.
pub open spec fn is_after_last_separator(s: Seq<char>, out: Seq<char>) -> bool {
    let sep = " - "@;
    if exists|k: int| occurs_at(s, sep, k) {
        exists|k: int|
            #![trigger occurs_at(s, sep, k)]
            occurs_at(s, sep, k) && out == s.skip(k + sep.len()) && forall|j: int|
                k < j ==> !occurs_at(s, sep, j)
    } else {
        out == s
    }
}

/// What stands before the first ` - ` of a line; the whole line where it has none.
pub open spec fn is_before_first_separator(s: Seq<char>, out: Seq<char>) -> bool {
    let sep = " - "@;
    if exists|k: int| occurs_at(s, sep, k) {
        exists|k: int|
            #![trigger occurs_at(s, sep, k)]
            occurs_at(s, sep, k) && out == s.take(k) && forall|j: int|
                j < k ==> !occurs_at(s, sep, j)
    } else {
        out == s
    }
}

/// The identifier that a chosen line names: what follows its last ` - `.
pub fn selected_identifier(line: &str) -> (out: String)
    ensures
        is_after_last_separator(line@, out@),
{
    let chars = to_chars(line);
    let sep = to_chars(" - ");
    let ghost s = chars@;
    proof {
        reveal_strlit(" - ");
        assert(s.subrange(0, s.len() as int) =~= s);
    }
    if sep.len() > chars.len() {
        assert(forall|k: int| !occurs_at(s, sep@, k));
        return to_text(&chars, 0, chars.len());
    }
    let mut k: usize = chars.len() - sep.len();
    loop
        invariant
            k + sep.len() <= chars.len(),
            s == chars@,
            s == line@,
            sep@ == " - "@,
            forall|j: int| k < j ==> !occurs_at(s, sep@, j),
        decreases k,
    {
        let hit = starts_with_at(&chars, k, chars.len(), &sep);
        assert(s.subrange(k as int, s.len() as int).take(sep@.len() as int) =~= s.subrange(
            k as int,
            k + sep@.len(),
        ));
        if hit {
            assert(occurs_at(s, sep@, k as int));
            assert(s.subrange(k + sep@.len(), s.len() as int) =~= s.skip(k + sep@.len()));
            return to_text(&chars, k + sep.len(), chars.len());
        }
        if k == 0 {
            assert(forall|j: int| !occurs_at(s, sep@, j));
            assert(s.subrange(0, s.len() as int) =~= s);
            return to_text(&chars, 0, chars.len());
        }
        k -= 1;
    }
}

/// The command that a chosen line names: what stands before its first ` - `.
pub fn selected_command(line: &str) -> (out: String)
    ensures
        is_before_first_separator(line@, out@),
{
    let chars = to_chars(line);
    let sep = to_chars(" - ");
    let ghost s = chars@;
    proof {
        reveal_strlit(" - ");
    }
    let mut k: usize = 0;
    while sep.len() <= chars.len() - k
        invariant
            k <= chars.len(),
            s == chars@,
            s == line@,
            sep@ == " - "@,
            sep@.len() == 3,
            forall|j: int| j < k ==> !occurs_at(s, sep@, j),
        decreases chars.len() - k,
    {
        let hit = starts_with_at(&chars, k, chars.len(), &sep);
        assert(s.subrange(k as int, s.len() as int).take(sep@.len() as int) =~= s.subrange(
            k as int,
            k + sep@.len(),
        ));
        if hit {
            assert(occurs_at(s, sep@, k as int));
            assert(s.subrange(0, k as int) =~= s.take(k as int));
            return to_text(&chars, 0, k);
        }
        k += 1;
    }
    assert(forall|j: int| !occurs_at(s, sep@, j));
    assert(s.subrange(0, s.len() as int) =~= s);
    to_text(&chars, 0, chars.len())
}

} // verus!
