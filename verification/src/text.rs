//! Character-level helpers shared by the document codec and the renderer:
//! whitespace, trimming, prefixes, and splitting text into lines.

use vstd::prelude::*;

verus! {

/// `String::push` appends one character to the end of the string.
pub assume_specification[ String::push ](s: &mut String, ch: char)
    ensures
        final(s)@ == old(s)@.push(ch),
;

/// The characters of `s`, in order.
pub fn to_chars(s: &str) -> (out: Vec<char>)
    ensures
        out@ == s@,
{
    let mut out: Vec<char> = Vec::new();
    for c in it: s.chars()
        invariant
            out@ == it.seq().take(it.index()),
    {
        out.push(c);
    }
    out
}

/// The string made of the characters `v[lo..hi]`, in order.
pub fn to_text(v: &Vec<char>, lo: usize, hi: usize) -> (out: String)
    requires
        lo <= hi <= v.len(),
    ensures
        out@ == v@.subrange(lo as int, hi as int),
{
    let mut out = String::new();
    let mut i: usize = lo;
    while i < hi
        invariant
            lo <= i <= hi <= v.len(),
            out@ == v@.subrange(lo as int, i as int),
        decreases hi - i,
    {
        out.push(v[i]);
        i += 1;
        assert(v@.subrange(lo as int, i as int) =~= v@.subrange(lo as int, i - 1).push(v@[i - 1]));
    }
    out
}

/// Appends the characters of `s` to `v`.
pub fn push_text(v: &mut Vec<char>, s: &str)
    ensures
        final(v)@ == old(v)@ + s@,
{
    let ghost before = v@;
    for c in it: s.chars()
        invariant
            v@ == before + it.seq().take(it.index()),
    {
        v.push(c);
        assert(it.seq().take(it.index() + 1) =~= it.seq().take(it.index()).push(c));
    }
    assert(s@.take(s@.len() as int) =~= s@);
}

/// Appends the characters `src[lo..hi]` to `v`.
pub fn push_chars(v: &mut Vec<char>, src: &Vec<char>, lo: usize, hi: usize)
    requires
        lo <= hi <= src.len(),
    ensures
        final(v)@ == old(v)@ + src@.subrange(lo as int, hi as int),
{
    let ghost before = v@;
    let mut i: usize = lo;
    while i < hi
        invariant
            lo <= i <= hi <= src.len(),
            v@ == before + src@.subrange(lo as int, i as int),
        decreases hi - i,
    {
        v.push(src[i]);
        i += 1;
        assert(src@.subrange(lo as int, i as int) =~= src@.subrange(lo as int, i - 1).push(
            src@[i - 1],
        ));
    }
}

/// The Unicode `White_Space` code points.
pub open spec fn is_whitespace(c: char) -> bool {
    let n = c as u32;
    ||| 0x09 <= n <= 0x0D
    ||| n == 0x20
    ||| n == 0x85
    ||| n == 0xA0
    ||| n == 0x1680
    ||| 0x2000 <= n <= 0x200A
    ||| n == 0x2028
    ||| n == 0x2029
    ||| n == 0x202F
    ||| n == 0x205F
    ||| n == 0x3000
}

/// Whether `c` is whitespace.
pub fn char_is_whitespace(c: char) -> (b: bool)
    ensures
        b == is_whitespace(c),
{
    let n: u32 = c as u32;
    (0x09 <= n && n <= 0x0D) || n == 0x20 || n == 0x85 || n == 0xA0 || n == 0x1680 || (0x2000 <= n
        && n <= 0x200A) || n == 0x2028 || n == 0x2029 || n == 0x202F || n == 0x205F || n == 0x3000
}

/// The control codes: general category `Cc`.
pub open spec fn is_control(c: char) -> bool {
    let n = c as u32;
    n <= 0x1F || 0x7F <= n <= 0x9F
}

/// Whether `c` is a control code.
pub fn char_is_control(c: char) -> (b: bool)
    ensures
        b == is_control(c),
{
    let n: u32 = c as u32;
    n <= 0x1F || (0x7F <= n && n <= 0x9F)
}

/// How many elements at the start of `s` satisfy `p`.
pub open spec fn leading<T>(s: Seq<T>, p: spec_fn(T) -> bool) -> nat
    decreases s.len(),
{
    if s.len() > 0 && p(s[0]) {
        1 + leading(s.drop_first(), p)
    } else {
        0
    }
}

/// How many elements at the end of `s` satisfy `p`.
pub open spec fn trailing<T>(s: Seq<T>, p: spec_fn(T) -> bool) -> nat
    decreases s.len(),
{
    if s.len() > 0 && p(s.last()) {
        1 + trailing(s.drop_last(), p)
    } else {
        0
    }
}

/// `s` without the elements at either end that satisfy `p`.
pub open spec fn strip<T>(s: Seq<T>, p: spec_fn(T) -> bool) -> Seq<T> {
    let t = s.skip(leading(s, p) as int);
    t.take(t.len() - trailing(t, p))
}

/// A run of `k` elements that satisfy `p`, ended by one that does not or by the end, is the leading run.
pub proof fn lemma_leading_is<T>(s: Seq<T>, p: spec_fn(T) -> bool, k: int)
    requires
        0 <= k <= s.len(),
        forall|j: int| 0 <= j < k ==> p(#[trigger] s[j]),
        k == s.len() || !p(s[k]),
    ensures
        leading(s, p) == k,
    decreases k,
{
    if k > 0 {
        lemma_leading_is(s.drop_first(), p, k - 1);
    }
}

/// A run of `k` elements that satisfy `p`, begun after one that does not or at the start, is the trailing run.
pub proof fn lemma_trailing_is<T>(s: Seq<T>, p: spec_fn(T) -> bool, k: int)
    requires
        0 <= k <= s.len(),
        forall|j: int| s.len() - k <= j < s.len() ==> p(#[trigger] s[j]),
        k == s.len() || !p(s[s.len() - k - 1]),
    ensures
        trailing(s, p) == k,
    decreases k,
{
    if k > 0 {
        lemma_trailing_is(s.drop_last(), p, k - 1);
    }
}

/// The leading run lies within `s`, each element of it satisfies `p`, and the element after it does not.
pub proof fn lemma_leading_bounds<T>(s: Seq<T>, p: spec_fn(T) -> bool)
    ensures
        leading(s, p) <= s.len(),
        forall|j: int| 0 <= j < leading(s, p) ==> p(#[trigger] s[j]),
        leading(s, p) < s.len() ==> !p(s[leading(s, p) as int]),
    decreases s.len(),
{
    if s.len() > 0 && p(s[0]) {
        let t = s.drop_first();
        lemma_leading_bounds(t, p);
        assert forall|j: int| 0 <= j < leading(s, p) implies p(#[trigger] s[j]) by {
            if j > 0 {
                assert(s[j] == t[j - 1]);
            }
        }
        if leading(s, p) < s.len() {
            assert(s[leading(s, p) as int] == t[leading(t, p) as int]);
        }
    }
}

/// The trailing run lies within `s`, each element of it satisfies `p`, and the element before it does not.
pub proof fn lemma_trailing_bounds<T>(s: Seq<T>, p: spec_fn(T) -> bool)
    ensures
        trailing(s, p) <= s.len(),
        forall|j: int| s.len() - trailing(s, p) <= j < s.len() ==> p(#[trigger] s[j]),
        trailing(s, p) < s.len() ==> !p(s[s.len() - trailing(s, p) - 1]),
    decreases s.len(),
{
    if s.len() > 0 && p(s.last()) {
        let t = s.drop_last();
        lemma_trailing_bounds(t, p);
        assert forall|j: int| s.len() - trailing(s, p) <= j < s.len() implies p(
            #[trigger] s[j],
        ) by {
            if j < s.len() - 1 {
                assert(s[j] == t[j]);
            }
        }
        if trailing(s, p) < s.len() {
            assert(s[s.len() - trailing(s, p) - 1] == t[t.len() - trailing(t, p) - 1]);
        }
    }
}

/// What `strip` leaves when `s[lo..hi]` is bounded by elements that do not
/// satisfy `p`, or is empty at the end of the run that `s` begins with.
pub proof fn lemma_strip_is<T>(s: Seq<T>, p: spec_fn(T) -> bool, lo: int, hi: int)
    requires
        0 <= lo <= hi <= s.len(),
        forall|j: int| 0 <= j < lo ==> p(#[trigger] s[j]),
        forall|j: int| hi <= j < s.len() ==> p(#[trigger] s[j]),
        lo == s.len() || !p(s[lo]),
        hi == lo || !p(s[hi - 1]),
    ensures
        strip(s, p) == s.subrange(lo, hi),
        leading(s, p) == lo,
{
    lemma_leading_is(s, p, lo);
    let t = s.skip(lo);
    lemma_trailing_is(t, p, s.len() - hi);
    assert(t.take(t.len() - (s.len() - hi)) =~= s.subrange(lo, hi));
}

/// Stripping leaves nothing exactly when every element satisfies `p`.
pub proof fn lemma_strip_empty<T>(s: Seq<T>, p: spec_fn(T) -> bool)
    ensures
        (strip(s, p).len() == 0) == (forall|i: int| 0 <= i < s.len() ==> p(#[trigger] s[i])),
{
    lemma_leading_bounds(s, p);
    let t = s.skip(leading(s, p) as int);
    lemma_trailing_bounds(t, p);
    if forall|i: int| 0 <= i < s.len() ==> p(#[trigger] s[i]) {
        lemma_leading_is(s, p, s.len() as int);
    } else {
        let i = choose|i: int| 0 <= i < s.len() && !p(#[trigger] s[i]);
        assert(leading(s, p) <= i);
        if trailing(t, p) == t.len() {
            assert(p(t[i - leading(s, p)]));
        }
    }
}

/// Stripping what was stripped changes nothing.
pub proof fn lemma_strip_idempotent<T>(s: Seq<T>, p: spec_fn(T) -> bool)
    ensures
        strip(strip(s, p), p) == strip(s, p),
{
    lemma_leading_bounds(s, p);
    let t = s.skip(leading(s, p) as int);
    lemma_trailing_bounds(t, p);
    let r = strip(s, p);
    if r.len() > 0 {
        assert(r[0] == s[leading(s, p) as int]);
        assert(r[r.len() - 1] == t[t.len() - trailing(t, p) - 1]);
    }
    lemma_strip_is(r, p, 0, r.len() as int);
    assert(r.subrange(0, r.len() as int) =~= r);
}

/// The whitespace characters, as a predicate.
pub open spec fn whitespace() -> spec_fn(char) -> bool {
    |c: char| is_whitespace(c)
}

/// `s` without the whitespace at either end.
pub open spec fn trim(s: Seq<char>) -> Seq<char> {
    strip(s, whitespace())
}

/// A line is blank when every character of it is whitespace.
pub open spec fn is_blank(s: Seq<char>) -> bool {
    forall|i: int| 0 <= i < s.len() ==> is_whitespace(#[trigger] s[i])
}

/// Trimming leaves nothing exactly when the line is blank.
pub proof fn lemma_trim_blank(s: Seq<char>)
    ensures
        (trim(s).len() == 0) == is_blank(s),
{
    lemma_strip_empty(s, whitespace());
}

/// The bounds of `v[from..to]` without the whitespace at either end.
pub fn trim_bounds(v: &Vec<char>, from: usize, to: usize) -> (r: (usize, usize))
    requires
        from <= to <= v.len(),
    ensures
        from <= r.0 <= r.1 <= to,
        v@.subrange(r.0 as int, r.1 as int) == trim(v@.subrange(from as int, to as int)),
        (r.0 == r.1) == is_blank(v@.subrange(from as int, to as int)),
{
    let ghost s = v@.subrange(from as int, to as int);
    let mut lo: usize = from;
    while lo < to && char_is_whitespace(v[lo])
        invariant
            from <= lo <= to <= v.len(),
            s == v@.subrange(from as int, to as int),
            forall|j: int| 0 <= j < lo - from ==> is_whitespace(#[trigger] s[j]),
        decreases to - lo,
    {
        lo += 1;
    }
    let mut hi: usize = to;
    while hi > lo && char_is_whitespace(v[hi - 1])
        invariant
            from <= lo <= hi <= to <= v.len(),
            s == v@.subrange(from as int, to as int),
            forall|j: int| hi - from <= j < s.len() ==> is_whitespace(#[trigger] s[j]),
        decreases hi,
    {
        hi -= 1;
    }
    proof {
        if lo < to {
            assert(s[lo - from] == v@[lo as int]);
        }
        if hi > lo {
            assert(s[hi - from - 1] == v@[hi - 1]);
        }
        lemma_strip_is(s, whitespace(), lo - from, hi - from);
        assert(s.subrange(lo - from, hi - from) =~= v@.subrange(lo as int, hi as int));
        lemma_trim_blank(s);
    }
    (lo, hi)
}

/// The text without the whitespace at either end.
pub fn trimmed(s: &str) -> (out: String)
    ensures
        out@ == trim(s@),
{
    let chars = to_chars(s);
    assert(chars@.subrange(0, chars@.len() as int) =~= chars@);
    let (lo, hi) = trim_bounds(&chars, 0, chars.len());
    to_text(&chars, lo, hi)
}

/// `s` begins with `p`.
pub open spec fn starts_with(s: Seq<char>, p: Seq<char>) -> bool {
    p.len() <= s.len() && s.take(p.len() as int) == p
}

/// Whether `v[lo..hi]` begins with `p`.
pub fn starts_with_at(v: &Vec<char>, lo: usize, hi: usize, p: &Vec<char>) -> (b: bool)
    requires
        lo <= hi <= v.len(),
    ensures
        b == starts_with(v@.subrange(lo as int, hi as int), p@),
{
    let n = p.len();
    let ghost s = v@.subrange(lo as int, hi as int);
    if n > hi - lo {
        return false;
    }
    let mut i: usize = 0;
    while i < n
        invariant
            i <= n <= hi - lo,
            lo <= hi <= v.len(),
            n == p@.len(),
            s == v@.subrange(lo as int, hi as int),
            forall|j: int| 0 <= j < i ==> s[j] == p@[j],
        decreases n - i,
    {
        if v[lo + i] != p[i] {
            assert(s.take(n as int)[i as int] != p@[i as int]);
            return false;
        }
        i += 1;
    }
    assert(s.take(n as int) =~= p@);
    true
}

/// Whether the two hold the same characters.
pub fn same_text(a: &Vec<char>, b: &Vec<char>) -> (r: bool)
    ensures
        r == (a@ == b@),
{
    if a.len() != b.len() {
        return false;
    }
    let r = starts_with_at(a, 0, a.len(), b);
    assert(a@.subrange(0, a@.len() as int).take(b@.len() as int) =~= a@);
    r
}

/// `s` ends with `p`.
pub open spec fn ends_with(s: Seq<char>, p: Seq<char>) -> bool {
    p.len() <= s.len() && s.skip(s.len() - p.len()) == p
}

/// Whether `v` ends with `p`.
pub fn ends_with_text(v: &Vec<char>, p: &Vec<char>) -> (b: bool)
    ensures
        b == ends_with(v@, p@),
{
    if p.len() > v.len() {
        return false;
    }
    let b = starts_with_at(v, v.len() - p.len(), v.len(), p);
    assert(v@.subrange(v@.len() - p@.len(), v@.len() as int).take(p@.len() as int) =~= v@.skip(
        v@.len() - p@.len(),
    ));
    b
}

/// `p` occurs somewhere in `s`.
pub open spec fn contains(s: Seq<char>, p: Seq<char>) -> bool {
    exists|k: int| 0 <= k <= s.len() - p.len() && #[trigger] s.subrange(k, k + p.len()) == p
}

/// Whether `p` occurs somewhere in `v`.
pub fn contains_text(v: &Vec<char>, p: &Vec<char>) -> (b: bool)
    ensures
        b == contains(v@, p@),
{
    if p.len() > v.len() {
        return false;
    }
    let last: usize = v.len() - p.len();
    let mut k: usize = 0;
    while k <= last
        invariant
            k <= last,
            last == v.len() - p.len(),
            forall|j: int| 0 <= j < k ==> #[trigger] v@.subrange(j, j + p@.len()) != p@,
        decreases last - k,
    {
        let hit = starts_with_at(v, k, v.len(), p);
        assert(v@.subrange(k as int, v@.len() as int).take(p@.len() as int) =~= v@.subrange(
            k as int,
            k + p@.len(),
        ));
        if hit {
            return true;
        }
        if k == last {
            return false;
        }
        k += 1;
    }
    false
}

/// The characters other than the newline, as a predicate.
pub open spec fn not_newline() -> spec_fn(char) -> bool {
    |c: char| c != '\n'
}

/// Where the first line of `s` ends: the index of its first newline, or its length.
pub open spec fn line_end(s: Seq<char>) -> int {
    leading(s, not_newline()) as int
}

/// A line without the carriage return that may precede its newline.
pub open spec fn strip_cr(l: Seq<char>) -> Seq<char> {
    if l.len() > 0 && l.last() == '\r' {
        l.drop_last()
    } else {
        l
    }
}

/// The lines of `s`. A line ends at a newline, or at a carriage return directly
/// followed by one; the ending is not part of the line. What follows the last
/// newline is a line of its own unless it is empty.
pub open spec fn lines(s: Seq<char>) -> Seq<Seq<char>>
    decreases s.len(),
{
    if s.len() == 0 {
        Seq::empty()
    } else {
        let e = line_end(s);
        if 0 <= e < s.len() {
            seq![strip_cr(s.take(e))] + lines(s.skip(e + 1))
        } else {
            seq![s]
        }
    }
}

/// The views of a list of texts.
pub open spec fn text_views(ts: Seq<String>) -> Seq<Seq<char>> {
    ts.map_values(|t: String| t@)
}

/// The views of a vector of lines.
pub open spec fn line_views(ls: Seq<Vec<char>>) -> Seq<Seq<char>> {
    Seq::new(ls.len(), |i: int| ls[i]@)
}

/// Splits `v` into its lines.
pub fn split_lines(v: &Vec<char>) -> (out: Vec<Vec<char>>)
    ensures
        line_views(out@) == lines(v@),
{
    let mut out: Vec<Vec<char>> = Vec::new();
    let mut pos: usize = 0;
    assert(line_views(out@) =~= Seq::<Seq<char>>::empty());
    assert(v@.skip(0) =~= v@);
    while pos < v.len()
        invariant
            pos <= v.len(),
            lines(v@) == line_views(out@) + lines(v@.skip(pos as int)),
        decreases v.len() - pos,
    {
        let ghost rest = v@.skip(pos as int);
        let ghost before = line_views(out@);
        let mut e: usize = pos;
        while e < v.len() && v[e] != '\n'
            invariant
                pos <= e <= v.len(),
                forall|j: int| pos <= j < e ==> #[trigger] v@[j] != '\n',
            decreases v.len() - e,
        {
            e += 1;
        }
        proof {
            assert forall|j: int| 0 <= j < e - pos implies not_newline()(#[trigger] rest[j]) by {
                assert(rest[j] == v@[pos + j]);
            }
            lemma_leading_is(rest, not_newline(), e - pos);
        }
        let mut line: Vec<char> = Vec::new();
        if e < v.len() {
            let stop: usize = if e > pos && v[e - 1] == '\r' {
                e - 1
            } else {
                e
            };
            push_chars(&mut line, v, pos, stop);
            proof {
                assert(rest.take(e - pos) =~= v@.subrange(pos as int, e as int));
                assert(line@ =~= strip_cr(rest.take(e - pos)));
                assert(rest.skip(e - pos + 1) =~= v@.skip(e + 1));
            }
            out.push(line);
            pos = e + 1;
        } else {
            push_chars(&mut line, v, pos, e);
            proof {
                assert(line@ =~= rest);
                assert(lines(v@.skip(e as int)) =~= Seq::<Seq<char>>::empty());
            }
            out.push(line);
            pos = e;
        }
        assert(line_views(out@) =~= before.push(line@));
        assert(lines(v@) =~= line_views(out@) + lines(v@.skip(pos as int)));
    }
    assert(lines(v@.skip(pos as int)) =~= Seq::<Seq<char>>::empty());
    assert(line_views(out@) + Seq::<Seq<char>>::empty() =~= line_views(out@));
    out
}

/// Lines joined by single newlines.
pub open spec fn join_lines(ls: Seq<Seq<char>>) -> Seq<char>
    decreases ls.len(),
{
    if ls.len() == 0 {
        Seq::empty()
    } else if ls.len() == 1 {
        ls[0]
    } else {
        join_lines(ls.drop_last()) + seq!['\n'] + ls.last()
    }
}

/// The pieces of `s` between its newlines: one more than it has newlines.
pub open spec fn pieces(s: Seq<char>) -> Seq<Seq<char>>
    decreases s.len(),
{
    let e = line_end(s);
    if 0 <= e < s.len() {
        seq![s.take(e)] + pieces(s.skip(e + 1))
    } else {
        seq![s]
    }
}

/// Lines written one after the other, each with a newline after it.
pub open spec fn unlines(ls: Seq<Seq<char>>) -> Seq<char>
    decreases ls.len(),
{
    if ls.len() == 0 {
        Seq::empty()
    } else {
        ls[0] + seq!['\n'] + unlines(ls.drop_first())
    }
}

/// No character of `l` is a newline.
pub open spec fn has_no_newline(l: Seq<char>) -> bool {
    forall|i: int| 0 <= i < l.len() ==> #[trigger] l[i] != '\n'
}

/// A line that comes back as it is when it is written with a newline after
/// it and read again: it holds no newline and ends in no carriage return.
pub open spec fn is_whole_line(l: Seq<char>) -> bool {
    has_no_newline(l) && !(l.len() > 0 && l.last() == '\r')
}

/// A line without a newline ends where its characters end, whatever follows its newline.
pub proof fn lemma_line_end_of(l: Seq<char>, rest: Seq<char>)
    requires
        has_no_newline(l),
    ensures
        line_end(l + seq!['\n'] + rest) == l.len(),
        line_end(l) == l.len(),
{
    let s = l + seq!['\n'] + rest;
    assert forall|j: int| 0 <= j < l.len() implies not_newline()(#[trigger] s[j]) by {
        assert(s[j] == l[j]);
    }
    assert(s[l.len() as int] == '\n');
    lemma_leading_is(s, not_newline(), l.len() as int);
    assert forall|j: int| 0 <= j < l.len() implies not_newline()(#[trigger] l[j]) by {}
    lemma_leading_is(l, not_newline(), l.len() as int);
}

/// Reading what was written line by line gives the lines.
pub proof fn lemma_lines_unlines(ls: Seq<Seq<char>>)
    requires
        forall|i: int| 0 <= i < ls.len() ==> is_whole_line(#[trigger] ls[i]),
    ensures
        lines(unlines(ls)) == ls,
    decreases ls.len(),
{
    if ls.len() > 0 {
        let rest = unlines(ls.drop_first());
        let s = ls[0] + seq!['\n'] + rest;
        assert(is_whole_line(ls[0]));
        lemma_line_end_of(ls[0], rest);
        assert forall|i: int| 0 <= i < ls.drop_first().len() implies is_whole_line(
            #[trigger] ls.drop_first()[i],
        ) by {
            assert(ls.drop_first()[i] == ls[i + 1]);
        }
        lemma_lines_unlines(ls.drop_first());
        assert(s.take(ls[0].len() as int) =~= ls[0]);
        assert(s.skip(ls[0].len() as int + 1) =~= rest);
        assert(lines(s) =~= seq![ls[0]] + ls.drop_first());
        assert(seq![ls[0]] + ls.drop_first() =~= ls);
    } else {
        assert(lines(unlines(ls)) =~= ls);
    }
}

/// Writing two lists of lines one after the other.
pub proof fn lemma_unlines_concat(a: Seq<Seq<char>>, b: Seq<Seq<char>>)
    ensures
        unlines(a + b) == unlines(a) + unlines(b),
    decreases a.len(),
{
    if a.len() == 0 {
        assert(a + b =~= b);
        assert(unlines(a) + unlines(b) =~= unlines(b));
    } else {
        lemma_unlines_concat(a.drop_first(), b);
        assert((a + b).drop_first() =~= a.drop_first() + b);
        assert(unlines(a + b) =~= unlines(a) + unlines(b));
    }
}

/// The pieces of a text hold no newline, and written with a newline after
/// each they are the text with one newline more; joined they are the text.
pub proof fn lemma_pieces(s: Seq<char>)
    ensures
        pieces(s).len() > 0,
        forall|i: int| 0 <= i < pieces(s).len() ==> has_no_newline(#[trigger] pieces(s)[i]),
        unlines(pieces(s)) == s + seq!['\n'],
        join_lines(pieces(s)) == s,
    decreases s.len(),
{
    let e = line_end(s);
    let p = pieces(s);
    lemma_leading_bounds(s, not_newline());
    if 0 <= e < s.len() {
        let head = s.take(e);
        let tail = s.skip(e + 1);
        lemma_pieces(tail);
        let q = pieces(tail);
        assert(p =~= seq![head] + q);
        assert forall|i: int| 0 <= i < p.len() implies has_no_newline(#[trigger] p[i]) by {
            if i == 0 {
                assert forall|j: int| 0 <= j < head.len() implies #[trigger] head[j] != '\n' by {
                    assert(not_newline()(s[j]));
                }
            } else {
                assert(p[i] == q[i - 1]);
            }
        }
        assert(p.drop_first() =~= q);
        assert(unlines(p) =~= s + seq!['\n']);
        lemma_join_front(head, q);
        assert(join_lines(p) =~= s);
    } else {
        assert(p =~= seq![s]);
        assert(p.drop_first() =~= Seq::<Seq<char>>::empty());
        assert(unlines(p.drop_first()) =~= Seq::<char>::empty());
        assert(unlines(p) =~= s + seq!['\n']);
        assert forall|j: int| 0 <= j < s.len() implies #[trigger] s[j] != '\n' by {
            assert(not_newline()(s[j]));
        }
    }
}

/// Joining with a line in front.
pub proof fn lemma_join_front(l: Seq<char>, ls: Seq<Seq<char>>)
    requires
        ls.len() > 0,
    ensures
        join_lines(seq![l] + ls) == l + seq!['\n'] + join_lines(ls),
    decreases ls.len(),
{
    let all = seq![l] + ls;
    assert(all.drop_last() =~= seq![l] + ls.drop_last());
    assert(all.last() == ls.last());
    if ls.len() == 1 {
        assert(all.drop_last() =~= seq![l]);
        assert(join_lines(seq![l]) =~= l);
        assert(join_lines(ls) =~= ls[0]);
        assert(join_lines(all) =~= l + seq!['\n'] + ls[0]);
    } else {
        lemma_join_front(l, ls.drop_last());
        assert(join_lines(all) =~= l + seq!['\n'] + join_lines(ls));
    }
}

} // verus!
