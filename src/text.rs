//! Character-level text model: whitespace, first-match search, line splitting.

use vstd::prelude::*;

verus! {

/// Unicode `White_Space`, the set that `char::is_whitespace` and
/// `str::split_whitespace` use.
pub open spec fn is_ws(c: char) -> bool {
    let u = c as u32;
    (0x9 <= u && u <= 0xD) || u == 0x20 || u == 0x85 || u == 0xA0 || u == 0x1680
        || (0x2000 <= u && u <= 0x200A) || u == 0x2028 || u == 0x2029 || u == 0x202F
        || u == 0x205F || u == 0x3000
}

/// Executable test for `is_ws`.
pub fn is_whitespace(c: char) -> (r: bool)
    ensures
        r == is_ws(c),
{
    let u = c as u32;
    (0x9 <= u && u <= 0xD) || u == 0x20 || u == 0x85 || u == 0xA0 || u == 0x1680
        || (0x2000 <= u && u <= 0x200A) || u == 0x2028 || u == 0x2029 || u == 0x202F
        || u == 0x205F || u == 0x3000
}

/// The characters of `s`, in order.
pub fn to_chars(s: &str) -> (r: Vec<char>)
    ensures
        r@ == s@,
{
    let mut out: Vec<char> = Vec::new();
    for c in it: s.chars()
        invariant
            out@ == it.history(),
    {
        out.push(c);
    }
    out
}

/// Relies on `String::push`: appends one character at the end.
#[verifier::external_body]
pub(crate) fn push_char(s: &mut String, c: char)
    ensures
        final(s)@ == old(s)@.push(c),
{
    s.push(c);
}


/// Position of the first character of `s` that satisfies `p`; `s.len()` when
/// none does.
pub open spec fn first_where(s: Seq<char>, p: spec_fn(char) -> bool) -> nat
    decreases s.len(),
{
    if s.len() == 0 {
        0
    } else if p(s[0]) {
        0
    } else {
        1 + first_where(s.drop_first(), p)
    }
}

/// Whitespace, as a predicate on characters.
pub open spec fn ws() -> spec_fn(char) -> bool {
    |c: char| is_ws(c)
}

/// Anything but whitespace, as a predicate on characters.
pub open spec fn non_ws() -> spec_fn(char) -> bool {
    |c: char| !is_ws(c)
}

/// One given character, as a predicate on characters.
pub open spec fn is_char(t: char) -> spec_fn(char) -> bool {
    |c: char| c == t
}

pub proof fn lemma_first_where_bound(s: Seq<char>, p: spec_fn(char) -> bool)
    ensures
        first_where(s, p) <= s.len(),
        first_where(s, p) < s.len() ==> p(s[first_where(s, p) as int]),
        forall|j: int| 0 <= j < first_where(s, p) ==> !p(#[trigger] s[j]),
    decreases s.len(),
{
    if s.len() > 0 && !p(s[0]) {
        lemma_first_where_bound(s.drop_first(), p);
        assert forall|j: int| 0 <= j < first_where(s, p) implies !p(#[trigger] s[j]) by {
            if j > 0 {
                assert(s[j] == s.drop_first()[j - 1]);
            }
        }
    }
}

/// The first position that `p` holds at is pinned down by the characters
/// before it.
pub proof fn lemma_first_where(s: Seq<char>, p: spec_fn(char) -> bool, k: int)
    requires
        0 <= k <= s.len(),
        forall|j: int| 0 <= j < k ==> !p(#[trigger] s[j]),
        k == s.len() || p(s[k]),
    ensures
        first_where(s, p) == k,
    decreases k,
{
    if k > 0 {
        assert forall|j: int| 0 <= j < k - 1 implies !p(#[trigger] s.drop_first()[j]) by {
            assert(s.drop_first()[j] == s[j + 1]);
        }
        lemma_first_where(s.drop_first(), p, k - 1);
    }
}

/// The whitespace-separated tokens of `s`, as `str::split_whitespace` yields
/// them.
pub open spec fn split_ws(s: Seq<char>) -> Seq<Seq<char>>
    decreases s.len(),
    via split_ws_decreases
{
    if s.len() == 0 {
        seq![]
    } else if is_ws(s[0]) {
        split_ws(s.drop_first())
    } else {
        let w = first_where(s, ws()) as int;
        seq![s.take(w)] + split_ws(s.skip(w))
    }
}

#[via_fn]
proof fn split_ws_decreases(s: Seq<char>) {
    if s.len() > 0 && !is_ws(s[0]) {
        lemma_first_where_bound(s, ws());
        assert(first_where(s, ws()) >= 1);
    }
}

/// The lines of `s`: the pieces between `'\n'` characters, without a last,
/// empty piece after a final `'\n'`. A `'\r'` before a `'\n'` stays in its line,
/// where it counts as whitespace.
pub open spec fn lines_of(s: Seq<char>) -> Seq<Seq<char>>
    decreases s.len(),
    via lines_of_decreases
{
    if s.len() == 0 {
        seq![]
    } else {
        let k = first_where(s, is_char('\n')) as int;
        if k >= s.len() {
            seq![s]
        } else {
            seq![s.take(k)] + lines_of(s.skip(k + 1))
        }
    }
}

#[via_fn]
proof fn lines_of_decreases(s: Seq<char>) {
    lemma_first_where_bound(s, is_char('\n'));
}


/// The end of the run of whitespace that starts at `from`, looking no further
/// than `to`.
pub fn skip_ws(s: &[char], from: usize, to: usize) -> (r: usize)
    requires
        from <= to <= s@.len(),
    ensures
        r == from + first_where(s@.subrange(from as int, to as int), non_ws()),
{
    let mut i: usize = from;
    while i < to && is_whitespace(s[i])
        invariant
            from <= i <= to <= s@.len(),
            forall|j: int| from <= j < i ==> is_ws(#[trigger] s@[j]),
        decreases to - i,
    {
        i += 1;
    }
    proof {
        lemma_first_where(s@.subrange(from as int, to as int), non_ws(), i - from);
    }
    i
}

/// The end of the run of non-whitespace that starts at `from`, looking no
/// further than `to`.
pub fn skip_word(s: &[char], from: usize, to: usize) -> (r: usize)
    requires
        from <= to <= s@.len(),
    ensures
        r == from + first_where(s@.subrange(from as int, to as int), ws()),
{
    let mut i: usize = from;
    while i < to && !is_whitespace(s[i])
        invariant
            from <= i <= to <= s@.len(),
            forall|j: int| from <= j < i ==> !is_ws(#[trigger] s@[j]),
        decreases to - i,
    {
        i += 1;
    }
    proof {
        lemma_first_where(s@.subrange(from as int, to as int), ws(), i - from);
    }
    i
}

/// The first position from `from` on that holds `t`, or `to` when none before
/// it does.
pub fn find_char(s: &[char], from: usize, to: usize, t: char) -> (r: usize)
    requires
        from <= to <= s@.len(),
    ensures
        r == from + first_where(s@.subrange(from as int, to as int), is_char(t)),
{
    let mut i: usize = from;
    while i < to && s[i] != t
        invariant
            from <= i <= to <= s@.len(),
            forall|j: int| from <= j < i ==> #[trigger] s@[j] != t,
        decreases to - i,
    {
        i += 1;
    }
    proof {
        lemma_first_where(s@.subrange(from as int, to as int), is_char(t), i - from);
    }
    i
}


/// What each line of a split text holds.
pub open spec fn line_views(ls: Seq<Vec<char>>) -> Seq<Seq<char>> {
    ls.map_values(|l: Vec<char>| l@)
}

/// A copy of `s[from..to]`.
pub fn copy_range(s: &[char], from: usize, to: usize) -> (r: Vec<char>)
    requires
        from <= to <= s@.len(),
    ensures
        r@ == s@.subrange(from as int, to as int),
{
    let mut out: Vec<char> = Vec::with_capacity(to - from);
    let mut i: usize = from;
    while i < to
        invariant
            from <= i <= to <= s@.len(),
            out@ == s@.subrange(from as int, i as int),
        decreases to - i,
    {
        out.push(s[i]);
        i += 1;
        assert(out@ =~= s@.subrange(from as int, i as int));
    }
    out
}

/// Splits `text` into its lines.
pub fn split_lines(text: &[char]) -> (r: Vec<Vec<char>>)
    ensures
        line_views(r@) == lines_of(text@),
{
    let n = text.len();
    let mut out: Vec<Vec<char>> = Vec::new();
    let mut start: usize = 0;
    assert(text@.skip(0) =~= text@);
    while start < n
        invariant
            n == text@.len(),
            start <= n,
            lines_of(text@) == line_views(out@) + lines_of(text@.skip(start as int)),
        decreases n - start,
    {
        let k = find_char(text, start, n, '\n');
        let ghost rest = text@.skip(start as int);
        let ghost prev = out@;
        assert(rest =~= text@.subrange(start as int, n as int));
        proof {
            lemma_first_where_bound(rest, is_char('\n'));
        }
        let line = copy_range(text, start, k);
        assert(line@ =~= rest.take(k - start));
        out.push(line);
        assert(line_views(out@) =~= line_views(prev).push(line@));
        if k < n {
            assert(rest.skip(k - start + 1) =~= text@.skip(k + 1));
            start = k + 1;
        } else {
            assert(rest.take(k - start) =~= rest);
            assert(text@.skip(n as int).len() == 0);
            start = n;
        }
        assert(lines_of(text@) =~= line_views(out@) + lines_of(text@.skip(start as int)));
    }
    assert(line_views(out@) + lines_of(text@.skip(n as int)) =~= line_views(out@));
    out
}


/// Leading whitespace does not change the tokens.
pub proof fn lemma_split_ws_skip(s: Seq<char>, a: int)
    requires
        0 <= a <= s.len(),
        forall|j: int| 0 <= j < a ==> is_ws(#[trigger] s[j]),
    ensures
        split_ws(s) == split_ws(s.skip(a)),
    decreases a,
{
    if a == 0 {
        assert(s.skip(0) =~= s);
    } else {
        assert forall|j: int| 0 <= j < a - 1 implies is_ws(#[trigger] s.drop_first()[j]) by {
            assert(s.drop_first()[j] == s[j + 1]);
        }
        lemma_split_ws_skip(s.drop_first(), a - 1);
        assert(s.drop_first().skip(a - 1) =~= s.skip(a));
    }
}

/// The characters of `s[from..to]` as a `String`.
pub fn string_of(s: &[char], from: usize, to: usize) -> (r: String)
    requires
        from <= to <= s@.len(),
    ensures
        r@ == s@.subrange(from as int, to as int),
{
    let mut out = String::new();
    let mut i: usize = from;
    while i < to
        invariant
            from <= i <= to <= s@.len(),
            out@ == s@.subrange(from as int, i as int),
        decreases to - i,
    {
        push_char(&mut out, s[i]);
        i += 1;
        assert(out@ =~= s@.subrange(from as int, i as int));
    }
    out
}

} // verus!
