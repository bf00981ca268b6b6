//! Hosts-file output: one `0.0.0.0 <hostname>` line per record.

use vstd::prelude::*;

use crate::parser::{
    before_hash, entries_of_lines, host_of_line, hosts_of, lemma_entries_concat, parse_text,
    HostEntry,
};
use crate::text::{
    first_where, is_char, is_ws, lemma_first_where, lemma_first_where_bound, lines_of, push_char, split_ws, ws,
};

verus! {

/// The fixed address that every output line blocks its host with.
pub open spec fn sentinel() -> Seq<char> {
    seq!['0', '.', '0', '.', '0', '.', '0']
}

/// The output line of one hostname, without its line break.
pub open spec fn entry_line(h: Seq<char>) -> Seq<char> {
    sentinel() + seq![' '] + h
}

/// The output text of a sequence of hostnames: each one's line, followed by a
/// line break, in order.
pub open spec fn render_text(hs: Seq<Seq<char>>) -> Seq<char>
    decreases hs.len(),
{
    if hs.len() == 0 {
        seq![]
    } else {
        entry_line(hs[0]) + seq!['\n'] + render_text(hs.drop_first())
    }
}

/// A hostname as the parser yields it: not empty, with no whitespace and no
/// `'#'`.
pub open spec fn is_host_token(h: Seq<char>) -> bool {
    &&& h.len() > 0
    &&& forall|j: int| 0 <= j < h.len() ==> !is_ws(#[trigger] h[j]) && h[j] != '#'
}

pub proof fn lemma_render_push(hs: Seq<Seq<char>>, h: Seq<char>)
    ensures
        render_text(hs.push(h)) == render_text(hs) + entry_line(h) + seq!['\n'],
    decreases hs.len(),
{
    if hs.len() == 0 {
        assert(hs.push(h).drop_first() =~= seq![]);
        assert(hs.push(h)[0] == h);
        assert(render_text(hs.push(h).drop_first()) =~= seq![]);
        assert(render_text(hs.push(h)) =~= render_text(hs) + entry_line(h) + seq!['\n']);
    } else {
        lemma_render_push(hs.drop_first(), h);
        assert(hs.push(h).drop_first() =~= hs.drop_first().push(h));
        assert(render_text(hs.push(h)) =~= render_text(hs) + entry_line(h) + seq!['\n']);
    }
}

impl HostEntry {
    /// This record's output line, without its line break.
    pub fn line(&self) -> (r: String)
        ensures
            r@ == entry_line(self@),
    {
        let prefix = "0.0.0.0 ";
        proof {
            reveal_strlit("0.0.0.0 ");
        }
        let mut out = prefix.to_owned();
        assert(out@ =~= sentinel() + seq![' ']);
        out.append(self.0.as_str());
        out
    }
}

/// The hosts-file text of `entries`, one line per record, in order.
pub fn render(entries: &[HostEntry]) -> (r: String)
    ensures
        r@ == render_text(hosts_of(entries@)),
{
    let mut list = String::new();
    let ghost hs = hosts_of(entries@);
    let mut i: usize = 0;
    assert(hs.take(0) =~= seq![]);
    while i < entries.len()
        invariant
            i <= entries@.len(),
            hs == hosts_of(entries@),
            list@ == render_text(hs.take(i as int)),
        decreases entries@.len() - i,
    {
        let line = entries[i].line();
        list.append(line.as_str());
        push_char(&mut list, '\n');
        proof {
            lemma_render_push(hs.take(i as int), hs[i as int]);
            assert(hs.take(i + 1) =~= hs.take(i as int).push(hs[i as int]));
            assert(list@ =~= render_text(hs.take(i + 1)));
        }
        i += 1;
    }
    assert(hs.take(i as int) =~= hs);
    list
}

/// The line of a hostname names that hostname.
pub proof fn lemma_host_of_entry_line(h: Seq<char>)
    requires
        is_host_token(h),
    ensures
        host_of_line(entry_line(h)) == Some(h),
{
    let s = entry_line(h);
    assert forall|j: int| 0 <= j < s.len() implies !(#[trigger] is_char('#')(s[j])) by {
        if j >= 8 {
            assert(s[j] == h[j - 8]);
        }
    }
    lemma_first_where(s, is_char('#'), s.len() as int);
    assert(before_hash(s) =~= s);
    assert forall|j: int| 0 <= j < 7 implies !(#[trigger] ws()(s[j])) by {}
    assert(ws()(s[7]));
    lemma_first_where(s, ws(), 7);
    assert(s.take(7) =~= sentinel());
    let t = s.skip(7);
    assert(t.drop_first() =~= h);
    assert forall|j: int| 0 <= j < h.len() implies !(#[trigger] ws()(h[j])) by {}
    lemma_first_where(h, ws(), h.len() as int);
    assert(h.take(h.len() as int) =~= h);
    assert(h.skip(h.len() as int) =~= seq![]);
    assert(split_ws(h.skip(h.len() as int)) =~= seq![]);
    assert(split_ws(h) =~= seq![h]);
    assert(split_ws(t) =~= seq![h]);
    assert(split_ws(s) =~= seq![sentinel(), h]);
}

/// Every token of a text without `'#'` is a hostname as the parser yields it.
pub proof fn lemma_split_ws_tokens(s: Seq<char>)
    requires
        forall|j: int| 0 <= j < s.len() ==> #[trigger] s[j] != '#',
    ensures
        forall|i: int| 0 <= i < split_ws(s).len() ==> is_host_token(#[trigger] split_ws(s)[i]),
    decreases s.len(),
{
    if s.len() == 0 {
    } else if is_ws(s[0]) {
        let r = s.drop_first();
        assert forall|j: int| 0 <= j < r.len() implies #[trigger] r[j] != '#' by {
            assert(r[j] == s[j + 1]);
        }
        lemma_split_ws_tokens(r);
        assert(split_ws(s) == split_ws(r));
    } else {
        let w = first_where(s, ws()) as int;
        lemma_first_where_bound(s, ws());
        let r = s.skip(w);
        assert forall|j: int| 0 <= j < r.len() implies #[trigger] r[j] != '#' by {
            assert(r[j] == s[j + w]);
        }
        lemma_split_ws_tokens(r);
        let t = s.take(w);
        assert forall|j: int| 0 <= j < t.len() implies !is_ws(#[trigger] t[j]) && t[j] != '#' by {
            assert(t[j] == s[j]);
            assert(!ws()(s[j]));
        }
        assert(split_ws(s) == seq![t] + split_ws(r));
        assert forall|i: int| 0 <= i < split_ws(s).len() implies is_host_token(
            #[trigger] split_ws(s)[i],
        ) by {
            if i > 0 {
                assert(split_ws(s)[i] == split_ws(r)[i - 1]);
            }
        }
    }
}

/// Each hostname that a line names is a hostname token.
pub proof fn lemma_host_of_line_is_token(line: Seq<char>)
    ensures
        host_of_line(line) matches Some(h) ==> is_host_token(h),
{
    let b = before_hash(line);
    lemma_first_where_bound(line, is_char('#'));
    assert forall|j: int| 0 <= j < b.len() implies #[trigger] b[j] != '#' by {
        assert(b[j] == line[j]);
        assert(!is_char('#')(line[j]));
    }
    lemma_split_ws_tokens(b);
}

/// Rendering is format-stable: each line of the output is `0.0.0.0` and a
/// record's hostname, one line per record in order, and parsing the output
/// gives back the hostnames.
pub proof fn lemma_render_round_trip(hs: Seq<Seq<char>>)
    requires
        forall|i: int| 0 <= i < hs.len() ==> is_host_token(#[trigger] hs[i]),
    ensures
        lines_of(render_text(hs)) == hs.map_values(|h: Seq<char>| entry_line(h)),
        parse_text(render_text(hs)) == hs,
    decreases hs.len(),
{
    if hs.len() == 0 {
        assert(hs.map_values(|h: Seq<char>| entry_line(h)) =~= seq![]);
        assert(entries_of_lines(seq![]) =~= hs);
    } else {
        let h = hs[0];
        let rest = hs.drop_first();
        lemma_render_round_trip(rest);
        let l = entry_line(h);
        let s = render_text(hs);
        assert(s =~= l + seq!['\n'] + render_text(rest));
        assert forall|j: int| 0 <= j < l.len() implies !(#[trigger] is_char('\n')(s[j])) by {
            if j >= 8 {
                assert(s[j] == h[j - 8]);
            }
        }
        lemma_first_where(s, is_char('\n'), l.len() as int);
        assert(s.take(l.len() as int) =~= l);
        assert(s.skip(l.len() as int + 1) =~= render_text(rest));
        let ls = hs.map_values(|h: Seq<char>| entry_line(h));
        assert(ls =~= seq![l] + rest.map_values(|h: Seq<char>| entry_line(h)));
        assert(lines_of(s) =~= ls);
        lemma_host_of_entry_line(h);
        lemma_entries_concat(seq![l], rest.map_values(|h: Seq<char>| entry_line(h)));
        assert(seq![l].drop_last() =~= seq![]);
        assert(seq![l].last() == l);
        assert(entries_of_lines(seq![l].drop_last()) =~= seq![]);
        assert(entries_of_lines(seq![l]) =~= seq![h]);
        assert(parse_text(s) =~= hs);
    }
}


/// Every hostname that a run of lines names is a hostname token.
pub proof fn lemma_entries_are_tokens(ls: Seq<Seq<char>>)
    ensures
        forall|i: int|
            0 <= i < entries_of_lines(ls).len() ==> is_host_token(#[trigger] entries_of_lines(ls)[i]),
    decreases ls.len(),
{
    if ls.len() > 0 {
        let rest = entries_of_lines(ls.drop_last());
        lemma_entries_are_tokens(ls.drop_last());
        lemma_host_of_line_is_token(ls.last());
        match host_of_line(ls.last()) {
            Some(h) => {
                assert(entries_of_lines(ls) == rest.push(h));
                assert forall|i: int| 0 <= i < rest.push(h).len() implies is_host_token(
                    #[trigger] rest.push(h)[i],
                ) by {
                    if i < rest.len() {
                        assert(rest.push(h)[i] == rest[i]);
                    }
                }
            },
            None => {
                assert(entries_of_lines(ls) == rest);
            },
        }
    }
}

/// Whatever text is parsed, rendering its records and parsing the rendering
/// gives the same records back.
pub proof fn lemma_parse_render_parse(s: Seq<char>)
    ensures
        parse_text(render_text(parse_text(s))) == parse_text(s),
{
    lemma_entries_are_tokens(lines_of(s));
    lemma_render_round_trip(parse_text(s));
}

} // verus!
