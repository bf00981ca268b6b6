//! Host records and the parsing of hosts-file text into them.

use vstd::prelude::*;

use crate::text::{
    first_where, is_char, lemma_first_where_bound, lemma_split_ws_skip, line_views, lines_of,
    non_ws, skip_word, skip_ws, split_lines, split_ws, string_of, to_chars, find_char, ws,
};

verus! {

/// One blocked hostname, taken verbatim from a list.
#[derive(Debug, Clone, Hash, PartialEq, Eq)]
pub struct HostEntry(pub String);

impl View for HostEntry {
    type V = Seq<char>;

    open spec fn view(&self) -> Seq<char> {
        self.0@
    }
}

impl HostEntry {
    /// The record of `host`, verbatim.
    pub fn new(host: &str) -> (r: Self)
        ensures
            r@ == host@,
    {
        HostEntry(host.to_owned())
    }
}

/// The hostnames of a collection of entries.
pub open spec fn hosts_of(v: Seq<HostEntry>) -> Seq<Seq<char>> {
    v.map_values(|e: HostEntry| e@)
}

/// The part of a line before its first `'#'`.
pub open spec fn before_hash(line: Seq<char>) -> Seq<char> {
    line.take(first_where(line, is_char('#')) as int)
}

/// The hostname that a line names: the second whitespace-separated token of
/// what precedes its first `'#'`. Blank lines, comments and lines of fewer than
/// two tokens name none.
pub open spec fn host_of_line(line: Seq<char>) -> Option<Seq<char>> {
    let t = split_ws(before_hash(line));
    if t.len() >= 2 {
        Some(t[1])
    } else {
        None
    }
}

/// Reads one line of a hosts file.
pub fn parse_line(line: &[char]) -> (r: Option<HostEntry>)
    ensures
        match r {
            Some(e) => host_of_line(line@) == Some(e@),
            None => host_of_line(line@) is None,
        },
{
    let n = line.len();
    let end = find_char(line, 0, n, '#');
    let ghost x = line@.subrange(0, end as int);
    proof {
        assert(line@.subrange(0, n as int) =~= line@);
        lemma_first_where_bound(line@, is_char('#'));
        assert(x =~= before_hash(line@));
    }
    let a = skip_ws(line, 0, end);
    proof {
        lemma_first_where_bound(x, non_ws());
        lemma_split_ws_skip(x, a as int);
    }
    if a == end {
        assert(x.skip(a as int).len() == 0);
        return None;
    }
    let b = skip_word(line, a, end);
    let ghost y = x.skip(a as int);
    proof {
        assert(y =~= line@.subrange(a as int, end as int));
        lemma_first_where_bound(y, ws());
        assert(y.skip(b - a) =~= x.skip(b as int));
    }
    let c = skip_ws(line, b, end);
    proof {
        let z = x.skip(b as int);
        assert(z =~= line@.subrange(b as int, end as int));
        lemma_first_where_bound(z, non_ws());
        lemma_split_ws_skip(z, c - b);
        assert(z.skip(c - b) =~= x.skip(c as int));
    }
    if c == end {
        assert(x.skip(c as int).len() == 0);
        return None;
    }
    let d = skip_word(line, c, end);
    proof {
        let u = x.skip(c as int);
        assert(u =~= line@.subrange(c as int, end as int));
        lemma_first_where_bound(u, ws());
        assert(u.take(d - c) =~= line@.subrange(c as int, d as int));
    }
    let host = string_of(line, c, d);
    Some(HostEntry(host))
}


/// The hostnames that a sequence of lines names, in line order.
pub open spec fn entries_of_lines(ls: Seq<Seq<char>>) -> Seq<Seq<char>>
    decreases ls.len(),
{
    if ls.len() == 0 {
        seq![]
    } else {
        let rest = entries_of_lines(ls.drop_last());
        match host_of_line(ls.last()) {
            Some(h) => rest.push(h),
            None => rest,
        }
    }
}

/// The hostnames that a hosts-file text names, in line order.
pub open spec fn parse_text(s: Seq<char>) -> Seq<Seq<char>> {
    entries_of_lines(lines_of(s))
}

/// Parsing two runs of lines one after the other gives what parsing them
/// together gives.
pub proof fn lemma_entries_concat(a: Seq<Seq<char>>, b: Seq<Seq<char>>)
    ensures
        entries_of_lines(a + b) == entries_of_lines(a) + entries_of_lines(b),
    decreases b.len(),
{
    if b.len() == 0 {
        assert(a + b =~= a);
        assert(entries_of_lines(a) + entries_of_lines(b) =~= entries_of_lines(a));
    } else {
        lemma_entries_concat(a, b.drop_last());
        assert((a + b).drop_last() =~= a + b.drop_last());
        assert((a + b).last() == b.last());
        match host_of_line(b.last()) {
            Some(h) => {
                assert(entries_of_lines(a + b) =~= entries_of_lines(a) + entries_of_lines(b));
            },
            None => {},
        }
    }
}

/// The contiguous chunks of `size` lines (the last one may be shorter) that
/// `ls` is cut into.
pub open spec fn chunks_of(ls: Seq<Seq<char>>, size: nat) -> Seq<Seq<Seq<char>>>
    decreases ls.len(),
{
    if ls.len() == 0 || size == 0 {
        seq![]
    } else if ls.len() <= size {
        seq![ls]
    } else {
        seq![ls.take(size as int)] + chunks_of(ls.skip(size as int), size)
    }
}

/// The hostnames that each chunk names, chunk after chunk.
pub open spec fn entries_of_chunks(cs: Seq<Seq<Seq<char>>>) -> Seq<Seq<char>>
    decreases cs.len(),
{
    if cs.len() == 0 {
        seq![]
    } else {
        entries_of_lines(cs[0]) + entries_of_chunks(cs.drop_first())
    }
}

/// Cutting the lines into chunks and parsing each chunk on its own loses and
/// repeats no record: the records are those of the whole, as a sequence and so
/// also as a multiset, whatever the chunk size.
pub proof fn lemma_chunked_parse(ls: Seq<Seq<char>>, size: nat)
    requires
        size > 0,
    ensures
        entries_of_chunks(chunks_of(ls, size)) == entries_of_lines(ls),
        entries_of_chunks(chunks_of(ls, size)).to_multiset()
            == entries_of_lines(ls).to_multiset(),
    decreases ls.len(),
{
    if ls.len() == 0 {
    } else if ls.len() <= size {
        let cs = chunks_of(ls, size);
        assert(cs.drop_first() =~= seq![]);
        assert(cs[0] == ls);
        assert(cs.drop_first().len() == 0);
        assert(entries_of_chunks(cs.drop_first()) =~= seq![]);
        assert(entries_of_chunks(cs) =~= entries_of_lines(ls));
    } else {
        let cs = chunks_of(ls, size);
        lemma_chunked_parse(ls.skip(size as int), size);
        assert(cs.drop_first() =~= chunks_of(ls.skip(size as int), size));
        lemma_entries_concat(ls.take(size as int), ls.skip(size as int));
        assert(ls.take(size as int) + ls.skip(size as int) =~= ls);
    }
}

/// Items per chunk when `count` items are shared among `workers` workers:
/// `count / workers` rounded up; no workers count as one.
pub open spec fn chunk_len(count: nat, workers: nat) -> nat {
    let w = if workers == 0 { 1 } else { workers };
    ((count + w - 1) / w as int) as nat
}

/// Computes `chunk_len`.
pub fn chunk_size(count: usize, workers: usize) -> (r: usize)
    ensures
        r == chunk_len(count as nat, workers as nat),
        count > 0 ==> r >= 1,
{
    let w: usize = if workers == 0 { 1 } else { workers };
    if count == 0 {
        assert((count + w - 1) / w as int == 0) by (nonlinear_arith)
            requires
                w > 0,
                count == 0,
        ;
        return 0;
    }
    let q: usize = (count - 1) / w;
    proof {
        assert(q <= count - 1) by (nonlinear_arith)
            requires
                w > 0,
                count > 0,
                q == (count - 1) / w as int,
        ;
        assert(q + 1 == (count + w - 1) / w as int) by (nonlinear_arith)
            requires
                w > 0,
                q == (count - 1) / w as int,
        ;
    }
    q + 1
}

/// Parses runs of lines and hands each record on to a collector.
pub struct Worker {}

impl Worker {
    pub fn new() -> Self {
        Worker {}
    }

    /// Appends to `collector` the record of each line of `lines` that names a
    /// host, in line order.
    pub fn work(&self, lines: &[Vec<char>], collector: &mut Vec<HostEntry>)
        ensures
            hosts_of(final(collector)@) == hosts_of(old(collector)@) + entries_of_lines(
                line_views(lines@),
            ),
    {
        let ghost start = hosts_of(collector@);
        let mut i: usize = 0;
        while i < lines.len()
            invariant
                i <= lines@.len(),
                hosts_of(collector@) == start + entries_of_lines(
                    line_views(lines@).take(i as int),
                ),
            decreases lines@.len() - i,
        {
            let ghost before = collector@;
            let parsed = parse_line(lines[i].as_slice());
            proof {
                let ls = line_views(lines@);
                assert(ls.take(i + 1).drop_last() =~= ls.take(i as int));
                assert(ls.take(i + 1).last() == lines@[i as int]@);
            }
            match parsed {
                Some(e) => {
                    collector.push(e);
                    assert(hosts_of(collector@) =~= hosts_of(before).push(e@));
                },
                None => {},
            }
            i += 1;
        }
        assert(line_views(lines@).take(i as int) =~= line_views(lines@));
    }
}

/// Cuts a text's lines into one chunk per worker and parses chunk after chunk.
pub struct Orchestrator {
    pub workers: usize,
}

impl Orchestrator {
    /// An orchestrator for `workers` workers; no workers count as one.
    pub fn new(workers: usize) -> (r: Self)
        ensures
            r.workers == if workers == 0 { 1 } else { workers },
    {
        Orchestrator { workers: if workers == 0 { 1 } else { workers } }
    }

    /// Lines per chunk: `line_count / workers`, rounded up.
    pub fn resolve_chunk_size(&self, line_count: usize) -> (r: usize)
        ensures
            r == chunk_len(line_count as nat, self.workers as nat),
            line_count > 0 ==> r >= 1,
    {
        chunk_size(line_count, self.workers)
    }

    /// Parses `contents` and appends its records to `collector`, in line order.
    pub fn orchestrate(&self, contents: &str, collector: &mut Vec<HostEntry>)
        ensures
            hosts_of(final(collector)@) == hosts_of(old(collector)@) + parse_text(contents@),
    {
        let chars = to_chars(contents);
        let lines = split_lines(chars.as_slice());
        let n = lines.len();
        let size = self.resolve_chunk_size(n);
        let ghost ls = line_views(lines@);
        let ghost start_hosts = hosts_of(collector@);
        let worker = Worker::new();
        let mut start: usize = 0;
        while start < n
            invariant
                n == lines@.len(),
                ls == line_views(lines@),
                n > 0 ==> size >= 1,
                start <= n,
                hosts_of(collector@) == start_hosts + entries_of_lines(ls.take(start as int)),
            decreases n - start,
        {
            let end: usize = if n - start <= size { n } else { start + size };
            let chunk = vstd::slice::slice_subrange(lines.as_slice(), start, end);
            worker.work(chunk, collector);
            proof {
                assert(line_views(chunk@) =~= ls.subrange(start as int, end as int));
                lemma_entries_concat(ls.take(start as int), ls.subrange(start as int, end as int));
                assert(ls.take(start as int) + ls.subrange(start as int, end as int) =~= ls.take(
                    end as int,
                ));
            }
            start = end;
        }
        assert(ls.take(n as int) =~= ls);
    }
}

/// Turns hosts-file text into host records.
pub struct Parser {}

impl Parser {
    /// Parses `input` with `workers` workers' worth of chunks and appends its
    /// records to `collector`. No input fails.
    pub fn parse(input: &str, workers: usize, collector: &mut Vec<HostEntry>) -> (r: Result<
        (),
        String,
    >)
        ensures
            r is Ok,
            hosts_of(final(collector)@) == hosts_of(old(collector)@) + parse_text(input@),
    {
        let orchestrator = Orchestrator::new(workers);
        orchestrator.orchestrate(input, collector);
        Ok(())
    }
}

} // verus!
