//! Whitelist filtering: records whose hostname a whitelist pattern matches are
//! dropped.

use vstd::prelude::*;

use crate::parser::{chunk_size, hosts_of, HostEntry};

verus! {

/// Whether the glob pattern `glob` matches `path`, as `glob_match` decides it.
pub uninterp spec fn glob_matches(glob: Seq<char>, path: Seq<char>) -> bool;

/// Relies on `glob_match::glob_match`: whether `path` matches the pattern `glob`
/// (`*`, `?`, `[...]`, `{a,b}`, `**`); the answer depends on the two strings
/// alone, and the function returns `false` on a malformed pattern rather than
/// panicking.
#[verifier::external_body]
fn glob_match_host(glob: &str, path: &str) -> (r: bool)
    ensures
        r == glob_matches(glob@, path@),
{
    glob_match::glob_match(glob, path)
}

/// The patterns of a whitelist.
pub open spec fn patterns_of(ps: Seq<String>) -> Seq<Seq<char>> {
    ps.map_values(|p: String| p@)
}

/// Whether some pattern of `patterns` matches `host`.
pub open spec fn is_whitelisted(patterns: Seq<Seq<char>>, host: Seq<char>) -> bool {
    exists|i: int| 0 <= i < patterns.len() && glob_matches(#[trigger] patterns[i], host)
}

/// The hosts of `hs` that no pattern matches, in order.
pub open spec fn kept(patterns: Seq<Seq<char>>, hs: Seq<Seq<char>>) -> Seq<Seq<char>>
    decreases hs.len(),
{
    if hs.len() == 0 {
        seq![]
    } else if is_whitelisted(patterns, hs.last()) {
        kept(patterns, hs.drop_last())
    } else {
        kept(patterns, hs.drop_last()).push(hs.last())
    }
}

/// The hosts of `hs` whose flag in `matched` is unset, in order.
pub open spec fn unmatched(hs: Seq<Seq<char>>, matched: Seq<bool>) -> Seq<Seq<char>>
    decreases hs.len(),
{
    if hs.len() == 0 {
        seq![]
    } else if matched[hs.len() - 1] {
        unmatched(hs.drop_last(), matched)
    } else {
        unmatched(hs.drop_last(), matched).push(hs.last())
    }
}

/// Filtering two runs of hosts one after the other gives what filtering them
/// together gives.
pub proof fn lemma_kept_concat(patterns: Seq<Seq<char>>, a: Seq<Seq<char>>, b: Seq<Seq<char>>)
    ensures
        kept(patterns, a + b) == kept(patterns, a) + kept(patterns, b),
    decreases b.len(),
{
    if b.len() == 0 {
        assert(a + b =~= a);
        assert(kept(patterns, a) + kept(patterns, b) =~= kept(patterns, a));
    } else {
        lemma_kept_concat(patterns, a, b.drop_last());
        assert((a + b).drop_last() =~= a + b.drop_last());
        assert((a + b).last() == b.last());
        assert(kept(patterns, a + b) =~= kept(patterns, a) + kept(patterns, b));
    }
}

/// Filter correctness: a host is in the output exactly when no pattern matches
/// it and it is in the input.
pub proof fn lemma_kept_membership(patterns: Seq<Seq<char>>, hs: Seq<Seq<char>>, h: Seq<char>)
    ensures
        kept(patterns, hs).contains(h) <==> (hs.contains(h) && !is_whitelisted(patterns, h)),
    decreases hs.len(),
{
    if hs.len() > 0 {
        let init = hs.drop_last();
        lemma_kept_membership(patterns, init, h);
        assert(hs =~= init.push(hs.last()));
        if hs.contains(h) && !init.contains(h) {
            let i = choose|i: int| 0 <= i < hs.len() && hs[i] == h;
            if i < hs.len() - 1 {
                assert(init[i] == h);
            }
            assert(hs.last() == h);
        }
        if init.contains(h) {
            let i = choose|i: int| 0 <= i < init.len() && init[i] == h;
            assert(hs[i] == h);
        }
        if !is_whitelisted(patterns, hs.last()) {
            let k = kept(patterns, init);
            assert(k.push(hs.last())[k.len() as int] == hs.last());
            if k.contains(h) {
                let i = choose|i: int| 0 <= i < k.len() && k[i] == h;
                assert(k.push(hs.last())[i] == h);
            }
            if k.push(hs.last()).contains(h) && h != hs.last() {
                let i = choose|i: int| 0 <= i < k.len() + 1 && k.push(hs.last())[i] == h;
                assert(k[i] == h);
            }
        }
    }
}

/// The records of `entries` whose flag in `matched` is unset, in order.
pub fn keep_unmatched(entries: &[HostEntry], matched: &[bool]) -> (r: Vec<HostEntry>)
    requires
        matched@.len() == entries@.len(),
    ensures
        hosts_of(r@) == unmatched(hosts_of(entries@), matched@),
{
    let ghost hs = hosts_of(entries@);
    let mut out: Vec<HostEntry> = Vec::with_capacity(entries.len());
    let mut i: usize = 0;
    while i < entries.len()
        invariant
            i <= entries@.len(),
            matched@.len() == entries@.len(),
            hs == hosts_of(entries@),
            hosts_of(out@) == unmatched(hs.take(i as int), matched@),
        decreases entries@.len() - i,
    {
        let ghost before = out@;
        proof {
            assert(hs.take(i + 1).drop_last() =~= hs.take(i as int));
            assert(hs.take(i + 1).last() == hs[i as int]);
        }
        if !matched[i] {
            out.push(HostEntry(entries[i].0.clone()));
            assert(hosts_of(out@) =~= hosts_of(before).push(hs[i as int]));
        }
        i += 1;
    }
    assert(hs.take(i as int) =~= hs);
    out
}

/// Whether a record stays in the output or leaves it.
#[derive(PartialEq, Eq, Structural)]
pub enum EvaluationResult {
    Remove,
    Keep,
}

/// Filters one chunk of records against the whitelist.
pub struct WhitelistingWorker<'a> {
    pub entries_to_check: &'a [HostEntry],
    pub whitelisted_hosts: &'a [String],
}

impl<'a> WhitelistingWorker<'a> {
    /// `Remove` when some pattern matches `host`, else `Keep`.
    pub fn evaluate(&self, host: &HostEntry) -> (r: EvaluationResult)
        ensures
            (r == EvaluationResult::Remove) == is_whitelisted(
                patterns_of(self.whitelisted_hosts@),
                host@,
            ),
    {
        let ghost ps = patterns_of(self.whitelisted_hosts@);
        let mut i: usize = 0;
        while i < self.whitelisted_hosts.len()
            invariant
                i <= self.whitelisted_hosts@.len(),
                ps == patterns_of(self.whitelisted_hosts@),
                forall|j: int| 0 <= j < i ==> !glob_matches(#[trigger] ps[j], host@),
            decreases self.whitelisted_hosts@.len() - i,
        {
            if glob_match_host(self.whitelisted_hosts[i].as_str(), host.0.as_str()) {
                assert(glob_matches(ps[i as int], host@));
                return EvaluationResult::Remove;
            }
            i += 1;
        }
        EvaluationResult::Keep
    }

    /// The records of this chunk that no pattern matches, in order.
    pub fn run(&self) -> (r: Vec<HostEntry>)
        ensures
            hosts_of(r@) == kept(
                patterns_of(self.whitelisted_hosts@),
                hosts_of(self.entries_to_check@),
            ),
    {
        let ghost ps = patterns_of(self.whitelisted_hosts@);
        let ghost hs = hosts_of(self.entries_to_check@);
        let mut matched: Vec<bool> = Vec::with_capacity(self.entries_to_check.len());
        let mut i: usize = 0;
        while i < self.entries_to_check.len()
            invariant
                i <= self.entries_to_check@.len(),
                ps == patterns_of(self.whitelisted_hosts@),
                hs == hosts_of(self.entries_to_check@),
                matched@.len() == i,
                forall|j: int| 0 <= j < i ==> #[trigger] matched@[j] == is_whitelisted(ps, hs[j]),
            decreases self.entries_to_check@.len() - i,
        {
            let verdict = self.evaluate(&self.entries_to_check[i]);
            matched.push(verdict == EvaluationResult::Remove);
            i += 1;
        }
        let r = keep_unmatched(self.entries_to_check, matched.as_slice());
        proof {
            lemma_unmatched_kept(ps, hs, matched@);
        }
        r
    }
}

proof fn lemma_unmatched_kept(ps: Seq<Seq<char>>, hs: Seq<Seq<char>>, matched: Seq<bool>)
    requires
        matched.len() >= hs.len(),
        forall|j: int| 0 <= j < hs.len() ==> #[trigger] matched[j] == is_whitelisted(ps, hs[j]),
    ensures
        unmatched(hs, matched) == kept(ps, hs),
    decreases hs.len(),
{
    if hs.len() > 0 {
        lemma_unmatched_kept(ps, hs.drop_last(), matched);
    }
}

/// Drops the records that a set of whitelist patterns matches.
pub struct Whitelister<'a> {
    pub whitelisted_hosts: &'a [String],
}

impl<'a> Whitelister<'a> {
    pub fn new(whitelisted_hosts: &'a [String]) -> (r: Self)
        ensures
            r.whitelisted_hosts@ == whitelisted_hosts@,
    {
        Whitelister { whitelisted_hosts }
    }

    /// The records of `hosts` that no pattern matches, in order; the records
    /// are cut into one chunk per worker and filtered chunk after chunk.
    pub fn evaluate(&self, hosts: &[HostEntry], workers: usize) -> (r: Vec<HostEntry>)
        ensures
            hosts_of(r@) == kept(patterns_of(self.whitelisted_hosts@), hosts_of(hosts@)),
    {
        let n = hosts.len();
        let size = chunk_size(n, workers);
        let ghost ps = patterns_of(self.whitelisted_hosts@);
        let ghost hs = hosts_of(hosts@);
        let mut entries: Vec<HostEntry> = Vec::with_capacity(n);
        let mut start: usize = 0;
        while start < n
            invariant
                n == hosts@.len(),
                n > 0 ==> size >= 1,
                start <= n,
                ps == patterns_of(self.whitelisted_hosts@),
                hs == hosts_of(hosts@),
                hosts_of(entries@) == kept(ps, hs.take(start as int)),
            decreases n - start,
        {
            let end: usize = if n - start <= size { n } else { start + size };
            let chunk = vstd::slice::slice_subrange(hosts, start, end);
            let worker = WhitelistingWorker {
                entries_to_check: chunk,
                whitelisted_hosts: self.whitelisted_hosts,
            };
            let mut subset = worker.run();
            let ghost before = entries@;
            entries.append(&mut subset);
            proof {
                assert(hosts_of(chunk@) =~= hs.subrange(start as int, end as int));
                assert(hosts_of(entries@) =~= hosts_of(before) + kept(
                    ps,
                    hs.subrange(start as int, end as int),
                ));
                lemma_kept_concat(ps, hs.take(start as int), hs.subrange(start as int, end as int));
                assert(hs.take(start as int) + hs.subrange(start as int, end as int) =~= hs.take(
                    end as int,
                ));
            }
            start = end;
        }
        assert(hs.take(n as int) =~= hs);
        entries
    }
}

} // verus!
