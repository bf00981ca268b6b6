//! The whole pass from fetched text to the served list.

use vstd::prelude::*;

use crate::parser::{hosts_of, parse_text, HostEntry, Parser};
use crate::render::{render, render_text};
use crate::whitelisting::{kept, patterns_of, Whitelister};

verus! {

/// Parses `contents`, drops the records that a pattern of `whitelisted_hosts`
/// matches and renders the rest, in line order.
pub fn compose_adlist(contents: &str, whitelisted_hosts: &[String], workers: usize) -> (r: String)
    ensures
        r@ == render_text(kept(patterns_of(whitelisted_hosts@), parse_text(contents@))),
{
    let mut collector: Vec<HostEntry> = Vec::new();
    let _ = Parser::parse(contents, workers, &mut collector);
    assert(hosts_of(collector@) =~= parse_text(contents@));
    let whitelister = Whitelister::new(whitelisted_hosts);
    let result = whitelister.evaluate(collector.as_slice(), workers);
    render(result.as_slice())
}

} // verus!
