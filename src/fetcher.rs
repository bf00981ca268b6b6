//! Retrieval of block lists: each source's text, or nothing when it fails, all
//! concatenated into one text.

use vstd::prelude::*;

verus! {

/// Why a source could not be retrieved; each variant carries the source, or the
/// status for `Status`.
#[derive(Debug, Clone)]
pub enum HttpError {
    Timeout(String),
    Connection(String),
    Status(String),
    Unknown(String),
}

/// The diagnostic text of an error.
pub open spec fn error_message(e: HttpError) -> Seq<char> {
    match e {
        HttpError::Timeout(u) => "A timeout occurred when requesting "@ + u@,
        HttpError::Connection(u) => "Unable to connect to "@ + u@,
        HttpError::Status(c) => "Received http error with status code "@ + c@,
        HttpError::Unknown(u) => "Unknown error occurred while requesting "@ + u@,
    }
}

impl HttpError {
    /// The diagnostic text of this error.
    pub fn message(&self) -> (r: String)
        ensures
            r@ == error_message(*self),
    {
        let (prefix, detail) = match self {
            HttpError::Timeout(u) => ("A timeout occurred when requesting ", u),
            HttpError::Connection(u) => ("Unable to connect to ", u),
            HttpError::Status(c) => ("Received http error with status code ", c),
            HttpError::Unknown(u) => ("Unknown error occurred while requesting ", u),
        };
        let mut out = prefix.to_owned();
        out.append(detail.as_str());
        out
    }
}

/// The error for a failed retrieval of `url`: a timeout first, then a failed
/// connection, then a status (given as its text), else an unknown failure.
pub fn classify_failure(url: &str, timeout: bool, connect: bool, status: Option<String>) -> (r:
    HttpError)
    ensures
        match r {
            HttpError::Timeout(u) => timeout && u@ == url@,
            HttpError::Connection(u) => !timeout && connect && u@ == url@,
            HttpError::Status(c) => !timeout && !connect && status == Some(c),
            HttpError::Unknown(u) => !timeout && !connect && status is None && u@ == url@,
        },
{
    if timeout {
        HttpError::Timeout(url.to_owned())
    } else if connect {
        HttpError::Connection(url.to_owned())
    } else {
        match status {
            Some(code) => HttpError::Status(code),
            None => HttpError::Unknown(url.to_owned()),
        }
    }
}

/// A way to retrieve the text at a source.
pub trait HttpClient: Sync + Send {
    fn get_text(&self, url: &str) -> Result<String, HttpError>;
}

/// What one retrieval adds to the combined text: its text, or nothing.
pub open spec fn contribution(r: Result<String, HttpError>) -> Seq<char> {
    match r {
        Ok(t) => t@,
        Err(_) => seq![],
    }
}

/// The combined text of a sequence of retrievals, in that order.
pub open spec fn fetched_text(rs: Seq<Result<String, HttpError>>) -> Seq<char>
    decreases rs.len(),
{
    if rs.len() == 0 {
        seq![]
    } else {
        fetched_text(rs.drop_last()) + contribution(rs.last())
    }
}

pub proof fn lemma_fetched_concat(a: Seq<Result<String, HttpError>>, b: Seq<Result<String, HttpError>>)
    ensures
        fetched_text(a + b) == fetched_text(a) + fetched_text(b),
    decreases b.len(),
{
    if b.len() == 0 {
        assert(a + b =~= a);
        assert(fetched_text(a) + fetched_text(b) =~= fetched_text(a));
    } else {
        lemma_fetched_concat(a, b.drop_last());
        assert((a + b).drop_last() =~= a + b.drop_last());
        assert((a + b).last() == b.last());
        assert(fetched_text(a + b) =~= fetched_text(a) + fetched_text(b));
    }
}

/// Failure isolation: whatever the other sources did, the combined text is what
/// came before source `i`, then source `i`'s own text in one piece (nothing if it
/// failed), then what came after it.
pub proof fn lemma_failure_isolation(rs: Seq<Result<String, HttpError>>, i: int)
    requires
        0 <= i < rs.len(),
    ensures
        fetched_text(rs) == fetched_text(rs.take(i)) + contribution(rs[i]) + fetched_text(
            rs.skip(i + 1),
        ),
        rs[i] is Ok ==> fetched_text(rs) == fetched_text(rs.take(i)) + rs[i]->Ok_0@
            + fetched_text(rs.skip(i + 1)),
{
    let one = seq![rs[i]];
    assert(one.drop_last() =~= seq![]);
    assert(one.last() == rs[i]);
    assert(fetched_text(one.drop_last()) =~= seq![]);
    assert(fetched_text(one) =~= contribution(rs[i]));
    lemma_fetched_concat(rs.take(i), one);
    lemma_fetched_concat(rs.take(i) + one, rs.skip(i + 1));
    assert(rs.take(i) + one + rs.skip(i + 1) =~= rs);
}

/// Appends to `contents` the text of each successful retrieval in `results`, in
/// order; a failed one adds nothing.
pub fn combine(results: &[Result<String, HttpError>], contents: &mut String)
    ensures
        final(contents)@ == old(contents)@ + fetched_text(results@),
{
    let ghost start = contents@;
    let mut i: usize = 0;
    assert(results@.take(0) =~= seq![]);
    while i < results.len()
        invariant
            i <= results@.len(),
            contents@ == start + fetched_text(results@.take(i as int)),
        decreases results@.len() - i,
    {
        proof {
            assert(results@.take(i + 1).drop_last() =~= results@.take(i as int));
            assert(results@.take(i + 1).last() == results@[i as int]);
        }
        match &results[i] {
            Ok(text) => {
                contents.append(text.as_str());
            },
            Err(_) => {},
        }
        assert(contents@ =~= start + fetched_text(results@.take(i + 1)));
        i += 1;
    }
    assert(results@.take(i as int) =~= results@);
}

/// Retrieves block lists through a client.
pub struct Fetcher<Client: HttpClient> {
    pub client: Client,
}

impl<Client: HttpClient> Fetcher<Client> {
    /// Retrieves each of `urls` in turn and appends the texts of those that
    /// succeed to `contents`; a failed source adds nothing and stops nothing.
    pub fn fetch(&self, urls: &[String], contents: &mut String)
        ensures
            exists|rs: Seq<Result<String, HttpError>>|
                rs.len() == urls@.len() && final(contents)@ == old(contents)@ + fetched_text(rs),
    {
        let mut results: Vec<Result<String, HttpError>> = Vec::with_capacity(urls.len());
        let mut i: usize = 0;
        while i < urls.len()
            invariant
                i <= urls@.len(),
                results@.len() == i,
            decreases urls@.len() - i,
        {
            results.push(self.client.get_text(urls[i].as_str()));
            i += 1;
        }
        combine(results.as_slice(), contents);
        assert(results@.len() == urls@.len() && final(contents)@ == old(contents)@ + fetched_text(results@));
    }
}

} // verus!
