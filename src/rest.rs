use vstd::prelude::*;

verus! {

/// How many times a transaction is asked for before the fetch gives up.
pub const RETRY_COUNT: usize = 3;

/// The wait before the second attempt, in seconds; each later wait doubles it.
pub const RETRY_BASE_SECS: u64 = 1;

pub open spec fn pow2(n: nat) -> nat
    decreases n,
{
    if n == 0 {
        1
    } else {
        2 * pow2((n - 1) as nat)
    }
}

/// What the fetcher does after an attempt.
#[derive(Debug, Clone, Copy, PartialEq, Eq, Structural)]
pub enum FetchStep {
    /// The attempt succeeded: hand its result back.
    Done,
    /// The attempt failed: wait this long, then try again.
    RetryAfter { secs: u64 },
    /// The last attempt failed: report the resource as not fetched.
    GiveUp,
}

/// The step after attempt `attempt` (counted from 0): a failed attempt is retried after
/// `RETRY_BASE_SECS * 2^attempt` seconds until `RETRY_COUNT` attempts have been made.
pub fn next_fetch_step(attempt: usize, succeeded: bool) -> (r: FetchStep)
    requires
        attempt < RETRY_COUNT,
    ensures
        succeeded ==> r == FetchStep::Done,
        !succeeded && attempt + 1 < RETRY_COUNT ==> r == (FetchStep::RetryAfter {
            secs: (RETRY_BASE_SECS * pow2(attempt as nat)) as u64,
        }),
        !succeeded && attempt + 1 >= RETRY_COUNT ==> r == FetchStep::GiveUp,
{
    if succeeded {
        return FetchStep::Done;
    }
    if attempt + 1 >= RETRY_COUNT {
        return FetchStep::GiveUp;
    }
    let mut secs: u64 = RETRY_BASE_SECS;
    let mut i: usize = 0;
    while i < attempt
        invariant
            i <= attempt < RETRY_COUNT,
            secs == RETRY_BASE_SECS * pow2(i as nat),
            secs <= 2 * i + 1,
        decreases attempt - i,
    {
        proof {
            reveal_with_fuel(pow2, 3);
        }
        secs = secs * 2;
        i = i + 1;
    }
    FetchStep::RetryAfter { secs }
}

pub open spec fn http_scheme() -> Seq<char> {
    seq!['h', 't', 't', 'p', ':', '/', '/']
}

/// The base url of the REST interface: as given when it starts with `http://`, else with
/// `http://` put in front.
pub fn rest_url(url: &str) -> (r: String)
    ensures
        http_scheme().len() <= url@.len() && url@.take(http_scheme().len() as int) == http_scheme() ==> r@ == url@,
        !(http_scheme().len() <= url@.len() && url@.take(http_scheme().len() as int) == http_scheme())
            ==> r@ == http_scheme() + url@,
{
    let scheme = vec!['h', 't', 't', 'p', ':', '/', '/'];
    let n = url.unicode_len();
    let mut has_scheme = n >= scheme.len();
    let mut i: usize = 0;
    while has_scheme && i < scheme.len()
        invariant
            scheme@ == http_scheme(),
            n == url@.len(),
            i <= scheme@.len(),
            has_scheme ==> n >= scheme@.len() && forall|j: int| 0 <= j < i ==> url@[j] == scheme@[j],
            !has_scheme ==> !(http_scheme().len() <= url@.len() && url@.take(http_scheme().len() as int) == http_scheme()),
        decreases scheme@.len() - i + if has_scheme { 1int } else { 0 },
    {
        if url.get_char(i) != scheme[i] {
            assert(url@.take(7)[i as int] != http_scheme()[i as int]);
            has_scheme = false;
        } else {
            i = i + 1;
        }
    }
    if has_scheme {
        assert(url@.take(7) =~= http_scheme());
        url.to_string()
    } else {
        proof {
            reveal_strlit("http://");
        }
        let prefix = String::from_str("http://");
        assert(prefix@ =~= http_scheme());
        prefix.concat(url)
    }
}

} // verus!
