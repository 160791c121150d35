//! The request log behind the rate limit, and the decision that it backs.
use vstd::prelude::*;

verus! {

/// Nanoseconds in a second.
pub const NANOS_PER_SEC: i128 = 1_000_000_000;

/// The length of the window of the hourly quota, in seconds.
pub const HOUR_SECS: u64 = 3600;

/// No UTC timestamp lies further than this from the Unix epoch, in nanoseconds
/// (about 316 000 years; calendar dates end before that).
pub const MAX_TIME_NANOS: i128 = 10_000_000_000_000_000_000_000;

/// A timestamp, in nanoseconds from the Unix epoch, that a UTC date can have.
pub open spec fn is_valid_time(t: int) -> bool {
    -MAX_TIME_NANOS <= t <= MAX_TIME_NANOS
}

/// One job that was run for a requester.
pub struct LogEntry {
    /// When the job was done, in nanoseconds from the Unix epoch (UTC).
    pub time: i128,
    /// Who asked for it.
    pub user: String,
    /// Where its result was published.
    pub url: String,
}

/// An entry of `user` made after `since`.
pub open spec fn entry_matches(e: LogEntry, since: int, user: Seq<char>) -> bool {
    e.time > since && e.user@ == user
}

/// The test that picks the entries of `user` made after `since`.
pub open spec fn matcher(since: int, user: Seq<char>) -> spec_fn(LogEntry) -> bool {
    |e: LogEntry| entry_matches(e, since, user)
}

/// The entries of `user` made after `since`, in log order.
pub open spec fn query(entries: Seq<LogEntry>, since: int, user: Seq<char>) -> Seq<LogEntry> {
    entries.filter(matcher(since, user))
}

/// Whether `user` may submit a job at `now`: nothing of theirs in the last
/// `min_wait_interval` seconds, and fewer than `max_requests_hour` entries in the
/// last hour.
pub open spec fn rate_allows(
    entries: Seq<LogEntry>,
    user: Seq<char>,
    now: int,
    min_wait_interval: nat,
    max_requests_hour: nat,
) -> bool {
    &&& query(entries, now - min_wait_interval * NANOS_PER_SEC, user).len() == 0
    &&& query(entries, now - HOUR_SECS * NANOS_PER_SEC, user).len() < max_requests_hour
}

/// The log of the jobs done, oldest first.
pub struct Log {
    state: Vec<LogEntry>,
}

impl View for Log {
    type V = Seq<LogEntry>;

    closed spec fn view(&self) -> Seq<LogEntry> {
        self.state@
    }
}

/// The entries of one requester made after a given time, in log order.
pub struct LogIter<'t> {
    log: &'t Log,
    ptr: usize,
    since: i128,
    user: String,
}

impl<'t> View for LogIter<'t> {
    /// The entries still to come.
    type V = Seq<LogEntry>;

    closed spec fn view(&self) -> Seq<LogEntry> {
        query(self.log.state@.skip(self.ptr as int), self.since as int, self.user@)
    }
}

proof fn lemma_query_split(entries: Seq<LogEntry>, p: int, since: int, user: Seq<char>)
    requires
        0 <= p < entries.len(),
    ensures
        query(entries.skip(p), since, user) == (if entry_matches(entries[p], since, user) {
            seq![entries[p]]
        } else {
            Seq::empty()
        }) + query(entries.skip(p + 1), since, user),
{
    let pred = matcher(since, user);
    assert(entries.skip(p) =~= seq![entries[p]] + entries.skip(p + 1));
    Seq::filter_distributes_over_add(seq![entries[p]], entries.skip(p + 1), pred);
    reveal(Seq::filter);
    assert(seq![entries[p]].drop_last() =~= Seq::<LogEntry>::empty());
    assert(Seq::<LogEntry>::empty().filter(pred) =~= Seq::<LogEntry>::empty());
}

impl<'t> LogIter<'t> {
    #[verifier::type_invariant]
    spec fn inv(&self) -> bool {
        self.ptr <= self.log.state@.len()
    }

    /// The next entry of the requester, if any is left.
    pub fn next(&mut self) -> (r: Option<&'t LogEntry>)
        ensures
            old(self)@.len() == 0 ==> r is None && final(self)@ == old(self)@,
            old(self)@.len() > 0 ==> (r matches Some(e) && *e == old(self)@[0] && final(self)@
                == old(self)@.drop_first()),
    {
        proof {
            use_type_invariant(&*self);
        }
        let ghost start = self@;
        while self.ptr < self.log.state.len() && !(self.log.state[self.ptr].time > self.since
            && self.log.state[self.ptr].user == self.user)
            invariant
                self@ == start,
                self.ptr <= self.log.state@.len(),
            decreases self.log.state.len() - self.ptr,
        {
            proof {
                lemma_query_split(self.log.state@, self.ptr as int, self.since as int, self.user@);
            }
            self.ptr = self.ptr + 1;
        }
        if self.ptr < self.log.state.len() {
            let e = &self.log.state[self.ptr];
            proof {
                lemma_query_split(self.log.state@, self.ptr as int, self.since as int, self.user@);
            }
            self.ptr = self.ptr + 1;
            Some(e)
        } else {
            assert(self.log.state@.skip(self.ptr as int) =~= Seq::<LogEntry>::empty());
            proof {
                reveal(Seq::filter);
            }
            None
        }
    }
}

impl Log {
    /// A log that holds `entries`, as they were read back from storage.
    pub fn new(entries: Vec<LogEntry>) -> (r: Log)
        ensures
            r@ == entries@,
    {
        Log { state: entries }
    }

    /// Replaces what the log holds with `entries`, as they were read back from
    /// storage.
    pub fn reload(&mut self, entries: Vec<LogEntry>)
        ensures
            final(self)@ == entries@,
    {
        self.state = entries;
    }

    /// The entries of the log, oldest first.
    pub fn entries(&self) -> (r: &Vec<LogEntry>)
        ensures
            r@ == self@,
    {
        &self.state
    }

    /// The entries of `user` made after `start`, in log order.
    pub fn iter_from_user(&self, start: i128, user: &str) -> (r: LogIter<'_>)
        ensures
            r@ == query(self@, start as int, user@),
    {
        let it = LogIter { log: self, ptr: 0, since: start, user: user.to_string() };
        assert(self.state@.skip(0) =~= self.state@);
        it
    }

    /// Adds the entry of a job done at `time` for `user`, published at `url`,
    /// after those already held.
    pub fn log(&mut self, time: i128, user: &str, url: &str)
        ensures
            final(self)@ == old(self)@.push(final(self)@.last()),
            final(self)@.last().time == time,
            final(self)@.last().user@ == user@,
            final(self)@.last().url@ == url@,
    {
        let entry = LogEntry { time, user: user.to_string(), url: url.to_string() };
        self.state.push(entry);
    }
}

/// Whether `username` may submit a job at `now` (see `rate_allows`).
pub fn user_rate_is_ok(
    history: &Log,
    username: &str,
    now: i128,
    min_wait_interval: u64,
    max_requests_hour: usize,
) -> (r: bool)
    requires
        is_valid_time(now as int),
    ensures
        r == rate_allows(
            history@,
            username@,
            now as int,
            min_wait_interval as nat,
            max_requests_hour as nat,
        ),
{
    let recent = now - (min_wait_interval as i128) * NANOS_PER_SEC;
    let mut it = history.iter_from_user(recent, username);
    if it.next().is_some() {
        // an entry of this requester in the last `min_wait_interval` seconds
        return false;
    }
    let n = history.entries().len();
    let hour_ago = now - (HOUR_SECS as i128) * NANOS_PER_SEC;
    let mut it = history.iter_from_user(hour_ago, username);
    let ghost total = it@.len();
    proof {
        history@.lemma_filter_len(matcher(hour_ago as int, username@));
    }
    let mut count: usize = 0;
    loop
        invariant
            count + it@.len() == total,
            total == query(history@, hour_ago as int, username@).len(),
            total <= n,
            query(history@, recent as int, username@).len() == 0,
        ensures
            count == total,
        decreases it@.len(),
    {
        match it.next() {
            Some(_) => {
                count = count + 1;
            },
            None => {
                break ;
            },
        }
    }
    count < max_requests_hour
}


/// After an entry is added, a query of its requester sees it exactly when the
/// query starts before the entry's time; what the query saw before stays, in order.
pub proof fn lemma_logged_entry_visibility(entries: Seq<LogEntry>, e: LogEntry, since: int)
    ensures
        since < e.time ==> query(entries.push(e), since, e.user@) == query(
            entries,
            since,
            e.user@,
        ).push(e),
        since >= e.time ==> query(entries.push(e), since, e.user@) == query(entries, since, e.user@),
{
    reveal(Seq::filter);
    assert(entries.push(e).drop_last() =~= entries);
}

/// The hourly window leaves out an entry made 3601 seconds ago and counts one
/// made 10 seconds ago.
pub proof fn lemma_hour_window_bounds(older: LogEntry, recent: LogEntry, now: int)
    requires
        older.user@ == recent.user@,
        older.time == now - 3601 * NANOS_PER_SEC,
        recent.time == now - 10 * NANOS_PER_SEC,
    ensures
        query(seq![older, recent], now - HOUR_SECS * NANOS_PER_SEC, recent.user@).len() == 1,
{
    reveal(Seq::filter);
    let pred = matcher(now - HOUR_SECS * NANOS_PER_SEC, recent.user@);
    assert(seq![older, recent].drop_last() =~= seq![older]);
    assert(seq![older].drop_last() =~= Seq::<LogEntry>::empty());
    assert(Seq::<LogEntry>::empty().filter(pred) =~= Seq::<LogEntry>::empty());
    assert(seq![older].filter(pred) =~= Seq::<LogEntry>::empty());
}

} // verus!
