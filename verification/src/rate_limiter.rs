//! Per-key fixed-window rate limiting: each key gets a 60-second window
//! and a counter; a call is allowed while the counter is under the limit,
//! and the window restarts once 60 seconds have passed.
use vstd::prelude::*;
use crate::strutil::str_eq;

verus! {

/// Width of one rate window, in milliseconds.
pub const WINDOW_MS: i64 = 60000;

/// One key's window: when it started and how many calls it has admitted.
type Entry = (String, i64, u32);

/// What one `allow` call does to a key's window state (`None` when the
/// key has no state yet): a lapsed window restarts at the current
/// instant, then the counter admits the call iff it is under the limit.
/// An instant before the window start (a clock stepped backwards) counts
/// as within the window.
pub open spec fn allow_step(limit: u32, e: Option<(i64, u32)>, now_ms: i64) -> ((i64, u32), bool)
    recommends
        limit > 0,
{
    let fresh = match e {
        Some(p) => p,
        None => (now_ms, 0u32),
    };
    let cur = if now_ms - fresh.0 >= WINDOW_MS {
        (now_ms, 0u32)
    } else {
        fresh
    };
    if cur.1 >= limit {
        (cur, false)
    } else {
        ((cur.0, (cur.1 + 1) as u32), true)
    }
}

/// The window state a sequence of calls leaves behind, and how many of
/// them were admitted.
pub open spec fn run_allow(limit: u32, e: (i64, u32), times: Seq<i64>) -> ((i64, u32), nat)
    decreases times.len(),
{
    if times.len() == 0 {
        (e, 0)
    } else {
        let first = allow_step(limit, Some(e), times[0]);
        let rest = run_allow(limit, first.0, times.skip(1));
        (rest.0, rest.1 + if first.1 {
            1nat
        } else {
            0nat
        })
    }
}

/// However calls fall inside one window — all within 60 seconds of its
/// start — the number admitted never exceeds what the limit leaves.
pub proof fn lemma_window_bound(limit: u32, e: (i64, u32), times: Seq<i64>)
    requires
        limit > 0,
        e.1 <= limit,
        forall|i: int| 0 <= i < times.len() ==> e.0 <= #[trigger] times[i] < e.0 + WINDOW_MS,
    ensures
        run_allow(limit, e, times).0.0 == e.0,
        run_allow(limit, e, times).0.1 <= limit,
        run_allow(limit, e, times).1 + e.1 == run_allow(limit, e, times).0.1,
        run_allow(limit, e, times).1 <= limit - e.1,
    decreases times.len(),
{
    if times.len() > 0 {
        let first = allow_step(limit, Some(e), times[0]);
        assert(times[0] - e.0 < WINDOW_MS);
        assert(first.0.0 == e.0);
        assert(forall|i: int|
            0 <= i < times.skip(1).len() ==> e.0 <= #[trigger] times.skip(1)[i] < e.0 + WINDOW_MS);
        lemma_window_bound(limit, first.0, times.skip(1));
    }
}

/// First-match lookup in the entry list.
pub open spec fn find_entry(s: Seq<Entry>, key: Seq<char>) -> Option<(i64, u32)>
    decreases s.len(),
{
    if s.len() == 0 {
        None
    } else if s[0].0@ == key {
        Some((s[0].1, s[0].2))
    } else {
        find_entry(s.skip(1), key)
    }
}

proof fn lemma_find_at(s: Seq<Entry>, key: Seq<char>, i: int)
    requires
        0 <= i < s.len(),
        s[i].0@ == key,
        forall|j: int| 0 <= j < i ==> (#[trigger] s[j]).0@ != key,
    ensures
        find_entry(s, key) == Some((s[i].1, s[i].2)),
    decreases i,
{
    if i > 0 {
        assert(s[0].0@ != key);
        lemma_find_at(s.skip(1), key, i - 1);
    }
}

proof fn lemma_find_none(s: Seq<Entry>, key: Seq<char>)
    requires
        forall|j: int| 0 <= j < s.len() ==> (#[trigger] s[j]).0@ != key,
    ensures
        find_entry(s, key) is None,
    decreases s.len(),
{
    if s.len() > 0 {
        lemma_find_none(s.skip(1), key);
    }
}

proof fn lemma_find_update(s: Seq<Entry>, i: int, x: Entry, key: Seq<char>)
    requires
        0 <= i < s.len(),
        x.0@ == s[i].0@,
        key != s[i].0@,
    ensures
        find_entry(s.update(i, x), key) == find_entry(s, key),
    decreases s.len(),
{
    if s.len() > 0 {
        if i == 0 {
            assert(s.update(i, x).skip(1) =~= s.skip(1));
        } else {
            assert(s.update(i, x)[0] == s[0]);
            assert(s.update(i, x).skip(1) =~= s.skip(1).update(i - 1, x));
            lemma_find_update(s.skip(1), i - 1, x, key);
        }
    }
}

proof fn lemma_find_push(s: Seq<Entry>, x: Entry, key: Seq<char>)
    ensures
        find_entry(s.push(x), key) == if find_entry(s, key) is Some {
            find_entry(s, key)
        } else if x.0@ == key {
            Some((x.1, x.2))
        } else {
            None
        },
    decreases s.len(),
{
    if s.len() == 0 {
        assert(s.push(x)[0] == x);
        assert(s.push(x).skip(1) =~= Seq::<Entry>::empty());
        assert(find_entry(Seq::<Entry>::empty(), key) is None);
        assert(find_entry(s, key) is None);
    } else {
        assert(s.push(x)[0] == s[0]);
        assert(s.push(x).skip(1) =~= s.skip(1).push(x));
        lemma_find_push(s.skip(1), x, key);
    }
}

/// The fixed-window rate limiter: a limit per minute (zero disables it)
/// and one window per key.
pub struct RateLimiter {
    limit_per_minute: u32,
    entries: Vec<Entry>,
}

impl RateLimiter {
    pub closed spec fn limit_v(self) -> u32 {
        self.limit_per_minute
    }

    /// A key's window state.
    pub closed spec fn entry_of(self, key: Seq<char>) -> Option<(i64, u32)> {
        find_entry(self.entries@, key)
    }

    pub fn new(limit_per_minute: u32) -> (r: RateLimiter)
        ensures
            r.limit_v() == limit_per_minute,
            forall|k: Seq<char>| r.entry_of(k) is None,
    {
        let r = RateLimiter { limit_per_minute, entries: Vec::new() };
        proof {
            assert forall|k: Seq<char>| r.entry_of(k) is None by {
                lemma_find_none(r.entries@, k);
            }
        }
        r
    }

    /// Admit or reject one call for `key` at `now_ms`. A zero limit
    /// admits everything and keeps no state.
    pub fn allow(&mut self, key: &str, now_ms: i64) -> (r: bool)
        ensures
            final(self).limit_v() == old(self).limit_v(),
            old(self).limit_v() == 0 ==> r && *final(self) == *old(self),
            old(self).limit_v() > 0 ==> {
                let step = allow_step(old(self).limit_v(), old(self).entry_of(key@), now_ms);
                &&& r == step.1
                &&& final(self).entry_of(key@) == Some(step.0)
                &&& forall|k: Seq<char>|
                    k != key@ ==> #[trigger] final(self).entry_of(k) == old(self).entry_of(k)
            },
    {
        if self.limit_per_minute == 0 {
            return true;
        }
        let limit = self.limit_per_minute;
        let n = self.entries.len();
        let mut i: usize = 0;
        while i < n
            invariant
                *self == *old(self),
                limit == self.limit_per_minute,
                limit > 0,
                n == self.entries@.len(),
                i <= n,
                forall|j: int| 0 <= j < i ==> (#[trigger] self.entries@[j]).0@ != key@,
            decreases n - i,
        {
            if str_eq(self.entries[i].0.as_str(), key) {
                let ghost prev = *self;
                let (k, start0, count0) = self.entries.remove(i);
                let lapsed = now_ms >= i64::MIN + WINDOW_MS && start0 <= now_ms - WINDOW_MS;
                let start1 = if lapsed {
                    now_ms
                } else {
                    start0
                };
                let count1 = if lapsed {
                    0u32
                } else {
                    count0
                };
                let admitted = count1 < limit;
                let count2 = if admitted {
                    count1 + 1
                } else {
                    count1
                };
                self.entries.insert(i, (k, start1, count2));
                proof {
                    assert(self.entries@ =~= prev.entries@.update(
                        i as int,
                        (prev.entries@[i as int].0, start1, count2),
                    ));
                    lemma_find_at(prev.entries@, key@, i as int);
                    lemma_find_at(self.entries@, key@, i as int);
                    assert forall|k2: Seq<char>| k2 != key@ implies #[trigger] find_entry(
                        self.entries@,
                        k2,
                    ) == find_entry(prev.entries@, k2) by {
                        lemma_find_update(
                            prev.entries@,
                            i as int,
                            (prev.entries@[i as int].0, start1, count2),
                            k2,
                        );
                    }
                }
                return admitted;
            }
            i = i + 1;
        }
        let ghost prev = *self;
        let owned = key.to_owned();
        self.entries.push((owned, now_ms, 1u32));
        proof {
            lemma_find_none(prev.entries@, key@);
            assert forall|k2: Seq<char>| true implies #[trigger] find_entry(self.entries@, k2)
                == if k2 == key@ {
                Some((now_ms, 1u32))
            } else {
                find_entry(prev.entries@, k2)
            } by {
                lemma_find_push(prev.entries@, (owned, now_ms, 1u32), k2);
                if k2 != key@ {
                } else {
                    lemma_find_none(prev.entries@, k2);
                }
            }
        }
        true
    }
}

} // verus!
