//! The debounce rule of the filesystem change monitor: per watched path,
//! at most one event may pass per window; an event for a path is dropped
//! while the last emitted event for that same path is closer than the
//! window. The host loop feeds observed events in; this type decides.
use vstd::prelude::*;
use crate::text::str_eq;

verus! {

/// Per-path debouncing state: the last emission time of each path, and the
/// fixed window.
pub struct Debouncer {
    pub entries: Vec<(String, u64)>,
    pub window_millis: u64,
}

/// The first recorded time for `path`, scanning from the front.
pub open spec fn last_seen_in(s: Seq<(String, u64)>, path: Seq<char>) -> Option<u64>
    decreases s.len(),
{
    if s.len() == 0 {
        None
    } else if s[0].0@ == path {
        Some(s[0].1)
    } else {
        last_seen_in(s.drop_first(), path)
    }
}

/// An event passes when its path was never emitted, or the last emission
/// lies further back than the window.
pub open spec fn should_emit(prev: Option<u64>, now: u64, window: u64) -> bool {
    match prev {
        None => true,
        Some(t) => now > t && now - t > window,
    }
}

proof fn lemma_last_seen_push(s: Seq<(String, u64)>, e: (String, u64), q: Seq<char>)
    ensures
        last_seen_in(s, q) is Some ==> last_seen_in(s.push(e), q) == last_seen_in(s, q),
        last_seen_in(s, q) is None ==> last_seen_in(s.push(e), q) == (if e.0@ == q {
            Some(e.1)
        } else {
            None::<u64>
        }),
    decreases s.len(),
{
    if s.len() == 0 {
        assert(s.push(e)[0] == e);
        assert(s.push(e).drop_first() =~= Seq::<(String, u64)>::empty());
        assert(last_seen_in(s.push(e).drop_first(), q) is None);
    } else {
        assert(s.push(e)[0] == s[0]);
        assert(s.push(e).drop_first() =~= s.drop_first().push(e));
        lemma_last_seen_push(s.drop_first(), e, q);
    }
}

proof fn lemma_last_seen_update(s: Seq<(String, u64)>, j: int, e: (String, u64), q: Seq<char>)
    requires
        0 <= j < s.len(),
        e.0@ == s[j].0@,
        forall|k: int| 0 <= k < j ==> (#[trigger] s[k]).0@ != s[j].0@,
    ensures
        last_seen_in(s.update(j, e), q) == if q == s[j].0@ {
            Some(e.1)
        } else {
            last_seen_in(s, q)
        },
    decreases j,
{
    let u = s.update(j, e);
    if j == 0 {
        assert(u[0] == e);
        assert(u.drop_first() =~= s.drop_first());
        if q != s[0].0@ {
            assert(last_seen_in(u, q) == last_seen_in(u.drop_first(), q));
        }
    } else {
        assert(u[0] == s[0]);
        assert(s[0].0@ != s[j].0@);
        assert(u.drop_first() =~= s.drop_first().update(j - 1, e));
        assert(s.drop_first()[j - 1] == s[j]);
        assert(forall|k: int|
            0 <= k < j - 1 ==> (#[trigger] s.drop_first()[k]).0@ != s.drop_first()[j - 1].0@);
        lemma_last_seen_update(s.drop_first(), j - 1, e, q);
    }
}

impl Debouncer {
    /// The last emission time recorded for `path`.
    pub open spec fn last_seen(self, path: Seq<char>) -> Option<u64> {
        last_seen_in(self.entries@, path)
    }

    /// The fixed debounce window.
    pub open spec fn window(self) -> u64 {
        self.window_millis
    }

    /// A fresh debouncer: no path has been emitted yet.
    pub fn new(window_millis: u64) -> (r: Debouncer)
        ensures
            r.window() == window_millis,
            forall|q: Seq<char>| r.last_seen(q) is None,
    {
        Debouncer { entries: Vec::new(), window_millis }
    }

    /// Decide one observed event: emit it if no event for this path passed
    /// within the window, and record the emission time; drop it otherwise,
    /// leaving the state unchanged.
    pub fn observe(&mut self, path: &str, now_millis: u64) -> (emit: bool)
        ensures
            final(self).window() == old(self).window(),
            emit == should_emit(old(self).last_seen(path@), now_millis, old(self).window()),
            emit ==> final(self).last_seen(path@) == Some(now_millis),
            emit ==> forall|q: Seq<char>|
                q != path@ ==> final(self).last_seen(q) == old(self).last_seen(q),
            !emit ==> *final(self) == *old(self),
    {
        let mut j: usize = 0;
        while j < self.entries.len()
            invariant
                j <= self.entries.len(),
                *self == *old(self),
                forall|k: int| 0 <= k < j ==> (#[trigger] self.entries@[k]).0@ != path@,
        decreases self.entries.len() - j,
        {
            if str_eq(self.entries[j].0.as_str(), path) {
                proof {
                    lemma_last_seen_first_match(self.entries@, j as int, path@);
                }
                let t = self.entries[j].1;
                let emit = now_millis > t && now_millis - t > self.window_millis;
                if emit {
                    let ghost before = self.entries@;
                    let entry = (path.to_owned(), now_millis);
                    let ghost ev = (entry.0, entry.1);
                    self.entries[j] = entry;
                    proof {
                        assert(self.entries@ =~= before.update(j as int, ev));
                        lemma_last_seen_update(before, j as int, ev, path@);
                        assert forall|q: Seq<char>| q != path@ implies last_seen_in(
                            self.entries@,
                            q,
                        ) == last_seen_in(before, q) by {
                            lemma_last_seen_update(before, j as int, ev, q);
                        }
                    }
                }
                return emit;
            }
            j += 1;
        }
        proof {
            lemma_last_seen_none(self.entries@, path@, self.entries@.len() as int);
        }
        let ghost before = self.entries@;
        let entry = (path.to_owned(), now_millis);
        let ghost ev = (entry.0, entry.1);
        self.entries.push(entry);
        proof {
            assert(self.entries@ =~= before.push(ev));
            lemma_last_seen_push(before, ev, path@);
            assert forall|q: Seq<char>| q != path@ implies last_seen_in(self.entries@, q)
                == last_seen_in(before, q) by {
                lemma_last_seen_push(before, ev, q);
            }
        }
        true
    }
}

proof fn lemma_last_seen_first_match(s: Seq<(String, u64)>, j: int, path: Seq<char>)
    requires
        0 <= j < s.len(),
        s[j].0@ == path,
        forall|k: int| 0 <= k < j ==> (#[trigger] s[k]).0@ != path,
    ensures
        last_seen_in(s, path) == Some(s[j].1),
    decreases j,
{
    if j == 0 {
    } else {
        assert(s.drop_first()[j - 1] == s[j]);
        assert(forall|k: int| 0 <= k < j - 1 ==> (#[trigger] s.drop_first()[k]).0@ != path);
        lemma_last_seen_first_match(s.drop_first(), j - 1, path);
    }
}

proof fn lemma_last_seen_none(s: Seq<(String, u64)>, path: Seq<char>, n: int)
    requires
        n == s.len(),
        forall|k: int| 0 <= k < n ==> (#[trigger] s[k]).0@ != path,
    ensures
        last_seen_in(s, path) is None,
    decreases s.len(),
{
    if s.len() > 0 {
        assert(forall|k: int|
            0 <= k < s.drop_first().len() ==> (#[trigger] s.drop_first()[k]).0@ != path);
        lemma_last_seen_none(s.drop_first(), path, s.drop_first().len() as int);
    }
}

} // verus!
