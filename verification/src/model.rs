//! Core data types: one monitor-contention observation and the query that selects
//! a batch of them.

use crate::values::Dup;
use vstd::prelude::*;

verus! {

/// One monitor-contention observation. `blocked_src` / `blocking_src` are the two
/// source sites (the thread that was waiting and the thread that held the lock);
/// resolution turns each into the canonical lock taken there. `raw` preserves the
/// full input record so output can round-trip every original column.
#[derive(Clone, Debug)]
pub struct Contention {
    pub build_id: String,
    pub device: String,
    pub blocked_src: String,
    pub blocking_src: String,
    pub short_blocked_method: String,
    pub short_blocking_method: String,
    /// Every field of the source record, in header order.
    pub raw: Vec<String>,
    /// Resolved lock for `blocked_src` (`"N/A"` until resolved).
    pub resolved_blocked_lock: String,
    /// Resolved lock for `blocking_src` (`"N/A"` until resolved).
    pub resolved_blocking_lock: String,
}

/// What an observation holds.
#[verifier::ext_equal]
pub struct ContentionV {
    pub build_id: Seq<char>,
    pub device: Seq<char>,
    pub blocked_src: Seq<char>,
    pub blocking_src: Seq<char>,
    pub short_blocked_method: Seq<char>,
    pub short_blocking_method: Seq<char>,
    pub raw: Seq<Seq<char>>,
    pub resolved_blocked_lock: Seq<char>,
    pub resolved_blocking_lock: Seq<char>,
}

impl DeepView for Contention {
    type V = ContentionV;

    open spec fn deep_view(&self) -> ContentionV {
        ContentionV {
            build_id: self.build_id@,
            device: self.device@,
            blocked_src: self.blocked_src@,
            blocking_src: self.blocking_src@,
            short_blocked_method: self.short_blocked_method@,
            short_blocking_method: self.short_blocking_method@,
            raw: self.raw.deep_view(),
            resolved_blocked_lock: self.resolved_blocked_lock@,
            resolved_blocking_lock: self.resolved_blocking_lock@,
        }
    }
}

impl Dup for Contention {
    fn dup(&self) -> (r: Self) {
        Contention {
            build_id: self.build_id.dup(),
            device: self.device.dup(),
            blocked_src: self.blocked_src.dup(),
            blocking_src: self.blocking_src.dup(),
            short_blocked_method: self.short_blocked_method.dup(),
            short_blocking_method: self.short_blocking_method.dup(),
            raw: self.raw.dup(),
            resolved_blocked_lock: self.resolved_blocked_lock.dup(),
            resolved_blocking_lock: self.resolved_blocking_lock.dup(),
        }
    }
}

impl Contention {
    /// The `(build_id, device)` this observation belongs to — the grouping key,
    /// since all sites for one build resolve against the same artifacts.
    pub fn group_key(&self) -> (r: (String, String))
        ensures
            r.0@ == self.build_id@,
            r.1@ == self.device@,
    {
        (self.build_id.dup(), self.device.dup())
    }
}

/// Parameters selecting a batch of contention observations from a trace source.
#[derive(Clone, Debug)]
pub struct Query {
    /// Maximum number of observations to return; 0 for all of them.
    pub limit: usize,
    /// Look back this many days.
    pub last_days: u32,
    /// Restrict to one build, if set.
    pub build_id: Option<String>,
    /// Restrict to one device, if set.
    pub device: Option<String>,
}

impl Default for Query {
    fn default() -> (r: Self)
        ensures
            r.limit == 0,
            r.last_days == 0,
            r.build_id is None,
            r.device is None,
    {
        Query { limit: 0, last_days: 0, build_id: None, device: None }
    }
}

} // verus!
