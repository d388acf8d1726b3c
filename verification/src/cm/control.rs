//! Watching and stopping a running job from another thread.
use std::sync::atomic::{AtomicBool, AtomicU64, Ordering};
use vstd::prelude::*;

verus! {

/// Shared handle to a running job: a cancel switch and a live byte counter.
///
/// Both can change at any moment, so a read returns whatever was found at that moment.
pub struct Control {
    cancelled: AtomicBool,
    done: AtomicU64,
    budget: Option<u64>,
}

impl Control {
    /// Bytes of model memory the job may use at a time, if limited.
    pub closed spec fn limit(self) -> Option<u64> {
        self.budget
    }

    /// The switch was made off and the counter at 0.
    pub closed spec fn fresh(self) -> bool {
        &&& call_ensures(AtomicBool::new, (false,), self.cancelled)
        &&& call_ensures(AtomicU64::new, (0u64,), self.done)
    }

    /// A load of the cancel switch returned `on`.
    pub closed spec fn found(self, on: bool) -> bool {
        call_ensures(AtomicBool::load, (&self.cancelled, Ordering::Relaxed), on)
    }

    /// A load of the byte counter returned `n`.
    pub closed spec fn counted(self, n: u64) -> bool {
        call_ensures(AtomicU64::load, (&self.done, Ordering::Relaxed), n)
    }

    /// The cancel switch was set.
    pub closed spec fn switched_on(self) -> bool {
        call_ensures(AtomicBool::store, (&self.cancelled, true, Ordering::Relaxed), ())
    }

    /// `n` was added to the byte counter.
    pub closed spec fn advanced(self, n: u64) -> bool {
        exists|before: u64| #[trigger]
            call_ensures(AtomicU64::fetch_add, (&self.done, n, Ordering::Relaxed), before)
    }

    /// A handle to a job that has not started and may use all the memory it likes.
    pub fn new() -> (r: Control)
        ensures
            r.limit() is None,
            r.fresh(),
    {
        Control { cancelled: AtomicBool::new(false), done: AtomicU64::new(0), budget: None }
    }

    /// A handle to a job on a machine with `free` bytes of memory to spare: its models
    /// may take two thirds of them.
    pub fn with_free_memory(free: u64) -> (r: Control)
        ensures
            r.limit() == Some((free * 2 / 3) as u64),
            r.fresh(),
    {
        Control::with_budget((free as u128 * 2 / 3) as u64)
    }

    /// A handle to a job that should keep its models within `bytes` of memory. This
    /// only limits how many segments are in flight, never what they are coded to.
    pub fn with_budget(bytes: u64) -> (r: Control)
        ensures
            r.limit() == Some(bytes),
            r.fresh(),
    {
        Control { cancelled: AtomicBool::new(false), done: AtomicU64::new(0), budget: Some(bytes) }
    }

    /// Bytes of model memory the job may use at a time, if limited.
    pub fn budget(&self) -> (r: Option<u64>)
        ensures
            r == self.limit(),
    {
        self.budget
    }

    /// Ask the job to stop.
    pub fn cancel(&self)
        ensures
            self.switched_on(),
    {
        self.cancelled.store(true, Ordering::Relaxed);
    }

    /// Whether the job was asked to stop.
    pub fn is_cancelled(&self) -> (r: bool)
        ensures
            self.found(r),
    {
        self.cancelled.load(Ordering::Relaxed)
    }

    /// Bytes processed so far, over all segments.
    pub fn bytes_done(&self) -> (r: u64)
        ensures
            self.counted(r),
    {
        self.done.load(Ordering::Relaxed)
    }

    /// Count `n` more processed bytes.
    pub fn advance(&self, n: u64)
        ensures
            self.advanced(n),
    {
        let _before: u64 = self.done.fetch_add(n, Ordering::Relaxed);
    }
}

/// If the job has a handle, its switch was found off.
pub open spec fn went_on(ctrl: Option<&Control>) -> bool {
    ctrl matches Some(c) ==> c.found(false)
}

/// If the job has a handle, `n` was added to its byte counter.
pub open spec fn reported(ctrl: Option<&Control>, n: u64) -> bool {
    ctrl matches Some(c) ==> c.advanced(n)
}

/// The job was asked to stop: it has a handle, whose switch was found on.
pub open spec fn stopped(ctrl: Option<&Control>) -> bool {
    ctrl matches Some(c) && c.found(true)
}

} // verus!
