//! Recognition of `java.util.concurrent.locks` operations by (class, method).
//! Monitor enter/exit come from dex `monitor-*` instructions; these are ordinary
//! method calls the extractor translates into the same lock effects.

use crate::text;
use vstd::prelude::*;

verus! {

/// What an invoke means for lock resolution, if anything.
#[derive(Debug, Clone, Copy, PartialEq, Eq, Structural)]
pub enum LockCall {
    /// `Lock.lock()` / `lockInterruptibly()` — acquire of the receiver.
    Acquire,
    /// `Lock.tryLock()` — non-blocking acquire.
    TryAcquire,
    /// `Lock.unlock()` — release of the receiver.
    Release,
    /// `ReadWriteLock.readLock()` — returns the receiver tagged read-mode.
    ReadView,
    /// `ReadWriteLock.writeLock()` — returns the receiver tagged write-mode.
    WriteView,
}

/// A lock type, by its simple name or a `locks.` package.
pub open spec fn lock_type(class: Seq<char>) -> bool {
    let c = text::tail_of(class, '.');
    c == "Lock"@ || c == "ReentrantLock"@ || c == "ReentrantReadWriteLock"@ || c == "ReadLock"@ || c
        == "WriteLock"@ || text::occurs(class, "locks."@)
}

/// What a call of `name` on `class` means for locks.
pub open spec fn meaning(class: Seq<char>, name: Seq<char>) -> Option<LockCall> {
    if name == "readLock"@ {
        Some(LockCall::ReadView)
    } else if name == "writeLock"@ {
        Some(LockCall::WriteView)
    } else if !lock_type(class) {
        None
    } else if name == "lock"@ || name == "lockInterruptibly"@ || name == "acquire"@ || name
        == "acquireUninterruptibly"@ {
        Some(LockCall::Acquire)
    } else if name == "tryLock"@ || name == "tryAcquire"@ {
        Some(LockCall::TryAcquire)
    } else if name == "unlock"@ || name == "release"@ {
        Some(LockCall::Release)
    } else {
        None
    }
}

/// A lock type, matched by simple-name suffix so the exact package is irrelevant.
pub fn is_lock_type(class: &str) -> (r: bool)
    ensures
        r == lock_type(class@),
{
    let c = text::after_last(class, '.');
    let c = c.as_str();
    text::str_eq(c, "Lock") || text::str_eq(c, "ReentrantLock") || text::str_eq(
        c,
        "ReentrantReadWriteLock",
    ) || text::str_eq(c, "ReadLock") || text::str_eq(c, "WriteLock") || text::contains(
        class,
        "locks.",
    )
}

/// What a call of `name` on `class` means for locks, if anything.
pub fn classify(class: &str, name: &str) -> (r: Option<LockCall>)
    ensures
        r == meaning(class@, name@),
{
    if text::str_eq(name, "readLock") {
        return Some(LockCall::ReadView);
    }
    if text::str_eq(name, "writeLock") {
        return Some(LockCall::WriteView);
    }
    if !is_lock_type(class) {
        return None;
    }
    if text::str_eq(name, "lock") || text::str_eq(name, "lockInterruptibly") || text::str_eq(
        name,
        "acquire",
    ) || text::str_eq(name, "acquireUninterruptibly") {
        Some(LockCall::Acquire)
    } else if text::str_eq(name, "tryLock") || text::str_eq(name, "tryAcquire") {
        Some(LockCall::TryAcquire)
    } else if text::str_eq(name, "unlock") || text::str_eq(name, "release") {
        Some(LockCall::Release)
    } else {
        None
    }
}

} // verus!
