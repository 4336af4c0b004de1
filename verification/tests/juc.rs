//! `java.util.concurrent.locks` calls.

use dexlock::dex::juc::{classify, is_lock_type, LockCall};

#[test]
fn classifies_lock_operations() {
    let rl = "java.util.concurrent.locks.ReentrantLock";
    assert_eq!(classify(rl, "lock"), Some(LockCall::Acquire));
    assert_eq!(classify(rl, "lockInterruptibly"), Some(LockCall::Acquire));
    assert_eq!(classify(rl, "tryLock"), Some(LockCall::TryAcquire));
    assert_eq!(classify(rl, "unlock"), Some(LockCall::Release));
    let rw = "java.util.concurrent.locks.ReentrantReadWriteLock";
    assert_eq!(classify(rw, "readLock"), Some(LockCall::ReadView));
    assert_eq!(classify(rw, "writeLock"), Some(LockCall::WriteView));
}

#[test]
fn ignores_non_lock_calls() {
    assert_eq!(classify("com.example.Widget", "lock"), None);
    assert_eq!(classify("com.example.Widget", "doWork"), None);
}

#[test]
fn lock_types_are_known_by_their_simple_name() {
    assert!(is_lock_type("java.util.concurrent.locks.Lock"));
    assert!(!is_lock_type("com.example.Widget"));
}
