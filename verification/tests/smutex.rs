use crossync::base::backoff::Backoff;
use crossync::base::smutex::{SLock, SLockGroup, SLockOp, SMutex, SReply};

const ME: usize = 1;

#[test]
fn test_lock_unlock_basic() {
    let mut mutex = SMutex::new();
    assert!(!mutex.is_locked());
    let guard = mutex.lock(ME);
    assert!(mutex.is_locked());
    guard.unlock(&mut mutex, ME);
    assert!(!mutex.is_locked());
}

#[test]
fn test_recursive_lock_same_thread() {
    let mut mutex = SMutex::new();
    let guard1 = mutex.lock(ME);
    assert!(mutex.is_locked());
    let guard2 = mutex.lock(ME);
    assert!(mutex.is_locked());
    let guard3 = mutex.lock(ME);
    assert!(mutex.is_locked());
    guard3.unlock(&mut mutex, ME);
    assert!(mutex.is_locked());
    guard2.unlock(&mut mutex, ME);
    assert!(mutex.is_locked());
    guard1.unlock(&mut mutex, ME);
    assert!(!mutex.is_locked());
}

#[test]
fn test_recursive_lock_count() {
    let mut mutex = SMutex::new();
    let g1 = mutex.lock(ME);
    assert_eq!(mutex.recursion(), 1);
    let g2 = mutex.lock(ME);
    assert_eq!(mutex.recursion(), 2);
    let g3 = mutex.lock(ME);
    assert_eq!(mutex.recursion(), 3);
    g3.unlock(&mut mutex, ME);
    assert_eq!(mutex.recursion(), 2);
    g2.unlock(&mut mutex, ME);
    assert_eq!(mutex.recursion(), 1);
    g1.unlock(&mut mutex, ME);
    assert_eq!(mutex.recursion(), 0);
}

fn recurse(m: &mut SMutex, depth: usize) {
    if depth == 0 {
        return;
    }
    let guard = m.lock(ME);
    assert!(m.is_locked());
    recurse(m, depth - 1);
    guard.unlock(m, ME);
}

#[test]
fn test_deep_recursion() {
    let mut mutex = SMutex::new();
    const DEPTH: usize = 100;
    recurse(&mut mutex, DEPTH);
    assert!(!mutex.is_locked());
}

#[test]
fn test_group_lock_basic() {
    let mut mutex = SMutex::new();
    let guard = mutex.lock_group(ME);
    assert!(!mutex.is_locked());
    guard.unlock(&mut mutex, ME);
}

#[test]
fn test_exclusive_owner_can_take_group() {
    let mut mutex = SMutex::new();
    let guard1 = mutex.lock(ME);
    assert!(mutex.is_locked());
    let guard2 = mutex.lock_group(ME);
    assert!(mutex.is_locked());
    guard2.unlock(&mut mutex, ME);
    assert!(mutex.is_locked());
    guard1.unlock(&mut mutex, ME);
    assert!(!mutex.is_locked());
}

#[test]
fn test_guard_is_group_flag() {
    let mut mutex = SMutex::new();
    let exclusive = mutex.lock(ME);
    assert!(!exclusive.is_group);
    exclusive.unlock(&mut mutex, ME);
    let group = mutex.lock_group(ME);
    assert!(group.is_group);
    group.unlock(&mut mutex, ME);
}

#[test]
fn test_lock_after_drop() {
    let mut mutex = SMutex::new();
    {
        let guard = mutex.lock(ME);
        guard.unlock(&mut mutex, ME);
    }
    let guard = mutex.lock(ME);
    assert!(mutex.is_locked());
    guard.unlock(&mut mutex, ME);
}

#[test]
fn smutex_test_new_mutex_state() {
    let mutex = SMutex::new();
    assert!(!mutex.is_locked());
    assert_eq!(mutex.owner(), 0);
    assert_eq!(mutex.recursion(), 0);
}

#[test]
fn the_owner_is_noted_and_forgotten() {
    let mut mutex = SMutex::new();
    mutex.lock(7);
    assert_eq!(mutex.owner(), 7);
    assert!(mutex.raw_unlock(7));
    assert_eq!(mutex.owner(), 0);
}

#[test]
fn only_the_last_unlock_wakes() {
    let mut mutex = SMutex::new();
    mutex.lock(3);
    mutex.lock(3);
    assert!(!mutex.raw_unlock(3));
    assert!(mutex.is_locked());
    assert!(mutex.raw_unlock(3));
    assert!(!mutex.is_locked());
}

#[test]
fn a_group_member_wakes_when_it_leaves() {
    let mut mutex = SMutex::new();
    mutex.lock_group(3);
    assert!(mutex.raw_unlock_group(3));
    mutex.lock(4);
    assert!(mutex.is_locked());
}

fn run(m: &mut SMutex, attempt: &mut SLock) -> SLockOp {
    let mut op = attempt.step(SReply::Nothing);
    loop {
        match op {
            SLockOp::Acquired | SLockOp::Wait { .. } => return op,
            _ => {
                let reply = m.perform(op);
                op = attempt.step(reply);
            }
        }
    }
}

fn run_group(m: &mut SMutex, attempt: &mut SLockGroup) -> SLockOp {
    let mut op = attempt.step(SReply::Nothing);
    loop {
        match op {
            SLockOp::Acquired | SLockOp::Wait { .. } => return op,
            _ => {
                let reply = m.perform(op);
                op = attempt.step(reply);
            }
        }
    }
}

#[test]
fn an_attempt_sleeps_while_another_thread_is_the_owner() {
    let mut m = SMutex::new();
    let mut first = SLock::new(1, Backoff::new(1));
    assert_eq!(run(&mut m, &mut first), SLockOp::Acquired);
    assert_eq!((m.owner(), m.recursion()), (1, 1));
    let mut again = SLock::new(1, Backoff::new(1));
    assert_eq!(run(&mut m, &mut again), SLockOp::Acquired);
    assert_eq!((m.owner(), m.recursion()), (1, 2));
    let mut second = SLock::new(2, Backoff::new(1));
    assert!(matches!(run(&mut m, &mut second), SLockOp::Wait { .. }));
    let mut member = SLockGroup::new(3, Backoff::new(1));
    assert!(matches!(run_group(&mut m, &mut member), SLockOp::Wait { .. }));
    assert!(!m.raw_unlock(1));
    assert!(matches!(run(&mut m, &mut second), SLockOp::Wait { .. }));
    assert!(m.raw_unlock(1));
    assert_eq!(run(&mut m, &mut second), SLockOp::Acquired);
    assert_eq!((m.owner(), m.recursion()), (2, 1));
    assert!(matches!(run_group(&mut m, &mut member), SLockOp::Wait { .. }));
}

#[test]
fn group_members_stand_beside_each_other() {
    let mut m = SMutex::new();
    let mut first = SLockGroup::new(1, Backoff::new(1));
    let mut second = SLockGroup::new(2, Backoff::new(1));
    assert_eq!(run_group(&mut m, &mut first), SLockOp::Acquired);
    assert_eq!(run_group(&mut m, &mut second), SLockOp::Acquired);
    assert_eq!(m.owner(), 0);
    assert!(!m.is_locked());
}

fn tries(m: &mut SMutex, attempt: &mut SLock, accesses: usize) -> bool {
    let mut op = attempt.step(SReply::Nothing);
    for _ in 0..accesses {
        if op == SLockOp::Acquired {
            return true;
        }
        let reply = m.perform(op);
        op = attempt.step(reply);
    }
    false
}

#[test]
fn the_exclusive_mode_waits_for_the_last_member() {
    let mut m = SMutex::new();
    let first = m.lock_group(1);
    let second = m.lock_group(2);
    assert_eq!(m.members(), 2);
    first.unlock(&mut m, 1);
    assert_eq!(m.members(), 1);
    let mut third = SLock::new(3, Backoff::new(1));
    assert!(!tries(&mut m, &mut third, 200));
    assert_eq!((m.owner(), m.is_locked()), (0, false));
    second.unlock(&mut m, 2);
    assert_eq!(m.members(), 0);
    let mut third = SLock::new(3, Backoff::new(1));
    assert!(tries(&mut m, &mut third, 200));
    assert_eq!((m.owner(), m.recursion(), m.members()), (3, 1, 0));
}

#[test]
fn leaving_an_empty_group_changes_nothing() {
    let mut m = SMutex::new();
    assert!(m.raw_unlock_group(5));
    assert_eq!((m.members(), m.is_locked(), m.owner()), (0, false, 0));
}

#[test]
fn the_owner_is_free_after_as_many_unlocks_in_either_mode() {
    let mut m = SMutex::new();
    let exclusive = m.lock(4);
    let group = m.lock_group(4);
    assert_eq!((m.recursion(), m.members()), (2, 0));
    assert!(!exclusive.unlock(&mut m, 4));
    assert!(m.is_locked());
    assert!(group.unlock(&mut m, 4));
    assert_eq!((m.is_locked(), m.owner(), m.recursion()), (false, 0, 0));
    m.lock(5);
    assert_eq!(m.owner(), 5);
}

#[test]
fn a_claimed_mutex_admits_nobody_before_its_owner_is_noted() {
    let mut m = SMutex::new();
    let mut first = SLock::new(1, Backoff::new(1));
    let op = first.step(SReply::Nothing);
    let reply = m.perform(op);
    let claim = first.step(reply);
    assert_eq!(claim, SLockOp::Claim { current: 0, new: 1 });
    let reply = m.perform(claim);
    assert_eq!(reply, SReply::Took);
    let own = first.step(reply);
    assert_eq!(own, SLockOp::Own { owner: 1 });
    assert_eq!((m.is_locked(), m.owner(), m.recursion()), (true, 0, 0));

    let mut second = SLock::new(2, Backoff::new(1));
    assert!(matches!(run(&mut m, &mut second), SLockOp::Wait { .. }));
    let mut member = SLockGroup::new(3, Backoff::new(1));
    assert!(matches!(run_group(&mut m, &mut member), SLockOp::Wait { .. }));

    let reply = m.perform(own);
    assert_eq!(first.step(reply), SLockOp::Acquired);
    assert_eq!((m.is_locked(), m.owner(), m.recursion()), (true, 1, 1));
}

#[test]
fn no_order_of_accesses_has_an_owner_beside_another_holder() {
    // Every order in which three attempts make their first eight accesses.
    for order in 0..6561usize {
        let mut m = SMutex::new();
        let mut locks = [SLock::new(1, Backoff::new(1)), SLock::new(2, Backoff::new(1))];
        let mut group = SLockGroup::new(3, Backoff::new(1));
        let mut ops = [
            locks[0].step(SReply::Nothing),
            locks[1].step(SReply::Nothing),
            group.step(SReply::Nothing),
        ];
        let mut rest = order;
        for _ in 0..8 {
            let thread = rest % 3;
            rest /= 3;
            if ops[thread] == SLockOp::Acquired {
                continue;
            }
            let reply = m.perform(ops[thread]);
            ops[thread] = if thread < 2 {
                locks[thread].step(reply)
            } else {
                group.step(reply)
            };
            let inside = ops
                .iter()
                .take(2)
                .filter(|op| matches!(op, SLockOp::Own { .. } | SLockOp::Acquired))
                .count();
            let joined = usize::from(ops[2] == SLockOp::Acquired);
            assert!(inside <= 1);
            assert!(inside == 0 || joined == 0);
            assert_eq!(m.is_locked(), inside == 1);
            assert_eq!(m.members(), joined);
        }
    }
}
