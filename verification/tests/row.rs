use crossync::atomic::array::claim_slot;
use crossync::atomic::row::{ArrayOp, ArrayPush, ArrayReply};
use crossync::base::backoff::Backoff;

/// The parts of an array that pushes reach, and the pushes under way.
struct Scene {
    tail: usize,
    len: usize,
    slots: Vec<Option<usize>>,
    pushes: Vec<(ArrayPush, ArrayOp)>,
    results: Vec<Option<Result<usize, usize>>>,
}

impl Scene {
    fn new(capacity: usize, taken: usize, threads: usize) -> Self {
        let mut pushes = Vec::new();
        for _ in 0..threads {
            let mut push = ArrayPush::new(capacity, Backoff::new(1));
            let op = push.step(ArrayReply::Nothing);
            pushes.push((push, op));
        }
        let mut slots: Vec<Option<usize>> = vec![None; capacity];
        for slot in slots.iter_mut().take(taken) {
            *slot = Some(1000);
        }
        Scene { tail: taken, len: taken, slots, pushes, results: vec![None; threads] }
    }

    /// Makes the next access of a thread's push.
    fn turn(&mut self, thread: usize) {
        if self.results[thread].is_some() {
            return;
        }
        let reply = match self.pushes[thread].1 {
            ArrayOp::Load => ArrayReply::Tail { value: self.tail },
            ArrayOp::Claim { current, new } => {
                if self.tail == current {
                    self.tail = new;
                    ArrayReply::Took
                } else {
                    ArrayReply::Lost { value: self.tail }
                }
            }
            ArrayOp::Rest { .. } => ArrayReply::Nothing,
            ArrayOp::Fill { index } => {
                assert!(self.slots[index].is_none());
                self.slots[index] = Some(thread);
                self.len += 1;
                self.results[thread] = Some(Ok(index));
                return;
            }
            ArrayOp::Refused => {
                self.results[thread] = Some(Err(thread));
                return;
            }
        };
        self.pushes[thread].1 = self.pushes[thread].0.step(reply);
    }

    fn finish(&mut self) {
        for _ in 0..40 {
            for thread in 0..self.pushes.len() {
                self.turn(thread);
            }
        }
    }
}

#[test]
fn the_slot_at_the_tail_is_claimed_until_none_is_left() {
    assert_eq!(claim_slot(0, 2), Some(1));
    assert_eq!(claim_slot(1, 2), Some(2));
    assert_eq!(claim_slot(2, 2), None);
    assert_eq!(claim_slot(usize::MAX, usize::MAX), None);
}

#[test]
fn pushes_that_lose_a_slot_get_another() {
    // Every order in which three pushes make their first six accesses.
    for order in 0..729usize {
        let mut scene = Scene::new(5, 2, 3);
        let mut rest = order;
        for _ in 0..6 {
            scene.turn(rest % 3);
            rest /= 3;
        }
        scene.finish();
        let mut indices: Vec<usize> = Vec::new();
        for thread in 0..3 {
            let index = scene.results[thread].unwrap().unwrap();
            assert_eq!(scene.slots[index], Some(thread));
            indices.push(index);
        }
        indices.sort();
        assert_eq!(indices, vec![2, 3, 4]);
        assert_eq!((scene.tail, scene.len), (5, 5));
        assert_eq!(scene.slots[..2], [Some(1000), Some(1000)]);
    }
}

#[test]
fn a_push_is_refused_only_where_every_slot_is_taken() {
    for order in 0..729usize {
        let mut scene = Scene::new(4, 2, 3);
        let mut rest = order;
        for _ in 0..6 {
            scene.turn(rest % 3);
            rest /= 3;
        }
        scene.finish();
        let refused = scene.results.iter().filter(|r| matches!(r, Some(Err(_)))).count();
        assert_eq!(refused, 1);
        assert_eq!((scene.tail, scene.len), (4, 4));
        assert!(scene.slots.iter().all(|slot| slot.is_some()));
    }
}

#[test]
fn a_lost_slot_is_followed_by_another_look_and_then_by_a_rest() {
    let mut push = ArrayPush::new(9, Backoff::new(1));
    assert_eq!(push.step(ArrayReply::Nothing), ArrayOp::Load);
    assert_eq!(
        push.step(ArrayReply::Tail { value: 3 }),
        ArrayOp::Claim { current: 3, new: 4 }
    );
    assert_eq!(push.step(ArrayReply::Lost { value: 4 }), ArrayOp::Load);
    assert_eq!(
        push.step(ArrayReply::Tail { value: 5 }),
        ArrayOp::Claim { current: 5, new: 6 }
    );
    assert!(matches!(push.step(ArrayReply::Lost { value: 7 }), ArrayOp::Rest { .. }));
    assert_eq!(push.step(ArrayReply::Nothing), ArrayOp::Claim { current: 7, new: 8 });
    assert_eq!(push.step(ArrayReply::Took), ArrayOp::Fill { index: 7 });
}
