use crossync::atomic::ring::{PopAttempt, PushAttempt, RingOp, RingReply};
use crossync::atomic::AtomicBuffer;

/// One producer or consumer that is under way.
enum Side {
    Push(PushAttempt),
    Pop(PopAttempt),
}

struct Thread {
    side: Side,
    hand: Option<u32>,
    op: RingOp,
}

impl Thread {
    fn push(cap: usize, item: u32) -> Self {
        let mut attempt = PushAttempt::new(cap);
        let op = attempt.step(RingReply::Nothing);
        Thread { side: Side::Push(attempt), hand: Some(item), op }
    }

    fn pop(cap: usize) -> Self {
        let mut attempt = PopAttempt::new(cap);
        let op = attempt.step(RingReply::Nothing);
        Thread { side: Side::Pop(attempt), hand: None, op }
    }

    fn over(&self) -> bool {
        matches!(self.op, RingOp::Done | RingOp::Refused)
    }

    /// Makes one access.
    fn advance(&mut self, buffer: &mut AtomicBuffer<u32>) {
        if self.over() {
            return;
        }
        let reply = buffer.perform(self.op, &mut self.hand);
        self.op = match &mut self.side {
            Side::Push(attempt) => attempt.step(reply),
            Side::Pop(attempt) => attempt.step(reply),
        };
    }

    fn finish(mut self, buffer: &mut AtomicBuffer<u32>) -> (RingOp, Option<u32>) {
        while !self.over() {
            self.advance(buffer);
        }
        (self.op, self.hand)
    }
}

#[test]
fn an_attempt_puts_and_another_takes() {
    let mut buffer = AtomicBuffer::with_capacity(2);
    assert_eq!(Thread::push(2, 7).finish(&mut buffer), (RingOp::Done, None));
    assert_eq!(Thread::push(2, 8).finish(&mut buffer), (RingOp::Done, None));
    assert_eq!(Thread::push(2, 9).finish(&mut buffer), (RingOp::Refused, Some(9)));
    assert_eq!(Thread::pop(2).finish(&mut buffer), (RingOp::Done, Some(7)));
    assert_eq!(Thread::pop(2).finish(&mut buffer), (RingOp::Done, Some(8)));
    assert_eq!(Thread::pop(2).finish(&mut buffer), (RingOp::Refused, None));
}

#[test]
fn the_accesses_come_in_their_order() {
    let mut attempt = PushAttempt::new(4);
    assert_eq!(attempt.step(RingReply::Nothing), RingOp::LoadTail);
    assert_eq!(attempt.step(RingReply::Word { value: 6 }), RingOp::LoadHead);
    assert_eq!(
        attempt.step(RingReply::Word { value: 5 }),
        RingOp::ClaimTail { current: 6, new: 7 }
    );
    assert_eq!(attempt.step(RingReply::Lost), RingOp::LoadTail);
    assert_eq!(attempt.step(RingReply::Word { value: 7 }), RingOp::LoadHead);
    assert_eq!(
        attempt.step(RingReply::Word { value: 5 }),
        RingOp::ClaimTail { current: 7, new: 8 }
    );
    assert_eq!(attempt.step(RingReply::Took), RingOp::Store { slot: 3 });
    assert_eq!(attempt.step(RingReply::Lost), RingOp::Hint);
    assert_eq!(attempt.step(RingReply::Nothing), RingOp::Store { slot: 3 });
    assert_eq!(attempt.step(RingReply::Took), RingOp::Done);
}

#[test]
fn a_late_consumer_holds_the_next_producer_up() {
    let mut buffer = AtomicBuffer::with_capacity(1);
    Thread::push(1, 1).finish(&mut buffer);
    let mut late = Thread::pop(1);
    for _ in 0..3 {
        late.advance(&mut buffer);
    }
    assert_eq!(late.op, RingOp::Take { slot: 0 });
    let mut producer = Thread::push(1, 2);
    for _ in 0..20 {
        producer.advance(&mut buffer);
    }
    assert!(!producer.over());
    assert_eq!(late.finish(&mut buffer), (RingOp::Done, Some(1)));
    assert_eq!(producer.finish(&mut buffer), (RingOp::Done, None));
    assert_eq!(buffer.pop(), Some(2));
}

#[test]
fn a_late_producer_is_overtaken_but_loses_nothing() {
    let mut buffer = AtomicBuffer::with_capacity(1);
    let mut late = Thread::push(1, 1);
    for _ in 0..3 {
        late.advance(&mut buffer);
    }
    assert_eq!(late.op, RingOp::Store { slot: 0 });
    let mut first = Thread::pop(1);
    for _ in 0..3 {
        first.advance(&mut buffer);
    }
    assert_eq!(first.op, RingOp::Take { slot: 0 });
    assert_eq!(Thread::push(1, 2).finish(&mut buffer), (RingOp::Done, None));
    assert_eq!(first.finish(&mut buffer), (RingOp::Done, Some(2)));
    assert_eq!(late.finish(&mut buffer), (RingOp::Done, None));
    assert_eq!(Thread::pop(1).finish(&mut buffer), (RingOp::Done, Some(1)));
}

#[test]
fn no_order_of_accesses_loses_an_item_or_brings_one_twice() {
    // Two producers and two consumers; every order of turns of three accesses each.
    for order in 0..4096usize {
        let mut buffer = AtomicBuffer::with_capacity(1);
        let mut threads =
            [Thread::push(1, 1), Thread::push(1, 2), Thread::pop(1), Thread::pop(1)];
        let mut rest = order;
        for _ in 0..6 {
            for _ in 0..3 {
                threads[rest % 4].advance(&mut buffer);
            }
            rest /= 4;
        }
        for _ in 0..100 {
            for thread in threads.iter_mut() {
                thread.advance(&mut buffer);
            }
        }
        assert!(threads.iter().all(|thread| thread.over()));
        let mut items: Vec<u32> = threads.iter().filter_map(|thread| thread.hand).collect();
        items.extend(buffer.drain_all());
        items.sort();
        assert_eq!(items, vec![1, 2]);
    }
}
