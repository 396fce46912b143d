use crossync::atomic::block::{pack_counters, unpack_pending, unpack_read, Block, BlockArray};
use crossync::atomic::index::{head_past_gap, pop_plan, push_plan, NextBlock, PopPlan, PushPlan};

#[test]
fn a_push_asks_for_a_block_with_its_last_slot() {
    assert_eq!(push_plan(0), PushPlan::Claim { new_tail: 2, offset: 0, opens: None });
    assert_eq!(push_plan(58), PushPlan::Claim { new_tail: 60, offset: 29, opens: None });
    let opens = Some(NextBlock { next_index: 64, block_idx: 1 });
    assert_eq!(push_plan(60), PushPlan::Claim { new_tail: 62, offset: 30, opens });
    assert_eq!(push_plan(62), PushPlan::Wait);
    assert_eq!(push_plan(64), PushPlan::Claim { new_tail: 66, offset: 0, opens: None });
}

#[test]
fn a_pop_flags_a_tail_in_a_later_block() {
    assert_eq!(pop_plan(4, 4), PopPlan::Empty);
    assert_eq!(pop_plan(4, 6), PopPlan::Claim { new_head: 6, offset: 2, last: false });
    assert_eq!(pop_plan(4, 66), PopPlan::Claim { new_head: 7, offset: 2, last: false });
    assert_eq!(pop_plan(5, 4), PopPlan::Claim { new_head: 7, offset: 2, last: false });
    assert_eq!(pop_plan(61, 66), PopPlan::Claim { new_head: 63, offset: 30, last: true });
    assert_eq!(pop_plan(63, 66), PopPlan::Wait);
    assert_eq!(head_past_gap(63, false), 64);
    assert_eq!(head_past_gap(63, true), 65);
}

#[test]
fn the_counters_share_a_word() {
    let counters = pack_counters(3, 7);
    assert_eq!(counters, 3 << 32 | 7);
    assert_eq!(unpack_pending(counters), 3);
    assert_eq!(unpack_read(counters), 7);
}

#[test]
fn a_reader_is_pending_until_it_has_read() {
    let mut block: Block<u8> = Block::new();
    assert_eq!(block.inc_pending(), 0);
    assert_eq!(block.inc_pending(), 1 << 32);
    assert_eq!(block.dec_pending_inc_read(), (1, 1));
    block.dec_pending();
    assert_eq!(block.inc_pending(), 1);
}

#[test]
fn the_cache_remembers_one_block_per_entry() {
    let mut cache = BlockArray::new();
    assert!(!cache.get(5));
    cache.set(5, true);
    assert!(cache.get(5));
    cache.set(37, true);
    assert!(!cache.get(5));
    assert!(cache.get(37));
    cache.clear(37);
    assert!(!cache.get(37));
}
