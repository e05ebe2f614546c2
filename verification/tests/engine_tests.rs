use gol::engine::input::{process_keyboard_message, process_xinput_digital_button, GameButtonState};
use gol::engine::memory::{
    align_up, block_size, page_block_index, safe_truncate_u64, BumpAllocatorStrategy,
};

#[test]
fn addresses_are_aligned_upwards() {
    assert_eq!(align_up(0, 8), 0);
    assert_eq!(align_up(1, 8), 8);
    assert_eq!(align_up(8, 8), 8);
    assert_eq!(align_up(9, 8), 16);
    assert_eq!(align_up(4097, 4096), 8192);
    assert_eq!(align_up(13, 1), 13);
    assert_eq!(align_up(usize::MAX - 7, 8), usize::MAX - 7);
}

#[test]
fn small_values_are_truncated_without_loss() {
    assert_eq!(safe_truncate_u64(0), 0);
    assert_eq!(safe_truncate_u64(0xFFFF_FFFF), u32::MAX);
    assert_eq!(safe_truncate_u64(123_456), 123_456);
}

#[test]
fn the_bump_allocator_hands_out_aligned_addresses_in_order() {
    let mut allocator = BumpAllocatorStrategy::new();
    assert!(!allocator.initialised());
    allocator.init(1000, 100);
    assert!(allocator.initialised());
    assert_eq!(allocator.heap_start(), 1000);
    assert_eq!(allocator.heap_size(), 100);
    assert_eq!(allocator.allocate(10, 8), Some(1000));
    assert_eq!(allocator.allocated(), 10);
    assert_eq!(allocator.allocate(4, 16), Some(1024));
    assert_eq!(allocator.allocated(), 4);
    // 1028 is aligned to 4; 72 bytes are left
    assert_eq!(allocator.allocate(73, 4), None);
    assert_eq!(allocator.allocated(), 4);
    assert_eq!(allocator.allocate(72, 4), Some(1028));
    assert_eq!(allocator.allocate(1, 1), None);
    assert_eq!(allocator.allocate(usize::MAX, 1), None);
    assert_eq!(allocator.allocate(0, 1), Some(1100));
}

#[test]
fn the_bump_allocator_starts_over_when_everything_is_freed() {
    let mut allocator = BumpAllocatorStrategy::new();
    allocator.init(64, 64);
    assert_eq!(allocator.allocate(32, 1), Some(64));
    assert_eq!(allocator.allocate(32, 1), Some(96));
    assert_eq!(allocator.allocate(32, 1), None);
    allocator.dealloc();
    // one allocation is still there: nothing is given back yet
    assert_eq!(allocator.allocate(1, 1), None);
    allocator.dealloc();
    assert_eq!(allocator.allocate(32, 32), Some(64));
}

#[test]
fn block_sizes_double_from_eight() {
    assert_eq!(block_size(0), 8);
    assert_eq!(block_size(1), 16);
    assert_eq!(block_size(7), 1024);
    assert_eq!(block_size(13), 65536);
}

#[test]
fn the_smallest_block_that_holds_size_and_alignment_is_chosen() {
    assert_eq!(page_block_index(0, 1), Some(0));
    assert_eq!(page_block_index(8, 8), Some(0));
    assert_eq!(page_block_index(9, 1), Some(1));
    assert_eq!(page_block_index(3, 64), Some(3));
    assert_eq!(page_block_index(1000, 16), Some(7));
    assert_eq!(page_block_index(65536, 8), Some(13));
    assert_eq!(page_block_index(65537, 8), None);
    assert_eq!(page_block_index(8, 131072), None);
}

#[test]
fn a_gamepad_button_is_down_when_its_bit_is_set() {
    let up = GameButtonState { half_tansition_count: 5, ended_down: false };
    let mut new_state = GameButtonState::default();
    process_xinput_digital_button(0b0110, &up, 0b0100, &mut new_state);
    assert_eq!(new_state, GameButtonState { half_tansition_count: 1, ended_down: true });
    process_xinput_digital_button(0b0010, &up, 0b0100, &mut new_state);
    assert_eq!(new_state, GameButtonState { half_tansition_count: 0, ended_down: false });
    // every bit of the button has to be set
    process_xinput_digital_button(0b0100, &up, 0b0110, &mut new_state);
    assert_eq!(new_state, GameButtonState { half_tansition_count: 0, ended_down: false });
}

#[test]
fn a_key_message_counts_a_change_only() {
    let mut state = GameButtonState::default();
    process_keyboard_message(&mut state, false);
    assert_eq!(state, GameButtonState { half_tansition_count: 0, ended_down: false });
    process_keyboard_message(&mut state, true);
    assert_eq!(state, GameButtonState { half_tansition_count: 1, ended_down: true });
    process_keyboard_message(&mut state, true);
    assert_eq!(state, GameButtonState { half_tansition_count: 1, ended_down: true });
    process_keyboard_message(&mut state, false);
    assert_eq!(state, GameButtonState { half_tansition_count: 2, ended_down: false });
}
