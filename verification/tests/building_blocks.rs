use lib::collection::ring_buffer::consts::MAX_CAPACITY;
use lib::collection::ring_buffer::cursors::Cursors;
use lib::collection::ring_buffer::fifo::RingBuffer;
use lib::collection::ring_buffer::fixed_buffer::FixedBuffer;
use lib::collection::ring_buffer::head::Head;
use lib::collection::stack::SpmcStack;
use lib::utils::cursors::CursorData;
use lib::utils::steal::Steal;
use lib::utils::vec_front::take_front_reversed;
use lib::utils::{pack, unpack};

#[test]
fn pack_puts_the_first_cursor_in_the_upper_half()
{
    assert_eq!(pack(1, 2), 0x0000_0001_0000_0002);
    assert_eq!(pack(u32::MAX, 0), 0xFFFF_FFFF_0000_0000);
    assert_eq!(unpack(0xDEAD_BEEF_0000_0007), (0xDEAD_BEEF, 7));
    assert_eq!(unpack(pack(123, 456)), (123, 456));
}

#[test]
fn head_swaps_only_when_it_still_holds_the_expected_word()
{
    let mut head = Head::new(3, 5);
    assert_eq!(head.load_unpack(), (3, 5));
    assert_eq!(head.compare_exchange_weak(pack(3, 4), pack(9, 9)), Err(pack(3, 5)));
    assert_eq!(head.load_unpack(), (3, 5));
    assert_eq!(head.compare_exchange_weak(pack(3, 5), pack(3, 6)), Ok(pack(3, 5)));
    assert_eq!(head.load(), pack(3, 6));
    head.store_pack((7, 8));
    assert_eq!(head.load_unpack(), (7, 8));
    head.store(pack(1, 1));
    assert_eq!(head.load_unpack(), (1, 1));
}

#[test]
fn cursor_distances_wrap_around()
{
    let data = CursorData { stolen: u32::MAX - 1, blocked: u32::MAX, tail: 2, capacity: 8, mask: 7 };
    assert_eq!(data.filled_slots(), 3, "from u32::MAX to 2 across the wrap");
    assert_eq!(data.empty_slots(), 4, "4 of 8 cells are between stolen and tail");

    let cursors = Cursors { stolen: 4, in_progress: 4, tail: 10 };
    assert_eq!(cursors.available_slots(), 6);
    assert_eq!(cursors.increse_tail(3), 13);
    assert_eq!(Cursors { stolen: 0, in_progress: 0, tail: u32::MAX }.increse_tail(2), 1);
}

#[test]
fn fixed_buffer_masks_cursors_into_cells()
{
    let mut buffer: FixedBuffer<u32> = FixedBuffer::new(4);
    assert_eq!(buffer.capacity(), 4);
    assert_eq!(buffer.mask(), 3);
    buffer.write(6, 60);
    assert_eq!(*buffer.read(2), Some(60), "cursor 6 lands in cell 2");
    assert_eq!(buffer.take_at(2), Some(60));
    assert_eq!(*buffer.read(6), None);
    buffer.write(1, 10);
    buffer.drop_at(5);
    assert_eq!(*buffer.read(1), None);
}

#[test]
fn first_ring_takes_values_up_to_its_free_cells()
{
    let mut ring: RingBuffer<u32> = RingBuffer::new(4);
    assert_eq!(ring.push(1), Ok(()));
    let mut vals = vec![2, 3, 4, 5, 6];
    assert_eq!(ring.push_batch(0, &mut vals), 0, "max = 0 takes nothing");
    assert_eq!(ring.push_batch(2, &mut vals), 2, "limited by max");
    assert_eq!(vals, vec![4, 5, 6]);
    assert_eq!(ring.push_batch(10, &mut vals), 1, "limited by the one free cell");
    assert_eq!(vals, vec![5, 6]);
    assert_eq!(ring.push(7), Err(7), "a full ring hands the value back");
    let mut none: Vec<u32> = Vec::new();
    assert_eq!(ring.push_batch(3, &mut none), 0);
}

#[test]
fn stack_starts_with_both_cursors_at_zero()
{
    let _stack: SpmcStack<u8> = SpmcStack::new(8);
    assert!(MAX_CAPACITY > 8);
}

#[test]
fn steal_success_carries_its_value()
{
    assert_eq!(Steal::Success(3).success(), Some(3));
    assert_eq!(Steal::<u8>::Empty.success(), None);
    assert_eq!(Steal::<u8>::Busy.success(), None);
}

#[test]
fn take_front_reversed_takes_the_front_newest_first()
{
    let mut vals = vec![1, 2, 3, 4, 5];
    let front = take_front_reversed(&mut vals, 3);
    assert_eq!(front, vec![3, 2, 1]);
    assert_eq!(vals, vec![4, 5]);
}
