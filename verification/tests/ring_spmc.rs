use lib::collection::ring_buffer::spmc::SpmcRingBuffer;

#[test]
fn fifo_test_drain()
{
    let mut vals = vec![0, 1, 2, 3, 4, 5];
    let take_amount = 2;
    let mut drained = Vec::new();
    for e in vals.drain(..take_amount)
    {
        drained.push(e);
    }
    println!("vals:    {:?}", vals);
    println!("drained: {:?}", drained);
}

#[test]
fn mod_test_drain()
{
    let mut vals = vec![0, 1, 2, 3, 4, 5];
    let take_amount = 2;
    let mut drained = Vec::new();
    for e in vals.drain(..take_amount)
    {
        drained.push(e);
    }
    println!("vals:    {:?}", vals);
    println!("drained: {:?}", drained);
}

#[test]
fn freshly_created_ring_pop_returns_none()
{
    let mut ring = SpmcRingBuffer::<u32>::new(4);
    assert_eq!(ring.pop(), None);
}

#[test]
fn push_and_pop_keep_fifo_order()
{
    let mut ring = SpmcRingBuffer::new(4);
    for i in 0..4u32
    {
        assert_eq!(ring.push(i), Ok(()));
    }
    for i in 0..4u32
    {
        assert_eq!(ring.pop(), Some(i));
    }
    assert_eq!(ring.pop(), None);
}

#[test]
fn push_when_full_returns_value_instead_of_dropping_it()
{
    let mut ring = SpmcRingBuffer::new(2);
    assert_eq!(ring.push(1), Ok(()));
    assert_eq!(ring.push(2), Ok(()));
    assert_eq!(ring.push(3), Err(3));

    assert_eq!(ring.pop(), Some(1));
    assert_eq!(ring.push(3), Ok(()));
}

#[test]
fn index_wraparound_still_keeps_order()
{
    let mut ring = SpmcRingBuffer::new(4);
    for round in 0..10u32
    {
        for i in 0..4u32
        {
            assert_eq!(ring.push(round * 4 + i), Ok(()));
        }
        for i in 0..4u32
        {
            assert_eq!(ring.pop(), Some(round * 4 + i));
        }
    }
}

#[test]
fn push_batch_limited_by_free_slots_and_keeps_the_remainder()
{
    let mut ring = SpmcRingBuffer::new(4);
    let mut vals: Vec<u32> = (0..10).collect();

    assert_eq!(ring.push_batch(10, &mut vals), 4);
    assert_eq!(vals, (4..10).collect::<Vec<_>>());

    assert_eq!(ring.push_batch(10, &mut vals), 0);
    assert_eq!(vals.len(), 6);
}

#[test]
fn push_batch_limited_by_max_param()
{
    let mut ring = SpmcRingBuffer::new(8);
    let mut vals: Vec<u32> = (0..8).collect();

    assert_eq!(ring.push_batch(3, &mut vals), 3);
    assert_eq!(vals, (3..8).collect::<Vec<_>>());
}

#[test]
fn push_batch_limited_by_vals_length()
{
    let mut ring = SpmcRingBuffer::new(8);
    let mut vals: Vec<u32> = (0..3).collect();

    assert_eq!(ring.push_batch(8, &mut vals), 3);
    assert!(vals.is_empty());
}

#[test]
fn pop_batch_returns_correct_order_and_is_limited_by_available_count()
{
    let mut ring = SpmcRingBuffer::new(8);
    let mut vals: Vec<u32> = (0..5).collect();
    assert_eq!(ring.push_batch(5, &mut vals), 5);

    let mut out = Vec::new();
    assert_eq!(ring.pop_batch(100, &mut out), 5);
    assert_eq!(out, vec![0, 1, 2, 3, 4]);
    assert_eq!(ring.pop_batch(100, &mut out), 0);
}

#[test]
fn pop_batch_limited_by_max_param()
{
    let mut ring = SpmcRingBuffer::new(8);
    let mut vals: Vec<u32> = (0..8).collect();
    assert_eq!(ring.push_batch(8, &mut vals), 8);

    let mut out = Vec::new();
    assert_eq!(ring.pop_batch(3, &mut out), 3);
    assert_eq!(out, vec![0, 1, 2]);
    assert_eq!(ring.pop_batch(3, &mut out), 3);
    assert_eq!(out, vec![0, 1, 2, 3, 4, 5]);
}

#[test]
fn push_batch_and_pop_batch_still_correct_on_wraparound()
{
    let mut ring = SpmcRingBuffer::new(4);
    for round in 0..20u32
    {
        let mut vals: Vec<u32> = (0..3).map(|i| round * 3 + i).collect();
        assert_eq!(ring.push_batch(3, &mut vals), 3);

        let mut out = Vec::new();
        assert_eq!(ring.pop_batch(3, &mut out), 3);
        assert_eq!(out, (0..3).map(|i| round * 3 + i).collect::<Vec<_>>());
    }
}

#[test]
fn split_handles_share_one_ring()
{
    let mut ring = SpmcRingBuffer::new(4);
    {
        let mut producer = ring.split();
        assert_eq!(producer.push(7u32), Ok(()));
        let mut vals = vec![8, 9];
        assert_eq!(producer.push_batch(4, &mut vals), 2);
    }
    {
        let mut consumer = ring.consumer();
        assert_eq!(consumer.pop(), Some(7));
        let mut out = Vec::new();
        assert_eq!(consumer.pop_batch(4, &mut out), 2);
        assert_eq!(out, vec![8, 9]);
        assert_eq!(consumer.pop(), None);
    }
}
