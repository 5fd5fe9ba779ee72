use lib::collection::ring_buffer::fixed_buffer::FixedBuffer;
use lib::collection::ring_buffer::spmc_fifo::SpmcRingBufferFifo;

#[test]
fn spmc_fifo_test_drain()
{
    let mut vals = vec![0, 1, 2, 3, 4, 5];
    let take_amount = 2;
    let mut drained = Vec::new();
    for e in vals.drain(..take_amount)
    {
        drained.push(e);
    }
    println!("vals:    {:?}", vals);
    println!("drained: {:?}", drained);
}

#[test]
fn ring_moi_khoi_tao_thi_pop_tra_ve_none()
{
    let mut ring = SpmcRingBufferFifo::<u32>::new(4);
    assert_eq!(ring.pop(), None);
}

#[test]
fn push_va_pop_giu_dung_thu_tu_fifo()
{
    let mut ring = SpmcRingBufferFifo::new(4);
    for i in 0..4u32
    {
        assert_eq!(ring.push(i), Ok(()));
    }
    for i in 0..4u32
    {
        assert_eq!(ring.pop(), Some(i));
    }
    assert_eq!(ring.pop(), None);
}

#[test]
fn day_khi_da_day_thi_tra_lai_gia_tri_chu_khong_nuot()
{
    let mut ring = SpmcRingBufferFifo::new(2);
    assert_eq!(ring.push(1), Ok(()));
    assert_eq!(ring.push(2), Ok(()));
    assert_eq!(ring.push(3), Err(3));

    assert_eq!(ring.pop(), Some(1));
    assert_eq!(ring.push(3), Ok(()));
}

#[test]
fn chi_so_quan_qua_cuoi_mang_van_giu_dung_thu_tu()
{
    let mut ring = SpmcRingBufferFifo::new(4);
    for round in 0..10u32
    {
        for i in 0..4u32
        {
            assert_eq!(ring.push(round * 4 + i), Ok(()));
        }
        for i in 0..4u32
        {
            assert_eq!(ring.pop(), Some(round * 4 + i));
        }
    }
}

#[test]
fn push_batch_bi_gioi_han_boi_cho_trong_va_giu_lai_phan_thua()
{
    let mut ring = SpmcRingBufferFifo::new(4);
    let mut vals: Vec<u32> = (0..10).collect();

    assert_eq!(ring.push_batch(10, &mut vals), 4);
    assert_eq!(vals, (4..10).collect::<Vec<_>>());

    assert_eq!(ring.push_batch(10, &mut vals), 0);
    assert_eq!(vals.len(), 6);
}

#[test]
fn push_batch_bi_gioi_han_boi_tham_so_max()
{
    let mut ring = SpmcRingBufferFifo::new(8);
    let mut vals: Vec<u32> = (0..8).collect();

    assert_eq!(ring.push_batch(3, &mut vals), 3);
    assert_eq!(vals, (3..8).collect::<Vec<_>>());
}

#[test]
fn push_batch_bi_gioi_han_boi_do_dai_vals()
{
    let mut ring = SpmcRingBufferFifo::new(8);
    let mut vals: Vec<u32> = (0..3).collect();

    assert_eq!(ring.push_batch(8, &mut vals), 3);
    assert!(vals.is_empty());
}

#[test]
fn pop_batch_tra_dung_thu_tu_va_bi_chan_boi_so_phan_tu_dang_co()
{
    let mut ring = SpmcRingBufferFifo::new(8);
    let mut vals: Vec<u32> = (0..5).collect();
    assert_eq!(ring.push_batch(5, &mut vals), 5);

    let mut out = Vec::new();
    assert_eq!(ring.pop_batch(100, &mut out), 5);
    assert_eq!(out, vec![0, 1, 2, 3, 4]);
    assert_eq!(ring.pop_batch(100, &mut out), 0);
}

#[test]
fn pop_batch_gioi_han_boi_tham_so_max()
{
    let mut ring = SpmcRingBufferFifo::new(8);
    let mut vals: Vec<u32> = (0..8).collect();
    assert_eq!(ring.push_batch(8, &mut vals), 8);

    let mut out = Vec::new();
    assert_eq!(ring.pop_batch(3, &mut out), 3);
    assert_eq!(out, vec![0, 1, 2]);
    assert_eq!(ring.pop_batch(3, &mut out), 3);
    assert_eq!(out, vec![0, 1, 2, 3, 4, 5]);
}

#[test]
fn push_batch_va_pop_batch_van_dung_khi_quan_qua_cuoi_mang()
{
    let mut ring = SpmcRingBufferFifo::new(4);
    for round in 0..20u32
    {
        let mut vals: Vec<u32> = (0..3).map(|i| round * 3 + i).collect();
        assert_eq!(ring.push_batch(3, &mut vals), 3);

        let mut out = Vec::new();
        assert_eq!(ring.pop_batch(3, &mut out), 3);
        assert_eq!(out, (0..3).map(|i| round * 3 + i).collect::<Vec<_>>());
    }
}

#[test]
fn t0_test_drain()
{
    let mut vals = vec![0, 1, 2, 3, 4, 5];
    let take_amount = 2;
    let mut drained = Vec::new();
    for e in vals.drain(..take_amount)
    {
        drained.push(e);
    }
    println!("vals:    {:?}", vals);
    println!("drained: {:?}", drained);
}

#[test]
fn t7_freshly_created_ring_pop_returns_none()
{
    let mut ring = SpmcRingBufferFifo::<u32>::new(4);
    assert_eq!(ring.pop(), None);
}

#[test]
fn t8_push_and_pop_keep_fifo_order()
{
    let mut ring = SpmcRingBufferFifo::new(4);
    for i in 0..4u32
    {
        assert_eq!(ring.push(i), Ok(()));
    }
    for i in 0..4u32
    {
        assert_eq!(ring.pop(), Some(i));
    }
    assert_eq!(ring.pop(), None);
}

#[test]
fn t9_push_when_full_returns_value_instead_of_dropping_it()
{
    let mut ring = SpmcRingBufferFifo::new(2);
    assert_eq!(ring.push(1), Ok(()));
    assert_eq!(ring.push(2), Ok(()));
    assert_eq!(ring.push(3), Err(3));

    assert_eq!(ring.pop(), Some(1));
    assert_eq!(ring.push(3), Ok(()));
}

#[test]
fn t10_index_wraparound_still_keeps_order()
{
    let mut ring = SpmcRingBufferFifo::new(4);
    for round in 0..10u32
    {
        for i in 0..4u32
        {
            assert_eq!(ring.push(round * 4 + i), Ok(()));
        }
        for i in 0..4u32
        {
            assert_eq!(ring.pop(), Some(round * 4 + i));
        }
    }
}

#[test]
fn t11_push_batch_limited_by_free_slots_and_keeps_the_remainder()
{
    let mut ring = SpmcRingBufferFifo::new(4);
    let mut vals: Vec<u32> = (0..10).collect();

    assert_eq!(ring.push_batch(10, &mut vals), 4);
    assert_eq!(vals, (4..10).collect::<Vec<_>>());

    assert_eq!(ring.push_batch(10, &mut vals), 0);
    assert_eq!(vals.len(), 6);
}

#[test]
fn t12_push_batch_limited_by_max_param()
{
    let mut ring = SpmcRingBufferFifo::new(8);
    let mut vals: Vec<u32> = (0..8).collect();

    assert_eq!(ring.push_batch(3, &mut vals), 3);
    assert_eq!(vals, (3..8).collect::<Vec<_>>());
}

#[test]
fn t13_push_batch_limited_by_vals_length()
{
    let mut ring = SpmcRingBufferFifo::new(8);
    let mut vals: Vec<u32> = (0..3).collect();

    assert_eq!(ring.push_batch(8, &mut vals), 3);
    assert!(vals.is_empty());
}

#[test]
fn t14_pop_batch_returns_correct_order_and_is_limited_by_available_count()
{
    let mut ring = SpmcRingBufferFifo::new(8);
    let mut vals: Vec<u32> = (0..5).collect();
    assert_eq!(ring.push_batch(5, &mut vals), 5);

    let mut out = Vec::new();
    assert_eq!(ring.pop_batch(100, &mut out), 5);
    assert_eq!(out, vec![0, 1, 2, 3, 4]);
    assert_eq!(ring.pop_batch(100, &mut out), 0);
}

#[test]
fn t15_pop_batch_limited_by_max_param()
{
    let mut ring = SpmcRingBufferFifo::new(8);
    let mut vals: Vec<u32> = (0..8).collect();
    assert_eq!(ring.push_batch(8, &mut vals), 8);

    let mut out = Vec::new();
    assert_eq!(ring.pop_batch(3, &mut out), 3);
    assert_eq!(out, vec![0, 1, 2]);
    assert_eq!(ring.pop_batch(3, &mut out), 3);
    assert_eq!(out, vec![0, 1, 2, 3, 4, 5]);
}

#[test]
fn t16_push_batch_and_pop_batch_still_correct_on_wraparound()
{
    let mut ring = SpmcRingBufferFifo::new(4);
    for round in 0..20u32
    {
        let mut vals: Vec<u32> = (0..3).map(|i| round * 3 + i).collect();
        assert_eq!(ring.push_batch(3, &mut vals), 3);

        let mut out = Vec::new();
        assert_eq!(ring.pop_batch(3, &mut out), 3);
        assert_eq!(out, (0..3).map(|i| round * 3 + i).collect::<Vec<_>>());
    }
}

#[test]
fn pop_batch_to_writes_into_consecutive_cells_from_the_start_cursor()
{
    let mut ring = SpmcRingBufferFifo::new(8);
    let mut vals: Vec<u32> = (10..15).collect();
    assert_eq!(ring.push_batch(8, &mut vals), 5);

    let mut dst: FixedBuffer<u32> = FixedBuffer::new(4);
    assert_eq!(ring.pop_batch_to(&mut dst, 3, 3), 3, "limited by the write count");
    assert_eq!(*dst.read(3), Some(10));
    assert_eq!(*dst.read(4), Some(11), "cursor 4 wraps to cell 0");
    assert_eq!(*dst.read(5), Some(12));
    assert_eq!(*dst.read(2), None, "cells outside the run are untouched");
    assert_eq!(ring.len(), 2);
    assert_eq!(ring.pop(), Some(13));
}

#[test]
fn drain_empties_the_ring_in_order_and_frees_every_cell()
{
    let mut ring = SpmcRingBufferFifo::new(4);
    for i in 0..3u32
    {
        assert_eq!(ring.push(i), Ok(()));
    }
    assert_eq!(ring.capacity(), 4);
    assert_eq!(ring.remaining(), 1);
    let data = ring.cursor_data();
    assert_eq!((data.stolen, data.blocked, data.tail), (0, 0, 3));

    let mut out = vec![99];
    assert_eq!(ring.drain(&mut out), 3);
    assert_eq!(out, vec![99, 0, 1, 2]);
    assert!(ring.is_empty());
    assert_eq!(ring.remaining(), 4);
    let data = ring.cursor_data();
    assert_eq!((data.stolen, data.blocked, data.tail), (3, 3, 3));
}

#[test]
fn producer_and_consumer_handles_work_on_the_same_ring()
{
    let mut ring = SpmcRingBufferFifo::new(4);
    {
        let mut producer = ring.split();
        assert_eq!(producer.push(1u32), Ok(()));
        let mut vals = vec![2, 3, 4, 5];
        assert_eq!(producer.push_batch(8, &mut vals), 3);
        assert_eq!(vals, vec![5]);
        assert_eq!(producer.pop(), Some(1), "the producer may pop too");
    }
    {
        let mut consumer = ring.consumer();
        consumer.claim();
        assert_eq!(consumer.pop(), Some(2));
        let mut out = Vec::new();
        assert_eq!(consumer.pop_batch(1, &mut out), 1);
        assert_eq!(out, vec![3]);
    }
    assert_eq!(ring.len(), 1);
    let data = ring.cursor_data();
    assert_eq!((data.stolen, data.blocked, data.tail), (3, 3, 4));
}
