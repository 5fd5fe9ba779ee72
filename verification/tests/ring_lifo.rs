use std::cell::Cell;
use std::rc::Rc;

use lib::collection::ring_buffer::spmc_fifo::SpmcRingBufferFifo;
use lib::collection::ring_buffer::spmc_lifo_produce_fifo_consume::SpmcRingBufferLifoProduceFifoConsume;
use lib::utils::steal::Steal;

type Ring<T> = SpmcRingBufferLifoProduceFifoConsume<T>;

/// Reads one cell of the ring's buffer without taking the value out.
fn peek<T: Copy>(ring: &Ring<T>, cursor: u32) -> T
{
    *ring.buffer().read(cursor).as_ref().expect("the cell holds a value")
}

/// The ring's cursors as (stolen, in_stealing, tail).
fn cursors<T>(ring: &Ring<T>) -> (u32, u32, u32)
{
    let c = ring.cursor_data();
    (c.stolen, c.blocked, c.tail)
}

/// A first-in first-out ring already holding `0..n`, used as a source of work.
fn fifo_source(capacity: usize, n: u32) -> SpmcRingBufferFifo<u32>
{
    let mut src = SpmcRingBufferFifo::new(capacity);
    for i in 0..n
    {
        assert_eq!(src.push(i), Ok(()), "the source must have room for {} elements", n);
    }
    src
}

#[test]
fn t3_ring_moi_tao_thi_moi_con_tro_deu_bang_khong()
{
    let ring = Ring::<u32>::new(8);
    assert_eq!(cursors(&ring), (0, 0, 0));
    assert_eq!(ring.cursor_data().filled_slots(), 0);
    assert_eq!(ring.cursor_data().empty_slots(), 8);
}

#[test]
fn t5_push_ghi_lan_luot_va_day_tail_len()
{
    let mut ring = Ring::new(4);
    for i in 0..4u32
    {
        assert_eq!(ring.push(i * 10), Ok(()));
        assert_eq!(cursors(&ring), (0, 0, i + 1));
    }
    for i in 0..4u32
    {
        assert_eq!(peek(&ring, i), i * 10, "cell {} must hold the pushed value", i);
    }
}

#[test]
fn t6_push_khi_day_thi_tra_lai_gia_tri_chu_khong_nuot()
{
    let mut ring = Ring::new(2);
    assert_eq!(ring.push(1), Ok(()));
    assert_eq!(ring.push(2), Ok(()));
    assert_eq!(ring.push(3), Err(3), "a full ring hands the value back");
    assert_eq!(cursors(&ring), (0, 0, 2), "a failed push leaves the tail alone");
}

#[test]
fn t8_ring_rong_thi_pop_lifo_tra_ve_none()
{
    let mut ring = Ring::<u32>::new(4);
    assert!(ring.pop_lifo().is_none());
    assert_eq!(cursors(&ring), (0, 0, 0), "a missed pop leaves the cursors alone");
}

#[test]
fn t10_pop_lifo_lay_phan_tu_moi_nhat_truoc()
{
    let mut ring = Ring::new(4);
    for i in 0..4u32
    {
        assert_eq!(ring.push(i), Ok(()));
    }
    assert_eq!(ring.pop_lifo(), Some(3));
    assert_eq!(ring.pop_lifo(), Some(2));
    assert_eq!(ring.pop_lifo(), Some(1));
    assert_eq!(ring.pop_lifo(), Some(0));
    assert_eq!(ring.pop_lifo(), None);
}

#[test]
fn t11_pop_lifo_xen_ke_push_van_dung_thu_tu()
{
    let mut ring = Ring::new(4);
    assert_eq!(ring.push(1), Ok(()));
    assert_eq!(ring.push(2), Ok(()));
    assert_eq!(ring.pop_lifo(), Some(2));
    assert_eq!(ring.push(3), Ok(()));
    assert_eq!(ring.pop_lifo(), Some(3));
    assert_eq!(ring.pop_lifo(), Some(1));
    assert_eq!(ring.pop_lifo(), None);
}

#[test]
fn t12_pop_lifo_chay_qua_diem_vong_lai_van_dung()
{
    let mut ring = Ring::new(4);
    for round in 0..20u32
    {
        for i in 0..4u32
        {
            assert_eq!(ring.push(round * 4 + i), Ok(()));
        }
        for i in (0..4u32).rev()
        {
            assert_eq!(ring.pop_lifo(), Some(round * 4 + i), "round {}", round);
        }
    }
}

#[test]
fn t15_push_batch_tu_nguon_rong_thi_khong_lay_gi()
{
    let mut ring = Ring::<u32>::new(4);
    let mut src = SpmcRingBufferFifo::<u32>::new(4);
    assert_eq!(ring.push_batch_by_taking_from(4, &mut src), 0);
    assert_eq!(cursors(&ring), (0, 0, 0));
}

#[test]
fn t16_push_batch_giu_nguyen_thu_tu_fifo_cua_nguon()
{
    let mut ring = Ring::new(8);
    let mut src = fifo_source(8, 5);

    assert_eq!(ring.push_batch_by_taking_from(5, &mut src), 5);
    assert_eq!(cursors(&ring), (0, 0, 5));
    assert!(src.is_empty(), "the source must be drained");

    for i in 0..5u32
    {
        assert_eq!(peek(&ring, i), i, "the values keep the source's first-in first-out order");
    }
}

#[test]
fn t17_push_batch_bi_gioi_han_boi_so_o_trong()
{
    let mut ring = Ring::new(4);
    let mut src = fifo_source(16, 10);

    assert_eq!(ring.push_batch_by_taking_from(10, &mut src), 4, "only 4 free cells");
    assert_eq!(cursors(&ring), (0, 0, 4));
    assert_eq!(src.len(), 6, "the rest stays in the source");

    assert_eq!(ring.push_batch_by_taking_from(10, &mut src), 0, "a full ring takes nothing");
    assert_eq!(src.len(), 6);
}

#[test]
fn t18_push_batch_bi_gioi_han_boi_max()
{
    let mut ring = Ring::new(8);
    let mut src = fifo_source(8, 8);

    assert_eq!(ring.push_batch_by_taking_from(3, &mut src), 3);
    assert_eq!(cursors(&ring), (0, 0, 3));
    assert_eq!(src.len(), 5);
}

#[test]
fn t19_push_batch_bi_gioi_han_boi_so_luong_ben_nguon()
{
    let mut ring = Ring::new(8);
    let mut src = fifo_source(8, 3);

    assert_eq!(ring.push_batch_by_taking_from(8, &mut src), 3);
    assert_eq!(cursors(&ring), (0, 0, 3));
    assert!(src.is_empty());
}

#[test]
fn t21_steal_tu_ring_rong_thi_tra_ve_khong()
{
    let mut src = Ring::<u32>::new(4);
    let mut dst = Ring::<u32>::new(4);
    assert_eq!(src.consumer_pop_batch_to(4, &mut dst), 0);
    assert_eq!(cursors(&src), (0, 0, 0));
    assert_eq!(cursors(&dst), (0, 0, 0));
}

#[test]
fn t22_steal_khi_dich_da_day_thi_tra_ve_khong()
{
    let mut src = Ring::new(4);
    let mut dst = Ring::new(2);
    for i in 0..4u32
    {
        assert_eq!(src.push(i), Ok(()));
    }
    for i in 0..2u32
    {
        assert_eq!(dst.push(100 + i), Ok(()));
    }

    assert_eq!(src.consumer_pop_batch_to(4, &mut dst), 0, "a full destination takes nothing");
    assert_eq!(cursors(&src), (0, 0, 4), "a missed steal leaves the source's cursors alone");
}

#[test]
fn t23_steal_cap_nhat_con_tro_cua_nguon()
{
    let mut src = Ring::new(8);
    let mut dst = Ring::<u32>::new(8);
    for i in 0..5u32
    {
        assert_eq!(src.push(i), Ok(()));
    }

    assert_eq!(src.consumer_pop_batch_to(5, &mut dst), 5);
    assert_eq!(cursors(&src), (5, 5, 5), "stolen and in_stealing catch up with the tail");
    assert_eq!(src.cursor_data().filled_slots(), 0);
    assert_eq!(src.cursor_data().empty_slots(), 8, "the stolen cells are free for the producer again");
}

#[test]
fn t24_steal_bi_gioi_han_boi_max()
{
    let mut src = Ring::new(8);
    let mut dst = Ring::<u32>::new(16);
    for i in 0..8u32
    {
        assert_eq!(src.push(i), Ok(()));
    }

    assert_eq!(src.consumer_pop_batch_to(3, &mut dst), 3);
    assert_eq!(cursors(&src), (3, 3, 8));
    assert_eq!(src.cursor_data().filled_slots(), 5, "what was not taken stays in the source");
}

#[test]
fn t25_steal_bi_gioi_han_boi_so_o_trong_cua_dich()
{
    let mut src = Ring::new(8);
    let mut dst = Ring::new(4);
    for i in 0..8u32
    {
        assert_eq!(src.push(i), Ok(()));
    }
    assert_eq!(dst.push(99), Ok(()));

    assert_eq!(src.consumer_pop_batch_to(8, &mut dst), 3, "the destination has 3 free cells");
}

#[test]
fn t26_steal_chuyen_du_phan_tu_sang_dich()
{
    let mut src = Ring::new(8);
    let mut dst = Ring::new(8);
    for i in 0..5u32
    {
        assert_eq!(src.push(i), Ok(()));
    }

    assert_eq!(src.consumer_pop_batch_to(5, &mut dst), 5);
    assert_eq!(cursors(&dst), (0, 0, 5), "the destination's tail moves by what it received");
    assert_eq!(dst.cursor_data().filled_slots(), 5);
}

#[test]
fn t27_steal_giu_thu_tu_fifo()
{
    let mut src = Ring::new(8);
    let mut dst = Ring::new(8);
    for i in 0..4u32
    {
        assert_eq!(src.push(i), Ok(()));
    }

    assert_eq!(src.consumer_pop_batch_to(4, &mut dst), 4);
    assert_eq!(dst.pop_lifo(), Some(3));
    assert_eq!(dst.pop_lifo(), Some(2));
    assert_eq!(dst.pop_lifo(), Some(1));
    assert_eq!(dst.pop_lifo(), Some(0));
}

#[test]
fn t28_steal_nhieu_lan_khong_ghi_de_len_nhau()
{
    let mut src = Ring::new(8);
    let mut dst = Ring::new(8);
    for i in 0..4u32
    {
        assert_eq!(src.push(i), Ok(()));
    }

    assert_eq!(src.consumer_pop_batch_to(2, &mut dst), 2);
    assert_eq!(src.consumer_pop_batch_to(2, &mut dst), 2);
    assert_eq!(cursors(&dst), (0, 0, 4), "two steals follow each other without overwriting");
    for i in 0..4u32
    {
        assert_eq!(peek(&dst, i), i);
    }
}

#[test]
fn t30_steal_tu_ring_rong_thi_bao_empty()
{
    let mut src = Ring::<u32>::new(4);
    let mut dst = Ring::<u32>::new(4);
    assert_eq!(src.try_steal_batch_to(4, &mut dst), Steal::Empty);
}

#[test]
fn t31_steal_khi_dich_day_thi_bao_busy_chu_khong_bao_empty()
{
    let mut src = Ring::new(4);
    let mut dst = Ring::new(2);
    for i in 0..4u32
    {
        assert_eq!(src.push(i), Ok(()));
    }
    for i in 0..2u32
    {
        assert_eq!(dst.push(100 + i), Ok(()));
    }

    assert_eq!(src.try_steal_batch_to(4, &mut dst), Steal::Busy);
    assert_eq!(cursors(&src), (0, 0, 4), "a missed steal leaves the source's cursors alone");
}

#[test]
fn t32_steal_thanh_cong_thi_bao_dung_so_luong()
{
    let mut src = Ring::new(8);
    let mut dst = Ring::<u32>::new(8);
    for i in 0..5u32
    {
        assert_eq!(src.push(i), Ok(()));
    }

    assert_eq!(src.try_steal_batch_to(3, &mut dst), Steal::Success(3));
    assert_eq!(src.try_steal_batch_to(8, &mut dst), Steal::Success(2), "only 2 left");
    assert_eq!(src.try_steal_batch_to(8, &mut dst), Steal::Empty);
    for i in 0..5u32
    {
        assert_eq!(peek(&dst, i), i, "the source's order is kept");
    }
}

#[test]
fn t33_steal_one_tren_ring_rong_thi_bao_empty()
{
    let mut ring = Ring::<u32>::new(4);
    assert_eq!(ring.try_steal_one(), Steal::Empty);
    assert_eq!(cursors(&ring), (0, 0, 0), "a missed steal leaves the cursors alone");
}

#[test]
fn t34_steal_one_lay_phan_tu_cu_nhat_truoc()
{
    let mut ring = Ring::new(4);
    for i in 0..4u32
    {
        assert_eq!(ring.push(i), Ok(()));
    }

    assert_eq!(ring.try_steal_one(), Steal::Success(0));
    assert_eq!(ring.try_steal_one(), Steal::Success(1));
    assert_eq!(cursors(&ring), (2, 2, 4), "stolen and in_stealing move together");
    assert_eq!(ring.pop_lifo(), Some(3), "the owner still gets the newest value");
    assert_eq!(ring.try_steal_one(), Steal::Success(2));
    assert_eq!(ring.try_steal_one(), Steal::Empty);
}

#[test]
fn t35_steal_one_tra_lai_o_trong_cho_producer()
{
    let mut ring = Ring::new(2);
    assert_eq!(ring.push(1), Ok(()));
    assert_eq!(ring.push(2), Ok(()));
    assert_eq!(ring.push(3), Err(3), "the ring is full");

    assert_eq!(ring.try_steal_one(), Steal::Success(1));
    assert_eq!(ring.push(3), Ok(()), "the cell freed by the steal can be used again");
    assert_eq!(ring.try_steal_one(), Steal::Success(2));
    assert_eq!(ring.try_steal_one(), Steal::Success(3));
}

#[test]
fn t36_consumer_pop_batch_lay_toi_da_muoi_phan_tu_mot_lan()
{
    let mut src = Ring::new(16);
    let mut dst = Ring::<u32>::new(16);
    for i in 0..16u32
    {
        assert_eq!(src.push(i), Ok(()));
    }

    let mut consumer = src.consumer(&mut dst);
    assert_eq!(consumer.pop_batch(), 10, "Consumer::pop_batch takes at most 10");
    drop(consumer);
    assert_eq!(src.cursor_data().filled_slots(), 6);
}

#[test]
fn t37_consumer_pop_batch_tren_ring_rong_thi_tra_ve_khong()
{
    let mut src = Ring::<u32>::new(16);
    let mut dst = Ring::<u32>::new(16);
    assert_eq!(src.consumer(&mut dst).pop_batch(), 0);
}

#[test]
fn t38_consumer_try_steal_noi_ro_ly_do_khi_lay_hut()
{
    let mut src = Ring::new(16);
    let mut dst = Ring::<u32>::new(16);
    assert_eq!(src.consumer(&mut dst).try_steal(), Steal::Empty, "an empty source is Empty");

    for i in 0..4u32
    {
        assert_eq!(src.push(i), Ok(()));
    }
    assert_eq!(src.consumer(&mut dst).try_steal(), Steal::Success(4));

    let mut dst_day = Ring::<u32>::new(1);
    assert_eq!(dst_day.push(9), Ok(()));
    for i in 0..4u32
    {
        assert_eq!(src.push(i), Ok(()));
    }
    assert_eq!(src.consumer(&mut dst_day).try_steal(), Steal::Busy, "a full destination is Busy");
}

#[test]
fn t39_consumer_steal_one_lay_dung_mot_viec()
{
    let mut src = Ring::new(8);
    let mut dst = Ring::<u32>::new(8);
    for i in 0..3u32
    {
        assert_eq!(src.push(i), Ok(()));
    }

    {
        let mut consumer = src.consumer(&mut dst);
        assert_eq!(consumer.steal_one(), Some(0));
        assert_eq!(consumer.try_steal_one(), Steal::Success(1));
    }
    assert_eq!(cursors(&dst), (0, 0, 0), "steal_one does not go through the destination");
    assert_eq!(src.cursor_data().filled_slots(), 1);
    let mut consumer = src.consumer(&mut dst);
    assert_eq!(consumer.steal_one(), Some(2));
    assert_eq!(consumer.steal_one(), None);
}

struct DropCounter(Rc<Cell<usize>>);

impl Drop for DropCounter
{
    fn drop(&mut self)
    {
        self.0.set(self.0.get() + 1);
    }
}

#[test]
fn t42_ring_bi_huy_thi_tha_cac_phan_tu_con_lai()
{
    let count = Rc::new(Cell::new(0));
    {
        let mut ring = Ring::new(4);
        for _ in 0..3
        {
            assert!(ring.push(DropCounter(count.clone())).is_ok());
        }
        assert_eq!(count.get(), 0, "nothing is dropped while the ring lives");
    }
    assert_eq!(count.get(), 3, "dropping the ring drops the 3 values left in it");
}
