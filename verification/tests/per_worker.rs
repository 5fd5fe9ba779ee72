use lib::lanes::LaneId;
use lib::per_worker::PerWorker;

#[test]
fn moi_o_duoc_dung_bang_chi_so_cua_no()
{
    let per = PerWorker::with_len(4, |i| i * 10);
    assert_eq!(per.len(), 4);
    assert_eq!((0..per.len()).map(|i| *per.get(i)).collect::<Vec<_>>(), vec![0, 10, 20, 30]);
}

#[test]
fn with_writes_only_its_own_slot()
{
    let mut per = PerWorker::with_len(3, |_| 0usize);
    for round in 0..5
    {
        let seen = per.with(1, |n| (n + 1, n));
        assert_eq!(seen, round);
    }
    assert_eq!((0..3).map(|i| *per.get(i)).collect::<Vec<_>>(), vec![0, 5, 0]);
    assert!(!per.is_empty());
}

#[test]
fn for_each_unchecked_visits_every_slot_in_index_order()
{
    let mut per = PerWorker::with_len(4, |i| i + 1);
    per.for_each_unchecked(|n| n * 100);
    assert_eq!((0..4).map(|i| *per.get(i)).collect::<Vec<_>>(), vec![100, 200, 300, 400]);

    let empty: PerWorker<u8> = PerWorker::with_len(0, |_| 0);
    assert!(empty.is_empty());
}

#[test]
fn jobs_default_to_the_compute_lane()
{
    assert_eq!(LaneId::default(), LaneId::Compute);
    assert_ne!(LaneId::Async, LaneId::Main);
}
