use std::cell::Cell;
use std::rc::Rc;

use lib::job_graph::{JobHandle, Scope};

type Job = Box<dyn FnOnce()>;

const ROUNDS: usize = 100;

/// Runs one job the way a worker does.
fn exec(job: Job)
{
    job()
}

/// A job that stamps `slot` with the next ticket.
fn stamp(ticket: &Rc<Cell<usize>>, slot: &Rc<Cell<usize>>) -> Job
{
    let ticket = ticket.clone();
    let slot = slot.clone();
    Box::new(move || {
        slot.set(ticket.get());
        ticket.set(ticket.get() + 1);
    })
}

fn unset() -> Rc<Cell<usize>>
{
    Rc::new(Cell::new(usize::MAX))
}

#[test]
fn ke_phu_thuoc_chay_sau_thu_no_phu_thuoc()
{
    let ticket = Rc::new(Cell::new(0));
    for round in 0..ROUNDS
    {
        let first = unset();
        let second = unset();

        let mut s: Scope<Job> = Scope::new();
        let a = s.spawn_with_handle(stamp(&ticket, &first));
        s.spawn_after(&[&a], stamp(&ticket, &second));
        s.join(&exec);

        assert!(first.get() < second.get(), "round {round}: the dependent ran first");
    }
}

#[test]
fn cho_du_moi_phu_thuoc_chu_khong_phai_cai_dau_tien()
{
    for _ in 0..ROUNDS
    {
        let done = Rc::new(Cell::new(0usize));
        let seen_by_last = unset();

        let mut s: Scope<Job> = Scope::new();
        let deps: Vec<JobHandle> = (0..8)
            .map(|_| {
                let done = done.clone();
                s.spawn_with_handle(Box::new(move || done.set(done.get() + 1)))
            })
            .collect();

        let borrowed: Vec<&JobHandle> = deps.iter().collect();
        let (done_in, seen_in) = (done.clone(), seen_by_last.clone());
        s.spawn_after(&borrowed, Box::new(move || seen_in.set(done_in.get())));
        s.join(&exec);

        assert_eq!(seen_by_last.get(), 8, "the last job ran before all 8 dependencies");
    }
}

#[test]
fn mot_chuoi_dai_van_giu_dung_thu_tu()
{
    let length = 64;
    let order: Vec<Rc<Cell<usize>>> = (0..length).map(|_| unset()).collect();
    let ticket = Rc::new(Cell::new(0));

    let mut s: Scope<Job> = Scope::new();
    let mut previous = s.spawn_with_handle(stamp(&ticket, &order[0]));
    for step in 1..length
    {
        previous = s.spawn_after(&[&previous], stamp(&ticket, &order[step]));
    }
    s.join(&exec);

    let stamps: Vec<usize> = order.iter().map(|slot| slot.get()).collect();
    assert_eq!(stamps, (0..length).collect::<Vec<_>>(), "the chain ran out of order");
}

#[test]
fn hinh_kim_cuong_chay_dung()
{
    for _ in 0..ROUNDS
    {
        let ticket = Rc::new(Cell::new(0));
        let (root, left, right, leaf) = (unset(), unset(), unset(), unset());

        let mut s: Scope<Job> = Scope::new();
        let a = s.spawn_with_handle(stamp(&ticket, &root));
        let b = s.spawn_after(&[&a], stamp(&ticket, &left));
        let c = s.spawn_after(&[&a], stamp(&ticket, &right));
        s.spawn_after(&[&b, &c], stamp(&ticket, &leaf));
        s.join(&exec);

        let (a, b, c, d) = (root.get(), left.get(), right.get(), leaf.get());
        assert!(a < b && a < c, "a middle branch ran before the root");
        assert!(b < d && c < d, "the last node ran before a middle branch");
    }
}

#[test]
fn tha_pool_ngay_sau_scope_khong_lam_worker_join_chinh_no()
{
    for _ in 0..ROUNDS
    {
        let done = Rc::new(Cell::new(0usize));

        let mut s: Scope<Job> = Scope::new();
        let first = s.spawn_with_handle(Box::new(|| {}));
        let second = s.spawn_after(&[&first], Box::new(|| {}));
        let done_in = done.clone();
        s.spawn_after(&[&second], Box::new(move || done_in.set(done_in.get() + 1)));
        s.join(&exec);

        assert_eq!(done.get(), 1);
        drop(s);
    }
}

#[test]
fn finished_dependency_is_not_waited_for()
{
    let done = Rc::new(Cell::new(0usize));
    let mut s: Scope<Job> = Scope::new();
    let d1 = done.clone();
    let first = s.spawn_with_handle(Box::new(move || d1.set(d1.get() + 1)));
    assert_eq!(s.run_next(&exec).map(|h| h.node()), Some(first.node()));
    assert!(s.is_finished(&first));

    let d2 = done.clone();
    let second = s.spawn_after(&[&first], Box::new(move || d2.set(d2.get() + 1)));
    assert_eq!(s.pending(&second), 0, "a finished dependency is not counted");
    assert_eq!(s.released_len(), 1, "the job is released at once");
    s.join(&exec);
    assert_eq!(done.get(), 2);
}

#[test]
fn job_waits_until_its_last_dependency_and_no_longer()
{
    let log = Rc::new(std::cell::RefCell::new(Vec::new()));
    let job = |name: &'static str| -> Job {
        let log = log.clone();
        Box::new(move || log.borrow_mut().push(name))
    };

    let mut s: Scope<Job> = Scope::new();
    let a = s.spawn_with_handle(job("a"));
    let b = s.spawn_with_handle(job("b"));
    let c = s.spawn_after(&[&a, &b, &a], job("c"));
    assert_eq!(s.pending(&c), 3, "each naming of an unfinished dependency counts");
    assert_eq!(s.released_len(), 2);

    assert!(s.run_next(&exec).is_some());
    assert_eq!(s.pending(&c), 1, "finishing a releases both of its namings");
    assert!(!s.is_finished(&c));
    assert_eq!(s.released_len(), 1);

    assert!(s.run_next(&exec).is_some());
    assert_eq!(s.pending(&c), 0);
    assert_eq!(s.released_len(), 1, "finishing b releases c");

    assert_eq!(s.run_next(&exec).map(|h| h.node()), Some(c.node()));
    assert!(s.run_next(&exec).is_none(), "nothing is left");
    assert_eq!(*log.borrow(), vec!["a", "b", "c"]);
    assert_eq!(s.len(), 3);
    assert!(!s.is_empty());
}

#[test]
fn empty_scope_joins_at_once()
{
    let mut s: Scope<Job> = Scope::new();
    assert!(s.is_empty());
    s.join(&exec);
    assert_eq!(s.len(), 0);
    assert!(s.run_next(&exec).is_none());
}
