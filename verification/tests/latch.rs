use lib::latch::{Latch, LatchTicket};

/// Runs `jobs` in the order they were handed out; each one reports back with its ticket.
fn run_all(latch: &mut Latch, jobs: Vec<(LatchTicket, Box<dyn FnOnce(&Latch, &LatchTicket)>)>)
{
    for (ticket, job) in jobs
    {
        job(latch, &ticket);
        latch.release(ticket);
    }
}

#[test]
fn latch_rong_thi_khong_cho_gi_ca()
{
    let latch = Latch::new(0);
    assert!(latch.is_done());
    latch.wait();
}

#[test]
fn t0_cho_toi_khi_moi_ve_deu_da_duoc_tha()
{
    const JOBS: usize = 1_000;

    let mut latch = Latch::new(0);
    let done = std::rc::Rc::new(std::cell::Cell::new(0usize));
    let mut jobs: Vec<(LatchTicket, Box<dyn FnOnce(&Latch, &LatchTicket)>)> = Vec::new();

    for _ in 0..JOBS
    {
        let ticket = latch.ticket();
        let done = done.clone();
        jobs.push((ticket, Box::new(move |_: &Latch, _: &LatchTicket| done.set(done.get() + 1))));
    }
    assert_eq!(latch.remaining(), JOBS);
    assert!(!latch.is_done());

    run_all(&mut latch, jobs);
    latch.wait();
    assert_eq!(latch.remaining(), 0);
    assert_eq!(done.get(), JOBS);
}

#[test]
fn t2_latch_rong_thi_khong_cho_gi_ca()
{
    let latch = Latch::new(0);
    assert!(latch.is_done());
    latch.wait();
}

#[test]
fn t3_thread_ngoai_pool_thi_ngu_cho()
{
    let mut latch = Latch::new(0);
    let done = std::rc::Rc::new(std::cell::Cell::new(0usize));
    let mut jobs: Vec<(LatchTicket, Box<dyn FnOnce(&Latch, &LatchTicket)>)> = Vec::new();

    for _ in 0..64
    {
        let ticket = latch.ticket();
        let done = done.clone();
        jobs.push((ticket, Box::new(move |_: &Latch, _: &LatchTicket| done.set(done.get() + 1))));
    }

    run_all(&mut latch, jobs);
    latch.wait();
    assert_eq!(done.get(), 64);
}

#[test]
fn t5_huy_thi_job_chua_chay_bo_qua_phan_than()
{
    const JOBS: usize = 256;

    let mut latch = Latch::new(0);
    let done = std::rc::Rc::new(std::cell::Cell::new(0usize));

    assert!(latch.cancel(), "the first call to raise the flag gets true");

    let mut jobs: Vec<(LatchTicket, Box<dyn FnOnce(&Latch, &LatchTicket)>)> = Vec::new();
    for _ in 0..JOBS
    {
        let ticket = latch.ticket();
        let done = done.clone();
        jobs.push((
            ticket,
            Box::new(move |latch: &Latch, ticket: &LatchTicket| {
                if ticket.is_cancelled(latch)
                {
                    return;
                }
                done.set(done.get() + 1);
            }),
        ));
    }

    run_all(&mut latch, jobs);
    latch.wait();
    assert_eq!(done.get(), 0, "a job ran its body although the group was cancelled");
    assert_eq!(latch.remaining(), 0);
}

#[test]
fn t6_chi_mot_nguoi_thang_lan_bat_co()
{
    let mut latch = Latch::new(0);

    assert!(!latch.is_cancelled());
    assert!(latch.cancel(), "the first to raise the flag gets true");
    assert!(!latch.cancel(), "a later caller must not get true, or the reason would be overwritten");
    assert!(latch.is_cancelled());
}

#[test]
fn t7_huy_khong_lam_lenh_cho_tra_ve_som()
{
    let mut latch = Latch::new(0);
    let ticket = latch.ticket();

    latch.cancel();
    assert!(!latch.is_done(), "a live ticket keeps the latch from being done");

    latch.release(ticket);
    assert!(latch.is_done());
    latch.wait();
}

#[test]
fn cancel_after_issue_is_seen_by_an_outstanding_ticket()
{
    let mut latch = Latch::new(0);
    let ticket = latch.ticket();
    assert!(!ticket.is_cancelled(&latch));
    assert!(latch.cancel());
    assert!(ticket.is_cancelled(&latch));
    assert_eq!(latch.remaining(), 1, "cancelling leaves the count alone");
    latch.release(ticket);
    assert_eq!(latch.remaining(), 0);
}

#[test]
fn latch_with_initial_count_counts_down_to_done()
{
    let mut latch = Latch::new(2);
    let a = latch.ticket();
    assert_eq!(latch.remaining(), 3);
    latch.release(a);
    assert_eq!(latch.remaining(), 2);
    assert!(!latch.is_done());
}
