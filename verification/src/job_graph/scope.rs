//! The part of a scope that keeps the dependency graph between its jobs.

use std::collections::VecDeque;
use vstd::prelude::*;
use vstd::multiset::Multiset;
use crate::job_graph::job_handle::JobHandle;
use crate::job_graph::node::Node;

verus! {

broadcast use {
    vstd::multiset::group_multiset_axioms,
    vstd::multiset::group_multiset_properties,
    vstd::seq_lib::group_to_multiset_ensures,
    vstd::seq_lib::group_seq_properties,
};

/// Taking one copy of a value that is present out of a multiset shrinks it by one.
proof fn lemma_remove_present(m: Multiset<usize>, v: usize)
    requires
        m.count(v) > 0,
    ensures
        m.remove(v).len() == m.len() - 1,
        m.remove(v).count(v) == m.count(v) - 1,
        forall|x: usize| x != v ==> #[trigger] m.remove(v).count(x) == m.count(x),
{
    assert(Multiset::singleton(v).subset_of(m));
}

/// The jobs of one scope with the dependencies between them.
///
/// Jobs are spawned with [`Self::spawn_after`]; a job whose dependencies have all finished is
/// released to the back of a queue, which is what the pool's injector receives, and
/// [`Self::run_next`] runs the oldest released job the way a worker would. [`Self::join`] runs
/// jobs until none is left, which is what the end of a scope waits for.
pub struct Scope<J> {
    /// Every job spawned so far, in spawn order; a handle is an index into this.
    nodes: Vec<Node<J>>,
    /// Jobs whose dependencies have all finished and that have not run yet, oldest first.
    released: VecDeque<usize>,
    /// For each job, the dependencies it was spawned with.
    deps: Ghost<Seq<Seq<usize>>>,
    /// For each job, the dependencies whose completion it is still waiting for, one entry per
    /// registration.
    waiting: Ghost<Seq<Multiset<usize>>>,
    /// For each job, its position in the order in which jobs ran; `-1` until it has run.
    ran_at: Ghost<Seq<int>>,
    /// Number of jobs that have run.
    runs: Ghost<nat>,
    /// For each job, the work it was spawned with.
    spawned: Ghost<Seq<J>>,
}

impl<J> Scope<J> {
    /// Number of jobs spawned so far.
    pub closed spec fn spec_len(&self) -> nat {
        self.nodes@.len()
    }

    /// Whether job `i` has run.
    pub closed spec fn finished(&self, i: int) -> bool {
        self.nodes@[i].is_finished()
    }

    /// The dependencies job `i` was spawned with, as job indices.
    pub closed spec fn deps_of(&self, i: int) -> Seq<usize> {
        self.deps@[i]
    }

    /// Dependencies of job `i` that have not finished yet, counted once per registration.
    pub closed spec fn pending_of(&self, i: int) -> nat {
        self.nodes@[i].pending as nat
    }

    /// The released jobs that have not run yet, oldest first.
    pub closed spec fn released(&self) -> Seq<usize> {
        self.released@
    }

    /// Position of job `i` in the order in which jobs ran; negative while it has not run.
    pub closed spec fn run_position(&self, i: int) -> int {
        self.ran_at@[i]
    }

    /// Number of jobs that have run.
    pub closed spec fn runs(&self) -> nat {
        self.runs@
    }

    /// The work job `i` was spawned with.
    pub closed spec fn work_of(&self, i: int) -> J {
        self.spawned@[i]
    }

    /// How many entries of `ds` name a job that has not run yet.
    pub open spec fn unfinished_among(&self, ds: Seq<usize>) -> nat
        decreases ds.len(),
    {
        if ds.len() == 0 {
            0
        } else {
            self.unfinished_among(ds.drop_last()) + (if self.finished(ds.last() as int) { 0nat } else { 1 })
        }
    }

    /// The successors job `i` will release when it finishes, in registration order.
    pub closed spec fn successors_of(&self, i: int) -> Seq<usize> {
        self.nodes@[i].successor_list()
    }

    /// The jobs released when the first `k` entries of `list` each report one finished
    /// dependency, in order, starting from the counts of this scope: a job is released by the
    /// entry that brings its count to zero.
    pub open spec fn released_by(&self, list: Seq<usize>, k: int) -> Seq<usize>
        decreases k,
    {
        if k <= 0 {
            Seq::empty()
        } else {
            let prev = self.released_by(list, k - 1);
            let s = list[k - 1];
            if list.take(k).to_multiset().count(s) == self.pending_of(s as int) {
                prev.push(s)
            } else {
                prev
            }
        }
    }

    /// Number of jobs among the first `m` that have not run yet.
    pub open spec fn unfinished_below(&self, m: int) -> nat
        decreases m,
    {
        if m <= 0 {
            0
        } else {
            self.unfinished_below(m - 1) + (if self.finished(m - 1) { 0nat } else { 1 })
        }
    }

    /// Whether `h` names a job of this scope.
    pub open spec fn owns(&self, h: JobHandle) -> bool {
        0 <= h.index() < self.spec_len()
    }

    /// Job `i`'s outgoing edges that are still to be released. While job `d` hands out its
    /// successors, `rest` stands for the part of its list not handed out yet.
    spec fn outgoing(&self, i: int, d: int, rest: Seq<usize>) -> Multiset<usize> {
        if i == d {
            rest.to_multiset()
        } else {
            self.nodes@[i].successor_list().to_multiset()
        }
    }

    /// The bookkeeping of job `i` agrees with the rest of the scope. Job `b`, while it is
    /// being wired up, still holds its count of one and has registered only its first `k`
    /// dependencies.
    spec fn node_ok(&self, i: int, b: int, k: int) -> bool {
        let node = self.nodes@[i];
        let n = self.nodes@.len();
        &&& node.pending == self.waiting@[i].len() + (if i == b { 1int } else { 0 })
        &&& i == b ==> self.waiting@[i].len() <= k
        &&& node.is_finished() ==> node.pending == 0
        &&& forall|v: usize| #[trigger] self.waiting@[i].count(v) > 0 ==> v < i
        &&& forall|j: int| 0 <= j < self.deps@[i].len() ==> #[trigger] self.deps@[i][j] < i
        &&& forall|j: int| 0 <= j < self.deps@[i].len() && (i != b || j < k) ==> {
            let d = #[trigger] self.deps@[i][j];
            self.nodes@[d as int].is_finished() || self.waiting@[i].count(d) > 0
        }
        &&& node.is_finished() <==> self.ran_at@[i] >= 0
        &&& node.is_finished() <==> node.work is None
        &&& node.is_finished() ==> self.ran_at@[i] < self.runs@
        &&& node.is_finished() ==> forall|j: int| 0 <= j < self.deps@[i].len() ==> {
            let d = #[trigger] self.deps@[i][j];
            self.nodes@[d as int].is_finished() && self.ran_at@[d as int] < self.ran_at@[i]
        }
        &&& forall|j: int| 0 <= j < node.successor_list().len()
            ==> i < #[trigger] node.successor_list()[j] < n
    }

    /// The invariant of a scope, with job `b` being wired up after its first `k` dependencies
    /// and job `d` handing out its successors, `rest` being those not handed out yet.
    spec fn inv(&self, b: int, k: int, d: int, rest: Seq<usize>) -> bool {
        let n = self.nodes@.len();
        &&& n <= usize::MAX
        &&& self.deps@.len() == n
        &&& self.waiting@.len() == n
        &&& self.ran_at@.len() == n
        &&& self.spawned@.len() == n
        &&& forall|i: int| 0 <= i < n && (#[trigger] self.nodes@[i]).work is Some
            ==> self.nodes@[i].work == Some(self.spawned@[i])
        &&& forall|i: int| 0 <= i < n ==> #[trigger] self.node_ok(i, b, k)
        &&& forall|i: int, e: usize| 0 <= i < n && e < n ==>
            #[trigger] self.waiting@[i].count(e) == #[trigger] self.outgoing(e as int, d, rest).count(i as usize)
        &&& forall|i: int, j: int| 0 <= i < n && 0 <= j < n && i != j && self.nodes@[i].is_finished()
            && self.nodes@[j].is_finished() ==> #[trigger] self.ran_at@[i] != #[trigger] self.ran_at@[j]
        &&& self.released@.no_duplicates()
        &&& forall|j: int| 0 <= j < self.released@.len() ==> #[trigger] self.released@[j] < n
        &&& forall|i: int| 0 <= i < n && i != b && i != d ==> (#[trigger] self.released@.contains(i as usize)
            <==> self.nodes@[i].pending == 0 && !self.nodes@[i].is_finished())
        &&& 0 <= b < n ==> !self.released@.contains(b as usize) && !self.nodes@[b].is_finished()
        &&& 0 <= d < n ==> !self.released@.contains(d as usize) && self.nodes@[d].is_finished()
        &&& forall|j: int| 0 <= j < rest.len() ==> d < #[trigger] rest[j] < n
    }

    /// The invariant of a scope between operations.
    pub closed spec fn wf(&self) -> bool {
        self.inv(-1, 0, -1, Seq::empty())
    }

    /// An empty scope.
    pub fn new() -> (s: Self)
        ensures
            s.wf(),
            s.spec_len() == 0,
            s.released() == Seq::<usize>::empty(),
            s.runs() == 0,
    {
        Scope {
            nodes: Vec::new(),
            released: VecDeque::new(),
            deps: Ghost(Seq::empty()),
            waiting: Ghost(Seq::empty()),
            ran_at: Ghost(Seq::empty()),
            runs: Ghost(0),
            spawned: Ghost(Seq::empty()),
        }
    }

    /// With nothing released, every job has run: since every dependency points back to an
    /// earlier job, the earliest job that has not run would be waiting for nothing.
    proof fn lemma_quiet_means_finished(&self, m: int)
        requires
            self.wf(),
            self.released@.len() == 0,
            0 <= m <= self.nodes@.len(),
        ensures
            forall|i: int| 0 <= i < m ==> #[trigger] self.nodes@[i].is_finished(),
        decreases m,
    {
        if m > 0 {
            self.lemma_quiet_means_finished(m - 1);
            let i = m - 1;
            assert(self.node_ok(i, -1, 0));
            assert forall|v: usize| self.waiting@[i].count(v) == 0 by {
                if self.waiting@[i].count(v) > 0 {
                    assert(self.nodes@[v as int].is_finished());
                    assert(self.waiting@[i].count(v) == self.outgoing(v as int, -1, Seq::empty()).count(i as usize));
                    assert(self.nodes@[v as int].successor_list().to_multiset().len() == 0);
                    assert(self.nodes@[v as int].successor_list().len() == 0);
                }
            }
            assert(self.waiting@[i] =~= Multiset::empty());
            if !self.nodes@[i].is_finished() {
                assert(self.released@.contains(i as usize));
            }
        }
    }

    /// When job `r` runs and nothing else changes, one fewer job is left to run.
    proof fn lemma_one_more_finished(a: &Self, b: &Self, r: int, m: int)
        requires
            a.nodes@.len() == b.nodes@.len(),
            0 <= r < a.nodes@.len(),
            !a.finished(r),
            b.finished(r),
            forall|i: int| 0 <= i < a.nodes@.len() && i != r ==> #[trigger] b.finished(i) == a.finished(i),
            0 <= m <= a.nodes@.len(),
        ensures
            m > r ==> b.unfinished_below(m) + 1 == a.unfinished_below(m),
            m <= r ==> b.unfinished_below(m) == a.unfinished_below(m),
        decreases m,
    {
        if m > 0 {
            Self::lemma_one_more_finished(a, b, r, m - 1);
            if m - 1 != r {
                assert(b.finished(m - 1) == a.finished(m - 1));
            }
        }
    }

    /// Popping the oldest released job, taking its work and its successors and recording its
    /// run leaves a scope in which that job hands out `succ`.
    proof fn lemma_started(pre: Self, post: Self, nd: int, succ: Seq<usize>)
        requires
            pre.wf(),
            pre.released@.len() > 0,
            pre.released@[0] == nd,
            succ == pre.nodes@[nd].successor_list(),
            post.nodes@.len() == pre.nodes@.len(),
            forall|i: int| 0 <= i < pre.nodes@.len() && i != nd ==> post.nodes@[i] == pre.nodes@[i],
            post.nodes@[nd].pending == pre.nodes@[nd].pending,
            post.nodes@[nd].work is None,
            post.nodes@[nd].successors is None,
            post.released@ == pre.released@.drop_first(),
            post.deps == pre.deps,
            post.waiting == pre.waiting,
            post.ran_at@ == pre.ran_at@.update(nd, pre.runs@ as int),
            post.runs@ == pre.runs@ + 1,
            post.spawned == pre.spawned,
        ensures
            post.inv(-1, 0, nd, succ),
    {
        let n = pre.nodes@.len() as int;
        let node = nd as usize;
        assert(pre.released@.contains(node));
        assert(pre.released@.contains((nd) as usize));
        assert(pre.node_ok(nd, -1, 0));
            assert(post.waiting@[nd] =~= Multiset::empty()) by {
                assert forall|v: usize| post.waiting@[nd].count(v) == 0 by {
                    assert(post.waiting@[nd].count(v) <= post.waiting@[nd].len());
                }
            }
            assert forall|i: int| 0 <= i < n implies #[trigger] post.node_ok(i, -1, 0) by {
                assert(pre.node_ok(i, -1, 0));
                if i == nd {
                    assert forall|j: int| 0 <= j < post.deps@[i].len() implies {
                        let d = #[trigger] post.deps@[i][j];
                        post.nodes@[d as int].is_finished() && post.ran_at@[d as int] < post.ran_at@[i]
                    } by {
                        let d = post.deps@[i][j];
                        assert(pre.node_ok(d as int, -1, 0));
                        assert(pre.waiting@[i].count(d) == 0);
                    }
                } else {
                    if post.nodes@[i].is_finished() {
                        assert forall|j: int| 0 <= j < post.deps@[i].len() implies {
                            let d = #[trigger] post.deps@[i][j];
                            post.nodes@[d as int].is_finished() && post.ran_at@[d as int] < post.ran_at@[i]
                        } by {
                            let d = post.deps@[i][j];
                            assert(pre.nodes@[d as int].is_finished());
                            assert(d as int != nd);
                        }
                    }
                }
            }
            assert forall|i: int, e: usize| 0 <= i < n && e < n implies
                #[trigger] post.waiting@[i].count(e) == #[trigger] post.outgoing(e as int, nd, succ).count(i as usize) by {
                assert(pre.waiting@[i].count(e) == pre.outgoing(e as int, -1, Seq::empty()).count(i as usize));
            }
            assert forall|i: int, j: int| 0 <= i < n && 0 <= j < n && i != j && post.nodes@[i].is_finished()
                && post.nodes@[j].is_finished() implies #[trigger] post.ran_at@[i] != #[trigger] post.ran_at@[j] by {
                assert(pre.node_ok(i, -1, 0));
                assert(pre.node_ok(j, -1, 0));
            }
            assert forall|i: int| 0 <= i < n && i != nd implies (#[trigger] post.released@.contains(i as usize)
                <==> post.nodes@[i].pending == 0 && !post.nodes@[i].is_finished()) by {
                assert(pre.released@ =~= seq![node] + post.released@);
                if pre.released@.contains(i as usize) {
                    let w = choose|w: int| 0 <= w < pre.released@.len() && pre.released@[w] == i as usize;
                    assert(w != 0);
                    assert(post.released@[w - 1] == i as usize);
                }
                if post.released@.contains(i as usize) {
                    let w = choose|w: int| 0 <= w < post.released@.len() && post.released@[w] == i as usize;
                    assert(pre.released@[w + 1] == i as usize);
                }
            }
            assert(!post.released@.contains(node)) by {
                if post.released@.contains(node) {
                    let w = choose|w: int| 0 <= w < post.released@.len() && post.released@[w] == node;
                    assert(pre.released@[w + 1] == node);
                    assert(pre.released@[0] == node);
                }
            }
            assert forall|j: int| 0 <= j < succ.len() implies nd < #[trigger] succ[j] < n by {
                assert(succ[j] == pre.nodes@[nd].successor_list()[j]);
            }
            assert(post.inv(-1, 0, nd, succ.skip(0))) by {
                assert(succ.skip(0) =~= succ);
            }
    }

    /// Takes the oldest released job, runs it with `exec`, and then reports it finished to
    /// every job waiting for it, releasing those for which it was the last dependency.
    ///
    /// The job's successors are taken out in the same step that marks it finished, so a job
    /// spawned after this point sees a finished dependency and does not wait for it.
    fn run<F: Fn(J)>(&mut self, exec: &F) -> (r: usize)
        requires
            old(self).wf(),
            old(self).released@.len() > 0,
            forall|j: J| #[trigger] exec.requires((j,)),
        ensures
            final(self).wf(),
            r == old(self).released@[0],
            exec.ensures((old(self).work_of(r as int),), ()),
            final(self).spawned == old(self).spawned,
            final(self).finished(r as int),
            final(self).run_position(r as int) == old(self).runs(),
            final(self).runs() == old(self).runs() + 1,
            final(self).spec_len() == old(self).spec_len(),
            final(self).deps == old(self).deps,
            forall|i: int| 0 <= i < old(self).spec_len() && i != r ==> {
                &&& #[trigger] final(self).finished(i) == old(self).finished(i)
                &&& final(self).run_position(i) == old(self).run_position(i)
                &&& final(self).pending_of(i) == old(self).pending_of(i)
                    - old(self).successors_of(r as int).to_multiset().count(i as usize)
            },
            final(self).released() == old(self).released().drop_first()
                + old(self).released_by(old(self).successors_of(r as int), old(self).successors_of(r as int).len() as int),
    {
        let ghost n = self.nodes@.len() as int;
        let ghost runs0 = self.runs@;
        let node = self.released.pop_front().unwrap();
        let ghost nd = node as int;
        proof {
            assert(old(self).released@.contains(node));
            assert(old(self).released@.contains((nd) as usize));
            assert(old(self).node_ok(nd, -1, 0));
        }
        let work = self.nodes[node].work.take().unwrap();
        exec(work);
        let succ = self.nodes[node].successors.take().unwrap();
        proof {
            let ghost pre = *old(self);
            self.ran_at@ = self.ran_at@.update(nd, runs0 as int);
            self.runs@ = runs0 + 1;
            Self::lemma_started(pre, *self, nd, succ@);
            assert(succ@.skip(0) =~= succ@);
        }
        let mut k: usize = 0;
        while k < succ.len()
            invariant
                self.inv(-1, 0, nd, succ@.skip(k as int)),
                0 <= k <= succ@.len(),
                nd == node,
                n == old(self).nodes@.len(),
                self.nodes@.len() == n,
                succ@ == old(self).successors_of(nd),
                self.deps == old(self).deps,
                self.ran_at@ == old(self).ran_at@.update(nd, old(self).runs() as int),
                self.runs@ == old(self).runs() + 1,
                self.spawned == old(self).spawned,
                exec.ensures((old(self).work_of(nd),), ()),
                self.nodes@[nd].is_finished(),
                forall|i: int| 0 <= i < n && i != nd ==> {
                    &&& #[trigger] self.nodes@[i].is_finished() == old(self).nodes@[i].is_finished()
                    &&& self.nodes@[i].pending == old(self).nodes@[i].pending
                        - succ@.take(k as int).to_multiset().count(i as usize)
                },
                self.released@ == old(self).released@.drop_first() + old(self).released_by(succ@, k as int),
            decreases succ@.len() - k,
        {
            let s = succ[k];
            proof {
                assert(succ@.skip(k as int)[0] == s);
                assert(succ@.take(k as int + 1) =~= succ@.take(k as int).push(s));
                assert(succ@.skip(k as int).drop_first() =~= succ@.skip(k as int + 1));
                assert(s as int != nd);
                assert(self.nodes@[s as int].is_finished() == old(self).nodes@[s as int].is_finished());
            }
            let ghost pend_s = self.nodes@[s as int].pending;
            let ghost before = *self;
            self.release(s, Ghost(nd), Ghost(succ@.skip(k as int)));
            k = k + 1;
            proof {
                let t = succ@.take(k as int);
                assert(t.to_multiset().count(s) == succ@.take(k as int - 1).to_multiset().count(s) + 1);
                assert(pend_s == old(self).nodes@[s as int].pending - succ@.take(k as int - 1).to_multiset().count(s));
                assert((self.nodes@[s as int].pending == 0) == (t.to_multiset().count(s) == old(self).pending_of(s as int)));
                assert(old(self).released_by(succ@, k as int) == (if t.to_multiset().count(s) == old(self).pending_of(s as int) {
                    old(self).released_by(succ@, k as int - 1).push(s)
                } else {
                    old(self).released_by(succ@, k as int - 1)
                }));
                assert forall|i: int| 0 <= i < n && i != nd implies {
                    &&& #[trigger] self.nodes@[i].is_finished() == old(self).nodes@[i].is_finished()
                    &&& self.nodes@[i].pending == old(self).nodes@[i].pending
                        - succ@.take(k as int).to_multiset().count(i as usize)
                } by {
                    assert(before.nodes@[i].is_finished() == old(self).nodes@[i].is_finished());
                    assert(self.nodes@[i].is_finished() == before.nodes@[i].is_finished());
                    if i != s as int {
                        assert((i as usize) != s);
                        assert(t.to_multiset().count(i as usize) == succ@.take(k as int - 1).to_multiset().count(i as usize));
                    }
                }
                assert(self.released@ =~= old(self).released@.drop_first() + old(self).released_by(succ@, k as int));
            }
        }
        proof {
            assert(succ@.skip(k as int) =~= Seq::<usize>::empty());
            assert(succ@.take(k as int) =~= succ@);
            assert forall|i: int, e: usize| 0 <= i < n && e < n implies
                #[trigger] self.waiting@[i].count(e) == #[trigger] self.outgoing(e as int, -1, Seq::empty()).count(i as usize) by {
                assert(self.waiting@[i].count(e) == self.outgoing(e as int, nd, succ@.skip(k as int)).count(i as usize));
            }
            assert forall|i: int| 0 <= i < n implies (#[trigger] self.released@.contains(i as usize)
                <==> self.nodes@[i].pending == 0 && !self.nodes@[i].is_finished()) by {
            }
            assert forall|i: int| 0 <= i < old(self).spec_len() && i != node implies {
                &&& #[trigger] self.finished(i) == old(self).finished(i)
                &&& self.run_position(i) == old(self).run_position(i)
                &&& self.pending_of(i) == old(self).pending_of(i)
                    - old(self).successors_of(node as int).to_multiset().count(i as usize)
            } by {
                assert(self.nodes@[i].is_finished() == old(self).nodes@[i].is_finished());
            }
        }
        node
    }

    /// Reports one dependency of `node` as finished, and releases `node` if that was the last
    /// thing it waited for.
    ///
    /// With `from` negative this drops the count of one that `node` holds while it is wired up;
    /// otherwise `from` is the finished job handing out its successors, `rest` those of them not
    /// handed out yet, `node` first.
    fn release(&mut self, node: usize, Ghost(from): Ghost<int>, Ghost(rest): Ghost<Seq<usize>>)
        requires
            from < 0 ==> old(self).inv(node as int, old(self).deps@[node as int].len() as int, -1, Seq::empty())
                && node == old(self).nodes@.len() - 1,
            from >= 0 ==> old(self).inv(-1, 0, from, rest) && rest.len() > 0 && rest[0] == node,
            node < old(self).nodes@.len(),
        ensures
            from < 0 ==> final(self).wf(),
            from >= 0 ==> final(self).inv(-1, 0, from, rest.drop_first()),
            final(self).nodes@.len() == old(self).nodes@.len(),
            final(self).deps == old(self).deps,
            final(self).ran_at == old(self).ran_at,
            final(self).spawned == old(self).spawned,
            final(self).runs == old(self).runs,
            forall|i: int| 0 <= i < final(self).nodes@.len() ==> {
                &&& #[trigger] final(self).nodes@[i].is_finished() == old(self).nodes@[i].is_finished()
                &&& final(self).nodes@[i].successor_list() == old(self).nodes@[i].successor_list()
                &&& i != node ==> final(self).nodes@[i].pending == old(self).nodes@[i].pending
            },
            old(self).nodes@[node as int].pending > 0,
            final(self).nodes@[node as int].pending == old(self).nodes@[node as int].pending - 1,
            final(self).released@ == old(self).released@ + (if final(self).nodes@[node as int].pending == 0 {
                seq![node]
            } else {
                Seq::empty()
            }),
    {
        let ghost n = self.nodes@.len() as int;
        let ghost b = if from < 0 { node as int } else { -1 };
        let ghost k = if from < 0 { self.deps@[node as int].len() as int } else { 0 };
        let ghost old_waiting = self.waiting@;
        proof {
            assert(self.node_ok(node as int, b, k));
            if from >= 0 {
                assert(rest.contains(node));
                assert(self.waiting@[node as int].count(from as usize) == self.outgoing(from, from, rest).count(node as int as usize));
                assert(self.waiting@[node as int].count(from as usize) > 0);
            }
        }
        let pending = self.nodes[node].pending;
        self.nodes[node].pending = pending - 1;
        proof {
            if from >= 0 {
                lemma_remove_present(self.waiting@[node as int], from as usize);
                self.waiting@ = self.waiting@.update(node as int, self.waiting@[node as int].remove(from as usize));
            }
        }
        if pending == 1 {
            self.released.push_back(node);
        }
        proof {
            let rest2 = if from >= 0 { rest.drop_first() } else { Seq::empty() };
            let dd = if from >= 0 { from } else { -1 };
            if from >= 0 {
                assert(rest.remove(0) =~= rest.drop_first());
                assert(rest.remove(0).to_multiset() =~= rest.to_multiset().remove(rest[0]));
                lemma_remove_present(rest.to_multiset(), node);
            }
            if pending == 1 {
                let r = old(self).released@;
                assert(self.released@ == r.push(node));
                if from >= 0 {
                    assert(r.contains((node as int) as usize) <==> old(self).nodes@[node as int].pending == 0
                        && !old(self).nodes@[node as int].is_finished());
                }
                assert(!r.contains(node));
                assert forall|a: int, c: int| 0 <= a < r.len() + 1 && 0 <= c < r.len() + 1 && a != c
                    implies #[trigger] self.released@[a] != #[trigger] self.released@[c] by {
                    if a == r.len() && r[c] == node {
                        assert(r.contains(node));
                    } else if c == r.len() && r[a] == node {
                        assert(r.contains(node));
                    }
                }
            }
            assert forall|i: int| 0 <= i < n implies #[trigger] self.node_ok(i, -1, 0) by {
                assert(old(self).node_ok(i, b, k));
                if i == node as int && from >= 0 {
                    assert forall|v: usize| #[trigger] self.waiting@[i].count(v) > 0 implies v < i by {
                        assert(old_waiting[i].count(v) > 0);
                    }
                }
            }
            assert forall|i: int, e: usize| 0 <= i < n && e < n implies
                #[trigger] self.waiting@[i].count(e) == #[trigger] self.outgoing(e as int, dd, rest2).count(i as usize) by {
                if from >= 0 {
                    assert(old(self).inv(-1, 0, from, rest));
                    assert(0 <= i < old(self).nodes@.len() && e < old(self).nodes@.len());
                    assert(old(self).waiting@[i].count(e) == old(self).outgoing(e as int, from, rest).count(i as usize));
                    if e as int == from {
                        assert(rest2.to_multiset() =~= rest.to_multiset().remove(node));
                        if i != node as int {
                            assert(self.waiting@[i] == old_waiting[i]);
                            assert(self.outgoing(e as int, dd, rest2) == rest2.to_multiset());
                            assert(old(self).outgoing(e as int, from, rest) == rest.to_multiset());
                            assert((i as usize) != node);
                            assert(rest2.to_multiset().count(i as usize) == rest.to_multiset().count(i as usize));
                            assert(self.waiting@[i].count(e) == self.outgoing(e as int, dd, rest2).count(i as usize));
                        } else {
                            assert(self.waiting@[i].count(e) == self.outgoing(e as int, dd, rest2).count(i as usize));
                        }
                    } else {
                        assert(self.nodes@[e as int].successor_list() == old(self).nodes@[e as int].successor_list());
                        if i == node as int {
                            assert(self.waiting@[i].count(e) == old_waiting[i].count(e));
                            assert(self.waiting@[i].count(e) == self.outgoing(e as int, dd, rest2).count(i as usize));
                        } else {
                            assert(self.waiting@[i] == old_waiting[i]);
                            assert(self.waiting@[i].count(e) == self.outgoing(e as int, dd, rest2).count(i as usize));
                        }
                    }
                } else {
                    assert(old(self).waiting@[i].count(e) == old(self).outgoing(e as int, -1, Seq::empty()).count(i as usize));
                    assert(self.nodes@[e as int].successor_list() == old(self).nodes@[e as int].successor_list());
                    assert(self.waiting@[i] == old_waiting[i]);
                    assert(self.waiting@[i].count(e) == self.outgoing(e as int, dd, rest2).count(i as usize));
                }
            }
            assert forall|i: int| 0 <= i < n && i != dd implies (#[trigger] self.released@.contains(i as usize)
                <==> self.nodes@[i].pending == 0 && !self.nodes@[i].is_finished()) by {
                if pending == 1 {
                    vstd::seq_lib::lemma_seq_contains_after_push(old(self).released@, node, i as usize);
                }
                if i == node as int {
                    assert(!old(self).released@.contains(node));
                    assert(!self.nodes@[i].is_finished());
                }
            }
            if from >= 0 && pending == 1 {
                vstd::seq_lib::lemma_seq_contains_after_push(old(self).released@, node, from as usize);
            }
            assert forall|j: int| 0 <= j < rest2.len() implies from < #[trigger] rest2[j] < n by {
                assert(rest2[j] == rest[j + 1]);
            }
        }
    }

    /// Spawns `f` to run once every job in `deps` has finished, and returns its handle.
    ///
    /// Returns at once; nothing waits here. A dependency that has already finished costs no
    /// waiting, and with empty `deps`, or all of them finished, the job is released right away.
    /// The handles only name jobs that already exist, so every edge points back in time and no
    /// cycle can be built.
    #[verifier::spinoff_prover]
    pub fn spawn_after(&mut self, deps: &[&JobHandle], f: J) -> (h: JobHandle)
        requires
            old(self).wf(),
            deps@.len() < usize::MAX,
            forall|j: int| 0 <= j < deps@.len() ==> old(self).owns(*#[trigger] deps@[j]),
        ensures
            final(self).wf(),
            h.index() == old(self).spec_len(),
            final(self).spec_len() == old(self).spec_len() + 1,
            final(self).deps_of(h.index()).len() == deps@.len(),
            forall|j: int| 0 <= j < deps@.len() ==> #[trigger] final(self).deps_of(h.index())[j] == deps@[j].index(),
            !final(self).finished(h.index()),
            final(self).pending_of(h.index()) == old(self).unfinished_among(final(self).deps_of(h.index())),
            final(self).released() == old(self).released() + (if final(self).pending_of(h.index()) == 0 {
                seq![h.index() as usize]
            } else {
                Seq::empty()
            }),
            final(self).runs() == old(self).runs(),
            forall|i: int| 0 <= i < old(self).spec_len() ==> #[trigger] final(self).finished(i) == old(self).finished(i),
            forall|i: int| 0 <= i < old(self).spec_len() ==> #[trigger] final(self).pending_of(i) == old(self).pending_of(i),
            forall|i: int| 0 <= i < old(self).spec_len() ==> #[trigger] final(self).deps_of(i) == old(self).deps_of(i),
            forall|i: int| 0 <= i < old(self).spec_len() ==> #[trigger] final(self).run_position(i) == old(self).run_position(i),
            final(self).work_of(h.index()) == f,
            forall|i: int| 0 <= i < old(self).spec_len() ==> #[trigger] final(self).work_of(i) == old(self).work_of(i),
    {
        let i = self.nodes.len();
        let ghost dep_nodes = Seq::new(deps@.len(), |j: int| deps@[j].index() as usize);
        let ghost work = f;
        self.nodes.push(Node::new(f));
        proof {
            assert(self.nodes@.len() == self.nodes.len());
            self.spawned@ = self.spawned@.push(work);
            self.deps@ = self.deps@.push(dep_nodes);
            self.waiting@ = self.waiting@.push(Multiset::empty());
            self.ran_at@ = self.ran_at@.push(-1);
            let n = self.nodes@.len() as int;
            assert forall|x: int| 0 <= x < n implies #[trigger] self.node_ok(x, i as int, 0) by {
                if x < i {
                    assert(old(self).node_ok(x, -1, 0));
                    assert(self.nodes@[x] == old(self).nodes@[x]);
                }
            }
            assert forall|x: int, e: usize| 0 <= x < n && e < n implies
                #[trigger] self.waiting@[x].count(e) == #[trigger] self.outgoing(e as int, -1, Seq::empty()).count(x as usize) by {
                if x < i && e < i {
                    assert(old(self).waiting@[x].count(e) == old(self).outgoing(e as int, -1, Seq::empty()).count(x as usize));
                } else if e < i {
                    assert(old(self).node_ok(e as int, -1, 0));
                    assert(!self.nodes@[e as int].successor_list().contains(x as usize));
                } else if x < i {
                    assert(old(self).node_ok(x, -1, 0));
                    assert(self.waiting@[x].count(e) == 0);
                }
            }
            assert forall|x: int| 0 <= x < n && x != i implies (#[trigger] self.released@.contains(x as usize)
                <==> self.nodes@[x].pending == 0 && !self.nodes@[x].is_finished()) by {
                assert(old(self).released@.contains(x as usize) == self.released@.contains(x as usize));
            }
            assert(!self.released@.contains(i));
        }
        let mut k: usize = 0;
        while k < deps.len()
            invariant
                self.inv(i as int, k as int, -1, Seq::empty()),
                i == old(self).nodes@.len(),
                self.nodes@.len() == i + 1,
                0 <= k <= deps@.len() < usize::MAX,
                self.deps@ == old(self).deps@.push(dep_nodes),
                dep_nodes.len() == deps@.len(),
                forall|j: int| 0 <= j < deps@.len() ==> #[trigger] dep_nodes[j] == deps@[j].index(),
                forall|j: int| 0 <= j < deps@.len() ==> #[trigger] dep_nodes[j] < i,
                self.ran_at@ == old(self).ran_at@.push(-1),
                self.runs == old(self).runs,
                self.released == old(self).released,
                self.spawned@ == old(self).spawned@.push(work),
                forall|x: int| 0 <= x < i ==> {
                    &&& #[trigger] self.nodes@[x].is_finished() == old(self).nodes@[x].is_finished()
                    &&& self.nodes@[x].pending == old(self).nodes@[x].pending
                },
                self.nodes@[i as int].pending == 1 + old(self).unfinished_among(dep_nodes.take(k as int)),
            decreases deps@.len() - k,
        {
            let d = deps[k].node();
            proof {
                assert(dep_nodes.take(k as int + 1) =~= dep_nodes.take(k as int).push(d));
                assert(dep_nodes.take(k as int + 1).drop_last() =~= dep_nodes.take(k as int));
            }
            self.register(d, i, Ghost(k as int));
            k = k + 1;
        }
        proof {
            assert(dep_nodes.take(k as int) =~= dep_nodes);
        }
        self.release(i, Ghost(-1), Ghost(Seq::empty()));
        proof {
            assert forall|x: int| 0 <= x < old(self).spec_len() implies #[trigger] self.deps_of(x) == old(self).deps_of(x) by {
                assert(self.deps@[x] == old(self).deps@[x]);
            }
            assert forall|x: int| 0 <= x < old(self).spec_len() implies #[trigger] self.run_position(x) == old(self).run_position(x) by {
                assert(self.ran_at@[x] == old(self).ran_at@[x]);
            }
            assert forall|x: int| 0 <= x < old(self).spec_len() implies #[trigger] self.finished(x) == old(self).finished(x) by {
                assert(self.nodes@[x].is_finished() == old(self).nodes@[x].is_finished());
            }
            assert forall|x: int| 0 <= x < old(self).spec_len() implies #[trigger] self.pending_of(x) == old(self).pending_of(x) by {
                assert(self.nodes@[x].is_finished() == old(self).nodes@[x].is_finished());
                assert(self.nodes@[x].pending == old(self).nodes@[x].pending);
            }
        }
        JobHandle::new(i)
    }

    /// Spawns `f` with no dependencies and returns its handle for later jobs to depend on; the
    /// job is released right away.
    pub fn spawn_with_handle(&mut self, f: J) -> (h: JobHandle)
        requires
            old(self).wf(),
        ensures
            final(self).wf(),
            h.index() == old(self).spec_len(),
            final(self).spec_len() == old(self).spec_len() + 1,
            final(self).deps_of(h.index()) == Seq::<usize>::empty(),
            !final(self).finished(h.index()),
            final(self).pending_of(h.index()) == 0,
            final(self).released() == old(self).released().push(h.index() as usize),
            final(self).runs() == old(self).runs(),
            forall|i: int| 0 <= i < old(self).spec_len() ==> #[trigger] final(self).finished(i) == old(self).finished(i),
            forall|i: int| 0 <= i < old(self).spec_len() ==> #[trigger] final(self).pending_of(i) == old(self).pending_of(i),
            forall|i: int| 0 <= i < old(self).spec_len() ==> #[trigger] final(self).deps_of(i) == old(self).deps_of(i),
            forall|i: int| 0 <= i < old(self).spec_len() ==> #[trigger] final(self).run_position(i) == old(self).run_position(i),
            final(self).work_of(h.index()) == f,
            forall|i: int| 0 <= i < old(self).spec_len() ==> #[trigger] final(self).work_of(i) == old(self).work_of(i),
    {
        let h = self.spawn_after(&[], f);
        proof {
            assert(self.deps_of(h.index()) =~= Seq::<usize>::empty());
            assert(self.deps_of(h.index()).take(0) =~= Seq::<usize>::empty());
        }
        h
    }

    /// Number of jobs spawned so far.
    pub fn len(&self) -> (r: usize)
        requires
            self.wf(),
        ensures
            r == self.spec_len(),
    {
        self.nodes.len()
    }

    /// Whether no job has been spawned yet.
    pub fn is_empty(&self) -> (r: bool)
        requires
            self.wf(),
        ensures
            r == (self.spec_len() == 0),
    {
        self.nodes.len() == 0
    }

    /// Whether the job of `h` has run.
    pub fn is_finished(&self, h: &JobHandle) -> (r: bool)
        requires
            self.wf(),
            self.owns(*h),
        ensures
            r == self.finished(h.index()),
    {
        self.nodes[h.node()].successors.is_none()
    }

    /// How many dependencies the job of `h` is still waiting for, counted once per time it
    /// was named.
    pub fn pending(&self, h: &JobHandle) -> (r: usize)
        requires
            self.wf(),
            self.owns(*h),
        ensures
            r == self.pending_of(h.index()),
    {
        self.nodes[h.node()].pending
    }

    /// Number of jobs released and waiting to run.
    pub fn released_len(&self) -> (r: usize)
        requires
            self.wf(),
        ensures
            r == self.released().len(),
    {
        self.released.len()
    }

    /// Runs the oldest released job with `exec`, the way a worker picks up what the pool
    /// received, then releases the jobs for which it was the last dependency. Returns the handle
    /// of the job that ran, or `None` when nothing was released.
    pub fn run_next<F: Fn(J)>(&mut self, exec: &F) -> (r: Option<JobHandle>)
        requires
            old(self).wf(),
            forall|j: J| #[trigger] exec.requires((j,)),
        ensures
            final(self).wf(),
            final(self).spec_len() == old(self).spec_len(),
            forall|i: int| 0 <= i < old(self).spec_len() ==> #[trigger] final(self).deps_of(i) == old(self).deps_of(i),
            forall|i: int| 0 <= i < old(self).spec_len() ==> #[trigger] final(self).work_of(i) == old(self).work_of(i),
            old(self).released().len() == 0 ==> r is None && *final(self) == *old(self),
            old(self).released().len() > 0 ==> ({
                let ran = old(self).released()[0] as int;
                let succ = old(self).successors_of(ran);
                &&& r is Some && r->0.index() == ran
                &&& exec.ensures((old(self).work_of(ran),), ())
                &&& final(self).finished(ran)
                &&& final(self).run_position(ran) == old(self).runs()
                &&& final(self).runs() == old(self).runs() + 1
                &&& forall|i: int| 0 <= i < old(self).spec_len() && i != ran ==> {
                    &&& #[trigger] final(self).finished(i) == old(self).finished(i)
                    &&& final(self).run_position(i) == old(self).run_position(i)
                    &&& final(self).pending_of(i) == old(self).pending_of(i) - succ.to_multiset().count(i as usize)
                }
                &&& final(self).released() == old(self).released().drop_first() + old(self).released_by(succ, succ.len() as int)
            }),
    {
        if self.released.len() == 0 {
            return None;
        }
        let node = self.run(exec);
        Some(JobHandle::new(node))
    }

    /// Runs released jobs with `exec`, oldest first, until none is left: what the end of a
    /// scope waits for. Every job spawned so far has then run, each exactly once and after all
    /// of its dependencies; since every dependency points back to an earlier job, nothing can
    /// be left waiting forever.
    pub fn join<F: Fn(J)>(&mut self, exec: &F)
        requires
            old(self).wf(),
            forall|j: J| #[trigger] exec.requires((j,)),
        ensures
            final(self).wf(),
            final(self).spec_len() == old(self).spec_len(),
            final(self).released().len() == 0,
            forall|i: int| 0 <= i < final(self).spec_len() ==> #[trigger] final(self).finished(i),
            forall|i: int| 0 <= i < old(self).spec_len() ==> #[trigger] final(self).deps_of(i) == old(self).deps_of(i),
            forall|i: int| 0 <= i < old(self).spec_len() && old(self).finished(i)
                ==> #[trigger] final(self).run_position(i) == old(self).run_position(i),
            forall|i: int| 0 <= i < old(self).spec_len() ==> #[trigger] final(self).work_of(i) == old(self).work_of(i),
            forall|i: int| 0 <= i < old(self).spec_len() && !old(self).finished(i)
                ==> exec.ensures((#[trigger] old(self).work_of(i),), ()),
    {
        let ghost n = self.nodes@.len() as int;
        while self.released.len() > 0
            invariant
                self.wf(),
                self.nodes@.len() == n,
                n == old(self).nodes@.len(),
                self.deps == old(self).deps,
                forall|j: J| #[trigger] exec.requires((j,)),
                forall|i: int| 0 <= i < n && old(self).finished(i) ==> #[trigger] self.finished(i)
                    && self.run_position(i) == old(self).run_position(i),
                self.spawned == old(self).spawned,
                forall|i: int| 0 <= i < n && !old(self).finished(i) && #[trigger] self.finished(i)
                    ==> exec.ensures((old(self).work_of(i),), ()),
            decreases self.unfinished_below(n),
        {
            let ghost before = *self;
            let r = self.run(exec);
            proof {
                assert(!before.finished(r as int)) by {
                    assert(before.released@.contains(r));
                    assert(before.released@.contains((r as int) as usize));
                }
                Self::lemma_one_more_finished(&before, &*self, r as int, n);
                assert forall|i: int| 0 <= i < n && old(self).finished(i) implies #[trigger] self.finished(i)
                    && self.run_position(i) == old(self).run_position(i) by {
                    assert(before.finished(i));
                }
                assert forall|i: int| 0 <= i < n && !old(self).finished(i) && #[trigger] self.finished(i)
                    implies exec.ensures((old(self).work_of(i),), ()) by {
                    if i != r as int {
                        assert(before.finished(i));
                    }
                }
            }
        }
        proof {
            self.lemma_quiet_means_finished(n);
            assert forall|i: int| 0 <= i < old(self).spec_len() && !old(self).finished(i)
                implies exec.ensures((#[trigger] old(self).work_of(i),), ()) by {
                assert(self.nodes@[i].is_finished());
                assert(self.finished(i));
            }
            assert forall|i: int| 0 <= i < old(self).spec_len() implies #[trigger] self.deps_of(i) == old(self).deps_of(i) by {
            }
            assert forall|i: int| 0 <= i < old(self).spec_len() && old(self).finished(i)
                implies #[trigger] self.run_position(i) == old(self).run_position(i) by {
                assert(self.finished(i));
            }
        }
    }

    /// The order in which jobs run respects every dependency: a job that has run ran after
    /// each job it was spawned to depend on.
    pub proof fn lemma_dependencies_run_first(&self, i: int, j: int)
        requires
            self.wf(),
            0 <= i < self.spec_len(),
            self.finished(i),
            0 <= j < self.deps_of(i).len(),
        ensures
            0 <= self.deps_of(i)[j] < i,
            self.finished(self.deps_of(i)[j] as int),
            0 <= self.run_position(self.deps_of(i)[j] as int) < self.run_position(i),
    {
        assert(self.node_ok(i, -1, 0));
        assert(self.node_ok(self.deps_of(i)[j] as int, -1, 0));
    }

    /// Every job runs at most once: two different jobs that have run took different places in
    /// the order, and every place is below the number of runs.
    pub proof fn lemma_runs_once(&self, i: int, j: int)
        requires
            self.wf(),
            0 <= i < self.spec_len(),
            0 <= j < self.spec_len(),
            i != j,
            self.finished(i),
            self.finished(j),
        ensures
            self.run_position(i) != self.run_position(j),
            0 <= self.run_position(i) < self.runs(),
    {
        assert(self.node_ok(i, -1, 0));
        assert(self.ran_at@[i] != self.ran_at@[j]);
    }

    /// A job handed out to run has not run yet and every one of its dependencies has already
    /// finished.
    pub proof fn lemma_released_is_ready(&self, k: int)
        requires
            self.wf(),
            0 <= k < self.released().len(),
        ensures
            ({
                let i = self.released()[k] as int;
                &&& 0 <= i < self.spec_len()
                &&& !self.finished(i)
                &&& self.pending_of(i) == 0
                &&& forall|j: int| 0 <= j < self.deps_of(i).len() ==> #[trigger] self.finished(self.deps_of(i)[j] as int)
            }),
    {
        let i = self.released@[k] as int;
        assert(self.released@.contains(i as usize));
        assert(self.node_ok(i, -1, 0));
        assert forall|j: int| 0 <= j < self.deps_of(i).len() implies #[trigger] self.finished(self.deps_of(i)[j] as int) by {
            let d = self.deps@[i][j];
            assert(self.waiting@[i].count(d) <= self.waiting@[i].len());
        }
    }

    /// With nothing released, every job has run: no job can be left waiting forever, since
    /// every dependency points back to an earlier job and no cycle can be built.
    pub proof fn lemma_nothing_released_means_all_ran(&self)
        requires
            self.wf(),
            self.released().len() == 0,
        ensures
            forall|i: int| 0 <= i < self.spec_len() ==> #[trigger] self.finished(i),
    {
        self.lemma_quiet_means_finished(self.nodes@.len() as int);
    }

    /// Makes `dependent` wait for `dep`, unless `dep` has already finished.
    ///
    /// The count goes up in the same step that puts `dependent` on the list that `dep` hands out
    /// when it finishes; that is what tells "finished" apart from "about to finish".
    fn register(&mut self, dep: usize, dependent: usize, Ghost(k): Ghost<int>)
        requires
            old(self).inv(dependent as int, k, -1, Seq::empty()),
            dependent == old(self).nodes@.len() - 1,
            0 <= k < old(self).deps@[dependent as int].len() < usize::MAX,
            old(self).deps@[dependent as int][k] == dep,
        ensures
            final(self).inv(dependent as int, k + 1, -1, Seq::empty()),
            final(self).nodes@.len() == old(self).nodes@.len(),
            final(self).deps == old(self).deps,
            final(self).ran_at == old(self).ran_at,
            final(self).spawned == old(self).spawned,
            final(self).runs == old(self).runs,
            final(self).released == old(self).released,
            forall|i: int| 0 <= i < final(self).nodes@.len() ==> {
                &&& #[trigger] final(self).nodes@[i].is_finished() == old(self).nodes@[i].is_finished()
                &&& i != dependent ==> final(self).nodes@[i].pending == old(self).nodes@[i].pending
            },
            final(self).nodes@[dependent as int].pending == old(self).nodes@[dependent as int].pending
                + (if old(self).nodes@[dep as int].is_finished() { 0int } else { 1 }),
    {
        let ghost n = self.nodes@.len() as int;
        let ghost b = dependent as int;
        proof {
            assert(self.node_ok(b, b, k));
            assert(self.deps@[b][k] < b);
        }
        let succ = self.nodes[dep].successors.take();
        match succ {
            Some(mut list) => {
                let ghost old_list = list@;
                let pending = self.nodes[dependent].pending;
                proof {
                    assert(self.waiting@[b].len() <= k);
                }
                self.nodes[dependent].pending = pending + 1;
                list.push(dependent);
                self.nodes[dep].successors = Some(list);
                proof {
                    self.waiting@ = self.waiting@.update(b, self.waiting@[b].insert(dep));
                    assert(self.nodes@[dep as int].successor_list() == old_list.push(dependent));
                    assert forall|i: int| 0 <= i < n implies #[trigger] self.node_ok(i, b, k + 1) by {
                        assert(old(self).node_ok(i, b, k));
                        if i == dep as int {
                            assert forall|j: int| 0 <= j < self.nodes@[i].successor_list().len()
                                implies i < #[trigger] self.nodes@[i].successor_list()[j] < n by {
                                if j < old_list.len() {
                                    assert(old_list[j] == old(self).nodes@[i].successor_list()[j]);
                                }
                            }
                        }
                    }
                    assert forall|i: int, e: usize| 0 <= i < n && e < n implies
                        #[trigger] self.waiting@[i].count(e) == #[trigger] self.outgoing(e as int, -1, Seq::empty()).count(i as usize) by {
                        assert(old(self).waiting@[i].count(e) == old(self).outgoing(e as int, -1, Seq::empty()).count(i as usize));
                    }

                }
            },
            None => {
                proof {
                    assert(self.nodes@ =~= old(self).nodes@);
                    assert forall|i: int| 0 <= i < n implies #[trigger] self.node_ok(i, b, k + 1) by {
                        assert(old(self).node_ok(i, b, k));
                    }
                    assert forall|i: int, e: usize| 0 <= i < n && e < n implies
                        #[trigger] self.waiting@[i].count(e) == #[trigger] self.outgoing(e as int, -1, Seq::empty()).count(i as usize) by {
                        assert(old(self).waiting@[i].count(e) == old(self).outgoing(e as int, -1, Seq::empty()).count(i as usize));
                    }
                }
            },
        }
    }
}

} // verus!
