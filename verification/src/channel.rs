//! A first-in, first-out channel of messages, and what can be said of the
//! messages still waiting in one.

use crate::count::{
    count_where, lemma_count_bound, lemma_count_drop_first, lemma_count_none, lemma_count_push,
};
use crate::message::Message;
use std::collections::VecDeque;
use vstd::multiset::{lemma_multiset_empty_len, Multiset};
use vstd::prelude::*;
use vstd::seq_lib::{lemma_multiset_commutative, to_multiset_build, to_multiset_len};

verus! {

/// The predicate "is the order to stop".
pub open spec fn is_stop<J>() -> spec_fn(Message<J>) -> bool {
    |m: Message<J>| m is Terminate
}

/// The number of stop orders waiting in `q`.
pub open spec fn terminates<J>(q: Seq<Message<J>>) -> nat {
    count_where(q, is_stop())
}

/// The jobs waiting in `q`, oldest first.
pub open spec fn jobs_of<J>(q: Seq<Message<J>>) -> Seq<J>
    decreases q.len(),
{
    if q.len() == 0 {
        Seq::empty()
    } else {
        match q.last() {
            Message::NewJob(j) => jobs_of(q.drop_last()).push(j),
            Message::Terminate => jobs_of(q.drop_last()),
        }
    }
}

/// `n` stop orders in a row.
pub open spec fn stops<J>(n: nat) -> Seq<Message<J>> {
    Seq::new(n, |i: int| Message::Terminate)
}

/// The jobs `jobs`, each wrapped for sending, in the same order.
pub open spec fn wrap<J>(jobs: Seq<J>) -> Seq<Message<J>> {
    Seq::new(jobs.len(), |i: int| Message::NewJob(jobs[i]))
}

/// Every stop order in `q` stands behind every job: once a receiver meets a
/// stop order, nothing but stop orders is left.
pub open spec fn ordered<J>(q: Seq<Message<J>>) -> bool {
    forall|i: int, j: int| 0 <= i <= j < q.len() && q[i] is Terminate ==> q[j] is Terminate
}

/// What sending one message does to the jobs and stop orders of a queue.
pub proof fn lemma_queue_push<J>(q: Seq<Message<J>>, m: Message<J>)
    ensures
        m matches Message::NewJob(j) ==> jobs_of(q.push(m)) == jobs_of(q).push(j) && terminates(
            q.push(m),
        ) == terminates(q),
        m is Terminate ==> jobs_of(q.push(m)) == jobs_of(q) && terminates(q.push(m)) == terminates(
            q,
        ) + 1,
{
    lemma_count_push(q, is_stop(), m);
    assert(q.push(m).drop_last() =~= q);
}

/// What receiving the oldest message does to the jobs and stop orders of a
/// queue.
pub proof fn lemma_queue_drop_first<J>(q: Seq<Message<J>>)
    requires
        q.len() > 0,
    ensures
        q[0] matches Message::NewJob(j) ==> jobs_of(q) == seq![j] + jobs_of(q.drop_first())
            && terminates(q.drop_first()) == terminates(q),
        q[0] is Terminate ==> jobs_of(q.drop_first()) == jobs_of(q) && terminates(q.drop_first())
            + 1 == terminates(q),
    decreases q.len(),
{
    lemma_count_drop_first(q, is_stop());
    if q.len() == 1 {
        assert(q.drop_first() =~= Seq::<Message<J>>::empty());
        assert(q.drop_last() =~= Seq::<Message<J>>::empty());
        match q[0] {
            Message::NewJob(j) => {
                assert(jobs_of(q) =~= seq![j] + jobs_of(q.drop_first()));
            },
            Message::Terminate => {},
        }
    } else {
        let r = q.drop_last();
        lemma_queue_drop_first(r);
        assert(q.drop_first().drop_last() =~= r.drop_first());
        assert(q.drop_first().last() == q.last());
        match q[0] {
            Message::NewJob(j) => {
                assert(r[0] == q[0]);
                match q.last() {
                    Message::NewJob(k) => {
                        assert(jobs_of(q) =~= seq![j] + jobs_of(q.drop_first()));
                    },
                    Message::Terminate => {},
                }
            },
            Message::Terminate => {
                assert(r[0] == q[0]);
            },
        }
    }
}

/// A queue without stop orders is ordered, and holds jobs only.
pub proof fn lemma_no_stops<J>(q: Seq<Message<J>>)
    ensures
        terminates(q) == 0 <==> forall|i: int| 0 <= i < q.len() ==> #[trigger] q[i] is NewJob,
        terminates(q) == 0 ==> ordered(q),
        terminates(q) <= q.len(),
{
    lemma_count_none(q, is_stop());
    lemma_count_bound(q, is_stop());
    if terminates(q) == 0 {
        assert forall|i: int| 0 <= i < q.len() implies #[trigger] q[i] is NewJob by {
            assert(!is_stop::<J>()(q[i]));
        }
    }
    if forall|i: int| 0 <= i < q.len() ==> #[trigger] q[i] is NewJob {
        assert forall|i: int| 0 <= i < q.len() implies !is_stop::<J>()(#[trigger] q[i]) by {
            assert(q[i] is NewJob);
        }
    }
}

/// In an ordered queue whose oldest message is a stop order, no job is left.
pub proof fn lemma_head_stop<J>(q: Seq<Message<J>>)
    requires
        ordered(q),
        q.len() > 0,
        q[0] is Terminate,
    ensures
        jobs_of(q) == Seq::<J>::empty(),
        terminates(q) == q.len(),
    decreases q.len(),
{
    let r = q.drop_last();
    assert(q.last() is Terminate);
    assert(is_stop::<J>()(q.last()));
    assert(terminates(q) == terminates(r) + 1);
    if q.len() > 1 {
        assert(r[0] == q[0]);
        assert forall|i: int, j: int|
            0 <= i <= j < r.len() && r[i] is Terminate implies r[j] is Terminate by {
            assert(r[i] == q[i] && r[j] == q[j]);
        }
        lemma_head_stop(r);
    } else {
        assert(r =~= Seq::<Message<J>>::empty());
    }
}

/// Sending keeps a queue ordered: a stop order always, a job as long as no
/// stop order has been sent.
pub proof fn lemma_ordered_push<J>(q: Seq<Message<J>>, m: Message<J>)
    requires
        ordered(q),
        m is NewJob ==> terminates(q) == 0,
    ensures
        ordered(q.push(m)),
{
    lemma_no_stops(q);
    let p = q.push(m);
    assert forall|i: int, j: int|
        0 <= i <= j < p.len() && p[i] is Terminate implies p[j] is Terminate by {
        if j < q.len() {
            assert(p[i] == q[i] && p[j] == q[j]);
        } else if i < q.len() {
            assert(p[i] == q[i]);
        }
    }
}

/// Receiving keeps a queue ordered.
pub proof fn lemma_ordered_drop_first<J>(q: Seq<Message<J>>)
    requires
        ordered(q),
        q.len() > 0,
    ensures
        ordered(q.drop_first()),
{
    let r = q.drop_first();
    assert forall|i: int, j: int|
        0 <= i <= j < r.len() && r[i] is Terminate implies r[j] is Terminate by {
        assert(r[i] == q[i + 1] && r[j] == q[j + 1]);
    }
}

/// Sending `n` stop orders leaves the jobs as they are, adds `n` to the stop
/// orders and keeps the queue ordered.
pub proof fn lemma_add_stops<J>(q: Seq<Message<J>>, n: nat)
    ensures
        jobs_of(q + stops(n)) == jobs_of(q),
        terminates(q + stops(n)) == terminates(q) + n,
        ordered(q) ==> ordered(q + stops(n)),
        (q + stops::<J>(n)).len() == q.len() + n,
    decreases n,
{
    if n == 0 {
        assert(q + stops::<J>(0) =~= q);
    } else {
        let m = (n - 1) as nat;
        lemma_add_stops(q, m);
        let r = q + stops::<J>(m);
        assert(q + stops::<J>(n) =~= r.push(Message::Terminate));
        lemma_queue_push(r, Message::Terminate);
        if ordered(q) {
            lemma_ordered_push(r, Message::Terminate);
        }
    }
}

/// An ordered queue is its jobs followed by its stop orders.
pub proof fn lemma_queue_shape<J>(q: Seq<Message<J>>)
    requires
        ordered(q),
    ensures
        q == wrap(jobs_of(q)) + stops(terminates(q)),
    decreases q.len(),
{
    let shape = wrap(jobs_of(q)) + stops(terminates(q));
    if q.len() == 0 {
        assert(q =~= shape);
    } else {
        let r = q.drop_last();
        assert forall|i: int, j: int|
            0 <= i <= j < r.len() && r[i] is Terminate implies r[j] is Terminate by {
            assert(r[i] == q[i] && r[j] == q[j]);
        }
        lemma_queue_shape(r);
        assert(q =~= r.push(q.last()));
        lemma_queue_push(r, q.last());
        match q.last() {
            Message::NewJob(j) => {
                assert forall|i: int| 0 <= i < r.len() implies #[trigger] r[i] is NewJob by {
                    assert(r[i] == q[i]);
                    assert(q[q.len() - 1] is NewJob);
                }
                lemma_no_stops(r);
                assert(q =~= shape);
            },
            Message::Terminate => {
                assert(q =~= shape);
            },
        }
    }
}

/// Sending jobs appends them to the jobs of a queue and adds no stop order.
pub proof fn lemma_add_jobs<J>(q: Seq<Message<J>>, jobs: Seq<J>)
    ensures
        jobs_of(q + wrap(jobs)) == jobs_of(q) + jobs,
        terminates(q + wrap(jobs)) == terminates(q),
    decreases jobs.len(),
{
    if jobs.len() == 0 {
        assert(q + wrap(jobs) =~= q);
        assert(jobs_of(q) + jobs =~= jobs_of(q));
    } else {
        let rest = jobs.drop_last();
        let m = Message::NewJob(jobs.last());
        lemma_add_jobs(q, rest);
        assert(q + wrap(jobs) =~= (q + wrap(rest)).push(m));
        lemma_queue_push(q + wrap(rest), m);
        assert(jobs_of(q) + jobs =~= (jobs_of(q) + rest).push(jobs.last()));
    }
}

/// A queue without jobs is its stop orders.
pub proof fn lemma_only_stops<J>(q: Seq<Message<J>>)
    requires
        jobs_of(q).len() == 0,
    ensures
        q == stops::<J>(q.len()),
        terminates(q) == q.len(),
    decreases q.len(),
{
    if q.len() == 0 {
        assert(q =~= stops::<J>(0));
    } else {
        let r = q.drop_last();
        assert(q =~= r.push(q.last()));
        lemma_queue_push(r, q.last());
        lemma_only_stops(r);
        assert(q =~= stops::<J>(q.len()));
    }
}

/// The jobs waiting in `q`, without their order.
pub open spec fn job_bag<J>(q: Seq<Message<J>>) -> Multiset<J> {
    jobs_of(q).to_multiset()
}

/// What sending and receiving do to the bag of jobs of a queue: a job sent
/// enters it, a job received leaves it, and stop orders never touch it.
pub proof fn lemma_job_bag<J>(q: Seq<Message<J>>)
    ensures
        forall|j: J| #[trigger] job_bag(q.push(Message::NewJob(j))) == job_bag(q).insert(j),
        job_bag(q.push(Message::Terminate)) == job_bag(q),
        forall|n: nat| #[trigger] job_bag(q + stops(n)) == job_bag(q),
        q.len() > 0 ==> (q[0] matches Message::NewJob(j) ==> job_bag(q) == job_bag(
            q.drop_first(),
        ).insert(j)),
        q.len() > 0 && q[0] is Terminate ==> job_bag(q) == job_bag(q.drop_first()),
        jobs_of(q).len() == 0 ==> job_bag(q) == Multiset::<J>::empty(),
{
    assert forall|j: J| #[trigger] job_bag(q.push(Message::NewJob(j))) == job_bag(q).insert(j) by {
        lemma_queue_push(q, Message::NewJob(j));
        to_multiset_build(jobs_of(q), j);
    }
    lemma_queue_push(q, Message::Terminate);
    assert forall|n: nat| #[trigger] job_bag(q + stops(n)) == job_bag(q) by {
        lemma_add_stops(q, n);
    }
    if q.len() > 0 {
        lemma_queue_drop_first(q);
        if let Message::NewJob(j) = q[0] {
            let rest = jobs_of(q.drop_first());
            lemma_multiset_commutative(seq![j], rest);
            to_multiset_build(Seq::<J>::empty(), j);
            assert(seq![j] =~= Seq::<J>::empty().push(j));
            lemma_empty_bag::<J>(Seq::empty());
            assert(job_bag(q) =~= job_bag(q.drop_first()).insert(j));
        }
    }
    if jobs_of(q).len() == 0 {
        lemma_empty_bag(jobs_of(q));
    }
}

/// A sequence of no items has the empty bag.
pub proof fn lemma_empty_bag<J>(s: Seq<J>)
    requires
        s.len() == 0,
    ensures
        s.to_multiset() == Multiset::<J>::empty(),
{
    to_multiset_len(s);
    lemma_multiset_empty_len(s.to_multiset());
}

/// The sending and receiving ends of one queue of messages. Messages leave in
/// the order in which they were sent.
pub struct Channel<J> {
    items: VecDeque<Message<J>>,
}

impl<J> View for Channel<J> {
    type V = Seq<Message<J>>;

    /// The messages sent and not yet received, oldest first.
    closed spec fn view(&self) -> Seq<Message<J>> {
        self.items@
    }
}

impl<J> Channel<J> {
    /// A channel with nothing in it.
    pub fn new() -> (c: Channel<J>)
        ensures
            c@ == Seq::<Message<J>>::empty(),
    {
        Channel { items: VecDeque::new() }
    }

    /// Appends `m` behind everything sent before.
    pub fn send(&mut self, m: Message<J>)
        ensures
            final(self)@ == old(self)@.push(m),
    {
        self.items.push_back(m);
    }

    /// Appends `n` stop orders behind everything sent before: one for each of
    /// `n` receiving threads.
    pub fn send_stops(&mut self, n: usize)
        ensures
            final(self)@ == old(self)@ + stops(n as nat),
    {
        let mut i: usize = 0;
        assert(self@ =~= old(self)@ + stops(0));
        while i < n
            invariant
                i <= n,
                self@ == old(self)@ + stops(i as nat),
            decreases n - i,
        {
            self.items.push_back(Message::Terminate);
            i += 1;
            assert(self@ =~= old(self)@ + stops(i as nat));
        }
    }

    /// Takes the oldest message, or returns `None` where a receiver would
    /// have to wait.
    pub fn recv(&mut self) -> (r: Option<Message<J>>)
        ensures
            old(self)@.len() == 0 ==> r is None && final(self)@ == old(self)@,
            old(self)@.len() > 0 ==> r == Some(old(self)@[0]) && final(self)@ == old(
                self,
            )@.drop_first(),
    {
        self.items.pop_front()
    }

    /// The number of messages waiting.
    pub fn len(&self) -> (n: usize)
        ensures
            n == self@.len(),
    {
        self.items.len()
    }

    /// Whether no message is waiting.
    pub fn is_empty(&self) -> (b: bool)
        ensures
            b == (self@.len() == 0),
    {
        self.items.len() == 0
    }
}

} // verus!
