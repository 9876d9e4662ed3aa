use vstd::prelude::*;

use crate::error::{CLIPSError, CLIPSResult};

verus! {

/// What callers hand the environment's worker: an operation, or the request
/// to shut down.
pub enum Request<T> {
    Command(T),
    Close,
}

/// What the worker is to do next.
pub enum Step<T> {
    /// Nothing is queued: wait for a request.
    Idle,
    /// Run this command and answer its ticket.
    Execute { ticket: u64, command: T },
    /// Shut down: answer the close request's ticket, and answer every ticket
    /// in `failed`, still queued behind it, with `ThreadExited`.
    Stop { ticket: u64, failed: Vec<u64> },
}

/// The ordered channel between the callers of an environment and its worker.
/// Each request gets a ticket, the tickets are taken in the order they were
/// given, and each ticket is answered once: by the worker, or, once the
/// worker has shut down, as failed.
pub struct CommandQueue<T> {
    queue: Vec<(u64, Request<T>)>,
    next_ticket: u64,
    open: bool,
    answered: Ghost<Seq<int>>,
}

impl<T> CommandQueue<T> {
    /// The tickets waiting, in order.
    pub closed spec fn pending(&self) -> Seq<int> {
        Seq::new(self.queue@.len(), |i: int| self.queue@[i].0 as int)
    }

    /// The tickets answered so far, in the order they were answered.
    pub closed spec fn answered(&self) -> Seq<int> {
        self.answered@
    }

    /// How many tickets were given.
    pub closed spec fn issued(&self) -> nat {
        self.next_ticket as nat
    }

    /// Whether the worker still takes requests.
    pub closed spec fn is_open(&self) -> bool {
        self.open
    }

    /// The answered tickets, then the waiting ones, are all the tickets given,
    /// in the order they were given; once shut down, nothing waits.
    pub closed spec fn wf(&self) -> bool {
        &&& self.answered@ + self.pending() == Seq::new(self.next_ticket as nat, |i: int| i)
        &&& !self.open ==> self.queue@.len() == 0
    }

    pub fn new() -> (r: CommandQueue<T>)
        ensures
            r.wf(),
            r.is_open(),
            r.issued() == 0,
            r.answered() == Seq::<int>::empty(),
            r.pending() == Seq::<int>::empty(),
    {
        let r = CommandQueue { queue: Vec::new(), next_ticket: 0, open: true, answered: Ghost(Seq::empty()) };
        assert(r.answered@ + r.pending() =~= Seq::new(0, |i: int| i));
        r
    }

    /// How many tickets were given.
    pub fn issued_count(&self) -> (r: u64)
        ensures
            r as nat == self.issued(),
    {
        self.next_ticket
    }

    /// Queues a request behind all earlier ones and gives its ticket; once the
    /// worker has shut down, fails with `ThreadExited` and queues nothing.
    pub fn submit(&mut self, request: Request<T>) -> (r: CLIPSResult<u64>)
        requires
            old(self).wf(),
            old(self).issued() < u64::MAX,
        ensures
            final(self).wf(),
            final(self).is_open() == old(self).is_open(),
            final(self).answered() == old(self).answered(),
            old(self).is_open() ==> r == Ok::<u64, CLIPSError>(old(self).issued() as u64)
                && final(self).pending() == old(self).pending().push(old(self).issued() as int)
                && final(self).issued() == old(self).issued() + 1,
            !old(self).is_open() ==> r == Err::<u64, CLIPSError>(CLIPSError::ThreadExited)
                && final(self).pending() == old(self).pending()
                && final(self).issued() == old(self).issued(),
    {
        if !self.open {
            return Err(CLIPSError::ThreadExited);
        }
        let t = self.next_ticket;
        let ghost p = self.pending();
        let ghost a = self.answered@;
        assert(a + p == Seq::new(t as nat, |i: int| i));
        assert((a + p).len() == t);
        self.queue.push((t, request));
        self.next_ticket = t + 1;
        proof {
            assert(self.pending() =~= p.push(t as int));
            assert(self.answered@ == a);
            assert forall|k: int| 0 <= k < t + 1 implies (a + p.push(t as int))[k] == k by {
                if k < t {
                    assert((a + p.push(t as int))[k] == (a + p)[k]);
                }
            }
            assert(self.answered@ + self.pending() =~= Seq::new(self.next_ticket as nat, |i: int| i));
        }
        Ok(t)
    }

    /// The worker's next step: the oldest request is taken. A command is to be
    /// run; a close request shuts the worker down, and everything queued
    /// behind it fails.
    pub fn take(&mut self) -> (r: Step<T>)
        requires
            old(self).wf(),
        ensures
            final(self).wf(),
            final(self).issued() == old(self).issued(),
            old(self).pending().len() == 0 ==> r is Idle && final(self).answered() == old(self).answered()
                && final(self).is_open() == old(self).is_open(),
            old(self).pending().len() > 0 ==> match r {
                Step::Execute { ticket, command } => ticket as int == old(self).pending()[0]
                    && final(self).pending() == old(self).pending().drop_first()
                    && final(self).answered() == old(self).answered().push(ticket as int)
                    && final(self).is_open(),
                Step::Stop { ticket, failed } => ticket as int == old(self).pending()[0]
                    && Seq::new(failed@.len(), |i: int| failed@[i] as int) == old(self).pending().drop_first()
                    && final(self).pending() == Seq::<int>::empty()
                    && final(self).answered() == old(self).answered() + old(self).pending()
                    && !final(self).is_open(),
                Step::Idle => false,
            },
    {
        if self.queue.len() == 0 {
            return Step::Idle;
        }
        let ghost p = self.pending();
        let ghost a = self.answered@;
        let (ticket, request) = self.queue.remove(0);
        assert(self.pending() =~= p.drop_first());
        match request {
            Request::Command(command) => {
                self.answered = Ghost(a.push(ticket as int));
                proof {
                    assert(a.push(ticket as int) + p.drop_first() =~= a + p);
                }
                Step::Execute { ticket, command }
            },
            Request::Close => {
                let mut failed: Vec<u64> = Vec::new();
                let mut i: usize = 0;
                while i < self.queue.len()
                    invariant
                        0 <= i <= self.queue@.len(),
                        p.len() >= 1,
                        failed@.len() == i,
                        self.pending() == p.drop_first(),
                        Seq::new(failed@.len(), |k: int| failed@[k] as int) == p.drop_first().take(i as int),
                    decreases self.queue@.len() - i,
                {
                    assert(self.queue@[i as int].0 as int == self.pending()[i as int]);
                    let ghost fb = failed@;
                    failed.push(self.queue[i].0);
                    proof {
                        assert forall|k: int| 0 <= k < i + 1 implies #[trigger] failed@[k] as int == p.drop_first().take(i + 1)[k] by {
                            if k < i {
                                assert(failed@[k] == fb[k]);
                                assert(Seq::new(fb.len(), |k: int| fb[k] as int)[k] == p.drop_first().take(i as int)[k]);
                            }
                        }
                    }
                    assert(Seq::new(failed@.len(), |k: int| failed@[k] as int) =~= p.drop_first().take(i + 1));
                    i = i + 1;
                }
                assert(Seq::new(failed@.len(), |k: int| failed@[k] as int) =~= p.drop_first());
                self.queue.clear();
                self.open = false;
                self.answered = Ghost(a + p);
                proof {
                    assert(self.pending() =~= Seq::<int>::empty());
                    assert(a + p + self.pending() =~= a + p);
                }
                Step::Stop { ticket, failed }
            },
        }
    }
}

/// The worker answers in the order of submission: the `i`-th answer is for the
/// `i`-th request, so no request is answered twice, and every request is
/// answered before any later one.
pub proof fn lemma_answers_in_order<T>(q: CommandQueue<T>)
    requires
        q.wf(),
    ensures
        forall|i: int| 0 <= i < q.answered().len() ==> q.answered()[i] == i,
        q.answered().len() + q.pending().len() == q.issued(),
{
    assert(q.answered() + q.pending() == Seq::new(q.issued(), |i: int| i));
    assert((q.answered() + q.pending()).len() == q.issued());
    assert forall|i: int| 0 <= i < q.answered().len() implies q.answered()[i] == i by {
        assert((q.answered() + q.pending())[i] == q.answered()[i]);
    }
}

/// Once the worker has shut down, every request ever submitted has been
/// answered, exactly once: each either ran or failed.
pub proof fn lemma_closed_answers_all<T>(q: CommandQueue<T>)
    requires
        q.wf(),
        !q.is_open(),
    ensures
        q.pending().len() == 0,
        q.answered().len() == q.issued(),
        forall|i: int| 0 <= i < q.issued() ==> q.answered()[i] == i,
{
    assert(q.answered() + q.pending() =~= q.answered());
}

} // verus!
