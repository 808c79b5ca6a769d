use vstd::prelude::*;
use std::collections::VecDeque;

verus! {

broadcast use vstd::seq_lib::lemma_seq_contains_after_push;

/// Hands out piece indices to sessions, at most one session per piece at a time.
///
/// `available` is the queue of pieces waiting for a session; `in_progress` holds the
/// pieces currently assigned. Callers that share a queue between tasks guard it with
/// one lock, so that each operation is one critical section.
#[derive(Debug)]
pub struct PieceQueue {
    available: VecDeque<u32>,
    in_progress: Vec<u32>,
}

/// Model of the scheduler: the waiting queue and the set of assigned pieces.
pub struct QueueModel {
    pub available: Seq<u32>,
    pub in_flight: Set<u32>,
}

impl View for PieceQueue {
    type V = QueueModel;

    closed spec fn view(&self) -> QueueModel {
        queue_model(self.available@, self.in_progress@)
    }
}

/// The model of a waiting queue and a list of assigned pieces.
pub open spec fn queue_model(available: Seq<u32>, held: Seq<u32>) -> QueueModel {
    QueueModel { available, in_flight: Set::new(|p: u32| held.contains(p)) }
}

/// What `take` returns, and the queue left behind: pieces at the front that are already
/// assigned are dropped, and the first one that is not is handed out.
pub open spec fn take_spec(avail: Seq<u32>, busy: Set<u32>) -> (Option<u32>, Seq<u32>)
    decreases avail.len(),
{
    if avail.len() == 0 {
        (None, avail)
    } else if busy.contains(avail[0]) {
        take_spec(avail.drop_first(), busy)
    } else {
        (Some(avail[0]), avail.drop_first())
    }
}

/// `take` hands out only pieces that were waiting and that no session holds.
pub proof fn lemma_take_not_in_flight(avail: Seq<u32>, busy: Set<u32>)
    ensures
        take_spec(avail, busy).0 matches Some(p) ==> !busy.contains(p) && avail.contains(p),
        take_spec(avail, busy).0 is None ==> forall|i: int|
            0 <= i < avail.len() ==> busy.contains(#[trigger] avail[i]),
    decreases avail.len(),
{
    if avail.len() > 0 {
        if busy.contains(avail[0]) {
            lemma_take_not_in_flight(avail.drop_first(), busy);
            if let Some(p) = take_spec(avail, busy).0 {
                let i = choose|i: int| 0 <= i < avail.drop_first().len() && avail.drop_first()[i] == p;
                assert(avail[i + 1] == p);
            }
            assert forall|i: int| 0 < i < avail.len() implies avail[i] == avail.drop_first()[i
                - 1] by {}
        }
    }
}

/// Two `take` calls with no `complete` or `requeue` between them never hand out the same
/// piece.
pub proof fn lemma_take_exclusive(q: QueueModel)
    ensures
        ({
            let (first, rest) = take_spec(q.available, q.in_flight);
            first matches Some(p) ==> take_spec(rest, q.in_flight.insert(p)).0 != Some(p)
        }),
{
    let (first, rest) = take_spec(q.available, q.in_flight);
    if let Some(p) = first {
        lemma_take_not_in_flight(rest, q.in_flight.insert(p));
    }
}

fn holds(v: &Vec<u32>, p: u32) -> (r: bool)
    ensures
        r == v@.contains(p),
{
    let mut i: usize = 0;
    while i < v.len()
        invariant
            i <= v.len(),
            forall|j: int| 0 <= j < i ==> v@[j] != p,
        decreases v.len() - i,
    {
        if v[i] == p {
            return true;
        }
        i += 1;
    }
    false
}

fn without(v: &Vec<u32>, p: u32) -> (r: Vec<u32>)
    ensures
        forall|x: u32| r@.contains(x) <==> v@.contains(x) && x != p,
{
    let mut out: Vec<u32> = Vec::new();
    let mut i: usize = 0;
    while i < v.len()
        invariant
            i <= v.len(),
            forall|x: u32| out@.contains(x) <==> v@.take(i as int).contains(x) && x != p,
        decreases v.len() - i,
    {
        if v[i] != p {
            out.push(v[i]);
        }
        assert(v@.take(i + 1) =~= v@.take(i as int).push(v@[i as int]));
        i += 1;
    }
    assert(v@.take(i as int) =~= v@);
    out
}

impl QueueModel {
    /// No piece waits twice, and no waiting piece is assigned.
    pub open spec fn wf(self) -> bool {
        &&& self.available.no_duplicates()
        &&& forall|i: int|
            0 <= i < self.available.len() ==> !self.in_flight.contains(#[trigger] self.available[i])
    }
}

/// The queue after a session holding `p` gives it up: an assigned piece goes back to the
/// waiting queue; otherwise nothing changes.
pub open spec fn released(q: QueueModel, p: u32) -> QueueModel {
    if q.in_flight.contains(p) {
        QueueModel { available: q.available.push(p), in_flight: q.in_flight.remove(p) }
    } else {
        q
    }
}

/// What `n` successive `take` calls return.
pub open spec fn takes(avail: Seq<u32>, busy: Set<u32>, n: nat) -> Seq<Option<u32>>
    decreases n,
{
    if n == 0 {
        Seq::empty()
    } else {
        let (first, rest) = take_spec(avail, busy);
        let busy2 = match first {
            Some(p) => busy.insert(p),
            None => busy,
        };
        seq![first] + takes(rest, busy2, (n - 1) as nat)
    }
}

proof fn lemma_takes_fresh(avail: Seq<u32>, busy: Set<u32>, n: nat)
    ensures
        takes(avail, busy, n).len() == n,
        forall|i: int|
            0 <= i < n ==> (#[trigger] takes(avail, busy, n)[i] matches Some(p) ==> !busy.contains(
                p,
            )),
        forall|i: int, j: int|
            #![trigger takes(avail, busy, n)[i], takes(avail, busy, n)[j]]
            0 <= i < j < n ==> (takes(avail, busy, n)[i] matches Some(p) ==> takes(
                avail,
                busy,
                n,
            )[j] != Some(p)),
    decreases n,
{
    if n > 0 {
        let (first, rest) = take_spec(avail, busy);
        let busy2 = match first {
            Some(p) => busy.insert(p),
            None => busy,
        };
        lemma_take_not_in_flight(avail, busy);
        lemma_takes_fresh(rest, busy2, (n - 1) as nat);
        let t = takes(avail, busy, n);
        let u = takes(rest, busy2, (n - 1) as nat);
        assert(t == seq![first] + u);
        assert forall|i: int| 0 < i < n implies #[trigger] t[i] == u[i - 1] by {}
    }
}

/// However many `take` calls follow one another with no `complete` or `requeue` between
/// them, none hands out a piece that another of them, or any session before them, holds.
pub proof fn lemma_takes_distinct(q: QueueModel, n: nat)
    ensures
        forall|i: int|
            0 <= i < n ==> (#[trigger] takes(q.available, q.in_flight, n)[i] matches Some(p)
                ==> !q.in_flight.contains(p)),
        forall|i: int, j: int|
            #![trigger takes(q.available, q.in_flight, n)[i], takes(q.available, q.in_flight, n)[j]]
            0 <= i < j < n ==> (takes(q.available, q.in_flight, n)[i] matches Some(p) ==> takes(
                q.available,
                q.in_flight,
                n,
            )[j] != Some(p)),
{
    lemma_takes_fresh(q.available, q.in_flight, n);
}

fn take_next(avail: &mut VecDeque<u32>, held: &mut Vec<u32>) -> (r: Option<u32>)
    requires
        queue_model(old(avail)@, old(held)@).wf(),
    ensures
        ({
            let o = queue_model(old(avail)@, old(held)@);
            let f = queue_model(final(avail)@, final(held)@);
            &&& (r, f.available) == take_spec(o.available, o.in_flight)
            &&& f.in_flight == match r {
                Some(p) => o.in_flight.insert(p),
                None => o.in_flight,
            }
            &&& (r matches Some(p) ==> !f.available.contains(p) && !o.in_flight.contains(p))
            &&& f.wf()
        }),
{
    let ghost busy = queue_model(old(avail)@, old(held)@).in_flight;
    proof {
        lemma_take_not_in_flight(old(avail)@, busy);
    }
    loop
        invariant
            busy == queue_model(avail@, held@).in_flight,
            held@ == old(held)@,
            take_spec(old(avail)@, busy) == take_spec(avail@, busy),
            queue_model(avail@, held@).wf(),
        decreases avail@.len(),
    {
        let ghost before = avail@;
        match avail.pop_front() {
            None => {
                return None;
            },
            Some(p) => {
                proof {
                    assert(avail@ =~= before.drop_first());
                    assert forall|i: int| 0 <= i < avail@.len() implies avail@[i] != p by {
                        assert(before[i + 1] == avail@[i]);
                        assert(before[0] == p);
                    }
                    assert forall|i: int, j: int|
                        0 <= i < j < avail@.len() implies avail@[i] != avail@[j] by {
                        assert(before[i + 1] == avail@[i]);
                        assert(before[j + 1] == avail@[j]);
                    }
                    assert forall|i: int| 0 <= i < avail@.len() implies !busy.contains(
                        #[trigger] avail@[i],
                    ) by {
                        assert(before[i + 1] == avail@[i]);
                    }
                }
                if !holds(held, p) {
                    held.push(p);
                    assert(queue_model(avail@, held@).in_flight =~= busy.insert(p));
                    return Some(p);
                }
            },
        }
    }
}

impl PieceQueue {
    #[verifier::type_invariant]
    spec fn partition(self) -> bool {
        self@.wf()
    }

    /// A queue whose waiting pieces are `available`, in that order, with none assigned.
    pub fn new(available: VecDeque<u32>) -> (r: PieceQueue)
        requires
            available@.no_duplicates(),
        ensures
            r@.available == available@,
            r@.in_flight == Set::<u32>::empty(),
            r@.wf(),
    {
        let r = PieceQueue { available, in_progress: Vec::new() };
        assert(r@.in_flight =~= Set::<u32>::empty());
        r
    }

    /// A queue holding pieces `0..n` in order, none assigned.
    pub fn for_pieces(n: u32) -> (r: PieceQueue)
        ensures
            r@.available == Seq::new(n as nat, |i: int| i as u32),
            r@.in_flight == Set::<u32>::empty(),
            r@.wf(),
    {
        let mut available: VecDeque<u32> = VecDeque::new();
        let mut i: u32 = 0;
        while i < n
            invariant
                i <= n,
                available@ == Seq::new(i as nat, |k: int| k as u32),
            decreases n - i,
        {
            available.push_back(i);
            assert(available@ =~= Seq::new((i + 1) as nat, |k: int| k as u32));
            i += 1;
        }
        PieceQueue::new(available)
    }

    /// Takes the next waiting piece that no session holds and marks it assigned; it no
    /// longer waits.
    pub fn get_next_piece(&mut self) -> (r: Option<u32>)
        ensures
            (r, final(self)@.available) == take_spec(old(self)@.available, old(self)@.in_flight),
            final(self)@.in_flight == match r {
                Some(p) => old(self)@.in_flight.insert(p),
                None => old(self)@.in_flight,
            },
            r matches Some(p) ==> !final(self)@.available.contains(p) && !old(
                self,
            )@.in_flight.contains(p),
            final(self)@.wf(),
    {
        proof {
            use_type_invariant(&*self);
        }
        let mut avail: VecDeque<u32> = VecDeque::new();
        std::mem::swap(&mut avail, &mut self.available);
        let mut held: Vec<u32> = Vec::new();
        std::mem::swap(&mut held, &mut self.in_progress);
        let r = take_next(&mut avail, &mut held);
        std::mem::swap(&mut held, &mut self.in_progress);
        std::mem::swap(&mut avail, &mut self.available);
        r
    }

    /// Tells whether a session holds `piece`.
    pub fn is_in_flight(&self, piece: u32) -> (r: bool)
        ensures
            r == self@.in_flight.contains(piece),
    {
        holds(&self.in_progress, piece)
    }

    /// The piece was verified and written: it is no longer assigned.
    pub fn mark_piece_complete(&mut self, piece: u32)
        ensures
            final(self)@.available == old(self)@.available,
            final(self)@.in_flight == old(self)@.in_flight.remove(piece),
            final(self)@.wf(),
    {
        proof {
            use_type_invariant(&*self);
        }
        let mut held: Vec<u32> = Vec::new();
        std::mem::swap(&mut held, &mut self.in_progress);
        let mut rest = without(&held, piece);
        std::mem::swap(&mut rest, &mut self.in_progress);
        assert(self@.in_flight =~= old(self)@.in_flight.remove(piece));
    }

    /// The assigned piece failed: it is no longer assigned and waits again at the back.
    pub fn requeue_piece(&mut self, piece: u32)
        requires
            old(self)@.in_flight.contains(piece),
        ensures
            final(self)@.available == old(self)@.available.push(piece),
            final(self)@.in_flight == old(self)@.in_flight.remove(piece),
            final(self)@.wf(),
    {
        proof {
            use_type_invariant(&*self);
        }
        let mut avail: VecDeque<u32> = VecDeque::new();
        std::mem::swap(&mut avail, &mut self.available);
        let mut held: Vec<u32> = Vec::new();
        std::mem::swap(&mut held, &mut self.in_progress);
        let mut rest = without(&held, piece);
        let ghost before = avail@;
        avail.push_back(piece);
        proof {
            let q = queue_model(avail@, rest@);
            assert(q.in_flight =~= old(self)@.in_flight.remove(piece));
            assert forall|i: int| 0 <= i < before.len() implies before[i] != piece by {}
            assert forall|i: int, j: int|
                0 <= i < j < avail@.len() implies avail@[i] != avail@[j] by {
                if j == before.len() {
                    assert(avail@[i] == before[i]);
                }
            }
            assert(q.wf());
        }
        std::mem::swap(&mut rest, &mut self.in_progress);
        std::mem::swap(&mut avail, &mut self.available);
    }

    /// A session holding `piece` ended in failure: the piece, if assigned, waits again.
    pub fn release_piece(&mut self, piece: u32)
        ensures
            final(self)@ == released(old(self)@, piece),
            final(self)@.wf(),
    {
        proof {
            use_type_invariant(&*self);
        }
        if self.is_in_flight(piece) {
            self.requeue_piece(piece);
        }
    }

    /// No piece waits and none is assigned: the download is over.
    pub fn is_finished(&self) -> (r: bool)
        ensures
            r == (self@.available.len() == 0 && self@.in_flight =~= Set::<u32>::empty()),
    {
        let r = self.available.len() == 0 && self.in_progress.len() == 0;
        proof {
            if self.in_progress@.len() > 0 {
                assert(self@.in_flight.contains(self.in_progress@[0]));
            } else {
                assert(self@.in_flight =~= Set::<u32>::empty());
            }
        }
        r
    }
}

} // verus!
