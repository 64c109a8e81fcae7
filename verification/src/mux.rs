//! The multiplexer's routing state: one duplex transport shared by
//! many outstanding exchanges.
//!
//! A correlation id names each exchange.  A serial exchange waits for
//! exactly one response in a slot; a queue exchange receives a bounded
//! stream of responses, ended by an end-of-stream marker when the peer
//! closes or by the queue itself closing when the multiplexer is
//! dropped.  This module is the state machine alone: every transition
//! — registering, routing a frame, waking, timing out, cancelling,
//! terminating — is a verified function from state to state, and
//! outstanding correlation ids are proved unique throughout.  The
//! asynchronous loop that feeds it lives outside the library.

use vstd::prelude::*;

verus! {

/// The default wait, in seconds, before a serial exchange times out.
pub const DEFAULT_SOCKET_WAIT_SECS: u64 = 10;

/// The ghost shape of one waiter.
pub ghost enum WaiterV {
    /// One response is awaited: a slot, and whether the notifier fired.
    /// A woken waiter with an empty slot means the connection closed.
    Serial { slot: Option<Seq<u8>>, woken: bool },
    /// A stream of responses: queued items (`None` marks end of
    /// stream from the peer), the queue's bound, and whether each end
    /// of the queue is still open.
    Queue {
        pending: Seq<Option<Seq<u8>>>,
        capacity: nat,
        receiver_open: bool,
        sender_open: bool,
    },
}

/// One waiter: either a serial slot or a bounded queue.
enum WaiterState {
    Serial { slot: Option<Vec<u8>>, woken: bool },
    Queue {
        pending: Vec<Option<Vec<u8>>>,
        capacity: usize,
        receiver_open: bool,
        sender_open: bool,
    },
}

/// One registered exchange: its correlation id and its waiter.
struct Entry {
    id: i32,
    state: WaiterState,
}

/// The ghost shape of the multiplexer state.
pub ghost struct MuxV {
    pub next_id: int,
    pub entries: Seq<(i32, WaiterV)>,
    pub terminated: bool,
}

spec fn view_of_waiter(w: WaiterState) -> WaiterV {
    match w {
        WaiterState::Serial { slot, woken } => WaiterV::Serial {
            slot: match slot {
                None => None,
                Some(b) => Some(b@),
            },
            woken,
        },
        WaiterState::Queue { pending, capacity, receiver_open, sender_open } => WaiterV::Queue {
            pending: pending@.map_values(
                |it: Option<Vec<u8>>|
                    match it {
                        None => None,
                        Some(b) => Some(b@),
                    },
            ),
            capacity: capacity as nat,
            receiver_open,
            sender_open,
        },
    }
}

/// The multiplexer's shared routing state: a monotonic correlation-id
/// counter and the map from outstanding id to waiter.
pub struct Multiplexer {
    next_id: i32,
    entries: Vec<Entry>,
    terminated: bool,
}

impl View for Multiplexer {
    type V = MuxV;

    closed spec fn view(&self) -> MuxV {
        MuxV {
            next_id: self.next_id as int,
            entries: self.entries@.map_values(|e: Entry| (e.id, view_of_waiter(e.state))),
            terminated: self.terminated,
        }
    }
}

/// Whether some entry carries the given correlation id.
pub open spec fn has_id(es: Seq<(i32, WaiterV)>, id: i32) -> bool {
    exists|i: int| 0 <= i < es.len() && es[i].0 == id
}

/// The index of the entry carrying the given id.
pub open spec fn idx_of(es: Seq<(i32, WaiterV)>, id: i32) -> int {
    choose|i: int| 0 <= i < es.len() && es[i].0 == id
}

/// The waiter registered under the given id.
pub open spec fn lookup(es: Seq<(i32, WaiterV)>, id: i32) -> WaiterV {
    es[idx_of(es, id)].1
}

/// The structural invariant: outstanding correlation ids are unique,
/// and every outstanding id was allocated — at least one and below
/// the counter.
pub open spec fn mux_wf(m: MuxV) -> bool {
    &&& 1 <= m.next_id <= i32::MAX
    &&& forall|i: int, j: int|
        0 <= i < j < m.entries.len() ==> (#[trigger] m.entries[i]).0 != (#[trigger] m.entries[j]).0
    &&& forall|i: int|
        0 <= i < m.entries.len() ==> 1 <= (#[trigger] m.entries[i]).0 < m.next_id
}

/// The entries that survive a sweep: serial waiters, and queue
/// waiters both of whose ends are still open.
pub open spec fn sweep(es: Seq<(i32, WaiterV)>) -> Seq<(i32, WaiterV)>
    decreases es.len(),
{
    if es.len() == 0 {
        Seq::empty()
    } else if queue_alive(es[0].1) {
        seq![es[0]] + sweep(es.skip(1))
    } else {
        sweep(es.skip(1))
    }
}

/// A queue waiter that can still carry traffic: both ends open.
pub open spec fn queue_alive(w: WaiterV) -> bool {
    match w {
        WaiterV::Serial { .. } => true,
        WaiterV::Queue { receiver_open, sender_open, .. } => receiver_open && sender_open,
    }
}

impl Multiplexer {
    /// The structural invariant, available to callers.
    pub open spec fn inv(&self) -> bool {
        mux_wf(self@)
    }

    /// A fresh multiplexer: no outstanding exchange, correlation ids
    /// start at one (zero is reserved for unsolicited messages).
    pub fn new() -> (r: Multiplexer)
        ensures
            r.inv(),
            r@.next_id == 1,
            r@.entries == Seq::<(i32, WaiterV)>::empty(),
            !r@.terminated,
    {
        let m = Multiplexer { next_id: 1, entries: Vec::new(), terminated: false };
        proof {
            assert(m@.entries =~= Seq::<(i32, WaiterV)>::empty());
        }
        m
    }

    /// Whether another correlation id can still be allocated: the
    /// 32-bit counter has not reached its ceiling.
    pub fn can_allocate(&self) -> (r: bool)
        ensures
            r == (self@.next_id < i32::MAX),
    {
        self.next_id < i32::MAX
    }

    /// The index of the entry holding `id`, if any.
    fn find(&self, id: i32) -> (r: Option<usize>)
        ensures
            match r {
                Some(i) => i < self@.entries.len() && self@.entries[i as int].0 == id,
                None => !has_id(self@.entries, id),
            },
    {
        let mut i: usize = 0;
        while i < self.entries.len()
            invariant
                i <= self.entries.len(),
                self@.entries.len() == self.entries.len(),
                forall|j: int| 0 <= j < i ==> (#[trigger] self@.entries[j]).0 != id,
                forall|j: int|
                    0 <= j < self.entries.len() ==> (#[trigger] self@.entries[j]).0
                        == self.entries@[j].id,
            decreases self.entries.len() - i,
        {
            if self.entries[i].id == id {
                return Some(i);
            }
            i = i + 1;
        }
        None
    }

    /// Allocates the next correlation id and registers a serial
    /// waiter under it, before any frame is written: a response can
    /// never arrive ahead of its waiter.
    pub fn open_serial(&mut self) -> (id: i32)
        requires
            old(self).inv(),
            old(self)@.next_id < i32::MAX,
        ensures
            final(self).inv(),
            id == old(self)@.next_id,
            !has_id(old(self)@.entries, id),
            final(self)@.next_id == old(self)@.next_id + 1,
            final(self)@.entries == old(self)@.entries.push(
                (id, WaiterV::Serial { slot: None, woken: false }),
            ),
            final(self)@.terminated == old(self)@.terminated,
            has_id(final(self)@.entries, id),
            lookup(final(self)@.entries, id) == (WaiterV::Serial { slot: None, woken: false }),
    {
        let id = self.next_id;
        self.next_id = self.next_id + 1;
        self.entries.push(Entry { id, state: WaiterState::Serial { slot: None, woken: false } });
        proof {
            assert(final(self)@.entries =~= old(self)@.entries.push(
                (id, WaiterV::Serial { slot: None, woken: false }),
            ));
            let es = final(self)@.entries;
            assert(es[es.len() - 1].0 == id);
            lemma_lookup_unique(es, id, es.len() - 1);
        }
        id
    }
}

/// Under unique ids, looking up an id found at index `i` yields that
/// entry's waiter.
pub proof fn lemma_lookup_unique(es: Seq<(i32, WaiterV)>, id: i32, i: int)
    requires
        0 <= i < es.len(),
        es[i].0 == id,
        forall|a: int, b: int|
            0 <= a < b < es.len() ==> (#[trigger] es[a]).0 != (#[trigger] es[b]).0,
    ensures
        has_id(es, id),
        idx_of(es, id) == i,
        lookup(es, id) == es[i].1,
{
    assert(has_id(es, id));
    let j = idx_of(es, id);
    if j != i {
        if j < i {
            assert(es[j].0 != es[i].0);
        } else {
            assert(es[i].0 != es[j].0);
        }
    }
}


/// What routing one frame did.
pub enum DispatchOutcome {
    /// The frame reached its waiter: a serial slot was filled and its
    /// notifier fired, or a queue accepted the frame.
    Delivered,
    /// The queue is full; the frame is handed back so the dispatcher
    /// can wait for room — backpressure reaches the peer through the
    /// transport.
    Full(Vec<u8>),
    /// No waiter could take the frame: the id is unknown (late frame
    /// after a timeout or cancellation), the serial slot was already
    /// filled, or the queue is closed.  The frame is discarded.
    Dropped,
}

/// What a serial caller finds on waking.
pub enum SerialOutcome {
    /// The response bytes the dispatcher left in the slot.
    Response(Vec<u8>),
    /// Woken without bytes: the connection closed.
    Closed,
    /// No serial waiter is registered under that id.
    Missing,
}

/// What one poll of a stream handle observes.
pub enum StreamPoll {
    /// The next response frame, in the peer's emission order.
    Frame(Vec<u8>),
    /// The peer closed while the exchange was open.
    Closed,
    /// The queue ended: the multiplexer was dropped or the stream
    /// terminated; no further item will ever arrive.
    Ended,
    /// Nothing queued yet; poll again later.
    Pending,
    /// No queue waiter is registered under that id.
    Missing,
}

/// The entry after the read half reached end of file: every open
/// queue receives the end-of-stream marker.
pub open spec fn eof_step(e: (i32, WaiterV)) -> (i32, WaiterV) {
    match e.1 {
        WaiterV::Queue { pending, capacity, receiver_open, sender_open } => if sender_open {
            (
                e.0,
                WaiterV::Queue {
                    pending: pending.push(None),
                    capacity,
                    receiver_open,
                    sender_open,
                },
            )
        } else {
            e
        },
        WaiterV::Serial { .. } => e,
    }
}

/// The entry after the multiplexer terminates: every queue's sender
/// side closes.
pub open spec fn term_step(e: (i32, WaiterV)) -> (i32, WaiterV) {
    match e.1 {
        WaiterV::Queue { pending, capacity, receiver_open, sender_open } => (
            e.0,
            WaiterV::Queue { pending, capacity, receiver_open, sender_open: false },
        ),
        WaiterV::Serial { .. } => e,
    }
}

impl Multiplexer {
    /// Allocates the next correlation id and registers a queue waiter
    /// of the given capacity.  Queue waiters whose ends have closed —
    /// dropped stream handles — are swept out first.
    pub fn open_queue(&mut self, capacity: usize) -> (id: i32)
        requires
            old(self).inv(),
            old(self)@.next_id < i32::MAX,
        ensures
            final(self).inv(),
            id == old(self)@.next_id,
            !has_id(old(self)@.entries, id),
            final(self)@.next_id == old(self)@.next_id + 1,
            final(self)@.entries == sweep(old(self)@.entries).push(
                (
                    id,
                    WaiterV::Queue {
                        pending: Seq::empty(),
                        capacity: capacity as nat,
                        receiver_open: true,
                        sender_open: true,
                    },
                ),
            ),
            final(self)@.terminated == old(self)@.terminated,
            has_id(final(self)@.entries, id),
            lookup(final(self)@.entries, id) == (WaiterV::Queue {
                pending: Seq::<Option<Seq<u8>>>::empty(),
                capacity: capacity as nat,
                receiver_open: true,
                sender_open: true,
            }),
    {
        let ghost es0 = self@.entries;
        let mut i: usize = 0;
        let ghost mut k: int = 0;
        while i < self.entries.len()
            invariant
                0 <= k <= es0.len(),
                i == sweep(es0.take(k)).len(),
                i <= self.entries.len(),
                self@.entries =~= sweep(es0.take(k)) + es0.skip(k),
                self@.entries.len() == self.entries@.len(),
                i + es0.len() - k == self.entries.len(),
                es0 == old(self)@.entries,
                self@.next_id == old(self)@.next_id,
                self@.terminated == old(self)@.terminated,
            decreases es0.len() - k,
        {
            proof {
                assert(es0.skip(k)[0] == es0[k]);
                assert(self@.entries[i as int] == es0[k]);
                assert(self@.entries[i as int] == self.entries@.map_values(
                    |e: Entry| (e.id, view_of_waiter(e.state)),
                )[i as int]);
            }
            let alive: bool = match &self.entries[i].state {
                WaiterState::Serial { .. } => true,
                WaiterState::Queue { receiver_open, sender_open, .. } => *receiver_open
                    && *sender_open,
            };
            proof {
                assert(alive == queue_alive(es0[k].1));
                assert(es0.take(k + 1) =~= es0.take(k).push(es0[k]));
                lemma_sweep_push(es0.take(k), es0[k]);
            }
            if alive {
                i = i + 1;
                proof {
                    assert(sweep(es0.take(k)).push(es0[k]) + es0.skip(k + 1) =~= sweep(
                        es0.take(k),
                    ) + es0.skip(k));
                    k = k + 1;
                }
            } else {
                let ghost pre = self@.entries;
                self.entries.remove(i);
                proof {
                    assert(self@.entries =~= pre.remove(i as int));
                    assert(pre.remove(i as int) =~= sweep(es0.take(k + 1)) + es0.skip(k + 1));
                    k = k + 1;
                }
            }
        }
        proof {
            assert(es0.take(es0.len() as int) =~= es0);
            assert(es0.skip(es0.len() as int) =~= Seq::<(i32, WaiterV)>::empty());
            assert(self@.entries =~= sweep(es0));
        }
        let id = self.next_id;
        self.next_id = self.next_id + 1;
        let pending0: Vec<Option<Vec<u8>>> = Vec::new();
        proof {
            assert(pending0@.map_values(
                |it: Option<Vec<u8>>|
                    match it {
                        None => None,
                        Some(b) => Some(b@),
                    },
            ) =~= Seq::<Option<Seq<u8>>>::empty());
        }
        self.entries.push(
            Entry {
                id,
                state: WaiterState::Queue {
                    pending: pending0,
                    capacity,
                    receiver_open: true,
                    sender_open: true,
                },
            },
        );
        proof {
            let fes = sweep(es0);
            assert(final(self)@.entries =~= fes.push(
                (
                    id,
                    WaiterV::Queue {
                        pending: Seq::<Option<Seq<u8>>>::empty(),
                        capacity: capacity as nat,
                        receiver_open: true,
                        sender_open: true,
                    },
                ),
            ));
            // Every swept survivor is one of the old entries, so its id
            // stays unique and below the counter.
            lemma_sweep_elements(es0);
            assert forall|a: int| 0 <= a < fes.len() implies 1 <= (#[trigger] fes[a]).0
                < old(self)@.next_id by {
                assert(es0.contains(fes[a]));
                let b = choose|b: int| 0 <= b < es0.len() && es0[b] == fes[a];
                assert(1 <= es0[b].0 < old(self)@.next_id);
            };
            lemma_sweep_unique_ids(es0);
            let es = final(self)@.entries;
            assert(es[es.len() - 1].0 == id);
            lemma_lookup_unique(es, id, es.len() - 1);
        }
        id
    }
}

/// Sweeping splits over a push.
pub proof fn lemma_sweep_push(es: Seq<(i32, WaiterV)>, e: (i32, WaiterV))
    ensures
        sweep(es.push(e)) == if queue_alive(e.1) {
            sweep(es).push(e)
        } else {
            sweep(es)
        },
    decreases es.len(),
{
    if es.len() == 0 {
        reveal_with_fuel(sweep, 3);
        assert(es.push(e)[0] == e);
        assert(es.push(e).skip(1) =~= Seq::<(i32, WaiterV)>::empty());
        if queue_alive(e.1) {
            assert(sweep(es.push(e)) =~= sweep(es).push(e));
        }
    } else {
        assert(es.push(e)[0] == es[0]);
        assert(es.push(e).skip(1) =~= es.skip(1).push(e));
        lemma_sweep_push(es.skip(1), e);
        if queue_alive(es[0].1) {
            if queue_alive(e.1) {
                assert(seq![es[0]] + sweep(es.skip(1)).push(e) =~= (seq![es[0]] + sweep(
                    es.skip(1),
                )).push(e));
            }
        }
    }
}

/// Every swept survivor is one of the original entries.
pub proof fn lemma_sweep_elements(es: Seq<(i32, WaiterV)>)
    ensures
        forall|a: int| 0 <= a < sweep(es).len() ==> es.contains(#[trigger] sweep(es)[a]),
    decreases es.len(),
{
    if es.len() > 0 {
        lemma_sweep_elements(es.skip(1));
        let out = sweep(es);
        assert forall|a: int| 0 <= a < out.len() implies es.contains(#[trigger] out[a]) by {
            if queue_alive(es[0].1) {
                if a == 0 {
                    assert(out[0] == es[0]);
                } else {
                    assert(out[a] == sweep(es.skip(1))[a - 1]);
                    assert(es.skip(1).contains(sweep(es.skip(1))[a - 1]));
                    let b = choose|b: int|
                        0 <= b < es.skip(1).len() && es.skip(1)[b] == sweep(es.skip(1))[a - 1];
                    assert(es[b + 1] == es.skip(1)[b]);
                }
            } else {
                assert(out[a] == sweep(es.skip(1))[a]);
                assert(es.skip(1).contains(sweep(es.skip(1))[a]));
                let b = choose|b: int|
                    0 <= b < es.skip(1).len() && es.skip(1)[b] == sweep(es.skip(1))[a];
                assert(es[b + 1] == es.skip(1)[b]);
            }
        };
    }
}

/// Sweeping keeps distinct ids distinct, provided the original
/// sequence had unique ids.
pub proof fn lemma_sweep_unique_ids(es: Seq<(i32, WaiterV)>)
    requires
        forall|a: int, b: int|
            0 <= a < b < es.len() ==> (#[trigger] es[a]).0 != (#[trigger] es[b]).0,
    ensures
        forall|a: int, b: int|
            0 <= a < b < sweep(es).len() ==> (#[trigger] sweep(es)[a]).0 != (#[trigger] sweep(
                es,
            )[b]).0,
    decreases es.len(),
{
    if es.len() > 0 {
        assert(forall|a: int, b: int|
            0 <= a < b < es.skip(1).len() ==> (#[trigger] es.skip(1)[a]).0 != (#[trigger] es.skip(
                1,
            )[b]).0);
        lemma_sweep_unique_ids(es.skip(1));
        lemma_sweep_elements(es.skip(1));
        let out = sweep(es);
        if queue_alive(es[0].1) {
            assert forall|a: int, b: int| 0 <= a < b < out.len() implies (#[trigger] out[a]).0
                != (#[trigger] out[b]).0 by {
                if a == 0 {
                    assert(out[b] == sweep(es.skip(1))[b - 1]);
                    assert(es.skip(1).contains(sweep(es.skip(1))[b - 1]));
                    let c = choose|c: int|
                        0 <= c < es.skip(1).len() && es.skip(1)[c] == sweep(es.skip(1))[b - 1];
                    assert(es[c + 1] == es.skip(1)[c]);
                    assert(es[0].0 != es[c + 1].0);
                } else {
                    assert(out[a] == sweep(es.skip(1))[a - 1]);
                    assert(out[b] == sweep(es.skip(1))[b - 1]);
                }
            };
        }
    }
}


impl Multiplexer {
    /// Routes one response frame to the waiter registered under its
    /// correlation id.  A serial slot is filled once and only once; a
    /// queue accepts the frame if it has room and hands it back when
    /// full; anything else drops the frame without touching any other
    /// exchange.
    pub fn dispatch(&mut self, id: i32, frame: Vec<u8>) -> (r: DispatchOutcome)
        requires
            old(self).inv(),
        ensures
            final(self).inv(),
            final(self)@.next_id == old(self)@.next_id,
            final(self)@.terminated == old(self)@.terminated,
            !has_id(old(self)@.entries, id) ==> r is Dropped && final(self)@ == old(self)@,
            has_id(old(self)@.entries, id) ==> {
                let w = lookup(old(self)@.entries, id);
                let i = idx_of(old(self)@.entries, id);
                match w {
                    WaiterV::Serial { slot, woken } => if woken {
                        r is Dropped && final(self)@ == old(self)@
                    } else {
                        r is Delivered && final(self)@.entries == old(self)@.entries.update(
                            i,
                            (id, WaiterV::Serial { slot: Some(frame@), woken: true }),
                        )
                    },
                    WaiterV::Queue { pending, capacity, receiver_open, sender_open } => if
                    receiver_open && sender_open {
                        if pending.len() < capacity {
                            r is Delivered && final(self)@.entries == old(self)@.entries.update(
                                i,
                                (
                                    id,
                                    WaiterV::Queue {
                                        pending: pending.push(Some(frame@)),
                                        capacity,
                                        receiver_open,
                                        sender_open,
                                    },
                                ),
                            )
                        } else {
                            (r matches DispatchOutcome::Full(f) && f@ == frame@) && final(self)@
                                == old(self)@
                        }
                    } else {
                        r is Dropped && final(self)@ == old(self)@
                    },
                }
            },
    {
        let i = match self.find(id) {
            Some(i) => i,
            None => {
                return DispatchOutcome::Dropped;
            },
        };
        proof {
            lemma_lookup_unique(self@.entries, id, i as int);
        }
        let ghost pre = self@.entries;
        let entry = self.entries.remove(i);
        match entry.state {
            WaiterState::Serial { slot, woken } => {
                if woken {
                    self.entries.insert(i, Entry { id, state: WaiterState::Serial { slot, woken } });
                    proof {
                        assert(final(self)@.entries =~= pre);
                    }
                    DispatchOutcome::Dropped
                } else {
                    self.entries.insert(
                        i,
                        Entry {
                            id,
                            state: WaiterState::Serial { slot: Some(frame), woken: true },
                        },
                    );
                    proof {
                        assert(final(self)@.entries =~= pre.update(
                            i as int,
                            (id, WaiterV::Serial { slot: Some(frame@), woken: true }),
                        ));
                        lemma_wf_update(pre, i as int, old(self)@.next_id);
                    }
                    DispatchOutcome::Delivered
                }
            },
            WaiterState::Queue { pending, capacity, receiver_open, sender_open } => {
                if receiver_open && sender_open && pending.len() < capacity {
                    let mut pending = pending;
                    let ghost pv = pending@.map_values(
                        |it: Option<Vec<u8>>|
                            match it {
                                None => None,
                                Some(b) => Some(b@),
                            },
                    );
                    pending.push(Some(frame));
                    proof {
                        assert(pending@.map_values(
                            |it: Option<Vec<u8>>|
                                match it {
                                    None => None,
                                    Some(b) => Some(b@),
                                },
                        ) =~= pv.push(Some(frame@)));
                    }
                    self.entries.insert(
                        i,
                        Entry {
                            id,
                            state: WaiterState::Queue {
                                pending,
                                capacity,
                                receiver_open,
                                sender_open,
                            },
                        },
                    );
                    proof {
                        assert(final(self)@.entries =~= pre.update(
                            i as int,
                            (
                                id,
                                WaiterV::Queue {
                                    pending: pv.push(Some(frame@)),
                                    capacity: capacity as nat,
                                    receiver_open,
                                    sender_open,
                                },
                            ),
                        ));
                        lemma_wf_update(pre, i as int, old(self)@.next_id);
                    }
                    DispatchOutcome::Delivered
                } else {
                    let open = receiver_open && sender_open;
                    self.entries.insert(
                        i,
                        Entry {
                            id,
                            state: WaiterState::Queue {
                                pending,
                                capacity,
                                receiver_open,
                                sender_open,
                            },
                        },
                    );
                    proof {
                        assert(final(self)@.entries =~= pre);
                    }
                    if open {
                        DispatchOutcome::Full(frame)
                    } else {
                        DispatchOutcome::Dropped
                    }
                }
            },
        }
    }

    /// Removes the serial waiter under `id` and reads its slot: the
    /// caller's wake-up, timeout and cancellation all end here, and a
    /// response arriving afterwards finds no waiter and is dropped.
    pub fn take_serial(&mut self, id: i32) -> (r: SerialOutcome)
        requires
            old(self).inv(),
        ensures
            final(self).inv(),
            final(self)@.next_id == old(self)@.next_id,
            final(self)@.terminated == old(self)@.terminated,
            !has_id(old(self)@.entries, id) ==> r is Missing && final(self)@ == old(self)@,
            has_id(old(self)@.entries, id) ==> {
                let w = lookup(old(self)@.entries, id);
                let i = idx_of(old(self)@.entries, id);
                match w {
                    WaiterV::Serial { slot, woken } => {
                        &&& final(self)@.entries == old(self)@.entries.remove(i)
                        &&& !has_id(final(self)@.entries, id)
                        &&& match slot {
                            Some(b) => r matches SerialOutcome::Response(x) && x@ == b,
                            None => r is Closed,
                        }
                    },
                    WaiterV::Queue { .. } => r is Missing && final(self)@ == old(self)@,
                }
            },
    {
        let i = match self.find(id) {
            Some(i) => i,
            None => {
                return SerialOutcome::Missing;
            },
        };
        proof {
            lemma_lookup_unique(self@.entries, id, i as int);
        }
        let ghost pre = self@.entries;
        let entry = self.entries.remove(i);
        match entry.state {
            WaiterState::Serial { slot, woken } => {
                proof {
                    assert(final(self)@.entries =~= pre.remove(i as int));
                    lemma_wf_remove(pre, i as int, old(self)@.next_id);
                    lemma_remove_erases_id(pre, i as int, id);
                }
                match slot {
                    Some(b) => SerialOutcome::Response(b),
                    None => SerialOutcome::Closed,
                }
            },
            WaiterState::Queue { pending, capacity, receiver_open, sender_open } => {
                self.entries.insert(
                    i,
                    Entry {
                        id,
                        state: WaiterState::Queue { pending, capacity, receiver_open, sender_open },
                    },
                );
                proof {
                    assert(final(self)@.entries =~= pre);
                }
                SerialOutcome::Missing
            },
        }
    }

    /// One poll of a stream handle: the next queued item in the
    /// peer's emission order, end-of-stream once the queue has closed,
    /// or nothing yet.
    pub fn pop_stream(&mut self, id: i32) -> (r: StreamPoll)
        requires
            old(self).inv(),
        ensures
            final(self).inv(),
            final(self)@.next_id == old(self)@.next_id,
            final(self)@.terminated == old(self)@.terminated,
            !has_id(old(self)@.entries, id) ==> r is Missing && final(self)@ == old(self)@,
            has_id(old(self)@.entries, id) ==> {
                let w = lookup(old(self)@.entries, id);
                let i = idx_of(old(self)@.entries, id);
                match w {
                    WaiterV::Serial { .. } => r is Missing && final(self)@ == old(self)@,
                    WaiterV::Queue { pending, capacity, receiver_open, sender_open } => if pending
                        .len() > 0 {
                        &&& final(self)@.entries == old(self)@.entries.update(
                            i,
                            (
                                id,
                                WaiterV::Queue {
                                    pending: pending.skip(1),
                                    capacity,
                                    receiver_open,
                                    sender_open,
                                },
                            ),
                        )
                        &&& match pending[0] {
                            Some(f) => r matches StreamPoll::Frame(x) && x@ == f,
                            None => r is Closed,
                        }
                    } else if !sender_open {
                        r is Ended && final(self)@ == old(self)@
                    } else {
                        r is Pending && final(self)@ == old(self)@
                    },
                }
            },
    {
        let i = match self.find(id) {
            Some(i) => i,
            None => {
                return StreamPoll::Missing;
            },
        };
        proof {
            lemma_lookup_unique(self@.entries, id, i as int);
        }
        let ghost pre = self@.entries;
        let entry = self.entries.remove(i);
        match entry.state {
            WaiterState::Serial { slot, woken } => {
                self.entries.insert(i, Entry { id, state: WaiterState::Serial { slot, woken } });
                proof {
                    assert(final(self)@.entries =~= pre);
                }
                StreamPoll::Missing
            },
            WaiterState::Queue { pending, capacity, receiver_open, sender_open } => {
                if pending.len() > 0 {
                    let mut pending = pending;
                    let ghost pv = pending@.map_values(
                        |it: Option<Vec<u8>>|
                            match it {
                                None => None,
                                Some(b) => Some(b@),
                            },
                    );
                    let head = pending.remove(0);
                    proof {
                        assert(pending@.map_values(
                            |it: Option<Vec<u8>>|
                                match it {
                                    None => None,
                                    Some(b) => Some(b@),
                                },
                        ) =~= pv.skip(1));
                    }
                    self.entries.insert(
                        i,
                        Entry {
                            id,
                            state: WaiterState::Queue {
                                pending,
                                capacity,
                                receiver_open,
                                sender_open,
                            },
                        },
                    );
                    proof {
                        assert(final(self)@.entries =~= pre.update(
                            i as int,
                            (
                                id,
                                WaiterV::Queue {
                                    pending: pv.skip(1),
                                    capacity: capacity as nat,
                                    receiver_open,
                                    sender_open,
                                },
                            ),
                        ));
                        lemma_wf_update(pre, i as int, old(self)@.next_id);
                    }
                    match head {
                        Some(f) => StreamPoll::Frame(f),
                        None => StreamPoll::Closed,
                    }
                } else {
                    let ended = !sender_open;
                    self.entries.insert(
                        i,
                        Entry {
                            id,
                            state: WaiterState::Queue {
                                pending,
                                capacity,
                                receiver_open,
                                sender_open,
                            },
                        },
                    );
                    proof {
                        assert(final(self)@.entries =~= pre);
                    }
                    if ended {
                        StreamPoll::Ended
                    } else {
                        StreamPoll::Pending
                    }
                }
            },
        }
    }

    /// Marks the stream handle under `id` dropped: its receiver
    /// closes, and the next sweep removes the waiter.
    pub fn close_stream(&mut self, id: i32)
        requires
            old(self).inv(),
        ensures
            final(self).inv(),
            final(self)@.next_id == old(self)@.next_id,
            final(self)@.terminated == old(self)@.terminated,
            !has_id(old(self)@.entries, id) ==> final(self)@ == old(self)@,
            has_id(old(self)@.entries, id) ==> {
                let w = lookup(old(self)@.entries, id);
                let i = idx_of(old(self)@.entries, id);
                match w {
                    WaiterV::Serial { .. } => final(self)@ == old(self)@,
                    WaiterV::Queue { pending, capacity, receiver_open, sender_open } => final(self)@.entries
                        == old(self)@.entries.update(
                        i,
                        (
                            id,
                            WaiterV::Queue {
                                pending,
                                capacity,
                                receiver_open: false,
                                sender_open,
                            },
                        ),
                    ),
                }
            },
    {
        let i = match self.find(id) {
            Some(i) => i,
            None => {
                return ;
            },
        };
        proof {
            lemma_lookup_unique(self@.entries, id, i as int);
        }
        let ghost pre = self@.entries;
        let entry = self.entries.remove(i);
        match entry.state {
            WaiterState::Serial { slot, woken } => {
                self.entries.insert(i, Entry { id, state: WaiterState::Serial { slot, woken } });
                proof {
                    assert(final(self)@.entries =~= pre);
                }
            },
            WaiterState::Queue { pending, capacity, receiver_open, sender_open } => {
                self.entries.insert(
                    i,
                    Entry {
                        id,
                        state: WaiterState::Queue {
                            pending,
                            capacity,
                            receiver_open: false,
                            sender_open,
                        },
                    },
                );
                proof {
                    assert(final(self)@.entries =~= pre.update(
                        i as int,
                        (
                            id,
                            WaiterV::Queue {
                                pending: pending@.map_values(
                                    |it: Option<Vec<u8>>|
                                        match it {
                                            None => None,
                                            Some(b) => Some(b@),
                                        },
                                ),
                                capacity: capacity as nat,
                                receiver_open: false,
                                sender_open,
                            },
                        ),
                    ));
                    lemma_wf_update(pre, i as int, old(self)@.next_id);
                }
            },
        }
    }

    /// The read half reached end of file: every open queue receives
    /// the end-of-stream marker, so each stream handle observes that
    /// the peer closed.
    pub fn dispatch_eof(&mut self)
        requires
            old(self).inv(),
        ensures
            final(self).inv(),
            final(self)@.next_id == old(self)@.next_id,
            final(self)@.terminated == old(self)@.terminated,
            final(self)@.entries.len() == old(self)@.entries.len(),
            forall|i: int|
                0 <= i < old(self)@.entries.len() ==> final(self)@.entries[i] == eof_step(
                    #[trigger] old(self)@.entries[i],
                ),
    {
        let ghost es0 = self@.entries;
        let mut i: usize = 0;
        while i < self.entries.len()
            invariant
                old(self).inv(),
                i <= self.entries.len(),
                self@.entries.len() == es0.len(),
                self@.entries.len() == self.entries@.len(),
                es0 == old(self)@.entries,
                self@.next_id == old(self)@.next_id,
                self@.terminated == old(self)@.terminated,
                forall|j: int| 0 <= j < i ==> self@.entries[j] == eof_step(#[trigger] es0[j]),
                forall|j: int| i <= j < es0.len() ==> self@.entries[j] == es0[j],
            decreases self.entries.len() - i,
        {
            let ghost pre = self@.entries;
            let entry = self.entries.remove(i);
            match entry.state {
                WaiterState::Serial { slot, woken } => {
                    self.entries.insert(
                        i,
                        Entry { id: entry.id, state: WaiterState::Serial { slot, woken } },
                    );
                    proof {
                        assert(self@.entries =~= pre);
                    }
                },
                WaiterState::Queue { pending, capacity, receiver_open, sender_open } => {
                    let mut pending = pending;
                    let ghost pv = pending@.map_values(
                        |it: Option<Vec<u8>>|
                            match it {
                                None => None,
                                Some(b) => Some(b@),
                            },
                    );
                    if sender_open {
                        pending.push(None);
                        proof {
                            assert(pending@.map_values(
                                |it: Option<Vec<u8>>|
                                    match it {
                                        None => None,
                                        Some(b) => Some(b@),
                                    },
                            ) =~= pv.push(None));
                        }
                    }
                    self.entries.insert(
                        i,
                        Entry {
                            id: entry.id,
                            state: WaiterState::Queue {
                                pending,
                                capacity,
                                receiver_open,
                                sender_open,
                            },
                        },
                    );
                    proof {
                        if sender_open {
                            assert(self@.entries =~= pre.update(
                                i as int,
                                eof_step(pre[i as int]),
                            ));
                        } else {
                            assert(self@.entries =~= pre);
                        }
                    }
                },
            }
            proof {
                assert(self@.entries[i as int] == eof_step(es0[i as int]));
            }
            i = i + 1;
        }
        proof {
            lemma_wf_same_ids(es0, final(self)@.entries, old(self)@.next_id);
        }
    }

    /// The multiplexer is going away: every queue's sender side
    /// closes, so each stream ends once its queued items are drained,
    /// and the state accepts no further traffic for those ids.
    pub fn terminate(&mut self)
        requires
            old(self).inv(),
        ensures
            final(self).inv(),
            final(self)@.next_id == old(self)@.next_id,
            final(self)@.terminated,
            final(self)@.entries.len() == old(self)@.entries.len(),
            forall|i: int|
                0 <= i < old(self)@.entries.len() ==> final(self)@.entries[i] == term_step(
                    #[trigger] old(self)@.entries[i],
                ),
    {
        let ghost es0 = self@.entries;
        let mut i: usize = 0;
        while i < self.entries.len()
            invariant
                old(self).inv(),
                i <= self.entries.len(),
                self@.entries.len() == es0.len(),
                self@.entries.len() == self.entries@.len(),
                es0 == old(self)@.entries,
                self@.next_id == old(self)@.next_id,
                self@.terminated == old(self)@.terminated,
                forall|j: int| 0 <= j < i ==> self@.entries[j] == term_step(#[trigger] es0[j]),
                forall|j: int| i <= j < es0.len() ==> self@.entries[j] == es0[j],
            decreases self.entries.len() - i,
        {
            let ghost pre = self@.entries;
            let entry = self.entries.remove(i);
            match entry.state {
                WaiterState::Serial { slot, woken } => {
                    self.entries.insert(
                        i,
                        Entry { id: entry.id, state: WaiterState::Serial { slot, woken } },
                    );
                    proof {
                        assert(self@.entries =~= pre);
                    }
                },
                WaiterState::Queue { pending, capacity, receiver_open, sender_open } => {
                    self.entries.insert(
                        i,
                        Entry {
                            id: entry.id,
                            state: WaiterState::Queue {
                                pending,
                                capacity,
                                receiver_open,
                                sender_open: false,
                            },
                        },
                    );
                    proof {
                        assert(self@.entries =~= pre.update(i as int, term_step(pre[i as int])));
                    }
                },
            }
            proof {
                assert(self@.entries[i as int] == term_step(es0[i as int]));
            }
            i = i + 1;
        }
        self.terminated = true;
        proof {
            lemma_wf_same_ids(es0, final(self)@.entries, old(self)@.next_id);
        }
    }
}

/// Updating an entry in place with the same id keeps the invariant's
/// id facts.
proof fn lemma_wf_update(es: Seq<(i32, WaiterV)>, i: int, next_id: int)
    requires
        0 <= i < es.len(),
        forall|a: int, b: int|
            0 <= a < b < es.len() ==> (#[trigger] es[a]).0 != (#[trigger] es[b]).0,
        forall|a: int| 0 <= a < es.len() ==> 1 <= (#[trigger] es[a]).0 < next_id,
    ensures
        forall|w: WaiterV, a: int, b: int|
            0 <= a < b < es.len() ==> (#[trigger] es.update(i, (es[i].0, w))[a]).0 != (
            #[trigger] es.update(i, (es[i].0, w))[b]).0,
        forall|w: WaiterV, a: int|
            0 <= a < es.len() ==> 1 <= (#[trigger] es.update(i, (es[i].0, w))[a]).0 < next_id,
{
}

/// Removing an entry keeps the invariant's id facts.
proof fn lemma_wf_remove(es: Seq<(i32, WaiterV)>, i: int, next_id: int)
    requires
        0 <= i < es.len(),
        forall|a: int, b: int|
            0 <= a < b < es.len() ==> (#[trigger] es[a]).0 != (#[trigger] es[b]).0,
        forall|a: int| 0 <= a < es.len() ==> 1 <= (#[trigger] es[a]).0 < next_id,
    ensures
        forall|a: int, b: int|
            0 <= a < b < es.remove(i).len() ==> (#[trigger] es.remove(i)[a]).0 != (
            #[trigger] es.remove(i)[b]).0,
        forall|a: int| 0 <= a < es.remove(i).len() ==> 1 <= (#[trigger] es.remove(i)[a]).0
            < next_id,
{
}

/// Removing the only entry with an id leaves no entry with that id.
proof fn lemma_remove_erases_id(es: Seq<(i32, WaiterV)>, i: int, id: i32)
    requires
        0 <= i < es.len(),
        es[i].0 == id,
        forall|a: int, b: int|
            0 <= a < b < es.len() ==> (#[trigger] es[a]).0 != (#[trigger] es[b]).0,
    ensures
        !has_id(es.remove(i), id),
{
    let out = es.remove(i);
    assert forall|a: int| 0 <= a < out.len() implies (#[trigger] out[a]).0 != id by {
        if a < i {
            assert(out[a] == es[a]);
        } else {
            assert(out[a] == es[a + 1]);
        }
    };
}

/// Two entry sequences of equal length with pairwise equal ids
/// satisfy the same id-uniqueness and id-bound facts.
proof fn lemma_wf_same_ids(es: Seq<(i32, WaiterV)>, fs: Seq<(i32, WaiterV)>, next_id: int)
    requires
        es.len() == fs.len(),
        forall|i: int| 0 <= i < es.len() ==> (#[trigger] fs[i]).0 == (#[trigger] es[i]).0,
        forall|a: int, b: int|
            0 <= a < b < es.len() ==> (#[trigger] es[a]).0 != (#[trigger] es[b]).0,
        forall|a: int| 0 <= a < es.len() ==> 1 <= (#[trigger] es[a]).0 < next_id,
    ensures
        forall|a: int, b: int|
            0 <= a < b < fs.len() ==> (#[trigger] fs[a]).0 != (#[trigger] fs[b]).0,
        forall|a: int| 0 <= a < fs.len() ==> 1 <= (#[trigger] fs[a]).0 < next_id,
{
    assert forall|a: int, b: int| 0 <= a < b < fs.len() implies (#[trigger] fs[a]).0 != (
    #[trigger] fs[b]).0 by {
        assert(fs[a].0 == es[a].0);
        assert(fs[b].0 == es[b].0);
        assert(es[a].0 != es[b].0);
    };
    assert forall|a: int| 0 <= a < fs.len() implies 1 <= (#[trigger] fs[a]).0 < next_id by {
        assert(fs[a].0 == es[a].0);
        assert(1 <= es[a].0 < next_id);
    };
}


/// The frames a stream handle will yield from its queue: every frame
/// before the first end-of-stream marker, in order.
pub open spec fn frames_until_end(p: Seq<Option<Seq<u8>>>) -> Seq<Seq<u8>>
    decreases p.len(),
{
    if p.len() == 0 {
        Seq::empty()
    } else {
        match p[0] {
            None => Seq::empty(),
            Some(f) => seq![f] + frames_until_end(p.skip(1)),
        }
    }
}

/// While the peer is open (no end-of-stream marker queued), queueing
/// one more frame extends what the handle will yield by exactly that
/// frame.
pub proof fn lemma_frames_push(p: Seq<Option<Seq<u8>>>, f: Seq<u8>)
    requires
        forall|i: int| 0 <= i < p.len() ==> (#[trigger] p[i]) is Some,
    ensures
        frames_until_end(p.push(Some(f))) == frames_until_end(p) + seq![f],
    decreases p.len(),
{
    if p.len() == 0 {
        reveal_with_fuel(frames_until_end, 3);
        assert(p.push(Some(f))[0] == Some(f));
        assert(p.push(Some(f)).skip(1) =~= Seq::<Option<Seq<u8>>>::empty());
        assert(frames_until_end(p.push(Some(f))) =~= frames_until_end(p) + seq![f]);
    } else {
        assert(p.push(Some(f))[0] == p[0]);
        assert(p[0] is Some);
        assert(p.push(Some(f)).skip(1) =~= p.skip(1).push(Some(f)));
        assert(forall|i: int| 0 <= i < p.skip(1).len() ==> (#[trigger] p.skip(1)[i]) is Some);
        lemma_frames_push(p.skip(1), f);
        let f0 = p[0]->0;
        assert(seq![f0] + (frames_until_end(p.skip(1)) + seq![f]) =~= (seq![f0]
            + frames_until_end(p.skip(1))) + seq![f]);
    }
}

/// The ordering law: per correlation id, responses are observed in
/// the peer's emission order.  Frames queued while the exchange is
/// open — here two in a row, the general step being `lemma_frames_push`
/// — extend the stream's yield sequence at the tail, and each poll
/// takes from the head.
pub proof fn lemma_stream_yields_in_order(p: Seq<Option<Seq<u8>>>, f1: Seq<u8>, f2: Seq<u8>)
    requires
        forall|i: int| 0 <= i < p.len() ==> (#[trigger] p[i]) is Some,
    ensures
        frames_until_end(p.push(Some(f1)).push(Some(f2))) == frames_until_end(p) + seq![f1, f2],
        p.len() == 0 ==> frames_until_end(p.push(Some(f1)).push(Some(f2))) == seq![f1, f2],
{
    lemma_frames_push(p, f1);
    assert(forall|i: int|
        0 <= i < p.push(Some(f1)).len() ==> (#[trigger] p.push(Some(f1))[i]) is Some);
    lemma_frames_push(p.push(Some(f1)), f2);
    assert((frames_until_end(p) + seq![f1]) + seq![f2] =~= frames_until_end(p) + seq![f1, f2]);
    if p.len() == 0 {
        assert(frames_until_end(p) =~= Seq::<Seq<u8>>::empty());
        assert(frames_until_end(p) + seq![f1, f2] =~= seq![f1, f2]);
    }
}

/// The isolation law behind timeouts and cancellation: removing one
/// exchange's waiter — as a timeout or a cancelled call does — leaves
/// every other exchange registered exactly as it was, so subsequent
/// and concurrent exchanges on the same multiplexer are untouched.
pub proof fn lemma_remove_preserves_others(es: Seq<(i32, WaiterV)>, id: i32, other: i32)
    requires
        forall|a: int, b: int|
            0 <= a < b < es.len() ==> (#[trigger] es[a]).0 != (#[trigger] es[b]).0,
        has_id(es, id),
        other != id,
    ensures
        has_id(es.remove(idx_of(es, id)), other) == has_id(es, other),
        has_id(es, other) ==> lookup(es.remove(idx_of(es, id)), other) == lookup(es, other),
{
    let i = idx_of(es, id);
    let out = es.remove(i);
    if has_id(es, other) {
        let j = idx_of(es, other);
        assert(es[j].0 == other);
        assert(j != i);
        if j < i {
            assert(out[j] == es[j]);
            lemma_lookup_unique_removed(es, i, out, other, j);
        } else {
            assert(out[j - 1] == es[j]);
            lemma_lookup_unique_removed(es, i, out, other, j - 1);
        }
    }
    if has_id(out, other) {
        let j = idx_of(out, other);
        if j < i {
            assert(es[j].0 == other);
        } else {
            assert(es[j + 1].0 == other);
        }
    }
}

/// Helper: in the removed sequence the other id still has a unique
/// position, and lookup finds it there.
proof fn lemma_lookup_unique_removed(
    es: Seq<(i32, WaiterV)>,
    i: int,
    out: Seq<(i32, WaiterV)>,
    other: i32,
    j: int,
)
    requires
        0 <= i < es.len(),
        out == es.remove(i),
        0 <= j < out.len(),
        out[j].0 == other,
        forall|a: int, b: int|
            0 <= a < b < es.len() ==> (#[trigger] es[a]).0 != (#[trigger] es[b]).0,
    ensures
        has_id(out, other),
        lookup(out, other) == out[j].1,
{
    assert forall|a: int, b: int| 0 <= a < b < out.len() implies (#[trigger] out[a]).0 != (
    #[trigger] out[b]).0 by {
        let a2: int = if a < i {
            a
        } else {
            a + 1
        };
        let b2: int = if b < i {
            b
        } else {
            b + 1
        };
        assert(out[a] == es[a2]);
        assert(out[b] == es[b2]);
    };
    lemma_lookup_unique(out, other, j);
}


/// Every entry a sweep keeps can still carry traffic.
pub proof fn lemma_sweep_alive(es: Seq<(i32, WaiterV)>)
    ensures
        forall|a: int| 0 <= a < sweep(es).len() ==> queue_alive((#[trigger] sweep(es)[a]).1),
    decreases es.len(),
{
    if es.len() > 0 {
        lemma_sweep_alive(es.skip(1));
        let out = sweep(es);
        assert forall|a: int| 0 <= a < out.len() implies queue_alive((#[trigger] out[a]).1) by {
            if queue_alive(es[0].1) {
                if a > 0 {
                    assert(out[a] == sweep(es.skip(1))[a - 1]);
                }
            } else {
                assert(out[a] == sweep(es.skip(1))[a]);
            }
        };
    }
}

/// The cancellation law: a stream whose handle was dropped — its
/// receiver closed — is gone after the next sweep, while the sweep
/// never invents an id that was not outstanding.
pub proof fn lemma_sweep_drops_closed(es: Seq<(i32, WaiterV)>, id: i32)
    requires
        forall|a: int, b: int|
            0 <= a < b < es.len() ==> (#[trigger] es[a]).0 != (#[trigger] es[b]).0,
        has_id(es, id),
        !queue_alive(lookup(es, id)),
    ensures
        !has_id(sweep(es), id),
{
    lemma_sweep_alive(es);
    lemma_sweep_elements(es);
    let i0 = idx_of(es, id);
    let out = sweep(es);
    assert forall|a: int| 0 <= a < out.len() implies (#[trigger] out[a]).0 != id by {
        assert(es.contains(out[a]));
        let b = choose|b: int| 0 <= b < es.len() && es[b] == out[a];
        if es[b].0 == id {
            if b != i0 {
                if b < i0 {
                    assert(es[b].0 != es[i0].0);
                } else {
                    assert(es[i0].0 != es[b].0);
                }
            }
            assert(out[a] == es[i0]);
            assert(queue_alive(out[a].1));
        }
    };
}

/// Exchanges are independent: delivering to one correlation id — an
/// in-place update of its entry — leaves every other exchange's
/// waiter exactly as it was.  With `lemma_remove_preserves_others`
/// this is why a slow exchange never delays or disturbs a fast one in
/// the routing state.
pub proof fn lemma_update_preserves_others(
    es: Seq<(i32, WaiterV)>,
    id: i32,
    w: WaiterV,
    other: i32,
)
    requires
        forall|a: int, b: int|
            0 <= a < b < es.len() ==> (#[trigger] es[a]).0 != (#[trigger] es[b]).0,
        has_id(es, id),
        other != id,
    ensures
        has_id(es.update(idx_of(es, id), (id, w)), other) == has_id(es, other),
        has_id(es, other) ==> lookup(es.update(idx_of(es, id), (id, w)), other) == lookup(
            es,
            other,
        ),
{
    let i = idx_of(es, id);
    let out = es.update(i, (id, w));
    assert forall|a: int, b: int| 0 <= a < b < out.len() implies (#[trigger] out[a]).0 != (
    #[trigger] out[b]).0 by {
        assert(out[a].0 == es[a].0);
        assert(out[b].0 == es[b].0);
    };
    if has_id(es, other) {
        let j = idx_of(es, other);
        assert(j != i);
        assert(out[j] == es[j]);
        lemma_lookup_unique(out, other, j);
    }
    if has_id(out, other) {
        let j = idx_of(out, other);
        assert(es[j].0 == out[j].0);
    }
}

} // verus!
