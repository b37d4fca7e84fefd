//! Broadcast side: the connection registry (`Chatroom`) mapping each live
//! connection id to its bounded outbound frame queue, and the per-connection
//! handler state machine. The surrounding application owns the sockets; it
//! registers a peer on accept, feeds read bytes to the handler, writes out
//! queued frames, and deregisters on disconnect. Fan-out never blocks on one
//! peer: a peer whose queue is full is force-disconnected, and every other
//! peer's queue is extended independently.

use vstd::prelude::*;
use crate::codec::{spec_drain, views_of, drain_frames};
use crate::datatypes::ChatMessage;

verus! {

/// How many frames one peer's outbound queue may hold before the peer is
/// treated as unresponsive and force-disconnected.
pub const QUEUE_CAPACITY: usize = 64;

/// One registered peer: its connection id and its pending outbound frames,
/// oldest first.
pub struct Peer {
    pub id: u64,
    pub queue: Vec<Vec<u8>>,
}

/// The frames of a queue as byte sequences, oldest first.
pub open spec fn queue_view(q: Seq<Vec<u8>>) -> Seq<Seq<u8>> {
    q.map_values(|f: Vec<u8>| f@)
}

/// The registry of live connections. Entries are created on accept and
/// removed on disconnect or fatal write error; no entry is written to after
/// removal.
pub struct Chatroom {
    pub members: Vec<Peer>,
}

/// Both registries agree on peer `x`: registered in one exactly when in the
/// other, and with the same queue.
pub open spec fn same_peer(a: Chatroom, b: Chatroom, x: u64) -> bool {
    &&& a.spec_has(x) == b.spec_has(x)
    &&& (a.spec_has(x) ==> a.spec_queue(x) == b.spec_queue(x))
}

impl Chatroom {
    /// Registered connection ids are pairwise distinct.
    pub open spec fn wf(&self) -> bool {
        forall|i: int, j: int|
            0 <= i < j < self.members@.len() ==> self.members@[i].id != self.members@[j].id
    }

    /// Whether `id` is currently registered.
    pub open spec fn spec_has(&self, id: u64) -> bool {
        exists|i: int| 0 <= i < self.members@.len() && #[trigger] self.members@[i].id == id
    }

    /// The position of `id` among the members.
    pub open spec fn spec_idx(&self, id: u64) -> int {
        choose|i: int| 0 <= i < self.members@.len() && #[trigger] self.members@[i].id == id
    }

    /// The outbound queue registered for `id`.
    pub open spec fn spec_queue(&self, id: u64) -> Seq<Seq<u8>> {
        queue_view(self.members@[self.spec_idx(id)].queue@)
    }

    /// In a well-formed registry, a member index with the right id is the
    /// member index of that id.
    pub proof fn lemma_idx_is(&self, id: u64, i: int)
        requires
            self.wf(),
            0 <= i < self.members@.len(),
            self.members@[i].id == id,
        ensures
            self.spec_has(id),
            self.spec_idx(id) == i,
    {
        assert(self.spec_has(id));
        let j = self.spec_idx(id);
        if j < i {
            assert(self.members@[j].id != self.members@[i].id);
        } else if j > i {
            assert(self.members@[i].id != self.members@[j].id);
        }
    }

    /// An empty registry.
    pub fn new() -> (r: Chatroom)
        ensures
            r.wf(),
            forall|x: u64| !r.spec_has(x),
            r.members@.len() == 0,
    {
        Chatroom { members: Vec::new() }
    }

    /// Finds the member position of `id`, if registered.
    fn find_index(&self, id: u64) -> (r: Option<usize>)
        requires
            self.wf(),
        ensures
            match r {
                Some(i) => i < self.members@.len() && self.members@[i as int].id == id
                    && self.spec_has(id) && self.spec_idx(id) == i as int,
                None => !self.spec_has(id),
            },
    {
        let mut i: usize = 0;
        while i < self.members.len()
            invariant
                i <= self.members@.len(),
                self.wf(),
                forall|k: int| 0 <= k < i ==> self.members@[k].id != id,
            decreases self.members@.len() - i,
        {
            if self.members[i].id == id {
                proof {
                    self.lemma_idx_is(id, i as int);
                }
                return Some(i);
            }
            i += 1;
        }
        None
    }

    /// Registers a new connection with an empty outbound queue. Rejected
    /// (returning `false`, with the registry unchanged) exactly when the id
    /// is already present.
    pub fn register(&mut self, id: u64) -> (r: bool)
        requires
            old(self).wf(),
        ensures
            final(self).wf(),
            r == !old(self).spec_has(id),
            r ==> final(self).spec_has(id) && final(self).spec_queue(id) == Seq::<Seq<u8>>::empty(),
            !r ==> *final(self) == *old(self),
            forall|x: u64| x != id ==> same_peer(*old(self), *final(self), x),
    {
        match self.find_index(id) {
            Some(_) => false,
            None => {
                let ghost pre = *self;
                self.members.push(Peer { id, queue: Vec::new() });
                proof {
                    let n = pre.members@.len() as int;
                    assert forall|i: int, j: int|
                        0 <= i < j < self.members@.len() implies self.members@[i].id
                        != self.members@[j].id by {
                        if j < n {
                            assert(pre.members@[i].id != pre.members@[j].id);
                        } else {
                            assert(self.members@[j].id == id);
                        }
                    }
                    self.lemma_idx_is(id, n);
                    assert(queue_view(self.members@[n].queue@) =~= Seq::<Seq<u8>>::empty());
                    assert forall|x: u64| x != id implies same_peer(pre, *self, x) by {
                        if pre.spec_has(x) {
                            let i = pre.spec_idx(x);
                            assert(self.members@[i].id == x);
                            self.lemma_idx_is(x, i);
                        } else {
                            if self.spec_has(x) {
                                let i = self.spec_idx(x);
                                assert(self.members@[i].id == x);
                                if i < n {
                                    assert(pre.members@[i].id == x);
                                }
                            }
                        }
                    }
                }
                true
            },
        }
    }

    /// Removes a connection if present; a no-op otherwise. No frame can be
    /// queued for a peer once it is deregistered.
    pub fn deregister(&mut self, id: u64)
        requires
            old(self).wf(),
        ensures
            final(self).wf(),
            !final(self).spec_has(id),
            forall|x: u64| x != id ==> same_peer(*old(self), *final(self), x),
    {
        match self.find_index(id) {
            None => {},
            Some(i) => {
                let ghost pre = *self;
                let _ = self.members.remove(i);
                proof {
                    let n = pre.members@.len() as int;
                    assert forall|k: int| 0 <= k < n - 1 implies #[trigger] self.members@[k] == (
                    if k < i {
                        pre.members@[k]
                    } else {
                        pre.members@[k + 1]
                    }) by {}
                    assert forall|a: int, b: int|
                        0 <= a < b < self.members@.len() implies self.members@[a].id
                        != self.members@[b].id by {
                        let a0: int = if a < i { a } else { a + 1 };
                        let b0: int = if b < i { b } else { b + 1 };
                        assert(pre.members@[a0].id != pre.members@[b0].id);
                    }
                    if self.spec_has(id) {
                        let k = self.spec_idx(id);
                        let k0: int = if k < i { k } else { k + 1 };
                        assert(pre.members@[k0].id == id);
                        if k0 < i {
                            assert(pre.members@[k0].id != pre.members@[i as int].id);
                        } else {
                            assert(pre.members@[i as int].id != pre.members@[k0].id);
                        }
                    }
                    assert forall|x: u64| x != id implies same_peer(pre, *self, x) by {
                        if pre.spec_has(x) {
                            let j = pre.spec_idx(x);
                            let j_new: int = if j < i { j } else { j - 1 };
                            assert(self.members@[j_new] == pre.members@[j]);
                            self.lemma_idx_is(x, j_new);
                        } else {
                            if self.spec_has(x) {
                                let k = self.spec_idx(x);
                                let k0: int = if k < i { k } else { k + 1 };
                                assert(pre.members@[k0].id == x);
                            }
                        }
                    }
                }
            },
        }
    }

    /// Appends a frame to the queue of a registered peer that has room.
    fn push_frame(&mut self, id: u64, frame: &Vec<u8>)
        requires
            old(self).wf(),
            old(self).spec_has(id),
            old(self).spec_queue(id).len() < QUEUE_CAPACITY,
        ensures
            final(self).wf(),
            final(self).spec_has(id),
            final(self).spec_queue(id) == old(self).spec_queue(id).push(frame@),
            forall|x: u64| x != id ==> same_peer(*old(self), *final(self), x),
    {
        let i = match self.find_index(id) {
            Some(i) => i,
            None => {
                proof {
                    assert(false);
                }
                return ;
            },
        };
        let ghost pre = *self;
        let mut p = self.members.remove(i);
        let f = clone_bytes(frame);
        p.queue.push(f);
        self.members.push(p);
        proof {
            let n = pre.members@.len() as int;
            assert forall|k: int| 0 <= k < n - 1 implies #[trigger] self.members@[k] == (if k < i {
                pre.members@[k]
            } else {
                pre.members@[k + 1]
            }) by {}
            assert(self.members@[n - 1].id == id);
            assert(queue_view(self.members@[n - 1].queue@) =~= queue_view(
                pre.members@[i as int].queue@,
            ).push(frame@));
            assert forall|a: int, b: int|
                0 <= a < b < self.members@.len() implies self.members@[a].id
                != self.members@[b].id by {
                let a0: int = if a < i { a } else { a + 1 };
                if b == n - 1 {
                    if a0 < i {
                        assert(pre.members@[a0].id != pre.members@[i as int].id);
                    } else {
                        assert(pre.members@[i as int].id != pre.members@[a0].id);
                    }
                } else {
                    let b0: int = if b < i { b } else { b + 1 };
                    assert(pre.members@[a0].id != pre.members@[b0].id);
                }
            }
            self.lemma_idx_is(id, n - 1);
            assert forall|x: u64| x != id implies same_peer(pre, *self, x) by {
                if pre.spec_has(x) {
                    let j = pre.spec_idx(x);
                    let j_new: int = if j < i { j } else { j - 1 };
                    assert(self.members@[j_new] == pre.members@[j]);
                    self.lemma_idx_is(x, j_new);
                } else {
                    if self.spec_has(x) {
                        let k = self.spec_idx(x);
                        if k == n - 1 {
                            assert(self.members@[k].id == id);
                        } else {
                            let k0: int = if k < i { k } else { k + 1 };
                            assert(pre.members@[k0].id == x);
                        }
                    }
                }
            }
        }
    }

    /// The number of frames pending for a registered peer.
    pub fn queue_len(&self, id: u64) -> (r: usize)
        requires
            self.wf(),
            self.spec_has(id),
        ensures
            r == self.spec_queue(id).len(),
    {
        match self.find_index(id) {
            Some(i) => self.members[i].queue.len(),
            None => {
                proof {
                    assert(false);
                }
                0
            },
        }
    }

    /// Takes the oldest pending frame for `id`, if any; frames leave the
    /// queue in the order broadcasts put them in.
    pub fn next_frame(&mut self, id: u64) -> (r: Option<Vec<u8>>)
        requires
            old(self).wf(),
        ensures
            final(self).wf(),
            match r {
                Some(f) => old(self).spec_has(id) && old(self).spec_queue(id).len() > 0 && f@
                    == old(self).spec_queue(id)[0] && final(self).spec_has(id)
                    && final(self).spec_queue(id) == old(self).spec_queue(id).skip(1),
                None => (!old(self).spec_has(id) || old(self).spec_queue(id).len() == 0)
                    && *final(self) == *old(self),
            },
            forall|x: u64| x != id ==> same_peer(*old(self), *final(self), x),
    {
        let i = match self.find_index(id) {
            Some(i) => i,
            None => {
                return None;
            },
        };
        if self.members[i].queue.len() == 0 {
            return None;
        }
        let ghost pre = *self;
        let mut p = self.members.remove(i);
        let f = p.queue.remove(0);
        self.members.push(p);
        proof {
            let n = pre.members@.len() as int;
            let pre_q = pre.members@[i as int].queue@;
            assert forall|k: int| 0 <= k < n - 1 implies #[trigger] self.members@[k] == (if k < i {
                pre.members@[k]
            } else {
                pre.members@[k + 1]
            }) by {}
            assert(self.members@[n - 1].id == id);
            assert(f@ == queue_view(pre_q)[0]);
            assert(queue_view(self.members@[n - 1].queue@) =~= queue_view(pre_q).skip(1));
            assert forall|a: int, b: int|
                0 <= a < b < self.members@.len() implies self.members@[a].id
                != self.members@[b].id by {
                let a0: int = if a < i { a } else { a + 1 };
                if b == n - 1 {
                    if a0 < i {
                        assert(pre.members@[a0].id != pre.members@[i as int].id);
                    } else {
                        assert(pre.members@[i as int].id != pre.members@[a0].id);
                    }
                } else {
                    let b0: int = if b < i { b } else { b + 1 };
                    assert(pre.members@[a0].id != pre.members@[b0].id);
                }
            }
            self.lemma_idx_is(id, n - 1);
            assert forall|x: u64| x != id implies same_peer(pre, *self, x) by {
                if pre.spec_has(x) {
                    let j = pre.spec_idx(x);
                    let j_new: int = if j < i { j } else { j - 1 };
                    assert(self.members@[j_new] == pre.members@[j]);
                    self.lemma_idx_is(x, j_new);
                } else {
                    if self.spec_has(x) {
                        let k = self.spec_idx(x);
                        if k == n - 1 {
                            assert(self.members@[k].id == id);
                        } else {
                            let k0: int = if k < i { k } else { k + 1 };
                            assert(pre.members@[k0].id == x);
                        }
                    }
                }
            }
        }
        Some(f)
    }
}

/// The finished outcome of one broadcast for a peer `x` that was registered
/// when it started: excluded peers keep their queue; peers with room get the
/// frame appended; peers whose queue was full are gone and reported.
pub open spec fn bcast_done(
    pre: Chatroom,
    cur: Chatroom,
    dropped: Seq<u64>,
    frame: Seq<u8>,
    exclude: Option<u64>,
    x: u64,
) -> bool {
    if exclude == Some(x) {
        same_peer(pre, cur, x)
    } else if pre.spec_queue(x).len() < QUEUE_CAPACITY {
        cur.spec_has(x) && cur.spec_queue(x) == pre.spec_queue(x).push(frame)
    } else {
        !cur.spec_has(x) && dropped.contains(x)
    }
}

impl Chatroom {
    /// Delivers one frame to every peer registered at the call except
    /// `exclude`. Each peer's delivery is independent: a peer with room gets
    /// the frame appended to its queue whatever happens to the others; a
    /// peer whose queue is full is force-disconnected and its id returned,
    /// so a stalled peer never delays or drops anyone else's traffic. A peer
    /// deregistered before the call never receives the frame, and one
    /// registered after it never receives it retroactively.
    pub fn broadcast(&mut self, frame: &Vec<u8>, exclude: Option<u64>) -> (dropped: Vec<u64>)
        requires
            old(self).wf(),
        ensures
            final(self).wf(),
            forall|x: u64|
                old(self).spec_has(x) ==> bcast_done(
                    *old(self),
                    *final(self),
                    dropped@,
                    frame@,
                    exclude,
                    x,
                ),
            forall|x: u64| !old(self).spec_has(x) ==> !final(self).spec_has(x),
            forall|x: u64|
                dropped@.contains(x) ==> old(self).spec_has(x) && exclude != Some(x) && old(
                    self,
                ).spec_queue(x).len() >= QUEUE_CAPACITY,
    {
        let mut ids: Vec<u64> = Vec::new();
        let mut i: usize = 0;
        while i < self.members.len()
            invariant
                i <= self.members@.len(),
                ids@.len() == i,
                forall|k: int| 0 <= k < i ==> ids@[k] == self.members@[k].id,
            decreases self.members@.len() - i,
        {
            let id = self.members[i].id;
            ids.push(id);
            i += 1;
        }
        let ghost pre = *self;
        let mut dropped: Vec<u64> = Vec::new();
        let mut j: usize = 0;
        while j < ids.len()
            invariant
                j <= ids@.len(),
                self.wf(),
                pre.wf(),
                pre == *old(self),
                ids@.len() == pre.members@.len(),
                forall|k: int| 0 <= k < ids@.len() ==> ids@[k] == pre.members@[k].id,
                forall|k: int|
                    0 <= k < j ==> bcast_done(pre, *self, dropped@, frame@, exclude, ids@[k]),
                forall|x: u64|
                    (pre.spec_has(x) && !(exists|k: int| 0 <= k < j && ids@[k] == x))
                        ==> same_peer(pre, *self, x),
                forall|x: u64| !pre.spec_has(x) ==> !self.spec_has(x),
                forall|x: u64|
                    dropped@.contains(x) ==> pre.spec_has(x) && exclude != Some(x) && pre.spec_queue(
                        x,
                    ).len() >= QUEUE_CAPACITY,
            decreases ids@.len() - j,
        {
            let id = ids[j];
            proof {
                pre.lemma_idx_is(id, j as int);
                assert forall|k: int| 0 <= k < j implies ids@[k] != id by {
                    assert(pre.members@[k].id != pre.members@[j as int].id);
                }
                assert(same_peer(pre, *self, id));
            }
            let is_excluded = match exclude {
                Some(e) => e == id,
                None => false,
            };
            let ghost mid = *self;
            let ghost dpre = dropped@;
            if is_excluded {
            } else if self.queue_len(id) < QUEUE_CAPACITY {
                self.push_frame(id, frame);
            } else {
                self.deregister(id);
                dropped.push(id);
                proof {
                    assert(dropped@.last() == id);
                    assert(dropped@.contains(id));
                }
            }
            proof {
                assert forall|x: u64| dpre.contains(x) implies dropped@.contains(x) by {
                    let ix = choose|ix: int| 0 <= ix < dpre.len() && dpre[ix] == x;
                    assert(dropped@[ix] == x);
                }
                assert forall|k: int|
                    0 <= k < j + 1 implies bcast_done(
                    pre,
                    *self,
                    dropped@,
                    frame@,
                    exclude,
                    ids@[k],
                ) by {
                    if k < j {
                        assert(bcast_done(pre, mid, dpre, frame@, exclude, ids@[k]));
                        assert(ids@[k] != id);
                        assert(same_peer(mid, *self, ids@[k]));
                    }
                }
                assert forall|x: u64|
                    (pre.spec_has(x) && !(exists|k: int|
                        0 <= k < j + 1 && ids@[k] == x)) implies same_peer(pre, *self, x) by {
                    assert(!(0 <= j < j + 1 && ids@[j as int] == x));
                    assert(x != id);
                    assert(same_peer(pre, mid, x));
                    assert(same_peer(mid, *self, x));
                }
                assert forall|x: u64| !pre.spec_has(x) implies !self.spec_has(x) by {
                    assert(pre.spec_has(id));
                    assert(x != id);
                    assert(!mid.spec_has(x));
                    assert(same_peer(mid, *self, x));
                }
                assert forall|x: u64|
                    dropped@.contains(x) implies pre.spec_has(x) && exclude != Some(x)
                    && pre.spec_queue(x).len() >= QUEUE_CAPACITY by {
                    let ix = choose|ix: int| 0 <= ix < dropped@.len() && dropped@[ix] == x;
                    if ix < dpre.len() {
                        assert(dpre[ix] == x);
                        assert(dpre.contains(x));
                    } else {
                        assert(x == id);
                        assert(!is_excluded);
                        match exclude {
                            Some(e) => {
                                assert(e != id);
                            },
                            None => {},
                        }
                    }
                }
            }
            j += 1;
        }
        proof {
            assert forall|x: u64|
                pre.spec_has(x) implies bcast_done(
                pre,
                *self,
                dropped@,
                frame@,
                exclude,
                x,
            ) by {
                let k = pre.spec_idx(x);
                assert(ids@[k] == x);
            }
            assert forall|x: u64|
                #[trigger] dropped@.contains(x) implies old(self).spec_has(x) && exclude != Some(x)
                && old(self).spec_queue(x).len() >= QUEUE_CAPACITY by {
                assert(pre == *old(self));
                assert(pre.spec_has(x));
                assert(exclude != Some(x));
                assert(pre.spec_queue(x).len() >= QUEUE_CAPACITY);
                assert(old(self).spec_queue(x) == pre.spec_queue(x));
            }
        }
        dropped
    }
}

/// Lifecycle phase of one connection: reading normally, shutting down after
/// an error, end of file or protocol violation, or fully closed.
#[derive(Clone, Copy, PartialEq, Eq, Structural, Debug)]
pub enum Phase {
    Connected,
    Draining,
    Closed,
}

/// Per-connection handler state: the connection id, the lifecycle phase,
/// and the accumulating decode buffer for bytes read from this socket.
pub struct ConnState {
    pub id: u64,
    pub phase: Phase,
    pub buf: Vec<u8>,
}

impl ConnState {
    /// A fresh handler for an accepted connection.
    pub fn on_accept(id: u64) -> (r: ConnState)
        ensures
            r.id == id,
            r.phase == Phase::Connected,
            r.buf@ == Seq::<u8>::empty(),
    {
        ConnState { id, phase: Phase::Connected, buf: Vec::new() }
    }

    /// Feeds bytes read from the socket; returns the messages decoded from
    /// the complete frames now available, in arrival order, for the caller
    /// to broadcast (excluding this peer). On a malformed frame the handler
    /// moves to `Draining`: the caller must stop reading, deregister the
    /// peer and close the socket.
    pub fn on_read(&mut self, data: &Vec<u8>) -> (msgs: Vec<ChatMessage>)
        requires
            old(self).phase == Phase::Connected,
        ensures
            ({
                let d = spec_drain(old(self).buf@ + data@);
                &&& views_of(msgs@) == d.msgs
                &&& final(self).buf@ == d.rest
                &&& final(self).phase == (if d.malformed {
                    Phase::Draining
                } else {
                    Phase::Connected
                })
                &&& final(self).id == old(self).id
            }),
            forall|j: int| 0 <= j < msgs@.len() ==> (#[trigger] msgs@[j]).wf(),
    {
        let (msgs, malformed) = drain_frames(&mut self.buf, data);
        if malformed {
            self.phase = Phase::Draining;
        }
        msgs
    }

    /// The socket reached end of file or a read or write failed: stop
    /// reading and drain. The caller then deregisters the peer. `Closed` is
    /// terminal: a closed handler sees no further events.
    pub fn on_disconnect(&mut self)
        requires
            old(self).phase != Phase::Closed,
        ensures
            final(self).phase == Phase::Draining,
            final(self).id == old(self).id,
            final(self).buf@ == old(self).buf@,
    {
        self.phase = Phase::Draining;
    }

    /// The peer has been deregistered and its socket closed: the terminal
    /// state.
    pub fn on_closed(&mut self)
        requires
            old(self).phase == Phase::Draining,
        ensures
            final(self).phase == Phase::Closed,
            final(self).id == old(self).id,
    {
        self.phase = Phase::Closed;
    }
}

/// Copies a frame byte for byte.
fn clone_bytes(v: &Vec<u8>) -> (r: Vec<u8>)
    ensures
        r@ == v@,
{
    let mut r: Vec<u8> = Vec::new();
    let mut i: usize = 0;
    while i < v.len()
        invariant
            i <= v@.len(),
            r@ == v@.take(i as int),
        decreases v@.len() - i,
    {
        let b = v[i];
        r.push(b);
        proof {
            assert(v@.take(i as int + 1) =~= v@.take(i as int).push(v@[i as int]));
        }
        i += 1;
    }
    proof {
        assert(v@.take(v@.len() as int) =~= v@);
    }
    r
}

} // verus!
