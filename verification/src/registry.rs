//! The client registry: owner of the live viewer set and the pending
//! buffer of undelivered wire messages.
//!
//! A wire message is a byte vector (the encoded form of a record). The
//! registry keeps, for every live client, an outbound queue of messages
//! that the transport has not yet written to that client's socket, and a
//! ghost record of everything the client was ever given. A single ghost
//! history of all published messages ties the per-client streams to the
//! global publish order.
//!
//! Buffer policy: while no client is connected, published messages
//! accumulate in the pending buffer. Registering a client replays the
//! whole buffer to that client and clears it, so the buffer always holds
//! exactly the published messages that no viewer has received yet.

use vstd::prelude::*;

verus! {

/// The sequence of message contents of a sequence of byte vectors.
pub open spec fn msgs_view(s: Seq<Vec<u8>>) -> Seq<Seq<u8>> {
    s.map_values(|m: Vec<u8>| m@)
}

/// One live viewer connection, identified by `id`.
///
/// `pending` holds the messages queued for this client's socket that the
/// transport has not taken yet. `got` is the ghost stream of everything
/// ever queued for this client, in order, and `handed` counts how many
/// of those messages the transport has already taken.
pub struct Client {
    pub id: u64,
    pub pending: Vec<Vec<u8>>,
    pub got: Ghost<Seq<Seq<u8>>>,
    pub handed: Ghost<nat>,
}

impl Client {
    /// The client's queue is consistent with its ghost stream, and the
    /// stream is exactly a suffix of the global publish history: the
    /// client was given every message published since it joined, in
    /// publish order, with nothing reordered, duplicated or skipped.
    pub open spec fn wf(self, history: Seq<Seq<u8>>, next_id: u64) -> bool {
        &&& self.id < next_id
        &&& self.got@.len() <= history.len()
        &&& self.got@ == history.skip(history.len() - self.got@.len())
        &&& self.handed@ + self.pending@.len() == self.got@.len()
        &&& msgs_view(self.pending@) == self.got@.skip(self.handed@ as int)
    }
}

/// What `publish` does to a registry: the message is appended to the
/// global history; with no client connected it is appended to the
/// pending buffer, otherwise it is queued for every live client.
pub open spec fn publish_step(pre: Registry, post: Registry, m: Seq<u8>) -> bool {
    &&& post.history@ == pre.history@.push(m)
    &&& post.next_id == pre.next_id
    &&& if pre.clients@.len() == 0 {
        &&& post.clients@ == pre.clients@
        &&& msgs_view(post.buffer@) == msgs_view(pre.buffer@).push(m)
    } else {
        &&& post.buffer@ == pre.buffer@
        &&& post.clients@.len() == pre.clients@.len()
        &&& (forall|i: int|
            0 <= i < pre.clients@.len() ==> client_given(
                #[trigger] pre.clients@[i],
                post.clients@[i],
                m,
            ))
    }
}

/// One client after a broadcast: same identity, the message appended to
/// its stream and queued for its socket.
pub open spec fn client_given(pre: Client, post: Client, m: Seq<u8>) -> bool {
    &&& post.id == pre.id
    &&& post.got@ == pre.got@.push(m)
    &&& post.handed@ == pre.handed@
    &&& msgs_view(post.pending@) == msgs_view(pre.pending@).push(m)
}

/// What `register` does: a fresh client is appended whose queue and
/// stream are exactly the old pending buffer, in order, and the buffer
/// is cleared. Nothing else changes.
pub open spec fn register_step(pre: Registry, post: Registry, id: u64) -> bool {
    &&& id == pre.next_id
    &&& post.next_id == pre.next_id + 1
    &&& post.history@ == pre.history@
    &&& post.buffer@.len() == 0
    &&& post.clients@.len() == pre.clients@.len() + 1
    &&& (forall|i: int|
        0 <= i < pre.clients@.len() ==> post.clients@[i] == #[trigger] pre.clients@[i])
    &&& post.clients@.last().id == id
    &&& post.clients@.last().handed@ == 0
    &&& post.clients@.last().got@ == msgs_view(pre.buffer@)
    &&& msgs_view(post.clients@.last().pending@) == msgs_view(pre.buffer@)
}

/// What `remove` does: the client with the given id (unique when it
/// exists) leaves the set; every other client is untouched.
pub open spec fn remove_step(pre: Registry, post: Registry, id: u64) -> bool {
    &&& post.history@ == pre.history@
    &&& post.next_id == pre.next_id
    &&& post.buffer@ == pre.buffer@
    &&& if exists|k: int| 0 <= k < pre.clients@.len() && (#[trigger] pre.clients@[k]).id == id {
        let k = choose|k: int| 0 <= k < pre.clients@.len() && (#[trigger] pre.clients@[k]).id
            == id;
        post.clients@ == pre.clients@.subrange(0, k) + pre.clients@.subrange(
            k + 1,
            pre.clients@.len() as int,
        )
    } else {
        post.clients@ == pre.clients@
    }
}

/// What `take_pending` does when the client is present: its queue is
/// handed out and emptied; identity, stream and everything else stay.
pub open spec fn take_step(pre: Registry, post: Registry, k: int, out: Seq<Seq<u8>>) -> bool {
    &&& post.history@ == pre.history@
    &&& post.next_id == pre.next_id
    &&& post.buffer@ == pre.buffer@
    &&& post.clients@.len() == pre.clients@.len()
    &&& (forall|i: int|
        0 <= i < pre.clients@.len() && i != k ==> post.clients@[i] == #[trigger] pre.clients@[i])
    &&& 0 <= k < pre.clients@.len()
    &&& out == msgs_view(pre.clients@[k].pending@)
    &&& post.clients@[k].id == pre.clients@[k].id
    &&& post.clients@[k].got@ == pre.clients@[k].got@
    &&& post.clients@[k].pending@.len() == 0
    &&& post.clients@[k].handed@ == pre.clients@[k].handed@ + pre.clients@[k].pending@.len()
}

/// The registry: the live client set, the pending buffer, and the ghost
/// history of every message ever published.
pub struct Registry {
    pub clients: Vec<Client>,
    pub buffer: Vec<Vec<u8>>,
    pub next_id: u64,
    pub history: Ghost<Seq<Seq<u8>>>,
}

impl Registry {
    /// The registry invariant, established by `new` and preserved by
    /// every operation.
    pub open spec fn wf(self) -> bool {
        &&& self.buffer@.len() <= self.history@.len()
        &&& msgs_view(self.buffer@) == self.history@.skip(self.history@.len() - self.buffer@.len())
        &&& (self.clients@.len() > 0 ==> self.buffer@.len() == 0)
        &&& (self.next_id == 0 ==> self.clients@.len() == 0 && self.buffer@.len() == self.history@.len())
        &&& (forall|i: int|
            0 <= i < self.clients@.len() ==> (#[trigger] self.clients@[i]).wf(
                self.history@,
                self.next_id,
            ))
        &&& (forall|i: int, j: int|
            0 <= i < j < self.clients@.len() ==> self.clients@[i].id != self.clients@[j].id)
    }

    /// A fresh registry: no clients, no history, an empty buffer.
    pub fn new() -> (r: Registry)
        ensures
            r.wf(),
            r.clients@.len() == 0,
            r.buffer@.len() == 0,
            r.history@ =~= Seq::<Seq<u8>>::empty(),
            r.next_id == 0,
    {
        let r = Registry {
            clients: Vec::new(),
            buffer: Vec::new(),
            next_id: 0,
            history: Ghost(Seq::empty()),
        };
        proof {
            assert(msgs_view(r.buffer@) =~= r.history@.skip(0));
        }
        r
    }

    /// True when the pending buffer is empty, the condition the drain
    /// operation waits for.
    pub fn flushed(&self) -> (r: bool)
        ensures
            r == (self.buffer@.len() == 0),
    {
        self.buffer.len() == 0
    }

    /// Number of messages waiting in the pending buffer.
    pub fn buffer_len(&self) -> (n: usize)
        ensures
            n == self.buffer@.len(),
    {
        self.buffer.len()
    }

    /// Number of live clients.
    pub fn client_count(&self) -> (n: usize)
        ensures
            n == self.clients@.len(),
    {
        self.clients.len()
    }

    /// The ids of the live clients, in registration order.
    pub fn client_ids(&self) -> (ids: Vec<u64>)
        ensures
            ids@ == self.clients@.map_values(|c: Client| c.id),
    {
        let mut ids: Vec<u64> = Vec::new();
        let mut i: usize = 0;
        while i < self.clients.len()
            invariant
                0 <= i <= self.clients@.len(),
                ids@ =~= self.clients@.subrange(0, i as int).map_values(|c: Client| c.id),
            decreases self.clients@.len() - i,
        {
            ids.push(self.clients[i].id);
            proof {
                assert(ids@ =~= self.clients@.subrange(0, i + 1 as int).map_values(
                    |c: Client| c.id,
                ));
            }
            i = i + 1;
        }
        proof {
            assert(self.clients@.subrange(0, self.clients@.len() as int) =~= self.clients@);
        }
        ids
    }
}

/// Pushing onto a sequence and then dropping a prefix is the same as
/// dropping the prefix first and pushing afterwards.
proof fn lemma_skip_push(h: Seq<Seq<u8>>, m: Seq<u8>, k: int)
    requires
        0 <= k <= h.len(),
    ensures
        h.push(m).skip(k) == h.skip(k).push(m),
{
    assert(h.push(m).skip(k) =~= h.skip(k).push(m));
}

/// `msgs_view` distributes over `push`.
proof fn lemma_msgs_view_push(s: Seq<Vec<u8>>, v: Vec<u8>, m: Seq<u8>)
    requires
        v@ == m,
    ensures
        msgs_view(s.push(v)) == msgs_view(s).push(m),
{
    assert(msgs_view(s.push(v)) =~= msgs_view(s).push(m));
}

/// A broadcast step keeps a client well formed with respect to the
/// extended history.
proof fn lemma_client_given_wf(pre: Client, post: Client, h: Seq<Seq<u8>>, m: Seq<u8>, next_id: u64)
    requires
        pre.wf(h, next_id),
        client_given(pre, post, m),
    ensures
        post.wf(h.push(m), next_id),
{
    lemma_skip_push(h, m, h.len() - pre.got@.len());
    lemma_skip_push(pre.got@, m, pre.handed@ as int);
    assert(post.pending@.len() == pre.pending@.len() + 1) by {
        assert(msgs_view(post.pending@).len() == msgs_view(pre.pending@).push(m).len());
    }
}

/// A byte-for-byte copy of a wire message.
fn clone_msg(m: &Vec<u8>) -> (r: Vec<u8>)
    ensures
        r@ == m@,
{
    let r = m.clone();
    proof {
        assert(r@ =~= m@);
    }
    r
}

impl Registry {
    /// Publish one wire message: append it to the global order, and
    /// either buffer it (no client connected) or queue it for every
    /// live client. A message is never dropped and never delivered to
    /// only part of the client set.
    #[verifier::loop_isolation(false)]
    pub fn publish(&mut self, msg: Vec<u8>)
        requires
            old(self).wf(),
        ensures
            final(self).wf(),
            publish_step(*old(self), *final(self), msg@),
    {
        let ghost h = self.history@;
        self.history = Ghost(self.history@.push(msg@));
        if self.clients.len() == 0 {
            proof {
                lemma_msgs_view_push(self.buffer@, msg, msg@);
                lemma_skip_push(h, msg@, h.len() - self.buffer@.len());
            }
            self.buffer.push(msg);
        } else {
            let ghost pre_clients = self.clients@;
            let mut updated: Vec<Client> = Vec::new();
            while self.clients.len() > 0
                invariant
                    updated@.len() + self.clients@.len() == pre_clients.len(),
                    self.clients@ =~= pre_clients.skip(updated@.len() as int),
                    self.buffer@ == old(self).buffer@,
                    self.history@ == old(self).history@.push(msg@),
                    self.next_id == old(self).next_id,
                    forall|k: int|
                        0 <= k < updated@.len() ==> client_given(
                            pre_clients[k],
                            #[trigger] updated@[k],
                            msg@,
                        ),
                decreases self.clients@.len(),
            {
                let mut c = self.clients.remove(0);
                let ghost cpre = c;
                c.pending.push(clone_msg(&msg));
                c.got = Ghost(c.got@.push(msg@));
                proof {
                    lemma_msgs_view_push(cpre.pending@, c.pending@.last(), msg@);
                    assert(c.pending@ =~= cpre.pending@.push(c.pending@.last()));
                    assert(client_given(cpre, c, msg@));
                }
                updated.push(c);
            }
            self.clients = updated;
            proof {
                assert(self.buffer@.len() == 0);
                assert(msgs_view(self.buffer@) =~= self.history@.skip(
                    self.history@.len() - self.buffer@.len(),
                ));
                assert forall|i: int| 0 <= i < self.clients@.len() implies (
                #[trigger] self.clients@[i]).wf(self.history@, self.next_id) by {
                    assert(old(self).clients@[i].wf(h, old(self).next_id));
                    lemma_client_given_wf(
                        pre_clients[i],
                        self.clients@[i],
                        h,
                        msg@,
                        self.next_id,
                    );
                }
            }
        }
    }

    /// Register a freshly accepted viewer connection: replay the whole
    /// pending buffer to it (it becomes the client's queue, in original
    /// emission order), clear the buffer, and add the client to the
    /// live set. Returns the new client's id.
    #[verifier::loop_isolation(false)]
    pub fn register(&mut self) -> (id: u64)
        requires
            old(self).wf(),
            old(self).next_id < u64::MAX,
        ensures
            final(self).wf(),
            register_step(*old(self), *final(self), id),
            old(self).next_id == 0 ==> final(self).clients@.last().got@ == old(self).history@,
    {
        let ghost pre_buf = self.buffer@;
        let mut backlog: Vec<Vec<u8>> = Vec::new();
        while self.buffer.len() > 0
            invariant
                backlog@ + self.buffer@ =~= pre_buf,
                self.history@ == old(self).history@,
                self.clients@ == old(self).clients@,
                self.next_id == old(self).next_id,
            decreases self.buffer@.len(),
        {
            let m = self.buffer.remove(0);
            backlog.push(m);
        }
        proof {
            assert(backlog@ =~= pre_buf);
        }
        let id = self.next_id;
        let c = Client {
            id,
            pending: backlog,
            got: Ghost(msgs_view(pre_buf)),
            handed: Ghost(0),
        };
        let ghost gc = c;
        self.clients.push(c);
        self.next_id = self.next_id + 1;
        proof {
            let h = self.history@;
            assert(msgs_view(self.buffer@) =~= h.skip(h.len() as int));
            assert(gc.got@.skip(0) =~= gc.got@);
            assert(self.clients@.last() == gc);
            assert(msgs_view(pre_buf) == h.skip(h.len() - pre_buf.len()));
            assert(msgs_view(gc.pending@) == msgs_view(pre_buf));
            assert(gc.wf(h, self.next_id));
            assert forall|i: int| 0 <= i < self.clients@.len() implies (
            #[trigger] self.clients@[i]).wf(h, self.next_id) by {
                if i < self.clients@.len() - 1 {
                    assert(old(self).clients@[i].wf(h, old(self).next_id));
                }
            }
        }
        id
    }

    /// Drop the client with the given id from the live set, if present.
    /// Used when a write to that client's socket failed: the failure is
    /// isolated to that one client, every other client keeps its queue
    /// and its stream untouched.
    #[verifier::loop_isolation(false)]
    pub fn remove(&mut self, id: u64)
        requires
            old(self).wf(),
        ensures
            final(self).wf(),
            remove_step(*old(self), *final(self), id),
    {
        let mut i: usize = 0;
        let n = self.clients.len();
        while i < n
            invariant
                0 <= i <= n,
                n == self.clients@.len(),
                old(self) == self,
                forall|k: int| 0 <= k < i ==> (#[trigger] self.clients@[k]).id != id,
            decreases n - i,
        {
            if self.clients[i].id == id {
                self.clients.remove(i);
                proof {
                    let pre = old(self).clients@;
                    assert(pre[i as int].id == id);
                    let k = choose|k: int|
                        0 <= k < pre.len() && (#[trigger] pre[k]).id == id;
                    assert(pre[k].id == id);
                    if k != i {
                        if k < i as int {
                            assert(pre[k].id != pre[i as int].id);
                        } else {
                            assert(pre[i as int].id != pre[k].id);
                        }
                        assert(false);
                    }
                    assert(self.clients@ =~= pre.subrange(0, i as int) + pre.subrange(
                        i as int + 1,
                        pre.len() as int,
                    ));
                    assert forall|j: int| 0 <= j < self.clients@.len() implies (
                    #[trigger] self.clients@[j]).wf(self.history@, self.next_id) by {
                        if j < i as int {
                            assert(self.clients@[j] == pre[j]);
                            assert(pre[j].wf(self.history@, self.next_id));
                        } else {
                            assert(self.clients@[j] == pre[j + 1]);
                            assert(pre[j + 1].wf(self.history@, self.next_id));
                        }
                    }
                    assert forall|j1: int, j2: int|
                        0 <= j1 < j2 < self.clients@.len() implies self.clients@[j1].id
                        != self.clients@[j2].id by {
                        let p1 = if j1 < i as int {
                            j1
                        } else {
                            j1 + 1
                        };
                        let p2 = if j2 < i as int {
                            j2
                        } else {
                            j2 + 1
                        };
                        assert(self.clients@[j1] == pre[p1]);
                        assert(self.clients@[j2] == pre[p2]);
                        assert(pre[p1].id != pre[p2].id);
                    }
                    if self.clients@.len() > 0 {
                        assert(old(self).clients@.len() > 0);
                    }
                    if self.next_id == 0 {
                        assert(old(self).clients@.len() == 0);
                        assert(false);
                    }
                }
                return ;
            }
            i = i + 1;
        }
        proof {
            assert forall|k: int|
                0 <= k < self.clients@.len() implies (#[trigger] self.clients@[k]).id != id by {}
        }
    }

    /// Hand out everything queued for the client with the given id, in
    /// order, leaving its queue empty. Returns `None` when no live
    /// client has that id.
    #[verifier::loop_isolation(false)]
    pub fn take_pending(&mut self, id: u64) -> (out: Option<Vec<Vec<u8>>>)
        requires
            old(self).wf(),
        ensures
            final(self).wf(),
            match out {
                Some(msgs) => exists|k: int|
                    take_step(*old(self), *final(self), k, msgs_view(msgs@)) && (#[trigger] old(
                        self,
                    ).clients@[k]).id == id,
                None => {
                    &&& *final(self) == *old(self)
                    &&& forall|k: int|
                        0 <= k < old(self).clients@.len() ==> (#[trigger] old(
                            self,
                        ).clients@[k]).id != id
                },
            },
    {
        let mut i: usize = 0;
        let n = self.clients.len();
        while i < n
            invariant
                0 <= i <= n,
                n == self.clients@.len(),
                old(self) == self,
                forall|k: int| 0 <= k < i ==> (#[trigger] self.clients@[k]).id != id,
            decreases n - i,
        {
            if self.clients[i].id == id {
                let mut c = self.clients.remove(i);
                let ghost cpre = c;
                let mut out: Vec<Vec<u8>> = Vec::new();
                while c.pending.len() > 0
                    invariant
                        out@ + c.pending@ =~= cpre.pending@,
                        c.id == cpre.id,
                        c.got == cpre.got,
                        c.handed == cpre.handed,
                    decreases c.pending@.len(),
                {
                    let m = c.pending.remove(0);
                    out.push(m);
                }
                proof {
                    assert(out@ =~= cpre.pending@);
                }
                c.handed = Ghost(c.handed@ + out.len() as nat);
                let ghost gc = c;
                self.clients.insert(i, c);
                proof {
                    assert(cpre == old(self).clients@[i as int]);
                    assert(cpre.wf(self.history@, self.next_id));
                    assert(self.clients@ =~= old(self).clients@.update(i as int, gc));
                    assert(self.clients@[i as int] == gc);
                    assert(out@.len() == cpre.pending@.len());
                    assert(gc.handed@ == gc.got@.len());
                    assert(gc.got@.skip(gc.handed@ as int) =~= Seq::<Seq<u8>>::empty());
                    assert(msgs_view(gc.pending@) =~= Seq::<Seq<u8>>::empty());
                    assert(msgs_view(out@) == msgs_view(cpre.pending@));
                    assert(gc.wf(self.history@, self.next_id));
                    assert(take_step(*old(self), *self, i as int, msgs_view(out@)));
                    assert forall|j: int| 0 <= j < self.clients@.len() implies (
                    #[trigger] self.clients@[j]).wf(self.history@, self.next_id) by {
                        assert(old(self).clients@[j].wf(self.history@, self.next_id));
                    }
                }
                return Some(out);
            }
            i = i + 1;
        }
        None
    }
}

/// `s` is the final stretch of `t`.
pub open spec fn is_suffix_of(s: Seq<Seq<u8>>, t: Seq<Seq<u8>>) -> bool {
    &&& s.len() <= t.len()
    &&& s == t.skip(t.len() - s.len())
}

/// Ordering: every live client's stream is a suffix of the global
/// publish history. A client therefore receives the messages published
/// since it joined in exactly the global publish order, with no
/// reordering, no duplication and no loss.
pub proof fn lemma_client_sees_publish_order(r: Registry, i: int)
    requires
        r.wf(),
        0 <= i < r.clients@.len(),
    ensures
        is_suffix_of(r.clients@[i].got@, r.history@),
{
    assert(r.clients@[i].wf(r.history@, r.next_id));
}

/// Late-join completeness: while no viewer has ever registered, the
/// pending buffer holds the entire publish history, so the first
/// client to register is given exactly the messages published so far,
/// in original emission order.
pub proof fn lemma_first_viewer_sees_all(r: Registry)
    requires
        r.wf(),
        r.next_id == 0,
    ensures
        msgs_view(r.buffer@) == r.history@,
{
    assert(msgs_view(r.buffer@) =~= r.history@);
}

/// Failure isolation: after a message is published and the client whose
/// write failed is removed, every other client is still live, still has
/// the message that triggered the failure at the end of its stream, and
/// the failed client is gone from the broadcast set.
pub proof fn lemma_failure_isolation(
    r0: Registry,
    r1: Registry,
    r2: Registry,
    m: Seq<u8>,
    failed: u64,
    i: int,
)
    requires
        r0.wf(),
        publish_step(r0, r1, m),
        remove_step(r1, r2, failed),
        r0.clients@.len() > 0,
        0 <= i < r0.clients@.len(),
        r0.clients@[i].id != failed,
    ensures
        exists|j: int|
            {
                &&& 0 <= j < r2.clients@.len()
                &&& (#[trigger] r2.clients@[j]).id == r0.clients@[i].id
                &&& r2.clients@[j].got@ == r0.clients@[i].got@.push(m)
                &&& r2.clients@[j].got@.last() == m
            },
        forall|j: int| 0 <= j < r2.clients@.len() ==> (#[trigger] r2.clients@[j]).id != failed,
{
    let n = r1.clients@.len() as int;
    assert(client_given(r0.clients@[i], r1.clients@[i], m));
    assert forall|p: int, q: int|
        0 <= p < q < n implies r1.clients@[p].id != r1.clients@[q].id by {
        assert(client_given(r0.clients@[p], r1.clients@[p], m));
        assert(client_given(r0.clients@[q], r1.clients@[q], m));
    }
    if exists|k: int| 0 <= k < r1.clients@.len() && (#[trigger] r1.clients@[k]).id == failed {
        let k = choose|k: int| 0 <= k < r1.clients@.len() && (#[trigger] r1.clients@[k]).id
            == failed;
        assert(r2.clients@ == r1.clients@.subrange(0, k) + r1.clients@.subrange(k + 1, n));
        assert(r1.clients@[i].id != failed);
        assert(k != i);
        let j = if i < k {
            i
        } else {
            i - 1
        };
        assert(r2.clients@[j] == r1.clients@[i]);
        assert(r2.clients@[j].got@.last() == m);
        assert forall|j2: int|
            0 <= j2 < r2.clients@.len() implies (#[trigger] r2.clients@[j2]).id != failed by {
            let p = if j2 < k {
                j2
            } else {
                j2 + 1
            };
            assert(r2.clients@[j2] == r1.clients@[p]);
            if r1.clients@[p].id == failed {
                if p < k {
                    assert(r1.clients@[p].id != r1.clients@[k].id);
                } else {
                    assert(r1.clients@[k].id != r1.clients@[p].id);
                }
            }
        }
    } else {
        assert(r2.clients@ == r1.clients@);
        assert(r2.clients@[i] == r1.clients@[i]);
        assert(r2.clients@[i].got@.last() == m);
    }
}

} // verus!
