//! The guest-side mailbox: handle-addressed message buffers, and the small
//! cooperative kernel that echoes every inbound message out twice.

use vstd::prelude::*;
use crate::wasm::views_of;

verus! {

/// A handle naming one message buffer. Handles are dense: the first
/// allocation of a fresh mailbox gets handle 0.
#[derive(Clone, Copy, Debug, PartialEq, Eq, Structural)]
pub struct MessageHandle(pub u32);

/// A set of message buffers addressed by handle.
pub struct MailBox {
    buffers: Vec<(u32, Vec<u8>)>,
    next: u32,
}

impl MailBox {
    /// The buffers as a map from handle to contents.
    pub closed spec fn contents(&self) -> Map<u32, Seq<u8>> {
        Map::new(
            |h: u32| exists|i: int| 0 <= i < self.buffers@.len() && (#[trigger] self.buffers@[i].0) == h,
            |h: u32|
                {
                    let i = choose|i: int|
                        0 <= i < self.buffers@.len() && (#[trigger] self.buffers@[i].0) == h;
                    self.buffers@[i].1@
                },
        )
    }

    /// The next unused handle.
    pub closed spec fn next_handle(&self) -> u32 {
        self.next
    }

    /// Handles are unique and below the allocation counter.
    pub closed spec fn inv(&self) -> bool {
        &&& forall|i: int, j: int|
            0 <= i < j < self.buffers@.len() ==> (#[trigger] self.buffers@[i].0) != (
            #[trigger] self.buffers@[j].0)
        &&& forall|i: int| 0 <= i < self.buffers@.len() ==> (#[trigger] self.buffers@[i].0)
            < self.next
    }

    /// An empty mailbox whose first handle is 0.
    pub fn new() -> (r: MailBox)
        ensures
            r.inv(),
            r.contents() == Map::<u32, Seq<u8>>::empty(),
            r.next_handle() == 0,
    {
        let r = MailBox { buffers: Vec::new(), next: 0 };
        proof {
            assert(r.contents() =~= Map::<u32, Seq<u8>>::empty());
        }
        r
    }

    fn find(&self, handle: u32) -> (r: Option<usize>)
        requires
            self.inv(),
        ensures
            match r {
                Some(i) => i < self.buffers@.len() && self.buffers@[i as int].0 == handle
                    && self.contents().contains_key(handle) && self.contents()[handle]
                    == self.buffers@[i as int].1@,
                None => !self.contents().contains_key(handle),
            },
    {
        let mut k: usize = 0;
        while k < self.buffers.len()
            invariant
                k <= self.buffers@.len(),
                self.inv(),
                forall|i: int| 0 <= i < k ==> (#[trigger] self.buffers@[i].0) != handle,
            decreases self.buffers@.len() - k,
        {
            if self.buffers[k].0 == handle {
                proof {
                    let w = choose|i: int|
                        0 <= i < self.buffers@.len() && (#[trigger] self.buffers@[i].0) == handle;
                    assert(w == k as int);
                }
                return Some(k);
            }
            k = k + 1;
        }
        None
    }

    /// Reserve a zeroed buffer of `length` bytes and hand out its handle.
    pub fn allocate(&mut self, length: usize) -> (r: MessageHandle)
        requires
            old(self).inv(),
            old(self).next_handle() < u32::MAX,
        ensures
            final(self).inv(),
            r.0 == old(self).next_handle(),
            final(self).next_handle() == old(self).next_handle() + 1,
            final(self).contents() == old(self).contents().insert(
                r.0,
                Seq::<u8>::new(length as nat, |i: int| 0u8),
            ),
    {
        let mut buf: Vec<u8> = Vec::new();
        let mut k: usize = 0;
        while k < length
            invariant
                k <= length,
                buf@ =~= Seq::<u8>::new(k as nat, |i: int| 0u8),
            decreases length - k,
        {
            buf.push(0);
            k = k + 1;
            proof {
                assert(buf@ =~= Seq::<u8>::new(k as nat, |i: int| 0u8));
            }
        }
        let handle: u32 = self.next;
        self.buffers.push((handle, buf));
        self.next = self.next + 1;
        proof {
            let ov = old(self).buffers@;
            let nv = self.buffers@;
            let ghost val = nv[nv.len() - 1].1@;
            assert(nv =~= ov.push(nv[nv.len() - 1]));
            assert forall|h: u32|
                final(self).contents().contains_key(h) == old(self).contents().insert(
                    handle,
                    val,
                ).contains_key(h) by {
                if h == handle {
                    assert(nv[nv.len() - 1].0 == h);
                } else {
                    if exists|a: int| 0 <= a < ov.len() && (#[trigger] ov[a].0) == h {
                        let a = choose|a: int| 0 <= a < ov.len() && (#[trigger] ov[a].0) == h;
                        assert(nv[a].0 == h);
                    }
                    if exists|a: int| 0 <= a < nv.len() && (#[trigger] nv[a].0) == h {
                        let a = choose|a: int| 0 <= a < nv.len() && (#[trigger] nv[a].0) == h;
                        assert(a < ov.len());
                        assert(ov[a].0 == h);
                    }
                }
            }
            assert forall|h: u32| #[trigger]
                final(self).contents().contains_key(h) implies final(self).contents()[h] == old(
                    self,
                ).contents().insert(handle, val)[h] by {
                let a = choose|a: int| 0 <= a < nv.len() && (#[trigger] nv[a].0) == h;
                if h == handle {
                    assert(a == nv.len() - 1) by {
                        if a < ov.len() {
                            assert(ov[a].0 < old(self).next);
                        }
                    };
                } else {
                    assert(a < ov.len());
                    assert(ov[a].0 == h);
                    let w = choose|w: int| 0 <= w < ov.len() && (#[trigger] ov[w].0) == h;
                    assert(w == a);
                }
            }
            assert(final(self).contents() =~= old(self).contents().insert(handle, val));
        }
        MessageHandle(handle)
    }

    /// Store `message` under a fresh handle.
    pub fn assign(&mut self, message: Vec<u8>) -> (r: MessageHandle)
        requires
            old(self).inv(),
            old(self).next_handle() < u32::MAX,
        ensures
            final(self).inv(),
            r.0 == old(self).next_handle(),
            final(self).next_handle() == old(self).next_handle() + 1,
            final(self).contents() == old(self).contents().insert(r.0, message@),
    {
        let handle: u32 = self.next;
        let ghost msgv = message@;
        self.buffers.push((handle, message));
        self.next = self.next + 1;
        proof {
            let ov = old(self).buffers@;
            let nv = self.buffers@;
            let ghost val = nv[nv.len() - 1].1@;
            assert(nv =~= ov.push(nv[nv.len() - 1]));
            assert forall|h: u32|
                final(self).contents().contains_key(h) == old(self).contents().insert(
                    handle,
                    val,
                ).contains_key(h) by {
                if h == handle {
                    assert(nv[nv.len() - 1].0 == h);
                } else {
                    if exists|a: int| 0 <= a < ov.len() && (#[trigger] ov[a].0) == h {
                        let a = choose|a: int| 0 <= a < ov.len() && (#[trigger] ov[a].0) == h;
                        assert(nv[a].0 == h);
                    }
                    if exists|a: int| 0 <= a < nv.len() && (#[trigger] nv[a].0) == h {
                        let a = choose|a: int| 0 <= a < nv.len() && (#[trigger] nv[a].0) == h;
                        assert(a < ov.len());
                        assert(ov[a].0 == h);
                    }
                }
            }
            assert forall|h: u32| #[trigger]
                final(self).contents().contains_key(h) implies final(self).contents()[h] == old(
                    self,
                ).contents().insert(handle, val)[h] by {
                let a = choose|a: int| 0 <= a < nv.len() && (#[trigger] nv[a].0) == h;
                if h == handle {
                    assert(a == nv.len() - 1) by {
                        if a < ov.len() {
                            assert(ov[a].0 < old(self).next);
                        }
                    };
                } else {
                    assert(a < ov.len());
                    assert(ov[a].0 == h);
                    let w = choose|w: int| 0 <= w < ov.len() && (#[trigger] ov[w].0) == h;
                    assert(w == a);
                }
            }
            assert(final(self).contents() =~= old(self).contents().insert(handle, val));
        }
        MessageHandle(handle)
    }

    /// Borrow the buffer named by `handle`, if it exists.
    pub fn as_slice(&self, handle: MessageHandle) -> (r: Option<&[u8]>)
        requires
            self.inv(),
        ensures
            match r {
                Some(s) => self.contents().contains_key(handle.0) && s@ == self.contents()[
                    handle.0
                ],
                None => !self.contents().contains_key(handle.0),
            },
    {
        match self.find(handle.0) {
            Some(i) => Some(self.buffers[i].1.as_slice()),
            None => None,
        }
    }

    /// Overwrite the buffer named by `handle` with `bytes`.
    pub fn fill(&mut self, handle: MessageHandle, bytes: Vec<u8>) -> (r: bool)
        requires
            old(self).inv(),
        ensures
            final(self).inv(),
            final(self).next_handle() == old(self).next_handle(),
            r == old(self).contents().contains_key(handle.0),
            r ==> final(self).contents() == old(self).contents().insert(handle.0, bytes@),
            !r ==> final(self).contents() == old(self).contents(),
    {
        let ghost bv = bytes@;
        match self.find(handle.0) {
            Some(i) => {
                self.buffers.set(i, (handle.0, bytes));
                proof {
                    let ov = old(self).buffers@;
                    let nv = self.buffers@;
                    assert forall|a: int, b: int|
                        0 <= a < b < nv.len() implies (#[trigger] nv[a].0) != (
                        #[trigger] nv[b].0) by {
                        assert(ov[a].0 != ov[b].0);
                        assert(nv[a].0 == ov[a].0 && nv[b].0 == ov[b].0);
                    }
                    assert forall|h: u32|
                        final(self).contents().contains_key(h) == old(self).contents().insert(
                            handle.0,
                            bv,
                        ).contains_key(h) by {
                        if exists|a: int| 0 <= a < ov.len() && (#[trigger] ov[a].0) == h {
                            let a = choose|a: int| 0 <= a < ov.len() && (#[trigger] ov[a].0) == h;
                            assert(nv[a].0 == h);
                        }
                        if exists|a: int| 0 <= a < nv.len() && (#[trigger] nv[a].0) == h {
                            let a = choose|a: int| 0 <= a < nv.len() && (#[trigger] nv[a].0) == h;
                            assert(ov[a].0 == h);
                        }
                    }
                    assert forall|h: u32| #[trigger]
                        final(self).contents().contains_key(h) implies final(self).contents()[h]
                        == old(self).contents().insert(handle.0, bv)[h] by {
                        let a = choose|a: int| 0 <= a < nv.len() && (#[trigger] nv[a].0) == h;
                        if h == handle.0 {
                            assert(a == i as int) by {
                                assert(nv[i as int].0 == h);
                            };
                        } else {
                            assert(a != i as int);
                            assert(ov[a].0 == h);
                            let w = choose|w: int| 0 <= w < ov.len() && (#[trigger] ov[w].0) == h;
                            assert(w == a);
                        }
                    }
                    assert(final(self).contents() =~= old(self).contents().insert(handle.0, bv));
                }
                true
            },
            None => {
                proof {
                    assert(final(self).contents() =~= old(self).contents());
                }
                false
            },
        }
    }

    /// Take the buffer named by `handle` out of the mailbox.
    pub fn take(&mut self, handle: MessageHandle) -> (r: Option<Vec<u8>>)
        requires
            old(self).inv(),
        ensures
            final(self).inv(),
            final(self).next_handle() == old(self).next_handle(),
            match r {
                Some(v) => old(self).contents().contains_key(handle.0) && v@ == old(
                    self,
                ).contents()[handle.0] && final(self).contents() == old(self).contents().remove(
                    handle.0,
                ),
                None => !old(self).contents().contains_key(handle.0) && final(self).contents()
                    == old(self).contents(),
            },
    {
        match self.find(handle.0) {
            Some(i) => {
                let (_, buf) = self.buffers.remove(i);
                proof {
                    assert forall|h: u32|
                        final(self).contents().contains_key(h) == old(
                            self,
                        ).contents().remove(handle.0).contains_key(h) by {
                        if h != handle.0 {
                            if exists|a: int|
                                0 <= a < old(self).buffers@.len() && (
                                #[trigger] old(self).buffers@[a].0) == h {
                                let a = choose|a: int|
                                    0 <= a < old(self).buffers@.len() && (
                                    #[trigger] old(self).buffers@[a].0) == h;
                                if a < i as int {
                                    assert(self.buffers@[a].0 == h);
                                } else if a > i as int {
                                    assert(self.buffers@[a - 1].0 == h);
                                }
                            } else {
                                if exists|a: int|
                                    0 <= a < self.buffers@.len() && (
                                    #[trigger] self.buffers@[a].0) == h {
                                    let a = choose|a: int|
                                        0 <= a < self.buffers@.len() && (
                                        #[trigger] self.buffers@[a].0) == h;
                                    if a < i as int {
                                        assert(old(self).buffers@[a].0 == h);
                                    } else {
                                        assert(old(self).buffers@[a + 1].0 == h);
                                    }
                                }
                            }
                        } else {
                            if exists|a: int|
                                0 <= a < self.buffers@.len() && (#[trigger] self.buffers@[a].0)
                                    == h {
                                let a = choose|a: int|
                                    0 <= a < self.buffers@.len() && (
                                    #[trigger] self.buffers@[a].0) == h;
                                if a < i as int {
                                    assert(old(self).buffers@[a].0 == h);
                                } else {
                                    assert(old(self).buffers@[a + 1].0 == h);
                                }
                                assert(old(self).buffers@[i as int].0 == h);
                                assert(false);
                            }
                        }
                    }
                    assert forall|h: u32| #[trigger]
                        final(self).contents().contains_key(h) implies final(self).contents()[h]
                        == old(self).contents().remove(handle.0)[h] by {
                        let a = choose|a: int|
                            0 <= a < self.buffers@.len() && (#[trigger] self.buffers@[a].0) == h;
                        if a < i as int {
                            assert(old(self).buffers@[a].0 == h);
                            let w = choose|w: int|
                                0 <= w < old(self).buffers@.len() && (
                                #[trigger] old(self).buffers@[w].0) == h;
                            assert(w == a);
                        } else {
                            assert(old(self).buffers@[a + 1].0 == h);
                            let w = choose|w: int|
                                0 <= w < old(self).buffers@.len() && (
                                #[trigger] old(self).buffers@[w].0) == h;
                            assert(w == a + 1);
                        }
                    }
                    assert(final(self).contents() =~= old(self).contents().remove(handle.0));
                }
                Some(buf)
            },
            None => None,
        }
    }
}

/// The outbox of the echo kernel after draining `msgs`: starting at handle
/// `base`, each message is stored twice, under consecutive fresh handles,
/// in arrival order.
pub open spec fn echo_out(m: Map<u32, Seq<u8>>, base: int, msgs: Seq<Seq<u8>>) -> Map<
    u32,
    Seq<u8>,
>
    decreases msgs.len(),
{
    if msgs.len() == 0 {
        m
    } else {
        echo_out(
            m.insert(base as u32, msgs[0]).insert((base + 1) as u32, msgs[0]),
            base + 2,
            msgs.drop_first(),
        )
    }
}

/// The guest kernel of the echo program: every message received is sent out
/// twice, in order, through the outbox mailbox.
pub struct GuestRuntime {
    pub inbox: MailBox,
    pub outbox: MailBox,
    pub pending: Vec<Vec<u8>>,
}

impl GuestRuntime {
    /// A fresh runtime with empty mailboxes.
    pub fn new() -> (r: GuestRuntime)
        ensures
            r.inbox.inv() && r.outbox.inv(),
            r.inbox.contents() == Map::<u32, Seq<u8>>::empty(),
            r.outbox.contents() == Map::<u32, Seq<u8>>::empty(),
            r.inbox.next_handle() == 0,
            r.outbox.next_handle() == 0,
            r.pending@.len() == 0,
    {
        GuestRuntime { inbox: MailBox::new(), outbox: MailBox::new(), pending: Vec::new() }
    }

    /// Deliver an inbound message: place it in the inbox and hand it to the
    /// processing queue, as the receive hook does.
    pub fn inject_message(&mut self, message: Vec<u8>) -> (r: MessageHandle)
        requires
            old(self).inbox.inv(),
            old(self).outbox.inv(),
            old(self).inbox.next_handle() < u32::MAX,
        ensures
            final(self).inbox.inv() && final(self).outbox.inv(),
            final(self).outbox == old(self).outbox,
            views_of(final(self).pending@) =~= views_of(old(self).pending@).push(message@),
            r.0 == old(self).inbox.next_handle(),
            final(self).inbox.contents() == old(self).inbox.contents(),
            final(self).inbox.next_handle() == old(self).inbox.next_handle() + 1,
    {
        let ghost c0 = self.inbox.contents();
        proof {
            // the fresh handle is not yet a key of the inbox
            if c0.contains_key(old(self).inbox.next_handle()) {
                assert(false);
            }
        }
        let handle = self.inbox.allocate(message.len());
        let ghost mv = message@;
        self.inbox.fill(handle, message);
        let taken = self.inbox.take(handle);
        proof {
            assert(self.inbox.contents() =~= c0);
        }
        match taken {
            Some(m) => {
                let ghost prev = self.pending@;
                self.pending.push(m);
                proof {
                    crate::wasm::lemma_views_push(prev, m);
                    assert(views_of(final(self).pending@) =~= views_of(old(self).pending@).push(
                        mv,
                    ));
                }
            },
            None => {
                proof {
                    assert(false);
                }
            },
        }
        handle
    }

    /// Drive the guest executor until idle: each queued message is sent out
    /// twice, in arrival order. The outbox afterwards is exactly the old
    /// outbox extended, per queued message, with two fresh consecutive
    /// handles both holding that message's bytes.
    pub fn run(&mut self)
        requires
            old(self).inbox.inv(),
            old(self).outbox.inv(),
            old(self).outbox.next_handle() as int + 2 * old(self).pending@.len()
                <= u32::MAX as int,
        ensures
            final(self).inbox == old(self).inbox,
            final(self).outbox.inv(),
            final(self).pending@.len() == 0,
            final(self).outbox.next_handle() == old(self).outbox.next_handle() + 2 * old(
                self,
            ).pending@.len(),
            final(self).outbox.contents() == echo_out(
                old(self).outbox.contents(),
                old(self).outbox.next_handle() as int,
                views_of(old(self).pending@),
            ),
    {
        let ghost pend = views_of(self.pending@);
        let ghost base = self.outbox.next_handle();
        let ghost c0 = self.outbox.contents();
        let mut k: usize = 0;
        let n: usize = self.pending.len();
        proof {
            assert(pend.skip(0) =~= pend);
        }
        while k < n
            invariant
                k <= n,
                n == pend.len(),
                views_of(self.pending@) =~= pend,
                self.pending@.len() == n,
                self.inbox == old(self).inbox,
                self.outbox.inv(),
                self.inbox.inv(),
                base as int + 2 * pend.len() <= u32::MAX as int,
                self.outbox.next_handle() == base + 2 * k,
                echo_out(c0, base as int, pend) == echo_out(
                    self.outbox.contents(),
                    base as int + 2 * (k as int),
                    pend.skip(k as int),
                ),
            decreases n - k,
        {
            let ghost cb = self.outbox.contents();
            let first = crate::wasm::clone_bytes(&self.pending[k]);
            let second = crate::wasm::clone_bytes(&self.pending[k]);
            proof {
                assert(first@ == pend[k as int]);
                assert(second@ == pend[k as int]);
            }
            let h1 = self.outbox.assign(first);
            let h2 = self.outbox.assign(second);
            proof {
                assert(h1.0 as int == base as int + 2 * (k as int));
                assert(h2.0 as int == base as int + 2 * (k as int) + 1);
                assert(self.outbox.contents() == cb.insert(h1.0, pend[k as int]).insert(
                    h2.0,
                    pend[k as int],
                ));
                assert(pend.skip(k as int)[0] == pend[k as int]);
                assert(pend.skip(k as int).drop_first() =~= pend.skip(k as int + 1));
                assert(echo_out(cb, base as int + 2 * (k as int), pend.skip(k as int))
                    == echo_out(
                    self.outbox.contents(),
                    base as int + 2 * (k as int) + 2,
                    pend.skip(k as int + 1),
                ));
            }
            k = k + 1;
        }
        proof {
            assert(pend.skip(n as int) =~= Seq::<Seq<u8>>::empty());
            assert(echo_out(c0, base as int, pend) == self.outbox.contents());
        }
        self.pending = Vec::new();
    }
}

} // verus!
