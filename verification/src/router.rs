//! The namespace router: one inbox per process, one dispatch queue, and the
//! routing rule that an envelope goes to the process its header names, or to
//! the root process `/` when the name resolves to nothing.

use vstd::prelude::*;
use crate::Message;
use crate::wasm::views_of;

verus! {

/// The routing target a payload names, as raw bytes, if its `othismo`
/// header carries a `send_to` string. A pure function of the bytes.
pub uninterp spec fn send_to_of_bytes(b: Seq<u8>) -> Option<Seq<u8>>;

/// Relies on `bson::Document::from_reader`, `Document::get_document` and
/// `Document::get_str`: the `send_to` string of the top-level `othismo`
/// sub-document, which depends on the payload bytes alone.
#[verifier::external_body]
fn send_to_of(bytes: &[u8]) -> (r: Option<Vec<u8>>)
    ensures
        match r {
            Some(v) => send_to_of_bytes(bytes@) == Some(v@),
            None => send_to_of_bytes(bytes@) is None,
        },
{
    let doc = bson::Document::from_reader(&mut std::io::Cursor::new(bytes)).ok()?;
    let header = doc.get_document("othismo").ok()?;
    let target = header.get_str("send_to").ok()?;
    Some(target.as_bytes().to_vec())
}

/// One cooperative process: a name and its inbox, oldest message first.
pub struct Process {
    pub name: Vec<u8>,
    pub inbox: Vec<Message>,
}

/// The destination of a payload among the given process names: the named
/// process if the header resolves to one, else the root process `/`.
pub open spec fn destination(names: Seq<Seq<u8>>, payload: Seq<u8>) -> Seq<u8> {
    match send_to_of_bytes(payload) {
        Some(n) => if names.contains(n) {
            n
        } else {
            seq![47u8]
        },
        None => seq![47u8],
    }
}

/// The names of a process list.
pub open spec fn names_of(ps: Seq<Process>) -> Seq<Seq<u8>> {
    ps.map_values(|p: Process| p.name@)
}

/// The router: the process map and the dispatch queue, with the counters
/// that back idleness detection.
pub struct Namespace {
    pub processes: Vec<Process>,
    pub dispatch: Vec<Message>,
    pub messages_sent: u64,
    pub last_sent_at: u64,
}

impl Namespace {
    /// Process names are unique and the root process exists.
    pub open spec fn inv(&self) -> bool {
        &&& forall|i: int, j: int|
            0 <= i < j < self.processes@.len() ==> (#[trigger] self.processes@[i].name@) != (
            #[trigger] self.processes@[j].name@)
        &&& exists|i: int|
            0 <= i < self.processes@.len() && (#[trigger] self.processes@[i].name@) == seq![47u8]
    }

    /// A fresh router holding only the root process.
    pub fn new() -> (r: Namespace)
        ensures
            r.inv(),
            r.processes@.len() == 1,
            r.processes@[0].name@ == seq![47u8],
            r.processes@[0].inbox@.len() == 0,
            r.dispatch@.len() == 0,
            r.messages_sent == 0,
    {
        let mut root_name: Vec<u8> = Vec::new();
        root_name.push(47);
        let mut processes: Vec<Process> = Vec::new();
        processes.push(Process { name: root_name, inbox: Vec::new() });
        proof {
            assert(seq![47u8] =~= processes@[0].name@);
        }
        let r = Namespace { processes, dispatch: Vec::new(), messages_sent: 0, last_sent_at: 0 };
        proof {
            assert(r.processes@[0].name@ == seq![47u8]);
        }
        r
    }

    /// Register a process under a new name.
    pub fn create_process(&mut self, name: Vec<u8>) -> (r: bool)
        requires
            old(self).inv(),
        ensures
            final(self).inv(),
            r == (forall|i: int|
                0 <= i < old(self).processes@.len() ==> (#[trigger] old(self).processes@[i].name@)
                    != name@),
            r ==> final(self).processes@.len() == old(self).processes@.len() + 1
                && final(self).processes@.last().name@ == name@
                && final(self).processes@.last().inbox@.len() == 0
                && final(self).processes@.subrange(0, old(self).processes@.len() as int)
                == old(self).processes@,
            !r ==> final(self).processes@ == old(self).processes@,
            final(self).dispatch@ == old(self).dispatch@,
    {
        let mut k: usize = 0;
        while k < self.processes.len()
            invariant
                k <= self.processes@.len(),
                self == old(self),
                self.inv(),
                forall|i: int|
                    0 <= i < k ==> (#[trigger] self.processes@[i].name@) != name@,
            decreases self.processes@.len() - k,
        {
            if crate::snapshot::bytes_eq(self.processes[k].name.as_slice(), name.as_slice()) {
                return false;
            }
            k = k + 1;
        }
        let ghost namev = name@;
        self.processes.push(Process { name, inbox: Vec::new() });
        proof {
            let n = self.processes@.len() - 1;
            assert forall|i: int, j: int| 0 <= i < j < self.processes@.len() implies (
            #[trigger] self.processes@[i].name@) != (#[trigger] self.processes@[j].name@) by {
                if j < n {
                    assert(old(self).processes@[i].name@ != old(self).processes@[j].name@);
                } else {
                    assert(self.processes@[j].name@ == namev);
                    assert(old(self).processes@[i].name@ != namev);
                }
            }
            let w = choose|i: int|
                0 <= i < old(self).processes@.len() && (#[trigger] old(self).processes@[i].name@)
                    == seq![47u8];
            assert(self.processes@[w].name@ == seq![47u8]);
            assert(final(self).processes@.subrange(0, old(self).processes@.len() as int)
                =~= old(self).processes@);
        }
        true
    }

    /// Accept an envelope into the dispatch queue, stamping the send
    /// counters that back idleness detection.
    pub fn send_message(&mut self, message: Message, now: u64) -> (r: bool)
        requires
            old(self).inv(),
        ensures
            final(self).inv(),
            r == (old(self).messages_sent < u64::MAX),
            r ==> views_of(final(self).dispatch@) == views_of(old(self).dispatch@).push(message@)
                && final(self).messages_sent == old(self).messages_sent + 1
                && final(self).last_sent_at == now
                && final(self).processes@ == old(self).processes@,
            !r ==> *final(self) == *old(self),
    {
        if self.messages_sent == u64::MAX {
            return false;
        }
        let ghost prev = self.dispatch@;
        self.dispatch.push(message);
        self.messages_sent = self.messages_sent + 1;
        self.last_sent_at = now;
        proof {
            crate::wasm::lemma_views_push(prev, message);
            assert(self.processes@ == old(self).processes@);
        }
        true
    }

    /// The index of the process named `name`, if any.
    fn find_process(&self, name: &[u8]) -> (r: Option<usize>)
        ensures
            match r {
                Some(i) => i < self.processes@.len() && self.processes@[i as int].name@ == name@
                    && names_of(self.processes@).contains(name@),
                None => !names_of(self.processes@).contains(name@),
            },
    {
        let mut k: usize = 0;
        while k < self.processes.len()
            invariant
                k <= self.processes@.len(),
                forall|i: int| 0 <= i < k ==> (#[trigger] self.processes@[i].name@) != name@,
            decreases self.processes@.len() - k,
        {
            if crate::snapshot::bytes_eq(self.processes[k].name.as_slice(), name) {
                proof {
                    assert(names_of(self.processes@)[k as int] == name@);
                }
                return Some(k);
            }
            k = k + 1;
        }
        proof {
            if names_of(self.processes@).contains(name@) {
                let w = choose|w: int|
                    0 <= w < names_of(self.processes@).len() && names_of(self.processes@)[w]
                        == name@;
                assert(self.processes@[w].name@ == name@);
                assert(false);
            }
        }
        None
    }

    /// Deliver the oldest queued envelope to the process its header names,
    /// or to the root process when the name resolves to no process. This is
    /// the routing fallback rule.
    pub fn route_one(&mut self) -> (r: bool)
        requires
            old(self).inv(),
        ensures
            final(self).inv(),
            r == (old(self).dispatch@.len() > 0),
            !r ==> *final(self) == *old(self),
            r ==> {
                &&& views_of(final(self).dispatch@) == views_of(old(self).dispatch@).drop_first()
                &&& names_of(final(self).processes@) == names_of(old(self).processes@)
                &&& exists|t: int|
                    {
                        &&& 0 <= t < old(self).processes@.len()
                        &&& (#[trigger] old(self).processes@[t].name@) == destination(
                            names_of(old(self).processes@),
                            old(self).dispatch@[0]@,
                        )
                        &&& views_of(final(self).processes@[t].inbox@) == views_of(
                            old(self).processes@[t].inbox@,
                        ).push(old(self).dispatch@[0]@)
                        &&& forall|i: int|
                            0 <= i < old(self).processes@.len() && i != t ==> views_of(
                                (#[trigger] final(self).processes@[i]).inbox@,
                            ) == views_of(old(self).processes@[i].inbox@)
                    }
                &&& final(self).messages_sent == old(self).messages_sent
            },
    {
        if self.dispatch.len() == 0 {
            return false;
        }
        let message = self.dispatch.remove(0);
        proof {
            assert(views_of(self.dispatch@) =~= views_of(old(self).dispatch@).drop_first());
        }
        let target = send_to_of(message.bytes());
        let named: Option<usize> = match &target {
            Some(name) => self.find_process(name.as_slice()),
            None => None,
        };
        let idx: usize = match named {
            Some(i) => i,
            None => {
                let mut root: Vec<u8> = Vec::new();
                root.push(47);
                proof {
                    assert(root@ =~= seq![47u8]);
                }
                match self.find_process(root.as_slice()) {
                    Some(i) => i,
                    None => {
                        proof {
                            let w = choose|i: int|
                                0 <= i < self.processes@.len() && (
                                #[trigger] self.processes@[i].name@) == seq![47u8];
                            assert(names_of(self.processes@)[w] == seq![47u8]);
                            assert(false);
                        }
                        0
                    },
                }
            },
        };
        proof {
            assert(self.processes@[idx as int].name@ == destination(
                names_of(self.processes@),
                message@,
            ));
        }
        let ghost pre_procs = self.processes@;
        let entry = self.processes.remove(idx);
        let ghost prev_inbox = entry.inbox@;
        let mut inbox = entry.inbox;
        inbox.push(message);
        proof {
            crate::wasm::lemma_views_push(prev_inbox, message);
        }
        self.processes.insert(idx, Process { name: entry.name, inbox });
        proof {
            assert forall|i: int|
                0 <= i < self.processes@.len() implies (#[trigger] self.processes@[i].name@)
                == pre_procs[i].name@ && (i != idx as int ==> views_of(self.processes@[i].inbox@)
                == views_of(pre_procs[i].inbox@)) by {
                if i < idx as int {
                } else if i > idx as int {
                }
            }
            assert(names_of(self.processes@) =~= names_of(pre_procs));
            assert forall|i: int, j: int|
                0 <= i < j < self.processes@.len() implies (#[trigger] self.processes@[i].name@)
                != (#[trigger] self.processes@[j].name@) by {
                assert(pre_procs[i].name@ != pre_procs[j].name@);
            }
            let w = choose|i: int|
                0 <= i < pre_procs.len() && (#[trigger] pre_procs[i].name@) == seq![47u8];
            assert(self.processes@[w].name@ == seq![47u8]);
        }
        true
    }

    /// Route every queued envelope, oldest first. Per-pair delivery order
    /// follows queue order: each step appends the head envelope to its
    /// destination's inbox, so two messages queued for the same recipient
    /// arrive in the order they were sent.
    pub fn route_all(&mut self)
        requires
            old(self).inv(),
        ensures
            final(self).inv(),
            final(self).dispatch@.len() == 0,
            names_of(final(self).processes@) == names_of(old(self).processes@),
        decreases old(self).dispatch@.len(),
    {
        loop
            invariant_except_break
                self.inv(),
                names_of(self.processes@) == names_of(old(self).processes@),
            ensures
                self.inv(),
                self.dispatch@.len() == 0,
                names_of(self.processes@) == names_of(old(self).processes@),
            decreases self.dispatch@.len(),
        {
            let ghost prev_len = self.dispatch@.len();
            let more = self.route_one();
            if !more {
                break;
            }
            proof {
                assert(views_of(self.dispatch@).len() == prev_len - 1);
                assert(self.dispatch@.len() == prev_len - 1);
            }
        }
    }

    /// Whether the router is quiescent: nothing queued and every inbox
    /// empty. When this reports idle, the dispatch queue is empty and every
    /// process inbox is empty.
    pub fn is_idle(&self) -> (r: bool)
        ensures
            r == (self.dispatch@.len() == 0 && (forall|i: int|
                0 <= i < self.processes@.len() ==> (#[trigger] self.processes@[i].inbox@).len()
                    == 0)),
    {
        if self.dispatch.len() != 0 {
            return false;
        }
        let mut k: usize = 0;
        while k < self.processes.len()
            invariant
                k <= self.processes@.len(),
                self.dispatch@.len() == 0,
                forall|i: int| 0 <= i < k ==> (#[trigger] self.processes@[i].inbox@).len() == 0,
            decreases self.processes@.len() - k,
        {
            if self.processes[k].inbox.len() != 0 {
                return false;
            }
            k = k + 1;
        }
        true
    }

    /// Whether the idle gap has been reached or the wait has timed out: the
    /// decision inside the idleness wait loop.
    pub fn idleness_reached(now: u64, last_sent_at: u64, idle_timeout: u64, started: u64, max_wait: u64) -> (r: bool)
        requires
            now >= last_sent_at,
            now >= started,
        ensures
            r == (now - last_sent_at > idle_timeout || now - started > max_wait),
    {
        now - last_sent_at > idle_timeout || now - started > max_wait
    }
}

} // verus!
