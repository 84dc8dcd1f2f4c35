//! What the proxy between clients and servers decides about the frames it receives:
//! client requests go to one server, server replies go back to their clients, and a
//! server that announces itself joins the proxy's ring.
use vstd::prelude::*;
use crate::hash_ring::{with_vnodes, HashRing, REPLICAS, VNODES};
use crate::ids::{parse_uuid_ascii, parsed_uuid_ascii};

verus! {

/// The identity (`peer1`) of the server that client requests are routed to.
pub open spec fn target_server() -> Seq<u8> {
    seq![112u8, 101u8, 101u8, 114u8, 49u8]
}

/// The payload (`READY`) with which a server announces itself.
pub open spec fn ready_word() -> Seq<u8> {
    seq![82u8, 69u8, 65u8, 68u8, 89u8]
}

/// Whether the frames from the backend are a server's announcement: its identity,
/// then `READY`.
pub open spec fn is_announcement(frames: Seq<Vec<u8>>) -> bool {
    frames.len() == 2 && frames[1]@ == ready_word()
}

/// What the proxy does with frames from the backend.
pub enum BackendOutcome {
    /// A server announced itself and joined the ring.
    Registered(u128),
    /// An announcement whose identity is not a UUID: nothing is done.
    Dropped,
    /// A reply: these frames go to the frontend.
    Forward(Vec<Vec<u8>>),
}

/// The state of the proxy that its decisions need: the ring of known servers.
pub struct ProxyRouter {
    ring: HashRing,
}

impl ProxyRouter {
    pub closed spec fn wf(&self) -> bool {
        self.ring.wf() && self.ring.vnode_count() == VNODES && self.ring.replica_count() == REPLICAS
    }

    /// The ring of servers that announced themselves.
    pub closed spec fn servers_ring(&self) -> HashRing {
        self.ring
    }

    /// A proxy that knows no server yet.
    pub fn new() -> (r: Self)
        ensures
            r.wf(),
            r.servers_ring()@ == Map::<u128, u128>::empty(),
    {
        ProxyRouter { ring: HashRing::new(VNODES, REPLICAS) }
    }

    /// The frames of a client request as they go to the backend: the target server's
    /// identity in front of the request's own frames.
    pub fn on_frontend(&self, frames: Vec<Vec<u8>>) -> (r: Vec<Vec<u8>>)
        ensures
            r.len() == frames.len() + 1,
            r@[0]@ == target_server(),
            r@.drop_first() == frames@,
    {
        let mut out = frames;
        let target: Vec<u8> = vec![112u8, 101u8, 101u8, 114u8, 49u8];
        proof {
            assert(target@ =~= target_server());
        }
        out.insert(0, target);
        proof {
            assert(out@.drop_first() =~= frames@);
        }
        out
    }

    /// Handles frames from the backend. An announcement whose identity is a UUID adds
    /// that server to the ring and sends nothing; one whose identity is not is
    /// dropped; any other message goes to the frontend without its first frame (the
    /// server's identity).
    pub fn on_backend(&mut self, frames: Vec<Vec<u8>>) -> (r: BackendOutcome)
        requires
            old(self).wf(),
        ensures
            final(self).wf(),
            is_announcement(frames@) ==> match parsed_uuid_ascii(frames@[0]@) {
                Some(id) => r == BackendOutcome::Registered(id) && final(self).servers_ring()@
                    == with_vnodes(old(self).servers_ring()@, id, VNODES as nat),
                None => r == BackendOutcome::Dropped && final(self).servers_ring()@ == old(
                    self,
                ).servers_ring()@,
            },
            !is_announcement(frames@) ==> final(self).servers_ring()@ == old(self).servers_ring()@,
            !is_announcement(frames@) ==> (r matches BackendOutcome::Forward(out) && out@ == if frames.len() > 0 {
                frames@.drop_first()
            } else {
                frames@
            }),
    {
        let announcement = frames.len() == 2 && is_ready_word(&frames[1]);
        if announcement {
            return match parse_uuid_ascii(frames[0].as_slice()) {
                Some(id) => {
                    self.ring.add_node(id);
                    BackendOutcome::Registered(id)
                },
                None => BackendOutcome::Dropped,
            };
        }
        let mut out = frames;
        if out.len() > 0 {
            out.remove(0);
            proof {
                assert(out@ =~= frames@.drop_first());
            }
        }
        BackendOutcome::Forward(out)
    }
}

/// Whether `f` is the word `READY`.
fn is_ready_word(f: &Vec<u8>) -> (r: bool)
    ensures
        r == (f@ == ready_word()),
{
    let r = f.len() == 5 && f[0] == 82u8 && f[1] == 69u8 && f[2] == 65u8 && f[3] == 68u8 && f[4]
        == 89u8;
    proof {
        if r {
            assert(f@ =~= ready_word());
        }
    }
    r
}

} // verus!
