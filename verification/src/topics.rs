//! The gossip topic convention: broadcast topics carry fixed names, and
//! direct messages ride topics of the shape `direct:<peer>:<kind>` with the
//! target peer id embedded. Topics are built and parsed here over their
//! bytes; the transport layer turns them into its own topic values.

use vstd::prelude::*;

use crate::bytes::{clone_bytes, push_bytes};

verus! {

/// The bytes of the broadcast announcement topic.
pub open spec fn new_inv_topic() -> Seq<u8> {
    seq![110u8, 101u8, 119u8, 95u8, 105u8, 110u8, 118u8]
}

/// The bytes of the broadcast chain-sync request topic.
pub open spec fn chain_sync_req_topic() -> Seq<u8> {
    seq![
        99u8, 104u8, 97u8, 105u8, 110u8, 95u8, 115u8, 121u8, 110u8, 99u8, 95u8, 114u8, 101u8,
        113u8,
    ]
}

/// The direct-topic prefix, `direct:`.
pub open spec fn direct_prefix() -> Seq<u8> {
    seq![100u8, 105u8, 114u8, 101u8, 99u8, 116u8, 58u8]
}

/// The bytes of a direct topic: `direct:`, the peer id, a colon, the kind.
pub open spec fn direct_topic(peer: Seq<u8>, kind: Seq<u8>) -> Seq<u8> {
    direct_prefix() + peer + seq![58u8] + kind
}

/// The kind names of the direct topics.
pub open spec fn inv_req_kind() -> Seq<u8> {
    seq![105u8, 110u8, 118u8, 95u8, 114u8, 101u8, 113u8]
}

/// The kind name of the direct inventory response topic.
pub open spec fn inv_res_kind() -> Seq<u8> {
    seq![105u8, 110u8, 118u8, 95u8, 114u8, 101u8, 115u8]
}

/// The kind name of the direct chain-sync response topic.
pub open spec fn chain_sync_res_kind() -> Seq<u8> {
    seq![99u8, 104u8, 97u8, 105u8, 110u8, 95u8, 115u8, 121u8, 110u8, 99u8, 95u8, 114u8, 101u8,
        115u8]
}

/// A gossip topic: the two broadcast overlays, and the three direct kinds
/// addressed to a peer by its id bytes.
#[derive(Debug)]
pub enum GossipTopic {
    NewInv,
    ChainSyncReq,
    InvReq(Vec<u8>),
    InvRes(Vec<u8>),
    ChainSyncRes(Vec<u8>),
}

/// The bytes a topic is published under.
pub open spec fn topic_bytes_of(t: &GossipTopic) -> Seq<u8> {
    match t {
        GossipTopic::NewInv => new_inv_topic(),
        GossipTopic::ChainSyncReq => chain_sync_req_topic(),
        GossipTopic::InvReq(peer) => direct_topic(peer@, inv_req_kind()),
        GossipTopic::InvRes(peer) => direct_topic(peer@, inv_res_kind()),
        GossipTopic::ChainSyncRes(peer) => direct_topic(peer@, chain_sync_res_kind()),
    }
}


/// Builds the broadcast announcement topic bytes.
fn make_new_inv_topic() -> (r: Vec<u8>)
    ensures
        r@ == new_inv_topic(),
{
    let mut out: Vec<u8> = Vec::new();
    out.push(110u8);
    out.push(101u8);
    out.push(119u8);
    out.push(95u8);
    out.push(105u8);
    out.push(110u8);
    out.push(118u8);
    proof {
        assert(out@ =~= new_inv_topic());
    }
    out
}

/// Builds the broadcast chain-sync request topic bytes.
fn make_chain_sync_req_topic() -> (r: Vec<u8>)
    ensures
        r@ == chain_sync_req_topic(),
{
    let mut out: Vec<u8> = Vec::new();
    out.push(99u8);
    out.push(104u8);
    out.push(97u8);
    out.push(105u8);
    out.push(110u8);
    out.push(95u8);
    out.push(115u8);
    out.push(121u8);
    out.push(110u8);
    out.push(99u8);
    out.push(95u8);
    out.push(114u8);
    out.push(101u8);
    out.push(113u8);
    proof {
        assert(out@ =~= chain_sync_req_topic());
    }
    out
}

/// Builds the `direct:` prefix bytes.
fn make_direct_prefix() -> (r: Vec<u8>)
    ensures
        r@ == direct_prefix(),
{
    let mut out: Vec<u8> = Vec::new();
    out.push(100u8);
    out.push(105u8);
    out.push(114u8);
    out.push(101u8);
    out.push(99u8);
    out.push(116u8);
    out.push(58u8);
    proof {
        assert(out@ =~= direct_prefix());
    }
    out
}

/// Appends a colon and the given kind bytes.
fn push_colon_kind(out: &mut Vec<u8>, kind: u8)
    requires
        kind < 3,
    ensures
        kind == 0 ==> final(out)@ == old(out)@ + seq![58u8] + inv_req_kind(),
        kind == 1 ==> final(out)@ == old(out)@ + seq![58u8] + inv_res_kind(),
        kind == 2 ==> final(out)@ == old(out)@ + seq![58u8] + chain_sync_res_kind(),
{
    if kind == 0 {
        out.push(58u8);
        out.push(105u8);
        out.push(110u8);
        out.push(118u8);
        out.push(95u8);
        out.push(114u8);
        out.push(101u8);
        out.push(113u8);
        proof {
            assert(out@ =~= old(out)@ + seq![58u8] + inv_req_kind());
        }
    } else if kind == 1 {
        out.push(58u8);
        out.push(105u8);
        out.push(110u8);
        out.push(118u8);
        out.push(95u8);
        out.push(114u8);
        out.push(101u8);
        out.push(115u8);
        proof {
            assert(out@ =~= old(out)@ + seq![58u8] + inv_res_kind());
        }
    } else {
        out.push(58u8);
        out.push(99u8);
        out.push(104u8);
        out.push(97u8);
        out.push(105u8);
        out.push(110u8);
        out.push(95u8);
        out.push(115u8);
        out.push(121u8);
        out.push(110u8);
        out.push(99u8);
        out.push(95u8);
        out.push(114u8);
        out.push(101u8);
        out.push(115u8);
        proof {
            assert(out@ =~= old(out)@ + seq![58u8] + chain_sync_res_kind());
        }
    }
}

impl GossipTopic {
    /// Renders the topic's bytes.
    pub fn to_topic_bytes(&self) -> (r: Vec<u8>)
        ensures
            r@ == topic_bytes_of(self),
    {
        match self {
            GossipTopic::NewInv => make_new_inv_topic(),
            GossipTopic::ChainSyncReq => make_chain_sync_req_topic(),
            GossipTopic::InvReq(peer) => {
                let mut out = make_direct_prefix();
                push_bytes(&mut out, peer);
                push_colon_kind(&mut out, 0);
                proof {
                    assert(out@ =~= direct_topic(peer@, inv_req_kind()));
                }
                out
            },
            GossipTopic::InvRes(peer) => {
                let mut out = make_direct_prefix();
                push_bytes(&mut out, peer);
                push_colon_kind(&mut out, 1);
                proof {
                    assert(out@ =~= direct_topic(peer@, inv_res_kind()));
                }
                out
            },
            GossipTopic::ChainSyncRes(peer) => {
                let mut out = make_direct_prefix();
                push_bytes(&mut out, peer);
                push_colon_kind(&mut out, 2);
                proof {
                    assert(out@ =~= direct_topic(peer@, chain_sync_res_kind()));
                }
                out
            },
        }
    }
}

/// The topics a node subscribes to at startup: the broadcast overlays and
/// its own three direct topics.
pub fn get_all_topics(peer_id: &Vec<u8>) -> (r: Vec<Vec<u8>>)
    ensures
        r@.len() == 5,
        r@[0]@ == new_inv_topic(),
        r@[1]@ == chain_sync_req_topic(),
        r@[2]@ == direct_topic(peer_id@, inv_req_kind()),
        r@[3]@ == direct_topic(peer_id@, inv_res_kind()),
        r@[4]@ == direct_topic(peer_id@, chain_sync_res_kind()),
{
    let mut out: Vec<Vec<u8>> = Vec::new();
    out.push(GossipTopic::NewInv.to_topic_bytes());
    out.push(GossipTopic::ChainSyncReq.to_topic_bytes());
    out.push(GossipTopic::InvReq(clone_bytes(peer_id)).to_topic_bytes());
    out.push(GossipTopic::InvRes(clone_bytes(peer_id)).to_topic_bytes());
    out.push(GossipTopic::ChainSyncRes(clone_bytes(peer_id)).to_topic_bytes());
    out
}

/// Splits a direct topic into its peer id and kind: the bytes must start
/// with `direct:`, and the peer id runs to the next colon. Anything else is
/// not a direct topic and is dropped by the caller.
pub fn parse_direct_topic(topic: &Vec<u8>) -> (r: Option<(Vec<u8>, Vec<u8>)>)
    ensures
        r is Some ==> {
            let (peer, kind) = r.unwrap();
            &&& topic@ == direct_topic(peer@, kind@)
            &&& forall|i: int| 0 <= i < peer@.len() ==> peer@[i] != 58u8
        },
        r is None ==> !(exists|n: int|
            direct_prefix().len() <= n < topic@.len() && topic@[n] == 58u8 && (forall|i: int|
                direct_prefix().len() <= i < n ==> topic@[i] != 58u8)
            && topic@.take(direct_prefix().len() as int) == direct_prefix()),
{
    let prefix = make_direct_prefix();
    if topic.len() < 8 {
        proof {
            if topic@.take(7) == direct_prefix() {
                assert(topic@.take(7).len() == 7);
            }
        }
        return None;
    }
    let mut i: usize = 0;
    while i < 7
        invariant
            i <= 7,
            topic@.len() >= 8,
            prefix@ == direct_prefix(),
            forall|j: int| 0 <= j < i ==> topic@[j] == direct_prefix()[j],
        decreases 7 - i,
    {
        if topic[i] != prefix[i] {
            proof {
                if topic@.take(7) == direct_prefix() {
                    assert(topic@.take(7)[i as int] == direct_prefix()[i as int]);
                }
            }
            return None;
        }
        i = i + 1;
    }
    // Find the colon that ends the peer id.
    let mut n: usize = 7;
    while n < topic.len()
        invariant
            7 <= n <= topic@.len(),
            forall|j: int| 0 <= j < 7 ==> topic@[j] == direct_prefix()[j],
            forall|j: int| 7 <= j < n ==> topic@[j] != 58u8,
        decreases topic@.len() - n,
    {
        if topic[n] == 58u8 {
            let peer = crate::bytes::sub_bytes(topic, 7, n);
            let kind = crate::bytes::sub_bytes(topic, n + 1, topic.len());
            proof {
                assert(topic@ =~= direct_topic(peer@, kind@));
            }
            return Some((peer, kind));
        }
        n = n + 1;
    }
    None
}

} // verus!
