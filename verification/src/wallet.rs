//! The per-wallet approval state machine.
//!
//! A [`Wallet`] holds a set of signer identities, a quorum threshold, a
//! queue of proposed messages with the signers that have approved each,
//! and optional write-once metadata per queued message.  A message can be
//! signed once its approval count reaches the threshold.  Queue entries
//! are created by proposal, grown by approval, and destroyed when the
//! message is consumed after a signing attempt.

use vstd::prelude::*;
use vstd::string::*;

use crate::ids::SignerId;

verus! {

/// The ways a wallet operation can fail.
#[derive(Debug, PartialEq, Eq, Structural)]
pub enum WalletError {
    /// The acting identity is not a signer of the wallet.
    InvalidSignature,
    /// The message already has a queue entry.
    MsgAlreadyQueued,
    /// The message has no queue entry.
    MsgNotQueued,
    /// The requested threshold exceeds the number of signers.
    NotEnoughSigners,
}

/// One queued message: the raw bytes, the approvals gathered so far in
/// approval order, and whether a signing request for it is in flight.
pub(crate) struct QueueEntry {
    pub msg: Vec<u8>,
    pub approvals: Vec<SignerId>,
    pub in_flight: bool,
}

/// The identity views of a sequence of signers.
pub open spec fn ids_of(s: Seq<SignerId>) -> Seq<Seq<u8>> {
    s.map_values(|x: SignerId| x@)
}

/// The byte views of a sequence of byte vectors.
pub open spec fn views_of(v: Seq<Vec<u8>>) -> Seq<Seq<u8>> {
    v.map_values(|x: Vec<u8>| x@)
}

/// A multi-signature wallet.
pub struct Wallet {
    signers: Vec<SignerId>,
    threshold: u8,
    message_queue: Vec<QueueEntry>,
    metadata: Vec<(Vec<u8>, String)>,
}

pub(crate) open spec fn has_entry(q: Seq<QueueEntry>, m: Seq<u8>) -> bool {
    exists|i: int| 0 <= i < q.len() && q[i].msg@ == m
}

pub(crate) open spec fn entry_index(q: Seq<QueueEntry>, m: Seq<u8>) -> int {
    choose|i: int| 0 <= i < q.len() && q[i].msg@ == m
}

pub(crate) open spec fn meta_keys(md: Seq<(Vec<u8>, String)>) -> Seq<Seq<u8>> {
    md.map_values(|p: (Vec<u8>, String)| p.0@)
}

pub(crate) open spec fn meta_index(md: Seq<(Vec<u8>, String)>, m: Seq<u8>) -> int {
    choose|i: int| 0 <= i < md.len() && md[i].0@ == m
}

pub(crate) open spec fn queue_of(q: Seq<QueueEntry>) -> Map<Seq<u8>, Seq<Seq<u8>>> {
    Map::new(
        |m: Seq<u8>| has_entry(q, m),
        |m: Seq<u8>| ids_of(q[entry_index(q, m)].approvals@),
    )
}

pub(crate) open spec fn inflight_of(q: Seq<QueueEntry>) -> Set<Seq<u8>> {
    Set::new(|m: Seq<u8>| has_entry(q, m) && q[entry_index(q, m)].in_flight)
}

pub(crate) open spec fn meta_map_of(md: Seq<(Vec<u8>, String)>) -> Map<Seq<u8>, Seq<char>> {
    Map::new(
        |m: Seq<u8>| meta_keys(md).contains(m),
        |m: Seq<u8>| md[meta_index(md, m)].1@,
    )
}

impl Wallet {
    /// The identities of the wallet's signers, in insertion order.
    pub closed spec fn signer_ids(self) -> Seq<Seq<u8>> {
        ids_of(self.signers@)
    }

    /// The set of identities authorized to act on this wallet.
    pub open spec fn signer_set(self) -> Set<Seq<u8>> {
        self.signer_ids().to_set()
    }

    /// Whether the identity is a signer of this wallet.
    pub open spec fn is_signer(self, s: Seq<u8>) -> bool {
        self.signer_ids().contains(s)
    }

    /// The quorum threshold.
    pub closed spec fn spec_threshold(self) -> u8 {
        self.threshold
    }

    /// The queued messages, in proposal order.
    pub closed spec fn queued_msgs(self) -> Seq<Seq<u8>> {
        entry_msgs(self.message_queue@)
    }

    /// The queue: each queued message mapped to the identities that have
    /// approved it, in approval order.
    pub closed spec fn queue(self) -> Map<Seq<u8>, Seq<Seq<u8>>> {
        queue_of(self.message_queue@)
    }

    /// The queued messages with a signing request in flight.
    pub closed spec fn in_flight_msgs(self) -> Set<Seq<u8>> {
        inflight_of(self.message_queue@)
    }

    /// The metadata attached to queued messages.
    pub closed spec fn meta_map(self) -> Map<Seq<u8>, Seq<char>> {
        meta_map_of(self.metadata@)
    }

    /// Whether the message has a queue entry.
    pub open spec fn has_msg(self, m: Seq<u8>) -> bool {
        self.queue().dom().contains(m)
    }

    /// The identities that have approved the message, in approval order.
    pub open spec fn approvals_of(self, m: Seq<u8>) -> Seq<Seq<u8>> {
        self.queue()[m]
    }

    /// A message is eligible for signing when it is queued and its
    /// approval count has reached the threshold.
    pub open spec fn spec_can_sign(self, m: Seq<u8>) -> bool {
        self.has_msg(m) && self.approvals_of(m).len() >= self.spec_threshold()
    }

    /// The queued messages eligible for signing, in proposal order.
    pub open spec fn eligible_msgs(self) -> Seq<Seq<u8>> {
        self.queued_msgs().filter(|m: Seq<u8>| self.spec_can_sign(m))
    }

    /// The threshold never exceeding the signer count.  Established at
    /// construction and preserved by every mutation except the removal of
    /// a signer of a wallet whose threshold equals its signer count.
    pub open spec fn threshold_ok(self) -> bool {
        self.spec_threshold() <= self.signer_set().len()
    }

    /// Structural well-formedness: signers are distinct, queued messages
    /// are distinct, metadata keys are distinct and only ever attached to
    /// queued messages.
    pub closed spec fn wf(self) -> bool {
        &&& self.signer_ids().no_duplicates()
        &&& self.queued_msgs().no_duplicates()
        &&& meta_keys(self.metadata@).no_duplicates()
        &&& forall|m: Seq<u8>|
            meta_keys(self.metadata@).contains(m) ==> self.queued_msgs().contains(m)
    }

    /// Queue, queued order and in-flight marks unchanged between two states.
    pub open spec fn same_queue(self, other: Wallet) -> bool {
        &&& self.queue() == other.queue()
        &&& self.queued_msgs() == other.queued_msgs()
        &&& self.in_flight_msgs() == other.in_flight_msgs()
    }

    /// Signer set and threshold unchanged between two states.
    pub open spec fn same_members(self, other: Wallet) -> bool {
        &&& self.signer_ids() == other.signer_ids()
        &&& self.spec_threshold() == other.spec_threshold()
    }

    /// Metadata unchanged between two states.
    pub open spec fn same_metadata(self, other: Wallet) -> bool {
        self.meta_map() == other.meta_map()
    }
}

/// What [`Wallet::add_signer`] does: the identity joins the signer set;
/// nothing else changes.
pub open spec fn add_signer_post(pre: Wallet, post: Wallet, signer: Seq<u8>) -> bool {
    &&& post.signer_set() == pre.signer_set().insert(signer)
    &&& post.signer_ids() == if pre.is_signer(signer) {
        pre.signer_ids()
    } else {
        pre.signer_ids().push(signer)
    }
    &&& post.spec_threshold() == pre.spec_threshold()
    &&& post.same_queue(pre)
    &&& post.same_metadata(pre)
}

/// What [`Wallet::remove_signer`] does: the identity leaves the signer
/// set; approvals already recorded are kept.
pub open spec fn remove_signer_post(pre: Wallet, post: Wallet, signer: Seq<u8>) -> bool {
    &&& post.signer_set() == pre.signer_set().remove(signer)
    &&& post.signer_ids() == pre.signer_ids().remove_value(signer)
    &&& post.spec_threshold() == pre.spec_threshold()
    &&& post.same_queue(pre)
    &&& post.same_metadata(pre)
}

/// What [`Wallet::set_default_threshold`] does: the threshold is
/// replaced when it does not exceed the signer count, and nothing
/// changes otherwise.
pub open spec fn set_threshold_post(
    pre: Wallet,
    post: Wallet,
    threshold: u8,
    r: Result<(), WalletError>,
) -> bool {
    &&& (threshold as nat > pre.signer_set().len() ==> r == Err::<(), WalletError>(
        WalletError::NotEnoughSigners,
    ) && post == pre)
    &&& (threshold as nat <= pre.signer_set().len() ==> r == Ok::<(), WalletError>(())
        && post.spec_threshold() == threshold && post.signer_ids() == pre.signer_ids()
        && post.same_queue(pre) && post.same_metadata(pre))
}

/// What [`Wallet::propose_message`] does: a signer queues a message not
/// yet queued, with an empty approval list; otherwise an error and no
/// change.
pub open spec fn propose_post(
    pre: Wallet,
    post: Wallet,
    caller: Seq<u8>,
    msg: Seq<u8>,
    r: Result<(), WalletError>,
) -> bool {
    &&& (!pre.is_signer(caller) ==> r == Err::<(), WalletError>(WalletError::InvalidSignature)
        && post == pre)
    &&& (pre.is_signer(caller) && pre.has_msg(msg) ==> r == Err::<(), WalletError>(
        WalletError::MsgAlreadyQueued,
    ) && post == pre)
    &&& (pre.is_signer(caller) && !pre.has_msg(msg) ==> r == Ok::<(), WalletError>(())
        && post.queue() == pre.queue().insert(msg, Seq::<Seq<u8>>::empty()) && post.queued_msgs()
        == pre.queued_msgs().push(msg) && post.in_flight_msgs() == pre.in_flight_msgs()
        && post.same_members(pre) && post.same_metadata(pre))
}

/// What [`Wallet::approve`] does: a signer's approval is appended to a
/// queued message's list and the new count returned; otherwise an error
/// and no change.
pub open spec fn approve_post(
    pre: Wallet,
    post: Wallet,
    msg: Seq<u8>,
    signer: Seq<u8>,
    r: Result<u8, WalletError>,
) -> bool {
    &&& (!pre.has_msg(msg) ==> r == Err::<u8, WalletError>(WalletError::MsgNotQueued) && post
        == pre)
    &&& (pre.has_msg(msg) && !pre.is_signer(signer) ==> r == Err::<u8, WalletError>(
        WalletError::InvalidSignature,
    ) && post == pre)
    &&& (pre.has_msg(msg) && pre.is_signer(signer) ==> r == Ok::<u8, WalletError>(
        ((pre.approvals_of(msg).len() + 1) % 256) as u8,
    ) && post.queue() == pre.queue().insert(msg, pre.approvals_of(msg).push(signer))
        && post.queued_msgs() == pre.queued_msgs() && post.in_flight_msgs()
        == pre.in_flight_msgs() && post.same_members(pre) && post.same_metadata(pre))
}

/// What [`Wallet::remove_message_and_metadata`] does: a signer drops the
/// message's queue entry and metadata, whether or not they exist; a
/// non-signer changes nothing.
pub open spec fn consume_post(
    pre: Wallet,
    post: Wallet,
    msg: Seq<u8>,
    caller: Seq<u8>,
    r: Result<(), String>,
) -> bool {
    &&& (!pre.is_signer(caller) ==> (r matches Err(e) && e@ == "CallerNotSigner"@) && post == pre)
    &&& (pre.is_signer(caller) ==> r == Ok::<(), String>(()) && post.queue() == pre.queue().remove(
        msg,
    ) && post.queued_msgs() == pre.queued_msgs().remove_value(msg) && post.in_flight_msgs()
        == pre.in_flight_msgs().remove(msg) && post.meta_map() == pre.meta_map().remove(msg)
        && post.same_members(pre))
}

/// The message views of a sequence of queue entries.
pub(crate) open spec fn entry_msgs(q: Seq<QueueEntry>) -> Seq<Seq<u8>> {
    q.map_values(|e: QueueEntry| e.msg@)
}

/// In a queue whose messages are distinct, the entry index of a message
/// found at position `i` is `i` itself.
pub(crate) proof fn lemma_entry_index_unique(q: Seq<QueueEntry>, m: Seq<u8>, i: int)
    requires
        entry_msgs(q).no_duplicates(),
        0 <= i < q.len(),
        q[i].msg@ == m,
    ensures
        has_entry(q, m),
        entry_index(q, m) == i,
{
    assert(has_entry(q, m));
    let j = entry_index(q, m);
    assert(0 <= j < q.len() && q[j].msg@ == m);
    if i != j {
        assert(entry_msgs(q)[i] == entry_msgs(q)[j]);
        assert(false);
    }
}

/// In a metadata list whose keys are distinct, the index of a key found
/// at position `i` is `i` itself.
pub(crate) proof fn lemma_meta_index_unique(md: Seq<(Vec<u8>, String)>, m: Seq<u8>, i: int)
    requires
        meta_keys(md).no_duplicates(),
        0 <= i < md.len(),
        md[i].0@ == m,
    ensures
        meta_keys(md).contains(m),
        meta_index(md, m) == i,
{
    assert(meta_keys(md)[i] == m);
    let j = meta_index(md, m);
    assert(0 <= j < md.len() && md[j].0@ == m);
    if i != j {
        assert(meta_keys(md)[i] == meta_keys(md)[j]);
        assert(false);
    }
}

/// Appending an entry for a message that is not yet queued adds exactly
/// that key to the queue view.
pub(crate) proof fn lemma_queue_push(q: Seq<QueueEntry>, e: QueueEntry)
    requires
        entry_msgs(q).no_duplicates(),
        !has_entry(q, e.msg@),
    ensures
        entry_msgs(q.push(e)) == entry_msgs(q).push(e.msg@),
        entry_msgs(q.push(e)).no_duplicates(),
        queue_of(q.push(e)) == queue_of(q).insert(e.msg@, ids_of(e.approvals@)),
        inflight_of(q.push(e)) == if e.in_flight {
            inflight_of(q).insert(e.msg@)
        } else {
            inflight_of(q)
        },
{
    let q2 = q.push(e);
    q.lemma_push_map_commute(|x: QueueEntry| x.msg@, e);
    assert(entry_msgs(q2) =~= entry_msgs(q).push(e.msg@));
    assert(entry_msgs(q2).no_duplicates()) by {
        assert forall|p: int, s: int| 0 <= p < s < q2.len() implies entry_msgs(q2)[p]
            != entry_msgs(q2)[s] by {
            if s == q.len() {
                if entry_msgs(q2)[p] == e.msg@ {
                    assert(q[p].msg@ == e.msg@);
                    assert(has_entry(q, e.msg@));
                }
            } else {
                assert(entry_msgs(q)[p] != entry_msgs(q)[s]);
            }
        }
    }
    assert forall|m: Seq<u8>| #[trigger] has_entry(q2, m) implies has_entry(q, m) || m
        == e.msg@ by {
        let j = choose|j: int| 0 <= j < q2.len() && q2[j].msg@ == m;
        if j < q.len() {
            assert(q[j].msg@ == m);
        }
    }
    assert forall|m: Seq<u8>| #[trigger] has_entry(q, m) implies has_entry(q2, m) && entry_index(
        q2,
        m,
    ) == entry_index(q, m) by {
        let j = entry_index(q, m);
        assert(0 <= j < q.len() && q[j].msg@ == m);
        assert(q2[j].msg@ == m);
        lemma_entry_index_unique(q2, m, j);
        lemma_entry_index_unique(q, m, j);
    }
    lemma_entry_index_unique(q2, e.msg@, q.len() as int);
    assert(queue_of(q2) =~= queue_of(q).insert(e.msg@, ids_of(e.approvals@)));
    if e.in_flight {
        assert(inflight_of(q2) =~= inflight_of(q).insert(e.msg@));
    } else {
        assert(inflight_of(q2) =~= inflight_of(q));
    }
}

/// Replacing the entry at `i` by one for the same message replaces only
/// that key's approvals and in-flight mark in the queue view.
pub(crate) proof fn lemma_queue_update(q: Seq<QueueEntry>, i: int, e: QueueEntry)
    requires
        entry_msgs(q).no_duplicates(),
        0 <= i < q.len(),
        e.msg@ == q[i].msg@,
    ensures
        entry_msgs(q.update(i, e)) == entry_msgs(q),
        entry_msgs(q.update(i, e)).no_duplicates(),
        queue_of(q.update(i, e)) == queue_of(q).insert(e.msg@, ids_of(e.approvals@)),
        inflight_of(q.update(i, e)) == if e.in_flight {
            inflight_of(q).insert(e.msg@)
        } else {
            inflight_of(q).remove(e.msg@)
        },
{
    let q2 = q.update(i, e);
    assert(entry_msgs(q2) =~= entry_msgs(q));
    assert forall|m: Seq<u8>| #[trigger] has_entry(q, m) implies has_entry(q2, m) && entry_index(
        q2,
        m,
    ) == entry_index(q, m) by {
        let j = entry_index(q, m);
        assert(0 <= j < q.len() && q[j].msg@ == m);
        assert(q2[j].msg@ == m);
        lemma_entry_index_unique(q2, m, j);
        lemma_entry_index_unique(q, m, j);
    }
    assert forall|m: Seq<u8>| #[trigger] has_entry(q2, m) implies has_entry(q, m) by {
        let j = choose|j: int| 0 <= j < q2.len() && q2[j].msg@ == m;
        assert(q[j].msg@ == m);
    }
    lemma_entry_index_unique(q, e.msg@, i);
    assert(queue_of(q2) =~= queue_of(q).insert(e.msg@, ids_of(e.approvals@)));
    if e.in_flight {
        assert(inflight_of(q2) =~= inflight_of(q).insert(e.msg@));
    } else {
        assert(inflight_of(q2) =~= inflight_of(q).remove(e.msg@));
    }
}

/// Removing the entry at `i` removes exactly that key from the queue view.
pub(crate) proof fn lemma_queue_remove(q: Seq<QueueEntry>, i: int)
    requires
        entry_msgs(q).no_duplicates(),
        0 <= i < q.len(),
    ensures
        entry_msgs(q.remove(i)) == entry_msgs(q).remove(i),
        entry_msgs(q.remove(i)).no_duplicates(),
        queue_of(q.remove(i)) == queue_of(q).remove(q[i].msg@),
        inflight_of(q.remove(i)) == inflight_of(q).remove(q[i].msg@),
{
    let q2 = q.remove(i);
    let m0 = q[i].msg@;
    assert(entry_msgs(q2) =~= entry_msgs(q).remove(i));
    assert(entry_msgs(q2).no_duplicates()) by {
        assert forall|p: int, s: int| 0 <= p < s < q2.len() implies entry_msgs(q2)[p]
            != entry_msgs(q2)[s] by {
            let p2: int = if p < i {
                p
            } else {
                p + 1
            };
            let s2: int = if s < i {
                s
            } else {
                s + 1
            };
            assert(entry_msgs(q2)[p] == entry_msgs(q)[p2]);
            assert(entry_msgs(q2)[s] == entry_msgs(q)[s2]);
        }
    }
    assert forall|m: Seq<u8>| #[trigger] has_entry(q2, m) implies has_entry(q, m) && m != m0
        && entry_index(q2, m) == if entry_index(q, m) < i {
        entry_index(q, m)
    } else {
        entry_index(q, m) - 1
    } by {
        let j = choose|j: int| 0 <= j < q2.len() && q2[j].msg@ == m;
        let j2: int = if j < i {
            j
        } else {
            j + 1
        };
        assert(q2[j] == q[j2]);
        assert(q[j2].msg@ == m);
        lemma_entry_index_unique(q, m, j2);
        if m == m0 {
            assert(entry_msgs(q)[j2] == entry_msgs(q)[i]);
            assert(j2 == i);
            assert(false);
        }
        lemma_entry_index_unique(q2, m, j);
    }
    assert forall|m: Seq<u8>| #[trigger] has_entry(q, m) && m != m0 implies has_entry(q2, m) by {
        let j = entry_index(q, m);
        assert(0 <= j < q.len() && q[j].msg@ == m);
        assert(j != i);
        if j < i {
            assert(q2[j].msg@ == m);
        } else {
            assert(q2[j - 1] == q[j]);
            assert(q2[j - 1].msg@ == m);
        }
    }
    assert(queue_of(q2) =~= queue_of(q).remove(m0));
    assert(inflight_of(q2) =~= inflight_of(q).remove(m0));
}

/// Appending a metadata record under a fresh key adds exactly that key to
/// the metadata view.
pub(crate) proof fn lemma_meta_push(md: Seq<(Vec<u8>, String)>, p: (Vec<u8>, String))
    requires
        meta_keys(md).no_duplicates(),
        !meta_keys(md).contains(p.0@),
    ensures
        meta_keys(md.push(p)) == meta_keys(md).push(p.0@),
        meta_keys(md.push(p)).no_duplicates(),
        meta_map_of(md.push(p)) == meta_map_of(md).insert(p.0@, p.1@),
{
    let md2 = md.push(p);
    md.lemma_push_map_commute(|x: (Vec<u8>, String)| x.0@, p);
    assert(meta_keys(md2) =~= meta_keys(md).push(p.0@));
    assert(meta_keys(md2).no_duplicates()) by {
        assert forall|a: int, b: int| 0 <= a < b < md2.len() implies meta_keys(md2)[a]
            != meta_keys(md2)[b] by {
            if b == md.len() {
                if meta_keys(md2)[a] == p.0@ {
                    assert(meta_keys(md)[a] == p.0@);
                    assert(meta_keys(md).contains(p.0@));
                }
            } else {
                assert(meta_keys(md)[a] != meta_keys(md)[b]);
            }
        }
    }
    assert forall|m: Seq<u8>| #[trigger] meta_keys(md).contains(m) implies meta_keys(md2).contains(
        m,
    ) && meta_index(md2, m) == meta_index(md, m) by {
        let j = choose|j: int| 0 <= j < md.len() && meta_keys(md)[j] == m;
        assert(md[j].0@ == m);
        assert(md2[j].0@ == m);
        lemma_meta_index_unique(md2, m, j);
        lemma_meta_index_unique(md, m, j);
    }
    assert forall|m: Seq<u8>| #[trigger] meta_keys(md2).contains(m) implies meta_keys(md).contains(
        m,
    ) || m == p.0@ by {
        let j = choose|j: int| 0 <= j < md2.len() && meta_keys(md2)[j] == m;
        if j < md.len() {
            assert(meta_keys(md)[j] == m);
        }
    }
    lemma_meta_index_unique(md2, p.0@, md.len() as int);
    assert(meta_map_of(md2) =~= meta_map_of(md).insert(p.0@, p.1@));
}

/// Removing the metadata record at `i` removes exactly that key from the
/// metadata view.
pub(crate) proof fn lemma_meta_remove(md: Seq<(Vec<u8>, String)>, i: int)
    requires
        meta_keys(md).no_duplicates(),
        0 <= i < md.len(),
    ensures
        meta_keys(md.remove(i)) == meta_keys(md).remove(i),
        meta_keys(md.remove(i)).no_duplicates(),
        meta_map_of(md.remove(i)) == meta_map_of(md).remove(md[i].0@),
{
    let md2 = md.remove(i);
    let m0 = md[i].0@;
    assert(meta_keys(md2) =~= meta_keys(md).remove(i));
    assert(meta_keys(md2).no_duplicates()) by {
        assert forall|a: int, b: int| 0 <= a < b < md2.len() implies meta_keys(md2)[a]
            != meta_keys(md2)[b] by {
            let a2: int = if a < i {
                a
            } else {
                a + 1
            };
            let b2: int = if b < i {
                b
            } else {
                b + 1
            };
            assert(meta_keys(md2)[a] == meta_keys(md)[a2]);
            assert(meta_keys(md2)[b] == meta_keys(md)[b2]);
        }
    }
    assert forall|m: Seq<u8>| #[trigger] meta_keys(md2).contains(m) implies meta_keys(md).contains(
        m,
    ) && m != m0 && md2[meta_index(md2, m)].1@ == md[meta_index(md, m)].1@ by {
        let j = choose|j: int| 0 <= j < md2.len() && meta_keys(md2)[j] == m;
        assert(md2[j].0@ == m);
        let j2: int = if j < i {
            j
        } else {
            j + 1
        };
        assert(md2[j] == md[j2]);
        assert(md[j2].0@ == m);
        assert(meta_keys(md)[j2] == m);
        lemma_meta_index_unique(md, m, j2);
        if m == m0 {
            assert(meta_keys(md)[j2] == meta_keys(md)[i]);
            assert(j2 == i);
            assert(false);
        }
        lemma_meta_index_unique(md2, m, j);
    }
    assert forall|m: Seq<u8>| #[trigger] meta_keys(md).contains(m) && m != m0 implies meta_keys(
        md2,
    ).contains(m) by {
        let j = choose|j: int| 0 <= j < md.len() && meta_keys(md)[j] == m;
        assert(md[j].0@ == m);
        assert(j != i);
        if j < i {
            assert(md2[j].0@ == m);
            assert(meta_keys(md2)[j] == m);
        } else {
            assert(md2[j - 1] == md[j]);
            assert(meta_keys(md2)[j - 1] == m);
        }
    }
    assert(meta_map_of(md2) =~= meta_map_of(md).remove(m0));
}

/// Exact byte-string equality.
pub(crate) fn vec_u8_eq(a: &Vec<u8>, b: &Vec<u8>) -> (r: bool)
    ensures
        r == (a@ == b@),
{
    if a.len() != b.len() {
        assert(a@.len() != b@.len());
        return false;
    }
    let mut i: usize = 0;
    while i < a.len()
        invariant
            i <= a.len(),
            a@.len() == b@.len(),
            forall|j: int| 0 <= j < i ==> a@[j] == b@[j],
        decreases a.len() - i,
    {
        if a[i] != b[i] {
            assert(a@ != b@);
            return false;
        }
        i = i + 1;
    }
    assert(a@ =~= b@);
    true
}

/// An exact copy of a byte string.
pub(crate) fn clone_bytes(v: &Vec<u8>) -> (r: Vec<u8>)
    ensures
        r@ == v@,
{
    let mut r: Vec<u8> = Vec::new();
    let mut i: usize = 0;
    while i < v.len()
        invariant
            i <= v.len(),
            r@ == v@.subrange(0, i as int),
        decreases v.len() - i,
    {
        r.push(v[i]);
        i = i + 1;
    }
    assert(r@ =~= v@);
    r
}

/// An exact copy of a sequence of signer identities.
pub(crate) fn clone_ids(v: &Vec<SignerId>) -> (r: Vec<SignerId>)
    ensures
        ids_of(r@) == ids_of(v@),
{
    let mut r: Vec<SignerId> = Vec::new();
    let mut i: usize = 0;
    while i < v.len()
        invariant
            i <= v.len(),
            ids_of(r@) == ids_of(v@).subrange(0, i as int),
        decreases v.len() - i,
    {
        let ghost pre = r@;
        r.push(v[i].clone());
        proof {
            pre.lemma_push_map_commute(|x: SignerId| x@, r@[r@.len() - 1]);
            assert(ids_of(r@) =~= ids_of(v@).subrange(0, i + 1));
        }
        i = i + 1;
    }
    proof {
        assert(ids_of(v@).subrange(0, v@.len() as int) =~= ids_of(v@));
    }
    r
}

impl Default for Wallet {
    /// An empty wallet: no signers, threshold zero, nothing queued.
    fn default() -> (r: Wallet)
        ensures
            r.wf(),
            r.threshold_ok(),
            r.signer_ids() == Seq::<Seq<u8>>::empty(),
            r.spec_threshold() == 0,
            r.queued_msgs() == Seq::<Seq<u8>>::empty(),
            r.queue() == Map::<Seq<u8>, Seq<Seq<u8>>>::empty(),
            r.in_flight_msgs() == Set::<Seq<u8>>::empty(),
            r.meta_map() == Map::<Seq<u8>, Seq<char>>::empty(),
    {
        let r = Wallet {
            signers: Vec::new(),
            threshold: 0,
            message_queue: Vec::new(),
            metadata: Vec::new(),
        };
        proof {
            assert(r.queue() =~= Map::<Seq<u8>, Seq<Seq<u8>>>::empty());
            assert(r.in_flight_msgs() =~= Set::<Seq<u8>>::empty());
            assert(r.meta_map() =~= Map::<Seq<u8>, Seq<char>>::empty());
            assert(r.signer_ids() =~= Seq::<Seq<u8>>::empty());
            assert(r.queued_msgs() =~= Seq::<Seq<u8>>::empty());
            assert(r.signer_set() =~= Set::<Seq<u8>>::empty());
        }
        r
    }
}

impl Wallet {
    /// Find the position of a signer, scanning in insertion order.
    fn find_signer(&self, signer: &SignerId) -> (r: Option<usize>)
        ensures
            r matches Some(i) ==> i < self.signer_ids().len() && self.signer_ids()[i as int]
                == signer@,
            r is None ==> !self.is_signer(signer@),
    {
        let mut i: usize = 0;
        while i < self.signers.len()
            invariant
                i <= self.signers.len(),
                forall|j: int| 0 <= j < i ==> self.signer_ids()[j] != signer@,
            decreases self.signers.len() - i,
        {
            if self.signers[i] == *signer {
                assert(self.signer_ids()[i as int] == signer@);
                return Some(i);
            }
            i = i + 1;
        }
        None
    }

    /// Add a signer; inserting an identity that is already a signer
    /// changes nothing.
    pub fn add_signer(&mut self, signer: SignerId)
        requires
            old(self).wf(),
        ensures
            final(self).wf(),
            add_signer_post(*old(self), *final(self), signer@),
    {
        let found = self.find_signer(&signer).is_some();
        if !found {
            proof {
                let ghost pre = self.signers@;
                pre.lemma_push_map_commute(|x: SignerId| x@, signer);
            }
            self.signers.push(signer);
            proof {
                old(self).signer_ids().lemma_push_to_set_commute(signer@);
            }
        } else {
            proof {
                assert(old(self).signer_set().insert(signer@) =~= old(self).signer_set());
            }
        }
    }

    /// Remove a signer; removing an identity that is not a signer changes
    /// nothing.  Prior approvals already recorded for queued messages are
    /// kept: approvals are identity snapshots, not live references.
    pub fn remove_signer(&mut self, signer: SignerId)
        requires
            old(self).wf(),
        ensures
            final(self).wf(),
            remove_signer_post(*old(self), *final(self), signer@),
    {
        let found = self.find_signer(&signer);
        match found {
            Some(i) => {
                proof {
                    let ids = self.signer_ids();
                    ids.index_of_first_ensures(signer@);
                    match ids.index_of_first(signer@) {
                        Some(f) => {
                            if f != i as int {
                                assert(ids[f] == ids[i as int]);
                                assert(false);
                            }
                        },
                        None => {
                            assert(ids[i as int] == signer@);
                        },
                    }
                }
                self.signers.remove(i);
                proof {
                    let pre = old(self).signer_ids();
                    let post = self.signer_ids();
                    assert(post =~= pre.remove(i as int));
                    assert(post.no_duplicates()) by {
                        assert forall|p: int, q: int| 0 <= p < q < post.len() implies post[p]
                            != post[q] by {
                            if q < i as int {
                                assert(pre[p] == post[p] && pre[q] == post[q]);
                            } else if p < i as int {
                                assert(pre[p] == post[p] && pre[q + 1] == post[q]);
                            } else {
                                assert(pre[p + 1] == post[p] && pre[q + 1] == post[q]);
                            }
                        }
                    }
                    assert(post.to_set() =~= pre.to_set().remove(signer@)) by {
                        assert forall|y: Seq<u8>| post.to_set().contains(y) implies pre
                            .to_set().remove(signer@).contains(y) by {
                            let k = choose|k: int| 0 <= k < post.len() && post[k] == y;
                            if k < i as int {
                                assert(pre[k] == y);
                            } else {
                                assert(pre[k + 1] == y);
                            }
                        }
                        assert forall|y: Seq<u8>| pre.to_set().remove(signer@).contains(y)
                            implies post.to_set().contains(y) by {
                            let k = choose|k: int| 0 <= k < pre.len() && pre[k] == y;
                            if k < i as int {
                                assert(post[k] == y);
                            } else {
                                assert(k != i as int);
                                assert(post[k - 1] == y);
                            }
                        }
                    }
                }
            },
            None => {
                proof {
                    let pre = old(self).signer_ids();
                    pre.index_of_first_ensures(signer@);
                    match pre.index_of_first(signer@) {
                        Some(f) => {
                            assert(pre.contains(signer@));
                            assert(false);
                        },
                        None => {},
                    }
                    assert(pre.remove_value(signer@) == pre);
                    assert(pre.to_set().remove(signer@) =~= pre.to_set());
                }
            },
        }
    }

    /// The wallet's signers, in insertion order.
    pub fn get_signers(&self) -> (r: Vec<SignerId>)
        ensures
            ids_of(r@) == self.signer_ids(),
    {
        let mut r: Vec<SignerId> = Vec::new();
        let mut i: usize = 0;
        while i < self.signers.len()
            invariant
                i <= self.signers.len(),
                ids_of(r@) == self.signer_ids().subrange(0, i as int),
            decreases self.signers.len() - i,
        {
            let ghost pre = r@;
            r.push(self.signers[i].clone());
            proof {
                pre.lemma_push_map_commute(|x: SignerId| x@, r@[r@.len() - 1]);
                assert(ids_of(r@) =~= self.signer_ids().subrange(0, i + 1));
            }
            i = i + 1;
        }
        proof {
            assert(self.signer_ids().subrange(0, self.signers@.len() as int) =~= self
                .signer_ids());
        }
        r
    }

    /// Replace the threshold; fails without mutating when the requested
    /// value exceeds the current signer count.
    pub fn set_default_threshold(&mut self, threshold: u8) -> (r: Result<(), WalletError>)
        requires
            old(self).wf(),
        ensures
            final(self).wf(),
            set_threshold_post(*old(self), *final(self), threshold, r),
            r is Ok ==> final(self).threshold_ok(),
    {
        proof {
            self.signer_ids().unique_seq_to_set();
        }
        if self.signers.len() < threshold as usize {
            return Err(WalletError::NotEnoughSigners);
        }
        self.threshold = threshold;
        Ok(())
    }

    /// Whether the identity is a signer of this wallet.
    pub fn has_signer(&self, signer: SignerId) -> (r: bool)
        ensures
            r == self.is_signer(signer@),
    {
        self.find_signer(&signer).is_some()
    }

    /// The current quorum threshold.
    pub fn get_default_threshold(&self) -> (r: u8)
        ensures
            r == self.spec_threshold(),
    {
        self.threshold
    }

    /// Find the position of a message's queue entry, scanning in
    /// proposal order.
    fn find_entry_index(&self, msg: &Vec<u8>) -> (r: Option<usize>)
        ensures
            r matches Some(i) ==> i < self.message_queue@.len() && self.message_queue@[
                i as int
            ].msg@ == msg@ && (forall|j: int| 0 <= j < i ==> self.message_queue@[j].msg@ != msg@)
                && self.has_msg(msg@),
            r is None ==> !self.has_msg(msg@),
    {
        let mut i: usize = 0;
        while i < self.message_queue.len()
            invariant
                i <= self.message_queue.len(),
                forall|j: int| 0 <= j < i ==> self.message_queue@[j].msg@ != msg@,
            decreases self.message_queue.len() - i,
        {
            if vec_u8_eq(&self.message_queue[i].msg, msg) {
                assert(has_entry(self.message_queue@, msg@));
                return Some(i);
            }
            i = i + 1;
        }
        assert(!has_entry(self.message_queue@, msg@));
        None
    }

    /// Find the position of a message's metadata record.
    fn find_meta_index(&self, msg: &Vec<u8>) -> (r: Option<usize>)
        ensures
            r matches Some(i) ==> i < self.metadata@.len() && self.metadata@[i as int].0@ == msg@
                && (forall|j: int| 0 <= j < i ==> self.metadata@[j].0@ != msg@)
                && self.meta_map().dom().contains(msg@),
            r is None ==> !self.meta_map().dom().contains(msg@),
    {
        let mut i: usize = 0;
        while i < self.metadata.len()
            invariant
                i <= self.metadata.len(),
                forall|j: int| 0 <= j < i ==> self.metadata@[j].0@ != msg@,
            decreases self.metadata.len() - i,
        {
            if vec_u8_eq(&self.metadata[i].0, msg) {
                assert(meta_keys(self.metadata@)[i as int] == msg@);
                assert(meta_keys(self.metadata@).contains(msg@));
                return Some(i);
            }
            i = i + 1;
        }
        assert(!meta_keys(self.metadata@).contains(msg@)) by {
            if meta_keys(self.metadata@).contains(msg@) {
                let j = choose|j: int|
                    0 <= j < self.metadata@.len() && meta_keys(self.metadata@)[j] == msg@;
                assert(self.metadata@[j].0@ == msg@);
            }
        }
        None
    }

    /// Create a queue entry for the message, with no approvals yet.
    /// Only a signer may propose, and only a message that is not already
    /// queued.
    pub fn propose_message(&mut self, caller: SignerId, msg: Vec<u8>) -> (r: Result<
        (),
        WalletError,
    >)
        requires
            old(self).wf(),
        ensures
            final(self).wf(),
            propose_post(*old(self), *final(self), caller@, msg@, r),
    {
        if self.find_signer(&caller).is_none() {
            return Err(WalletError::InvalidSignature);
        }
        if self.find_entry_index(&msg).is_some() {
            return Err(WalletError::MsgAlreadyQueued);
        }
        let e = QueueEntry { msg, approvals: Vec::new(), in_flight: false };
        let ghost pre = self.message_queue@;
        let ghost ge = e;
        self.message_queue.push(e);
        proof {
            lemma_queue_push(pre, ge);
            assert(ids_of(ge.approvals@) =~= Seq::<Seq<u8>>::empty());
            assert forall|m: Seq<u8>| meta_keys(self.metadata@).contains(m) implies self
                .queued_msgs().contains(m) by {
                let msgs0 = old(self).queued_msgs();
                assert(msgs0.contains(m));
                let j = msgs0.index_of(m);
                assert(0 <= j < msgs0.len() && msgs0[j] == m);
                assert(self.queued_msgs()[j] == m);
            }
        }
        Ok(())
    }

    /// Whether the message is queued with enough approvals to be signed.
    pub fn can_sign(&self, msg: &Vec<u8>) -> (r: bool)
        requires
            self.wf(),
        ensures
            r == self.spec_can_sign(msg@),
    {
        match self.find_entry_index(msg) {
            None => false,
            Some(i) => {
                proof {
                    lemma_entry_index_unique(self.message_queue@, msg@, i as int);
                }
                let e = &self.message_queue[i];
                e.approvals.len() >= self.threshold as usize
            },
        }
    }

    /// Record the signer's approval of a queued message and return the
    /// new approval count.  A signer approving twice is counted twice:
    /// the quorum check is count-based and does not deduplicate.
    pub fn approve(&mut self, msg: Vec<u8>, signer: SignerId) -> (r: Result<u8, WalletError>)
        requires
            old(self).wf(),
        ensures
            final(self).wf(),
            approve_post(*old(self), *final(self), msg@, signer@, r),
    {
        let i = match self.find_entry_index(&msg) {
            None => {
                return Err(WalletError::MsgNotQueued);
            },
            Some(i) => i,
        };
        if self.find_signer(&signer).is_none() {
            return Err(WalletError::InvalidSignature);
        }
        proof {
            lemma_entry_index_unique(self.message_queue@, msg@, i as int);
        }
        let ghost pre = self.message_queue@;
        let mut e = self.message_queue.remove(i);
        let ghost preap = e.approvals@;
        let ghost gsigner = signer;
        e.approvals.push(signer);
        let n = e.approvals.len();
        let ghost ge = e;
        self.message_queue.insert(i, e);
        proof {
            assert(self.message_queue@ =~= pre.update(i as int, ge));
            lemma_queue_update(pre, i as int, ge);
            preap.lemma_push_map_commute(|x: SignerId| x@, gsigner);
            assert(ids_of(ge.approvals@) =~= ids_of(preap).push(gsigner@));
            assert(old(self).approvals_of(msg@) == ids_of(preap));
            if ge.in_flight {
                assert(inflight_of(pre).contains(ge.msg@));
                assert(inflight_of(pre).insert(ge.msg@) =~= inflight_of(pre));
            } else {
                assert(!inflight_of(pre).contains(ge.msg@));
                assert(inflight_of(pre).remove(ge.msg@) =~= inflight_of(pre));
            }
        }
        Ok((n % 256) as u8)
    }

    /// Set or clear the in-flight mark of a queued message.  Nothing else
    /// about the wallet changes.
    pub fn mark_in_flight(&mut self, msg: &Vec<u8>, in_flight: bool)
        requires
            old(self).wf(),
            old(self).has_msg(msg@),
        ensures
            final(self).wf(),
            final(self).queue() == old(self).queue(),
            final(self).queued_msgs() == old(self).queued_msgs(),
            final(self).in_flight_msgs() == if in_flight {
                old(self).in_flight_msgs().insert(msg@)
            } else {
                old(self).in_flight_msgs().remove(msg@)
            },
            final(self).same_members(*old(self)),
            final(self).same_metadata(*old(self)),
    {
        if let Some(i) = self.find_entry_index(msg) {
            proof {
                lemma_entry_index_unique(self.message_queue@, msg@, i as int);
            }
            let ghost pre = self.message_queue@;
            let mut e = self.message_queue.remove(i);
            e.in_flight = in_flight;
            let ghost ge = e;
            self.message_queue.insert(i, e);
            proof {
                assert(self.message_queue@ =~= pre.update(i as int, ge));
                lemma_queue_update(pre, i as int, ge);
                assert(ids_of(ge.approvals@) == queue_of(pre)[msg@]);
                assert(queue_of(pre).insert(msg@, queue_of(pre)[msg@]) =~= queue_of(pre));
            }
        } else {
            proof {
                assert(false);
            }
        }
    }

    /// Whether a signing request for the message is in flight.
    pub fn is_in_flight(&self, msg: &Vec<u8>) -> (r: bool)
        requires
            self.wf(),
        ensures
            r == self.in_flight_msgs().contains(msg@),
    {
        match self.find_entry_index(msg) {
            None => {
                assert(!self.in_flight_msgs().contains(msg@));
                false
            },
            Some(i) => {
                proof {
                    lemma_entry_index_unique(self.message_queue@, msg@, i as int);
                }
                self.message_queue[i].in_flight
            },
        }
    }

    /// All queued messages eligible for signing, in proposal order.
    pub fn get_messages_to_sign(&self) -> (r: Vec<Vec<u8>>)
        requires
            self.wf(),
        ensures
            views_of(r@) == self.eligible_msgs(),
    {
        let pred = Ghost(|m: Seq<u8>| self.spec_can_sign(m));
        let mut r: Vec<Vec<u8>> = Vec::new();
        proof {
            reveal(Seq::filter);
            assert(self.queued_msgs().take(0) =~= Seq::<Seq<u8>>::empty());
            assert(views_of(r@) =~= Seq::<Seq<u8>>::empty().filter(pred@));
        }
        let mut i: usize = 0;
        while i < self.message_queue.len()
            invariant
                self.wf(),
                i <= self.message_queue.len(),
                pred == Ghost(|m: Seq<u8>| self.spec_can_sign(m)),
                views_of(r@) == self.queued_msgs().take(i as int).filter(pred@),
            decreases self.message_queue.len() - i,
        {
            let ghost m = self.queued_msgs()[i as int];
            proof {
                lemma_entry_index_unique(self.message_queue@, m, i as int);
            }
            let e = &self.message_queue[i];
            if e.approvals.len() >= self.threshold as usize {
                assert(pred@(m));
                let ghost prev = r@;
                let copy = clone_bytes(&e.msg);
                r.push(copy);
                proof {
                    prev.lemma_push_map_commute(|v: Vec<u8>| v@, r@[r@.len() - 1]);
                    assert(views_of(r@) =~= views_of(prev).push(m));
                }
            } else {
                assert(!pred@(m));
            }
            proof {
                assert(self.queued_msgs().take(i + 1) =~= self.queued_msgs().take(i as int).push(
                    m,
                ));
                self.queued_msgs().take(i as int).lemma_filter_push(m, pred@);
            }
            i = i + 1;
        }
        proof {
            assert(self.queued_msgs().take(self.message_queue@.len() as int) =~= self
                .queued_msgs());
        }
        r
    }

    /// All queued messages, in proposal order.
    pub fn get_proposed_messages(&self) -> (r: Vec<Vec<u8>>)
        ensures
            views_of(r@) == self.queued_msgs(),
    {
        let mut r: Vec<Vec<u8>> = Vec::new();
        let mut i: usize = 0;
        while i < self.message_queue.len()
            invariant
                i <= self.message_queue.len(),
                views_of(r@) == self.queued_msgs().subrange(0, i as int),
            decreases self.message_queue.len() - i,
        {
            let ghost prev = r@;
            let copy = clone_bytes(&self.message_queue[i].msg);
            r.push(copy);
            proof {
                prev.lemma_push_map_commute(|v: Vec<u8>| v@, r@[r@.len() - 1]);
                assert(views_of(r@) =~= self.queued_msgs().subrange(0, i + 1));
            }
            i = i + 1;
        }
        proof {
            assert(self.queued_msgs().subrange(0, self.message_queue@.len() as int) =~= self
                .queued_msgs());
        }
        r
    }

    /// All queued messages with the identities that approved each, in
    /// proposal order.
    pub fn get_messages_with_signers(&self) -> (r: Vec<(Vec<u8>, Vec<SignerId>)>)
        requires
            self.wf(),
        ensures
            r@.len() == self.queued_msgs().len(),
            forall|i: int|
                0 <= i < r@.len() ==> (#[trigger] r@[i]).0@ == self.queued_msgs()[i] && ids_of(
                    r@[i].1@,
                ) == self.approvals_of(self.queued_msgs()[i]),
    {
        let mut r: Vec<(Vec<u8>, Vec<SignerId>)> = Vec::new();
        let mut i: usize = 0;
        while i < self.message_queue.len()
            invariant
                self.wf(),
                i <= self.message_queue.len(),
                r@.len() == i,
                forall|j: int|
                    0 <= j < i ==> (#[trigger] r@[j]).0@ == self.queued_msgs()[j] && ids_of(
                        r@[j].1@,
                    ) == self.approvals_of(self.queued_msgs()[j]),
            decreases self.message_queue.len() - i,
        {
            proof {
                lemma_entry_index_unique(
                    self.message_queue@,
                    self.queued_msgs()[i as int],
                    i as int,
                );
            }
            let e = &self.message_queue[i];
            let pair = (clone_bytes(&e.msg), clone_ids(&e.approvals));
            r.push(pair);
            i = i + 1;
        }
        r
    }

    /// Attach a human-readable annotation to a queued message.  Only a
    /// signer may do so, only for a queued message, and only once per
    /// message: metadata is write-once.
    pub fn add_metadata(&mut self, message: Vec<u8>, metadata: String, caller: SignerId) -> (r:
        Result<(), String>)
        requires
            old(self).wf(),
        ensures
            final(self).wf(),
            !old(self).is_signer(caller@) ==> (r matches Err(e) && e@
                == "Cannot add metadata: No signer."@) && *final(self) == *old(self),
            old(self).is_signer(caller@) && !old(self).has_msg(message@) ==> (r matches Err(e)
                && e@ == "Cannot add metadata: Message not found."@) && *final(self) == *old(self),
            old(self).is_signer(caller@) && old(self).has_msg(message@) && old(self).meta_map().dom().contains(message@) ==> (r matches Err(e) && e@
                == "Metadata already exists for this message"@) && *final(self) == *old(self),
            old(self).is_signer(caller@) && old(self).has_msg(message@) && !old(self).meta_map().dom().contains(message@) ==> r == Ok::<(), String>(()) && final(self).meta_map() == old(self).meta_map().insert(message@, metadata@) && final(self).same_queue(*old(self)) && final(self).same_members(*old(self)),
    {
        if self.find_signer(&caller).is_none() {
            return Err(String::from_str("Cannot add metadata: No signer."));
        }
        if self.find_entry_index(&message).is_none() {
            return Err(String::from_str("Cannot add metadata: Message not found."));
        }
        if self.find_meta_index(&message).is_some() {
            return Err(String::from_str("Metadata already exists for this message"));
        }
        let ghost premd = self.metadata@;
        let p = (message, metadata);
        let ghost gp = p;
        self.metadata.push(p);
        proof {
            lemma_meta_push(premd, gp);
            assert forall|m: Seq<u8>| meta_keys(self.metadata@).contains(m) implies self
                .queued_msgs().contains(m) by {
                let mks = meta_keys(self.metadata@);
                let j = mks.index_of(m);
                assert(0 <= j < mks.len() && mks[j] == m);
                if j < premd.len() {
                    assert(meta_keys(premd)[j] == m);
                    assert(meta_keys(premd).contains(m));
                } else {
                    assert(m == gp.0@);
                    let k = entry_index(self.message_queue@, m);
                    assert(0 <= k < self.message_queue@.len() && self.message_queue@[k].msg@
                        == m);
                    assert(self.queued_msgs()[k] == m);
                }
            }
        }
        Ok(())
    }

    /// The metadata attached to a message.  A caller that is not a signer
    /// is told nothing: the result is indistinguishable from an absent
    /// annotation.
    pub fn get_metadata(&self, message: Vec<u8>, caller: SignerId) -> (r: Option<&String>)
        requires
            self.wf(),
        ensures
            !self.is_signer(caller@) ==> r is None,
            self.is_signer(caller@) ==> match r {
                Some(s) => self.meta_map().dom().contains(message@) && s@ == self.meta_map()[
                    message@
                ],
                None => !self.meta_map().dom().contains(message@),
            },
    {
        if self.find_signer(&caller).is_none() {
            return None;
        }
        match self.find_meta_index(&message) {
            None => None,
            Some(i) => {
                proof {
                    lemma_meta_index_unique(self.metadata@, message@, i as int);
                }
                Some(&self.metadata[i].1)
            },
        }
    }

    /// Consume a message: drop its queue entry and any metadata,
    /// regardless of its approval state.  Only a signer may consume.
    pub fn remove_message_and_metadata(&mut self, msg: Vec<u8>, caller: SignerId) -> (r: Result<
        (),
        String,
    >)
        requires
            old(self).wf(),
        ensures
            final(self).wf(),
            consume_post(*old(self), *final(self), msg@, caller@, r),
    {
        if self.find_signer(&caller).is_none() {
            return Err(String::from_str("CallerNotSigner"));
        }
        self.remove_meta_record(&msg);
        self.remove_queue_entry(&msg);
        Ok(())
    }

    /// Drop a message's metadata record, if it has one.
    fn remove_meta_record(&mut self, msg: &Vec<u8>)
        requires
            old(self).wf(),
        ensures
            final(self).wf(),
            final(self).meta_map() == old(self).meta_map().remove(msg@),
            final(self).same_queue(*old(self)),
            final(self).same_members(*old(self)),
    {
        match self.find_meta_index(msg) {
            Some(i) => {
                proof {
                    lemma_meta_remove(self.metadata@, i as int);
                }
                self.metadata.remove(i);
                proof {
                    assert forall|m: Seq<u8>| meta_keys(self.metadata@).contains(m) implies self
                        .queued_msgs().contains(m) by {
                        assert(meta_keys(old(self).metadata@).contains(m));
                    }
                }
            },
            None => {
                proof {
                    assert(old(self).meta_map().remove(msg@) =~= old(self).meta_map());
                }
            },
        }
    }

    /// Drop a message's queue entry, if it has one.  The message must no
    /// longer carry metadata.
    fn remove_queue_entry(&mut self, msg: &Vec<u8>)
        requires
            old(self).wf(),
            !old(self).meta_map().dom().contains(msg@),
        ensures
            final(self).wf(),
            final(self).queue() == old(self).queue().remove(msg@),
            final(self).queued_msgs() == old(self).queued_msgs().remove_value(msg@),
            final(self).in_flight_msgs() == old(self).in_flight_msgs().remove(msg@),
            final(self).same_metadata(*old(self)),
            final(self).same_members(*old(self)),
    {
        match self.find_entry_index(msg) {
            Some(i) => {
                proof {
                    let msgs = old(self).queued_msgs();
                    msgs.index_of_first_ensures(msg@);
                    assert(msgs[i as int] == msg@);
                    match msgs.index_of_first(msg@) {
                        Some(f) => {
                            if f != i as int {
                                assert(msgs[f] == msgs[i as int]);
                                assert(false);
                            }
                        },
                        None => {
                            assert(false);
                        },
                    }
                    lemma_queue_remove(self.message_queue@, i as int);
                }
                self.message_queue.remove(i);
                proof {
                    assert forall|m: Seq<u8>| meta_keys(self.metadata@).contains(m) implies self
                        .queued_msgs().contains(m) by {
                        assert(meta_keys(old(self).metadata@).contains(m));
                        assert(old(self).queued_msgs().contains(m));
                        assert(m != msg@);
                        let msgs0 = old(self).queued_msgs();
                        let j2 = msgs0.index_of(m);
                        assert(0 <= j2 < msgs0.len() && msgs0[j2] == m);
                        if j2 < i as int {
                            assert(self.queued_msgs()[j2] == m);
                        } else {
                            assert(j2 != i as int);
                            assert(self.queued_msgs()[j2 - 1] == m);
                        }
                    }
                }
            },
            None => {
                proof {
                    let msgs = old(self).queued_msgs();
                    msgs.index_of_first_ensures(msg@);
                    match msgs.index_of_first(msg@) {
                        Some(f) => {
                            assert(msgs[f] == msg@);
                            assert(old(self).message_queue@[f].msg@ == msg@);
                            assert(has_entry(old(self).message_queue@, msg@));
                            assert(false);
                        },
                        None => {},
                    }
                    assert(old(self).queue().remove(msg@) =~= old(self).queue());
                    assert(old(self).in_flight_msgs().remove(msg@) =~= old(self).in_flight_msgs());
                }
            },
        }
    }
}

impl Wallet {
    /// Whether the message has a queue entry.
    pub(crate) fn is_queued(&self, msg: &Vec<u8>) -> (r: bool)
        ensures
            r == self.has_msg(msg@),
    {
        self.find_entry_index(msg).is_some()
    }

    /// Whether the message carries metadata.
    pub(crate) fn has_meta(&self, msg: &Vec<u8>) -> (r: bool)
        ensures
            r == self.meta_map().dom().contains(msg@),
    {
        self.find_meta_index(msg).is_some()
    }
}

impl Clone for Wallet {
    /// A snapshot: a wallet observably equal to this one.
    fn clone(&self) -> (r: Wallet)
        ensures
            r.signer_ids() == self.signer_ids(),
            r.spec_threshold() == self.spec_threshold(),
            r.queued_msgs() == self.queued_msgs(),
            self.wf() ==> r.wf() && r.queue() == self.queue() && r.in_flight_msgs()
                == self.in_flight_msgs() && r.meta_map() == self.meta_map(),
    {
        let signers = clone_ids(&self.signers);
        let mut message_queue: Vec<QueueEntry> = Vec::new();
        let mut i: usize = 0;
        while i < self.message_queue.len()
            invariant
                i <= self.message_queue.len(),
                message_queue@.len() == i,
                forall|j: int|
                    0 <= j < i ==> (#[trigger] message_queue@[j]).msg@ == self.message_queue@[
                        j
                    ].msg@ && ids_of(message_queue@[j].approvals@) == ids_of(
                        self.message_queue@[j].approvals@,
                    ) && message_queue@[j].in_flight == self.message_queue@[j].in_flight,
            decreases self.message_queue.len() - i,
        {
            let e = &self.message_queue[i];
            let copy = QueueEntry {
                msg: clone_bytes(&e.msg),
                approvals: clone_ids(&e.approvals),
                in_flight: e.in_flight,
            };
            message_queue.push(copy);
            i = i + 1;
        }
        let mut metadata: Vec<(Vec<u8>, String)> = Vec::new();
        let mut k: usize = 0;
        while k < self.metadata.len()
            invariant
                k <= self.metadata.len(),
                metadata@.len() == k,
                forall|j: int|
                    0 <= j < k ==> (#[trigger] metadata@[j]).0@ == self.metadata@[j].0@
                        && metadata@[j].1@ == self.metadata@[j].1@,
            decreases self.metadata.len() - k,
        {
            let p = &self.metadata[k];
            let copy = (clone_bytes(&p.0), p.1.clone());
            metadata.push(copy);
            k = k + 1;
        }
        let r = Wallet { signers, threshold: self.threshold, message_queue, metadata };
        proof {
            assert(r.queued_msgs() =~= self.queued_msgs());
            assert(meta_keys(r.metadata@) =~= meta_keys(self.metadata@));
            if self.wf() {
                assert forall|m: Seq<u8>| #[trigger] has_entry(r.message_queue@, m) implies
                    has_entry(self.message_queue@, m) && r.queue()[m] == self.queue()[m]
                    && (r.in_flight_msgs().contains(m) == self.in_flight_msgs().contains(m)) by {
                    let j = entry_index(r.message_queue@, m);
                    assert(0 <= j < r.message_queue@.len() && r.message_queue@[j].msg@ == m);
                    assert(self.message_queue@[j].msg@ == m);
                    lemma_entry_index_unique(self.message_queue@, m, j);
                    lemma_entry_index_unique(r.message_queue@, m, j);
                }
                assert forall|m: Seq<u8>| #[trigger] has_entry(self.message_queue@, m) implies
                    has_entry(r.message_queue@, m) by {
                    let j = entry_index(self.message_queue@, m);
                    assert(0 <= j < self.message_queue@.len() && self.message_queue@[j].msg@
                        == m);
                    assert(r.message_queue@[j].msg@ == m);
                }
                assert(r.queue() =~= self.queue());
                assert(r.in_flight_msgs() =~= self.in_flight_msgs());
                assert forall|m: Seq<u8>| #[trigger] meta_keys(r.metadata@).contains(m) implies
                    meta_keys(self.metadata@).contains(m) && r.meta_map()[m]
                    == self.meta_map()[m] by {
                    let j = meta_index(r.metadata@, m);
                    assert(0 <= j < r.metadata@.len() && r.metadata@[j].0@ == m);
                    assert(self.metadata@[j].0@ == m);
                    lemma_meta_index_unique(self.metadata@, m, j);
                    lemma_meta_index_unique(r.metadata@, m, j);
                }
                assert(r.meta_map() =~= self.meta_map());
            }
        }
        r
    }
}

/// A well-formed wallet's signer identities are distinct.
pub proof fn lemma_wf_signers_distinct(w: Wallet)
    requires
        w.wf(),
    ensures
        w.signer_ids().no_duplicates(),
{
}

/// Only a queued message can be in flight.
pub proof fn lemma_in_flight_queued(w: Wallet, m: Seq<u8>)
    requires
        w.in_flight_msgs().contains(m),
    ensures
        w.has_msg(m),
{
}

/// In a well-formed wallet, metadata is only ever attached to a queued
/// message.
pub proof fn lemma_wf_meta_queued(w: Wallet, m: Seq<u8>)
    requires
        w.wf(),
        w.meta_map().dom().contains(m),
    ensures
        w.has_msg(m),
{
    assert(meta_keys(w.metadata@).contains(m));
    assert(w.queued_msgs().contains(m));
    let j = w.queued_msgs().index_of(m);
    assert(0 <= j < w.queued_msgs().len() && w.queued_msgs()[j] == m);
    assert(w.message_queue@[j].msg@ == m);
    assert(has_entry(w.message_queue@, m));
}

/// The bound `threshold <= |signers|` survives every mutation that
/// leaves the signer set and the threshold alone: proposals, approvals,
/// metadata changes and consumption.
pub proof fn lemma_threshold_ok_same_members(pre: Wallet, post: Wallet)
    requires
        pre.threshold_ok(),
        post.signer_ids() == pre.signer_ids(),
        post.spec_threshold() == pre.spec_threshold(),
    ensures
        post.threshold_ok(),
{
}

/// Adding a signer preserves the bound `threshold <= |signers|`: the
/// signer set only grows.
pub proof fn lemma_threshold_ok_add_signer(pre: Wallet, post: Wallet, signer: Seq<u8>)
    requires
        pre.threshold_ok(),
        add_signer_post(pre, post, signer),
    ensures
        post.threshold_ok(),
{
    broadcast use vstd::seq_lib::seq_to_set_is_finite;

    if pre.signer_set().contains(signer) {
        assert(pre.signer_set().insert(signer) =~= pre.signer_set());
    } else {
        assert(pre.signer_set().insert(signer).len() == pre.signer_set().len() + 1);
    }
}

/// Replacing the threshold preserves the bound: it succeeds only when
/// the new value is within the signer count, and fails without change
/// otherwise.
pub proof fn lemma_threshold_ok_set_threshold(
    pre: Wallet,
    post: Wallet,
    threshold: u8,
    r: Result<(), WalletError>,
)
    requires
        pre.threshold_ok(),
        set_threshold_post(pre, post, threshold, r),
    ensures
        post.threshold_ok(),
{
}

/// Removing a signer preserves the bound except in one case: the
/// removed identity is a signer of a wallet whose threshold already
/// equals its signer count.  That case is excluded here, since a
/// removal never touches the threshold and the bound genuinely breaks
/// there.
pub proof fn lemma_threshold_ok_remove_signer(pre: Wallet, post: Wallet, signer: Seq<u8>)
    requires
        pre.threshold_ok(),
        remove_signer_post(pre, post, signer),
        pre.is_signer(signer) ==> pre.spec_threshold() < pre.signer_set().len(),
    ensures
        post.threshold_ok(),
{
    broadcast use vstd::seq_lib::seq_to_set_is_finite;

    if pre.signer_set().contains(signer) {
        assert(pre.signer_set().remove(signer).len() == pre.signer_set().len() - 1);
    } else {
        assert(pre.signer_set().remove(signer) =~= pre.signer_set());
    }
}

/// Proposing the same message twice: after one successful proposal, a
/// second proposal of that message by a signer always fails with
/// `MsgAlreadyQueued` and changes nothing.
pub proof fn lemma_propose_twice(
    w0: Wallet,
    w1: Wallet,
    w2: Wallet,
    c1: Seq<u8>,
    c2: Seq<u8>,
    m: Seq<u8>,
    r2: Result<(), WalletError>,
)
    requires
        propose_post(w0, w1, c1, m, Ok::<(), WalletError>(())),
        w1.is_signer(c2),
        propose_post(w1, w2, c2, m, r2),
    ensures
        r2 == Err::<(), WalletError>(WalletError::MsgAlreadyQueued),
        w2 == w1,
{
    assert(w0.is_signer(c1));
    assert(w1.has_msg(m));
}

/// When a message can be signed: never without a queue entry, never
/// with fewer approvals than the threshold, always otherwise.
pub proof fn lemma_can_sign_characterisation(w: Wallet, m: Seq<u8>)
    ensures
        !w.has_msg(m) ==> !w.spec_can_sign(m),
        w.has_msg(m) && w.approvals_of(m).len() < w.spec_threshold() ==> !w.spec_can_sign(m),
        w.has_msg(m) && w.approvals_of(m).len() >= w.spec_threshold() ==> w.spec_can_sign(m),
{
}

/// An approval by a non-signer always fails and never changes the
/// wallet; for a queued message the error is the membership error.
pub proof fn lemma_approve_non_signer(
    w0: Wallet,
    w1: Wallet,
    m: Seq<u8>,
    s: Seq<u8>,
    r: Result<u8, WalletError>,
)
    requires
        approve_post(w0, w1, m, s, r),
        !w0.is_signer(s),
    ensures
        r is Err,
        w1 == w0,
        w0.has_msg(m) ==> r == Err::<u8, WalletError>(WalletError::InvalidSignature),
{
}

/// After a signer consumes a message, its queue entry, its metadata and
/// its in-flight mark are all gone, whatever state the entry was in.
pub proof fn lemma_consume_purges(
    w0: Wallet,
    w1: Wallet,
    m: Seq<u8>,
    c: Seq<u8>,
    r: Result<(), String>,
)
    requires
        consume_post(w0, w1, m, c, r),
        w0.is_signer(c),
    ensures
        !w1.has_msg(m),
        !w1.meta_map().dom().contains(m),
        !w1.in_flight_msgs().contains(m),
{
}

} // verus!
