//! The multi-wallet registry and its operation surface.
//!
//! A [`Registry`] owns every wallet under a caller-chosen identifier,
//! rejects duplicate identifiers at creation, and keeps a reverse index
//! from signer identity to the wallets it participates in.  Messages and
//! signatures cross this surface as hexadecimal strings.  Before an
//! eligible message is handed to the signing capability, the registry
//! inspects it for a governance command — `ADD_SIGNER::`,
//! `REMOVE_SIGNER::` or `SET_THRESHOLD::` followed by an argument — and,
//! when it finds one, reconfigures the wallet and the index instead of
//! signing.

use vstd::prelude::*;
use vstd::string::*;

use vstd::utf8::{decode_utf8, encode_utf8, valid_utf8};

use crate::encoding::{bytes_to_text, dec_chars_of, str_starts_with, u8_to_dec_string};
use crate::encoding::{hex_all, hex_chars_of, hex_decode, hex_encode, is_hex_str, hex_val_of};
use crate::encoding::{parse_u8_dec, parse_u8_spec};
use crate::ids::{principal_of_text, principal_text, SignerId};
use crate::signer::{Signer, SigningError};
use crate::wallet::{Wallet, WalletError};
use crate::wallet::{approve_post, clone_bytes, clone_ids, ids_of, lemma_in_flight_queued, lemma_wf_meta_queued, propose_post, views_of};

verus! {

/// The textual prefix of a governance command that adds a signer.
pub open spec fn add_command_prefix() -> Seq<char> {
    "ADD_SIGNER::"@
}

/// The textual prefix of a governance command that removes a signer.
pub open spec fn remove_command_prefix() -> Seq<char> {
    "REMOVE_SIGNER::"@
}

/// The textual prefix of a governance command that replaces the threshold.
pub open spec fn threshold_command_prefix() -> Seq<char> {
    "SET_THRESHOLD::"@
}

/// Whether the message decodes as text beginning with the add-signer
/// command prefix.
pub open spec fn is_add_command(b: Seq<u8>) -> bool {
    valid_utf8(b) && add_command_prefix().is_prefix_of(decode_utf8(b))
}

/// Whether the message decodes as text beginning with the remove-signer
/// command prefix.
pub open spec fn is_remove_command(b: Seq<u8>) -> bool {
    valid_utf8(b) && remove_command_prefix().is_prefix_of(decode_utf8(b))
}

/// Whether the message decodes as text beginning with the set-threshold
/// command prefix.
pub open spec fn is_threshold_command(b: Seq<u8>) -> bool {
    valid_utf8(b) && threshold_command_prefix().is_prefix_of(decode_utf8(b))
}

/// Whether the message is a governance command of any kind.
pub open spec fn is_command(b: Seq<u8>) -> bool {
    is_add_command(b) || is_remove_command(b) || is_threshold_command(b)
}

/// The argument text of an add-signer command.
pub open spec fn add_command_arg(b: Seq<u8>) -> Seq<char> {
    decode_utf8(b).skip(add_command_prefix().len() as int)
}

/// The argument text of a remove-signer command.
pub open spec fn remove_command_arg(b: Seq<u8>) -> Seq<char> {
    decode_utf8(b).skip(remove_command_prefix().len() as int)
}

/// The argument text of a set-threshold command.
pub open spec fn threshold_command_arg(b: Seq<u8>) -> Seq<char> {
    decode_utf8(b).skip(threshold_command_prefix().len() as int)
}

/// The consumption that ends every signing cycle: when the caller is a
/// signer of the (possibly reconfigured) wallet, the message's queue
/// entry, metadata and in-flight mark are gone; a non-signer's
/// consumption attempt is ignored and the wallet's queue is untouched.
pub open spec fn consumed_if_signer(w0: Wallet, w1: Wallet, bytes: Seq<u8>, caller: Seq<u8>) -> bool {
    &&& (w1.is_signer(caller) ==> w1.queue() == w0.queue().remove(bytes) && w1.queued_msgs()
        == w0.queued_msgs().remove_value(bytes) && w1.meta_map() == w0.meta_map().remove(bytes)
        && w1.in_flight_msgs() == w0.in_flight_msgs().remove(bytes))
    &&& (!w1.is_signer(caller) ==> w1.queue() == w0.queue() && w1.queued_msgs()
        == w0.queued_msgs() && w1.meta_map() == w0.meta_map() && w1.in_flight_msgs()
        == w0.in_flight_msgs())
}

/// The ways a registry operation can fail.
#[derive(Debug, PartialEq, Eq, Structural)]
pub enum ServiceError {
    /// The message is not a hexadecimal byte string.
    InvalidMessage,
    /// No wallet is registered under the identifier.
    WalletNotFound,
    /// A wallet is already registered under the identifier.
    WalletAlreadyExists,
    /// The requested threshold exceeds the number of signers.
    SignersNotMatchThreshold,
    /// The message already has a queue entry.
    MsgAlreadyQueued,
    /// The message has no queue entry.
    MsgNotQueued,
    /// The acting identity is not a signer of the wallet.
    NotASigner,
    /// The message has not gathered enough approvals to be signed.
    CannotSign,
    /// The message carries no metadata visible to the caller.
    MetadataNotFound,
    /// The message already carries metadata.
    MetadataAlreadyExists,
    /// A signing request for the message is already in flight.
    SigningInProgress,
    /// The signing capability failed; the queue entry is consumed.
    SigningFailed,
    /// A governance command whose argument does not parse.
    MalformedCommand,
}

/// The registry: every wallet under its identifier, and the reverse
/// index from signer identity to owned wallet identifiers.
pub struct Registry {
    wallets: Vec<(String, Wallet)>,
    signer_index: Vec<(SignerId, Vec<String>)>,
}

pub(crate) open spec fn wkeys(ws: Seq<(String, Wallet)>) -> Seq<Seq<char>> {
    ws.map_values(|p: (String, Wallet)| p.0@)
}

pub(crate) open spec fn whas(ws: Seq<(String, Wallet)>, id: Seq<char>) -> bool {
    exists|i: int| 0 <= i < ws.len() && ws[i].0@ == id
}

pub(crate) open spec fn windex(ws: Seq<(String, Wallet)>, id: Seq<char>) -> int {
    choose|i: int| 0 <= i < ws.len() && ws[i].0@ == id
}

pub(crate) open spec fn wmap(ws: Seq<(String, Wallet)>) -> Map<Seq<char>, Wallet> {
    Map::new(|id: Seq<char>| whas(ws, id), |id: Seq<char>| ws[windex(ws, id)].1)
}

/// The text views of a sequence of strings.
pub open spec fn strs_of(v: Seq<String>) -> Seq<Seq<char>> {
    v.map_values(|s: String| s@)
}

pub(crate) open spec fn ikeys(ix: Seq<(SignerId, Vec<String>)>) -> Seq<Seq<u8>> {
    ix.map_values(|p: (SignerId, Vec<String>)| p.0@)
}

pub(crate) open spec fn ihas(ix: Seq<(SignerId, Vec<String>)>, s: Seq<u8>) -> bool {
    exists|i: int| 0 <= i < ix.len() && ix[i].0@ == s
}

pub(crate) open spec fn iindex(ix: Seq<(SignerId, Vec<String>)>, s: Seq<u8>) -> int {
    choose|i: int| 0 <= i < ix.len() && ix[i].0@ == s
}

pub(crate) open spec fn ilists(ix: Seq<(SignerId, Vec<String>)>, s: Seq<u8>) -> Seq<Seq<char>> {
    if ihas(ix, s) {
        strs_of(ix[iindex(ix, s)].1@)
    } else {
        Seq::empty()
    }
}

/// In a wallet list with distinct identifiers, the index of an
/// identifier found at position `i` is `i` itself.
pub(crate) proof fn lemma_windex_unique(ws: Seq<(String, Wallet)>, id: Seq<char>, i: int)
    requires
        wkeys(ws).no_duplicates(),
        0 <= i < ws.len(),
        ws[i].0@ == id,
    ensures
        whas(ws, id),
        windex(ws, id) == i,
{
    assert(whas(ws, id));
    let j = windex(ws, id);
    assert(0 <= j < ws.len() && ws[j].0@ == id);
    if i != j {
        assert(wkeys(ws)[i] == wkeys(ws)[j]);
        assert(false);
    }
}

/// In an index list with distinct signers, the position of a signer
/// found at `i` is `i` itself.
pub(crate) proof fn lemma_iindex_unique(ix: Seq<(SignerId, Vec<String>)>, s: Seq<u8>, i: int)
    requires
        ikeys(ix).no_duplicates(),
        0 <= i < ix.len(),
        ix[i].0@ == s,
    ensures
        ihas(ix, s),
        iindex(ix, s) == i,
{
    assert(ihas(ix, s));
    let j = iindex(ix, s);
    assert(0 <= j < ix.len() && ix[j].0@ == s);
    if i != j {
        assert(ikeys(ix)[i] == ikeys(ix)[j]);
        assert(false);
    }
}

/// Appending a wallet under a fresh identifier adds exactly that key to
/// the wallet view.
pub(crate) proof fn lemma_wallets_push(ws: Seq<(String, Wallet)>, p: (String, Wallet))
    requires
        wkeys(ws).no_duplicates(),
        !whas(ws, p.0@),
    ensures
        wkeys(ws.push(p)) == wkeys(ws).push(p.0@),
        wkeys(ws.push(p)).no_duplicates(),
        wmap(ws.push(p)) == wmap(ws).insert(p.0@, p.1),
{
    let ws2 = ws.push(p);
    ws.lemma_push_map_commute(|x: (String, Wallet)| x.0@, p);
    assert(wkeys(ws2) =~= wkeys(ws).push(p.0@));
    assert(wkeys(ws2).no_duplicates()) by {
        assert forall|a: int, b: int| 0 <= a < b < ws2.len() implies wkeys(ws2)[a]
            != wkeys(ws2)[b] by {
            if b == ws.len() {
                if wkeys(ws2)[a] == p.0@ {
                    assert(ws[a].0@ == p.0@);
                    assert(whas(ws, p.0@));
                }
            } else {
                assert(wkeys(ws)[a] != wkeys(ws)[b]);
            }
        }
    }
    assert forall|id: Seq<char>| #[trigger] whas(ws, id) implies whas(ws2, id) && windex(ws2, id)
        == windex(ws, id) by {
        let j = windex(ws, id);
        assert(0 <= j < ws.len() && ws[j].0@ == id);
        assert(ws2[j].0@ == id);
        lemma_windex_unique(ws2, id, j);
        lemma_windex_unique(ws, id, j);
    }
    assert forall|id: Seq<char>| #[trigger] whas(ws2, id) implies whas(ws, id) || id == p.0@ by {
        let j = windex(ws2, id);
        assert(0 <= j < ws2.len() && ws2[j].0@ == id);
        if j < ws.len() {
            assert(ws[j].0@ == id);
        }
    }
    lemma_windex_unique(ws2, p.0@, ws.len() as int);
    assert(wmap(ws2) =~= wmap(ws).insert(p.0@, p.1));
}

/// Replacing the wallet at `i` under the same identifier replaces only
/// that key's wallet in the view.
pub(crate) proof fn lemma_wallets_update(ws: Seq<(String, Wallet)>, i: int, p: (String, Wallet))
    requires
        wkeys(ws).no_duplicates(),
        0 <= i < ws.len(),
        p.0@ == ws[i].0@,
    ensures
        wkeys(ws.update(i, p)) == wkeys(ws),
        wkeys(ws.update(i, p)).no_duplicates(),
        wmap(ws.update(i, p)) == wmap(ws).insert(p.0@, p.1),
{
    let ws2 = ws.update(i, p);
    assert(wkeys(ws2) =~= wkeys(ws));
    assert forall|id: Seq<char>| #[trigger] whas(ws, id) implies whas(ws2, id) && windex(ws2, id)
        == windex(ws, id) by {
        let j = windex(ws, id);
        assert(0 <= j < ws.len() && ws[j].0@ == id);
        assert(ws2[j].0@ == id);
        lemma_windex_unique(ws2, id, j);
        lemma_windex_unique(ws, id, j);
    }
    assert forall|id: Seq<char>| #[trigger] whas(ws2, id) implies whas(ws, id) by {
        let j = windex(ws2, id);
        assert(ws[j].0@ == id);
    }
    lemma_windex_unique(ws, p.0@, i);
    assert(wmap(ws2) =~= wmap(ws).insert(p.0@, p.1));
}

/// Appending an index record for a fresh signer changes exactly that
/// signer's list.
pub(crate) proof fn lemma_index_push(ix: Seq<(SignerId, Vec<String>)>, p: (SignerId, Vec<String>))
    requires
        ikeys(ix).no_duplicates(),
        !ihas(ix, p.0@),
    ensures
        ikeys(ix.push(p)).no_duplicates(),
        ilists(ix.push(p), p.0@) == strs_of(p.1@),
        forall|s: Seq<u8>| s != p.0@ ==> ilists(ix.push(p), s) == ilists(ix, s),
{
    let ix2 = ix.push(p);
    ix.lemma_push_map_commute(|x: (SignerId, Vec<String>)| x.0@, p);
    assert(ikeys(ix2) =~= ikeys(ix).push(p.0@));
    assert(ikeys(ix2).no_duplicates()) by {
        assert forall|a: int, b: int| 0 <= a < b < ix2.len() implies ikeys(ix2)[a]
            != ikeys(ix2)[b] by {
            if b == ix.len() {
                if ikeys(ix2)[a] == p.0@ {
                    assert(ix[a].0@ == p.0@);
                    assert(ihas(ix, p.0@));
                }
            } else {
                assert(ikeys(ix)[a] != ikeys(ix)[b]);
            }
        }
    }
    lemma_iindex_unique(ix2, p.0@, ix.len() as int);
    assert forall|s: Seq<u8>| s != p.0@ implies ilists(ix2, s) == ilists(ix, s) by {
        if ihas(ix, s) {
            let j = iindex(ix, s);
            assert(0 <= j < ix.len() && ix[j].0@ == s);
            assert(ix2[j].0@ == s);
            lemma_iindex_unique(ix2, s, j);
            lemma_iindex_unique(ix, s, j);
            assert(ilists(ix2, s) == ilists(ix, s));
        } else {
            if ihas(ix2, s) {
                let j = iindex(ix2, s);
                assert(0 <= j < ix2.len() && ix2[j].0@ == s);
                if j < ix.len() {
                    assert(ix[j].0@ == s);
                    assert(false);
                } else {
                    assert(s == p.0@);
                    assert(false);
                }
            }
        }
    }
}

/// Replacing the index record at `i` for the same signer changes
/// exactly that signer's list.
pub(crate) proof fn lemma_index_update(
    ix: Seq<(SignerId, Vec<String>)>,
    i: int,
    p: (SignerId, Vec<String>),
)
    requires
        ikeys(ix).no_duplicates(),
        0 <= i < ix.len(),
        p.0@ == ix[i].0@,
    ensures
        ikeys(ix.update(i, p)).no_duplicates(),
        ilists(ix.update(i, p), p.0@) == strs_of(p.1@),
        forall|s: Seq<u8>| s != p.0@ ==> ilists(ix.update(i, p), s) == ilists(ix, s),
{
    let ix2 = ix.update(i, p);
    assert(ikeys(ix2) =~= ikeys(ix));
    lemma_iindex_unique(ix2, p.0@, i);
    assert forall|s: Seq<u8>| s != p.0@ implies ilists(ix2, s) == ilists(ix, s) by {
        if ihas(ix, s) {
            let j = iindex(ix, s);
            assert(0 <= j < ix.len() && ix[j].0@ == s);
            assert(j != i);
            assert(ix2[j].0@ == s);
            lemma_iindex_unique(ix2, s, j);
            lemma_iindex_unique(ix, s, j);
        } else {
            if ihas(ix2, s) {
                let j = iindex(ix2, s);
                assert(0 <= j < ix2.len() && ix2[j].0@ == s);
                assert(j != i);
                assert(ix[j].0@ == s);
                assert(false);
            }
        }
    }
}

impl Registry {
    /// The registered wallet identifiers, in creation order.
    pub closed spec fn wallet_ids(self) -> Seq<Seq<char>> {
        wkeys(self.wallets@)
    }

    /// The wallets, keyed by identifier.
    pub closed spec fn wallets_map(self) -> Map<Seq<char>, Wallet> {
        wmap(self.wallets@)
    }

    /// Whether a wallet is registered under the identifier.
    pub open spec fn has_wallet(self, id: Seq<char>) -> bool {
        self.wallets_map().dom().contains(id)
    }

    /// The wallet registered under the identifier.
    pub open spec fn wallet_of(self, id: Seq<char>) -> Wallet {
        self.wallets_map()[id]
    }

    /// The wallet identifiers a signer participates in, in registration
    /// order; empty for an unknown signer.
    pub closed spec fn index_lists(self, s: Seq<u8>) -> Seq<Seq<char>> {
        ilists(self.signer_index@, s)
    }

    /// Structural well-formedness: wallet identifiers are distinct,
    /// index signers are distinct, every wallet is well formed.
    pub closed spec fn wf(self) -> bool {
        &&& wkeys(self.wallets@).no_duplicates()
        &&& ikeys(self.signer_index@).no_duplicates()
        &&& forall|i: int| 0 <= i < self.wallets@.len() ==> (#[trigger] self.wallets@[i]).1.wf()
    }

    /// A registered wallet of a well-formed registry is well formed.
    pub proof fn lemma_wallet_wf(self, id: Seq<char>)
        requires
            self.wf(),
            self.has_wallet(id),
        ensures
            self.wallet_of(id).wf(),
    {
        let j = windex(self.wallets@, id);
        assert(0 <= j < self.wallets@.len() && self.wallets@[j].0@ == id);
        assert(self.wallets@[j].1.wf());
    }

    /// All wallets except the named one unchanged between two states.
    pub open spec fn same_wallets_except(self, pre: Registry, id: Seq<char>) -> bool {
        &&& self.wallet_ids() == pre.wallet_ids()
        &&& self.wallets_map().dom() == pre.wallets_map().dom()
        &&& forall|x: Seq<char>|
            x != id && pre.has_wallet(x) ==> self.wallets_map()[x] == pre.wallets_map()[x]
    }

    /// The signer index unchanged between two states.
    pub open spec fn same_index(self, pre: Registry) -> bool {
        forall|s: Seq<u8>| self.index_lists(s) == pre.index_lists(s)
    }

    /// An empty registry: no wallets, no index entries.
    pub fn new() -> (r: Registry)
        ensures
            r.wf(),
            r.wallet_ids() == Seq::<Seq<char>>::empty(),
            r.wallets_map() == Map::<Seq<char>, Wallet>::empty(),
            forall|s: Seq<u8>| r.index_lists(s) == Seq::<Seq<char>>::empty(),
    {
        let r = Registry { wallets: Vec::new(), signer_index: Vec::new() };
        proof {
            assert(r.wallet_ids() =~= Seq::<Seq<char>>::empty());
            assert(r.wallets_map() =~= Map::<Seq<char>, Wallet>::empty());
        }
        r
    }

    /// Find a wallet's position by identifier.
    fn find_wallet(&self, id: &String) -> (r: Option<usize>)
        ensures
            r matches Some(i) ==> i < self.wallets@.len() && self.wallets@[i as int].0@ == id@
                && self.has_wallet(id@),
            r is None ==> !self.has_wallet(id@),
    {
        let mut i: usize = 0;
        while i < self.wallets.len()
            invariant
                i <= self.wallets.len(),
                forall|j: int| 0 <= j < i ==> self.wallets@[j].0@ != id@,
            decreases self.wallets.len() - i,
        {
            if self.wallets[i].0 == *id {
                assert(whas(self.wallets@, id@));
                return Some(i);
            }
            i = i + 1;
        }
        assert(!whas(self.wallets@, id@));
        None
    }

    /// Find a signer's position in the index.
    fn find_index_entry(&self, signer: &SignerId) -> (r: Option<usize>)
        ensures
            r matches Some(i) ==> i < self.signer_index@.len() && self.signer_index@[i as int].0@
                == signer@,
            r is None ==> !ihas(self.signer_index@, signer@),
    {
        let mut i: usize = 0;
        while i < self.signer_index.len()
            invariant
                i <= self.signer_index.len(),
                forall|j: int| 0 <= j < i ==> self.signer_index@[j].0@ != signer@,
            decreases self.signer_index.len() - i,
        {
            if self.signer_index[i].0 == *signer {
                return Some(i);
            }
            i = i + 1;
        }
        assert(!ihas(self.signer_index@, signer@));
        None
    }

    /// Record that a signer participates in a wallet: the identifier is
    /// appended to the signer's list.
    fn index_add(&mut self, signer: &SignerId, wallet_id: String)
        requires
            ikeys(old(self).signer_index@).no_duplicates(),
        ensures
            ikeys(final(self).signer_index@).no_duplicates(),
            final(self).wallets@ == old(self).wallets@,
            ilists(final(self).signer_index@, signer@) == ilists(
                old(self).signer_index@,
                signer@,
            ).push(wallet_id@),
            forall|s: Seq<u8>|
                s != signer@ ==> ilists(final(self).signer_index@, s) == ilists(
                    old(self).signer_index@,
                    s,
                ),
    {
        match self.find_index_entry(signer) {
            Some(i) => {
                proof {
                    lemma_iindex_unique(self.signer_index@, signer@, i as int);
                }
                let ghost pre = self.signer_index@;
                let mut entry = self.signer_index.remove(i);
                let ghost prelist = entry.1@;
                let ghost gid = wallet_id@;
                entry.1.push(wallet_id);
                let ghost ge = entry;
                self.signer_index.insert(i, entry);
                proof {
                    assert(self.signer_index@ =~= pre.update(i as int, ge));
                    lemma_index_update(pre, i as int, ge);
                    prelist.lemma_push_map_commute(|s: String| s@, ge.1@[ge.1@.len() - 1]);
                    assert(strs_of(ge.1@) =~= strs_of(prelist).push(gid));
                    assert(ilists(pre, signer@) == strs_of(prelist));
                }
            },
            None => {
                let mut list: Vec<String> = Vec::new();
                let ghost gid = wallet_id@;
                list.push(wallet_id);
                let ghost pre = self.signer_index@;
                let p = (signer.clone(), list);
                let ghost gp = p;
                self.signer_index.push(p);
                proof {
                    lemma_index_push(pre, gp);
                    assert(strs_of(gp.1@) =~= Seq::<Seq<char>>::empty().push(gid));
                    assert(ilists(pre, signer@) == Seq::<Seq<char>>::empty());
                }
            },
        }
    }

    /// Strike a wallet identifier from a signer's list: every occurrence
    /// is removed.
    fn index_remove(&mut self, signer: &SignerId, wallet_id: &String)
        requires
            ikeys(old(self).signer_index@).no_duplicates(),
        ensures
            ikeys(final(self).signer_index@).no_duplicates(),
            final(self).wallets@ == old(self).wallets@,
            ilists(final(self).signer_index@, signer@) == ilists(
                old(self).signer_index@,
                signer@,
            ).filter(|x: Seq<char>| x != wallet_id@),
            forall|s: Seq<u8>|
                s != signer@ ==> ilists(final(self).signer_index@, s) == ilists(
                    old(self).signer_index@,
                    s,
                ),
    {
        match self.find_index_entry(signer) {
            Some(i) => {
                proof {
                    lemma_iindex_unique(self.signer_index@, signer@, i as int);
                }
                let ghost pre = self.signer_index@;
                let mut entry = self.signer_index.remove(i);
                let ghost prelist = entry.1@;
                let mut kept: Vec<String> = Vec::new();
                let mut k: usize = 0;
                proof {
                    reveal(Seq::filter);
                    assert(strs_of(prelist).take(0) =~= Seq::<Seq<char>>::empty());
                }
                while k < entry.1.len()
                    invariant
                        k <= entry.1@.len(),
                        entry.1@ == prelist,
                        strs_of(kept@) == strs_of(prelist).take(k as int).filter(
                            |x: Seq<char>| x != wallet_id@,
                        ),
                    decreases entry.1@.len() - k,
                {
                    let ghost x = strs_of(prelist)[k as int];
                    let keep = entry.1[k] != *wallet_id;
                    if keep {
                        let ghost prev = kept@;
                        let s = entry.1[k].clone();
                        kept.push(s);
                        proof {
                            prev.lemma_push_map_commute(|s: String| s@, kept@[kept@.len() - 1]);
                            assert(strs_of(kept@) =~= strs_of(prev).push(x));
                        }
                    }
                    proof {
                        assert(strs_of(prelist).take(k + 1) =~= strs_of(prelist).take(
                            k as int,
                        ).push(x));
                        strs_of(prelist).take(k as int).lemma_filter_push(
                            x,
                            |x: Seq<char>| x != wallet_id@,
                        );
                    }
                    k = k + 1;
                }
                proof {
                    assert(strs_of(prelist).take(prelist.len() as int) =~= strs_of(prelist));
                }
                let replacement = (entry.0, kept);
                let ghost gp = replacement;
                self.signer_index.insert(i, replacement);
                proof {
                    assert(self.signer_index@ =~= pre.update(i as int, gp));
                    lemma_index_update(pre, i as int, gp);
                    assert(ilists(pre, signer@) == strs_of(prelist));
                }
            },
            None => {
                proof {
                    assert(ilists(self.signer_index@, signer@) == Seq::<Seq<char>>::empty());
                    assert(Seq::<Seq<char>>::empty().filter(|x: Seq<char>| x != wallet_id@)
                        =~= Seq::<Seq<char>>::empty()) by {
                        reveal(Seq::filter);
                    }
                }
            },
        }
    }

    /// Create a wallet under a fresh identifier with the given signers
    /// and threshold.  A taken identifier or a threshold beyond the
    /// number of distinct signers is rejected without any change; on
    /// success every signer's index list gains this identifier.
    pub fn create_wallet(&mut self, wallet_id: String, signers: Vec<SignerId>, threshold: u8) -> (r:
        Result<(), ServiceError>)
        requires
            old(self).wf(),
        ensures
            final(self).wf(),
            old(self).has_wallet(wallet_id@) ==> r == Err::<(), ServiceError>(
                ServiceError::WalletAlreadyExists,
            ) && *final(self) == *old(self),
            !old(self).has_wallet(wallet_id@) && threshold as nat > ids_of(
                signers@,
            ).to_set().len() ==> r == Err::<(), ServiceError>(ServiceError::SignersNotMatchThreshold)
                && *final(self) == *old(self),
            !old(self).has_wallet(wallet_id@) && threshold as nat <= ids_of(signers@).to_set().len()
                ==> r == Ok::<(), ServiceError>(()) && final(self).wallet_ids() == old(
                self,
            ).wallet_ids().push(wallet_id@) && final(self).wallets_map().dom() == old(
                self,
            ).wallets_map().dom().insert(wallet_id@) && (forall|x: Seq<char>|
                x != wallet_id@ && old(self).has_wallet(x) ==> final(self).wallets_map()[x] == old(
                    self,
                ).wallets_map()[x]) && (
            {
                let w = final(self).wallet_of(wallet_id@);
                &&& w.wf()
                &&& w.threshold_ok()
                &&& w.signer_set() == ids_of(signers@).to_set()
                &&& w.spec_threshold() == threshold
                &&& w.queued_msgs() == Seq::<Seq<u8>>::empty()
                &&& w.queue() == Map::<Seq<u8>, Seq<Seq<u8>>>::empty()
                &&& w.meta_map() == Map::<Seq<u8>, Seq<char>>::empty()
                &&& w.in_flight_msgs() == Set::<Seq<u8>>::empty()
            }) && (forall|s: Seq<u8>|
                ids_of(signers@).to_set().contains(s) ==> final(self).index_lists(s) == old(
                    self,
                ).index_lists(s).push(wallet_id@)) && (forall|s: Seq<u8>|
                !ids_of(signers@).to_set().contains(s) ==> final(self).index_lists(s) == old(
                    self,
                ).index_lists(s)),
    {
        if self.find_wallet(&wallet_id).is_some() {
            return Err(ServiceError::WalletAlreadyExists);
        }
        let mut wallet = Wallet::default();
        let mut i: usize = 0;
        proof {
            assert(ids_of(signers@).take(0).to_set() =~= Set::<Seq<u8>>::empty());
        }
        while i < signers.len()
            invariant
                i <= signers.len(),
                wallet.wf(),
                wallet.spec_threshold() == 0,
                wallet.signer_set() == ids_of(signers@).take(i as int).to_set(),
                wallet.queued_msgs() == Seq::<Seq<u8>>::empty(),
                wallet.queue() == Map::<Seq<u8>, Seq<Seq<u8>>>::empty(),
                wallet.meta_map() == Map::<Seq<u8>, Seq<char>>::empty(),
                wallet.in_flight_msgs() == Set::<Seq<u8>>::empty(),
            decreases signers.len() - i,
        {
            let ghost s = ids_of(signers@)[i as int];
            wallet.add_signer(signers[i].clone());
            proof {
                assert(ids_of(signers@).take(i + 1) =~= ids_of(signers@).take(i as int).push(s));
                ids_of(signers@).take(i as int).lemma_push_to_set_commute(s);
            }
            i = i + 1;
        }
        proof {
            assert(ids_of(signers@).take(signers@.len() as int) =~= ids_of(signers@));
        }
        if wallet.set_default_threshold(threshold).is_err() {
            return Err(ServiceError::SignersNotMatchThreshold);
        }
        let wsigners = wallet.get_signers();
        proof {
            crate::wallet::lemma_wf_signers_distinct(wallet);
        }
        let ghost pre_wallets = self.wallets@;
        let ghost gw = wallet;
        let stored = wallet.clone();
        let p = (wallet_id.clone(), stored);
        let ghost gp = p;
        self.wallets.push(p);
        proof {
            lemma_wallets_push(pre_wallets, gp);
        }
        let ghost wallets_after = self.wallets@;
        let ghost pre_index = old(self).signer_index@;
        let mut k: usize = 0;
        while k < wsigners.len()
            invariant
                k <= wsigners.len(),
                ids_of(wsigners@) == gw.signer_ids(),
                gw.signer_ids().no_duplicates(),
                self.wallets@ == wallets_after,
                ikeys(self.signer_index@).no_duplicates(),
                forall|s: Seq<u8>|
                    ids_of(wsigners@).take(k as int).contains(s) ==> ilists(
                        self.signer_index@,
                        s,
                    ) == ilists(pre_index, s).push(wallet_id@),
                forall|s: Seq<u8>|
                    !ids_of(wsigners@).take(k as int).contains(s) ==> ilists(
                        self.signer_index@,
                        s,
                    ) == ilists(pre_index, s),
            decreases wsigners.len() - k,
        {
            let ghost s = ids_of(wsigners@)[k as int];
            proof {
                assert(!ids_of(wsigners@).take(k as int).contains(s));
            }
            self.index_add(&wsigners[k], wallet_id.clone());
            proof {
                assert forall|t: Seq<u8>|
                    ids_of(wsigners@).take(k + 1).contains(t) implies ilists(
                    self.signer_index@,
                    t,
                ) == ilists(pre_index, t).push(wallet_id@) by {
                    let idx = ids_of(wsigners@).take(k + 1).index_of(t);
                    if idx < k {
                        assert(ids_of(wsigners@).take(k as int)[idx] == t);
                        assert(ids_of(wsigners@).take(k as int).contains(t));
                        assert(t != s);
                    } else {
                        assert(t == s);
                    }
                }
                assert forall|t: Seq<u8>|
                    !ids_of(wsigners@).take(k + 1).contains(t) implies ilists(
                    self.signer_index@,
                    t,
                ) == ilists(pre_index, t) by {
                    assert(t != s) by {
                        if t == s {
                            assert(ids_of(wsigners@).take(k + 1)[k as int] == s);
                        }
                    }
                    assert(!ids_of(wsigners@).take(k as int).contains(t)) by {
                        if ids_of(wsigners@).take(k as int).contains(t) {
                            let idx = ids_of(wsigners@).take(k as int).index_of(t);
                            assert(ids_of(wsigners@).take(k + 1)[idx] == t);
                        }
                    }
                }
            }
            k = k + 1;
        }
        proof {
            assert(ids_of(wsigners@).take(wsigners@.len() as int) =~= ids_of(wsigners@));
            assert forall|s: Seq<u8>| ids_of(signers@).to_set().contains(s) implies gw
                .signer_ids().contains(s) by {}
            assert forall|s: Seq<u8>| gw.signer_ids().contains(s) implies ids_of(
                signers@,
            ).to_set().contains(s) by {}
        }
        Ok(())
    }

    /// A read-only snapshot of the wallet registered under the
    /// identifier.
    pub fn get_wallet(&self, wallet_id: &String) -> (r: Option<Wallet>)
        requires
            self.wf(),
        ensures
            !self.has_wallet(wallet_id@) ==> r is None,
            self.has_wallet(wallet_id@) ==> (r matches Some(w) && (
            {
                let w0 = self.wallet_of(wallet_id@);
                &&& w.wf()
                &&& w.signer_ids() == w0.signer_ids()
                &&& w.spec_threshold() == w0.spec_threshold()
                &&& w.queued_msgs() == w0.queued_msgs()
                &&& w.queue() == w0.queue()
                &&& w.in_flight_msgs() == w0.in_flight_msgs()
                &&& w.meta_map() == w0.meta_map()
            })),
    {
        match self.find_wallet(wallet_id) {
            None => None,
            Some(i) => {
                proof {
                    lemma_windex_unique(self.wallets@, wallet_id@, i as int);
                    assert(self.wallets@[i as int].1.wf());
                }
                Some(self.wallets[i].1.clone())
            },
        }
    }

    /// Every wallet identifier the signer participates in; empty for an
    /// unknown signer.
    pub fn get_wallets_for_principal(&self, principal: &SignerId) -> (r: Vec<String>)
        requires
            self.wf(),
        ensures
            strs_of(r@) == self.index_lists(principal@),
    {
        match self.find_index_entry(principal) {
            None => {
                let r: Vec<String> = Vec::new();
                proof {
                    assert(strs_of(r@) =~= Seq::<Seq<char>>::empty());
                }
                r
            },
            Some(i) => {
                proof {
                    lemma_iindex_unique(self.signer_index@, principal@, i as int);
                }
                let list = &self.signer_index[i].1;
                let mut r: Vec<String> = Vec::new();
                let mut k: usize = 0;
                while k < list.len()
                    invariant
                        k <= list.len(),
                        strs_of(r@) == strs_of(list@).take(k as int),
                    decreases list.len() - k,
                {
                    let ghost prev = r@;
                    let s = list[k].clone();
                    r.push(s);
                    proof {
                        prev.lemma_push_map_commute(|s: String| s@, r@[r@.len() - 1]);
                        assert(strs_of(r@) =~= strs_of(list@).take(k + 1));
                    }
                    k = k + 1;
                }
                proof {
                    assert(strs_of(list@).take(list@.len() as int) =~= strs_of(list@));
                }
                r
            },
        }
    }

    /// Propose a message, given in hexadecimal, into a wallet's queue.
    pub fn propose(&mut self, wallet_id: &String, msg: &String, caller: SignerId) -> (r: Result<
        (),
        ServiceError,
    >)
        requires
            old(self).wf(),
        ensures
            final(self).wf(),
            !is_hex_str(msg@) ==> r == Err::<(), ServiceError>(ServiceError::InvalidMessage)
                && *final(self) == *old(self),
            is_hex_str(msg@) && !old(self).has_wallet(wallet_id@) ==> r == Err::<(), ServiceError>(
                ServiceError::WalletNotFound,
            ) && *final(self) == *old(self),
            is_hex_str(msg@) && old(self).has_wallet(wallet_id@) ==> (
            {
                let w0 = old(self).wallet_of(wallet_id@);
                let w1 = final(self).wallet_of(wallet_id@);
                let bytes = hex_val_of(msg@);
                &&& final(self).same_wallets_except(*old(self), wallet_id@)
                &&& final(self).same_index(*old(self))
                &&& final(self).has_wallet(wallet_id@)
                &&& (!w0.is_signer(caller@) ==> r == Err::<(), ServiceError>(
                    ServiceError::NotASigner,
                ) && w1 == w0)
                &&& (w0.is_signer(caller@) && w0.has_msg(bytes) ==> r == Err::<(), ServiceError>(
                    ServiceError::MsgAlreadyQueued,
                ) && w1 == w0)
                &&& (w0.is_signer(caller@) && !w0.has_msg(bytes) ==> r == Ok::<(), ServiceError>(())
                    && propose_post(w0, w1, caller@, bytes, Ok::<(), WalletError>(())))
            }),
    {
        let bytes = match hex_decode(msg.as_str()) {
            None => {
                return Err(ServiceError::InvalidMessage);
            },
            Some(b) => b,
        };
        let i = match self.find_wallet(wallet_id) {
            None => {
                return Err(ServiceError::WalletNotFound);
            },
            Some(i) => i,
        };
        proof {
            lemma_windex_unique(self.wallets@, wallet_id@, i as int);
        }
        let ghost pre = self.wallets@;
        let mut entry = self.wallets.remove(i);
        let res = entry.1.propose_message(caller, bytes);
        let ghost ge = entry;
        self.wallets.insert(i, entry);
        proof {
            assert(self.wallets@ =~= pre.update(i as int, ge));
            lemma_wallets_update(pre, i as int, ge);
            assert forall|j: int| 0 <= j < self.wallets@.len() implies (#[trigger] self.wallets@[
                j
            ]).1.wf() by {
                if j != i as int {
                    assert(self.wallets@[j] == pre[j]);
                }
            }
            assert(self.wallets_map().dom() =~= old(self).wallets_map().dom());
        }
        match res {
            Ok(u) => Ok(u),
            Err(WalletError::MsgAlreadyQueued) => Err(ServiceError::MsgAlreadyQueued),
            Err(WalletError::InvalidSignature) => Err(ServiceError::NotASigner),
            Err(_) => {
                proof {
                    assert(false);
                }
                Err(ServiceError::NotASigner)
            },
        }
    }

    /// Record a signer's approval of a queued message, given in
    /// hexadecimal, and return the new approval count.
    pub fn approve(&mut self, wallet_id: &String, msg: &String, caller: SignerId) -> (r: Result<
        u8,
        ServiceError,
    >)
        requires
            old(self).wf(),
        ensures
            final(self).wf(),
            !is_hex_str(msg@) ==> r == Err::<u8, ServiceError>(ServiceError::InvalidMessage)
                && *final(self) == *old(self),
            is_hex_str(msg@) && !old(self).has_wallet(wallet_id@) ==> r == Err::<u8, ServiceError>(
                ServiceError::WalletNotFound,
            ) && *final(self) == *old(self),
            is_hex_str(msg@) && old(self).has_wallet(wallet_id@) ==> (
            {
                let w0 = old(self).wallet_of(wallet_id@);
                let w1 = final(self).wallet_of(wallet_id@);
                let bytes = hex_val_of(msg@);
                &&& final(self).same_wallets_except(*old(self), wallet_id@)
                &&& final(self).same_index(*old(self))
                &&& final(self).has_wallet(wallet_id@)
                &&& (!w0.has_msg(bytes) ==> r == Err::<u8, ServiceError>(ServiceError::MsgNotQueued)
                    && w1 == w0)
                &&& (w0.has_msg(bytes) && !w0.is_signer(caller@) ==> r == Err::<u8, ServiceError>(
                    ServiceError::NotASigner,
                ) && w1 == w0)
                &&& (w0.has_msg(bytes) && w0.is_signer(caller@) ==> r == Ok::<u8, ServiceError>(
                    ((w0.approvals_of(bytes).len() + 1) % 256) as u8,
                ) && approve_post(
                    w0,
                    w1,
                    bytes,
                    caller@,
                    Ok::<u8, WalletError>(((w0.approvals_of(bytes).len() + 1) % 256) as u8),
                ))
            }),
    {
        let bytes = match hex_decode(msg.as_str()) {
            None => {
                return Err(ServiceError::InvalidMessage);
            },
            Some(b) => b,
        };
        let i = match self.find_wallet(wallet_id) {
            None => {
                return Err(ServiceError::WalletNotFound);
            },
            Some(i) => i,
        };
        proof {
            lemma_windex_unique(self.wallets@, wallet_id@, i as int);
        }
        let ghost pre = self.wallets@;
        let mut entry = self.wallets.remove(i);
        let res = entry.1.approve(bytes, caller);
        let ghost ge = entry;
        self.wallets.insert(i, entry);
        proof {
            assert(self.wallets@ =~= pre.update(i as int, ge));
            lemma_wallets_update(pre, i as int, ge);
            assert forall|j: int| 0 <= j < self.wallets@.len() implies (#[trigger] self.wallets@[
                j
            ]).1.wf() by {
                if j != i as int {
                    assert(self.wallets@[j] == pre[j]);
                }
            }
            assert(self.wallets_map().dom() =~= old(self).wallets_map().dom());
        }
        match res {
            Ok(n) => Ok(n),
            Err(WalletError::MsgNotQueued) => Err(ServiceError::MsgNotQueued),
            Err(WalletError::InvalidSignature) => Err(ServiceError::NotASigner),
            Err(_) => {
                proof {
                    assert(false);
                }
                Err(ServiceError::NotASigner)
            },
        }
    }

    /// Whether a message, given in hexadecimal, can be signed.  A
    /// malformed message or an unknown wallet can never be signed.
    pub fn can_sign(&self, wallet_id: &String, msg: &String) -> (r: bool)
        requires
            self.wf(),
        ensures
            !is_hex_str(msg@) ==> r == false,
            is_hex_str(msg@) && !self.has_wallet(wallet_id@) ==> r == false,
            is_hex_str(msg@) && self.has_wallet(wallet_id@) ==> r == self.wallet_of(
                wallet_id@,
            ).spec_can_sign(hex_val_of(msg@)),
    {
        let bytes = match hex_decode(msg.as_str()) {
            None => {
                return false;
            },
            Some(b) => b,
        };
        let i = match self.find_wallet(wallet_id) {
            None => {
                return false;
            },
            Some(i) => i,
        };
        proof {
            lemma_windex_unique(self.wallets@, wallet_id@, i as int);
            assert(self.wallets@[i as int].1.wf());
        }
        self.wallets[i].1.can_sign(&bytes)
    }

    /// All of a wallet's messages eligible for signing, hexadecimal
    /// encoded, in proposal order.
    pub fn get_messages_to_sign(&self, wallet_id: &String) -> (r: Result<Vec<String>, ServiceError>)
        requires
            self.wf(),
        ensures
            !self.has_wallet(wallet_id@) ==> r == Err::<Vec<String>, ServiceError>(
                ServiceError::WalletNotFound,
            ),
            self.has_wallet(wallet_id@) ==> (r matches Ok(v) && strs_of(v@) == hex_all(
                self.wallet_of(wallet_id@).eligible_msgs(),
            )),
    {
        let i = match self.find_wallet(wallet_id) {
            None => {
                return Err(ServiceError::WalletNotFound);
            },
            Some(i) => i,
        };
        proof {
            lemma_windex_unique(self.wallets@, wallet_id@, i as int);
            assert(self.wallets@[i as int].1.wf());
        }
        let msgs = self.wallets[i].1.get_messages_to_sign();
        let out = hex_encode_all(&msgs);
        proof {
            assert(strs_of(out@) =~= hex_all(self.wallet_of(wallet_id@).eligible_msgs()));
        }
        Ok(out)
    }

    /// All of a wallet's queued messages, hexadecimal encoded, in
    /// proposal order.
    pub fn get_proposed_messages(&self, wallet_id: &String) -> (r: Result<Vec<String>, ServiceError>)
        requires
            self.wf(),
        ensures
            !self.has_wallet(wallet_id@) ==> r == Err::<Vec<String>, ServiceError>(
                ServiceError::WalletNotFound,
            ),
            self.has_wallet(wallet_id@) ==> (r matches Ok(v) && strs_of(v@) == hex_all(
                self.wallet_of(wallet_id@).queued_msgs(),
            )),
    {
        let i = match self.find_wallet(wallet_id) {
            None => {
                return Err(ServiceError::WalletNotFound);
            },
            Some(i) => i,
        };
        proof {
            lemma_windex_unique(self.wallets@, wallet_id@, i as int);
        }
        let msgs = self.wallets[i].1.get_proposed_messages();
        let out = hex_encode_all(&msgs);
        proof {
            assert(strs_of(out@) =~= hex_all(self.wallet_of(wallet_id@).queued_msgs()));
        }
        Ok(out)
    }

    /// All of a wallet's queued messages, hexadecimal encoded, each with
    /// the identities that approved it.
    pub fn get_messages_with_signers(&self, wallet_id: &String) -> (r: Result<
        Vec<(String, Vec<SignerId>)>,
        ServiceError,
    >)
        requires
            self.wf(),
        ensures
            !self.has_wallet(wallet_id@) ==> r == Err::<Vec<(String, Vec<SignerId>)>, ServiceError>(
                ServiceError::WalletNotFound,
            ),
            self.has_wallet(wallet_id@) ==> (r matches Ok(v) && (
            {
                let w = self.wallet_of(wallet_id@);
                &&& v@.len() == w.queued_msgs().len()
                &&& forall|k: int|
                    0 <= k < v@.len() ==> (#[trigger] v@[k]).0@ == hex_chars_of(w.queued_msgs()[k])
                        && ids_of(v@[k].1@) == w.approvals_of(w.queued_msgs()[k])
            })),
    {
        let i = match self.find_wallet(wallet_id) {
            None => {
                return Err(ServiceError::WalletNotFound);
            },
            Some(i) => i,
        };
        proof {
            lemma_windex_unique(self.wallets@, wallet_id@, i as int);
            assert(self.wallets@[i as int].1.wf());
        }
        let pairs = self.wallets[i].1.get_messages_with_signers();
        let mut r: Vec<(String, Vec<SignerId>)> = Vec::new();
        let mut k: usize = 0;
        while k < pairs.len()
            invariant
                k <= pairs.len(),
                r@.len() == k,
                forall|j: int|
                    0 <= j < k ==> (#[trigger] r@[j]).0@ == hex_chars_of(pairs@[j].0@) && ids_of(
                        r@[j].1@,
                    ) == ids_of(pairs@[j].1@),
            decreases pairs.len() - k,
        {
            let p = &pairs[k];
            let item = (hex_encode(p.0.as_slice()), clone_ids(&p.1));
            r.push(item);
            k = k + 1;
        }
        Ok(r)
    }

    /// Attach write-once metadata to a queued message.
    pub fn add_metadata(
        &mut self,
        wallet_id: &String,
        msg: &String,
        metadata: String,
        caller: SignerId,
    ) -> (r: Result<(), ServiceError>)
        requires
            old(self).wf(),
        ensures
            final(self).wf(),
            !is_hex_str(msg@) ==> r == Err::<(), ServiceError>(ServiceError::InvalidMessage)
                && *final(self) == *old(self),
            is_hex_str(msg@) && !old(self).has_wallet(wallet_id@) ==> r == Err::<(), ServiceError>(
                ServiceError::WalletNotFound,
            ) && *final(self) == *old(self),
            is_hex_str(msg@) && old(self).has_wallet(wallet_id@) ==> (
            {
                let w0 = old(self).wallet_of(wallet_id@);
                let w1 = final(self).wallet_of(wallet_id@);
                let bytes = hex_val_of(msg@);
                &&& final(self).same_wallets_except(*old(self), wallet_id@)
                &&& final(self).same_index(*old(self))
                &&& final(self).has_wallet(wallet_id@)
                &&& (!w0.is_signer(caller@) ==> r == Err::<(), ServiceError>(
                    ServiceError::NotASigner,
                ) && w1 == w0)
                &&& (w0.is_signer(caller@) && !w0.has_msg(bytes) ==> r == Err::<(), ServiceError>(
                    ServiceError::MsgNotQueued,
                ) && w1 == w0)
                &&& (w0.is_signer(caller@) && w0.has_msg(bytes) && w0.meta_map().dom().contains(
                    bytes,
                ) ==> r == Err::<(), ServiceError>(ServiceError::MetadataAlreadyExists) && w1 == w0)
                &&& (w0.is_signer(caller@) && w0.has_msg(bytes) && !w0.meta_map().dom().contains(
                    bytes,
                ) ==> r == Ok::<(), ServiceError>(()) && w1.meta_map() == w0.meta_map().insert(
                    bytes,
                    metadata@,
                ) && w1.same_queue(w0) && w1.same_members(w0))
            }),
    {
        let bytes = match hex_decode(msg.as_str()) {
            None => {
                return Err(ServiceError::InvalidMessage);
            },
            Some(b) => b,
        };
        let i = match self.find_wallet(wallet_id) {
            None => {
                return Err(ServiceError::WalletNotFound);
            },
            Some(i) => i,
        };
        proof {
            lemma_windex_unique(self.wallets@, wallet_id@, i as int);
            assert(self.wallets@[i as int].1.wf());
        }
        if !self.wallets[i].1.has_signer(caller.clone()) {
            return Err(ServiceError::NotASigner);
        }
        if !self.wallets[i].1.is_queued(&bytes) {
            return Err(ServiceError::MsgNotQueued);
        }
        if self.wallets[i].1.has_meta(&bytes) {
            return Err(ServiceError::MetadataAlreadyExists);
        }
        let ghost pre = self.wallets@;
        let mut entry = self.wallets.remove(i);
        let res = entry.1.add_metadata(bytes, metadata, caller);
        let ghost ge = entry;
        self.wallets.insert(i, entry);
        proof {
            assert(self.wallets@ =~= pre.update(i as int, ge));
            lemma_wallets_update(pre, i as int, ge);
            assert forall|j: int| 0 <= j < self.wallets@.len() implies (#[trigger] self.wallets@[
                j
            ]).1.wf() by {
                if j != i as int {
                    assert(self.wallets@[j] == pre[j]);
                }
            }
            assert(self.wallets_map().dom() =~= old(self).wallets_map().dom());
        }
        match res {
            Ok(u) => Ok(u),
            Err(_) => {
                proof {
                    assert(false);
                }
                Err(ServiceError::NotASigner)
            },
        }
    }

    /// The metadata attached to a message, for a signer of the wallet.
    /// A caller that is not a signer, and a message without metadata,
    /// both read as "not found".
    pub fn get_metadata(&self, wallet_id: &String, msg: &String, caller: SignerId) -> (r: Result<
        String,
        ServiceError,
    >)
        requires
            self.wf(),
        ensures
            !is_hex_str(msg@) ==> r == Err::<String, ServiceError>(ServiceError::InvalidMessage),
            is_hex_str(msg@) && !self.has_wallet(wallet_id@) ==> r == Err::<String, ServiceError>(
                ServiceError::WalletNotFound,
            ),
            is_hex_str(msg@) && self.has_wallet(wallet_id@) ==> (
            {
                let w = self.wallet_of(wallet_id@);
                let bytes = hex_val_of(msg@);
                &&& (w.is_signer(caller@) && w.meta_map().dom().contains(bytes) ==> (r matches Ok(s)
                    && s@ == w.meta_map()[bytes]))
                &&& (!(w.is_signer(caller@) && w.meta_map().dom().contains(bytes)) ==> r == Err::<
                    String,
                    ServiceError,
                >(ServiceError::MetadataNotFound))
            }),
    {
        let bytes = match hex_decode(msg.as_str()) {
            None => {
                return Err(ServiceError::InvalidMessage);
            },
            Some(b) => b,
        };
        let i = match self.find_wallet(wallet_id) {
            None => {
                return Err(ServiceError::WalletNotFound);
            },
            Some(i) => i,
        };
        proof {
            lemma_windex_unique(self.wallets@, wallet_id@, i as int);
            assert(self.wallets@[i as int].1.wf());
        }
        match self.wallets[i].1.get_metadata(bytes, caller) {
            Some(s) => Ok(s.clone()),
            None => Err(ServiceError::MetadataNotFound),
        }
    }

    /// Propose a message and attach metadata to it in one step.
    pub fn propose_with_metadata(
        &mut self,
        wallet_id: &String,
        msg: &String,
        metadata: String,
        caller: SignerId,
    ) -> (r: Result<(), ServiceError>)
        requires
            old(self).wf(),
        ensures
            final(self).wf(),
            !is_hex_str(msg@) ==> r == Err::<(), ServiceError>(ServiceError::InvalidMessage)
                && *final(self) == *old(self),
            is_hex_str(msg@) && !old(self).has_wallet(wallet_id@) ==> r == Err::<(), ServiceError>(
                ServiceError::WalletNotFound,
            ) && *final(self) == *old(self),
            is_hex_str(msg@) && old(self).has_wallet(wallet_id@) ==> (
            {
                let w0 = old(self).wallet_of(wallet_id@);
                let w1 = final(self).wallet_of(wallet_id@);
                let bytes = hex_val_of(msg@);
                &&& final(self).same_wallets_except(*old(self), wallet_id@)
                &&& final(self).same_index(*old(self))
                &&& final(self).has_wallet(wallet_id@)
                &&& (!w0.is_signer(caller@) ==> r == Err::<(), ServiceError>(
                    ServiceError::NotASigner,
                ) && w1 == w0)
                &&& (w0.is_signer(caller@) && w0.has_msg(bytes) ==> r == Err::<(), ServiceError>(
                    ServiceError::MsgAlreadyQueued,
                ) && w1 == w0)
                &&& (w0.is_signer(caller@) && !w0.has_msg(bytes) ==> r == Ok::<(), ServiceError>(())
                    && w1.queue() == w0.queue().insert(bytes, Seq::<Seq<u8>>::empty())
                    && w1.queued_msgs() == w0.queued_msgs().push(bytes) && w1.meta_map()
                    == w0.meta_map().insert(bytes, metadata@) && w1.in_flight_msgs()
                    == w0.in_flight_msgs() && w1.same_members(w0))
            }),
    {
        match self.propose(wallet_id, msg, caller.clone()) {
            Err(e) => {
                return Err(e);
            },
            Ok(u) => u,
        };
        let ghost mid = *self;
        proof {
            let w0 = old(self).wallet_of(wallet_id@);
            let wmid = mid.wallet_of(wallet_id@);
            let bytes = hex_val_of(msg@);
            if w0.meta_map().dom().contains(bytes) {
                old(self).lemma_wallet_wf(wallet_id@);
                lemma_wf_meta_queued(w0, bytes);
            }
            assert(!wmid.meta_map().dom().contains(bytes));
            assert(wmid.has_msg(bytes));
            assert(wmid.is_signer(caller@));
        }
        let res = self.add_metadata(wallet_id, msg, metadata, caller);
        proof {
            let w0 = old(self).wallet_of(wallet_id@);
            let wmid = mid.wallet_of(wallet_id@);
            let w1 = self.wallet_of(wallet_id@);
            let bytes = hex_val_of(msg@);
            assert(res == Ok::<(), ServiceError>(()));
            assert(w1.queue() == wmid.queue());
            assert(w1.queued_msgs() == wmid.queued_msgs());
            assert(w1.in_flight_msgs() == wmid.in_flight_msgs());
            assert(w1.meta_map() == wmid.meta_map().insert(bytes, metadata@));
            assert(self.same_wallets_except(*old(self), wallet_id@)) by {
                assert forall|x: Seq<char>|
                    x != wallet_id@ && old(self).has_wallet(x) implies self.wallets_map()[x]
                    == old(self).wallets_map()[x] by {
                    assert(mid.has_wallet(x));
                    assert(mid.wallets_map()[x] == old(self).wallets_map()[x]);
                    assert(self.wallets_map()[x] == mid.wallets_map()[x]);
                }
            }
            assert(self.same_index(*old(self))) by {
                assert forall|s: Seq<u8>| self.index_lists(s) == old(self).index_lists(s) by {
                    assert(self.index_lists(s) == mid.index_lists(s));
                    assert(mid.index_lists(s) == old(self).index_lists(s));
                }
            }
        }
        match res {
            Ok(u) => Ok(u),
            Err(_) => {
                proof {
                    assert(false);
                }
                Err(ServiceError::NotASigner)
            },
        }
    }
}

/// The first step of a signing cycle: either the message was a
/// governance command and the cycle is complete, or it is a payload now
/// in flight, to be handed to the signing capability.
#[derive(Debug)]
pub enum SignStart {
    /// The message was a governance command; it has been applied and
    /// consumed, and the empty signature is the cycle's result.
    CommandApplied(String),
    /// The message is a payload: its bytes must be signed externally
    /// and the cycle finished with the outcome.
    Dispatch(Vec<u8>),
}

impl Registry {
    /// Apply an add-signer command and consume the message.
    fn apply_add_command(
        &mut self,
        i: usize,
        wallet_id: &String,
        msg_bytes: Vec<u8>,
        arg: &str,
        caller: SignerId,
    ) -> (r: Result<SignStart, ServiceError>)
        requires
            old(self).wf(),
            i < old(self).wallets@.len(),
            old(self).wallets@[i as int].0@ == wallet_id@,
        ensures
            final(self).wf(),
            (
            {
                let w0 = old(self).wallet_of(wallet_id@);
                let w1 = final(self).wallet_of(wallet_id@);
                &&& final(self).same_wallets_except(*old(self), wallet_id@)
                &&& final(self).has_wallet(wallet_id@)
                &&& w1.spec_threshold() == w0.spec_threshold()
                &&& match principal_of_text(arg@) {
                    Some(p) => {
                        &&& (r matches Ok(o) && o matches SignStart::CommandApplied(s) && s@
                            == Seq::<char>::empty())
                        &&& w1.signer_set() == w0.signer_set().insert(p)
                        &&& w1.signer_ids() == (if w0.is_signer(p) {
                            w0.signer_ids()
                        } else {
                            w0.signer_ids().push(p)
                        })
                        &&& consumed_if_signer(w0, w1, msg_bytes@, caller@)
                        &&& final(self).index_lists(p) == old(self).index_lists(p).push(wallet_id@)
                        &&& (forall|s: Seq<u8>|
                            s != p ==> final(self).index_lists(s) == old(self).index_lists(s))
                    },
                    None => {
                        &&& r == Err::<SignStart, ServiceError>(ServiceError::MalformedCommand)
                        &&& w1.signer_ids() == w0.signer_ids()
                        &&& consumed_if_signer(w0, w1, msg_bytes@, caller@)
                        &&& final(self).same_index(*old(self))
                    },
                }
            }),
    {
        proof {
            lemma_windex_unique(self.wallets@, wallet_id@, i as int);
        }
        let parsed = SignerId::from_text(arg);
        let ghost pre = self.wallets@;
        let mut entry = self.wallets.remove(i);
        match parsed {
            Some(new_signer) => {
                let p_for_index = new_signer.clone();
                entry.1.add_signer(new_signer);
                let _ = entry.1.remove_message_and_metadata(msg_bytes, caller);
                let ghost ge = entry;
                self.wallets.insert(i, entry);
                proof {
                    assert(self.wallets@ =~= pre.update(i as int, ge));
                    lemma_wallets_update(pre, i as int, ge);
                    assert forall|j: int| 0 <= j < self.wallets@.len() implies (
                    #[trigger] self.wallets@[j]).1.wf() by {
                        if j != i as int {
                            assert(self.wallets@[j] == pre[j]);
                        }
                    }
                    assert(self.wallets_map().dom() =~= old(self).wallets_map().dom());
                }
                self.index_add(&p_for_index, wallet_id.clone());
                Ok(SignStart::CommandApplied(String::new()))
            },
            None => {
                let _ = entry.1.remove_message_and_metadata(msg_bytes, caller);
                let ghost ge = entry;
                self.wallets.insert(i, entry);
                proof {
                    assert(self.wallets@ =~= pre.update(i as int, ge));
                    lemma_wallets_update(pre, i as int, ge);
                    assert forall|j: int| 0 <= j < self.wallets@.len() implies (
                    #[trigger] self.wallets@[j]).1.wf() by {
                        if j != i as int {
                            assert(self.wallets@[j] == pre[j]);
                        }
                    }
                    assert(self.wallets_map().dom() =~= old(self).wallets_map().dom());
                }
                Err(ServiceError::MalformedCommand)
            },
        }
    }

    /// Apply a remove-signer command and consume the message.
    fn apply_remove_command(
        &mut self,
        i: usize,
        wallet_id: &String,
        msg_bytes: Vec<u8>,
        arg: &str,
        caller: SignerId,
    ) -> (r: Result<SignStart, ServiceError>)
        requires
            old(self).wf(),
            i < old(self).wallets@.len(),
            old(self).wallets@[i as int].0@ == wallet_id@,
        ensures
            final(self).wf(),
            (
            {
                let w0 = old(self).wallet_of(wallet_id@);
                let w1 = final(self).wallet_of(wallet_id@);
                &&& final(self).same_wallets_except(*old(self), wallet_id@)
                &&& final(self).has_wallet(wallet_id@)
                &&& w1.spec_threshold() == w0.spec_threshold()
                &&& match principal_of_text(arg@) {
                    Some(p) => {
                        &&& (r matches Ok(o) && o matches SignStart::CommandApplied(s) && s@
                            == Seq::<char>::empty())
                        &&& w1.signer_set() == w0.signer_set().remove(p)
                        &&& w1.signer_ids() == w0.signer_ids().remove_value(p)
                        &&& consumed_if_signer(w0, w1, msg_bytes@, caller@)
                        &&& final(self).index_lists(p) == old(self).index_lists(p).filter(
                            |x: Seq<char>| x != wallet_id@,
                        )
                        &&& (forall|s: Seq<u8>|
                            s != p ==> final(self).index_lists(s) == old(self).index_lists(s))
                    },
                    None => {
                        &&& r == Err::<SignStart, ServiceError>(ServiceError::MalformedCommand)
                        &&& w1.signer_ids() == w0.signer_ids()
                        &&& consumed_if_signer(w0, w1, msg_bytes@, caller@)
                        &&& final(self).same_index(*old(self))
                    },
                }
            }),
    {
        proof {
            lemma_windex_unique(self.wallets@, wallet_id@, i as int);
        }
        let parsed = SignerId::from_text(arg);
        let ghost pre = self.wallets@;
        let mut entry = self.wallets.remove(i);
        match parsed {
            Some(gone_signer) => {
                let p_for_index = gone_signer.clone();
                entry.1.remove_signer(gone_signer);
                let _ = entry.1.remove_message_and_metadata(msg_bytes, caller);
                let ghost ge = entry;
                self.wallets.insert(i, entry);
                proof {
                    assert(self.wallets@ =~= pre.update(i as int, ge));
                    lemma_wallets_update(pre, i as int, ge);
                    assert forall|j: int| 0 <= j < self.wallets@.len() implies (
                    #[trigger] self.wallets@[j]).1.wf() by {
                        if j != i as int {
                            assert(self.wallets@[j] == pre[j]);
                        }
                    }
                    assert(self.wallets_map().dom() =~= old(self).wallets_map().dom());
                }
                self.index_remove(&p_for_index, wallet_id);
                Ok(SignStart::CommandApplied(String::new()))
            },
            None => {
                let _ = entry.1.remove_message_and_metadata(msg_bytes, caller);
                let ghost ge = entry;
                self.wallets.insert(i, entry);
                proof {
                    assert(self.wallets@ =~= pre.update(i as int, ge));
                    lemma_wallets_update(pre, i as int, ge);
                    assert forall|j: int| 0 <= j < self.wallets@.len() implies (
                    #[trigger] self.wallets@[j]).1.wf() by {
                        if j != i as int {
                            assert(self.wallets@[j] == pre[j]);
                        }
                    }
                    assert(self.wallets_map().dom() =~= old(self).wallets_map().dom());
                }
                Err(ServiceError::MalformedCommand)
            },
        }
    }

    /// Apply a set-threshold command and consume the message.  A value
    /// beyond the signer count is reported, not applied; the message is
    /// consumed either way.
    fn apply_threshold_command(
        &mut self,
        i: usize,
        wallet_id: &String,
        msg_bytes: Vec<u8>,
        arg: &str,
        caller: SignerId,
    ) -> (r: Result<SignStart, ServiceError>)
        requires
            old(self).wf(),
            i < old(self).wallets@.len(),
            old(self).wallets@[i as int].0@ == wallet_id@,
        ensures
            final(self).wf(),
            (
            {
                let w0 = old(self).wallet_of(wallet_id@);
                let w1 = final(self).wallet_of(wallet_id@);
                &&& final(self).same_wallets_except(*old(self), wallet_id@)
                &&& final(self).has_wallet(wallet_id@)
                &&& final(self).same_index(*old(self))
                &&& w1.signer_ids() == w0.signer_ids()
                &&& consumed_if_signer(w0, w1, msg_bytes@, caller@)
                &&& match parse_u8_spec(arg@) {
                    Some(t) => {
                        &&& (t as nat <= w0.signer_set().len() ==> (r matches Ok(o) && o matches
                            SignStart::CommandApplied(s) && s@ == Seq::<char>::empty())
                            && w1.spec_threshold() == t)
                        &&& (t as nat > w0.signer_set().len() ==> r == Err::<
                            SignStart,
                            ServiceError,
                        >(ServiceError::SignersNotMatchThreshold) && w1.spec_threshold()
                            == w0.spec_threshold())
                    },
                    None => {
                        &&& r == Err::<SignStart, ServiceError>(ServiceError::MalformedCommand)
                        &&& w1.spec_threshold() == w0.spec_threshold()
                    },
                }
            }),
    {
        proof {
            lemma_windex_unique(self.wallets@, wallet_id@, i as int);
        }
        let parsed = parse_u8_dec(arg);
        let ghost pre = self.wallets@;
        let mut entry = self.wallets.remove(i);
        let applied: Result<SignStart, ServiceError> = match parsed {
            Some(t) => {
                match entry.1.set_default_threshold(t) {
                    Ok(_) => Ok(SignStart::CommandApplied(String::new())),
                    Err(_) => Err(ServiceError::SignersNotMatchThreshold),
                }
            },
            None => Err(ServiceError::MalformedCommand),
        };
        let _ = entry.1.remove_message_and_metadata(msg_bytes, caller);
        let ghost ge = entry;
        self.wallets.insert(i, entry);
        proof {
            assert(self.wallets@ =~= pre.update(i as int, ge));
            lemma_wallets_update(pre, i as int, ge);
            assert forall|j: int| 0 <= j < self.wallets@.len() implies (#[trigger] self.wallets@[
                j
            ]).1.wf() by {
                if j != i as int {
                    assert(self.wallets@[j] == pre[j]);
                }
            }
            assert(self.wallets_map().dom() =~= old(self).wallets_map().dom());
        }
        applied
    }

    /// Begin a signing cycle for an eligible message, given in
    /// hexadecimal.  A governance command is applied and consumed on the
    /// spot; a payload message is marked in flight and returned for the
    /// signing capability, and a second dispatch of the same message is
    /// rejected while the first is in flight.
    pub fn start_sign(&mut self, wallet_id: &String, msg: &String, caller: SignerId) -> (r: Result<
        SignStart,
        ServiceError,
    >)
        requires
            old(self).wf(),
        ensures
            final(self).wf(),
            !is_hex_str(msg@) ==> r == Err::<SignStart, ServiceError>(ServiceError::InvalidMessage)
                && *final(self) == *old(self),
            is_hex_str(msg@) && !old(self).has_wallet(wallet_id@) ==> r == Err::<
                SignStart,
                ServiceError,
            >(ServiceError::WalletNotFound) && *final(self) == *old(self),
            is_hex_str(msg@) && old(self).has_wallet(wallet_id@) ==> (
            {
                let w0 = old(self).wallet_of(wallet_id@);
                let bytes = hex_val_of(msg@);
                &&& (!w0.spec_can_sign(bytes) ==> r == Err::<SignStart, ServiceError>(
                    ServiceError::CannotSign,
                ) && *final(self) == *old(self))
                &&& (w0.spec_can_sign(bytes) && w0.in_flight_msgs().contains(bytes) ==> r == Err::<
                    SignStart,
                    ServiceError,
                >(ServiceError::SigningInProgress) && *final(self) == *old(self))
                &&& (w0.spec_can_sign(bytes) && !w0.in_flight_msgs().contains(bytes) ==> (
                {
                    let w1 = final(self).wallet_of(wallet_id@);
                    &&& final(self).same_wallets_except(*old(self), wallet_id@)
                    &&& final(self).has_wallet(wallet_id@)
                    &&& (!is_command(bytes) ==> (r matches Ok(st) && st matches
                        SignStart::Dispatch(b) && b@ == bytes) && final(self).same_index(
                        *old(self),
                    ) && w1.same_members(w0) && w1.same_metadata(w0) && w1.queue() == w0.queue()
                        && w1.queued_msgs() == w0.queued_msgs() && w1.in_flight_msgs()
                        == w0.in_flight_msgs().insert(bytes))
                    &&& (is_add_command(bytes) ==> w1.spec_threshold() == w0.spec_threshold()
                        && match principal_of_text(add_command_arg(bytes)) {
                        Some(p) => {
                            &&& (r matches Ok(o) && o matches SignStart::CommandApplied(s) && s@
                                == Seq::<char>::empty())
                            &&& w1.signer_set() == w0.signer_set().insert(p)
                            &&& consumed_if_signer(w0, w1, bytes, caller@)
                            &&& final(self).index_lists(p) == old(self).index_lists(p).push(
                                wallet_id@,
                            )
                            &&& (forall|s: Seq<u8>|
                                s != p ==> final(self).index_lists(s) == old(self).index_lists(s))
                        },
                        None => {
                            &&& r == Err::<SignStart, ServiceError>(ServiceError::MalformedCommand)
                            &&& w1.signer_ids() == w0.signer_ids()
                            &&& consumed_if_signer(w0, w1, bytes, caller@)
                            &&& final(self).same_index(*old(self))
                        },
                    })
                    &&& (is_remove_command(bytes) ==> w1.spec_threshold() == w0.spec_threshold()
                        && match principal_of_text(remove_command_arg(bytes)) {
                        Some(p) => {
                            &&& (r matches Ok(o) && o matches SignStart::CommandApplied(s) && s@
                                == Seq::<char>::empty())
                            &&& w1.signer_set() == w0.signer_set().remove(p)
                            &&& consumed_if_signer(w0, w1, bytes, caller@)
                            &&& final(self).index_lists(p) == old(self).index_lists(p).filter(
                                |x: Seq<char>| x != wallet_id@,
                            )
                            &&& (forall|s: Seq<u8>|
                                s != p ==> final(self).index_lists(s) == old(self).index_lists(s))
                        },
                        None => {
                            &&& r == Err::<SignStart, ServiceError>(ServiceError::MalformedCommand)
                            &&& w1.signer_ids() == w0.signer_ids()
                            &&& consumed_if_signer(w0, w1, bytes, caller@)
                            &&& final(self).same_index(*old(self))
                        },
                    })
                    &&& (is_threshold_command(bytes) ==> w1.signer_ids() == w0.signer_ids()
                        && final(self).same_index(*old(self)) && consumed_if_signer(
                        w0,
                        w1,
                        bytes,
                        caller@,
                    ) && match parse_u8_spec(threshold_command_arg(bytes)) {
                        Some(t) => {
                            &&& (t as nat <= w0.signer_set().len() ==> (r matches Ok(o)
                                && o matches SignStart::CommandApplied(s) && s@
                                == Seq::<char>::empty()) && w1.spec_threshold() == t)
                            &&& (t as nat > w0.signer_set().len() ==> r == Err::<
                                SignStart,
                                ServiceError,
                            >(ServiceError::SignersNotMatchThreshold) && w1.spec_threshold()
                                == w0.spec_threshold())
                        },
                        None => r == Err::<SignStart, ServiceError>(ServiceError::MalformedCommand)
                            && w1.spec_threshold() == w0.spec_threshold(),
                    })
                }))
            }),
    {
        let bytes = match hex_decode(msg.as_str()) {
            None => {
                return Err(ServiceError::InvalidMessage);
            },
            Some(b) => b,
        };
        let i = match self.find_wallet(wallet_id) {
            None => {
                return Err(ServiceError::WalletNotFound);
            },
            Some(i) => i,
        };
        proof {
            lemma_windex_unique(self.wallets@, wallet_id@, i as int);
            assert(self.wallets@[i as int].1.wf());
        }
        if !self.wallets[i].1.can_sign(&bytes) {
            return Err(ServiceError::CannotSign);
        }
        if self.wallets[i].1.is_in_flight(&bytes) {
            return Err(ServiceError::SigningInProgress);
        }
        proof {
            reveal_strlit("ADD_SIGNER::");
            reveal_strlit("REMOVE_SIGNER::");
            reveal_strlit("SET_THRESHOLD::");
        }
        match bytes_to_text(clone_bytes(&bytes)) {
            Some(text) => {
                let text_str = text.as_str();
                let n = text_str.unicode_len();
                if str_starts_with(text_str, "ADD_SIGNER::") {
                    proof {
                        let tv = decode_utf8(bytes@);
                        assert("ADD_SIGNER::"@.is_prefix_of(tv));
                        assert("ADD_SIGNER::"@.len() == 12 && "ADD_SIGNER::"@[0] == 'A');
                        assert(tv[0] == 'A') by {
                            assert("ADD_SIGNER::"@ =~= tv.subrange(0, 12));
                            assert("ADD_SIGNER::"@[0] == tv.subrange(0, 12)[0]);
                        }
                        assert(!is_remove_command(bytes@)) by {
                            if "REMOVE_SIGNER::"@.is_prefix_of(tv) {
                                assert("REMOVE_SIGNER::"@[0] == tv.subrange(0, 15)[0]);
                                assert(tv[0] == 'R');
                            }
                        }
                        assert(!is_threshold_command(bytes@)) by {
                            if "SET_THRESHOLD::"@.is_prefix_of(tv) {
                                assert("SET_THRESHOLD::"@[0] == tv.subrange(0, 15)[0]);
                                assert(tv[0] == 'S');
                            }
                        }
                    }
                    let arg = text_str.substring_char(12, n);
                    proof {
                        assert(arg@ =~= add_command_arg(bytes@));
                    }
                    return self.apply_add_command(i, wallet_id, bytes, arg, caller);
                }
                if str_starts_with(text_str, "REMOVE_SIGNER::") {
                    proof {
                        let tv = decode_utf8(bytes@);
                        assert("REMOVE_SIGNER::"@.is_prefix_of(tv));
                        assert("REMOVE_SIGNER::"@.len() == 15 && "REMOVE_SIGNER::"@[0] == 'R');
                        assert(tv[0] == 'R') by {
                            assert("REMOVE_SIGNER::"@ =~= tv.subrange(0, 15));
                            assert("REMOVE_SIGNER::"@[0] == tv.subrange(0, 15)[0]);
                        }
                        assert(!is_add_command(bytes@)) by {
                            if "ADD_SIGNER::"@.is_prefix_of(tv) {
                                assert("ADD_SIGNER::"@[0] == tv.subrange(0, 12)[0]);
                                assert(tv[0] == 'A');
                            }
                        }
                        assert(!is_threshold_command(bytes@)) by {
                            if "SET_THRESHOLD::"@.is_prefix_of(tv) {
                                assert("SET_THRESHOLD::"@[0] == tv.subrange(0, 15)[0]);
                                assert(tv[0] == 'S');
                            }
                        }
                    }
                    let arg = text_str.substring_char(15, n);
                    proof {
                        assert(arg@ =~= remove_command_arg(bytes@));
                    }
                    return self.apply_remove_command(i, wallet_id, bytes, arg, caller);
                }
                if str_starts_with(text_str, "SET_THRESHOLD::") {
                    proof {
                        let tv = decode_utf8(bytes@);
                        assert("SET_THRESHOLD::"@.is_prefix_of(tv));
                        assert("SET_THRESHOLD::"@.len() == 15 && "SET_THRESHOLD::"@[0] == 'S');
                        assert(tv[0] == 'S') by {
                            assert("SET_THRESHOLD::"@ =~= tv.subrange(0, 15));
                            assert("SET_THRESHOLD::"@[0] == tv.subrange(0, 15)[0]);
                        }
                        assert(!is_add_command(bytes@)) by {
                            if "ADD_SIGNER::"@.is_prefix_of(tv) {
                                assert("ADD_SIGNER::"@[0] == tv.subrange(0, 12)[0]);
                                assert(tv[0] == 'A');
                            }
                        }
                        assert(!is_remove_command(bytes@)) by {
                            if "REMOVE_SIGNER::"@.is_prefix_of(tv) {
                                assert("REMOVE_SIGNER::"@[0] == tv.subrange(0, 15)[0]);
                                assert(tv[0] == 'R');
                            }
                        }
                    }
                    let arg = text_str.substring_char(15, n);
                    proof {
                        assert(arg@ =~= threshold_command_arg(bytes@));
                    }
                    return self.apply_threshold_command(i, wallet_id, bytes, arg, caller);
                }
                proof {
                    assert(!is_command(bytes@));
                }
            },
            None => {
                proof {
                    assert(!is_command(bytes@));
                }
            },
        }
        let ghost pre = self.wallets@;
        let mut entry = self.wallets.remove(i);
        entry.1.mark_in_flight(&bytes, true);
        let ghost ge = entry;
        self.wallets.insert(i, entry);
        proof {
            assert(self.wallets@ =~= pre.update(i as int, ge));
            lemma_wallets_update(pre, i as int, ge);
            assert forall|j: int| 0 <= j < self.wallets@.len() implies (#[trigger] self.wallets@[
                j
            ]).1.wf() by {
                if j != i as int {
                    assert(self.wallets@[j] == pre[j]);
                }
            }
            assert(self.wallets_map().dom() =~= old(self).wallets_map().dom());
        }
        Ok(SignStart::Dispatch(bytes))
    }

    /// Finish a signing cycle for a dispatched payload message: its
    /// in-flight mark is cleared and the entry consumed whatever the
    /// outcome was — fire-once semantics; a failed attempt must be
    /// proposed again.  The signature bytes come back hexadecimal
    /// encoded.
    pub fn finish_sign(
        &mut self,
        wallet_id: &String,
        msg: &String,
        caller: SignerId,
        outcome: Result<Vec<u8>, SigningError>,
    ) -> (r: Result<String, ServiceError>)
        requires
            old(self).wf(),
        ensures
            final(self).wf(),
            !is_hex_str(msg@) ==> r == Err::<String, ServiceError>(ServiceError::InvalidMessage)
                && *final(self) == *old(self),
            is_hex_str(msg@) && !old(self).has_wallet(wallet_id@) ==> r == Err::<
                String,
                ServiceError,
            >(ServiceError::WalletNotFound) && *final(self) == *old(self),
            is_hex_str(msg@) && old(self).has_wallet(wallet_id@) ==> (
            {
                let w0 = old(self).wallet_of(wallet_id@);
                let w1 = final(self).wallet_of(wallet_id@);
                let bytes = hex_val_of(msg@);
                &&& final(self).same_wallets_except(*old(self), wallet_id@)
                &&& final(self).has_wallet(wallet_id@)
                &&& final(self).same_index(*old(self))
                &&& w1.same_members(w0)
                &&& (w0.is_signer(caller@) ==> w1.queue() == w0.queue().remove(bytes)
                    && w1.queued_msgs() == w0.queued_msgs().remove_value(bytes) && w1.meta_map()
                    == w0.meta_map().remove(bytes) && w1.in_flight_msgs()
                    == w0.in_flight_msgs().remove(bytes))
                &&& (!w0.is_signer(caller@) ==> w1.queue() == w0.queue() && w1.queued_msgs()
                    == w0.queued_msgs() && w1.meta_map() == w0.meta_map() && w1.in_flight_msgs()
                    == w0.in_flight_msgs().remove(bytes))
                &&& (outcome matches Ok(sig) ==> (r matches Ok(hx) && hx@ == hex_chars_of(sig@)))
                &&& (outcome is Err ==> r == Err::<String, ServiceError>(
                    ServiceError::SigningFailed,
                ))
            }),
    {
        let bytes = match hex_decode(msg.as_str()) {
            None => {
                return Err(ServiceError::InvalidMessage);
            },
            Some(b) => b,
        };
        let i = match self.find_wallet(wallet_id) {
            None => {
                return Err(ServiceError::WalletNotFound);
            },
            Some(i) => i,
        };
        proof {
            lemma_windex_unique(self.wallets@, wallet_id@, i as int);
            assert(self.wallets@[i as int].1.wf());
        }
        let ghost pre = self.wallets@;
        let mut entry = self.wallets.remove(i);
        if entry.1.is_queued(&bytes) {
            entry.1.mark_in_flight(&bytes, false);
        }
        let _ = entry.1.remove_message_and_metadata(bytes, caller);
        let ghost ge = entry;
        self.wallets.insert(i, entry);
        proof {
            assert(self.wallets@ =~= pre.update(i as int, ge));
            lemma_wallets_update(pre, i as int, ge);
            assert forall|j: int| 0 <= j < self.wallets@.len() implies (#[trigger] self.wallets@[
                j
            ]).1.wf() by {
                if j != i as int {
                    assert(self.wallets@[j] == pre[j]);
                }
            }
            assert(self.wallets_map().dom() =~= old(self).wallets_map().dom());
            let w0 = old(self).wallet_of(wallet_id@);
            let bb = hex_val_of(msg@);
            if !w0.has_msg(bb) {
                assert(w0.queue().remove(bb) =~= w0.queue());
                if w0.in_flight_msgs().contains(bb) {
                    lemma_in_flight_queued(w0, bb);
                }
                assert(w0.in_flight_msgs().remove(bb) =~= w0.in_flight_msgs());
                if w0.meta_map().dom().contains(bb) {
                    lemma_wf_meta_queued(w0, bb);
                }
                assert(w0.meta_map().remove(bb) =~= w0.meta_map());
            }
        }
        match outcome {
            Ok(sig) => Ok(hex_encode(sig.as_slice())),
            Err(_) => Err(ServiceError::SigningFailed),
        }
    }

    /// Run one whole signing cycle with a synchronous signing
    /// capability: begin the cycle, hand an eligible payload to the
    /// backend, and finish with its outcome.  A governance command never
    /// reaches the backend and yields the empty signature.
    pub fn sign<S: Signer>(
        &mut self,
        wallet_id: &String,
        msg: &String,
        caller: SignerId,
        backend: &S,
    ) -> (r: Result<String, ServiceError>)
        requires
            old(self).wf(),
        ensures
            final(self).wf(),
            !is_hex_str(msg@) ==> r == Err::<String, ServiceError>(ServiceError::InvalidMessage)
                && *final(self) == *old(self),
            is_hex_str(msg@) && !old(self).has_wallet(wallet_id@) ==> r == Err::<
                String,
                ServiceError,
            >(ServiceError::WalletNotFound) && *final(self) == *old(self),
            is_hex_str(msg@) && old(self).has_wallet(wallet_id@) ==> (
            {
                let w0 = old(self).wallet_of(wallet_id@);
                let bytes = hex_val_of(msg@);
                &&& (!w0.spec_can_sign(bytes) ==> r == Err::<String, ServiceError>(
                    ServiceError::CannotSign,
                ) && *final(self) == *old(self))
                &&& (w0.spec_can_sign(bytes) && w0.in_flight_msgs().contains(bytes) ==> r == Err::<
                    String,
                    ServiceError,
                >(ServiceError::SigningInProgress) && *final(self) == *old(self))
                &&& (w0.spec_can_sign(bytes) && !w0.in_flight_msgs().contains(bytes) ==> (
                {
                    let w1 = final(self).wallet_of(wallet_id@);
                    &&& final(self).same_wallets_except(*old(self), wallet_id@)
                    &&& final(self).has_wallet(wallet_id@)
                    &&& (!is_command(bytes) ==> final(self).same_index(*old(self))
                        && w1.same_members(w0) && consumed_if_signer(w0, w1, bytes, caller@) && (r
                        is Ok || r == Err::<String, ServiceError>(ServiceError::SigningFailed)) && (
                    r matches Ok(hx) ==> exists|sig: Seq<u8>| hx@ == hex_chars_of(sig)))
                    &&& (is_add_command(bytes) ==> w1.spec_threshold() == w0.spec_threshold()
                        && match principal_of_text(add_command_arg(bytes)) {
                        Some(p) => {
                            &&& (r matches Ok(s) && s@ == Seq::<char>::empty())
                            &&& w1.signer_set() == w0.signer_set().insert(p)
                            &&& consumed_if_signer(w0, w1, bytes, caller@)
                            &&& final(self).index_lists(p) == old(self).index_lists(p).push(
                                wallet_id@,
                            )
                            &&& (forall|s: Seq<u8>|
                                s != p ==> final(self).index_lists(s) == old(self).index_lists(s))
                        },
                        None => {
                            &&& r == Err::<String, ServiceError>(ServiceError::MalformedCommand)
                            &&& w1.signer_ids() == w0.signer_ids()
                            &&& consumed_if_signer(w0, w1, bytes, caller@)
                            &&& final(self).same_index(*old(self))
                        },
                    })
                    &&& (is_remove_command(bytes) ==> w1.spec_threshold() == w0.spec_threshold()
                        && match principal_of_text(remove_command_arg(bytes)) {
                        Some(p) => {
                            &&& (r matches Ok(s) && s@ == Seq::<char>::empty())
                            &&& w1.signer_set() == w0.signer_set().remove(p)
                            &&& consumed_if_signer(w0, w1, bytes, caller@)
                            &&& final(self).index_lists(p) == old(self).index_lists(p).filter(
                                |x: Seq<char>| x != wallet_id@,
                            )
                            &&& (forall|s: Seq<u8>|
                                s != p ==> final(self).index_lists(s) == old(self).index_lists(s))
                        },
                        None => {
                            &&& r == Err::<String, ServiceError>(ServiceError::MalformedCommand)
                            &&& w1.signer_ids() == w0.signer_ids()
                            &&& consumed_if_signer(w0, w1, bytes, caller@)
                            &&& final(self).same_index(*old(self))
                        },
                    })
                    &&& (is_threshold_command(bytes) ==> w1.signer_ids() == w0.signer_ids()
                        && final(self).same_index(*old(self)) && consumed_if_signer(
                        w0,
                        w1,
                        bytes,
                        caller@,
                    ) && match parse_u8_spec(threshold_command_arg(bytes)) {
                        Some(t) => {
                            &&& (t as nat <= w0.signer_set().len() ==> (r matches Ok(s) && s@
                                == Seq::<char>::empty()) && w1.spec_threshold() == t)
                            &&& (t as nat > w0.signer_set().len() ==> r == Err::<
                                String,
                                ServiceError,
                            >(ServiceError::SignersNotMatchThreshold) && w1.spec_threshold()
                                == w0.spec_threshold())
                        },
                        None => r == Err::<String, ServiceError>(ServiceError::MalformedCommand)
                            && w1.spec_threshold() == w0.spec_threshold(),
                    })
                }))
            }),
    {
        let started = self.start_sign(wallet_id, msg, caller.clone());
        let ghost mid = *self;
        match started {
            Err(e) => Err(e),
            Ok(SignStart::CommandApplied(s)) => Ok(s),
            Ok(SignStart::Dispatch(payload)) => {
                let outcome = backend.sign(payload);
                let r = self.finish_sign(wallet_id, msg, caller, outcome);
                proof {
                    let w0 = old(self).wallet_of(wallet_id@);
                    let wm = mid.wallet_of(wallet_id@);
                    let w1 = self.wallet_of(wallet_id@);
                    let bytes = hex_val_of(msg@);
                    assert(self.same_wallets_except(*old(self), wallet_id@)) by {
                        assert forall|x: Seq<char>|
                            x != wallet_id@ && old(self).has_wallet(x) implies self.wallets_map()[
                            x
                        ] == old(self).wallets_map()[x] by {
                            assert(mid.has_wallet(x));
                            assert(mid.wallets_map()[x] == old(self).wallets_map()[x]);
                            assert(self.wallets_map()[x] == mid.wallets_map()[x]);
                        }
                    }
                    assert(self.same_index(*old(self))) by {
                        assert forall|s: Seq<u8>|
                            self.index_lists(s) == old(self).index_lists(s) by {
                            assert(self.index_lists(s) == mid.index_lists(s));
                            assert(mid.index_lists(s) == old(self).index_lists(s));
                        }
                    }
                    assert(w1.in_flight_msgs() =~= w0.in_flight_msgs().remove(bytes));
                    if !w0.in_flight_msgs().contains(bytes) && !w1.is_signer(caller@) {
                        assert(w1.in_flight_msgs() =~= w0.in_flight_msgs());
                    }
                }
                r
            },
        }
    }

    /// Propose adding a signer: the governance command is built, its
    /// hexadecimal form proposed into the wallet's queue, and that form
    /// returned.  As with any proposal, a caller that is not a signer,
    /// or a command already queued, leaves the wallet unchanged — the
    /// command text is returned regardless.
    pub fn add_signer(&mut self, wallet_id: &String, new_signer: &SignerId, caller: SignerId) -> (r:
        Result<String, ServiceError>)
        requires
            old(self).wf(),
            new_signer.wf(),
        ensures
            final(self).wf(),
            r matches Ok(s) && s@ == hex_chars_of(
                encode_utf8(add_command_prefix() + principal_text(new_signer@)),
            ),
            (
            {
                let cmd = encode_utf8(add_command_prefix() + principal_text(new_signer@));
                &&& (!old(self).has_wallet(wallet_id@) ==> *final(self) == *old(self))
                &&& (old(self).has_wallet(wallet_id@) ==> (
                {
                    let w0 = old(self).wallet_of(wallet_id@);
                    let w1 = final(self).wallet_of(wallet_id@);
                    &&& final(self).same_wallets_except(*old(self), wallet_id@)
                    &&& final(self).same_index(*old(self))
                    &&& final(self).has_wallet(wallet_id@)
                    &&& (!w0.is_signer(caller@) ==> w1 == w0)
                    &&& (w0.is_signer(caller@) && w0.has_msg(cmd) ==> w1 == w0)
                    &&& (w0.is_signer(caller@) && !w0.has_msg(cmd) ==> propose_post(
                        w0,
                        w1,
                        caller@,
                        cmd,
                        Ok::<(), WalletError>(()),
                    ))
                }))
            }),
    {
        let mut text = String::from_str("ADD_SIGNER::");
        let ptext = new_signer.to_text();
        text.append(ptext.as_str());
        let hexmsg = hex_encode(text.as_str().as_bytes());
        proof {
            crate::encoding::lemma_hex_round_trip(encode_utf8(text@));
        }
        let _ = self.propose(wallet_id, &hexmsg, caller);
        Ok(hexmsg)
    }

    /// Propose removing a signer, as [`Registry::add_signer`] proposes
    /// adding one.
    pub fn remove_signer(
        &mut self,
        wallet_id: &String,
        signer_to_remove: &SignerId,
        caller: SignerId,
    ) -> (r: Result<String, ServiceError>)
        requires
            old(self).wf(),
            signer_to_remove.wf(),
        ensures
            final(self).wf(),
            r matches Ok(s) && s@ == hex_chars_of(
                encode_utf8(remove_command_prefix() + principal_text(signer_to_remove@)),
            ),
            (
            {
                let cmd = encode_utf8(remove_command_prefix() + principal_text(signer_to_remove@));
                &&& (!old(self).has_wallet(wallet_id@) ==> *final(self) == *old(self))
                &&& (old(self).has_wallet(wallet_id@) ==> (
                {
                    let w0 = old(self).wallet_of(wallet_id@);
                    let w1 = final(self).wallet_of(wallet_id@);
                    &&& final(self).same_wallets_except(*old(self), wallet_id@)
                    &&& final(self).same_index(*old(self))
                    &&& final(self).has_wallet(wallet_id@)
                    &&& (!w0.is_signer(caller@) ==> w1 == w0)
                    &&& (w0.is_signer(caller@) && w0.has_msg(cmd) ==> w1 == w0)
                    &&& (w0.is_signer(caller@) && !w0.has_msg(cmd) ==> propose_post(
                        w0,
                        w1,
                        caller@,
                        cmd,
                        Ok::<(), WalletError>(()),
                    ))
                }))
            }),
    {
        let mut text = String::from_str("REMOVE_SIGNER::");
        let ptext = signer_to_remove.to_text();
        text.append(ptext.as_str());
        let hexmsg = hex_encode(text.as_str().as_bytes());
        proof {
            crate::encoding::lemma_hex_round_trip(encode_utf8(text@));
        }
        let _ = self.propose(wallet_id, &hexmsg, caller);
        Ok(hexmsg)
    }

    /// Propose replacing the threshold, as [`Registry::add_signer`]
    /// proposes adding a signer.
    pub fn set_threshold(&mut self, wallet_id: &String, new_threshold: u8, caller: SignerId) -> (r:
        Result<String, ServiceError>)
        requires
            old(self).wf(),
        ensures
            final(self).wf(),
            r matches Ok(s) && s@ == hex_chars_of(
                encode_utf8(threshold_command_prefix() + dec_chars_of(new_threshold)),
            ),
            (
            {
                let cmd = encode_utf8(threshold_command_prefix() + dec_chars_of(new_threshold));
                &&& (!old(self).has_wallet(wallet_id@) ==> *final(self) == *old(self))
                &&& (old(self).has_wallet(wallet_id@) ==> (
                {
                    let w0 = old(self).wallet_of(wallet_id@);
                    let w1 = final(self).wallet_of(wallet_id@);
                    &&& final(self).same_wallets_except(*old(self), wallet_id@)
                    &&& final(self).same_index(*old(self))
                    &&& final(self).has_wallet(wallet_id@)
                    &&& (!w0.is_signer(caller@) ==> w1 == w0)
                    &&& (w0.is_signer(caller@) && w0.has_msg(cmd) ==> w1 == w0)
                    &&& (w0.is_signer(caller@) && !w0.has_msg(cmd) ==> propose_post(
                        w0,
                        w1,
                        caller@,
                        cmd,
                        Ok::<(), WalletError>(()),
                    ))
                }))
            }),
    {
        let mut text = String::from_str("SET_THRESHOLD::");
        let ttext = u8_to_dec_string(new_threshold);
        text.append(ttext.as_str());
        let hexmsg = hex_encode(text.as_str().as_bytes());
        proof {
            crate::encoding::lemma_hex_round_trip(encode_utf8(text@));
        }
        let _ = self.propose(wallet_id, &hexmsg, caller);
        Ok(hexmsg)
    }
}

/// Hexadecimal-encode each byte string, keeping order.
fn hex_encode_all(msgs: &Vec<Vec<u8>>) -> (r: Vec<String>)
    ensures
        strs_of(r@) == hex_all(views_of(msgs@)),
{
    let mut r: Vec<String> = Vec::new();
    let mut k: usize = 0;
    while k < msgs.len()
        invariant
            k <= msgs.len(),
            r@.len() == k,
            forall|j: int| 0 <= j < k ==> (#[trigger] r@[j])@ == hex_chars_of(msgs@[j]@),
        decreases msgs.len() - k,
    {
        let s = hex_encode(msgs[k].as_slice());
        r.push(s);
        k = k + 1;
    }
    proof {
        assert(strs_of(r@) =~= hex_all(views_of(msgs@)));
    }
    r
}

} // verus!
