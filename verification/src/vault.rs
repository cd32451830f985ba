//! This device's prekey secrets: one signed prekey, one post-quantum signed prekey and a
//! rolling set of one-time prekeys.

use vstd::prelude::*;

use zeroize::Zeroize;

use crate::error::{NodeError, Result};
use crate::seqs::{lemma_filter_kept, lemma_filter_none, lemma_filter_step, lemma_take_all};
use crate::wire::{
    byte_string, law_indices_read_back, law_lengths_read_back, law_pairs_read_back, taken_index,
    taken_length, taken_pair, varint,
};

verus! {

/// Retain at most this many unconsumed one-time prekeys (oldest dropped first: a dropped
/// one-time prekey only means that particular handshake bundle can no longer be
/// answered).
pub const MAX_OPKS: usize = 32;

/// One unconsumed one-time prekey.
pub struct Opk {
    /// Number that handshakes name it by.
    pub id: u32,
    /// Its secret.
    pub secret: [u8; 32],
}

/// All prekey secrets this device can answer handshakes with.
pub struct PrekeyVault {
    /// Number of the signed prekey.
    pub spk_id: u32,
    spk: [u8; 32],
    /// Number of the post-quantum signed prekey.
    pub pqspk_id: u32,
    pq_dk: Vec<u8>,
    pq_ek: Vec<u8>,
    opks: Vec<Opk>,
    next_opk_id: u32,
}

/// The contents of a vault.
#[verifier::ext_equal]
pub struct VaultView {
    /// Number of the signed prekey.
    pub spk_id: u32,
    /// Secret of the signed prekey.
    pub spk: Seq<u8>,
    /// Number of the post-quantum signed prekey.
    pub pqspk_id: u32,
    /// Secret half of the post-quantum signed prekey.
    pub pq_dk: Seq<u8>,
    /// Public half of the post-quantum signed prekey.
    pub pq_ek: Seq<u8>,
    /// Unconsumed one-time prekeys, oldest first.
    pub opks: Seq<(u32, Seq<u8>)>,
    /// Number of the next one-time prekey.
    pub next_opk_id: u32,
}

impl View for PrekeyVault {
    type V = VaultView;

    closed spec fn view(&self) -> VaultView {
        VaultView {
            spk_id: self.spk_id,
            spk: self.spk@,
            pqspk_id: self.pqspk_id,
            pq_dk: self.pq_dk@,
            pq_ek: self.pq_ek@,
            opks: opk_views(self.opks@),
            next_opk_id: self.next_opk_id,
        }
    }
}

/// One-time prekeys as numbers and secrets.
pub open spec fn opk_views(opks: Seq<Opk>) -> Seq<(u32, Seq<u8>)> {
    opks.map_values(|o: Opk| (o.id, o.secret@))
}

/// The fields of a vault in the order in which they are stored.
type Stored = (u32, [u8; 32], u32, Vec<u8>, Vec<u8>, Vec<(u32, [u8; 32])>, u32);

/// The contents that stored fields stand for.
spec fn stored_view(stored: Stored) -> VaultView {
    VaultView {
        spk_id: stored.0,
        spk: stored.1@,
        pqspk_id: stored.2,
        pq_dk: stored.3@,
        pq_ek: stored.4@,
        opks: stored.5@.map_values(|o: (u32, [u8; 32])| (o.0, o.1@)),
        next_opk_id: stored.6,
    }
}

/// The stored form of the first `n` one-time prekeys.
pub open spec fn opk_bytes(opks: Seq<(u32, Seq<u8>)>, n: int) -> Seq<u8>
    decreases n,
{
    if n <= 0 {
        Seq::empty()
    } else {
        opk_bytes(opks, n - 1) + varint(opks[n - 1].0 as nat) + opks[n - 1].1
    }
}

/// The stored form of a vault.
pub open spec fn vault_bytes(vault: VaultView) -> Seq<u8> {
    varint(vault.spk_id as nat) + vault.spk + varint(vault.pqspk_id as nat) + byte_string(
        vault.pq_dk,
    ) + byte_string(vault.pq_ek) + varint(vault.opks.len()) + opk_bytes(
        vault.opks,
        vault.opks.len() as int,
    ) + varint(vault.next_opk_id as nat)
}

/// The 32 bytes at the front of `bytes`, with what is left over.
pub open spec fn taken_key(bytes: Seq<u8>) -> Option<(Seq<u8>, Seq<u8>)> {
    if bytes.len() >= 32 {
        Some((bytes.take(32), bytes.skip(32)))
    } else {
        None
    }
}

/// The `n` one-time prekeys at the front of `bytes`, with what is left over.
pub open spec fn taken_opks(bytes: Seq<u8>, n: nat) -> Option<(Seq<(u32, Seq<u8>)>, Seq<u8>)>
    decreases n,
{
    if n == 0 {
        Some((Seq::empty(), bytes))
    } else if let Some((id, more)) = taken_index(bytes) {
        if let Some((secret, more)) = taken_key(more) {
            if let Some((opks, rest)) = taken_opks(more, (n - 1) as nat) {
                Some((seq![(id, secret)] + opks, rest))
            } else {
                None
            }
        } else {
            None
        }
    } else {
        None
    }
}

/// The signed prekey at the front of `bytes`, with what is left over.
pub open spec fn taken_spk(bytes: Seq<u8>) -> Option<((u32, Seq<u8>), Seq<u8>)> {
    match taken_index(bytes) {
        Some((id, more)) => match taken_key(more) {
            Some((secret, rest)) => Some(((id, secret), rest)),
            None => None,
        },
        None => None,
    }
}

/// The post-quantum prekey at the front of `bytes`, with what is left over.
pub open spec fn taken_pqspk(bytes: Seq<u8>, pointer_bits: nat) -> Option<
    ((u32, Seq<u8>, Seq<u8>), Seq<u8>),
> {
    match taken_index(bytes) {
        Some((id, more)) => match taken_pair(more, pointer_bits) {
            Some(((dk, ek), rest)) => Some(((id, dk, ek), rest)),
            None => None,
        },
        None => None,
    }
}

/// The vault that `bytes` hold: its fields one after the other. What follows them does not
/// matter. Lengths are read at the pointer width of the target.
pub open spec fn vault_in(bytes: Seq<u8>, pointer_bits: nat) -> Option<VaultView> {
    if let Some(((spk_id, spk), more)) = taken_spk(bytes) {
        if let Some(((pqspk_id, pq_dk, pq_ek), more)) = taken_pqspk(more, pointer_bits) {
            if let Some((n, more)) = taken_length(more, pointer_bits) {
                if let Some((opks, more)) = taken_opks(more, n) {
                    if let Some((next_opk_id, _)) = taken_index(more) {
                        Some(
                            VaultView { spk_id, spk, pqspk_id, pq_dk, pq_ek, opks, next_opk_id },
                        )
                    } else {
                        None
                    }
                } else {
                    None
                }
            } else {
                None
            }
        } else {
            None
        }
    } else {
        None
    }
}

proof fn lemma_opk_bytes_first(opks: Seq<(u32, Seq<u8>)>, n: int)
    requires
        0 < n <= opks.len(),
    ensures
        opk_bytes(opks, n) == varint(opks[0].0 as nat) + opks[0].1 + opk_bytes(
            opks.drop_first(),
            n - 1,
        ),
    decreases n,
{
    let rest = opks.drop_first();
    if n == 1 {
        assert(opk_bytes(opks, 0) == Seq::<u8>::empty());
        assert(opk_bytes(opks, 1) =~= varint(opks[0].0 as nat) + opks[0].1);
    } else {
        lemma_opk_bytes_first(opks, n - 1);
        assert(rest[n - 2] == opks[n - 1]);
        assert(opk_bytes(opks, n) =~= varint(opks[0].0 as nat) + opks[0].1 + opk_bytes(
            rest,
            n - 1,
        ));
    }
}

proof fn lemma_opks_read_back(opks: Seq<(u32, Seq<u8>)>, rest: Seq<u8>)
    requires
        forall|i: int| 0 <= i < opks.len() ==> (#[trigger] opks[i]).1.len() == 32,
    ensures
        taken_opks(opk_bytes(opks, opks.len() as int) + rest, opks.len()) == Some((opks, rest)),
    decreases opks.len(),
{
    let n = opks.len();
    let bytes = opk_bytes(opks, n as int) + rest;
    if n == 0 {
        assert(bytes =~= rest);
        assert(opks =~= Seq::empty());
    } else {
        let others = opks.drop_first();
        let more = opk_bytes(others, n - 1) + rest;
        let secret = opks[0].1;
        lemma_opk_bytes_first(opks, n as int);
        assert(bytes =~= varint(opks[0].0 as nat) + (secret + more));
        law_indices_read_back(opks[0].0, secret + more);
        assert((secret + more).take(32) =~= secret);
        assert((secret + more).skip(32) =~= more);
        lemma_opks_read_back(others, rest);
        assert(seq![opks[0]] + others =~= opks);
    }
}

proof fn lemma_regroup(
    a: Seq<u8>,
    b: Seq<u8>,
    c: Seq<u8>,
    d: Seq<u8>,
    e: Seq<u8>,
    f: Seq<u8>,
    g: Seq<u8>,
    h: Seq<u8>,
    rest: Seq<u8>,
)
    ensures
        a + b + c + d + e + f + g + h + rest == a + (b + (c + (d + e + (f + (g + (h + rest)))))),
{
    let tail = f + (g + (h + rest));
    assert(a + b + c + d + e + f + g + h + rest =~= a + b + c + d + e + tail);
    assert(a + b + c + d + e + tail =~= a + b + c + (d + e + tail));
    assert(a + b + c + (d + e + tail) =~= a + (b + (c + (d + e + tail))));
}

/// A vault is read back from its stored form, whatever follows it.
pub proof fn law_vaults_read_back(vault: VaultView, rest: Seq<u8>)
    requires
        vault.spk.len() == 32,
        vault.pq_dk.len() <= usize::MAX,
        vault.pq_ek.len() <= usize::MAX,
        vault.opks.len() <= usize::MAX,
        forall|i: int| 0 <= i < vault.opks.len() ==> (#[trigger] vault.opks[i]).1.len() == 32,
    ensures
        vault_in(vault_bytes(vault) + rest, usize::BITS as nat) == Some(vault),
{
    let last = varint(vault.next_opk_id as nat) + rest;
    let list = opk_bytes(vault.opks, vault.opks.len() as int) + last;
    let counted = varint(vault.opks.len()) + list;
    let halves = byte_string(vault.pq_dk) + byte_string(vault.pq_ek) + counted;
    let signed = varint(vault.pqspk_id as nat) + halves;
    lemma_regroup(
        varint(vault.spk_id as nat),
        vault.spk,
        varint(vault.pqspk_id as nat),
        byte_string(vault.pq_dk),
        byte_string(vault.pq_ek),
        varint(vault.opks.len()),
        opk_bytes(vault.opks, vault.opks.len() as int),
        varint(vault.next_opk_id as nat),
        rest,
    );
    law_indices_read_back(vault.spk_id, vault.spk + signed);
    assert((vault.spk + signed).take(32) =~= vault.spk);
    assert((vault.spk + signed).skip(32) =~= signed);
    law_indices_read_back(vault.pqspk_id, halves);
    law_pairs_read_back(vault.pq_dk, vault.pq_ek, counted);
    law_lengths_read_back(vault.opks.len() as usize, list);
    lemma_opks_read_back(vault.opks, last);
    law_indices_read_back(vault.next_opk_id, rest);
}

/// `postcard::to_allocvec` of the fields of a vault. Claimed: numbers come in postcard's
/// variable-length form, fixed arrays as they are, byte strings and the list of one-time
/// prekeys behind their lengths.
#[verifier::external_body]
fn encode_fields(stored: &Stored) -> (res: Vec<u8>)
    ensures
        res@ == vault_bytes(stored_view(*stored)),
{
    postcard::to_allocvec(stored).expect("vault serialization cannot fail")
}

/// `postcard::from_bytes` of the fields of a vault. Claimed: it reads the fields in their order,
/// as they are written, and fails where one is not written as it should be or the bytes run
/// out. What follows the last field is left unread.
#[verifier::external_body]
fn decode_fields(bytes: &[u8]) -> (res: Option<Stored>)
    ensures
        (match res {
            Some(stored) => Some(stored_view(stored)),
            None => None,
        }) == vault_in(bytes@, usize::BITS as nat),
{
    postcard::from_bytes::<Stored>(bytes).ok()
}

/// `zeroize::Zeroize::zeroize` on a 32-byte secret. Claimed: every byte is zero
/// afterwards.
#[verifier::external_body]
fn wipe_secret(secret: &mut [u8; 32])
    ensures
        forall|i: int| 0 <= i < 32 ==> #[trigger] final(secret)@[i] == 0,
{
    secret.zeroize();
}

/// `zeroize::Zeroize::zeroize` on a byte string. Claimed: the byte string is empty
/// afterwards.
#[verifier::external_body]
fn wipe_bytes(bytes: &mut Vec<u8>)
    ensures
        final(bytes)@.len() == 0,
{
    bytes.zeroize();
}

impl PrekeyVault {
    /// At most the allowed number of one-time prekeys is kept.
    pub open spec fn bounded(self) -> bool {
        self@.opks.len() <= MAX_OPKS
    }

    /// A vault with freshly made signed prekeys and no one-time prekey.
    pub fn generate(spk: [u8; 32], pq_dk: Vec<u8>, pq_ek: Vec<u8>) -> (vault: PrekeyVault)
        ensures
            vault@ == (VaultView {
                spk_id: 1,
                spk: spk@,
                pqspk_id: 1,
                pq_dk: pq_dk@,
                pq_ek: pq_ek@,
                opks: Seq::empty(),
                next_opk_id: 1,
            }),
            vault.bounded(),
    {
        let vault = PrekeyVault {
            spk_id: 1,
            spk,
            pqspk_id: 1,
            pq_dk,
            pq_ek,
            opks: Vec::new(),
            next_opk_id: 1,
        };
        assert(vault@.opks =~= Seq::empty());
        vault
    }

    /// The vault's stored form, which reads back as the same vault.
    pub fn encode(&self) -> (bytes: Vec<u8>)
        ensures
            bytes@ == vault_bytes(self@),
            vault_in(bytes@, usize::BITS as nat) == Some(self@),
    {
        let mut opks: Vec<(u32, [u8; 32])> = Vec::new();
        let mut i: usize = 0;
        while i < self.opks.len()
            invariant
                i <= self.opks@.len(),
                opks@.len() == i,
                forall|k: int|
                    0 <= k < i ==> (#[trigger] opks@[k]) == (self.opks@[k].id, self.opks@[k].secret),
            decreases self.opks@.len() - i,
        {
            opks.push((self.opks[i].id, self.opks[i].secret));
            i = i + 1;
        }
        let stored: Stored = (
            self.spk_id,
            self.spk,
            self.pqspk_id,
            crate::bytes::copy_bytes(&self.pq_dk),
            crate::bytes::copy_bytes(&self.pq_ek),
            opks,
            self.next_opk_id,
        );
        assert(stored_view(stored) =~~= self@);
        proof {
            assert(self.pq_dk.len() <= usize::MAX && self.pq_ek.len() <= usize::MAX
                && self.opks.len() <= usize::MAX);
            law_vaults_read_back(self@, Seq::empty());
            assert(vault_bytes(self@) + Seq::<u8>::empty() =~= vault_bytes(self@));
        }
        encode_fields(&stored)
    }

    /// Read a stored vault; an error when the bytes hold none.
    pub fn decode(bytes: &[u8]) -> (res: Result<PrekeyVault>)
        ensures
            match res {
                Ok(vault) => vault_in(bytes@, usize::BITS as nat) == Some(vault@),
                Err(e) => vault_in(bytes@, usize::BITS as nat) is None && e
                    == NodeError::CorruptState,
            },
    {
        match decode_fields(bytes) {
            Some(stored) => {
                let ghost fields = stored_view(stored);
                let (spk_id, spk, pqspk_id, pq_dk, pq_ek, list, next_opk_id) = stored;
                let mut opks: Vec<Opk> = Vec::new();
                let mut i: usize = 0;
                while i < list.len()
                    invariant
                        i <= list@.len(),
                        opks@.len() == i,
                        forall|k: int|
                            0 <= k < i ==> (#[trigger] opks@[k]).id == list@[k].0 && opks@[k].secret
                                == list@[k].1,
                    decreases list@.len() - i,
                {
                    opks.push(Opk { id: list[i].0, secret: list[i].1 });
                    i = i + 1;
                }
                let vault = PrekeyVault { spk_id, spk, pqspk_id, pq_dk, pq_ek, opks, next_opk_id };
                assert(vault@ =~~= fields);
                Ok(vault)
            },
            None => Err(NodeError::CorruptState),
        }
    }

    /// Number and secret of the signed prekey.
    pub fn spk(&self) -> (res: (u32, [u8; 32]))
        ensures
            res.0 == self@.spk_id,
            res.1@ == self@.spk,
    {
        (self.spk_id, self.spk)
    }

    /// Number, secret half and public half of the post-quantum signed prekey.
    pub fn pqspk(&self) -> (res: (u32, Vec<u8>, Vec<u8>))
        ensures
            res.0 == self@.pqspk_id,
            res.1@ == self@.pq_dk,
            res.2@ == self@.pq_ek,
    {
        (
            self.pqspk_id,
            crate::bytes::copy_bytes(&self.pq_dk),
            crate::bytes::copy_bytes(&self.pq_ek),
        )
    }

    /// Number of the post-quantum signed prekey.
    pub fn pqspk_id(&self) -> (id: u32)
        ensures
            id == self@.pqspk_id,
    {
        self.pqspk_id
    }

    /// Remember a fresh one-time prekey with the given secret; its number is returned.
    /// When too many are kept, the oldest is wiped and dropped.
    pub fn fresh_opk(&mut self, secret: [u8; 32]) -> (id: u32)
        ensures
            id == old(self)@.next_opk_id,
            final(self)@ == (VaultView {
                opks: {
                    let all = old(self)@.opks.push((id, secret@));
                    if all.len() > MAX_OPKS {
                        all.skip(1)
                    } else {
                        all
                    }
                },
                next_opk_id: old(self)@.next_opk_id.wrapping_add(1),
                ..old(self)@
            }),
            old(self).bounded() ==> final(self).bounded(),
    {
        let ghost prior = self@;
        let id = self.next_opk_id;
        self.next_opk_id = self.next_opk_id.wrapping_add(1);
        self.opks.push(Opk { id, secret });
        assert(opk_views(self.opks@) =~= prior.opks.push((id, secret@)));
        if self.opks.len() > MAX_OPKS {
            let ghost all = self.opks@;
            let mut oldest = self.opks.remove(0);
            wipe_secret(&mut oldest.secret);
            assert(opk_views(self.opks@) =~= opk_views(all).skip(1));
        }
        id
    }

    /// Secret of an unconsumed one-time prekey.
    pub fn opk(&self, id: u32) -> (res: Option<[u8; 32]>)
        ensures
            match res {
                Some(secret) => exists|k: int|
                    {
                        &&& 0 <= k < self@.opks.len()
                        &&& #[trigger] self@.opks[k] == (id, secret@)
                        &&& forall|j: int| 0 <= j < k ==> (#[trigger] self@.opks[j]).0 != id
                    },
                None => forall|k: int| 0 <= k < self@.opks.len() ==> (#[trigger] self@.opks[k]).0
                    != id,
            },
    {
        let mut i: usize = 0;
        while i < self.opks.len()
            invariant
                i <= self.opks@.len(),
                forall|k: int| 0 <= k < i ==> (#[trigger] self@.opks[k]).0 != id,
            decreases self.opks@.len() - i,
        {
            assert(self@.opks[i as int] == (self.opks@[i as int].id, self.opks@[i as int].secret@));
            if self.opks[i].id == id {
                return Some(self.opks[i].secret);
            }
            i = i + 1;
        }
        None
    }

    /// Wipe and delete a consumed one-time prekey (forward secrecy for the first flight:
    /// once used, the secret must not survive).
    pub fn remove_opk(&mut self, id: u32)
        ensures
            final(self)@ == (VaultView {
                opks: old(self)@.opks.filter(|o: (u32, Seq<u8>)| o.0 != id),
                ..old(self)@
            }),
            old(self).bounded() ==> final(self).bounded(),
    {
        let ghost prior = self@;
        let ghost keep = |o: (u32, Seq<u8>)| o.0 != id;
        let mut rest: Vec<Opk> = Vec::new();
        let mut kept: Vec<Opk> = Vec::new();
        std::mem::swap(&mut rest, &mut self.opks);
        let mut i: usize = 0;
        proof {
            lemma_filter_none(opk_views(rest@), keep);
            assert(opk_views(kept@) =~= Seq::empty());
        }
        while i < rest.len()
            invariant
                i <= rest@.len(),
                keep == (|o: (u32, Seq<u8>)| o.0 != id),
                opk_views(kept@) == opk_views(rest@).take(i as int).filter(keep),
            decreases rest@.len() - i,
        {
            let ghost all = opk_views(rest@);
            let ghost done = opk_views(kept@);
            assert(all[i as int] == (rest@[i as int].id, rest@[i as int].secret@));
            proof {
                lemma_filter_step(all, keep, i as int);
            }
            if rest[i].id != id {
                kept.push(Opk { id: rest[i].id, secret: rest[i].secret });
                assert(opk_views(kept@) =~= done.push(all[i as int]));
            }
            i = i + 1;
        }
        proof {
            lemma_take_all(opk_views(rest@));
        }
        assert(opk_views(rest@) == prior.opks);
        let mut j: usize = 0;
        while j < rest.len()
            invariant
                j <= rest@.len(),
            decreases rest@.len() - j,
        {
            let mut gone = [0u8; 32];
            std::mem::swap(&mut gone, &mut rest[j].secret);
            wipe_secret(&mut gone);
            j = j + 1;
        }
        self.opks = kept;
        proof {
            lemma_filter_kept(prior.opks, keep);
        }
    }

    /// Wipe every secret.
    pub fn zeroize(&mut self)
        ensures
            final(self)@.opks.len() == 0,
            final(self)@.pq_dk.len() == 0,
            final(self)@.pq_ek.len() == 0,
            forall|i: int| 0 <= i < 32 ==> #[trigger] final(self)@.spk[i] == 0,
            final(self)@.spk_id == 0,
            final(self)@.pqspk_id == 0,
            final(self)@.next_opk_id == 0,
    {
        self.spk_id = 0;
        wipe_secret(&mut self.spk);
        self.pqspk_id = 0;
        wipe_bytes(&mut self.pq_dk);
        wipe_bytes(&mut self.pq_ek);
        let mut gone: Vec<Opk> = Vec::new();
        std::mem::swap(&mut gone, &mut self.opks);
        let mut j: usize = 0;
        while j < gone.len()
            invariant
                j <= gone@.len(),
            decreases gone@.len() - j,
        {
            let mut secret = [0u8; 32];
            std::mem::swap(&mut secret, &mut gone[j].secret);
            wipe_secret(&mut secret);
            j = j + 1;
        }
        self.next_opk_id = 0;
    }
}

/// A consumed one-time prekey never answers again: after its removal no secret is kept
/// under its number.
pub proof fn law_removed_opk_is_gone(opks: Seq<(u32, Seq<u8>)>, id: u32)
    ensures
        ({
            let rest = opks.filter(|o: (u32, Seq<u8>)| o.0 != id);
            forall|k: int| 0 <= k < rest.len() ==> (#[trigger] rest[k]).0 != id
        }),
{
    lemma_filter_kept(opks, |o: (u32, Seq<u8>)| o.0 != id);
}

/// A stored vault starts with the signed prekey under its number, and keeps one-time prekeys
/// one after another, each under its own number.
pub proof fn law_layout_of_vaults(vault: VaultView, n: int)
    requires
        vault.spk_id < 128,
        vault.spk.len() == 32,
        0 <= n < vault.opks.len(),
    ensures
        vault_bytes(vault).len() >= 33,
        vault_bytes(vault)[0] == vault.spk_id,
        vault_bytes(vault).subrange(1, 33) == vault.spk,
        opk_bytes(vault.opks, 0).len() == 0,
        opk_bytes(vault.opks, n + 1) == opk_bytes(vault.opks, n) + varint(
            vault.opks[n].0 as nat,
        ) + vault.opks[n].1,
{
    let head = varint(vault.spk_id as nat) + vault.spk;
    assert(varint(vault.spk_id as nat) == seq![vault.spk_id as u8]);
    let s1 = head + varint(vault.pqspk_id as nat);
    let s2 = s1 + byte_string(vault.pq_dk);
    let s3 = s2 + byte_string(vault.pq_ek);
    let s4 = s3 + varint(vault.opks.len());
    let s5 = s4 + opk_bytes(vault.opks, vault.opks.len() as int);
    let s6 = s5 + varint(vault.next_opk_id as nat);
    assert(vault_bytes(vault) == s6);
    assert forall|i: int| 0 <= i < 33 implies #[trigger] s6[i] == head[i] by {
        assert(s1[i] == head[i]);
        assert(s2[i] == s1[i]);
        assert(s3[i] == s2[i]);
        assert(s4[i] == s3[i]);
        assert(s5[i] == s4[i]);
    }
    assert(s6.subrange(1, 33) =~= vault.spk);
}

} // verus!
