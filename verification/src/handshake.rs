//! The initial key agreement: X3DH extended with an ML-KEM leg ("PQXDH").
//!
//! This runs once, when a session is first established, and produces the
//! 32-byte root secret the Double Ratchet starts from. It combines several
//! independent Diffie-Hellman results with a post-quantum KEM secret, so an
//! attacker must break every DH **and** ML-KEM to recover the root.
use vstd::prelude::*;

use crate::crypto::{
    spec_ed25519_public, spec_mlkem_decapsulate, spec_x25519, spec_x25519_public, x25519_dh,
    x25519_public, x25519_random_secret,
};
use crate::error::{Error, Result};
use crate::identity::{opk_map, Account, AccountView};
use crate::kdf::{kdf_root_from_ikm, spec_kdf_root};
use crate::pqkem::{encapsulate, KYBER_CIPHERTEXT_LEN, KYBER_PUBLIC_LEN};
use crate::wire::{opt_key_view, HandshakeHeader, PreKeyBundle};

verus! {

/// The public halves of an optional secret.
pub open spec fn opt_public(o: Option<Seq<u8>>) -> Option<Seq<u8>> {
    match o {
        Some(k) => Some(spec_x25519_public(k)),
        None => None,
    }
}

/// The initiator's key material: DH(identity, signed prekey), DH(ephemeral,
/// identity), DH(ephemeral, signed prekey), DH(ephemeral, one-time prekey) when
/// the bundle carries one, then the ML-KEM shared secret.
pub open spec fn initiator_ikm(
    my_dh: Seq<u8>,
    eph: Seq<u8>,
    their_identity_dh: Seq<u8>,
    their_signed_prekey: Seq<u8>,
    their_one_time: Option<Seq<u8>>,
    kem_secret: Seq<u8>,
) -> Seq<u8> {
    spec_x25519(my_dh, their_signed_prekey) + spec_x25519(eph, their_identity_dh) + spec_x25519(
        eph,
        their_signed_prekey,
    ) + match their_one_time {
        Some(k) => spec_x25519(eph, k),
        None => Seq::empty(),
    } + kem_secret
}

/// The responder's key material: the same four DH terms with the roles
/// reversed, then the decapsulated ML-KEM secret.
pub open spec fn responder_ikm(my: AccountView, hs: HandshakeHeader, one_time: Option<Seq<u8>>) -> Seq<u8> {
    spec_x25519(my.signed_prekey, hs.identity_dh@) + spec_x25519(my.dh_secret, hs.ephemeral_dh@)
        + spec_x25519(my.signed_prekey, hs.ephemeral_dh@) + match one_time {
        Some(k) => spec_x25519(k, hs.ephemeral_dh@),
        None => Seq::empty(),
    } + spec_mlkem_decapsulate(my.kyber, hs.kyber_ciphertext@)
}

/// The one-time prekey secret a handshake header refers to, if any.
pub open spec fn header_one_time(my: AccountView, hs: HandshakeHeader) -> Option<Seq<u8>> {
    match hs.one_time_prekey_id {
        Some(id) => Some(opk_map(my.one_time_prekeys)[id]),
        None => None,
    }
}

/// Every prekey the header names is one the account holds.
pub open spec fn prekeys_known(my: AccountView, hs: HandshakeHeader) -> bool {
    &&& hs.kyber_prekey_id == my.kyber_prekey_id
    &&& hs.signed_prekey_id == my.signed_prekey_id
    &&& match hs.one_time_prekey_id {
        Some(id) => opk_map(my.one_time_prekeys).contains_key(id),
        None => true,
    }
}

/// The account after answering `hs`: the named one-time prekey (if any) is
/// gone and nothing else changed.
pub open spec fn consumed_for(old: AccountView, new: AccountView, hs: HandshakeHeader) -> bool {
    match hs.one_time_prekey_id {
        Some(id) => {
            &&& opk_map(new.one_time_prekeys) == opk_map(old.one_time_prekeys).remove(id)
            &&& new.one_time_prekeys.len() == old.one_time_prekeys.len() - 1
            &&& new.ed_seed == old.ed_seed
            &&& new.dh_secret == old.dh_secret
            &&& new.signed_prekey_id == old.signed_prekey_id
            &&& new.signed_prekey == old.signed_prekey
            &&& new.kyber_prekey_id == old.kyber_prekey_id
            &&& new.kyber == old.kyber
            &&& new.next_opk_id == old.next_opk_id
        },
        None => new == old,
    }
}

/// `root` is what the initiator derives for `bundle` with some fresh ephemeral
/// key (whose public half is `ephemeral_pub`) and some fresh ML-KEM secret.
pub open spec fn initiator_root(root: Seq<u8>, ephemeral_pub: Seq<u8>, my_dh: Seq<u8>, bundle: PreKeyBundle) -> bool {
    exists|eph: Seq<u8>, kem: Seq<u8>|
        #![trigger initiator_ikm(my_dh, eph, bundle.identity_dh@, bundle.signed_prekey@, opt_key_view(bundle.one_time_prekey), kem)]
        eph.len() == 32 && kem.len() == 32 && ephemeral_pub == spec_x25519_public(eph) && root == spec_kdf_root(
            initiator_ikm(
                my_dh,
                eph,
                bundle.identity_dh@,
                bundle.signed_prekey@,
                opt_key_view(bundle.one_time_prekey),
                kem,
            ),
        )
}

/// Initiator side (Alice). Consumes a `bundle` and returns the shared root
/// secret, the handshake header to send, and the responder's signed-prekey
/// public key (which seeds the Double Ratchet). Fails with
/// [`Error::MalformedKey`] exactly when the bundle's Kyber key has the wrong
/// length.
///
/// The caller is responsible for having verified the bundle's signatures first
/// (see [`crate::identity::verify_bundle`]).
pub fn initiate(my: &Account, bundle: &PreKeyBundle) -> (r: Result<([u8; 32], HandshakeHeader, [u8; 32])>)
    ensures
        r is Ok <==> bundle.kyber_prekey@.len() == KYBER_PUBLIC_LEN,
        match r {
            Ok((root, hs, spk)) => {
                &&& spk == bundle.signed_prekey
                &&& hs.identity_ed@ == spec_ed25519_public(my@.ed_seed)
                &&& hs.identity_dh@ == spec_x25519_public(my@.dh_secret)
                &&& hs.signed_prekey_id == bundle.signed_prekey_id
                &&& hs.one_time_prekey_id == bundle.one_time_prekey_id
                &&& hs.kyber_prekey_id == bundle.kyber_prekey_id
                &&& hs.kyber_ciphertext@.len() == KYBER_CIPHERTEXT_LEN
                &&& initiator_root(root@, hs.ephemeral_dh@, my@.dh_secret, *bundle)
            },
            Err(e) => e == Error::MalformedKey,
        },
{
    let ephemeral = x25519_random_secret();
    let ephemeral_pub = x25519_public(&ephemeral);
    let my_dh = my.dh_identity();

    let mut ikm: Vec<u8> = Vec::new();
    let dh1 = x25519_dh(&my_dh, &bundle.signed_prekey);
    crate::bytes::push_all(&mut ikm, dh1.as_slice());
    let dh2 = x25519_dh(&ephemeral, &bundle.identity_dh);
    crate::bytes::push_all(&mut ikm, dh2.as_slice());
    let dh3 = x25519_dh(&ephemeral, &bundle.signed_prekey);
    crate::bytes::push_all(&mut ikm, dh3.as_slice());
    if let Some(opk) = bundle.one_time_prekey {
        let dh4 = x25519_dh(&ephemeral, &opk);
        crate::bytes::push_all(&mut ikm, dh4.as_slice());
    }
    let (kyber_ciphertext, kyber_secret) = match encapsulate(bundle.kyber_prekey.as_slice()) {
        Ok(p) => p,
        Err(e) => return Err(e),
    };
    crate::bytes::push_all(&mut ikm, kyber_secret.as_slice());
    proof {
        let expect = initiator_ikm(
            my@.dh_secret,
            ephemeral@,
            bundle.identity_dh@,
            bundle.signed_prekey@,
            opt_key_view(bundle.one_time_prekey),
            kyber_secret@,
        );
        assert(ikm@ =~= expect);
    }
    let root = kdf_root_from_ikm(ikm.as_slice());
    let header = HandshakeHeader {
        identity_ed: my.identity_ed_bytes(),
        identity_dh: x25519_public(&my_dh),
        ephemeral_dh: ephemeral_pub,
        signed_prekey_id: bundle.signed_prekey_id,
        one_time_prekey_id: bundle.one_time_prekey_id,
        kyber_prekey_id: bundle.kyber_prekey_id,
        kyber_ciphertext,
    };
    Ok((root, header, bundle.signed_prekey))
}

/// Responder side (Bob). Reconstructs the shared root secret from an inbound
/// handshake header, consuming the referenced one-time prekey.
///
/// [`Error::UnknownPrekey`] when the header names a prekey the account does not
/// hold (and the account is untouched); [`Error::MalformedKey`] when the Kyber
/// ciphertext has the wrong length (the one-time prekey is already consumed by
/// then). On success the root is the one the initiator derived: for any
/// identity and ephemeral secrets whose public halves the header carries, the
/// initiator's key material for this account's published keys equals ours,
/// given the ML-KEM secret that decapsulation recovers.
pub fn respond(my: &mut Account, hs: &HandshakeHeader) -> (r: Result<[u8; 32]>)
    ensures
        match r {
            Ok(root) => {
                &&& prekeys_known(old(my)@, *hs)
                &&& hs.kyber_ciphertext@.len() == KYBER_CIPHERTEXT_LEN
                &&& root@ == spec_kdf_root(responder_ikm(old(my)@, *hs, header_one_time(old(my)@, *hs)))
                &&& forall|peer_dh: Seq<u8>, eph: Seq<u8>|
                    peer_dh.len() == 32 && eph.len() == 32 && hs.identity_dh@ == spec_x25519_public(peer_dh)
                        && hs.ephemeral_dh@ == spec_x25519_public(eph) ==> root@ == spec_kdf_root(
                        #[trigger] initiator_ikm(
                            peer_dh,
                            eph,
                            spec_x25519_public(old(my)@.dh_secret),
                            spec_x25519_public(old(my)@.signed_prekey),
                            opt_public(header_one_time(old(my)@, *hs)),
                            spec_mlkem_decapsulate(old(my)@.kyber, hs.kyber_ciphertext@),
                        ),
                    )
            },
            Err(e) => {
                ||| !prekeys_known(old(my)@, *hs) && e == Error::UnknownPrekey
                ||| prekeys_known(old(my)@, *hs) && hs.kyber_ciphertext@.len() != KYBER_CIPHERTEXT_LEN
                    && e == Error::MalformedKey
            },
        },
        prekeys_known(old(my)@, *hs) ==> consumed_for(old(my)@, final(my)@, *hs),
        !prekeys_known(old(my)@, *hs) ==> final(my)@ == old(my)@,
{
    if hs.kyber_prekey_id != my.kyber_prekey_id() {
        return Err(Error::UnknownPrekey);
    }
    let signed_prekey = match my.signed_prekey(hs.signed_prekey_id) {
        Ok(k) => k,
        Err(e) => return Err(e),
    };
    let identity_dh = my.dh_identity();
    let ghost before = my@;
    let one_time: Option<[u8; 32]> = match hs.one_time_prekey_id {
        Some(id) => match my.take_one_time_prekey(id) {
            Ok(k) => Some(k),
            Err(e) => return Err(e),
        },
        None => None,
    };
    assert(opt_key_view(one_time) == header_one_time(before, *hs));

    let mut ikm: Vec<u8> = Vec::new();
    let dh1 = x25519_dh(&signed_prekey, &hs.identity_dh);
    crate::bytes::push_all(&mut ikm, dh1.as_slice());
    let dh2 = x25519_dh(&identity_dh, &hs.ephemeral_dh);
    crate::bytes::push_all(&mut ikm, dh2.as_slice());
    let dh3 = x25519_dh(&signed_prekey, &hs.ephemeral_dh);
    crate::bytes::push_all(&mut ikm, dh3.as_slice());
    if let Some(opk) = one_time {
        let dh4 = x25519_dh(&opk, &hs.ephemeral_dh);
        crate::bytes::push_all(&mut ikm, dh4.as_slice());
    }
    let kyber_secret = match my.kyber().decapsulate(hs.kyber_ciphertext.as_slice()) {
        Ok(s) => s,
        Err(e) => return Err(e),
    };
    crate::bytes::push_all(&mut ikm, kyber_secret.as_slice());
    proof {
        assert(ikm@ =~= responder_ikm(before, *hs, header_one_time(before, *hs)));
    }
    let root = kdf_root_from_ikm(ikm.as_slice());
    proof {
        assert forall|peer_dh: Seq<u8>, eph: Seq<u8>|
            peer_dh.len() == 32 && eph.len() == 32 && hs.identity_dh@ == spec_x25519_public(peer_dh)
                && hs.ephemeral_dh@ == spec_x25519_public(eph) implies root@ == spec_kdf_root(
            #[trigger] initiator_ikm(
                peer_dh,
                eph,
                spec_x25519_public(before.dh_secret),
                spec_x25519_public(before.signed_prekey),
                opt_public(header_one_time(before, *hs)),
                spec_mlkem_decapsulate(before.kyber, hs.kyber_ciphertext@),
            ),
        ) by {
            assert(spec_x25519(peer_dh, spec_x25519_public(signed_prekey@)) == dh1@);
            assert(spec_x25519(eph, spec_x25519_public(identity_dh@)) == dh2@);
            assert(spec_x25519(eph, spec_x25519_public(signed_prekey@)) == dh3@);
            assert(initiator_ikm(
                peer_dh,
                eph,
                spec_x25519_public(before.dh_secret),
                spec_x25519_public(before.signed_prekey),
                opt_public(header_one_time(before, *hs)),
                spec_mlkem_decapsulate(before.kyber, hs.kyber_ciphertext@),
            ) =~= responder_ikm(before, *hs, header_one_time(before, *hs)));
        }
    }
    Ok(root)
}

} // verus!
