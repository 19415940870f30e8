//! What both ends of a redemption and of a greeting make of each other's messages, told by
//! the messages alone.
use vstd::prelude::*;
use vstd::string::*;
use vstd::utf8::{encode_utf8, encode_utf8_decode_utf8, encode_utf8_valid_utf8};

use crate::octets::{be32, be_value, lemma_be_widths};
use crate::outside::{ed25519_key, ed25519_signature};
use crate::protocol::invite::pop_bytes;
use crate::protocol::invite2::{any_token_of, AnyTokenView};
use crate::protocol::relay_cap::cap_of;
use crate::protocol::signed::{fact_list_roundtrip, list_bytes, list_of, signed_ok, SignedView};
use crate::roster::error::RosterFault;
use crate::session::issuer::{emitted, intended, proved, receipt_caps, receipt_of, token_invite_id};
use crate::session::joiner::{answered, answered_v2, proof_of, refused};
use crate::session::ok2::{
    fitting, item_cap_at, item_url_at, items_at, items_bytes, member_expiry, minted,
    segment_bytes, server_views, RedeemCapMinter,
};
use crate::session::redeem_err::{
    record_bytes, records_are_read_back, records_bytes, records_from, KindView, RecordView,
};
use crate::session::{greeted, SessionFault};

verus! {

/// The answer of a joiner to the challenge of an issuer proves that it holds its key: the
/// issuer reads from it the joiner and its signature over the fabric, the invite and that
/// very challenge, if the joiner is the one at the far end of the connection, and refuses it
/// from anyone else.
pub proof fn proofs_answer_the_challenge(
    fabric_id: Seq<u8>,
    invite_id: Seq<u8>,
    seed: Seq<u8>,
    redeemer: Seq<u8>,
    challenge: Seq<u8>,
    remote: Seq<u8>,
)
    requires
        redeemer.len() == 32,
        challenge.len() == 32,
        ed25519_key(redeemer),
        ed25519_signature(seed, pop_bytes(fabric_id, invite_id, challenge)).len() == 64,
    ensures
        ({
            let p = proof_of(fabric_id, invite_id, seed, redeemer, 0x11, challenge);
            let r = proved(0x12, p->Ok_0, remote);
            &&& p is Ok
            &&& remote == redeemer ==> r == Ok::<(Seq<u8>, Seq<u8>), Seq<char>>(
                (redeemer, ed25519_signature(seed, pop_bytes(fabric_id, invite_id, challenge))),
            )
            &&& remote != redeemer ==> r is Err
        }),
{
    let sig = ed25519_signature(seed, pop_bytes(fabric_id, invite_id, challenge));
    let p = redeemer + sig;
    assert(p.subrange(0, 32) =~= redeemer);
    assert(p.subrange(32, 96) =~= sig);
}

/// A greeting that lists facts is read as those facts, up to 10000 of them; more are refused.
pub proof fn greetings_are_read(list: Seq<SignedView>)
    requires
        forall|k: int| 0 <= k < list.len() ==> signed_ok(#[trigger] list[k]),
        list.len() <= u32::MAX,
        list_bytes(list).len() <= usize::MAX,
    ensures
        list.len() <= 10_000 ==> greeted(1, list_bytes(list)) == Ok::<Seq<SignedView>, SessionFault>(
            list,
        ),
        list.len() > 10_000 ==> greeted(1, list_bytes(list)) is Err,
        forall|t: u8| t != 1 ==> #[trigger] greeted(t, list_bytes(list)) is Err,
{
    fact_list_roundtrip(list, Seq::empty());
    assert(list_bytes(list) + Seq::<u8>::empty() =~= list_bytes(list));
}

/// A joiner takes nothing but a receipt: a refusal, and any other message, gives it no facts.
pub proof fn only_receipts_give_facts(frame_type: u8, payload: Seq<u8>, redeemer: Seq<u8>)
    ensures
        answered(frame_type, payload) is Ok <==> frame_type == 0x13 && list_of(payload) is Ok,
        answered(frame_type, payload) is Ok ==> answered(frame_type, payload)->Ok_0 == list_of(
            payload,
        )->Ok_0,
        answered_v2(frame_type, payload, redeemer) is Ok ==> frame_type == 0x13 || frame_type
            == 0x15,
        frame_type == 0x13 && list_of(payload) is Ok ==> {
            let r = answered_v2(frame_type, payload, redeemer);
            r is Ok && (r->Ok_0).facts == list_of(payload)->Ok_0 && (r->Ok_0).relay_caps.len() == 0
        },
{
}

/// A single record tells the joiner what the issuer refused: that the invite was used, or
/// else that it is invalid, with the reason that was sent. Several records, or one of an
/// unknown kind, are never taken for a used invite.
pub proof fn refusals_are_told_apart(kind: u8, payload: Seq<u8>)
    requires
        payload.len() <= 255,
    ensures
        ({
            let f = refused(record_bytes(kind, payload));
            &&& f is Rejected
            &&& f->Rejected_0 is Consumed <==> kind == 0
            &&& f->Rejected_0 is Invalid <==> kind != 0
        }),
        refused(Seq::empty()) is Unstructured,
{
    let x = RecordView { kind, payload };
    let s = seq![x];
    assert(s.subrange(1, 1) =~= Seq::<RecordView>::empty());
    assert(records_bytes(s.subrange(1, 1)) =~= Seq::<u8>::empty());
    assert(records_bytes(s) =~= record_bytes(kind, payload));
    records_are_read_back(s);
    assert(records_from(Seq::<u8>::empty(), 0) == Ok::<Seq<RecordView>, int>(Seq::empty()));
}

/// The faults of a check that a joiner is told of are five: another fabric, not the root,
/// expired, for someone else, and no proof. Of all others it learns nothing.
pub proof fn some_faults_are_told(e: RosterFault)
    ensures
        emitted(e) is Some <==> e is WrongFabric || e is InviteNotRoot || e is InviteExpired
            || e is InviteRecipientMismatch || e is BadPoP,
        e is InviteNotRoot ==> emitted(e) == Some(KindView::NotRoot),
        e is BadPoP ==> emitted(e) == Some(KindView::BadPoP),
        e is InviteExpired ==> emitted(e) == Some(KindView::Other("invite expired"@)),
        e is InviteRecipientMismatch ==> emitted(e) == Some(KindView::Other("recipient mismatch"@)),
        e is WrongFabric ==> emitted(e)->0 is Other,
{
}

/// A segment carries its items, of more than eight the first eight.
pub proof fn segments_carry_up_to_eight_items(s: Seq<(Seq<char>, Seq<char>)>)
    ensures
        be_value(segment_bytes(s).subrange(0, 4)) == if s.len() <= 8 {
            s.len() as int
        } else {
            8
        },
        segment_bytes(s).subrange(4, segment_bytes(s).len() as int) == items_bytes(
            if s.len() <= 8 {
                s
            } else {
                s.take(8)
            },
        ),
{
    let n = fitting(s).len();
    lemma_be_widths(n as u64);
    let b = segment_bytes(s);
    assert(b.subrange(0, 4) =~= be32(n as u32));
    assert(b.subrange(4, b.len() as int) =~= items_bytes(fitting(s)));
    if s.len() > 8 {
        assert(s.take(8) =~= s.subrange(0, 8));
    }
}

/// Of one item more a joiner takes the capability exactly if it is one, is for the joiner,
/// and no capability for that relay was taken before; else it counts why it did not.
pub proof fn capabilities_are_taken_one_for_each_relay(
    b: Seq<u8>,
    off: int,
    n: nat,
    redeemer: Seq<u8>,
)
    requires
        items_at(b, off, n + 1, redeemer) is Ok,
    ensures
        ({
            let (v, o) = items_at(b, off, n, redeemer)->Ok_0;
            let (w, last) = items_at(b, off, n + 1, redeemer)->Ok_0;
            let (url, o1) = item_url_at(b, o, n)->Ok_0;
            let (cap, o2) = item_cap_at(b, o1, n)->Ok_0;
            let good = cap is Some && cap_of(cap->0) is Ok;
            let own = good && (cap_of(cap->0)->Ok_0).recipient == redeemer;
            let known = exists|i: int| 0 <= i < v.items.len() && (#[trigger] v.items[i]).0 == url;
            &&& items_at(b, off, n, redeemer) is Ok
            &&& last == o2
            &&& w.items == if own && !known {
                v.items.push((url, cap->0))
            } else {
                v.items
            }
            &&& w.malformed == v.malformed + (if good { 0int } else { 1 })
            &&& w.not_recipient == v.not_recipient + (if good && !own { 1int } else { 0 })
            &&& w.duplicate == v.duplicate + (if own && known { 1int } else { 0 })
        }),
{
}

/// Only a first message of its type with a token that can be read begins a redemption.
pub proof fn redemptions_begin_with_a_token(frame_type: u8, payload: Seq<u8>, text: Seq<char>)
    requires
        payload == encode_utf8(text),
    ensures
        intended(frame_type, payload) is Ok <==> frame_type == 0x10 && any_token_of(text) is Ok,
        intended(frame_type, payload) is Ok ==> intended(frame_type, payload)->Ok_0
            == any_token_of(text)->Ok_0,
{
    encode_utf8_valid_utf8(text);
    encode_utf8_decode_utf8(text);
}

/// The capabilities that go with a receipt are those for the relays of the invite, until 90
/// days have passed or the invite ends; a token of the first version, and an issuer without
/// restricted relays, bring none.
pub proof fn receipts_bring_the_relays_of_the_invite(
    m: &RedeemCapMinter,
    t: AnyTokenView,
    redeemer: Seq<u8>,
    now_ms: u64,
)
    ensures
        receipt_caps(None, t, redeemer, now_ms).len() == 0,
        t is V1 ==> receipt_caps(Some(m), t, redeemer, now_ms).len() == 0,
        t matches AnyTokenView::V2(x) ==> receipt_caps(Some(m), t, redeemer, now_ms) == minted(
            m.fabric_id@,
            m.signer@,
            server_views(m.restricted@),
            redeemer,
            x.invite.relays,
            now_ms,
            member_expiry(now_ms, x.invite.expires_at_ms),
        ),
{
}

/// A receipt of the first version is the list of facts; one of the second has the segment of
/// capabilities behind it.
pub proof fn receipts_have_their_form(
    t: AnyTokenView,
    list: Seq<SignedView>,
    caps: Seq<(Seq<char>, Seq<char>)>,
)
    ensures
        t is V1 ==> receipt_of(t, list, caps) == (0x13u8, list_bytes(list)),
        t is V2 ==> receipt_of(t, list, caps) == (0x15u8, list_bytes(list) + segment_bytes(caps)),
{
}

/// The id of the invite of a token is that of the invite.
pub proof fn tokens_name_their_invite(t: AnyTokenView)
    ensures
        t matches AnyTokenView::V1(x) ==> token_invite_id(t) == x.invite.invite_id,
        t matches AnyTokenView::V2(x) ==> token_invite_id(t) == x.invite.invite_id,
{
}

} // verus!
