//! Laws of the message model: converting a well-formed message to a
//! frame and back is the identity, modeled fields and extra-header order
//! both preserved.

use crate::frame::{key_idx, lemma_key_idx_is, lemma_key_idx_none, lemma_seq_find_is};
use crate::message::{
    ack_value, drop_used, from_frame_from_server_spec, from_frame_to_server_spec, heartbeat_value,
    k_accept_version, k_ack, k_destination, k_heart_beat, k_host, k_id, k_login, k_message,
    k_passcode, k_receipt, k_receipt_id, k_transaction, parse_ack, parse_heartbeat, parse_u32,
    to_frame_from_server_spec, to_frame_to_server_spec, AckMode, FromServerView, MessageError,
    MessageView, ToServerView, COMMA,
};
use crate::num::{
    dec_seq, is_digit, lemma_dec_seq_digits, lemma_dec_seq_len, lemma_digits_val_dec_seq,
    lemma_pow10_20,
};
use vstd::prelude::*;

verus! {

/// Every key a variant may consume, whether or not the optional field is
/// present. An extra header under one of these keys would be captured by
/// the modeled field on the way back; a well-formed message avoids them.
pub open spec fn modeled_keys_to_server(c: ToServerView) -> Seq<Seq<u8>> {
    match c {
        ToServerView::Connect { .. } => seq![
            k_accept_version(),
            k_host(),
            k_login(),
            k_passcode(),
            k_heart_beat(),
        ],
        ToServerView::Send { .. } => seq![k_destination(), k_transaction()],
        ToServerView::Subscribe { .. } => seq![k_destination(), k_id(), k_ack()],
        ToServerView::Unsubscribe { .. } => seq![k_id()],
        ToServerView::Begin { .. } => seq![k_transaction()],
        ToServerView::Commit { .. } => seq![k_transaction()],
        ToServerView::Abort { .. } => seq![k_transaction()],
        ToServerView::Ack { .. } => seq![k_id(), k_transaction()],
        ToServerView::Nack { .. } => seq![k_id(), k_transaction()],
        ToServerView::Disconnect { .. } => seq![k_receipt()],
    }
}

pub open spec fn modeled_keys_from_server(c: FromServerView) -> Seq<Seq<u8>> {
    match c {
        FromServerView::Connected => Seq::empty(),
        FromServerView::Message { .. } => seq![k_destination()],
        FromServerView::Receipt { .. } => seq![k_receipt_id()],
        FromServerView::Error { .. } => seq![k_message()],
    }
}

/// No extra header shadows a key its variant models.
pub open spec fn msg_wf_to_server(m: MessageView<ToServerView>) -> bool {
    forall|j: int|
        0 <= j < m.extra_headers.len() ==> !modeled_keys_to_server(m.content).contains(
            m.extra_headers[j].0,
        )
}

pub open spec fn msg_wf_from_server(m: MessageView<FromServerView>) -> bool {
    forall|j: int|
        0 <= j < m.extra_headers.len() ==> !modeled_keys_from_server(m.content).contains(
            m.extra_headers[j].0,
        )
}

/// Dropping every index of a list empties it.
proof fn lemma_drop_used_all(a: Seq<(Seq<u8>, Seq<u8>)>, used: Seq<int>)
    requires
        forall|i: int| 0 <= i < a.len() ==> used.contains(i),
    ensures
        drop_used(a, used) == Seq::<(Seq<u8>, Seq<u8>)>::empty(),
    decreases a.len(),
{
    if a.len() > 0 {
        lemma_drop_used_all(a.drop_last(), used);
    }
}

/// Dropping exactly the indices of a consumed prefix keeps the suffix.
pub proof fn lemma_drop_used_suffix(
    a: Seq<(Seq<u8>, Seq<u8>)>,
    b: Seq<(Seq<u8>, Seq<u8>)>,
    used: Seq<int>,
)
    requires
        forall|i: int| 0 <= i < a.len() ==> used.contains(i),
        forall|i: int| a.len() <= i < a.len() + b.len() ==> !used.contains(i),
    ensures
        drop_used(a + b, used) == b,
    decreases b.len(),
{
    if b.len() == 0 {
        assert(a + b =~= a);
        lemma_drop_used_all(a, used);
        assert(drop_used(a + b, used) =~= b);
    } else {
        assert((a + b).drop_last() =~= a + b.drop_last());
        assert((a + b).last() == b.last());
        assert(!used.contains((a + b).len() - 1));
        lemma_drop_used_suffix(a, b.drop_last(), used);
        assert(b.drop_last() + seq![b.last()] =~= b);
    }
}

/// An acknowledgement mode round-trips through its wire value.
pub proof fn lemma_ack_round(m: AckMode)
    ensures
        parse_ack(ack_value(m)) == Some(m),
{
    assert(ack_value(AckMode::Auto).len() == 4);
    assert(ack_value(AckMode::Client).len() == 6);
    assert(ack_value(AckMode::ClientIndividual).len() == 17);
}

/// A `heart-beat` pair round-trips through its wire value.
pub proof fn lemma_heartbeat_round(a: u32, b: u32)
    ensures
        parse_heartbeat(heartbeat_value(a, b)) == Some((a, b)),
{
    let da = dec_seq(a as nat);
    let db = dec_seq(b as nat);
    let v = heartbeat_value(a, b);
    lemma_dec_seq_digits(a as nat);
    lemma_dec_seq_digits(b as nat);
    lemma_pow10_20();
    lemma_dec_seq_len(a as nat, 20);
    lemma_dec_seq_len(b as nat, 20);
    lemma_digits_val_dec_seq(a as nat);
    lemma_digits_val_dec_seq(b as nat);
    assert forall|x: int| 0 <= x < da.len() implies v[x] != COMMA by {
        assert(v[x] == da[x]);
        assert(is_digit(da[x]));
    }
    assert(v[da.len() as int] == COMMA);
    lemma_seq_find_is(v, 0, COMMA, da.len() as int);
    assert(v.take(da.len() as int) =~= da);
    assert(v.skip(da.len() as int + 1) =~= db);
    assert(parse_u32(da) == Some(a));
    assert(parse_u32(db) == Some(b));
}

/// A key that no modeled header and no extra header carries is not in
/// the combined list.
proof fn lemma_key_idx_absent(
    md: Seq<(Seq<u8>, Seq<u8>)>,
    extra: Seq<(Seq<u8>, Seq<u8>)>,
    mk: Seq<Seq<u8>>,
    k: Seq<u8>,
)
    requires
        forall|j: int| 0 <= j < extra.len() ==> !mk.contains(extra[j].0),
        mk.contains(k),
        forall|x: int| 0 <= x < md.len() ==> md[x].0 != k,
    ensures
        key_idx(md + extra, k) == md.len() + extra.len(),
{
    let hs = md + extra;
    assert forall|x: int| 0 <= x < hs.len() implies hs[x].0 != k by {
        if x < md.len() {
            assert(hs[x] == md[x]);
        } else {
            assert(hs[x] == extra[x - md.len()]);
            assert(!mk.contains(extra[x - md.len()].0));
        }
    }
    lemma_key_idx_none(hs, k);
}

/// Law: for every well-formed client-bound message, converting it to a
/// frame and reading the frame back yields the same message — modeled
/// fields and extra-header order both preserved.
pub proof fn lemma_message_round_trip_to_server(m: MessageView<ToServerView>)
    requires
        msg_wf_to_server(m),
    ensures
        from_frame_to_server_spec(to_frame_to_server_spec(m)) == Ok::<
            MessageView<ToServerView>,
            MessageError,
        >(m),
{
    let extra = m.extra_headers;
    let mk = modeled_keys_to_server(m.content);
    assert(k_accept_version().len() == 14);
    assert(k_host().len() == 4);
    assert(k_login().len() == 5);
    assert(k_passcode().len() == 8);
    assert(k_heart_beat().len() == 10);
    assert(k_destination().len() == 11);
    assert(k_transaction().len() == 11);
    assert(k_destination()[0] == 100 && k_transaction()[0] == 116);
    assert(k_id().len() == 2);
    assert(k_ack().len() == 3);
    assert(k_receipt().len() == 7);
    match m.content {
        ToServerView::Connect { accept_version, host, login, passcode, heartbeat } => {
            let md = crate::message::to_server_modeled(m.content);
            let hs = md + extra;
            assert(mk[0] == k_accept_version() && mk[1] == k_host() && mk[2] == k_login() && mk[3]
                == k_passcode() && mk[4] == k_heart_beat());
            match (login, passcode, heartbeat) {
                (Some(lv), Some(pv), Some(hbv)) => {
                    assert(md =~= seq![
                        (k_accept_version(), accept_version),
                        (k_host(), host),
                        (k_login(), lv),
                        (k_passcode(), pv),
                        (k_heart_beat(), heartbeat_value(hbv.0, hbv.1)),
                    ]);
                    lemma_key_idx_is(hs, k_accept_version(), 0);
                    lemma_key_idx_is(hs, k_host(), 1);
                    lemma_key_idx_is(hs, k_login(), 2);
                    lemma_key_idx_is(hs, k_passcode(), 3);
                    lemma_key_idx_is(hs, k_heart_beat(), 4);
                    lemma_heartbeat_round(hbv.0, hbv.1);
                    let used = seq![0int, 1int, 2int, 3int, 4int];
                    assert(used.contains(0) && used.contains(1) && used.contains(2)
                        && used.contains(3) && used.contains(4)) by {
                        assert(used[0] == 0 && used[1] == 1 && used[2] == 2 && used[3] == 3
                            && used[4] == 4);
                    }
                    assert forall|i: int| md.len() <= i < hs.len() implies !used.contains(i) by {
                        assert(forall|x: int| 0 <= x < used.len() ==> used[x] < 5);
                    }
                    lemma_drop_used_suffix(md, extra, used);
                    assert(from_frame_to_server_spec(to_frame_to_server_spec(m)) matches Ok(v) && v
                        =~= m);
                },
                (Some(lv), Some(pv), None) => {
                    assert(md =~= seq![
                        (k_accept_version(), accept_version),
                        (k_host(), host),
                        (k_login(), lv),
                        (k_passcode(), pv),
                    ]);
                    lemma_key_idx_is(hs, k_accept_version(), 0);
                    lemma_key_idx_is(hs, k_host(), 1);
                    lemma_key_idx_is(hs, k_login(), 2);
                    lemma_key_idx_is(hs, k_passcode(), 3);
                    assert(mk.contains(k_heart_beat())) by {
                        assert(mk[4] == k_heart_beat());
                    }
                    lemma_key_idx_absent(md, extra, mk, k_heart_beat());
                    let used = seq![0int, 1int, 2int, 3int, hs.len() as int];
                    assert(used.contains(0) && used.contains(1) && used.contains(2)
                        && used.contains(3)) by {
                        assert(used[0] == 0 && used[1] == 1 && used[2] == 2 && used[3] == 3);
                    }
                    assert forall|i: int| md.len() <= i < hs.len() implies !used.contains(i) by {
                        assert(forall|x: int|
                            0 <= x < used.len() ==> used[x] < 4 || used[x] == hs.len());
                    }
                    lemma_drop_used_suffix(md, extra, used);
                    assert(from_frame_to_server_spec(to_frame_to_server_spec(m)) matches Ok(v) && v
                        =~= m);
                },
                (Some(lv), None, Some(hbv)) => {
                    assert(md =~= seq![
                        (k_accept_version(), accept_version),
                        (k_host(), host),
                        (k_login(), lv),
                        (k_heart_beat(), heartbeat_value(hbv.0, hbv.1)),
                    ]);
                    lemma_key_idx_is(hs, k_accept_version(), 0);
                    lemma_key_idx_is(hs, k_host(), 1);
                    lemma_key_idx_is(hs, k_login(), 2);
                    lemma_key_idx_is(hs, k_heart_beat(), 3);
                    assert(mk.contains(k_passcode())) by {
                        assert(mk[3] == k_passcode());
                    }
                    lemma_key_idx_absent(md, extra, mk, k_passcode());
                    lemma_heartbeat_round(hbv.0, hbv.1);
                    let used = seq![0int, 1int, 2int, hs.len() as int, 3int];
                    assert(used.contains(0) && used.contains(1) && used.contains(2)
                        && used.contains(3)) by {
                        assert(used[0] == 0 && used[1] == 1 && used[2] == 2 && used[4] == 3);
                    }
                    assert forall|i: int| md.len() <= i < hs.len() implies !used.contains(i) by {
                        assert(forall|x: int|
                            0 <= x < used.len() ==> used[x] < 4 || used[x] == hs.len());
                    }
                    lemma_drop_used_suffix(md, extra, used);
                    assert(from_frame_to_server_spec(to_frame_to_server_spec(m)) matches Ok(v) && v
                        =~= m);
                },
                (Some(lv), None, None) => {
                    assert(md =~= seq![
                        (k_accept_version(), accept_version),
                        (k_host(), host),
                        (k_login(), lv),
                    ]);
                    lemma_key_idx_is(hs, k_accept_version(), 0);
                    lemma_key_idx_is(hs, k_host(), 1);
                    lemma_key_idx_is(hs, k_login(), 2);
                    assert(mk.contains(k_passcode())) by {
                        assert(mk[3] == k_passcode());
                    }
                    assert(mk.contains(k_heart_beat())) by {
                        assert(mk[4] == k_heart_beat());
                    }
                    lemma_key_idx_absent(md, extra, mk, k_passcode());
                    lemma_key_idx_absent(md, extra, mk, k_heart_beat());
                    let used = seq![0int, 1int, 2int, hs.len() as int, hs.len() as int];
                    assert(used.contains(0) && used.contains(1) && used.contains(2)) by {
                        assert(used[0] == 0 && used[1] == 1 && used[2] == 2);
                    }
                    assert forall|i: int| md.len() <= i < hs.len() implies !used.contains(i) by {
                        assert(forall|x: int|
                            0 <= x < used.len() ==> used[x] < 3 || used[x] == hs.len());
                    }
                    lemma_drop_used_suffix(md, extra, used);
                    assert(from_frame_to_server_spec(to_frame_to_server_spec(m)) matches Ok(v) && v
                        =~= m);
                },
                (None, Some(pv), Some(hbv)) => {
                    assert(md =~= seq![
                        (k_accept_version(), accept_version),
                        (k_host(), host),
                        (k_passcode(), pv),
                        (k_heart_beat(), heartbeat_value(hbv.0, hbv.1)),
                    ]);
                    lemma_key_idx_is(hs, k_accept_version(), 0);
                    lemma_key_idx_is(hs, k_host(), 1);
                    lemma_key_idx_is(hs, k_passcode(), 2);
                    lemma_key_idx_is(hs, k_heart_beat(), 3);
                    assert(mk.contains(k_login())) by {
                        assert(mk[2] == k_login());
                    }
                    lemma_key_idx_absent(md, extra, mk, k_login());
                    lemma_heartbeat_round(hbv.0, hbv.1);
                    let used = seq![0int, 1int, hs.len() as int, 2int, 3int];
                    assert(used.contains(0) && used.contains(1) && used.contains(2)
                        && used.contains(3)) by {
                        assert(used[0] == 0 && used[1] == 1 && used[3] == 2 && used[4] == 3);
                    }
                    assert forall|i: int| md.len() <= i < hs.len() implies !used.contains(i) by {
                        assert(forall|x: int|
                            0 <= x < used.len() ==> used[x] < 4 || used[x] == hs.len());
                    }
                    lemma_drop_used_suffix(md, extra, used);
                    assert(from_frame_to_server_spec(to_frame_to_server_spec(m)) matches Ok(v) && v
                        =~= m);
                },
                (None, Some(pv), None) => {
                    assert(md =~= seq![
                        (k_accept_version(), accept_version),
                        (k_host(), host),
                        (k_passcode(), pv),
                    ]);
                    lemma_key_idx_is(hs, k_accept_version(), 0);
                    lemma_key_idx_is(hs, k_host(), 1);
                    lemma_key_idx_is(hs, k_passcode(), 2);
                    assert(mk.contains(k_login())) by {
                        assert(mk[2] == k_login());
                    }
                    assert(mk.contains(k_heart_beat())) by {
                        assert(mk[4] == k_heart_beat());
                    }
                    lemma_key_idx_absent(md, extra, mk, k_login());
                    lemma_key_idx_absent(md, extra, mk, k_heart_beat());
                    let used = seq![0int, 1int, hs.len() as int, 2int, hs.len() as int];
                    assert(used.contains(0) && used.contains(1) && used.contains(2)) by {
                        assert(used[0] == 0 && used[1] == 1 && used[3] == 2);
                    }
                    assert forall|i: int| md.len() <= i < hs.len() implies !used.contains(i) by {
                        assert(forall|x: int|
                            0 <= x < used.len() ==> used[x] < 3 || used[x] == hs.len());
                    }
                    lemma_drop_used_suffix(md, extra, used);
                    assert(from_frame_to_server_spec(to_frame_to_server_spec(m)) matches Ok(v) && v
                        =~= m);
                },
                (None, None, Some(hbv)) => {
                    assert(md =~= seq![
                        (k_accept_version(), accept_version),
                        (k_host(), host),
                        (k_heart_beat(), heartbeat_value(hbv.0, hbv.1)),
                    ]);
                    lemma_key_idx_is(hs, k_accept_version(), 0);
                    lemma_key_idx_is(hs, k_host(), 1);
                    lemma_key_idx_is(hs, k_heart_beat(), 2);
                    assert(mk.contains(k_login())) by {
                        assert(mk[2] == k_login());
                    }
                    assert(mk.contains(k_passcode())) by {
                        assert(mk[3] == k_passcode());
                    }
                    lemma_key_idx_absent(md, extra, mk, k_login());
                    lemma_key_idx_absent(md, extra, mk, k_passcode());
                    lemma_heartbeat_round(hbv.0, hbv.1);
                    let used = seq![0int, 1int, hs.len() as int, hs.len() as int, 2int];
                    assert(used.contains(0) && used.contains(1) && used.contains(2)) by {
                        assert(used[0] == 0 && used[1] == 1 && used[4] == 2);
                    }
                    assert forall|i: int| md.len() <= i < hs.len() implies !used.contains(i) by {
                        assert(forall|x: int|
                            0 <= x < used.len() ==> used[x] < 3 || used[x] == hs.len());
                    }
                    lemma_drop_used_suffix(md, extra, used);
                    assert(from_frame_to_server_spec(to_frame_to_server_spec(m)) matches Ok(v) && v
                        =~= m);
                },
                (None, None, None) => {
                    assert(md =~= seq![(k_accept_version(), accept_version), (k_host(), host)]);
                    lemma_key_idx_is(hs, k_accept_version(), 0);
                    lemma_key_idx_is(hs, k_host(), 1);
                    assert(mk.contains(k_login())) by {
                        assert(mk[2] == k_login());
                    }
                    assert(mk.contains(k_passcode())) by {
                        assert(mk[3] == k_passcode());
                    }
                    assert(mk.contains(k_heart_beat())) by {
                        assert(mk[4] == k_heart_beat());
                    }
                    lemma_key_idx_absent(md, extra, mk, k_login());
                    lemma_key_idx_absent(md, extra, mk, k_passcode());
                    lemma_key_idx_absent(md, extra, mk, k_heart_beat());
                    let used = seq![
                        0int,
                        1int,
                        hs.len() as int,
                        hs.len() as int,
                        hs.len() as int,
                    ];
                    assert(used.contains(0) && used.contains(1)) by {
                        assert(used[0] == 0 && used[1] == 1);
                    }
                    assert forall|i: int| md.len() <= i < hs.len() implies !used.contains(i) by {
                        assert(forall|x: int|
                            0 <= x < used.len() ==> used[x] < 2 || used[x] == hs.len());
                    }
                    lemma_drop_used_suffix(md, extra, used);
                    assert(from_frame_to_server_spec(to_frame_to_server_spec(m)) matches Ok(v) && v
                        =~= m);
                },
            }
        },
        ToServerView::Send { destination, transaction, body } => {
            let md = crate::message::to_server_modeled(m.content);
            let hs = md + extra;
            assert(mk[0] == k_destination() && mk[1] == k_transaction());
            match transaction {
                Some(tv) => {
                    assert(md =~= seq![(k_destination(), destination), (k_transaction(), tv)]);
                    lemma_key_idx_is(hs, k_destination(), 0);
                    lemma_key_idx_is(hs, k_transaction(), 1);
                    let used = seq![0int, 1int];
                    assert(used.contains(0) && used.contains(1)) by {
                        assert(used[0] == 0 && used[1] == 1);
                    }
                    assert forall|i: int| md.len() <= i < hs.len() implies !used.contains(i) by {
                        assert(forall|x: int| 0 <= x < used.len() ==> used[x] < 2);
                    }
                    lemma_drop_used_suffix(md, extra, used);
                    assert(from_frame_to_server_spec(to_frame_to_server_spec(m)) matches Ok(v) && v
                        =~= m);
                },
                None => {
                    assert(md =~= seq![(k_destination(), destination)]);
                    lemma_key_idx_is(hs, k_destination(), 0);
                    assert(mk.contains(k_transaction())) by {
                        assert(mk[1] == k_transaction());
                    }
                    lemma_key_idx_absent(md, extra, mk, k_transaction());
                    let used = seq![0int, hs.len() as int];
                    assert(used.contains(0)) by {
                        assert(used[0] == 0);
                    }
                    assert forall|i: int| md.len() <= i < hs.len() implies !used.contains(i) by {
                        assert(forall|x: int|
                            0 <= x < used.len() ==> used[x] < 1 || used[x] == hs.len());
                    }
                    lemma_drop_used_suffix(md, extra, used);
                    assert(from_frame_to_server_spec(to_frame_to_server_spec(m)) matches Ok(v) && v
                        =~= m);
                },
            }
        },
        ToServerView::Subscribe { destination, id, ack } => {
            let md = crate::message::to_server_modeled(m.content);
            let hs = md + extra;
            assert(mk[0] == k_destination() && mk[1] == k_id() && mk[2] == k_ack());
            match ack {
                Some(am) => {
                    assert(md =~= seq![
                        (k_destination(), destination),
                        (k_id(), id),
                        (k_ack(), ack_value(am)),
                    ]);
                    lemma_key_idx_is(hs, k_destination(), 0);
                    lemma_key_idx_is(hs, k_id(), 1);
                    lemma_key_idx_is(hs, k_ack(), 2);
                    lemma_ack_round(am);
                    let used = seq![0int, 1int, 2int];
                    assert(used.contains(0) && used.contains(1) && used.contains(2)) by {
                        assert(used[0] == 0 && used[1] == 1 && used[2] == 2);
                    }
                    assert forall|i: int| md.len() <= i < hs.len() implies !used.contains(i) by {
                        assert(forall|x: int| 0 <= x < used.len() ==> used[x] < 3);
                    }
                    lemma_drop_used_suffix(md, extra, used);
                    assert(from_frame_to_server_spec(to_frame_to_server_spec(m)) matches Ok(v) && v
                        =~= m);
                },
                None => {
                    assert(md =~= seq![(k_destination(), destination), (k_id(), id)]);
                    lemma_key_idx_is(hs, k_destination(), 0);
                    lemma_key_idx_is(hs, k_id(), 1);
                    assert(mk.contains(k_ack())) by {
                        assert(mk[2] == k_ack());
                    }
                    lemma_key_idx_absent(md, extra, mk, k_ack());
                    let used = seq![0int, 1int, hs.len() as int];
                    assert(used.contains(0) && used.contains(1)) by {
                        assert(used[0] == 0 && used[1] == 1);
                    }
                    assert forall|i: int| md.len() <= i < hs.len() implies !used.contains(i) by {
                        assert(forall|x: int|
                            0 <= x < used.len() ==> used[x] < 2 || used[x] == hs.len());
                    }
                    lemma_drop_used_suffix(md, extra, used);
                    assert(from_frame_to_server_spec(to_frame_to_server_spec(m)) matches Ok(v) && v
                        =~= m);
                },
            }
        },
        ToServerView::Unsubscribe { id } => {
            let md = crate::message::to_server_modeled(m.content);
            let hs = md + extra;
            assert(md =~= seq![(k_id(), id)]);
            lemma_key_idx_is(hs, k_id(), 0);
            let used = seq![0int];
            assert(used.contains(0)) by {
                assert(used[0] == 0);
            }
            assert forall|i: int| md.len() <= i < hs.len() implies !used.contains(i) by {
                assert(forall|x: int| 0 <= x < used.len() ==> used[x] < 1);
            }
            lemma_drop_used_suffix(md, extra, used);
            assert(from_frame_to_server_spec(to_frame_to_server_spec(m)) matches Ok(v) && v =~= m);
        },
        ToServerView::Begin { transaction } => {
            let md = crate::message::to_server_modeled(m.content);
            let hs = md + extra;
            assert(md =~= seq![(k_transaction(), transaction)]);
            lemma_key_idx_is(hs, k_transaction(), 0);
            let used = seq![0int];
            assert(used.contains(0)) by {
                assert(used[0] == 0);
            }
            assert forall|i: int| md.len() <= i < hs.len() implies !used.contains(i) by {
                assert(forall|x: int| 0 <= x < used.len() ==> used[x] < 1);
            }
            lemma_drop_used_suffix(md, extra, used);
            assert(from_frame_to_server_spec(to_frame_to_server_spec(m)) matches Ok(v) && v =~= m);
        },
        ToServerView::Commit { transaction } => {
            let md = crate::message::to_server_modeled(m.content);
            let hs = md + extra;
            assert(md =~= seq![(k_transaction(), transaction)]);
            lemma_key_idx_is(hs, k_transaction(), 0);
            let used = seq![0int];
            assert(used.contains(0)) by {
                assert(used[0] == 0);
            }
            assert forall|i: int| md.len() <= i < hs.len() implies !used.contains(i) by {
                assert(forall|x: int| 0 <= x < used.len() ==> used[x] < 1);
            }
            lemma_drop_used_suffix(md, extra, used);
            assert(from_frame_to_server_spec(to_frame_to_server_spec(m)) matches Ok(v) && v =~= m);
        },
        ToServerView::Abort { transaction } => {
            let md = crate::message::to_server_modeled(m.content);
            let hs = md + extra;
            assert(md =~= seq![(k_transaction(), transaction)]);
            lemma_key_idx_is(hs, k_transaction(), 0);
            let used = seq![0int];
            assert(used.contains(0)) by {
                assert(used[0] == 0);
            }
            assert forall|i: int| md.len() <= i < hs.len() implies !used.contains(i) by {
                assert(forall|x: int| 0 <= x < used.len() ==> used[x] < 1);
            }
            lemma_drop_used_suffix(md, extra, used);
            assert(from_frame_to_server_spec(to_frame_to_server_spec(m)) matches Ok(v) && v =~= m);
        },
        ToServerView::Ack { id, transaction } => {
            let md = crate::message::to_server_modeled(m.content);
            let hs = md + extra;
            assert(mk[0] == k_id() && mk[1] == k_transaction());
            match transaction {
                Some(tv) => {
                    assert(md =~= seq![(k_id(), id), (k_transaction(), tv)]);
                    lemma_key_idx_is(hs, k_id(), 0);
                    lemma_key_idx_is(hs, k_transaction(), 1);
                    let used = seq![0int, 1int];
                    assert(used.contains(0) && used.contains(1)) by {
                        assert(used[0] == 0 && used[1] == 1);
                    }
                    assert forall|i: int| md.len() <= i < hs.len() implies !used.contains(i) by {
                        assert(forall|x: int| 0 <= x < used.len() ==> used[x] < 2);
                    }
                    lemma_drop_used_suffix(md, extra, used);
                    assert(from_frame_to_server_spec(to_frame_to_server_spec(m)) matches Ok(v) && v
                        =~= m);
                },
                None => {
                    assert(md =~= seq![(k_id(), id)]);
                    lemma_key_idx_is(hs, k_id(), 0);
                    assert(mk.contains(k_transaction())) by {
                        assert(mk[1] == k_transaction());
                    }
                    lemma_key_idx_absent(md, extra, mk, k_transaction());
                    let used = seq![0int, hs.len() as int];
                    assert(used.contains(0)) by {
                        assert(used[0] == 0);
                    }
                    assert forall|i: int| md.len() <= i < hs.len() implies !used.contains(i) by {
                        assert(forall|x: int|
                            0 <= x < used.len() ==> used[x] < 1 || used[x] == hs.len());
                    }
                    lemma_drop_used_suffix(md, extra, used);
                    assert(from_frame_to_server_spec(to_frame_to_server_spec(m)) matches Ok(v) && v
                        =~= m);
                },
            }
        },
        ToServerView::Nack { id, transaction } => {
            let md = crate::message::to_server_modeled(m.content);
            let hs = md + extra;
            assert(mk[0] == k_id() && mk[1] == k_transaction());
            match transaction {
                Some(tv) => {
                    assert(md =~= seq![(k_id(), id), (k_transaction(), tv)]);
                    lemma_key_idx_is(hs, k_id(), 0);
                    lemma_key_idx_is(hs, k_transaction(), 1);
                    let used = seq![0int, 1int];
                    assert(used.contains(0) && used.contains(1)) by {
                        assert(used[0] == 0 && used[1] == 1);
                    }
                    assert forall|i: int| md.len() <= i < hs.len() implies !used.contains(i) by {
                        assert(forall|x: int| 0 <= x < used.len() ==> used[x] < 2);
                    }
                    lemma_drop_used_suffix(md, extra, used);
                    assert(from_frame_to_server_spec(to_frame_to_server_spec(m)) matches Ok(v) && v
                        =~= m);
                },
                None => {
                    assert(md =~= seq![(k_id(), id)]);
                    lemma_key_idx_is(hs, k_id(), 0);
                    assert(mk.contains(k_transaction())) by {
                        assert(mk[1] == k_transaction());
                    }
                    lemma_key_idx_absent(md, extra, mk, k_transaction());
                    let used = seq![0int, hs.len() as int];
                    assert(used.contains(0)) by {
                        assert(used[0] == 0);
                    }
                    assert forall|i: int| md.len() <= i < hs.len() implies !used.contains(i) by {
                        assert(forall|x: int|
                            0 <= x < used.len() ==> used[x] < 1 || used[x] == hs.len());
                    }
                    lemma_drop_used_suffix(md, extra, used);
                    assert(from_frame_to_server_spec(to_frame_to_server_spec(m)) matches Ok(v) && v
                        =~= m);
                },
            }
        },
        ToServerView::Disconnect { receipt } => {
            let md = crate::message::to_server_modeled(m.content);
            let hs = md + extra;
            assert(mk[0] == k_receipt());
            match receipt {
                Some(rv) => {
                    assert(md =~= seq![(k_receipt(), rv)]);
                    lemma_key_idx_is(hs, k_receipt(), 0);
                    let used = seq![0int];
                    assert(used.contains(0)) by {
                        assert(used[0] == 0);
                    }
                    assert forall|i: int| md.len() <= i < hs.len() implies !used.contains(i) by {
                        assert(forall|x: int| 0 <= x < used.len() ==> used[x] < 1);
                    }
                    lemma_drop_used_suffix(md, extra, used);
                    assert(from_frame_to_server_spec(to_frame_to_server_spec(m)) matches Ok(v) && v
                        =~= m);
                },
                None => {
                    assert(md =~= Seq::<(Seq<u8>, Seq<u8>)>::empty());
                    assert(mk.contains(k_receipt())) by {
                        assert(mk[0] == k_receipt());
                    }
                    lemma_key_idx_absent(md, extra, mk, k_receipt());
                    let used = seq![hs.len() as int];
                    assert forall|i: int| md.len() <= i < hs.len() implies !used.contains(i) by {
                        assert(forall|x: int| 0 <= x < used.len() ==> used[x] == hs.len());
                    }
                    lemma_drop_used_suffix(md, extra, used);
                    assert(from_frame_to_server_spec(to_frame_to_server_spec(m)) matches Ok(v) && v
                        =~= m);
                },
            }
        },
    }
}

/// Law: for every well-formed server-bound message, converting it to a
/// frame and reading the frame back yields the same message.
pub proof fn lemma_message_round_trip_from_server(m: MessageView<FromServerView>)
    requires
        msg_wf_from_server(m),
    ensures
        from_frame_from_server_spec(to_frame_from_server_spec(m)) == Ok::<
            MessageView<FromServerView>,
            MessageError,
        >(m),
{
    let extra = m.extra_headers;
    let mk = modeled_keys_from_server(m.content);
    match m.content {
        FromServerView::Connected => {
            let md = crate::message::from_server_modeled(m.content);
            assert(md + extra =~= extra);
            assert(from_frame_from_server_spec(to_frame_from_server_spec(m)) matches Ok(v) && v
                =~= m);
        },
        FromServerView::Message { destination, body } => {
            let md = crate::message::from_server_modeled(m.content);
            let hs = md + extra;
            assert(md =~= seq![(k_destination(), destination)]);
            lemma_key_idx_is(hs, k_destination(), 0);
            let used = seq![0int];
            assert(used.contains(0)) by {
                assert(used[0] == 0);
            }
            assert forall|i: int| md.len() <= i < hs.len() implies !used.contains(i) by {
                assert(forall|x: int| 0 <= x < used.len() ==> used[x] < 1);
            }
            lemma_drop_used_suffix(md, extra, used);
            assert(from_frame_from_server_spec(to_frame_from_server_spec(m)) matches Ok(v) && v
                =~= m);
        },
        FromServerView::Receipt { receipt_id } => {
            let md = crate::message::from_server_modeled(m.content);
            let hs = md + extra;
            assert(md =~= seq![(k_receipt_id(), receipt_id)]);
            lemma_key_idx_is(hs, k_receipt_id(), 0);
            let used = seq![0int];
            assert(used.contains(0)) by {
                assert(used[0] == 0);
            }
            assert forall|i: int| md.len() <= i < hs.len() implies !used.contains(i) by {
                assert(forall|x: int| 0 <= x < used.len() ==> used[x] < 1);
            }
            lemma_drop_used_suffix(md, extra, used);
            assert(from_frame_from_server_spec(to_frame_from_server_spec(m)) matches Ok(v) && v
                =~= m);
        },
        FromServerView::Error { message, body } => {
            let md = crate::message::from_server_modeled(m.content);
            let hs = md + extra;
            assert(mk[0] == k_message());
            match message {
                Some(mv) => {
                    assert(md =~= seq![(k_message(), mv)]);
                    lemma_key_idx_is(hs, k_message(), 0);
                    let used = seq![0int];
                    assert(used.contains(0)) by {
                        assert(used[0] == 0);
                    }
                    assert forall|i: int| md.len() <= i < hs.len() implies !used.contains(i) by {
                        assert(forall|x: int| 0 <= x < used.len() ==> used[x] < 1);
                    }
                    lemma_drop_used_suffix(md, extra, used);
                    assert(from_frame_from_server_spec(to_frame_from_server_spec(m)) matches Ok(v)
                        && v =~= m);
                },
                None => {
                    assert(md =~= Seq::<(Seq<u8>, Seq<u8>)>::empty());
                    assert(mk.contains(k_message())) by {
                        assert(mk[0] == k_message());
                    }
                    lemma_key_idx_absent(md, extra, mk, k_message());
                    let used = seq![hs.len() as int];
                    assert forall|i: int| md.len() <= i < hs.len() implies !used.contains(i) by {
                        assert(forall|x: int| 0 <= x < used.len() ==> used[x] == hs.len());
                    }
                    lemma_drop_used_suffix(md, extra, used);
                    assert(from_frame_from_server_spec(to_frame_from_server_spec(m)) matches Ok(v)
                        && v =~= m);
                },
            }
        },
    }
}

} // verus!
