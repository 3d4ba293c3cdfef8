//! Routing of whole payloads through a router: identifiers are rewritten on
//! the way to the backend and restored on the way back.
use vstd::prelude::*;
use crate::framing::push_all;
use crate::message::{classify, json_fields, json_with_id, kind_of, with_id, IdView, Kind, KindView};
use crate::session::{owner_of, MsgId, RouteError, Router};

verus! {

/// A payload to send to one client.
#[derive(Debug)]
pub struct Delivery {
    pub client: u64,
    pub payload: Vec<u8>,
}

pub open spec fn deliveries_view(d: Seq<Delivery>) -> Seq<(u64, Seq<u8>)> {
    d.map_values(|x: Delivery| (x.client, x.payload@))
}

/// What a broadcast of `p` to `clients` sends.
pub open spec fn broadcast_of(clients: Seq<u64>, p: Seq<u8>) -> Seq<(u64, Seq<u8>)> {
    clients.map_values(|c: u64| (c, p))
}

fn to_vec(p: &[u8]) -> (r: Vec<u8>)
    ensures
        r@ == p@,
{
    let mut out: Vec<u8> = Vec::new();
    push_all(&mut out, p);
    out
}

/// Handles a payload that client `c` sent: a request is recorded and gets
/// a synthetic identifier, and the payload to write to the backend is
/// returned; other messages pass unchanged.
pub fn from_client(router: &mut Router, c: u64, payload: &[u8]) -> (r: Result<Vec<u8>, RouteError>)
    requires
        old(router)@.wf(),
    ensures
        final(router)@.wf(),
        ({
            let o = old(router)@;
            let n = final(router)@;
            if !o.clients.contains(c) {
                r == Err::<Vec<u8>, RouteError>(RouteError::UnknownClient) && n == o
            } else {
                match kind_of(json_fields(payload@)) {
                    None => r == Err::<Vec<u8>, RouteError>(RouteError::Malformed) && n == o,
                    Some(KindView::Request(id)) => if o.next_synthetic == i64::MAX {
                        r == Err::<Vec<u8>, RouteError>(RouteError::Exhausted) && n == o
                    } else {
                        match json_with_id(payload@, IdView::Num(o.next_synthetic as int)) {
                            None => r == Err::<Vec<u8>, RouteError>(RouteError::Malformed) && n == o,
                            Some(out) => {
                                &&& r matches Ok(v) && v@ == out
                                &&& n.pending.len() == o.pending.len() + 1
                                &&& n.pending.last().original@ == id
                                &&& n == o.request(c, n.pending.last().original)
                            },
                        }
                    },
                    Some(_) => r matches Ok(v) && v@ == payload@ && n == o,
                }
            }
        }),
{
    if !router.has_client(c) {
        return Err(RouteError::UnknownClient);
    }
    match classify(payload) {
        None => Err(RouteError::Malformed),
        Some(Kind::Request(id)) => {
            let s = router.next_synthetic();
            if s == i64::MAX {
                return Err(RouteError::Exhausted);
            }
            match with_id(payload, &MsgId::Num(s)) {
                None => Err(RouteError::Malformed),
                Some(out) => {
                    let _s = router.forward_request(c, id);
                    Ok(out)
                },
            }
        },
        Some(_) => Ok(to_vec(payload)),
    }
}

/// Handles a payload that the backend sent. A response goes, with its
/// client's own identifier restored, to the client that sent the request,
/// and to nobody when that client has left; a notification (or a request of
/// the backend's) goes unchanged to every attached client.
pub fn from_backend(router: &mut Router, payload: &[u8]) -> (r: Vec<Delivery>)
    requires
        old(router)@.wf(),
    ensures
        final(router)@.wf(),
        ({
            let o = old(router)@;
            let n = final(router)@;
            match kind_of(json_fields(payload@)) {
                Some(KindView::Response(IdView::Num(s))) => match owner_of(o.pending, s as i64) {
                    Some(e) => n == o.response(s as i64) && deliveries_view(r@) == match json_with_id(
                        payload@,
                        e.original@,
                    ) {
                        Some(out) => seq![(e.client, out)],
                        None => Seq::empty(),
                    },
                    None => n == o.response(s as i64) && r@.len() == 0,
                },
                Some(KindView::Response(IdView::Str(_))) => n == o && r@.len() == 0,
                None => n == o && r@.len() == 0,
                Some(_) => n == o && deliveries_view(r@) == broadcast_of(o.clients, payload@),
            }
        }),
{
    let mut out: Vec<Delivery> = Vec::new();
    match classify(payload) {
        Some(Kind::Response(MsgId::Num(s))) => {
            match router.take_response(s) {
                Some((c, orig)) => {
                    match with_id(payload, &orig) {
                        Some(p) => {
                            out.push(Delivery { client: c, payload: p });
                            proof {
                                assert(deliveries_view(out@) =~= seq![(c, p@)]);
                            }
                        },
                        None => {},
                    }
                },
                None => {},
            }
        },
        Some(Kind::Response(MsgId::Str(_))) => {},
        None => {},
        Some(_) => {
            let clients = router.clients();
            let mut i: usize = 0;
            while i < clients.len()
                invariant
                    i <= clients@.len(),
                    out@.len() == i,
                    deliveries_view(out@) == broadcast_of(clients@.take(i as int), payload@),
                decreases clients@.len() - i,
            {
                let ghost before = out@;
                out.push(Delivery { client: clients[i], payload: to_vec(payload) });
                i = i + 1;
                proof {
                    let a = deliveries_view(out@);
                    let b = broadcast_of(clients@.take(i as int), payload@);
                    assert(a.len() == b.len());
                    assert forall|j: int| 0 <= j < a.len() implies a[j] == b[j] by {
                        if j < i - 1 {
                            assert(out@[j] == before[j]);
                            assert(deliveries_view(before)[j] == broadcast_of(clients@.take(i - 1), payload@)[j]);
                        }
                    }
                    assert(a =~= b);
                }
            }
            proof {
                assert(clients@.take(i as int) =~= clients@);
            }
        },
    }
    out
}

} // verus!
