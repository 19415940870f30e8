//! How to reach the issuer of an invite.
use vstd::prelude::*;
use vstd::string::*;

use crate::identity::{endpoint_id_display, endpoint_text, EndpointId};
use crate::octets::bytes_eq;
use crate::outside::{relay_url, relay_url_of};
use crate::protocol::invite::{text_views, InviteToken};
use crate::protocol::invite2::{addr_views, relay_views, AddrView, DirectAddr, InviteV2Token, RelayView};
use crate::session::{SessionError, SessionFault};
use crate::text::text_eq;

verus! {

/// An endpoint and the ways to reach it, none of which is there twice.
#[derive(Debug, Clone, PartialEq, Eq)]
pub struct EndpointAddr {
    pub id: EndpointId,
    /// Relays, in their normal form.
    pub relay_urls: Vec<String>,
    pub ip_addrs: Vec<DirectAddr>,
}

/// What an [`EndpointAddr`] says.
#[verifier::ext_equal]
pub struct EndpointAddrView {
    pub id: Seq<u8>,
    pub relay_urls: Seq<Seq<char>>,
    pub ip_addrs: Seq<AddrView>,
}

impl View for EndpointAddr {
    type V = EndpointAddrView;

    open spec fn view(&self) -> EndpointAddrView {
        EndpointAddrView {
            id: self.id@,
            relay_urls: text_views(self.relay_urls@),
            ip_addrs: addr_views(self.ip_addrs@),
        }
    }
}

/// The values that are there, in order.
pub open spec fn present<T>(s: Seq<Option<T>>) -> Seq<T>
    decreases s.len(),
{
    if s.len() == 0 {
        Seq::empty()
    } else {
        match s.last() {
            Some(x) => present(s.drop_last()).push(x),
            None => present(s.drop_last()),
        }
    }
}

/// The values of a list in the order in which they first occur, each once.
pub open spec fn firsts<T>(s: Seq<T>) -> Seq<T>
    decreases s.len(),
{
    if s.len() == 0 {
        Seq::empty()
    } else {
        let before = firsts(s.drop_last());
        if before.contains(s.last()) {
            before
        } else {
            before.push(s.last())
        }
    }
}

/// A list has the values of its first occurrences, which are different from each other.
pub proof fn firsts_are_the_values<T>(s: Seq<T>)
    ensures
        firsts(s).no_duplicates(),
        forall|x: T| #[trigger] firsts(s).contains(x) <==> s.contains(x),
        firsts(s).len() == 0 <==> s.len() == 0,
    decreases s.len(),
{
    if s.len() > 0 {
        let front = s.drop_last();
        let before = firsts(front);
        firsts_are_the_values(front);
        assert forall|x: T| #[trigger] firsts(s).contains(x) <==> s.contains(x) by {
            if s.contains(x) {
                let i = choose|i: int| 0 <= i < s.len() && s[i] == x;
                if i < front.len() {
                    assert(front[i] == x);
                    assert(before.contains(x));
                    let j = choose|j: int| 0 <= j < before.len() && before[j] == x;
                    assert(firsts(s)[j] == x);
                } else if !before.contains(x) {
                    assert(firsts(s)[before.len() as int] == x);
                }
            }
            if firsts(s).contains(x) {
                let j = choose|j: int| 0 <= j < firsts(s).len() && firsts(s)[j] == x;
                if j < before.len() {
                    assert(before[j] == x);
                    assert(before.contains(x));
                    assert(front.contains(x));
                    let i = choose|i: int| 0 <= i < front.len() && front[i] == x;
                    assert(s[i] == x);
                } else {
                    assert(s[s.len() - 1] == x);
                }
            }
        }
        if s.len() == 1 {
            assert(before =~= Seq::<T>::empty());
        }
    }
}

/// The address with the given ways, if there is any.
pub open spec fn reachable(id: Seq<u8>, relay_urls: Seq<Seq<char>>, ip_addrs: Seq<AddrView>) -> Result<
    EndpointAddrView,
    SessionFault,
> {
    if relay_urls.len() == 0 && ip_addrs.len() == 0 {
        Err(SessionFault::NoAddressingInfo(endpoint_text(id)))
    } else {
        Ok(
            EndpointAddrView {
                id,
                relay_urls: firsts(relay_urls),
                ip_addrs: firsts(ip_addrs),
            },
        )
    }
}

/// The values that are there are those of the list.
pub proof fn present_are_the_values<T>(s: Seq<Option<T>>)
    ensures
        forall|x: T| #[trigger] present(s).contains(x) <==> s.contains(Some(x)),
    decreases s.len(),
{
    if s.len() > 0 {
        let front = s.drop_last();
        let before = present(front);
        present_are_the_values(front);
        assert forall|x: T| #[trigger] present(s).contains(x) <==> s.contains(Some(x)) by {
            if s.contains(Some(x)) {
                let i = choose|i: int| 0 <= i < s.len() && s[i] == Some(x);
                if i < front.len() {
                    assert(front[i] == Some(x));
                    assert(before.contains(x));
                    let j = choose|j: int| 0 <= j < before.len() && before[j] == x;
                    assert(present(s)[j] == x);
                } else {
                    assert(present(s)[before.len() as int] == x);
                }
            }
            if present(s).contains(x) {
                let j = choose|j: int| 0 <= j < present(s).len() && present(s)[j] == x;
                if j < before.len() {
                    assert(before[j] == x);
                    assert(before.contains(x));
                    let i = choose|i: int| 0 <= i < front.len() && front[i] == Some(x);
                    assert(s[i] == Some(x));
                } else {
                    assert(s[s.len() - 1] == Some(x));
                }
            }
        }
    }
}

/// One way is enough: an endpoint can be reached if some relay text is a relay URL or some
/// address is one, and only where there is neither it is refused. Its address names the
/// endpoint, and every way that was found and no other.
pub proof fn one_way_is_enough(
    id: Seq<u8>,
    relays: Seq<Option<Seq<char>>>,
    addrs: Seq<Option<AddrView>>,
)
    ensures
        ({
            let r = reachable(id, present(relays), present(addrs));
            let some_way = {
                ||| exists|i: int| 0 <= i < relays.len() && (#[trigger] relays[i]) is Some
                ||| exists|i: int| 0 <= i < addrs.len() && (#[trigger] addrs[i]) is Some
            };
            &&& r is Ok <==> some_way
            &&& r is Err <==> r == Err::<EndpointAddrView, SessionFault>(
                SessionFault::NoAddressingInfo(endpoint_text(id)),
            )
            &&& r is Ok ==> {
                &&& (r->Ok_0).id == id
                &&& forall|u: Seq<char>| #[trigger]
                    (r->Ok_0).relay_urls.contains(u) <==> relays.contains(Some(u))
                &&& forall|a: AddrView| #[trigger]
                    (r->Ok_0).ip_addrs.contains(a) <==> addrs.contains(Some(a))
            }
        }),
{
    let us = present(relays);
    let ips = present(addrs);
    present_are_the_values(relays);
    present_are_the_values(addrs);
    firsts_are_the_values(us);
    firsts_are_the_values(ips);
    if us.len() > 0 {
        assert(us.contains(us[0]));
        let i = choose|i: int| 0 <= i < relays.len() && relays[i] == Some(us[0]);
        assert(relays[i] is Some);
    }
    if ips.len() > 0 {
        assert(ips.contains(ips[0]));
        let i = choose|i: int| 0 <= i < addrs.len() && addrs[i] == Some(ips[0]);
        assert(addrs[i] is Some);
    }
    if exists|i: int| 0 <= i < relays.len() && (#[trigger] relays[i]) is Some {
        let i = choose|i: int| 0 <= i < relays.len() && (#[trigger] relays[i]) is Some;
        assert(relays.contains(Some(relays[i]->0)));
        assert(us.contains(relays[i]->0));
    }
    if exists|i: int| 0 <= i < addrs.len() && (#[trigger] addrs[i]) is Some {
        let i = choose|i: int| 0 <= i < addrs.len() && (#[trigger] addrs[i]) is Some;
        assert(addrs.contains(Some(addrs[i]->0)));
        assert(ips.contains(addrs[i]->0));
    }
}

/// The same where all addresses are addresses, as in an invite of the second version.
pub proof fn one_way_is_enough_v2(id: Seq<u8>, relays: Seq<Option<Seq<char>>>, addrs: Seq<AddrView>)
    ensures
        ({
            let r = reachable(id, present(relays), addrs);
            let some_way = {
                ||| exists|i: int| 0 <= i < relays.len() && (#[trigger] relays[i]) is Some
                ||| addrs.len() > 0
            };
            &&& r is Ok <==> some_way
            &&& r is Ok ==> {
                &&& (r->Ok_0).id == id
                &&& forall|u: Seq<char>| #[trigger]
                    (r->Ok_0).relay_urls.contains(u) <==> relays.contains(Some(u))
                &&& forall|a: AddrView| #[trigger]
                    (r->Ok_0).ip_addrs.contains(a) <==> addrs.contains(a)
            }
        }),
{
    let us = present(relays);
    present_are_the_values(relays);
    firsts_are_the_values(us);
    firsts_are_the_values(addrs);
    if us.len() > 0 {
        assert(us.contains(us[0]));
        let i = choose|i: int| 0 <= i < relays.len() && relays[i] == Some(us[0]);
        assert(relays[i] is Some);
    }
    if exists|i: int| 0 <= i < relays.len() && (#[trigger] relays[i]) is Some {
        let i = choose|i: int| 0 <= i < relays.len() && (#[trigger] relays[i]) is Some;
        assert(relays.contains(Some(relays[i]->0)));
        assert(us.contains(relays[i]->0));
    }
}

impl EndpointAddr {
    /// No way is there twice.
    pub open spec fn wf(&self) -> bool {
        self@.relay_urls.no_duplicates() && self@.ip_addrs.no_duplicates()
    }
}

fn first_texts(v: &Vec<String>) -> (r: Vec<String>)
    ensures
        text_views(r@) == firsts(text_views(v@)),
{
    let ghost all = text_views(v@);
    let mut out: Vec<String> = Vec::new();
    let mut i: usize = 0;
    proof {
        assert(all.subrange(0, 0) =~= Seq::<Seq<char>>::empty());
        assert(text_views(out@) =~= Seq::<Seq<char>>::empty());
    }
    while i < v.len()
        invariant
            i <= v@.len(),
            all == text_views(v@),
            text_views(out@) == firsts(all.subrange(0, i as int)),
        decreases v@.len() - i,
    {
        let ghost before = text_views(out@);
        let mut seen = false;
        let mut k: usize = 0;
        while k < out.len()
            invariant
                k <= out@.len(),
                i < v@.len(),
                all == text_views(v@),
                before == text_views(out@),
                seen ==> before.contains(all[i as int]),
                !seen ==> forall|j: int| 0 <= j < k ==> #[trigger] before[j] != all[i as int],
            decreases out@.len() - k,
        {
            if text_eq(out[k].as_str(), v[i].as_str()) {
                assert(before[k as int] == all[i as int]);
                seen = true;
            }
            k = k + 1;
        }
        proof {
            let t = all.subrange(0, i + 1);
            assert(t.drop_last() =~= all.subrange(0, i as int));
            assert(t.last() == all[i as int]);
        }
        if !seen {
            let c = v[i].clone();
            let ghost x = c@;
            out.push(c);
            assert(text_views(out@) =~= before.push(x));
        }
        i = i + 1;
    }
    assert(all.subrange(0, i as int) =~= all);
    out
}

fn same_addr(a: &DirectAddr, b: &DirectAddr) -> (r: bool)
    ensures
        r == (a@ == b@),
{
    match (a, b) {
        (DirectAddr::V4 { ip: x, port: p }, DirectAddr::V4 { ip: y, port: q }) => *p == *q
            && bytes_eq(x, y),
        (DirectAddr::V6 { ip: x, port: p }, DirectAddr::V6 { ip: y, port: q }) => *p == *q
            && bytes_eq(x, y),
        _ => false,
    }
}

fn first_addrs(v: &Vec<DirectAddr>) -> (r: Vec<DirectAddr>)
    ensures
        addr_views(r@) == firsts(addr_views(v@)),
{
    let ghost all = addr_views(v@);
    let mut out: Vec<DirectAddr> = Vec::new();
    let mut i: usize = 0;
    proof {
        assert(all.subrange(0, 0) =~= Seq::<AddrView>::empty());
        assert(addr_views(out@) =~= Seq::<AddrView>::empty());
    }
    while i < v.len()
        invariant
            i <= v@.len(),
            all == addr_views(v@),
            addr_views(out@) == firsts(all.subrange(0, i as int)),
        decreases v@.len() - i,
    {
        let ghost before = addr_views(out@);
        let mut seen = false;
        let mut k: usize = 0;
        while k < out.len()
            invariant
                k <= out@.len(),
                i < v@.len(),
                all == addr_views(v@),
                before == addr_views(out@),
                seen ==> before.contains(all[i as int]),
                !seen ==> forall|j: int| 0 <= j < k ==> #[trigger] before[j] != all[i as int],
            decreases out@.len() - k,
        {
            if same_addr(&out[k], &v[i]) {
                assert(before[k as int] == all[i as int]);
                seen = true;
            }
            k = k + 1;
        }
        proof {
            let t = all.subrange(0, i + 1);
            assert(t.drop_last() =~= all.subrange(0, i as int));
            assert(t.last() == all[i as int]);
        }
        if !seen {
            let a = v[i];
            out.push(a);
            assert(addr_views(out@) =~= before.push(a@));
        }
        i = i + 1;
    }
    assert(all.subrange(0, i as int) =~= all);
    out
}

/// An endpoint with the ways to reach it; there must be one.
pub fn address(id: EndpointId, relay_urls: Vec<String>, ip_addrs: Vec<DirectAddr>) -> (r: Result<
    EndpointAddr,
    SessionError,
>)
    ensures
        match reachable(id@, text_views(relay_urls@), addr_views(ip_addrs@)) {
            Ok(a) => r is Ok && r->Ok_0@ == a,
            Err(e) => r is Err && r->Err_0@ == e,
        },
        r is Ok ==> r->Ok_0.wf(),
{
    if relay_urls.len() == 0 && ip_addrs.len() == 0 {
        Err(SessionError::NoAddressingInfo(endpoint_id_display(&id)))
    } else {
        proof {
            firsts_are_the_values(text_views(relay_urls@));
            firsts_are_the_values(addr_views(ip_addrs@));
        }
        Ok(
            EndpointAddr {
                id,
                relay_urls: first_texts(&relay_urls),
                ip_addrs: first_addrs(&ip_addrs),
            },
        )
    }
}

pub open spec fn opt_addr_views(s: Seq<Option<DirectAddr>>) -> Seq<Option<AddrView>> {
    Seq::new(
        s.len(),
        |i: int|
            match s[i] {
                Some(a) => Some(a@),
                None => None,
            },
    )
}

fn present_addrs(addrs: &[Option<DirectAddr>]) -> (r: Vec<DirectAddr>)
    ensures
        addr_views(r@) == present(opt_addr_views(addrs@)),
{
    let ghost all = opt_addr_views(addrs@);
    let mut out: Vec<DirectAddr> = Vec::new();
    let mut i: usize = 0;
    proof {
        assert(all.subrange(0, 0) =~= Seq::<Option<AddrView>>::empty());
        assert(addr_views(out@) =~= Seq::<AddrView>::empty());
    }
    while i < addrs.len()
        invariant
            i <= addrs@.len(),
            all == opt_addr_views(addrs@),
            addr_views(out@) == present(all.subrange(0, i as int)),
        decreases addrs@.len() - i,
    {
        proof {
            let t = all.subrange(0, i + 1);
            assert(t.drop_last() =~= all.subrange(0, i as int));
            assert(t.last() == all[i as int]);
        }
        match addrs[i] {
            Some(a) => {
                let ghost before = addr_views(out@);
                out.push(a);
                assert(addr_views(out@) =~= before.push(a@));
            },
            None => {},
        }
        i = i + 1;
    }
    assert(all.subrange(0, i as int) =~= all);
    out
}

/// The ways to the issuer of an invite: its relay, if the text is a relay URL, and those of
/// its direct addresses that are addresses. `parsed` holds what each direct address is.
pub fn endpoint_addr_from_invite(token: &InviteToken, parsed: &[Option<DirectAddr>]) -> (r: Result<
    EndpointAddr,
    SessionError,
>)
    ensures
        match reachable(
            token@.invite.issuer,
            present(seq![relay_url_of(token@.invite.relay_url)]),
            present(opt_addr_views(parsed@)),
        ) {
            Ok(a) => r is Ok && r->Ok_0@ == a,
            Err(e) => r is Err && r->Err_0@ == e,
        },
        r is Ok ==> r->Ok_0.wf(),
        r is Ok <==> relay_url_of(token@.invite.relay_url) is Some || exists|i: int|
            0 <= i < parsed@.len() && (#[trigger] parsed@[i]) is Some,
        r is Ok ==> r->Ok_0@.id == token@.invite.issuer,
        r is Ok ==> forall|u: Seq<char>| #[trigger]
            r->Ok_0@.relay_urls.contains(u) <==> relay_url_of(token@.invite.relay_url) == Some(u),
{
    proof {
        let us = seq![relay_url_of(token@.invite.relay_url)];
        let ips = opt_addr_views(parsed@);
        one_way_is_enough(token@.invite.issuer, us, ips);
        assert(us[0] == relay_url_of(token@.invite.relay_url));
        assert forall|u: Seq<char>| #[trigger] us.contains(Some(u)) <==> relay_url_of(
            token@.invite.relay_url,
        ) == Some(u) by {
            if relay_url_of(token@.invite.relay_url) == Some(u) {
                assert(us[0] == Some(u));
            }
        }
        assert((exists|i: int| 0 <= i < us.len() && (#[trigger] us[i]) is Some) <==> relay_url_of(
            token@.invite.relay_url,
        ) is Some);
        assert((exists|i: int| 0 <= i < ips.len() && (#[trigger] ips[i]) is Some) <==> exists|i: int|
            0 <= i < parsed@.len() && (#[trigger] parsed@[i]) is Some) by {
            if exists|i: int| 0 <= i < ips.len() && (#[trigger] ips[i]) is Some {
                let i = choose|i: int| 0 <= i < ips.len() && (#[trigger] ips[i]) is Some;
                assert(parsed@[i] is Some);
            }
            if exists|i: int| 0 <= i < parsed@.len() && (#[trigger] parsed@[i]) is Some {
                let i = choose|i: int| 0 <= i < parsed@.len() && (#[trigger] parsed@[i]) is Some;
                assert(ips[i] is Some);
            }
        }
    }
    let mut relay_urls: Vec<String> = Vec::new();
    let found = relay_url(token.invite.issuer_relay_url.as_str());
    proof {
        let s = seq![relay_url_of(token@.invite.relay_url)];
        assert(s.drop_last() =~= Seq::<Option<Seq<char>>>::empty());
        reveal_with_fuel(present, 2);
        assert(text_views(relay_urls@) =~= Seq::<Seq<char>>::empty());
    }
    match found {
        Some(u) => {
            let ghost x = u@;
            relay_urls.push(u);
            assert(text_views(relay_urls@) =~= Seq::<Seq<char>>::empty().push(x));
        },
        None => {},
    }
    address(token.invite.issuer, relay_urls, present_addrs(parsed))
}

/// What each relay of an invite is as a relay URL.
pub open spec fn relay_urls_of(s: Seq<RelayView>) -> Seq<Option<Seq<char>>> {
    Seq::new(s.len(), |i: int| relay_url_of(s[i].url))
}

/// The ways to the issuer of an invite of the second version: those of its relays that are
/// relay URLs, and its direct addresses.
pub fn endpoint_addr_from_invite_v2(token: &InviteV2Token) -> (r: Result<EndpointAddr, SessionError>)
    ensures
        match reachable(
            token@.invite.issuer,
            present(relay_urls_of(token@.invite.relays)),
            token@.invite.addrs,
        ) {
            Ok(a) => r is Ok && r->Ok_0@ == a,
            Err(e) => r is Err && r->Err_0@ == e,
        },
        r is Ok ==> r->Ok_0.wf(),
        r is Ok <==> token@.invite.addrs.len() > 0 || exists|i: int|
            0 <= i < token@.invite.relays.len() && relay_url_of(
                (#[trigger] token@.invite.relays[i]).url,
            ) is Some,
        r is Ok ==> r->Ok_0@.id == token@.invite.issuer,
        r is Ok ==> forall|a: AddrView| #[trigger]
            r->Ok_0@.ip_addrs.contains(a) <==> token@.invite.addrs.contains(a),
{
    proof {
        let us = relay_urls_of(token@.invite.relays);
        one_way_is_enough_v2(token@.invite.issuer, us, token@.invite.addrs);
        if exists|i: int| 0 <= i < us.len() && (#[trigger] us[i]) is Some {
            let i = choose|i: int| 0 <= i < us.len() && (#[trigger] us[i]) is Some;
            assert(relay_url_of(token@.invite.relays[i].url) is Some);
        }
        if exists|i: int|
            0 <= i < token@.invite.relays.len() && relay_url_of(
                (#[trigger] token@.invite.relays[i]).url,
            ) is Some {
            let i = choose|i: int|
                0 <= i < token@.invite.relays.len() && relay_url_of(
                    (#[trigger] token@.invite.relays[i]).url,
                ) is Some;
            assert(us[i] is Some);
        }
    }
    let ghost all = relay_urls_of(token@.invite.relays);
    let mut relay_urls: Vec<String> = Vec::new();
    let mut i: usize = 0;
    proof {
        assert(all.subrange(0, 0) =~= Seq::<Option<Seq<char>>>::empty());
        assert(text_views(relay_urls@) =~= Seq::<Seq<char>>::empty());
    }
    while i < token.invite.relays.len()
        invariant
            i <= token.invite.relays@.len(),
            all == relay_urls_of(relay_views(token.invite.relays@)),
            text_views(relay_urls@) == present(all.subrange(0, i as int)),
        decreases token.invite.relays@.len() - i,
    {
        proof {
            let t = all.subrange(0, i + 1);
            assert(t.drop_last() =~= all.subrange(0, i as int));
            assert(t.last() == all[i as int]);
        }
        match relay_url(token.invite.relays[i].url.as_str()) {
            Some(u) => {
                let ghost before = text_views(relay_urls@);
                let ghost x = u@;
                relay_urls.push(u);
                assert(text_views(relay_urls@) =~= before.push(x));
            },
            None => {},
        }
        i = i + 1;
    }
    assert(all.subrange(0, i as int) =~= all);
    let mut ip_addrs: Vec<DirectAddr> = Vec::new();
    let mut j: usize = 0;
    while j < token.invite.direct_addrs.len()
        invariant
            j <= token.invite.direct_addrs@.len(),
            ip_addrs@ == token.invite.direct_addrs@.subrange(0, j as int),
        decreases token.invite.direct_addrs@.len() - j,
    {
        ip_addrs.push(token.invite.direct_addrs[j]);
        assert(ip_addrs@ =~= token.invite.direct_addrs@.subrange(0, j + 1));
        j = j + 1;
    }
    assert(ip_addrs@ =~= token.invite.direct_addrs@);
    address(token.invite.issuer, relay_urls, ip_addrs)
}

} // verus!
