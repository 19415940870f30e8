//! Who is a member: what follows from the facts at a moment.
//!
//! The members come in the order of their endpoints. The root is a member. Another endpoint is a member while a grant of the root names it
//! that has not expired and is not ended by a revocation of the root in effect. The name
//! that a member last gave itself goes before the name of its grant.
use vstd::prelude::*;
use vstd::string::*;

use crate::identity::{endpoint_before, EndpointId};
use crate::octets::{be_value, bytes_eq, bytes_less, lemma_be_value_injective};
use crate::protocol::fact::{valid_at, FactKind, FactView};
use crate::protocol::signed::SignedView;
use crate::roster::store::{ascending, ids_of, lemma_ascending_unique, lists, FactStore};

verus! {

/// A member.
#[derive(Debug, Clone, PartialEq, Eq)]
pub struct Member {
    pub endpoint_id: EndpointId,
    /// The name that the member gave itself, else that of the grant.
    pub display_name: Option<String>,
    /// When the fact was issued that makes it a member.
    pub since_ms: u64,
}

/// What a [`Member`] says.
#[verifier::ext_equal]
pub struct MemberView {
    pub endpoint_id: Seq<u8>,
    pub display_name: Option<Seq<char>>,
    pub since_ms: u64,
}

impl View for Member {
    type V = MemberView;

    open spec fn view(&self) -> MemberView {
        MemberView {
            endpoint_id: self.endpoint_id@,
            display_name: match self.display_name {
                Some(n) => Some(n@),
                None => None,
            },
            since_ms: self.since_ms,
        }
    }
}

pub open spec fn member_views(s: Seq<Member>) -> Seq<MemberView> {
    Seq::new(s.len(), |i: int| s[i]@)
}

/// A revocation of the root in effect.
pub open spec fn active_revoke(f: FactView, root: Seq<u8>, now_ms: u64) -> bool {
    f.kind == FactKind::Revoke && f.issuer == root && valid_at(f, now_ms)
}

/// A revocation ends a grant: the one it names, or every grant of its subject.
pub open spec fn covers(revoke: FactView, grant_id: Seq<u8>, grant: FactView) -> bool {
    match revoke.target_fact_id {
        Some(t) => t == grant_id,
        None => revoke.subject == grant.subject,
    }
}

/// A grant of the root to another endpoint that has not expired.
pub open spec fn root_grant(f: FactView, root: Seq<u8>, now_ms: u64) -> bool {
    f.kind == FactKind::Grant && f.issuer == root && f.subject != root && valid_at(f, now_ms)
}

/// Some revocation in effect ends the grant `g`.
pub open spec fn revoked(fs: Map<Seq<u8>, SignedView>, root: Seq<u8>, now_ms: u64, g: Seq<u8>) -> bool {
    exists|r: Seq<u8>| #[trigger]
        fs.dom().contains(r) && active_revoke(fs[r].fact, root, now_ms) && covers(
            fs[r].fact,
            g,
            fs[g].fact,
        )
}

/// The fact `g` is a grant that makes its subject a member.
pub open spec fn live_grant(fs: Map<Seq<u8>, SignedView>, root: Seq<u8>, now_ms: u64, g: Seq<u8>) -> bool {
    fs.dom().contains(g) && root_grant(fs[g].fact, root, now_ms) && !revoked(fs, root, now_ms, g)
}

/// The endpoint is the root, or some grant makes it a member.
pub open spec fn member_at(fs: Map<Seq<u8>, SignedView>, root: Seq<u8>, now_ms: u64, e: Seq<u8>) -> bool {
    e == root || exists|g: Seq<u8>| #[trigger]
        live_grant(fs, root, now_ms, g) && fs[g].fact.subject == e
}

/// The fact `a` comes before `b`: by time of issue, then by id.
pub open spec fn earlier(fs: Map<Seq<u8>, SignedView>, a: Seq<u8>, b: Seq<u8>) -> bool {
    ||| fs[a].fact.issued_at_ms < fs[b].fact.issued_at_ms
    ||| fs[a].fact.issued_at_ms == fs[b].fact.issued_at_ms && be_value(a) < be_value(b)
}

/// Of the grants that make `e` a member, `g` is the earliest.
pub open spec fn admits(
    fs: Map<Seq<u8>, SignedView>,
    root: Seq<u8>,
    now_ms: u64,
    e: Seq<u8>,
    g: Seq<u8>,
) -> bool {
    &&& live_grant(fs, root, now_ms, g)
    &&& fs[g].fact.subject == e
    &&& forall|h: Seq<u8>| #[trigger]
        live_grant(fs, root, now_ms, h) && fs[h].fact.subject == e && h != g ==> earlier(fs, g, h)
}

/// A name that `e` gives itself.
pub open spec fn naming_join(f: FactView, now_ms: u64, e: Seq<u8>) -> bool {
    f.kind == FactKind::Join && f.issuer == f.subject && f.subject == e && valid_at(f, now_ms)
        && f.display_name is Some
}

/// Of the names that `e` gives itself, that of `j` is the latest.
pub open spec fn names(fs: Map<Seq<u8>, SignedView>, now_ms: u64, e: Seq<u8>, j: Seq<u8>) -> bool {
    &&& fs.dom().contains(j)
    &&& naming_join(fs[j].fact, now_ms, e)
    &&& forall|k: Seq<u8>| #[trigger]
        fs.dom().contains(k) && naming_join(fs[k].fact, now_ms, e) && k != j ==> earlier(fs, k, j)
}

/// The name that `e` last gave itself.
pub open spec fn own_name(fs: Map<Seq<u8>, SignedView>, now_ms: u64, e: Seq<u8>) -> Option<Seq<char>> {
    if exists|j: Seq<u8>| names(fs, now_ms, e, j) {
        fs[choose|j: Seq<u8>| names(fs, now_ms, e, j)].fact.display_name
    } else {
        None
    }
}

/// The member that the grant `g` makes.
pub open spec fn member_by(fs: Map<Seq<u8>, SignedView>, now_ms: u64, g: Seq<u8>) -> MemberView {
    MemberView {
        endpoint_id: fs[g].fact.subject,
        display_name: match own_name(fs, now_ms, fs[g].fact.subject) {
            Some(n) => Some(n),
            None => fs[g].fact.display_name,
        },
        since_ms: fs[g].fact.issued_at_ms,
    }
}

/// A member other than the root, as its earliest grant makes it.
#[verifier::opaque]
pub open spec fn granted(fs: Map<Seq<u8>, SignedView>, root: Seq<u8>, now_ms: u64, m: MemberView) -> bool {
    exists|g: Seq<u8>|
        #[trigger] admits(fs, root, now_ms, m.endpoint_id, g) && m == member_by(fs, now_ms, g)
}

/// The root as a member.
pub open spec fn root_member(
    fs: Map<Seq<u8>, SignedView>,
    root: Seq<u8>,
    genesis_ms: u64,
    now_ms: u64,
) -> MemberView {
    MemberView {
        endpoint_id: root,
        display_name: own_name(fs, now_ms, root),
        since_ms: genesis_ms,
    }
}

/// The members at a moment, in the order of their endpoints: the root, and everyone whom a
/// grant makes a member.
pub open spec fn is_projection(
    fs: Map<Seq<u8>, SignedView>,
    root: Seq<u8>,
    genesis_ms: u64,
    now_ms: u64,
    ms: Seq<MemberView>,
) -> bool {
    &&& ms.contains(root_member(fs, root, genesis_ms, now_ms))
    &&& forall|i: int|
        0 <= i < ms.len() ==> #[trigger] ms[i] == root_member(fs, root, genesis_ms, now_ms)
            || granted(fs, root, now_ms, ms[i])
    &&& forall|i: int, j: int|
        0 <= i < j < ms.len() ==> endpoint_before(
            (#[trigger] ms[i]).endpoint_id,
            (#[trigger] ms[j]).endpoint_id,
        )
    &&& forall|g: Seq<u8>| #[trigger]
        live_grant(fs, root, now_ms, g) ==> exists|i: int|
            0 <= i < ms.len() && (#[trigger] ms[i]).endpoint_id == fs[g].fact.subject
}

// ---- laws -------------------------------------------------------------------------

proof fn lemma_admits_unique(
    fs: Map<Seq<u8>, SignedView>,
    root: Seq<u8>,
    now_ms: u64,
    e: Seq<u8>,
    g: Seq<u8>,
    h: Seq<u8>,
)
    requires
        admits(fs, root, now_ms, e, g),
        admits(fs, root, now_ms, e, h),
    ensures
        g == h,
{
    if g != h {
        assert(earlier(fs, g, h) && earlier(fs, h, g));
    }
}

proof fn lemma_names_unique(
    fs: Map<Seq<u8>, SignedView>,
    now_ms: u64,
    e: Seq<u8>,
    j: Seq<u8>,
    k: Seq<u8>,
)
    requires
        names(fs, now_ms, e, j),
        names(fs, now_ms, e, k),
    ensures
        j == k,
{
    if j != k {
        assert(fs.dom().contains(j) && fs.dom().contains(k));
        assert(earlier(fs, k, j) && earlier(fs, j, k));
    }
}

/// A granted member has a grant that makes it one.
proof fn lemma_granted_live(
    fs: Map<Seq<u8>, SignedView>,
    root: Seq<u8>,
    now_ms: u64,
    m: MemberView,
) -> (g: Seq<u8>)
    requires
        granted(fs, root, now_ms, m),
    ensures
        admits(fs, root, now_ms, m.endpoint_id, g),
        m == member_by(fs, now_ms, g),
        live_grant(fs, root, now_ms, g),
        fs[g].fact.subject == m.endpoint_id,
{
    reveal(granted);
    choose|g: Seq<u8>|
        #[trigger] admits(fs, root, now_ms, m.endpoint_id, g) && m == member_by(fs, now_ms, g)
}

/// The endpoints of members.
spec fn endpoints(ms: Seq<MemberView>) -> Seq<Seq<u8>> {
    Seq::new(ms.len(), |i: int| ms[i].endpoint_id)
}

proof fn lemma_endpoints_ascending(
    fs: Map<Seq<u8>, SignedView>,
    root: Seq<u8>,
    genesis_ms: u64,
    now_ms: u64,
    a: Seq<MemberView>,
)
    requires
        is_projection(fs, root, genesis_ms, now_ms, a),
    ensures
        ascending(endpoints(a)),
{
    let x = endpoints(a);
    assert forall|i: int, j: int| 0 <= i < j < x.len() implies be_value(#[trigger] x[i]) < be_value(
        #[trigger] x[j],
    ) by {
        assert(endpoint_before(a[i].endpoint_id, a[j].endpoint_id));
    }
}

proof fn lemma_endpoints_contained(
    fs: Map<Seq<u8>, SignedView>,
    root: Seq<u8>,
    genesis_ms: u64,
    now_ms: u64,
    a: Seq<MemberView>,
    b: Seq<MemberView>,
    k: Seq<u8>,
)
    requires
        is_projection(fs, root, genesis_ms, now_ms, a),
        is_projection(fs, root, genesis_ms, now_ms, b),
        endpoints(a).contains(k),
    ensures
        endpoints(b).contains(k),
{
    let x = endpoints(a);
    let y = endpoints(b);
    let rm = root_member(fs, root, genesis_ms, now_ms);
    let i = choose|i: int| 0 <= i < x.len() && x[i] == k;
    let m = a[i];
    if m == rm {
        let j = choose|j: int| 0 <= j < b.len() && b[j] == rm;
        assert(y[j] == k);
    } else {
        assert(granted(fs, root, now_ms, m));
        let g = lemma_granted_live(fs, root, now_ms, m);
        let j = choose|j: int|
            0 <= j < b.len() && (#[trigger] b[j]).endpoint_id == fs[g].fact.subject;
        assert(y[j] == k);
    }
}

/// The facts decide the members: there is one list of members at a moment.
pub proof fn projection_is_unique(
    fs: Map<Seq<u8>, SignedView>,
    root: Seq<u8>,
    genesis_ms: u64,
    now_ms: u64,
    a: Seq<MemberView>,
    b: Seq<MemberView>,
)
    requires
        is_projection(fs, root, genesis_ms, now_ms, a),
        is_projection(fs, root, genesis_ms, now_ms, b),
    ensures
        a == b,
{
    let x = endpoints(a);
    let y = endpoints(b);
    let rm = root_member(fs, root, genesis_ms, now_ms);
    lemma_endpoints_ascending(fs, root, genesis_ms, now_ms, a);
    lemma_endpoints_ascending(fs, root, genesis_ms, now_ms, b);
    assert forall|k: Seq<u8>| #[trigger] x.contains(k) <==> y.contains(k) by {
        if x.contains(k) {
            lemma_endpoints_contained(fs, root, genesis_ms, now_ms, a, b, k);
        }
        if y.contains(k) {
            lemma_endpoints_contained(fs, root, genesis_ms, now_ms, b, a, k);
        }
    }
    lemma_ascending_unique(x, y);
    assert(x.len() == y.len());
    assert forall|i: int| 0 <= i < a.len() implies a[i] == b[i] by {
        assert(x[i] == y[i]);
        if a[i] != rm {
            let g = lemma_granted_live(fs, root, now_ms, a[i]);
            assert(b[i] != rm);
            lemma_granted_unique(fs, root, now_ms, a[i], b[i]);
        } else if b[i] != rm {
            let g = lemma_granted_live(fs, root, now_ms, b[i]);
        }
    }
    assert(a =~= b);
}

proof fn lemma_granted_unique(
    fs: Map<Seq<u8>, SignedView>,
    root: Seq<u8>,
    now_ms: u64,
    m: MemberView,
    n: MemberView,
)
    requires
        granted(fs, root, now_ms, m),
        granted(fs, root, now_ms, n),
        m.endpoint_id == n.endpoint_id,
    ensures
        m == n,
{
    let e = m.endpoint_id;
    let g = lemma_granted_live(fs, root, now_ms, m);
    let h = lemma_granted_live(fs, root, now_ms, n);
    lemma_admits_unique(fs, root, now_ms, e, g, h);
}

/// The list of members and the test for one member agree.
pub proof fn projection_lists_the_members(
    fs: Map<Seq<u8>, SignedView>,
    root: Seq<u8>,
    genesis_ms: u64,
    now_ms: u64,
    ms: Seq<MemberView>,
    e: Seq<u8>,
)
    requires
        is_projection(fs, root, genesis_ms, now_ms, ms),
    ensures
        member_at(fs, root, now_ms, e) <==> exists|i: int|
            0 <= i < ms.len() && (#[trigger] ms[i]).endpoint_id == e,
{
    if member_at(fs, root, now_ms, e) {
        if e == root {
            let i = choose|i: int|
                0 <= i < ms.len() && ms[i] == root_member(fs, root, genesis_ms, now_ms);
            assert(ms[i].endpoint_id == e);
        } else {
            let g = choose|g: Seq<u8>| #[trigger]
                live_grant(fs, root, now_ms, g) && fs[g].fact.subject == e;
            let i = choose|i: int|
                0 <= i < ms.len() && (#[trigger] ms[i]).endpoint_id == fs[g].fact.subject;
            assert(ms[i].endpoint_id == e);
        }
    }
    if exists|i: int| 0 <= i < ms.len() && (#[trigger] ms[i]).endpoint_id == e {
        let i = choose|i: int| 0 <= i < ms.len() && (#[trigger] ms[i]).endpoint_id == e;
        if ms[i] != root_member(fs, root, genesis_ms, now_ms) {
            let g = lemma_granted_live(fs, root, now_ms, ms[i]);
            assert(live_grant(fs, root, now_ms, g));
        }
    }
}

/// The root is a member at every moment, whatever the facts.
pub proof fn root_is_always_a_member(fs: Map<Seq<u8>, SignedView>, root: Seq<u8>, now_ms: u64)
    ensures
        member_at(fs, root, now_ms, root),
{
}

/// Only facts of the root decide membership: a further fact of another issuer, and a name
/// of anyone, changes nobody's membership.
pub proof fn others_decide_no_membership(
    fs: Map<Seq<u8>, SignedView>,
    root: Seq<u8>,
    now_ms: u64,
    id: Seq<u8>,
    s: SignedView,
    e: Seq<u8>,
)
    requires
        !fs.dom().contains(id),
        s.fact.issuer != root || s.fact.kind == FactKind::Join || s.fact.kind == FactKind::Genesis,
    ensures
        member_at(fs.insert(id, s), root, now_ms, e) == member_at(fs, root, now_ms, e),
{
    let gs = fs.insert(id, s);
    assert forall|g: Seq<u8>| #[trigger]
        live_grant(gs, root, now_ms, g) <==> live_grant(fs, root, now_ms, g) by {
        if fs.dom().contains(g) {
            lemma_revoked_with(fs, root, now_ms, id, s, g);
        }
    }
    if member_at(fs, root, now_ms, e) && e != root {
        let g = choose|g: Seq<u8>| #[trigger]
            live_grant(fs, root, now_ms, g) && fs[g].fact.subject == e;
        assert(live_grant(gs, root, now_ms, g));
    }
    if member_at(gs, root, now_ms, e) && e != root {
        let g = choose|g: Seq<u8>| #[trigger]
            live_grant(gs, root, now_ms, g) && gs[g].fact.subject == e;
        assert(live_grant(fs, root, now_ms, g));
    }
}

/// A further fact ends a grant that was not ended only if it is a revocation that covers it.
proof fn lemma_revoked_with(
    fs: Map<Seq<u8>, SignedView>,
    root: Seq<u8>,
    now_ms: u64,
    id: Seq<u8>,
    s: SignedView,
    g: Seq<u8>,
)
    requires
        !fs.dom().contains(id),
        fs.dom().contains(g),
    ensures
        revoked(fs.insert(id, s), root, now_ms, g) == (revoked(fs, root, now_ms, g) || (
        active_revoke(s.fact, root, now_ms) && covers(s.fact, g, fs[g].fact))),
{
    let gs = fs.insert(id, s);
    if revoked(gs, root, now_ms, g) {
        let r = choose|r: Seq<u8>| #[trigger]
            gs.dom().contains(r) && active_revoke(gs[r].fact, root, now_ms) && covers(
                gs[r].fact,
                g,
                gs[g].fact,
            );
        if r != id {
            assert(fs.dom().contains(r));
        }
    }
    if revoked(fs, root, now_ms, g) {
        let r = choose|r: Seq<u8>| #[trigger]
            fs.dom().contains(r) && active_revoke(fs[r].fact, root, now_ms) && covers(
                fs[r].fact,
                g,
                fs[g].fact,
            );
        assert(gs.dom().contains(r));
    }
    if active_revoke(s.fact, root, now_ms) && covers(s.fact, g, fs[g].fact) {
        assert(gs.dom().contains(id));
    }
}

/// A grant makes its subject a member until it expires, unless a revocation ends it.
pub proof fn grant_admits_until_it_expires(
    fs: Map<Seq<u8>, SignedView>,
    root: Seq<u8>,
    now_ms: u64,
    g: Seq<u8>,
)
    requires
        fs.dom().contains(g),
        fs[g].fact.kind == FactKind::Grant,
        fs[g].fact.issuer == root,
        fs[g].fact.subject != root,
    ensures
        valid_at(fs[g].fact, now_ms) && !revoked(fs, root, now_ms, g) ==> member_at(
            fs,
            root,
            now_ms,
            fs[g].fact.subject,
        ),
        !valid_at(fs[g].fact, now_ms) ==> !live_grant(fs, root, now_ms, g),
{
    if valid_at(fs[g].fact, now_ms) && !revoked(fs, root, now_ms, g) {
        assert(live_grant(fs, root, now_ms, g));
    }
}

/// While a revocation of all grants of an endpoint is in effect, it is no member.
pub proof fn revoking_all_grants_removes_the_member(
    fs: Map<Seq<u8>, SignedView>,
    root: Seq<u8>,
    now_ms: u64,
    r: Seq<u8>,
)
    requires
        fs.dom().contains(r),
        active_revoke(fs[r].fact, root, now_ms),
        fs[r].fact.target_fact_id is None,
        fs[r].fact.subject != root,
    ensures
        !member_at(fs, root, now_ms, fs[r].fact.subject),
{
}

/// A further revocation of one grant ends exactly that grant: every other grant stays what
/// it was.
pub proof fn revoking_one_grant_leaves_the_others(
    fs: Map<Seq<u8>, SignedView>,
    root: Seq<u8>,
    now_ms: u64,
    id: Seq<u8>,
    s: SignedView,
    g: Seq<u8>,
)
    requires
        !fs.dom().contains(id),
        active_revoke(s.fact, root, now_ms),
        s.fact.target_fact_id is Some,
    ensures
        !live_grant(fs.insert(id, s), root, now_ms, s.fact.target_fact_id->0),
        g != s.fact.target_fact_id->0 ==> live_grant(fs.insert(id, s), root, now_ms, g)
            == live_grant(fs, root, now_ms, g),
{
    let gs = fs.insert(id, s);
    let t = s.fact.target_fact_id->0;
    if gs.dom().contains(t) {
        assert(gs.dom().contains(id));
        assert(revoked(gs, root, now_ms, t));
    }
    if fs.dom().contains(g) {
        lemma_revoked_with(fs, root, now_ms, id, s, g);
    }
}

/// A revocation that has expired ends nothing any more.
pub proof fn expired_revocations_are_inert(
    fs: Map<Seq<u8>, SignedView>,
    root: Seq<u8>,
    now_ms: u64,
    id: Seq<u8>,
    s: SignedView,
    g: Seq<u8>,
)
    requires
        !fs.dom().contains(id),
        s.fact.kind == FactKind::Revoke,
        !valid_at(s.fact, now_ms),
    ensures
        live_grant(fs.insert(id, s), root, now_ms, g) == live_grant(fs, root, now_ms, g),
{
    if fs.dom().contains(g) {
        lemma_revoked_with(fs, root, now_ms, id, s, g);
    }
}

// ---- functions --------------------------------------------------------------------

fn is_active_revoke(store: &FactStore, i: usize, root: &EndpointId, now_ms: u64) -> (r: bool)
    requires
        i < store.list().len(),
    ensures
        r == active_revoke(store.list()[i as int].fact, root@, now_ms),
{
    let f = &store.at(i).fact;
    f.kind == FactKind::Revoke && f.issuer.same(root) && f.is_valid_at(now_ms)
}

fn is_root_grant(store: &FactStore, i: usize, root: &EndpointId, now_ms: u64) -> (r: bool)
    requires
        i < store.list().len(),
    ensures
        r == root_grant(store.list()[i as int].fact, root@, now_ms),
{
    let f = &store.at(i).fact;
    f.kind == FactKind::Grant && f.issuer.same(root) && !f.subject.same(root) && f.is_valid_at(
        now_ms,
    )
}

/// The places are those of the revocations in effect.
spec fn revoke_places(list: Seq<SignedView>, root: Seq<u8>, now_ms: u64, places: Seq<usize>, n: int) -> bool {
    &&& forall|k: int|
        0 <= k < places.len() ==> (#[trigger] places[k]) < n && active_revoke(
            list[places[k] as int].fact,
            root,
            now_ms,
        )
    &&& forall|j: int|
        0 <= j < n && active_revoke((#[trigger] list[j]).fact, root, now_ms) ==> places.contains(
            j as usize,
        )
}

fn find_revokes(store: &FactStore, root: &EndpointId, now_ms: u64) -> (r: Vec<usize>)
    ensures
        revoke_places(store.list(), root@, now_ms, r@, store.list().len() as int),
{
    let mut out: Vec<usize> = Vec::new();
    let n: usize = store.len();
    let mut i: usize = 0;
    while i < n
        invariant
            i <= n,
            n == store.list().len(),
            revoke_places(store.list(), root@, now_ms, out@, i as int),
        decreases n - i,
    {
        let ghost before = out@;
        if is_active_revoke(store, i, root, now_ms) {
            out.push(i);
            assert(out@[before.len() as int] == i);
        }
        proof {
            assert forall|j: int|
                0 <= j < i + 1 && active_revoke(
                    (#[trigger] store.list()[j]).fact,
                    root@,
                    now_ms,
                ) implies out@.contains(j as usize) by {
                if j < i {
                    assert(before.contains(j as usize));
                    let k = choose|k: int| 0 <= k < before.len() && before[k] == j as usize;
                    assert(out@[k] == j as usize);
                }
            }
        }
        i = i + 1;
    }
    out
}

/// Whether a revocation in effect ends the grant at place `i`.
fn is_revoked(store: &FactStore, revokes: &Vec<usize>, root: &EndpointId, now_ms: u64, i: usize) -> (r:
    bool)
    requires
        store.wf(),
        i < store.list().len(),
        revoke_places(store.list(), root@, now_ms, revokes@, store.list().len() as int),
    ensures
        r == revoked(store.map(), root@, now_ms, ids_of(store.list())[i as int]),
{
    let ghost fs = store.map();
    let ghost list = store.list();
    let ghost ids = ids_of(list);
    let ghost g = ids[i as int];
    proof {
        store.lemma_lists();
    }
    let n: usize = store.len();
    let grant = &store.at(i).fact;
    let id = store.id_at(i);
    let mut k: usize = 0;
    while k < revokes.len()
        invariant
            k <= revokes@.len(),
            store.wf(),
            n == list.len(),
            i < list.len(),
            fs == store.map(),
            list == store.list(),
            ids == ids_of(list),
            g == ids[i as int],
            id@ == g,
            grant@ == list[i as int].fact,
            lists(fs, list),
            fs[g] == list[i as int],
            revoke_places(list, root@, now_ms, revokes@, list.len() as int),
            forall|a: int|
                0 <= a < k ==> !covers(
                    list[#[trigger] revokes@[a] as int].fact,
                    g,
                    list[i as int].fact,
                ),
        decreases revokes@.len() - k,
    {
        let rev = &store.at(revokes[k]).fact;
        let hit = match &rev.target_fact_id {
            Some(t) => bytes_eq(t, id),
            None => rev.subject.same(&grant.subject),
        };
        if hit {
            proof {
                let r = ids[revokes@[k as int] as int];
                assert(fs.dom().contains(r) && fs[r] == list[revokes@[k as int] as int]);
            }
            return true;
        }
        k = k + 1;
    }
    proof {
        if revoked(fs, root@, now_ms, g) {
            let r = choose|r: Seq<u8>| #[trigger]
                fs.dom().contains(r) && active_revoke(fs[r].fact, root@, now_ms) && covers(
                    fs[r].fact,
                    g,
                    fs[g].fact,
                );
            assert(ids.contains(r));
            let j = choose|j: int| 0 <= j < ids.len() && ids[j] == r;
            assert(fs.dom().contains(ids[j]) && fs[ids[j]] == list[j]);
            assert(revokes@.contains(j as usize));
            let a = choose|a: int| 0 <= a < revokes@.len() && revokes@[a] == j as usize;
            assert(!covers(list[revokes@[a] as int].fact, g, list[i as int].fact));
        }
    }
    false
}

/// One of the grants at the places is for the endpoint.
#[verifier::opaque]
spec fn listed(list: Seq<SignedView>, places: Seq<usize>, e: Seq<u8>) -> bool {
    exists|a: int| 0 <= a < places.len() && list[#[trigger] places[a] as int].fact.subject == e
}

/// The grants at the places before `n` that make members, one for each member: the earliest.
spec fn admitting(
    store: &FactStore,
    root: Seq<u8>,
    now_ms: u64,
    places: Seq<usize>,
    n: int,
) -> bool {
    let fs = store.map();
    let list = store.list();
    let ids = ids_of(list);
    &&& forall|a: int|
        0 <= a < places.len() ==> (#[trigger] places[a]) < n && live_grant(
            fs,
            root,
            now_ms,
            ids[places[a] as int],
        )
    &&& forall|a: int, b: int|
        0 <= a < b < places.len() ==> be_value(list[#[trigger] places[a] as int].fact.subject)
            < be_value(list[#[trigger] places[b] as int].fact.subject)
    &&& forall|a: int, j: int|
        0 <= a < places.len() && 0 <= j < n && live_grant(fs, root, now_ms, #[trigger] ids[j])
            && list[j].fact.subject == list[#[trigger] places[a] as int].fact.subject && j
            != places[a] ==> earlier(fs, ids[places[a] as int], ids[j])
    &&& forall|j: int|
        0 <= j < n && live_grant(fs, root, now_ms, #[trigger] ids[j]) ==> listed(
            list,
            places,
            list[j].fact.subject,
        )
}

/// The first place whose subject is not before that of the fact at `i`.
fn subject_place(store: &FactStore, places: &Vec<usize>, i: usize) -> (r: usize)
    requires
        i < store.list().len(),
        forall|a: int| 0 <= a < places@.len() ==> #[trigger] places@[a] < store.list().len(),
        forall|a: int, b: int|
            0 <= a < b < places@.len() ==> be_value(
                store.list()[#[trigger] places@[a] as int].fact.subject,
            ) < be_value(store.list()[#[trigger] places@[b] as int].fact.subject),
    ensures
        r <= places@.len(),
        forall|a: int|
            0 <= a < r ==> be_value(store.list()[#[trigger] places@[a] as int].fact.subject)
                < be_value(store.list()[i as int].fact.subject),
        forall|a: int|
            r <= a < places@.len() ==> be_value(store.list()[#[trigger] places@[a] as int].fact.subject)
                >= be_value(store.list()[i as int].fact.subject),
{
    let subject = &store.at(i).fact.subject;
    let mut p: usize = 0;
    while p < places.len() && store.at(places[p]).fact.subject.before(subject)
        invariant
            p <= places@.len(),
            i < store.list().len(),
            subject@ == store.list()[i as int].fact.subject,
            forall|a: int| 0 <= a < places@.len() ==> #[trigger] places@[a] < store.list().len(),
            forall|a: int|
                0 <= a < p ==> be_value(store.list()[#[trigger] places@[a] as int].fact.subject)
                    < be_value(subject@),
        ensures
            p <= places@.len(),
            p < places@.len() ==> be_value(store.list()[places@[p as int] as int].fact.subject)
                >= be_value(subject@),
            forall|a: int|
                0 <= a < p ==> be_value(store.list()[#[trigger] places@[a] as int].fact.subject)
                    < be_value(subject@),
        decreases places@.len() - p,
    {
        p = p + 1;
    }
    p
}

/// An earlier grant of the same endpoint takes the place of the one that was there.
proof fn lemma_take_replace(
    store: &FactStore,
    root: Seq<u8>,
    now_ms: u64,
    before: Seq<usize>,
    p: int,
    i: usize,
)
    requires
        store.wf(),
        i < store.list().len(),
        live_grant(store.map(), root, now_ms, ids_of(store.list())[i as int]),
        admitting(store, root, now_ms, before, i as int),
        0 <= p < before.len(),
        store.list()[before[p] as int].fact.subject == store.list()[i as int].fact.subject,
        earlier(
            store.map(),
            ids_of(store.list())[i as int],
            ids_of(store.list())[before[p] as int],
        ),
    ensures
        admitting(store, root, now_ms, before.update(p, i), i + 1),
{
    let fs = store.map();
    let list = store.list();
    let ids = ids_of(list);
    let after = before.update(p, i);
    let q = before[p];
    store.lemma_lists();
    assert forall|a: int, j: int|
        0 <= a < after.len() && 0 <= j < i + 1 && live_grant(fs, root, now_ms, #[trigger] ids[j])
            && list[j].fact.subject == list[#[trigger] after[a] as int].fact.subject && j
            != after[a] implies earlier(fs, ids[after[a] as int], ids[j]) by {
        if a == p {
            if j != q {
                assert(earlier(fs, ids[before[p] as int], ids[j]));
            }
        } else {
            assert(after[a] == before[a]);
            if j == i {
                if a < p {
                    assert(be_value(list[before[a] as int].fact.subject) < be_value(
                        list[before[p] as int].fact.subject,
                    ));
                } else {
                    assert(be_value(list[before[p] as int].fact.subject) < be_value(
                        list[before[a] as int].fact.subject,
                    ));
                }
            }
        }
    }
    assert forall|j: int| 0 <= j < i + 1 && live_grant(fs, root, now_ms, #[trigger] ids[j]) implies listed(
        list,
        after,
        list[j].fact.subject,
    ) by {
        reveal(listed);
        if j == i {
            assert(list[after[p] as int].fact.subject == list[j].fact.subject);
        } else {
            assert(listed(list, before, list[j].fact.subject));
            let a = choose|a: int|
                0 <= a < before.len() && list[#[trigger] before[a] as int].fact.subject
                    == list[j].fact.subject;
            assert(list[after[a] as int].fact.subject == list[j].fact.subject);
        }
    }
    assert forall|a: int, b: int| 0 <= a < b < after.len() implies be_value(
        list[#[trigger] after[a] as int].fact.subject,
    ) < be_value(list[#[trigger] after[b] as int].fact.subject) by {
        assert(be_value(list[before[a] as int].fact.subject) < be_value(
            list[before[b] as int].fact.subject,
        ));
    }
    assert forall|a: int| 0 <= a < after.len() implies (#[trigger] after[a]) < i + 1 && live_grant(
        fs,
        root,
        now_ms,
        ids[after[a] as int],
    ) by {
        if a != p {
            assert(after[a] == before[a]);
        }
    }
}

/// A later grant of the same endpoint changes nothing.
proof fn lemma_take_keep(
    store: &FactStore,
    root: Seq<u8>,
    now_ms: u64,
    before: Seq<usize>,
    p: int,
    i: usize,
)
    requires
        store.wf(),
        i < store.list().len(),
        live_grant(store.map(), root, now_ms, ids_of(store.list())[i as int]),
        admitting(store, root, now_ms, before, i as int),
        0 <= p < before.len(),
        store.list()[before[p] as int].fact.subject == store.list()[i as int].fact.subject,
        earlier(
            store.map(),
            ids_of(store.list())[before[p] as int],
            ids_of(store.list())[i as int],
        ),
    ensures
        admitting(store, root, now_ms, before, i + 1),
{
    let fs = store.map();
    let list = store.list();
    let ids = ids_of(list);
    assert forall|a: int, j: int|
        0 <= a < before.len() && 0 <= j < i + 1 && live_grant(fs, root, now_ms, #[trigger] ids[j])
            && list[j].fact.subject == list[#[trigger] before[a] as int].fact.subject && j
            != before[a] implies earlier(fs, ids[before[a] as int], ids[j]) by {
        if j == i && a != p {
            if a < p {
                assert(be_value(list[before[a] as int].fact.subject) < be_value(
                    list[before[p] as int].fact.subject,
                ));
            } else {
                assert(be_value(list[before[p] as int].fact.subject) < be_value(
                    list[before[a] as int].fact.subject,
                ));
            }
        }
    }
    assert forall|j: int| 0 <= j < i + 1 && live_grant(fs, root, now_ms, #[trigger] ids[j]) implies listed(
        list,
        before,
        list[j].fact.subject,
    ) by {
        if j == i {
            reveal(listed);
            assert(list[before[p] as int].fact.subject == list[j].fact.subject);
        }
    }
}

/// The first grant of an endpoint goes to the place of the endpoint.
proof fn lemma_take_insert(
    store: &FactStore,
    root: Seq<u8>,
    now_ms: u64,
    before: Seq<usize>,
    p: int,
    i: usize,
)
    requires
        store.wf(),
        i < store.list().len(),
        live_grant(store.map(), root, now_ms, ids_of(store.list())[i as int]),
        admitting(store, root, now_ms, before, i as int),
        0 <= p <= before.len(),
        forall|a: int|
            0 <= a < p ==> be_value(store.list()[#[trigger] before[a] as int].fact.subject)
                < be_value(store.list()[i as int].fact.subject),
        forall|a: int|
            p <= a < before.len() ==> be_value(
                store.list()[#[trigger] before[a] as int].fact.subject,
            ) > be_value(store.list()[i as int].fact.subject),
    ensures
        admitting(store, root, now_ms, before.insert(p, i), i + 1),
{
    let fs = store.map();
    let list = store.list();
    let ids = ids_of(list);
    let after = before.insert(p, i);
    let x = list[i as int].fact.subject;
    assert forall|a: int| 0 <= a < after.len() implies (#[trigger] after[a]) < i + 1 && live_grant(
        fs,
        root,
        now_ms,
        ids[after[a] as int],
    ) by {
        if a < p {
            assert(after[a] == before[a]);
        } else if a > p {
            assert(after[a] == before[a - 1]);
        }
    }
    assert forall|a: int, b: int| 0 <= a < b < after.len() implies be_value(
        list[#[trigger] after[a] as int].fact.subject,
    ) < be_value(list[#[trigger] after[b] as int].fact.subject) by {
        if a < p && b < p {
            assert(after[a] == before[a] && after[b] == before[b]);
        } else if a < p && b > p {
            assert(after[a] == before[a] && after[b] == before[b - 1]);
        } else if a > p {
            assert(after[a] == before[a - 1] && after[b] == before[b - 1]);
        } else if a == p {
            assert(after[b] == before[b - 1]);
        } else {
            assert(after[a] == before[a]);
        }
    }
    assert forall|a: int, j: int|
        0 <= a < after.len() && 0 <= j < i + 1 && live_grant(fs, root, now_ms, #[trigger] ids[j])
            && list[j].fact.subject == list[#[trigger] after[a] as int].fact.subject && j
            != after[a] implies earlier(fs, ids[after[a] as int], ids[j]) by {
        if a == p {
            assert(listed(list, before, list[j].fact.subject));
            reveal(listed);
            let c = choose|c: int|
                0 <= c < before.len() && list[#[trigger] before[c] as int].fact.subject
                    == list[j].fact.subject;
            assert(be_value(list[before[c] as int].fact.subject) != be_value(x));
        } else {
            let c = if a < p {
                a
            } else {
                a - 1
            };
            assert(after[a] == before[c]);
            assert(be_value(list[before[c] as int].fact.subject) != be_value(x));
        }
    }
    assert forall|j: int| 0 <= j < i + 1 && live_grant(fs, root, now_ms, #[trigger] ids[j]) implies listed(
        list,
        after,
        list[j].fact.subject,
    ) by {
        reveal(listed);
        if j == i {
            assert(after[p] == i);
        } else {
            assert(listed(list, before, list[j].fact.subject));
            let a = choose|a: int|
                0 <= a < before.len() && list[#[trigger] before[a] as int].fact.subject
                    == list[j].fact.subject;
            if a < p {
                assert(after[a] == before[a]);
            } else {
                assert(after[a + 1] == before[a]);
            }
        }
    }
}

/// Takes the grant at place `i`, which makes a member, into the list of such grants.
fn take_grant(
    store: &FactStore,
    Ghost(root): Ghost<Seq<u8>>,
    Ghost(now_ms): Ghost<u64>,
    places: &mut Vec<usize>,
    i: usize,
)
    requires
        store.wf(),
        i < store.list().len(),
        live_grant(store.map(), root, now_ms, ids_of(store.list())[i as int]),
        admitting(store, root, now_ms, old(places)@, i as int),
    ensures
        admitting(store, root, now_ms, final(places)@, i + 1),
{
    let ghost fs = store.map();
    let ghost list = store.list();
    let ghost ids = ids_of(list);
    let ghost before = places@;
    let p = subject_place(store, places, i);
    proof {
        store.lemma_lists();
    }
    if p < places.len() && store.at(places[p]).fact.subject.same(&store.at(i).fact.subject) {
        let q: usize = places[p];
        let this_ms: u64 = store.at(i).fact.issued_at_ms;
        let that_ms: u64 = store.at(q).fact.issued_at_ms;
        assert(fs[ids[i as int]] == list[i as int] && fs[ids[q as int]] == list[q as int]);
        if this_ms < that_ms || (this_ms == that_ms && bytes_less(store.id_at(i), store.id_at(q))) {
            places.set(p, i);
            proof {
                lemma_take_replace(store, root, now_ms, before, p as int, i);
            }
        } else {
            proof {
                if be_value(ids[i as int]) == be_value(ids[q as int]) {
                    lemma_be_value_injective(ids[i as int], ids[q as int]);
                    assert(be_value(ids[q as int]) < be_value(ids[i as int]));
                }
                lemma_take_keep(store, root, now_ms, before, p as int, i);
            }
        }
    } else {
        proof {
            let x = list[i as int].fact.subject;
            assert forall|a: int| p <= a < before.len() implies be_value(
                list[#[trigger] before[a] as int].fact.subject,
            ) > be_value(x) by {
                let y = list[before[p as int] as int].fact.subject;
                if be_value(y) == be_value(x) {
                    lemma_be_value_injective(y, x);
                }
                if a > p {
                    assert(be_value(list[before[p as int] as int].fact.subject) < be_value(
                        list[before[a] as int].fact.subject,
                    ));
                }
            }
            lemma_take_insert(store, root, now_ms, before, p as int, i);
        }
        places.insert(p, i);
    }
}

fn find_grants(store: &FactStore, root: &EndpointId, now_ms: u64) -> (r: Vec<usize>)
    requires
        store.wf(),
    ensures
        admitting(store, root@, now_ms, r@, store.list().len() as int),
{
    let revokes = find_revokes(store, root, now_ms);
    let mut places: Vec<usize> = Vec::new();
    let n: usize = store.len();
    let mut i: usize = 0;
    while i < n
        invariant
            i <= n,
            n == store.list().len(),
            store.wf(),
            revoke_places(store.list(), root@, now_ms, revokes@, n as int),
            admitting(store, root@, now_ms, places@, i as int),
        decreases n - i,
    {
        proof {
            store.lemma_lists();
            let id = ids_of(store.list())[i as int];
            assert(store.map().dom().contains(id) && store.map()[id] == store.list()[i as int]);
        }
        if is_root_grant(store, i, root, now_ms) && !is_revoked(store, &revokes, root, now_ms, i) {
            take_grant(store, Ghost(root@), Ghost(now_ms), &mut places, i);
        }
        i = i + 1;
    }
    places
}

/// The place of the name that an endpoint last gave itself.
fn find_name(store: &FactStore, e: &EndpointId, now_ms: u64) -> (r: Option<usize>)
    requires
        store.wf(),
    ensures
        match r {
            Some(i) => i < store.list().len() && names(
                store.map(),
                now_ms,
                e@,
                ids_of(store.list())[i as int],
            ) && own_name(store.map(), now_ms, e@) == store.list()[i as int].fact.display_name
                && store.list()[i as int].fact.display_name is Some,
            None => own_name(store.map(), now_ms, e@) is None,
        },
{
    let ghost fs = store.map();
    let ghost list = store.list();
    let ghost ids = ids_of(list);
    proof {
        store.lemma_lists();
    }
    let n: usize = store.len();
    let mut best: Option<usize> = None;
    let mut i: usize = 0;
    while i < n
        invariant
            i <= n,
            n == list.len(),
            store.wf(),
            fs == store.map(),
            list == store.list(),
            ids == ids_of(list),
            lists(fs, list),
            match best {
                Some(b) => b < i && naming_join(list[b as int].fact, now_ms, e@) && forall|j: int|
                    0 <= j < i && naming_join((#[trigger] list[j]).fact, now_ms, e@) && j != b
                        ==> earlier(fs, ids[j], ids[b as int]),
                None => forall|j: int|
                    0 <= j < i ==> !naming_join((#[trigger] list[j]).fact, now_ms, e@),
            },
        decreases n - i,
    {
        let f = &store.at(i).fact;
        assert(fs.dom().contains(ids[i as int]) && fs[ids[i as int]] == list[i as int]);
        if f.kind == FactKind::Join && f.issuer.same(&f.subject) && f.subject.same(e)
            && f.is_valid_at(now_ms) && f.display_name.is_some() {
            match best {
                None => {
                    best = Some(i);
                },
                Some(b) => {
                    let g = &store.at(b).fact;
                    assert(fs.dom().contains(ids[b as int]) && fs[ids[b as int]] == list[b as int]);
                    assert(be_value(ids[b as int]) < be_value(ids[i as int]));
                    if f.issued_at_ms > g.issued_at_ms || (f.issued_at_ms == g.issued_at_ms
                        && bytes_less(store.id_at(b), store.id_at(i))) {
                        assert forall|j: int|
                            0 <= j < i + 1 && naming_join((#[trigger] list[j]).fact, now_ms, e@) && j
                                != i implies earlier(fs, ids[j], ids[i as int]) by {
                            if j != b {
                                assert(earlier(fs, ids[j], ids[b as int]));
                            }
                        }
                        best = Some(i);
                    }
                },
            }
        }
        i = i + 1;
    }
    proof {
        match best {
            Some(b) => {
                let id = ids[b as int];
                assert(fs.dom().contains(id) && fs[id] == list[b as int]);
                assert forall|k: Seq<u8>| #[trigger]
                    fs.dom().contains(k) && naming_join(fs[k].fact, now_ms, e@) && k
                        != id implies earlier(fs, k, id) by {
                    let j = choose|j: int| 0 <= j < ids.len() && ids[j] == k;
                    assert(fs.dom().contains(ids[j]) && fs[ids[j]] == list[j]);
                }
                assert(names(fs, now_ms, e@, id));
                let c = choose|j: Seq<u8>| names(fs, now_ms, e@, j);
                lemma_names_unique(fs, now_ms, e@, id, c);
            },
            None => {
                assert forall|j: Seq<u8>| !names(fs, now_ms, e@, j) by {
                    if names(fs, now_ms, e@, j) {
                        assert(fs.dom().contains(j));
                        let k = choose|k: int| 0 <= k < ids.len() && ids[k] == j;
                        assert(fs.dom().contains(ids[k]) && fs[ids[k]] == list[k]);
                        assert(!naming_join(list[k].fact, now_ms, e@));
                    }
                }
            },
        }
    }
    best
}

/// A copy of an optional text.
pub(crate) fn copy_name(name: &Option<String>) -> (r: Option<String>)
    ensures
        match (name, r) {
            (Some(a), Some(b)) => a@ == b@,
            (None, None) => true,
            _ => false,
        },
{
    match name {
        Some(n) => Some(n.as_str().to_owned()),
        None => None,
    }
}

fn own_name_of(store: &FactStore, e: &EndpointId, now_ms: u64) -> (r: Option<String>)
    requires
        store.wf(),
    ensures
        match r {
            Some(n) => own_name(store.map(), now_ms, e@) == Some(n@),
            None => own_name(store.map(), now_ms, e@) is None,
        },
{
    match find_name(store, e, now_ms) {
        Some(i) => copy_name(&store.at(i).fact.display_name),
        None => None,
    }
}

/// The members at a moment.
pub fn project(store: &FactStore, root: &EndpointId, genesis_ms: u64, now_ms: u64) -> (r: Vec<Member>)
    requires
        store.wf(),
    ensures
        is_projection(store.map(), root@, genesis_ms, now_ms, member_views(r@)),
{
    let ghost fs = store.map();
    let ghost list = store.list();
    let ghost ids = ids_of(list);
    let places = find_grants(store, root, now_ms);
    proof {
        store.lemma_lists();
    }
    let mut out: Vec<Member> = Vec::new();
    let mut a: usize = 0;
    while a < places.len()
        invariant
            a <= places@.len(),
            store.wf(),
            fs == store.map(),
            list == store.list(),
            ids == ids_of(list),
            lists(fs, list),
            admitting(store, root@, now_ms, places@, list.len() as int),
            out@.len() == a,
            forall|k: int|
                0 <= k < a ==> (#[trigger] out@[k])@ == member_by(
                    fs,
                    now_ms,
                    ids[places@[k] as int],
                ),
        decreases places@.len() - a,
    {
        let i: usize = places[a];
        assert(fs.dom().contains(ids[i as int]) && fs[ids[i as int]] == list[i as int]);
        let grant = &store.at(i).fact;
        let display_name = match own_name_of(store, &grant.subject, now_ms) {
            Some(n) => Some(n),
            None => copy_name(&grant.display_name),
        };
        let m = Member {
            endpoint_id: grant.subject,
            display_name,
            since_ms: grant.issued_at_ms,
        };
        assert(m@ =~= member_by(fs, now_ms, ids[i as int]));
        out.push(m);
        a = a + 1;
    }
    let ghost others = member_views(out@);
    let mut p: usize = 0;
    while p < out.len() && out[p].endpoint_id.before(root)
        invariant
            p <= out@.len(),
            forall|k: int|
                0 <= k < p ==> endpoint_before((#[trigger] out@[k])@.endpoint_id, root@),
        ensures
            p <= out@.len(),
            p < out@.len() ==> !endpoint_before(out@[p as int]@.endpoint_id, root@),
            forall|k: int|
                0 <= k < p ==> endpoint_before((#[trigger] out@[k])@.endpoint_id, root@),
        decreases out@.len() - p,
    {
        p = p + 1;
    }
    let me = Member {
        endpoint_id: *root,
        display_name: own_name_of(store, root, now_ms),
        since_ms: genesis_ms,
    };
    let ghost rm = me@;
    assert(rm =~= root_member(fs, root@, genesis_ms, now_ms));
    proof {
        assert forall|k: int| 0 <= k < p implies endpoint_before(
            (#[trigger] others[k]).endpoint_id,
            root@,
        ) by {
            assert(others[k] == out@[k]@);
        }
        lemma_project(store, root@, genesis_ms, now_ms, places@, others, p as int);
    }
    out.insert(p, me);
    assert(member_views(out@) =~= others.insert(p as int, rm));
    out
}

/// The members that the grants make, with the root in its place, are the members.
proof fn lemma_project(
    store: &FactStore,
    root: Seq<u8>,
    genesis_ms: u64,
    now_ms: u64,
    places: Seq<usize>,
    others: Seq<MemberView>,
    p: int,
)
    requires
        store.wf(),
        root.len() == 32,
        admitting(store, root, now_ms, places, store.list().len() as int),
        others.len() == places.len(),
        forall|k: int|
            0 <= k < places.len() ==> (#[trigger] others[k]) == member_by(
                store.map(),
                now_ms,
                ids_of(store.list())[places[k] as int],
            ),
        0 <= p <= others.len(),
        forall|k: int| 0 <= k < p ==> endpoint_before((#[trigger] others[k]).endpoint_id, root),
        p < others.len() ==> !endpoint_before(others[p].endpoint_id, root),
    ensures
        is_projection(
            store.map(),
            root,
            genesis_ms,
            now_ms,
            others.insert(p, root_member(store.map(), root, genesis_ms, now_ms)),
        ),
{
    let fs = store.map();
    assert forall|k: int| 0 <= k < others.len() implies other_member(
        fs,
        root,
        now_ms,
        #[trigger] others[k],
    ) by {
        lemma_project_granted(store, root, now_ms, places, k);
    }
    lemma_others_ascend(store, root, now_ms, places, others);
    assert forall|g: Seq<u8>| #[trigger] live_grant(fs, root, now_ms, g) implies exists|a: int|
        0 <= a < others.len() && (#[trigger] others[a]).endpoint_id == fs[g].fact.subject by {
        lemma_others_complete(store, root, now_ms, places, others, g);
    }
    lemma_root_inserted(fs, root, genesis_ms, now_ms, others, p);
}

/// A member that a grant makes, which is not the root.
spec fn other_member(fs: Map<Seq<u8>, SignedView>, root: Seq<u8>, now_ms: u64, m: MemberView) -> bool {
    &&& granted(fs, root, now_ms, m)
    &&& m.endpoint_id.len() == 32
    &&& m.endpoint_id != root
}

proof fn lemma_others_ascend(
    store: &FactStore,
    root: Seq<u8>,
    now_ms: u64,
    places: Seq<usize>,
    others: Seq<MemberView>,
)
    requires
        store.wf(),
        admitting(store, root, now_ms, places, store.list().len() as int),
        others.len() == places.len(),
        forall|k: int|
            0 <= k < places.len() ==> (#[trigger] others[k]) == member_by(
                store.map(),
                now_ms,
                ids_of(store.list())[places[k] as int],
            ),
    ensures
        forall|i: int, j: int|
            0 <= i < j < others.len() ==> endpoint_before(
                (#[trigger] others[i]).endpoint_id,
                (#[trigger] others[j]).endpoint_id,
            ),
{
    let list = store.list();
    assert forall|i: int, j: int| 0 <= i < j < others.len() implies endpoint_before(
        (#[trigger] others[i]).endpoint_id,
        (#[trigger] others[j]).endpoint_id,
    ) by {
        lemma_project_granted(store, root, now_ms, places, i);
        lemma_project_granted(store, root, now_ms, places, j);
        assert(be_value(list[places[i] as int].fact.subject) < be_value(
            list[places[j] as int].fact.subject,
        ));
    }
}

proof fn lemma_others_complete(
    store: &FactStore,
    root: Seq<u8>,
    now_ms: u64,
    places: Seq<usize>,
    others: Seq<MemberView>,
    g: Seq<u8>,
)
    requires
        store.wf(),
        admitting(store, root, now_ms, places, store.list().len() as int),
        others.len() == places.len(),
        forall|k: int|
            0 <= k < places.len() ==> (#[trigger] others[k]) == member_by(
                store.map(),
                now_ms,
                ids_of(store.list())[places[k] as int],
            ),
        live_grant(store.map(), root, now_ms, g),
    ensures
        exists|a: int|
            0 <= a < others.len() && (#[trigger] others[a]).endpoint_id
                == store.map()[g].fact.subject,
{
    let fs = store.map();
    let list = store.list();
    let ids = ids_of(list);
    store.lemma_lists();
    assert(ids.contains(g));
    let j = choose|j: int| 0 <= j < ids.len() && ids[j] == g;
    assert(fs.dom().contains(ids[j]) && fs[ids[j]] == list[j]);
    assert(live_grant(fs, root, now_ms, ids[j]));
    assert(listed(list, places, list[j].fact.subject));
    reveal(listed);
    let a = choose|a: int|
        0 <= a < places.len() && list[#[trigger] places[a] as int].fact.subject
            == list[j].fact.subject;
    lemma_project_granted(store, root, now_ms, places, a);
    assert(others[a].endpoint_id == fs[g].fact.subject);
}

/// Members in order, with the root in its place, are in order and leave nobody out.
proof fn lemma_root_inserted(
    fs: Map<Seq<u8>, SignedView>,
    root: Seq<u8>,
    genesis_ms: u64,
    now_ms: u64,
    others: Seq<MemberView>,
    p: int,
)
    requires
        root.len() == 32,
        forall|k: int|
            0 <= k < others.len() ==> other_member(fs, root, now_ms, #[trigger] others[k]),
        forall|i: int, j: int|
            0 <= i < j < others.len() ==> endpoint_before(
                (#[trigger] others[i]).endpoint_id,
                (#[trigger] others[j]).endpoint_id,
            ),
        forall|g: Seq<u8>| #[trigger]
            live_grant(fs, root, now_ms, g) ==> exists|a: int|
                0 <= a < others.len() && (#[trigger] others[a]).endpoint_id == fs[g].fact.subject,
        0 <= p <= others.len(),
        forall|k: int| 0 <= k < p ==> endpoint_before((#[trigger] others[k]).endpoint_id, root),
        p < others.len() ==> !endpoint_before(others[p].endpoint_id, root),
    ensures
        is_projection(
            fs,
            root,
            genesis_ms,
            now_ms,
            others.insert(p, root_member(fs, root, genesis_ms, now_ms)),
        ),
{
    let rm = root_member(fs, root, genesis_ms, now_ms);
    let ms = others.insert(p, rm);
    assert forall|k: int| p <= k < others.len() implies endpoint_before(
        root,
        (#[trigger] others[k]).endpoint_id,
    ) by {
        assert(other_member(fs, root, now_ms, others[p]));
        let y = others[p].endpoint_id;
        if be_value(y) == be_value(root) {
            lemma_be_value_injective(y, root);
        }
        if k > p {
            assert(endpoint_before(others[p].endpoint_id, others[k].endpoint_id));
        }
    }
    assert(ms[p] == rm);
    assert forall|i: int| 0 <= i < ms.len() implies #[trigger] ms[i] == rm || granted(
        fs,
        root,
        now_ms,
        ms[i],
    ) by {
        if i < p {
            assert(ms[i] == others[i]);
            assert(other_member(fs, root, now_ms, others[i]));
        } else if i > p {
            assert(ms[i] == others[i - 1]);
            assert(other_member(fs, root, now_ms, others[i - 1]));
        }
    }
    assert forall|i: int, j: int| 0 <= i < j < ms.len() implies endpoint_before(
        (#[trigger] ms[i]).endpoint_id,
        (#[trigger] ms[j]).endpoint_id,
    ) by {
        if j < p {
            assert(ms[i] == others[i] && ms[j] == others[j]);
        } else if i > p {
            assert(ms[i] == others[i - 1] && ms[j] == others[j - 1]);
        } else if i < p && j > p {
            assert(ms[i] == others[i] && ms[j] == others[j - 1]);
        } else if i == p {
            assert(ms[j] == others[j - 1]);
        } else {
            assert(ms[i] == others[i]);
        }
    }
    assert forall|g: Seq<u8>| #[trigger] live_grant(fs, root, now_ms, g) implies exists|i: int|
        0 <= i < ms.len() && (#[trigger] ms[i]).endpoint_id == fs[g].fact.subject by {
        let a = choose|a: int|
            0 <= a < others.len() && (#[trigger] others[a]).endpoint_id == fs[g].fact.subject;
        if a < p {
            assert(ms[a] == others[a]);
        } else {
            assert(ms[a + 1] == others[a]);
        }
    }
}

/// The earliest grant of an endpoint makes it a member.
proof fn lemma_project_granted(
    store: &FactStore,
    root: Seq<u8>,
    now_ms: u64,
    places: Seq<usize>,
    k: int,
)
    requires
        store.wf(),
        admitting(store, root, now_ms, places, store.list().len() as int),
        0 <= k < places.len(),
    ensures
        ({
            let m = member_by(store.map(), now_ms, ids_of(store.list())[places[k] as int]);
            &&& granted(store.map(), root, now_ms, m)
            &&& m.endpoint_id == store.list()[places[k] as int].fact.subject
            &&& m.endpoint_id.len() == 32
            &&& m.endpoint_id != root
        }),
{
    let fs = store.map();
    let list = store.list();
    let ids = ids_of(list);
    let g = ids[places[k] as int];
    let m = member_by(fs, now_ms, g);
    let e = m.endpoint_id;
    store.lemma_lists();
    assert(live_grant(fs, root, now_ms, ids[places[k] as int]));
    assert(fs.dom().contains(g) && fs[g] == list[places[k] as int]);
    assert forall|h: Seq<u8>| #[trigger]
        live_grant(fs, root, now_ms, h) && fs[h].fact.subject == e && h != g implies earlier(
        fs,
        g,
        h,
    ) by {
        assert(ids.contains(h));
        let j = choose|j: int| 0 <= j < ids.len() && ids[j] == h;
        assert(fs.dom().contains(ids[j]) && fs[ids[j]] == list[j]);
        assert(j != places[k]);
    }
    assert(admits(fs, root, now_ms, e, g));
    reveal(granted);
}

/// Whether an endpoint is a member at a moment.
pub fn has_member(store: &FactStore, root: &EndpointId, now_ms: u64, e: &EndpointId) -> (r: bool)
    requires
        store.wf(),
    ensures
        r == member_at(store.map(), root@, now_ms, e@),
{
    if e.same(root) {
        return true;
    }
    let members = project(store, root, 0, now_ms);
    proof {
        projection_lists_the_members(
            store.map(),
            root@,
            0,
            now_ms,
            member_views(members@),
            e@,
        );
    }
    let mut i: usize = 0;
    while i < members.len()
        invariant
            i <= members@.len(),
            member_at(store.map(), root@, now_ms, e@) <==> exists|k: int|
                0 <= k < members@.len() && (#[trigger] member_views(members@)[k]).endpoint_id
                    == e@,
            forall|k: int|
                0 <= k < i ==> (#[trigger] member_views(members@)[k]).endpoint_id != e@,
        decreases members@.len() - i,
    {
        if members[i].endpoint_id.same(e) {
            assert(member_views(members@)[i as int].endpoint_id == e@);
            return true;
        }
        i = i + 1;
    }
    false
}

} // verus!
