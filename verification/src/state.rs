//! The connection registry: the process-wide record of which clients are
//! online per user, each bound to the sending half of its outbound
//! channel.  The registry is the only shared mutable state of the relay;
//! its owner serialises all access, so every operation here is a plain
//! exclusive-borrow method.
//!
//! The registry is modelled as a map from user id to the ordered sequence
//! of that user's registered clients.  A user's key is created on first
//! registration and deliberately left in place when the last client
//! leaves: a user once seen stays present with an empty sequence.

use vstd::prelude::*;

use crate::error::AppError;
use crate::jwt::Keys;
use crate::user::{Client, ClientV};
use crate::websocket::Frame;

verus! {

/// Declares tokio's unbounded channel sender so registry entries can hold
/// one; the type stays opaque here.
#[verifier::external_type_specification]
#[verifier::external_body]
#[verifier::reject_recursive_types(T)]
pub struct ExUnboundedSender<T>(tokio::sync::mpsc::UnboundedSender<T>);

/// Relies on tokio::sync::mpsc::UnboundedSender::send: queues the frame
/// for the receiving half without blocking and fails exactly when the
/// receiver has been dropped.  Nothing is assumed of the outcome.
#[verifier::external_body]
fn send_frame(tx: &tokio::sync::mpsc::UnboundedSender<Frame>, frame: Frame) -> (r: bool) {
    tx.send(frame).is_ok()
}

/// One registered device: the client record and its outbound channel.
struct ClientEntry {
    client: Client,
    tx: tokio::sync::mpsc::UnboundedSender<Frame>,
}

/// All devices of one user, in registration order.
struct UserEntry {
    user_id: i64,
    clients: Vec<ClientEntry>,
}

/// The shared state: the signing keys and the connection registry.
pub struct AppState {
    keys: Keys,
    users: Vec<UserEntry>,
}

spec fn entry_views(s: Seq<ClientEntry>) -> Seq<ClientV> {
    s.map_values(|e: ClientEntry| e.client@)
}

pub open spec fn views_of(s: Seq<Client>) -> Seq<ClientV> {
    s.map_values(|c: Client| c@)
}

pub open spec fn seq_has_client(s: Seq<ClientV>, cid: Seq<char>) -> bool {
    exists|i: int| 0 <= i < s.len() && s[i].id == cid
}

pub open spec fn seq_client_index(s: Seq<ClientV>, cid: Seq<char>) -> int {
    choose|i: int| 0 <= i < s.len() && s[i].id == cid
}

pub open spec fn distinct_client_ids(s: Seq<ClientV>) -> bool {
    forall|i: int, j: int| 0 <= i < j < s.len() ==> s[i].id != s[j].id
}

/// The client registered under `(uid, cid)`, if any.
pub open spec fn lookup_in(m: Map<int, Seq<ClientV>>, uid: int, cid: Seq<char>) -> Option<
    ClientV,
> {
    if m.contains_key(uid) && seq_has_client(m[uid], cid) {
        Option::Some(m[uid][seq_client_index(m[uid], cid)])
    } else {
        Option::None
    }
}

/// A user's registered clients; a user never seen has none.
pub open spec fn user_clients(m: Map<int, Seq<ClientV>>, uid: int) -> Seq<ClientV> {
    if m.contains_key(uid) {
        m[uid]
    } else {
        Seq::empty()
    }
}

/// Registration overwrites an entry under the same client id in place and
/// appends a new one.
pub open spec fn seq_upsert(s: Seq<ClientV>, c: ClientV) -> Seq<ClientV> {
    if seq_has_client(s, c.id) {
        s.update(seq_client_index(s, c.id), c)
    } else {
        s.push(c)
    }
}

/// Deregistration removes the entry under the client id and is a no-op
/// when there is none.
pub open spec fn seq_remove_client(s: Seq<ClientV>, cid: Seq<char>) -> Seq<ClientV> {
    if seq_has_client(s, cid) {
        s.remove(seq_client_index(s, cid))
    } else {
        s
    }
}

/// The clients among the first `j` of `s` whose id is not `sender`, in
/// order: the prefix of the fan-out targets a broadcast has reached.
pub open spec fn targets_upto(s: Seq<ClientV>, sender: Seq<char>, j: int) -> Seq<ClientV>
    decreases j,
{
    if j <= 0 {
        Seq::empty()
    } else {
        let rest = targets_upto(s, sender, j - 1);
        if s[j - 1].id != sender {
            rest.push(s[j - 1])
        } else {
            rest
        }
    }
}

/// The peers a text frame from `sender` is fanned out to: every client of
/// the user except the sender itself, in registration order.
pub open spec fn text_targets(m: Map<int, Seq<ClientV>>, uid: int, sender: Seq<char>) -> Seq<
    ClientV,
> {
    targets_upto(user_clients(m, uid), sender, user_clients(m, uid).len() as int)
}

/// Upserting changes no other id's presence: afterwards an id is present
/// exactly when it is the new client's or was present before.
pub proof fn lemma_upsert_has(s: Seq<ClientV>, c: ClientV, d: Seq<char>)
    ensures
        seq_has_client(seq_upsert(s, c), d) == (d == c.id || seq_has_client(s, d)),
{
    let s2 = seq_upsert(s, c);
    if seq_has_client(s, c.id) {
        let k = seq_client_index(s, c.id);
        assert(0 <= k < s.len() && s[k].id == c.id);
        if seq_has_client(s2, d) {
            let i = choose|i: int| 0 <= i < s2.len() && s2[i].id == d;
            if i != k {
                assert(s[i].id == d);
                assert(seq_has_client(s, d));
            }
        }
        if d == c.id {
            assert(s2[k].id == d);
            assert(seq_has_client(s2, d));
        }
        if seq_has_client(s, d) {
            let i = choose|i: int| 0 <= i < s.len() && s[i].id == d;
            if i == k {
                assert(s2[k].id == c.id);
                assert(seq_has_client(s2, c.id));
            } else {
                assert(s2[i].id == d);
                assert(seq_has_client(s2, d));
            }
        }
    } else {
        if seq_has_client(s2, d) {
            let i = choose|i: int| 0 <= i < s2.len() && s2[i].id == d;
            if i < s.len() {
                assert(s[i].id == d);
                assert(seq_has_client(s, d));
            }
        }
        if d == c.id {
            assert(s2[s.len() as int].id == d);
            assert(seq_has_client(s2, d));
        }
        if seq_has_client(s, d) {
            let i = choose|i: int| 0 <= i < s.len() && s[i].id == d;
            assert(s2[i].id == d);
            assert(seq_has_client(s2, d));
        }
    }
}

/// Removal takes exactly the named id away: afterwards an id is present
/// exactly when it was present before and is not the removed one.
pub proof fn lemma_remove_has(s: Seq<ClientV>, cid: Seq<char>, d: Seq<char>)
    requires
        distinct_client_ids(s),
    ensures
        seq_has_client(seq_remove_client(s, cid), d) == (seq_has_client(s, d) && d != cid),
{
    let s2 = seq_remove_client(s, cid);
    if seq_has_client(s, cid) {
        let k = seq_client_index(s, cid);
        assert(0 <= k < s.len() && s[k].id == cid);
        if seq_has_client(s2, d) {
            let i = choose|i: int| 0 <= i < s2.len() && s2[i].id == d;
            let i0 = if i < k {
                i
            } else {
                i + 1
            };
            assert(s2[i] == s[i0]);
            assert(seq_has_client(s, d));
            if d == cid {
                if i0 < k {
                    assert(s[i0].id != s[k].id);
                } else {
                    assert(s[k].id != s[i0].id);
                }
            }
        }
        if seq_has_client(s, d) && d != cid {
            let i0 = choose|i: int| 0 <= i < s.len() && s[i].id == d;
            assert(i0 != k);
            let i = if i0 < k {
                i0
            } else {
                i0 - 1
            };
            assert(s2[i] == s[i0]);
            assert(seq_has_client(s2, d));
        }
    } else {
        if d == cid {
        }
    }
}

/// Upserting keeps client ids distinct.
pub proof fn lemma_upsert_distinct(s: Seq<ClientV>, c: ClientV)
    requires
        distinct_client_ids(s),
    ensures
        distinct_client_ids(seq_upsert(s, c)),
{
    let s2 = seq_upsert(s, c);
    if seq_has_client(s, c.id) {
        let k = seq_client_index(s, c.id);
        assert forall|a: int, b: int| 0 <= a < b < s2.len() implies s2[a].id != s2[b].id by {
            assert(s[a].id != s[b].id);
            assert(s[k].id == c.id);
        }
    } else {
        assert forall|a: int, b: int| 0 <= a < b < s2.len() implies s2[a].id != s2[b].id by {
            if b < s.len() {
                assert(s[a].id != s[b].id);
            } else {
                if s[a].id == c.id {
                    assert(seq_has_client(s, c.id));
                }
            }
        }
    }
}

/// Removal keeps client ids distinct.
pub proof fn lemma_remove_distinct(s: Seq<ClientV>, cid: Seq<char>)
    requires
        distinct_client_ids(s),
    ensures
        distinct_client_ids(seq_remove_client(s, cid)),
{
    let s2 = seq_remove_client(s, cid);
    if seq_has_client(s, cid) {
        let k = seq_client_index(s, cid);
        assert forall|a: int, b: int| 0 <= a < b < s2.len() implies s2[a].id != s2[b].id by {
            let a0 = if a < k {
                a
            } else {
                a + 1
            };
            let b0 = if b < k {
                b
            } else {
                b + 1
            };
            assert(s2[a] == s[a0]);
            assert(s2[b] == s[b0]);
            assert(s[a0].id != s[b0].id);
        }
    }
}

/// One step of registry history: what `add_client` and `delete_client`
/// do to the model.
pub enum RegOp {
    Register(int, ClientV),
    Deregister(int, Seq<char>),
}

pub open spec fn apply_op(m: Map<int, Seq<ClientV>>, op: RegOp) -> Map<int, Seq<ClientV>> {
    match op {
        RegOp::Register(uid, c) => m.insert(uid, seq_upsert(user_clients(m, uid), c)),
        RegOp::Deregister(uid, cid) => if m.contains_key(uid) {
            m.insert(uid, seq_remove_client(m[uid], cid))
        } else {
            m
        },
    }
}

pub open spec fn apply_ops(m: Map<int, Seq<ClientV>>, ops: Seq<RegOp>) -> Map<int, Seq<ClientV>>
    decreases ops.len(),
{
    if ops.len() == 0 {
        m
    } else {
        apply_op(apply_ops(m, ops.drop_last()), ops.last())
    }
}

/// Whether an operation concerns the pair `(uid, cid)`.
pub open spec fn op_hits(op: RegOp, uid: int, cid: Seq<char>) -> bool {
    match op {
        RegOp::Register(u, c) => u == uid && c.id == cid,
        RegOp::Deregister(u, d) => u == uid && d == cid,
    }
}

pub open spec fn any_hit(ops: Seq<RegOp>, uid: int, cid: Seq<char>) -> bool
    decreases ops.len(),
{
    if ops.len() == 0 {
        false
    } else {
        op_hits(ops.last(), uid, cid) || any_hit(ops.drop_last(), uid, cid)
    }
}

/// Whether the last operation concerning `(uid, cid)` was a registration.
pub open spec fn registered_after(ops: Seq<RegOp>, uid: int, cid: Seq<char>) -> bool
    decreases ops.len(),
{
    if ops.len() == 0 {
        false
    } else if op_hits(ops.last(), uid, cid) {
        ops.last() is Register
    } else {
        registered_after(ops.drop_last(), uid, cid)
    }
}

/// Every value of the model keeps distinct client ids.
pub open spec fn map_distinct(m: Map<int, Seq<ClientV>>) -> bool {
    forall|u: int| m.contains_key(u) ==> distinct_client_ids(#[trigger] m[u])
}

proof fn lemma_apply_op_distinct(m: Map<int, Seq<ClientV>>, op: RegOp)
    requires
        map_distinct(m),
    ensures
        map_distinct(apply_op(m, op)),
{
    match op {
        RegOp::Register(uid, c) => {
            if m.contains_key(uid) {
                lemma_upsert_distinct(m[uid], c);
            } else {
                lemma_upsert_distinct(Seq::<ClientV>::empty(), c);
            }
        },
        RegOp::Deregister(uid, cid) => {
            if m.contains_key(uid) {
                lemma_remove_distinct(m[uid], cid);
            }
        },
    }
}

proof fn lemma_apply_ops_distinct(m: Map<int, Seq<ClientV>>, ops: Seq<RegOp>)
    requires
        map_distinct(m),
    ensures
        map_distinct(apply_ops(m, ops)),
    decreases ops.len(),
{
    if ops.len() > 0 {
        lemma_apply_ops_distinct(m, ops.drop_last());
        lemma_apply_op_distinct(apply_ops(m, ops.drop_last()), ops.last());
    }
}

proof fn lemma_history_from(m: Map<int, Seq<ClientV>>, ops: Seq<RegOp>, uid: int, cid: Seq<char>)
    requires
        map_distinct(m),
    ensures
        (lookup_in(apply_ops(m, ops), uid, cid) is Some) == (if any_hit(ops, uid, cid) {
            registered_after(ops, uid, cid)
        } else {
            lookup_in(m, uid, cid) is Some
        }),
    decreases ops.len(),
{
    if ops.len() > 0 {
        let prefix = ops.drop_last();
        lemma_history_from(m, prefix, uid, cid);
        lemma_apply_ops_distinct(m, prefix);
        let m1 = apply_ops(m, prefix);
        let m2 = apply_op(m1, ops.last());
        match ops.last() {
            RegOp::Register(u, c) => {
                lemma_upsert_has(user_clients(m1, u), c, cid);
                if u == uid {
                    if c.id == cid {
                        assert(m2.contains_key(uid));
                        assert(seq_has_client(m2[uid], cid));
                    } else {
                        assert(m2[uid] == seq_upsert(user_clients(m1, uid), c));
                        if !m1.contains_key(uid) {
                            assert(user_clients(m1, uid) == Seq::<ClientV>::empty());
                            if seq_has_client(m2[uid], cid) {
                                assert(seq_has_client(Seq::<ClientV>::empty(), cid));
                            }
                        }
                    }
                } else {
                    assert(m2.contains_key(uid) == m1.contains_key(uid));
                    assert(m1.contains_key(uid) ==> m2[uid] == m1[uid]);
                }
            },
            RegOp::Deregister(u, d) => {
                if m1.contains_key(u) {
                    lemma_remove_has(m1[u], d, cid);
                    if u == uid {
                        assert(m2[uid] == seq_remove_client(m1[uid], d));
                    } else {
                        assert(m2.contains_key(uid) == m1.contains_key(uid));
                        assert(m1.contains_key(uid) ==> m2[uid] == m1[uid]);
                    }
                } else {
                    assert(m2 == m1);
                }
            },
        }
    }
}

/// The registry's history law: starting from an empty registry, a pair
/// `(uid, cid)` is found by `lookup_in` exactly when the last operation
/// concerning it was a registration — registrations under an existing id
/// overwrite rather than accumulate, and a single deregistration removes
/// the pair no matter how often it was registered before.
pub proof fn lemma_registry_history(ops: Seq<RegOp>, uid: int, cid: Seq<char>)
    ensures
        (lookup_in(apply_ops(Map::<int, Seq<ClientV>>::empty(), ops), uid, cid) is Some)
            == registered_after(ops, uid, cid),
{
    lemma_history_from(Map::<int, Seq<ClientV>>::empty(), ops, uid, cid);
    assert(!Map::<int, Seq<ClientV>>::empty().contains_key(uid));
    if !any_hit(ops, uid, cid) {
        lemma_no_hit_not_registered(ops, uid, cid);
    }
}

proof fn lemma_no_hit_not_registered(ops: Seq<RegOp>, uid: int, cid: Seq<char>)
    requires
        !any_hit(ops, uid, cid),
    ensures
        !registered_after(ops, uid, cid),
    decreases ops.len(),
{
    if ops.len() > 0 {
        lemma_no_hit_not_registered(ops.drop_last(), uid, cid);
    }
}

/// Two registration attempts for one `(user, client id)` pair: after the
/// first has succeeded the pair is present, so by the contract of
/// `register_if_absent` the second attempt is refused with
/// `AlreadyConnected` and the registry keeps the first attempt's entry
/// untouched.
pub proof fn lemma_duplicate_upgrade(m: Map<int, Seq<ClientV>>, uid: int, c1: ClientV)
    requires
        lookup_in(m, uid, c1.id) is None,
    ensures
        lookup_in(m.insert(uid, user_clients(m, uid).push(c1)), uid, c1.id) == Option::Some(c1),
{
    let s = user_clients(m, uid);
    let s2 = s.push(c1);
    let m2 = m.insert(uid, s2);
    assert(s2[s.len() as int].id == c1.id);
    assert(seq_has_client(s2, c1.id));
    let k = seq_client_index(s2, c1.id);
    if k < s.len() {
        assert(s[k].id == c1.id);
        assert(seq_has_client(s, c1.id));
        assert(m.contains_key(uid) ==> !seq_has_client(m[uid], c1.id));
        assert(!m.contains_key(uid) ==> s == Seq::<ClientV>::empty());
    }
    assert(m2[uid][k] == c1);
}

/// A deregistration leaves the pair absent while the user's own key
/// survives with their remaining clients.
pub proof fn lemma_close_deregisters(m: Map<int, Seq<ClientV>>, uid: int, cid: Seq<char>)
    requires
        m.contains_key(uid),
        distinct_client_ids(m[uid]),
    ensures
        lookup_in(m.insert(uid, seq_remove_client(m[uid], cid)), uid, cid) is None,
        m.insert(uid, seq_remove_client(m[uid], cid)).contains_key(uid),
{
    lemma_remove_has(m[uid], cid, cid);
}

/// A text broadcast is aimed at exactly the sender's peers: no target
/// carries the sender's id, and every client of the user other than the
/// sender is among the targets.
pub proof fn lemma_broadcast_targets(s: Seq<ClientV>, sender: Seq<char>, j: int)
    requires
        0 <= j <= s.len(),
    ensures
        forall|k: int|
            0 <= k < targets_upto(s, sender, j).len() ==> #[trigger] targets_upto(
                s,
                sender,
                j,
            )[k].id != sender,
        forall|k: int|
            0 <= k < j && s[k].id != sender ==> targets_upto(s, sender, j).contains(#[trigger] s[k]),
    decreases j,
{
    if j > 0 {
        lemma_broadcast_targets(s, sender, j - 1);
        let t0 = targets_upto(s, sender, j - 1);
        let t = targets_upto(s, sender, j);
        if s[j - 1].id != sender {
            assert(t == t0.push(s[j - 1]));
            assert forall|k: int| 0 <= k < j && s[k].id != sender implies t.contains(
                #[trigger] s[k],
            ) by {
                if k == j - 1 {
                    assert(t[t0.len() as int] == s[j - 1]);
                } else {
                    assert(t0.contains(s[k]));
                    let i = choose|i: int| 0 <= i < t0.len() && t0[i] == s[k];
                    assert(t[i] == s[k]);
                }
            }
        }
    }
}

/// Later prefixes never hold fewer targets.
proof fn lemma_targets_mono(s: Seq<ClientV>, sender: Seq<char>, j: int, k: int)
    requires
        0 <= j <= k <= s.len(),
    ensures
        targets_upto(s, sender, j).len() <= targets_upto(s, sender, k).len(),
    decreases k - j,
{
    if j < k {
        lemma_targets_mono(s, sender, j, k - 1);
    }
}

/// A peer still ahead of position `j` makes the full target set strictly
/// larger than the targets reached so far.
proof fn lemma_targets_strict(s: Seq<ClientV>, sender: Seq<char>, j: int)
    requires
        0 <= j < s.len(),
        s[j].id != sender,
    ensures
        targets_upto(s, sender, j).len() < targets_upto(s, sender, s.len() as int).len(),
{
    assert(targets_upto(s, sender, j + 1) == targets_upto(s, sender, j).push(s[j]));
    lemma_targets_mono(s, sender, j + 1, s.len() as int);
}

spec fn users_has(users: Seq<UserEntry>, uid: int) -> bool {
    exists|i: int| 0 <= i < users.len() && users[i].user_id == uid
}

spec fn user_idx(users: Seq<UserEntry>, uid: int) -> int {
    choose|i: int| 0 <= i < users.len() && users[i].user_id == uid
}

spec fn users_distinct(users: Seq<UserEntry>) -> bool {
    forall|i: int, j: int| 0 <= i < j < users.len() ==> users[i].user_id != users[j].user_id
}

spec fn users_view(users: Seq<UserEntry>) -> Map<int, Seq<ClientV>> {
    Map::new(
        |uid: int| users_has(users, uid),
        |uid: int| entry_views(users[user_idx(users, uid)].clients@),
    )
}

/// Any index holding `uid` is the chosen one: user ids are distinct.
proof fn lemma_user_idx(users: Seq<UserEntry>, i: int)
    requires
        users_distinct(users),
        0 <= i < users.len(),
    ensures
        users_has(users, users[i].user_id as int),
        user_idx(users, users[i].user_id as int) == i,
{
    let uid = users[i].user_id as int;
    assert(users_has(users, uid));
    let k = user_idx(users, uid);
    if k < i {
        assert(users[k].user_id != users[i].user_id);
    } else if i < k {
        assert(users[i].user_id != users[k].user_id);
    }
}

/// Replacing one user's clients updates exactly that user's image.
proof fn lemma_view_update(users: Seq<UserEntry>, i: int, e: UserEntry)
    requires
        users_distinct(users),
        0 <= i < users.len(),
        e.user_id == users[i].user_id,
    ensures
        users_distinct(users.update(i, e)),
        users_view(users.update(i, e)) == users_view(users).insert(
            e.user_id as int,
            entry_views(e.clients@),
        ),
{
    let us2 = users.update(i, e);
    assert forall|a: int, b: int| 0 <= a < b < us2.len() implies us2[a].user_id
        != us2[b].user_id by {
        assert(users[a].user_id != users[b].user_id);
    }
    let m1 = users_view(users).insert(e.user_id as int, entry_views(e.clients@));
    let m2 = users_view(us2);
    assert forall|u: int| #[trigger] m2.contains_key(u) implies m1.contains_key(u) by {
        let k = choose|k: int| 0 <= k < us2.len() && us2[k].user_id == u;
        if k == i {
        } else {
            assert(users[k].user_id == u);
            assert(users_has(users, u));
        }
    }
    assert forall|u: int| #[trigger] m1.contains_key(u) implies m2.contains_key(u) by {
        if u == e.user_id as int {
            assert(us2[i].user_id == u);
        } else {
            let k = choose|k: int| 0 <= k < users.len() && users[k].user_id == u;
            assert(us2[k].user_id == u);
        }
    }
    assert forall|u: int| m2.contains_key(u) implies m2[u] == m1[u] by {
        if u == e.user_id as int {
            lemma_user_idx(us2, i);
            assert(m2[u] == entry_views(e.clients@));
        } else {
            let k = user_idx(us2, u);
            assert(0 <= k < us2.len() && us2[k].user_id == u);
            assert(k != i);
            assert(users[k].user_id == u);
            lemma_user_idx(users, k);
            assert(m2[u] == entry_views(users[k].clients@));
            assert(m1[u] == users_view(users)[u]);
        }
    }
    assert(m2 =~= m1);
}

/// Appending a fresh user adds exactly that user's image.
proof fn lemma_view_push(users: Seq<UserEntry>, e: UserEntry)
    requires
        users_distinct(users),
        !users_has(users, e.user_id as int),
    ensures
        users_distinct(users.push(e)),
        users_view(users.push(e)) == users_view(users).insert(
            e.user_id as int,
            entry_views(e.clients@),
        ),
{
    let us2 = users.push(e);
    assert forall|a: int, b: int| 0 <= a < b < us2.len() implies us2[a].user_id
        != us2[b].user_id by {
        if b == users.len() {
            assert(us2[a] == users[a]);
            if users[a].user_id == e.user_id {
                assert(users_has(users, e.user_id as int));
            }
        } else {
            assert(users[a].user_id != users[b].user_id);
        }
    }
    let m1 = users_view(users).insert(e.user_id as int, entry_views(e.clients@));
    let m2 = users_view(us2);
    assert forall|u: int| #[trigger] m2.contains_key(u) implies m1.contains_key(u) by {
        let k = choose|k: int| 0 <= k < us2.len() && us2[k].user_id == u;
        if k < users.len() {
            assert(users[k].user_id == u);
            assert(users_has(users, u));
        }
    }
    assert forall|u: int| #[trigger] m1.contains_key(u) implies m2.contains_key(u) by {
        if u == e.user_id as int {
            assert(us2[users.len() as int].user_id == u);
        } else {
            let k = choose|k: int| 0 <= k < users.len() && users[k].user_id == u;
            assert(us2[k].user_id == u);
        }
    }
    assert forall|u: int| m2.contains_key(u) implies m2[u] == m1[u] by {
        if u == e.user_id as int {
            lemma_user_idx(us2, users.len() as int);
            assert(m2[u] == entry_views(e.clients@));
        } else {
            let k = user_idx(us2, u);
            assert(0 <= k < us2.len() && us2[k].user_id == u);
            assert(k != users.len() as int);
            assert(users[k].user_id == u);
            lemma_user_idx(users, k);
            assert(m2[u] == entry_views(users[k].clients@));
            assert(m1[u] == users_view(users)[u]);
        }
    }
    assert(m2 =~= m1);
}

impl AppState {
    /// Well-formedness: user ids are distinct and every user's client ids
    /// are distinct.
    /// The signing secret this state was created with.
    pub closed spec fn secret(self) -> Seq<u8> {
        self.keys@
    }

    /// Borrow of the signing keys, for token issue and validation.
    pub fn keys(&self) -> (r: &Keys)
        ensures
            r@ == self.secret(),
    {
        &self.keys
    }

    pub closed spec fn wf(self) -> bool {
        &&& users_distinct(self.users@)
        &&& forall|k: int|
            0 <= k < self.users@.len() ==> distinct_client_ids(
                entry_views(#[trigger] self.users@[k].clients@),
            )
    }
}

impl AppState {
    /// The abstract invariant reaches the model: every user's image in
    /// the view keeps distinct client ids, so the public removal and
    /// upsert lemmas apply to any well-formed state.
    pub proof fn lemma_wf_map_distinct(&self)
        requires
            self.wf(),
        ensures
            map_distinct(self@),
    {
        assert forall|u: int| self@.contains_key(u) implies distinct_client_ids(
            #[trigger] self@[u],
        ) by {
            let k = user_idx(self.users@, u);
            assert(0 <= k < self.users@.len() && self.users@[k].user_id == u);
            assert(distinct_client_ids(entry_views(self.users@[k].clients@)));
        }
    }
}

impl View for AppState {
    type V = Map<int, Seq<ClientV>>;

    closed spec fn view(&self) -> Map<int, Seq<ClientV>> {
        users_view(self.users@)
    }
}

impl AppState {
    /// A fresh state knows no user at all.
    pub fn new(secret: &str) -> (r: Self)
        ensures
            r.wf(),
            r@ == Map::<int, Seq<ClientV>>::empty(),
            r.secret() == vstd::utf8::encode_utf8(secret@),
    {
        let r = AppState { keys: Keys::new(secret), users: Vec::new() };
        proof {
            assert(r@ =~= Map::<int, Seq<ClientV>>::empty());
        }
        r
    }

    fn find_user(&self, uid: i64) -> (r: Option<usize>)
        requires
            self.wf(),
        ensures
            match r {
                Option::Some(i) => {
                    &&& i < self.users@.len()
                    &&& self.users@[i as int].user_id == uid
                    &&& self@.contains_key(uid as int)
                    &&& self@[uid as int] == entry_views(self.users@[i as int].clients@)
                    &&& user_idx(self.users@, uid as int) == i as int
                },
                Option::None => !self@.contains_key(uid as int),
            },
    {
        let n = self.users.len();
        let mut i: usize = 0;
        while i < n
            invariant
                n == self.users@.len(),
                i <= n,
                self.wf(),
                forall|j: int| 0 <= j < i ==> self.users@[j].user_id != uid,
            decreases n - i,
        {
            if self.users[i].user_id == uid {
                proof {
                    lemma_user_idx(self.users@, i as int);
                }
                return Option::Some(i);
            }
            i += 1;
        }
        proof {
            if users_has(self.users@, uid as int) {
                let k = choose|k: int|
                    0 <= k < self.users@.len() && self.users@[k].user_id == uid;
                assert(self.users@[k].user_id != uid);
            }
        }
        Option::None
    }

    fn find_client_in(clients: &Vec<ClientEntry>, cid: &str) -> (r: Option<usize>)
        requires
            distinct_client_ids(entry_views(clients@)),
        ensures
            match r {
                Option::Some(j) => {
                    &&& j < clients@.len()
                    &&& entry_views(clients@)[j as int].id == cid@
                    &&& seq_has_client(entry_views(clients@), cid@)
                    &&& seq_client_index(entry_views(clients@), cid@) == j as int
                },
                Option::None => !seq_has_client(entry_views(clients@), cid@),
            },
    {
        let ghost views = entry_views(clients@);
        let n = clients.len();
        let mut j: usize = 0;
        while j < n
            invariant
                n == clients@.len(),
                j <= n,
                views == entry_views(clients@),
                distinct_client_ids(views),
                forall|k: int| 0 <= k < j ==> views[k].id != cid@,
            decreases n - j,
        {
            if crate::utils::str_eq(clients[j].client.id.as_str(), cid) {
                proof {
                    assert(views[j as int].id == cid@);
                    assert(seq_has_client(views, cid@));
                    let k = seq_client_index(views, cid@);
                    if k < j as int {
                        assert(views[k].id != views[j as int].id);
                    } else if (j as int) < k {
                        assert(views[j as int].id != views[k].id);
                    }
                }
                return Option::Some(j);
            }
            j += 1;
        }
        proof {
            if seq_has_client(views, cid@) {
                let k = choose|k: int| 0 <= k < views.len() && views[k].id == cid@;
                assert(views[k].id != cid@);
            }
        }
        Option::None
    }

    /// Inserts a client under `(uid, client.id)`, overwriting in place a
    /// client already registered under the same id.  The caller is
    /// expected to have performed the duplicate check under the same
    /// serialisation as this call; `register_if_absent` does both.
    pub fn add_client(
        &mut self,
        uid: i64,
        client: Client,
        tx: tokio::sync::mpsc::UnboundedSender<Frame>,
    )
        requires
            old(self).wf(),
        ensures
            final(self).wf(),
            final(self).secret() == old(self).secret(),
            final(self)@ == old(self)@.insert(
                uid as int,
                seq_upsert(user_clients(old(self)@, uid as int), client@),
            ),
    {
        let ghost m0 = old(self)@;
        let ghost cv = client@;
        let entry = ClientEntry { client, tx };
        match self.find_user(uid) {
            Option::Some(i) => {
                let ghost users0 = self.users@;
                let ghost cseq0 = entry_views(users0[i as int].clients@);
                match Self::find_client_in(&self.users[i].clients, entry.client.id.as_str()) {
                    Option::Some(j) => {
                        self.users[i].clients.remove(j);
                        self.users[i].clients.insert(j, entry);
                        proof {
                            let e2 = self.users@[i as int];
                            assert(self.users@ =~= users0.update(i as int, e2));
                            assert(e2.clients@ =~= users0[i as int].clients@.update(
                                j as int,
                                e2.clients@[j as int],
                            ));
                            assert(entry_views(e2.clients@) =~= cseq0.update(j as int, cv));
                            assert(seq_upsert(user_clients(m0, uid as int), cv) == cseq0.update(
                                j as int,
                                cv,
                            ));
                            assert forall|a: int, b: int|
                                0 <= a < b < cseq0.len() implies cseq0.update(j as int, cv)[a].id
                                != cseq0.update(j as int, cv)[b].id by {
                                assert(cseq0[a].id != cseq0[b].id);
                                assert(cseq0[j as int].id == cv.id);
                            }
                            lemma_view_update(users0, i as int, e2);
                        }
                    },
                    Option::None => {
                        self.users[i].clients.push(entry);
                        proof {
                            let e2 = self.users@[i as int];
                            assert(self.users@ =~= users0.update(i as int, e2));
                            assert(entry_views(e2.clients@) =~= cseq0.push(cv));
                            assert(seq_upsert(user_clients(m0, uid as int), cv) == cseq0.push(cv));
                            assert forall|a: int, b: int|
                                0 <= a < b < cseq0.push(cv).len() implies cseq0.push(cv)[a].id
                                != cseq0.push(cv)[b].id by {
                                if b < cseq0.len() {
                                    assert(cseq0[a].id != cseq0[b].id);
                                } else {
                                    if cseq0[a].id == cv.id {
                                        assert(seq_has_client(cseq0, cv.id));
                                    }
                                }
                            }
                            lemma_view_update(users0, i as int, e2);
                        }
                    },
                }
            },
            Option::None => {
                let ghost users0 = self.users@;
                let mut clients: Vec<ClientEntry> = Vec::new();
                clients.push(entry);
                let ghost singleton = clients@;
                self.users.push(UserEntry { user_id: uid, clients });
                proof {
                    let e2 = self.users@[users0.len() as int];
                    assert(self.users@ =~= users0.push(e2));
                    assert(!m0.contains_key(uid as int));
                    if users_has(users0, uid as int) {
                        assert(users_view(users0).contains_key(uid as int));
                    }
                    assert(entry_views(e2.clients@) =~= Seq::<ClientV>::empty().push(cv));
                    assert(user_clients(m0, uid as int) == Seq::<ClientV>::empty());
                    assert(!seq_has_client(Seq::<ClientV>::empty(), cv.id));
                    assert(seq_upsert(user_clients(m0, uid as int), cv)
                        == Seq::<ClientV>::empty().push(cv));
                    assert(distinct_client_ids(entry_views(e2.clients@)));
                    lemma_view_push(users0, e2);
                    assert forall|k: int|
                        0 <= k < self.users@.len() implies distinct_client_ids(
                        entry_views(#[trigger] self.users@[k].clients@),
                    ) by {
                        if k < users0.len() {
                            assert(self.users@[k] == users0[k]);
                        }
                    }
                }
            },
        }
    }

    /// Removes the entry under `(uid, client_id)`.  Removal is idempotent:
    /// a missing client, or a user never seen, changes nothing.  A user's
    /// key survives the removal of their last client.
    pub fn delete_client(&mut self, uid: &i64, client_id: &str)
        requires
            old(self).wf(),
        ensures
            final(self).wf(),
            final(self).secret() == old(self).secret(),
            old(self)@.contains_key(*uid as int) ==> final(self)@ == old(self)@.insert(
                *uid as int,
                seq_remove_client(old(self)@[*uid as int], client_id@),
            ),
            !old(self)@.contains_key(*uid as int) ==> *final(self) == *old(self),
    {
        let ghost m0 = old(self)@;
        match self.find_user(*uid) {
            Option::Some(i) => {
                let ghost users0 = self.users@;
                let ghost cseq0 = entry_views(users0[i as int].clients@);
                match Self::find_client_in(&self.users[i].clients, client_id) {
                    Option::Some(j) => {
                        self.users[i].clients.remove(j);
                        proof {
                            let e2 = self.users@[i as int];
                            assert(self.users@ =~= users0.update(i as int, e2));
                            assert(entry_views(e2.clients@) =~= cseq0.remove(j as int));
                            assert(seq_remove_client(m0[*uid as int], client_id@) == cseq0.remove(
                                j as int,
                            ));
                            let cs2 = cseq0.remove(j as int);
                            assert forall|a: int, b: int|
                                0 <= a < b < cs2.len() implies cs2[a].id != cs2[b].id by {
                                let a0 = if a < j as int {
                                    a
                                } else {
                                    a + 1
                                };
                                let b0 = if b < j as int {
                                    b
                                } else {
                                    b + 1
                                };
                                assert(cs2[a] == cseq0[a0]);
                                assert(cs2[b] == cseq0[b0]);
                                assert(cseq0[a0].id != cseq0[b0].id);
                            }
                            lemma_view_update(users0, i as int, e2);
                        }
                    },
                    Option::None => {
                        proof {
                            assert(seq_remove_client(m0[*uid as int], client_id@) == cseq0);
                            assert(m0.insert(*uid as int, cseq0) =~= m0);
                        }
                    },
                }
            },
            Option::None => {
            },
        }
    }

    /// The duplicate check and the registration as one atomic step: when
    /// `(uid, client.id)` already has a live connection, a best-effort
    /// notice is pushed to the existing connection, the attempt fails and
    /// the registry is untouched; otherwise the client is appended.
    pub fn register_if_absent(
        &mut self,
        uid: i64,
        client: Client,
        tx: tokio::sync::mpsc::UnboundedSender<Frame>,
    ) -> (r: Result<(), AppError>)
        requires
            old(self).wf(),
        ensures
            final(self).wf(),
            final(self).secret() == old(self).secret(),
            match r {
                Result::Ok(_) => {
                    &&& lookup_in(old(self)@, uid as int, client.id@) is None
                    &&& final(self)@ == old(self)@.insert(
                        uid as int,
                        user_clients(old(self)@, uid as int).push(client@),
                    )
                },
                Result::Err(e) => {
                    &&& e is AlreadyConnected
                    &&& lookup_in(old(self)@, uid as int, client.id@) is Some
                    &&& *final(self) == *old(self)
                },
            },
    {
        let ghost m0 = old(self)@;
        match self.find_user(uid) {
            Option::Some(i) => {
                match Self::find_client_in(&self.users[i].clients, client.id.as_str()) {
                    Option::Some(j) => {
                        send_frame(
                            &self.users[i].clients[j].tx,
                            Frame::Text("You are already connected".to_owned()),
                        );
                        return Result::Err(AppError::AlreadyConnected);
                    },
                    Option::None => {
                        proof {
                            assert(lookup_in(m0, uid as int, client.id@) is None);
                        }
                    },
                }
            },
            Option::None => {
                proof {
                    assert(lookup_in(m0, uid as int, client.id@) is None);
                }
            },
        }
        proof {
            assert(lookup_in(m0, uid as int, client.id@) is None);
            if m0.contains_key(uid as int) {
                assert(!seq_has_client(user_clients(m0, uid as int), client@.id));
            } else {
                assert(user_clients(m0, uid as int) == Seq::<ClientV>::empty());
            }
            assert(!seq_has_client(user_clients(m0, uid as int), client@.id));
        }
        self.add_client(uid, client, tx);
        Result::Ok(())
    }

    /// Every client currently registered under `uid`, in registration
    /// order; the answer to a "list my devices" query.
    pub fn get_clients(&self, uid: &i64) -> (r: Vec<Client>)
        requires
            self.wf(),
        ensures
            views_of(r@) == user_clients(self@, *uid as int),
    {
        let mut out: Vec<Client> = Vec::new();
        match self.find_user(*uid) {
            Option::Some(i) => {
                let ghost cs = entry_views(self.users@[i as int].clients@);
                let n = self.users[i].clients.len();
                let mut j: usize = 0;
                while j < n
                    invariant
                        self.wf(),
                        i < self.users@.len(),
                        n == self.users@[i as int].clients@.len(),
                        j <= n,
                        cs == entry_views(self.users@[i as int].clients@),
                        views_of(out@) == cs.subrange(0, j as int),
                    decreases n - j,
                {
                    out.push(self.users[i].clients[j].client.clone());
                    proof {
                        assert(cs.subrange(0, (j + 1) as int) =~= cs.subrange(0, j as int).push(
                            cs[j as int],
                        ));
                        assert(views_of(out@) =~= cs.subrange(0, j as int).push(cs[j as int]));
                    }
                    j += 1;
                }
                proof {
                    assert(cs.subrange(0, n as int) =~= cs);
                }
            },
            Option::None => {
                proof {
                    assert(views_of(out@) =~= Seq::<ClientV>::empty());
                }
            },
        }
        out
    }

    /// Fans a text frame out to the sender's peers: every other client of
    /// the same user, in registration order, until a peer's channel turns
    /// out closed.  Returns the clients the frame was handed over to and
    /// whether the fan-out was complete: a complete run reached every
    /// peer, an incomplete one stopped strictly short of the target set.
    pub fn broadcast_text(&self, uid: i64, sender_id: &str, text: &String) -> (r: (
        Vec<Client>,
        bool,
    ))
        requires
            self.wf(),
        ensures
            exists|j: int|
                0 <= j <= user_clients(self@, uid as int).len() && views_of(r.0@) == targets_upto(
                    user_clients(self@, uid as int),
                    sender_id@,
                    j,
                ),
            r.1 ==> views_of(r.0@) == text_targets(self@, uid as int, sender_id@),
            !r.1 ==> views_of(r.0@).len() < text_targets(self@, uid as int, sender_id@).len(),
    {
        let mut delivered: Vec<Client> = Vec::new();
        match self.find_user(uid) {
            Option::Some(i) => {
                let ghost cs = entry_views(self.users@[i as int].clients@);
                let n = self.users[i].clients.len();
                let mut j: usize = 0;
                while j < n
                    invariant
                        self.wf(),
                        i < self.users@.len(),
                        n == self.users@[i as int].clients@.len(),
                        j <= n,
                        cs == entry_views(self.users@[i as int].clients@),
                        cs == user_clients(self@, uid as int),
                        views_of(delivered@) == targets_upto(cs, sender_id@, j as int),
                    decreases n - j,
                {
                    let c = &self.users[i].clients[j];
                    if !crate::utils::str_eq(c.client.id.as_str(), sender_id) {
                        let ok = send_frame(&c.tx, Frame::Text(text.clone()));
                        if !ok {
                            proof {
                                assert(views_of(delivered@) == targets_upto(
                                    user_clients(self@, uid as int),
                                    sender_id@,
                                    j as int,
                                ));
                                lemma_targets_strict(cs, sender_id@, j as int);
                            }
                            return (delivered, false);
                        }
                        delivered.push(c.client.clone());
                        proof {
                            assert(cs[j as int].id != sender_id@);
                            assert(views_of(delivered@) =~= targets_upto(
                                cs,
                                sender_id@,
                                j as int,
                            ).push(cs[j as int]));
                            assert(views_of(delivered@) == targets_upto(
                                cs,
                                sender_id@,
                                j + 1 as int,
                            ));
                        }
                    } else {
                        proof {
                            assert(cs[j as int].id == sender_id@);
                            assert(targets_upto(cs, sender_id@, j + 1 as int) == targets_upto(
                                cs,
                                sender_id@,
                                j as int,
                            ));
                        }
                    }
                    j += 1;
                }
            },
            Option::None => {
                proof {
                    assert(user_clients(self@, uid as int) == Seq::<ClientV>::empty());
                    assert(views_of(delivered@) =~= Seq::<ClientV>::empty());
                    assert(targets_upto(Seq::<ClientV>::empty(), sender_id@, 0)
                        == Seq::<ClientV>::empty());
                }
            },
        }
        (delivered, true)
    }

    /// Replies to a ping: a pong carrying the same payload is pushed to
    /// the sender's own connection and to nobody else.  False when the
    /// pair is not registered or its channel is closed.
    pub fn send_pong(&self, uid: &i64, client_id: &str, payload: Vec<u8>) -> (r: bool)
        requires
            self.wf(),
        ensures
            r ==> lookup_in(self@, *uid as int, client_id@) is Some,
            lookup_in(self@, *uid as int, client_id@) is None ==> !r,
    {
        match self.find_user(*uid) {
            Option::Some(i) => {
                match Self::find_client_in(&self.users[i].clients, client_id) {
                    Option::Some(j) => send_frame(&self.users[i].clients[j].tx, Frame::Pong(payload)),
                    Option::None => false,
                }
            },
            Option::None => false,
        }
    }

    /// Pushes the in-band duplicate notice to an existing connection,
    /// best-effort; true only when the pair is registered, and an
    /// unregistered pair is never signalled.
    pub fn warn_already_connected(&self, uid: &i64, client_id: &str) -> (r: bool)
        requires
            self.wf(),
        ensures
            r ==> lookup_in(self@, *uid as int, client_id@) is Some,
            lookup_in(self@, *uid as int, client_id@) is None ==> !r,
    {
        match self.find_user(*uid) {
            Option::Some(i) => {
                match Self::find_client_in(&self.users[i].clients, client_id) {
                    Option::Some(j) => send_frame(
                        &self.users[i].clients[j].tx,
                        Frame::Text("You are already connected".to_owned()),
                    ),
                    Option::None => false,
                }
            },
            Option::None => false,
        }
    }

    /// Read-only lookup of one registered client; `None` when the pair is
    /// not registered.
    pub fn get_client(&self, uid: &i64, client_id: &str) -> (r: Option<Client>)
        requires
            self.wf(),
        ensures
            match r {
                Option::Some(c) => lookup_in(self@, *uid as int, client_id@) == Option::Some(c@),
                Option::None => lookup_in(self@, *uid as int, client_id@) is None,
            },
    {
        match self.find_user(*uid) {
            Option::Some(i) => {
                match Self::find_client_in(&self.users[i].clients, client_id) {
                    Option::Some(j) => Option::Some(self.users[i].clients[j].client.clone()),
                    Option::None => Option::None,
                }
            },
            Option::None => Option::None,
        }
    }
}

} // verus!
