//! The session registry: the table from peer id to that connection's
//! delivery queue, id assignment, membership announcements, and routing of
//! messages into the queues.

use vstd::prelude::*;
use crate::codec::{Message, encode_frames, parse_spec, reassembled_payload};
use crate::peers::{join_ids, join_ids_bytes, peers_payload, peers_payload_spec};

verus! {

/// One encoded logical message: its wire frames, in order.
pub type RawMessage = Vec<Vec<u8>>;

/// One registered connection: its peer id and the queue of encoded
/// messages awaiting delivery on that connection.
pub struct UserEntry {
    pub id: usize,
    pub queue: Vec<RawMessage>,
}

/// The mathematical value of a `UserEntry`.
#[verifier::ext_equal]
pub ghost struct UserModel {
    pub id: int,
    pub queue: Seq<Seq<Seq<u8>>>,
}

impl View for UserEntry {
    type V = UserModel;

    open spec fn view(&self) -> UserModel {
        UserModel { id: self.id as int, queue: self.queue.deep_view() }
    }
}

impl DeepView for UserEntry {
    type V = UserModel;

    open spec fn deep_view(&self) -> UserModel {
        self.view()
    }
}

/// The session table: registered connections in order of registration, and
/// the id the next registration receives. Id 0 is reserved for control
/// messages and never assigned.
pub struct GlobalState {
    pub users: Vec<UserEntry>,
    pub next_index: usize,
}

/// The mathematical value of the session table.
#[verifier::ext_equal]
pub ghost struct RegistryModel {
    pub users: Seq<UserModel>,
    pub next: int,
}

impl View for GlobalState {
    type V = RegistryModel;

    open spec fn view(&self) -> RegistryModel {
        RegistryModel { users: self.users.deep_view(), next: self.next_index as int }
    }
}

/// Well-formedness: ids start at 1, stay below the next id to assign, and
/// strictly increase along the table, so no id is ever assigned twice.
pub open spec fn wf_model(m: RegistryModel) -> bool {
    &&& 1 <= m.next <= usize::MAX
    &&& forall|i: int| 0 <= i < m.users.len() ==> 1 <= #[trigger] m.users[i].id < m.next
    &&& forall|i: int, j: int|
        0 <= i < j < m.users.len() ==> #[trigger] m.users[i].id < #[trigger] m.users[j].id
}

impl GlobalState {
    /// Well-formedness of the table.
    pub open spec fn wf(&self) -> bool {
        wf_model(self@)
    }
}

/// The registered ids, in table order.
pub open spec fn ids_of(users: Seq<UserModel>) -> Seq<usize> {
    users.map_values(|u: UserModel| u.id as usize)
}

/// The announcement broadcast when membership becomes `ids`: the encoded
/// frames of the peer-list control message, from reserved peer id 0.
pub open spec fn announcement(ids: Seq<usize>) -> Seq<Seq<u8>> {
    encode_frames(0, peers_payload_spec(ids))
}

/// Every queue with one more message appended.
pub open spec fn broadcast_to(users: Seq<UserModel>, msg: Seq<Seq<u8>>) -> Seq<UserModel> {
    users.map_values(|u: UserModel| UserModel { id: u.id, queue: u.queue.push(msg) })
}

/// What registering does: a fresh entry with the next id and an empty
/// queue joins the table, the counter moves on, and every queue — the new
/// one included — receives the updated membership announcement.
pub open spec fn register_step(m: RegistryModel) -> RegistryModel {
    let with_new = m.users.push(UserModel { id: m.next, queue: Seq::<Seq<Seq<u8>>>::empty() });
    RegistryModel {
        users: broadcast_to(with_new, announcement(ids_of(with_new))),
        next: m.next + 1,
    }
}

/// The table without the entries of one id.
pub open spec fn remove_id(users: Seq<UserModel>, id: int) -> Seq<UserModel>
    decreases users.len(),
{
    if users.len() == 0 {
        Seq::<UserModel>::empty()
    } else if users.first().id == id {
        remove_id(users.drop_first(), id)
    } else {
        seq![users.first()] + remove_id(users.drop_first(), id)
    }
}

/// What deregistering does: the entry of that id leaves the table (a
/// no-op when it is absent) and every remaining queue receives the updated
/// membership announcement.
pub open spec fn deregister_step(m: RegistryModel, id: int) -> RegistryModel {
    let rest = remove_id(m.users, id);
    RegistryModel { users: broadcast_to(rest, announcement(ids_of(rest))), next: m.next }
}

/// Whether an id is registered.
pub open spec fn lookup_model(m: RegistryModel, id: int) -> bool {
    exists|i: int| 0 <= i < m.users.len() && #[trigger] m.users[i].id == id
}

/// The delivery queue of a registered id.
pub open spec fn queue_of(m: RegistryModel, id: int) -> Seq<Seq<Seq<u8>>> {
    let i = choose|i: int| 0 <= i < m.users.len() && #[trigger] m.users[i].id == id;
    m.users[i].queue
}

/// What taking one delivered message does: the first message leaves the
/// queue of that id; every other entry is untouched.
pub open spec fn take_step(m: RegistryModel, id: int) -> RegistryModel {
    RegistryModel {
        users: m.users.map_values(
            |u: UserModel|
                if u.id == id && u.queue.len() > 0 {
                    UserModel { id: u.id, queue: u.queue.drop_first() }
                } else {
                    u
                },
        ),
        next: m.next,
    }
}

/// What routing does: the destination's queue receives the encoded
/// message; every other entry is untouched.
pub open spec fn route_step(m: RegistryModel, dst: int, frames: Seq<Seq<u8>>) -> RegistryModel {
    RegistryModel {
        users: m.users.map_values(
            |u: UserModel|
                if u.id == dst {
                    UserModel { id: u.id, queue: u.queue.push(frames) }
                } else {
                    u
                },
        ),
        next: m.next,
    }
}

/// Appending an entry and then removing an id is removing the id and then
/// appending the entry, unless the entry carries that id.
proof fn lemma_remove_id_snoc(users: Seq<UserModel>, u: UserModel, id: int)
    ensures
        remove_id(users.push(u), id) == remove_id(users, id) + (if u.id == id {
            Seq::<UserModel>::empty()
        } else {
            seq![u]
        }),
    decreases users.len(),
{
    reveal_with_fuel(remove_id, 3);
    let w = users.push(u);
    if users.len() == 0 {
        assert(w.len() == 1 && w.first() == u);
        assert(w.drop_first() =~= Seq::<UserModel>::empty());
        if u.id == id {
            assert(remove_id(w, id) =~= remove_id(users, id) + Seq::<UserModel>::empty());
        } else {
            assert(remove_id(w, id) =~= remove_id(users, id) + seq![u]);
        }
    } else {
        assert(w.first() == users.first());
        assert(w.drop_first() =~= users.drop_first().push(u));
        lemma_remove_id_snoc(users.drop_first(), u, id);
        if users.first().id == id {
            assert(remove_id(w, id) == remove_id(users.drop_first().push(u), id));
        } else {
            assert(remove_id(w, id) == seq![users.first()] + remove_id(
                users.drop_first().push(u),
                id,
            ));
            assert(remove_id(w, id) =~= remove_id(users, id) + (if u.id == id {
                Seq::<UserModel>::empty()
            } else {
                seq![u]
            }));
        }
    }
}

/// Every entry that survives a removal stood in the table before, and none
/// of them carries the removed id.
proof fn lemma_remove_id_membership(users: Seq<UserModel>, id: int)
    ensures
        forall|k: int|
            0 <= k < remove_id(users, id).len() ==> exists|j: int|
                0 <= j < users.len() && #[trigger] remove_id(users, id)[k] == users[j],
        forall|k: int|
            0 <= k < remove_id(users, id).len() ==> #[trigger] remove_id(users, id)[k].id != id,
    decreases users.len(),
{
    if users.len() > 0 {
        let rest = users.drop_first();
        lemma_remove_id_membership(rest, id);
        let res = remove_id(users, id);
        if users.first().id == id {
            assert forall|k: int| 0 <= k < res.len() implies exists|j: int|
                0 <= j < users.len() && #[trigger] res[k] == users[j] by {
                assert(res[k] == remove_id(rest, id)[k]);
                let j = choose|j: int| 0 <= j < rest.len() && remove_id(rest, id)[k] == rest[j];
                assert(res[k] == users[j + 1]);
            }
            assert forall|k: int| 0 <= k < res.len() implies #[trigger] res[k].id != id by {
                assert(res[k] == remove_id(rest, id)[k]);
            }
        } else {
            assert forall|k: int| 0 <= k < res.len() implies exists|j: int|
                0 <= j < users.len() && #[trigger] res[k] == users[j] by {
                if k == 0 {
                    assert(res[0] == users[0]);
                } else {
                    assert(res[k] == remove_id(rest, id)[k - 1]);
                    let j = choose|j: int|
                        0 <= j < rest.len() && remove_id(rest, id)[k - 1] == rest[j];
                    assert(res[k] == users[j + 1]);
                }
            }
            assert forall|k: int| 0 <= k < res.len() implies #[trigger] res[k].id != id by {
                if k > 0 {
                    assert(res[k] == remove_id(rest, id)[k - 1]);
                }
            }
        }
    } else {
        assert(remove_id(users, id).len() == 0);
    }
}

/// Removing an id keeps the remaining ids strictly increasing.
proof fn lemma_remove_id_sorted(users: Seq<UserModel>, id: int)
    requires
        forall|i: int, j: int|
            0 <= i < j < users.len() ==> #[trigger] users[i].id < #[trigger] users[j].id,
    ensures
        forall|i: int, j: int|
            0 <= i < j < remove_id(users, id).len() ==> #[trigger] remove_id(users, id)[i].id
                < #[trigger] remove_id(users, id)[j].id,
    decreases users.len(),
{
    if users.len() > 0 {
        let rest = users.drop_first();
        assert(forall|i: int, j: int|
            0 <= i < j < rest.len() ==> #[trigger] rest[i].id < #[trigger] rest[j].id);
        lemma_remove_id_sorted(rest, id);
        lemma_remove_id_membership(rest, id);
        let res = remove_id(users, id);
        if users.first().id != id {
            assert forall|i: int, j: int| 0 <= i < j < res.len() implies #[trigger] res[i].id
                < #[trigger] res[j].id by {
                if i == 0 {
                    assert(res[j] == remove_id(rest, id)[j - 1]);
                    let w = choose|w: int|
                        0 <= w < rest.len() && remove_id(rest, id)[j - 1] == rest[w];
                    assert(users.first().id < rest[w].id);
                } else {
                    assert(res[i] == remove_id(rest, id)[i - 1]);
                    assert(res[j] == remove_id(rest, id)[j - 1]);
                }
            }
        } else {
            assert forall|i: int, j: int| 0 <= i < j < res.len() implies #[trigger] res[i].id
                < #[trigger] res[j].id by {
                assert(res[i] == remove_id(rest, id)[i]);
                assert(res[j] == remove_id(rest, id)[j]);
            }
        }
    }
}

/// In a well-formed table an id names at most one entry, so the queue of
/// a registered id is the queue at its one position.
proof fn lemma_unique_position(m: RegistryModel, id: int, pos: int)
    requires
        wf_model(m),
        0 <= pos < m.users.len(),
        m.users[pos].id == id,
    ensures
        lookup_model(m, id),
        queue_of(m, id) == m.users[pos].queue,
{
    assert(lookup_model(m, id));
    let ci = choose|i: int| 0 <= i < m.users.len() && #[trigger] m.users[i].id == id;
    if ci < pos {
        assert(m.users[ci].id < m.users[pos].id);
    } else if ci > pos {
        assert(m.users[pos].id < m.users[ci].id);
    }
    assert(ci == pos);
}

/// A copy of a byte vector.
fn clone_bytes(v: &Vec<u8>) -> (r: Vec<u8>)
    ensures
        r@ == v@,
{
    let mut r: Vec<u8> = Vec::new();
    let mut i: usize = 0;
    while i < v.len()
        invariant
            0 <= i <= v@.len(),
            r@ == v@.take(i as int),
        decreases v@.len() - i,
    {
        r.push(v[i]);
        proof {
            assert(r@ =~= v@.take(i + 1));
        }
        i = i + 1;
    }
    proof {
        assert(v@.take(v@.len() as int) =~= v@);
    }
    r
}

/// A copy of an encoded message.
fn clone_frames(m: &RawMessage) -> (r: RawMessage)
    ensures
        r.deep_view() == m.deep_view(),
{
    let mut r: RawMessage = Vec::new();
    let mut i: usize = 0;
    while i < m.len()
        invariant
            0 <= i <= m@.len(),
            r.deep_view() == m.deep_view().take(i as int),
        decreases m@.len() - i,
    {
        let b = clone_bytes(&m[i]);
        let ghost prev = r.deep_view();
        r.push(b);
        proof {
            assert(m.deep_view().len() == m@.len());
            assert(prev.len() == i);
            assert(r.deep_view().len() == i + 1);
            assert forall|j: int| 0 <= j < i + 1 implies r.deep_view()[j] =~= m.deep_view().take(
                i + 1,
            )[j] by {
                if j < i {
                    assert(r.deep_view()[j] == prev[j]);
                    assert(prev[j] == m.deep_view().take(i as int)[j]);
                } else {
                    assert(r.deep_view()[j] == b.deep_view());
                    assert(b.deep_view() =~= b@);
                    assert(m.deep_view()[i as int] =~= m@[i as int]@);
                }
            }
            assert(r.deep_view() =~~= m.deep_view().take(i + 1));
        }
        i = i + 1;
    }
    proof {
        assert(m.deep_view().take(m@.len() as int) =~~= m.deep_view());
    }
    r
}

/// A copy of a queue with one more message at its end.
fn clone_queue_push(queue: &Vec<RawMessage>, frames: &RawMessage) -> (r: Vec<RawMessage>)
    ensures
        r.deep_view() == queue.deep_view().push(frames.deep_view()),
{
    let mut r: Vec<RawMessage> = Vec::new();
    let mut i: usize = 0;
    while i < queue.len()
        invariant
            0 <= i <= queue@.len(),
            r.deep_view() == queue.deep_view().take(i as int),
        decreases queue@.len() - i,
    {
        let f = clone_frames(&queue[i]);
        let ghost prev = r.deep_view();
        r.push(f);
        proof {
            assert(queue.deep_view().len() == queue@.len());
            assert(prev.len() == i);
            assert forall|j: int|
                0 <= j < i + 1 implies r.deep_view()[j] == queue.deep_view().take(i + 1)[j] by {
                if j < i {
                    assert(r.deep_view()[j] == prev[j]);
                } else {
                    assert(r.deep_view()[j] == f.deep_view());
                    assert(queue.deep_view()[i as int] == queue@[i as int].deep_view());
                }
            }
            assert(r.deep_view() =~~= queue.deep_view().take(i + 1));
        }
        i = i + 1;
    }
    let f = clone_frames(frames);
    let ghost prev = r.deep_view();
    r.push(f);
    proof {
        assert(r.deep_view().len() == prev.len() + 1);
        assert forall|j: int|
            0 <= j < prev.len() + 1 implies r.deep_view()[j] == prev.push(frames.deep_view())[j]
        by {
            if j < prev.len() {
                assert(r.deep_view()[j] == prev[j]);
            } else {
                assert(r.deep_view()[j] == f.deep_view());
            }
        }
        assert(r.deep_view() =~~= prev.push(frames.deep_view()));
        assert(queue.deep_view().take(queue@.len() as int) =~~= queue.deep_view());
        assert(r.deep_view() =~~= queue.deep_view().push(frames.deep_view()));
    }
    r
}

/// A copy of a queue.
fn clone_queue(queue: &Vec<RawMessage>) -> (r: Vec<RawMessage>)
    ensures
        r.deep_view() == queue.deep_view(),
{
    let mut r: Vec<RawMessage> = Vec::new();
    let mut i: usize = 0;
    while i < queue.len()
        invariant
            0 <= i <= queue@.len(),
            r.deep_view() == queue.deep_view().take(i as int),
        decreases queue@.len() - i,
    {
        let f = clone_frames(&queue[i]);
        let ghost prev = r.deep_view();
        r.push(f);
        proof {
            assert(queue.deep_view().len() == queue@.len());
            assert(prev.len() == i);
            assert forall|j: int|
                0 <= j < i + 1 implies r.deep_view()[j] == queue.deep_view().take(i + 1)[j] by {
                if j < i {
                    assert(r.deep_view()[j] == prev[j]);
                } else {
                    assert(r.deep_view()[j] == f.deep_view());
                    assert(queue.deep_view()[i as int] == queue@[i as int].deep_view());
                }
            }
            assert(r.deep_view() =~~= queue.deep_view().take(i + 1));
        }
        i = i + 1;
    }
    proof {
        assert(queue.deep_view().take(queue@.len() as int) =~~= queue.deep_view());
    }
    r
}

/// A copy of a queue without its first message.
fn clone_queue_tail(queue: &Vec<RawMessage>) -> (r: Vec<RawMessage>)
    requires
        queue@.len() >= 1,
    ensures
        r.deep_view() == queue.deep_view().drop_first(),
{
    let mut r: Vec<RawMessage> = Vec::new();
    let mut i: usize = 1;
    while i < queue.len()
        invariant
            1 <= i <= queue@.len(),
            r.deep_view() == queue.deep_view().subrange(1, i as int),
        decreases queue@.len() - i,
    {
        let f = clone_frames(&queue[i]);
        let ghost prev = r.deep_view();
        r.push(f);
        proof {
            assert(queue.deep_view().len() == queue@.len());
            assert(prev.len() == i - 1);
            assert forall|j: int|
                0 <= j < i implies r.deep_view()[j] == queue.deep_view().subrange(
                1,
                i + 1,
            )[j] by {
                if j < i - 1 {
                    assert(r.deep_view()[j] == prev[j]);
                    assert(prev[j] == queue.deep_view().subrange(1, i as int)[j]);
                } else {
                    assert(r.deep_view()[j] == f.deep_view());
                    assert(queue.deep_view()[i as int] == queue@[i as int].deep_view());
                }
            }
            assert(r.deep_view() =~~= queue.deep_view().subrange(1, i + 1));
        }
        i = i + 1;
    }
    proof {
        assert(queue.deep_view().subrange(1, queue@.len() as int)
            =~~= queue.deep_view().drop_first());
    }
    r
}

/// The table with one message appended to every queue.
fn broadcast_push(users: &Vec<UserEntry>, frames: &RawMessage) -> (r: Vec<UserEntry>)
    ensures
        r.deep_view() == broadcast_to(users.deep_view(), frames.deep_view()),
{
    let mut r: Vec<UserEntry> = Vec::new();
    let mut i: usize = 0;
    while i < users.len()
        invariant
            0 <= i <= users@.len(),
            r.deep_view() == broadcast_to(users.deep_view().take(i as int), frames.deep_view()),
        decreases users@.len() - i,
    {
        let q = clone_queue_push(&users[i].queue, frames);
        let entry = UserEntry { id: users[i].id, queue: q };
        let ghost prev = r.deep_view();
        r.push(entry);
        proof {
            let target = broadcast_to(users.deep_view().take(i + 1), frames.deep_view());
            assert(users.deep_view().len() == users@.len());
            assert(prev.len() == i);
            assert(target.len() == i + 1);
            assert forall|j: int| 0 <= j < i + 1 implies r.deep_view()[j] == target[j] by {
                if j < i {
                    assert(r.deep_view()[j] == prev[j]);
                    assert(prev[j] == broadcast_to(
                        users.deep_view().take(i as int),
                        frames.deep_view(),
                    )[j]);
                    assert(users.deep_view().take(i as int)[j] == users.deep_view().take(
                        i + 1,
                    )[j]);
                } else {
                    assert(r.deep_view()[j] == entry.deep_view());
                    assert(users.deep_view()[i as int] == users@[i as int].deep_view());
                    assert(entry.deep_view() =~~= target[j]);
                }
            }
            assert(r.deep_view() =~~= target);
        }
        i = i + 1;
    }
    proof {
        assert(users.deep_view().take(users@.len() as int) =~~= users.deep_view());
    }
    r
}

/// The registered ids, in table order.
fn collect_ids(users: &Vec<UserEntry>) -> (r: Vec<usize>)
    ensures
        r@ == ids_of(users.deep_view()),
{
    let mut r: Vec<usize> = Vec::new();
    let mut i: usize = 0;
    while i < users.len()
        invariant
            0 <= i <= users@.len(),
            r@ == ids_of(users.deep_view().take(i as int)),
        decreases users@.len() - i,
    {
        r.push(users[i].id);
        proof {
            assert(r@ =~= ids_of(users.deep_view().take(i + 1)));
        }
        i = i + 1;
    }
    proof {
        assert(users.deep_view().take(users@.len() as int) =~~= users.deep_view());
    }
    r
}

impl GlobalState {
    /// An empty table; the first registration receives id 1, since 0 is
    /// reserved for control messages.
    pub fn new() -> (r: Self)
        ensures
            r@ == (RegistryModel { users: Seq::<UserModel>::empty(), next: 1int }),
            r.wf(),
    {
        let r = GlobalState { users: Vec::new(), next_index: 1 };
        proof {
            assert(r@.users =~= Seq::<UserModel>::empty());
        }
        r
    }

    /// Registers a connection: assigns the next id, inserts an entry with
    /// an empty delivery queue, and broadcasts the updated peer list to
    /// every registered queue, the new one included.
    pub fn add_user(session: &mut Self) -> (r: usize)
        requires
            old(session).wf(),
            old(session).next_index < usize::MAX,
        ensures
            r == old(session)@.next,
            final(session)@ == register_step(old(session)@),
            final(session).wf(),
    {
        let idx = session.next_index;
        session.users.push(UserEntry { id: idx, queue: Vec::new() });
        session.next_index = idx + 1;
        proof {
            assert(session.users.deep_view() =~~= old(session)@.users.push(
                UserModel { id: idx as int, queue: Seq::<Seq<Seq<u8>>>::empty() },
            ));
        }
        let ids = collect_ids(&session.users);
        let payload = peers_payload(&ids);
        let frames = Message::encode(0, &payload);
        let updated = broadcast_push(&session.users, &frames);
        session.users = updated;
        proof {
            crate::codec::lemma_bytes_deep_view(payload);
            assert(frames.deep_view() == announcement(ids@));
            assert(session@ =~~= register_step(old(session)@));
            let m = session@;
            assert forall|i: int| 0 <= i < m.users.len() implies 1 <= #[trigger] m.users[i].id
                < m.next by {}
        }
        idx
    }

    /// Deregisters an id: its entry leaves the table (a no-op when the id
    /// is absent) and the updated peer list is broadcast to the remaining
    /// queues.
    pub fn remove_user(session: &mut Self, index: usize)
        requires
            old(session).wf(),
        ensures
            final(session)@ == deregister_step(old(session)@, index as int),
            final(session).wf(),
    {
        let mut kept: Vec<UserEntry> = Vec::new();
        let mut i: usize = 0;
        while i < session.users.len()
            invariant
                0 <= i <= session.users@.len(),
                kept.deep_view() == remove_id(
                    session.users.deep_view().take(i as int),
                    index as int,
                ),
            decreases session.users@.len() - i,
        {
            let ghost prevkept = kept.deep_view();
            if session.users[i].id != index {
                let q = clone_queue(&session.users[i].queue);
                let entry = UserEntry { id: session.users[i].id, queue: q };
                kept.push(entry);
                proof {
                    assert(kept.deep_view().len() == prevkept.len() + 1);
                    assert forall|j: int|
                        0 <= j < kept.deep_view().len() implies kept.deep_view()[j]
                        == prevkept.push(session.users.deep_view()[i as int])[j] by {
                        if j < prevkept.len() {
                            assert(kept.deep_view()[j] == prevkept[j]);
                        } else {
                            assert(kept.deep_view()[j] == entry.deep_view());
                            assert(session.users.deep_view()[i as int] == session.users@[
                                i as int].deep_view());
                            assert(entry.deep_view() =~~= session.users.deep_view()[i as int]);
                        }
                    }
                    assert(kept.deep_view() =~~= prevkept.push(
                        session.users.deep_view()[i as int],
                    ));
                }
            }
            proof {
                assert(session.users.deep_view().len() == session.users@.len());
                assert(session.users.deep_view().take(i + 1)
                    =~= session.users.deep_view().take(i as int).push(
                    session.users.deep_view()[i as int],
                ));
                lemma_remove_id_snoc(
                    session.users.deep_view().take(i as int),
                    session.users.deep_view()[i as int],
                    index as int,
                );
                assert(session.users.deep_view()[i as int].id == session.users@[
                    i as int].id as int);
                if session.users@[i as int].id == index {
                    assert(kept.deep_view() =~= remove_id(
                        session.users.deep_view().take(i + 1),
                        index as int,
                    ));
                } else {
                    assert(kept.deep_view() =~= remove_id(
                        session.users.deep_view().take(i + 1),
                        index as int,
                    ));
                }
            }
            i = i + 1;
        }
        proof {
            assert(session.users.deep_view().take(session.users@.len() as int)
                =~~= session.users.deep_view());
        }
        let ids = collect_ids(&kept);
        let payload = peers_payload(&ids);
        let frames = Message::encode(0, &payload);
        let updated = broadcast_push(&kept, &frames);
        session.users = updated;
        proof {
            crate::codec::lemma_bytes_deep_view(payload);
            assert(frames.deep_view() == announcement(ids@));
            assert(session@ =~~= deregister_step(old(session)@, index as int));
            lemma_remove_id_membership(old(session)@.users, index as int);
            lemma_remove_id_sorted(old(session)@.users, index as int);
            let rest = remove_id(old(session)@.users, index as int);
            let m = session@;
            assert forall|k: int| 0 <= k < m.users.len() implies 1 <= #[trigger] m.users[k].id
                < m.next by {
                assert(m.users[k].id == rest[k].id);
                let j = choose|j: int|
                    0 <= j < old(session)@.users.len() && rest[k] == old(session)@.users[j];
                assert(1 <= old(session)@.users[j].id < old(session)@.next);
            }
            assert forall|k: int, l: int|
                0 <= k < l < m.users.len() implies #[trigger] m.users[k].id
                < #[trigger] m.users[l].id by {
                assert(m.users[k].id == rest[k].id);
                assert(m.users[l].id == rest[l].id);
            }
        }
    }

    /// Routes a parsed message: the payload is re-encoded under the source
    /// peer id, so the destination observes who sent it, and enqueued on
    /// the destination's delivery queue. When the addressed peer is not
    /// registered nothing changes and the router reports it.
    pub fn route_to(session: &mut Self, src: usize, dst: usize, content: &Vec<u8>) -> (r: bool)
        requires
            old(session).wf(),
            src <= 9999,
        ensures
            r <==> lookup_model(old(session)@, dst as int),
            r ==> final(session)@ == route_step(
                old(session)@,
                dst as int,
                encode_frames(src as int, content@),
            ),
            !r ==> final(session)@ == old(session)@,
            final(session).wf(),
    {
        let mut present = false;
        let mut i: usize = 0;
        while i < session.users.len()
            invariant
                0 <= i <= session.users@.len(),
                present <==> exists|j: int|
                    0 <= j < i && #[trigger] session.users.deep_view()[j].id == dst as int,
            decreases session.users@.len() - i,
        {
            if session.users[i].id == dst {
                proof {
                    assert(session.users.deep_view()[i as int].id == dst as int);
                }
                present = true;
            }
            i = i + 1;
        }
        if !present {
            return false;
        }
        let frames = Message::encode(src, content);
        let ghost target = encode_frames(src as int, content@);
        proof {
            crate::codec::lemma_bytes_deep_view(*content);
            assert(frames.deep_view() == target);
        }
        let mut updated: Vec<UserEntry> = Vec::new();
        let mut i: usize = 0;
        while i < session.users.len()
            invariant
                0 <= i <= session.users@.len(),
                frames.deep_view() == target,
                updated.deep_view() == session.users.deep_view().take(i as int).map_values(
                    |u: UserModel|
                        if u.id == dst as int {
                            UserModel { id: u.id, queue: u.queue.push(target) }
                        } else {
                            u
                        },
                ),
            decreases session.users@.len() - i,
        {
            let ghost prev = updated.deep_view();
            let entry = if session.users[i].id == dst {
                let q = clone_queue_push(&session.users[i].queue, &frames);
                UserEntry { id: session.users[i].id, queue: q }
            } else {
                let q = clone_queue(&session.users[i].queue);
                UserEntry { id: session.users[i].id, queue: q }
            };
            updated.push(entry);
            proof {
                let f = |u: UserModel|
                    if u.id == dst as int {
                        UserModel { id: u.id, queue: u.queue.push(target) }
                    } else {
                        u
                    };
                assert(session.users.deep_view().len() == session.users@.len());
                assert(prev.len() == i);
                assert forall|j: int|
                    0 <= j < i + 1 implies updated.deep_view()[j]
                    == session.users.deep_view().take(i + 1).map_values(f)[j] by {
                    if j < i {
                        assert(updated.deep_view()[j] == prev[j]);
                        assert(prev[j] == session.users.deep_view().take(i as int).map_values(
                            f,
                        )[j]);
                        assert(session.users.deep_view().take(i as int)[j]
                            == session.users.deep_view().take(i + 1)[j]);
                    } else {
                        assert(updated.deep_view()[j] == entry.deep_view());
                        assert(session.users.deep_view()[i as int] == session.users@[
                            i as int].deep_view());
                        assert(entry.deep_view() =~~= f(session.users.deep_view()[i as int]));
                    }
                }
                assert(updated.deep_view() =~~= session.users.deep_view().take(
                    i + 1,
                ).map_values(f));
            }
            i = i + 1;
        }
        proof {
            assert(session.users.deep_view().take(session.users@.len() as int)
                =~~= session.users.deep_view());
        }
        session.users = updated;
        proof {
            assert(session@ =~~= route_step(old(session)@, dst as int, target));
            let m = session@;
            assert forall|k: int| 0 <= k < m.users.len() implies 1 <= #[trigger] m.users[k].id
                < m.next by {
                assert(m.users[k].id == old(session)@.users[k].id);
            }
            assert forall|k: int, l: int|
                0 <= k < l < m.users.len() implies #[trigger] m.users[k].id
                < #[trigger] m.users[l].id by {
                assert(m.users[k].id == old(session)@.users[k].id);
                assert(m.users[l].id == old(session)@.users[l].id);
            }
        }
        true
    }

    /// Takes the next message owed to a connection off its delivery
    /// queue; the connection's outbound half then writes its frames to
    /// the wire. Absent when the id is not registered or nothing is
    /// queued.
    pub fn pop_outbound(session: &mut Self, index: usize) -> (r: Option<RawMessage>)
        requires
            old(session).wf(),
        ensures
            r is Some <==> lookup_model(old(session)@, index as int) && queue_of(
                old(session)@,
                index as int,
            ).len() > 0,
            r matches Some(mm) ==> mm.deep_view() == queue_of(
                old(session)@,
                index as int,
            ).first() && final(session)@ == take_step(old(session)@, index as int),
            r is None ==> final(session)@ == old(session)@,
            final(session).wf(),
    {
        let ghost m0 = session@;
        let mut pos: usize = 0;
        let mut present = false;
        let mut i: usize = 0;
        while i < session.users.len()
            invariant
                0 <= i <= session.users@.len(),
                present ==> pos < i && session.users.deep_view()[pos as int].id == index as int,
                !present ==> forall|j: int|
                    0 <= j < i ==> #[trigger] session.users.deep_view()[j].id != index as int,
            decreases session.users@.len() - i,
        {
            if !present && session.users[i].id == index {
                proof {
                    assert(session.users.deep_view()[i as int].id == index as int);
                }
                pos = i;
                present = true;
            }
            i = i + 1;
        }
        if !present {
            return None;
        }
        proof {
            lemma_unique_position(m0, index as int, pos as int);
        }
        if session.users[pos].queue.len() == 0 {
            proof {
                assert(m0.users[pos as int].queue.len() == 0);
                assert(queue_of(m0, index as int).len() == 0);
            }
            return None;
        }
        let head = clone_frames(&session.users[pos].queue[0]);
        proof {
            assert(m0.users[pos as int].queue[0] == session.users@[
                pos as int].queue.deep_view()[0]);
            assert(head.deep_view() == queue_of(m0, index as int).first());
        }
        let mut updated: Vec<UserEntry> = Vec::new();
        let mut i: usize = 0;
        while i < session.users.len()
            invariant
                0 <= i <= session.users@.len(),
                updated.deep_view() == session.users.deep_view().take(i as int).map_values(
                    |u: UserModel|
                        if u.id == index as int && u.queue.len() > 0 {
                            UserModel { id: u.id, queue: u.queue.drop_first() }
                        } else {
                            u
                        },
                ),
            decreases session.users@.len() - i,
        {
            let ghost prev = updated.deep_view();
            let entry = if session.users[i].id == index && session.users[i].queue.len() > 0 {
                let q = clone_queue_tail(&session.users[i].queue);
                UserEntry { id: session.users[i].id, queue: q }
            } else {
                let q = clone_queue(&session.users[i].queue);
                UserEntry { id: session.users[i].id, queue: q }
            };
            updated.push(entry);
            proof {
                let f = |u: UserModel|
                    if u.id == index as int && u.queue.len() > 0 {
                        UserModel { id: u.id, queue: u.queue.drop_first() }
                    } else {
                        u
                    };
                assert(session.users.deep_view().len() == session.users@.len());
                assert(prev.len() == i);
                assert forall|j: int|
                    0 <= j < i + 1 implies updated.deep_view()[j]
                    == session.users.deep_view().take(i + 1).map_values(f)[j] by {
                    if j < i {
                        assert(updated.deep_view()[j] == prev[j]);
                        assert(prev[j] == session.users.deep_view().take(i as int).map_values(
                            f,
                        )[j]);
                        assert(session.users.deep_view().take(i as int)[j]
                            == session.users.deep_view().take(i + 1)[j]);
                    } else {
                        assert(updated.deep_view()[j] == entry.deep_view());
                        assert(session.users.deep_view()[i as int] == session.users@[
                            i as int].deep_view());
                        assert(session.users.deep_view()[i as int].queue == session.users@[
                            i as int].queue.deep_view());
                        assert(entry.deep_view() =~~= f(session.users.deep_view()[i as int]));
                    }
                }
                assert(updated.deep_view() =~~= session.users.deep_view().take(
                    i + 1,
                ).map_values(f));
            }
            i = i + 1;
        }
        proof {
            assert(session.users.deep_view().take(session.users@.len() as int)
                =~~= session.users.deep_view());
        }
        session.users = updated;
        proof {
            assert(session@ =~~= take_step(m0, index as int));
            let m = session@;
            assert forall|k: int| 0 <= k < m.users.len() implies 1 <= #[trigger] m.users[k].id
                < m.next by {
                assert(m.users[k].id == m0.users[k].id);
            }
            assert forall|k: int, l: int|
                0 <= k < l < m.users.len() implies #[trigger] m.users[k].id
                < #[trigger] m.users[l].id by {
                assert(m.users[k].id == m0.users[k].id);
                assert(m.users[l].id == m0.users[l].id);
            }
        }
        Some(head)
    }

    /// The ids joined with commas as text, exactly as the peer-list
    /// payload writes them: `1,2,3`.
    pub fn peers_to_string(users: Vec<usize>) -> (r: String)
        ensures
            r@ == join_ids(users@).map_values(|b: u8| b as char),
    {
        let bytes = join_ids_bytes(&users);
        proof {
            crate::peers::lemma_join_ids_ascii(users@);
        }
        ascii_string(bytes)
    }

    /// The delivery queue of a registered id; absent when the id is not
    /// registered.
    pub fn get_user(&self, index: usize) -> (r: Option<&Vec<RawMessage>>)
        ensures
            r is Some <==> lookup_model(self@, index as int),
            r matches Some(q) ==> exists|i: int|
                0 <= i < self@.users.len() && #[trigger] self@.users[i].id == index
                    && q.deep_view() == self@.users[i].queue,
    {
        let mut i: usize = 0;
        while i < self.users.len()
            invariant
                0 <= i <= self@.users.len(),
                forall|j: int| 0 <= j < i ==> #[trigger] self@.users[j].id != index,
            decreases self@.users.len() - i,
        {
            if self.users[i].id == index {
                proof {
                    assert(self@.users[i as int] == self.users@[i as int].deep_view());
                    assert(self@.users[i as int].id == index as int);
                }
                return Some(&self.users[i].queue);
            }
            i = i + 1;
        }
        None
    }
}

/// Relies on String::from_utf8: bytes below 128 are valid UTF-8 and decode
/// to the characters with exactly those code points.
#[verifier::external_body]
fn ascii_string(bytes: Vec<u8>) -> (r: String)
    requires
        forall|i: int| 0 <= i < bytes@.len() ==> bytes@[i] < 128,
    ensures
        r@ == bytes@.map_values(|b: u8| b as char),
{
    match String::from_utf8(bytes) {
        Ok(s) => s,
        Err(_) => String::new(),
    }
}

/// Why a message could not be routed.
#[derive(Debug, PartialEq, Eq, Structural)]
pub enum HandleMessageError {
    /// No connection holds the addressed peer id.
    PeerNotFound(usize),
    /// The destination's delivery channel would not accept the message;
    /// the registry's own queues always accept, so only a transport
    /// around the library reports this.
    SendChanError,
}

/// Handles one reassembled message from connection `src`: its payload is
/// re-encoded under `src` — so the destination observes who sent it — and
/// enqueued for the peer the message addresses. Exactly when that peer is
/// not registered, nothing changes and the error names it.
pub fn handle_message(session: &mut GlobalState, src: usize, msg: Message) -> (r: Result<
    (),
    HandleMessageError,
>)
    requires
        old(session).wf(),
        src <= 9999,
    ensures
        r is Ok <==> lookup_model(old(session)@, msg@.peer),
        r is Ok ==> final(session)@ == route_step(
            old(session)@,
            msg@.peer,
            encode_frames(src as int, msg@.content),
        ),
        r matches Err(e) ==> e matches HandleMessageError::PeerNotFound(p) && p as int
            == msg@.peer,
        r is Err ==> final(session)@ == old(session)@,
        final(session).wf(),
{
    let dst = msg.peer;
    if GlobalState::route_to(session, src, dst, &msg.content) {
        Ok(())
    } else {
        Err(HandleMessageError::PeerNotFound(dst))
    }
}

/// Broadcasting changes no id, so the membership reads the same after it.
proof fn lemma_broadcast_ids(users: Seq<UserModel>, msg: Seq<Seq<u8>>)
    ensures
        ids_of(broadcast_to(users, msg)) == ids_of(users),
        broadcast_to(users, msg).len() == users.len(),
        forall|i: int|
            0 <= i < users.len() ==> #[trigger] broadcast_to(users, msg)[i].id == users[i].id,
        forall|i: int|
            0 <= i < users.len() ==> #[trigger] broadcast_to(users, msg)[i].queue == users[i]
                .queue.push(msg),
{
    assert(ids_of(broadcast_to(users, msg)) =~= ids_of(users));
}

/// Id assignment law: in a well-formed table the registered ids are
/// pairwise distinct and none is 0, and a registration assigns the next
/// counter value — strictly larger than every id already present — so ids
/// handed out over time start at 1 and strictly increase, and are never
/// reused.
pub proof fn lemma_register_ids(m: RegistryModel)
    requires
        wf_model(m),
        m.next < usize::MAX,
    ensures
        forall|i: int, j: int|
            0 <= i < j < m.users.len() ==> #[trigger] m.users[i].id != #[trigger] m.users[j].id,
        forall|i: int| 0 <= i < m.users.len() ==> #[trigger] m.users[i].id >= 1,
        forall|i: int| 0 <= i < m.users.len() ==> #[trigger] m.users[i].id < m.next,
        register_step(m).next == m.next + 1,
        ids_of(register_step(m).users) == ids_of(m.users).push(m.next as usize),
        wf_model(register_step(m)),
{
    let with_new = m.users.push(UserModel { id: m.next, queue: Seq::<Seq<Seq<u8>>>::empty() });
    let ids2 = ids_of(with_new);
    lemma_broadcast_ids(with_new, announcement(ids2));
    assert(ids_of(with_new) =~= ids_of(m.users).push(m.next as usize));
    let m1 = register_step(m);
    assert forall|i: int| 0 <= i < m1.users.len() implies 1 <= #[trigger] m1.users[i].id
        < m1.next by {
        assert(m1.users[i].id == with_new[i].id);
    }
    assert forall|i: int, j: int|
        0 <= i < j < m1.users.len() implies #[trigger] m1.users[i].id
        < #[trigger] m1.users[j].id by {
        assert(m1.users[i].id == with_new[i].id);
        assert(m1.users[j].id == with_new[j].id);
    }
}

/// Departure law: after deregistering an id, looking it up reports it
/// absent — in particular for an id just registered and deregistered
/// again.
pub proof fn lemma_deregister_absent(m: RegistryModel, id: int)
    ensures
        !lookup_model(deregister_step(m, id), id),
{
    let rest = remove_id(m.users, id);
    lemma_remove_id_membership(m.users, id);
    lemma_broadcast_ids(rest, announcement(ids_of(rest)));
    let m2 = deregister_step(m, id);
    assert forall|i: int| 0 <= i < m2.users.len() implies #[trigger] m2.users[i].id != id by {
        assert(m2.users[i].id == rest[i].id);
    }
}

/// Registering and then deregistering the same id leaves it absent.
pub proof fn lemma_register_then_deregister(m: RegistryModel)
    requires
        wf_model(m),
    ensures
        !lookup_model(deregister_step(register_step(m), m.next), m.next),
{
    lemma_deregister_absent(register_step(m), m.next);
}

/// Delivery law: routing a payload from a registered source to a
/// registered destination appends to the destination's queue — and only
/// there — the message encoded under the source id; its frames all decode,
/// they all name the source, and they reassemble to exactly the sent
/// payload. So a payload sent by peer A addressed to peer B arrives at B
/// as (A, payload).
pub proof fn lemma_route_delivers(m: RegistryModel, src: int, dst: int, payload: Seq<u8>)
    requires
        wf_model(m),
        0 <= src <= 9999,
    ensures
        ({
            let m2 = route_step(m, dst, encode_frames(src, payload));
            let frames = encode_frames(src, payload);
            &&& m2.users.len() == m.users.len()
            &&& forall|i: int|
                0 <= i < m.users.len() && m.users[i].id != dst ==> #[trigger] m2.users[i]
                    == m.users[i]
            &&& forall|i: int|
                0 <= i < m.users.len() && m.users[i].id == dst ==> #[trigger] m2.users[i].queue
                    == m.users[i].queue.push(frames)
            &&& frames.len() >= 1
            &&& forall|k: int| 0 <= k < frames.len() ==> parse_spec(frames[k]) is Ok
            &&& forall|k: int|
                0 <= k < frames.len() ==> parse_spec(frames[k])->Ok_0.peer == src
            &&& reassembled_payload(frames) == payload
        }),
{
    crate::codec::lemma_encode_parse_round_trip(src, payload);
}

/// Announcement law: a registration broadcasts the new membership to every
/// connection, the newcomer included. Every queue then ends with the
/// control message: its frames all decode under the reserved peer id 0,
/// and their payload reassembles to `PEERS:` followed by the id list —
/// which parses back to exactly the ids registered at that moment.
pub proof fn lemma_register_announces(m: RegistryModel)
    requires
        wf_model(m),
        m.next < usize::MAX,
    ensures
        ({
            let m1 = register_step(m);
            let ids2 = ids_of(m.users).push(m.next as usize);
            let notice = announcement(ids2);
            &&& ids_of(m1.users) == ids2
            &&& m1.users.len() == m.users.len() + 1
            &&& forall|i: int|
                0 <= i < m1.users.len() ==> #[trigger] m1.users[i].queue.len() >= 1
                    && m1.users[i].queue.last() == notice
            &&& forall|k: int| 0 <= k < notice.len() ==> parse_spec(notice[k]) is Ok
            &&& forall|k: int| 0 <= k < notice.len() ==> parse_spec(notice[k])->Ok_0.peer == 0
            &&& reassembled_payload(notice) == peers_payload_spec(ids2)
            &&& crate::peers::is_peer_list(peers_payload_spec(ids2))
            &&& crate::peers::split_ids(peers_payload_spec(ids2).skip(6)) == ids2
        }),
{
    let with_new = m.users.push(UserModel { id: m.next, queue: Seq::<Seq<Seq<u8>>>::empty() });
    let ids2 = ids_of(m.users).push(m.next as usize);
    assert(ids_of(with_new) =~= ids2);
    let notice = announcement(ids2);
    lemma_broadcast_ids(with_new, notice);
    let m1 = register_step(m);
    assert forall|i: int|
        0 <= i < m1.users.len() implies #[trigger] m1.users[i].queue.len() >= 1
        && m1.users[i].queue.last() == notice by {
        assert(m1.users[i].queue == with_new[i].queue.push(notice));
    }
    crate::codec::lemma_encode_parse_round_trip(0, peers_payload_spec(ids2));
    crate::peers::lemma_peers_payload_round_trip(ids2);
}

} // verus!
