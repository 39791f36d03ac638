//! The registry: the process-wide broker that assigns session identities,
//! owns room membership, and decides which sessions a broadcast reaches.
//!
//! The registry is modelled by [`RegistryV`]: the counter for the next
//! identity, the set of sessions that still have a live outbound handle, and
//! the rooms in creation order. Every mutating operation has a spec-level
//! twin (`connect_m`, `disconnect_m`, `join_m`) and the executable methods
//! promise to agree with it exactly.

use vstd::prelude::*;

verus! {

/// Identity the registry assigns to one connected peer. Identities are
/// handed out monotonically and never reused while the process runs.
pub type SessionId = usize;

/// Model of one room: its name and the set of sessions currently joined.
#[verifier::ext_equal]
pub struct RoomV {
    pub name: Seq<char>,
    pub members: Set<SessionId>,
}

/// Model of the whole registry.
#[verifier::ext_equal]
pub struct RegistryV {
    /// The identity the next successful `connect` will return.
    pub next_id: SessionId,
    /// Sessions that still have a live outbound handle.
    pub connected: Set<SessionId>,
    /// All rooms ever created, in creation order. Rooms are never removed,
    /// even once empty.
    pub rooms: Seq<RoomV>,
}

impl RegistryV {
    /// Room names in creation order, as `list_rooms` reports them.
    pub open spec fn room_names(self) -> Seq<Seq<char>> {
        self.rooms.map_values(|r: RoomV| r.name)
    }

    pub open spec fn has_room(self, name: Seq<char>) -> bool {
        exists|i: int| 0 <= i < self.rooms.len() && self.rooms[i].name == name
    }

    /// Index of the room called `name`; meaningful only under `wf`, which
    /// makes the witness unique.
    pub open spec fn room_index(self, name: Seq<char>) -> int {
        choose|i: int| 0 <= i < self.rooms.len() && self.rooms[i].name == name
    }

    /// Members of room `name`; the empty set when no such room exists.
    pub open spec fn members_of(self, name: Seq<char>) -> Set<SessionId> {
        if self.has_room(name) {
            self.rooms[self.room_index(name)].members
        } else {
            Set::empty()
        }
    }

    /// The sessions one broadcast to `name` reaches: every current member
    /// that still has a live handle — the sender included like any other
    /// member — and nobody else.
    pub open spec fn recipients(self, name: Seq<char>) -> Set<SessionId> {
        self.members_of(name).intersect(self.connected)
    }

    /// `id` is a member of `name` and of no other room.
    pub open spec fn member_of_exactly(self, id: SessionId, name: Seq<char>) -> bool {
        &&& self.has_room(name)
        &&& self.members_of(name).contains(id)
        &&& forall|i: int|
            0 <= i < self.rooms.len() && (#[trigger] self.rooms[i].members.contains(id))
                ==> self.rooms[i].name == name
    }

    /// `id` sits in some room's member set.
    pub open spec fn member_somewhere(self, id: SessionId) -> bool {
        exists|i: int| 0 <= i < self.rooms.len() && self.rooms[i].members.contains(id)
    }

    /// Well-formedness: room names are distinct, a session sits in at most
    /// one room, and every identity on record is below the counter.
    pub open spec fn wf(self) -> bool {
        &&& forall|i: int, j: int|
            0 <= i < self.rooms.len() && 0 <= j < self.rooms.len() && i != j
                ==> (#[trigger] self.rooms[i].name) != (#[trigger] self.rooms[j].name)
        &&& forall|i: int, j: int, id: SessionId|
            0 <= i < self.rooms.len() && 0 <= j < self.rooms.len() && i != j
                ==> !((#[trigger] self.rooms[i].members.contains(id))
                    && (#[trigger] self.rooms[j].members.contains(id)))
        &&& forall|id: SessionId| #[trigger] self.connected.contains(id) ==> id < self.next_id
        &&& forall|i: int, id: SessionId|
            0 <= i < self.rooms.len() && (#[trigger] self.rooms[i].members.contains(id))
                ==> id < self.next_id
    }
}

/// Remove `id` from every room's member set; the rooms themselves stay.
pub open spec fn leave_all(rooms: Seq<RoomV>, id: SessionId) -> Seq<RoomV> {
    rooms.map_values(|r: RoomV| RoomV { name: r.name, members: r.members.remove(id) })
}

/// Model of [`Registry::connect`]: record a live handle under the next
/// identity and advance the counter.
pub open spec fn connect_m(m: RegistryV) -> RegistryV
    recommends
        m.next_id < usize::MAX,
{
    RegistryV {
        next_id: (m.next_id + 1) as usize,
        connected: m.connected.insert(m.next_id),
        rooms: m.rooms,
    }
}

/// Model of [`Registry::disconnect`]: drop the handle and leave every room.
pub open spec fn disconnect_m(m: RegistryV, id: SessionId) -> RegistryV {
    RegistryV {
        next_id: m.next_id,
        connected: m.connected.remove(id),
        rooms: leave_all(m.rooms, id),
    }
}

/// Model of [`Registry::join`]: leave the previous room, then enter `name`,
/// creating the room at the end of the listing when it is new.
pub open spec fn join_m(m: RegistryV, id: SessionId, name: Seq<char>) -> RegistryV {
    let cleared = leave_all(m.rooms, id);
    let rooms = if m.has_room(name) {
        let k = m.room_index(name);
        cleared.update(k, RoomV { name: name, members: cleared[k].members.insert(id) })
    } else {
        cleared.push(RoomV { name: name, members: Set::empty().insert(id) })
    };
    RegistryV { next_id: m.next_id, connected: m.connected, rooms: rooms }
}

struct Room {
    name: String,
    members: Vec<SessionId>,
}

impl View for Room {
    type V = RoomV;

    closed spec fn view(&self) -> RoomV {
        RoomV { name: self.name@, members: self.members@.to_set() }
    }
}

/// The registry itself. All sessions' operations are serialized through one
/// value of this type; each method is atomic with respect to the model.
pub struct Registry {
    next_id: SessionId,
    connected: Vec<SessionId>,
    rooms: Vec<Room>,
}

impl View for Registry {
    type V = RegistryV;

    closed spec fn view(&self) -> RegistryV {
        RegistryV {
            next_id: self.next_id,
            connected: self.connected@.to_set(),
            rooms: self.rooms@.map_values(|r: Room| r@),
        }
    }
}

impl Registry {
    /// Representation invariant: the id lists hold no duplicates and the
    /// model is well formed.
    pub closed spec fn inv(self) -> bool {
        &&& self.connected@.no_duplicates()
        &&& forall|i: int|
            0 <= i < self.rooms@.len() ==> (#[trigger] self.rooms@[i]).members@.no_duplicates()
        &&& self@.wf()
    }

    /// A fresh registry: no sessions, no rooms, identities start at zero.
    pub fn new() -> (r: Registry)
        ensures
            r.inv(),
            r@ == (RegistryV { next_id: 0, connected: Set::empty(), rooms: Seq::empty() }),
    {
        let r = Registry { next_id: 0, connected: Vec::new(), rooms: Vec::new() };
        proof {
            assert(r@ =~~= (RegistryV {
                next_id: 0,
                connected: Set::empty(),
                rooms: Seq::empty(),
            }));
        }
        r
    }

    /// Allocate the next identity, record a live outbound handle for it, and
    /// return it. The identity is fresh: it is neither connected nor a
    /// member of any room beforehand.
    pub fn connect(&mut self) -> (id: SessionId)
        requires
            old(self).inv(),
            old(self)@.next_id < usize::MAX,
        ensures
            final(self).inv(),
            id == old(self)@.next_id,
            final(self)@ == connect_m(old(self)@),
            !old(self)@.connected.contains(id),
            !old(self)@.member_somewhere(id),
    {
        let id = self.next_id;
        proof {
            if self.connected@.contains(id) {
                assert(self@.connected.contains(id));
            }
        }
        self.next_id = self.next_id + 1;
        self.connected.push(id);
        proof {
            lemma_push_fresh(old(self).connected@, id);
            assert(self@ =~~= connect_m(old(self)@));
            if old(self)@.member_somewhere(id) {
                let i = choose|i: int|
                    0 <= i < old(self)@.rooms.len() && old(self)@.rooms[i].members.contains(id);
                assert(id < old(self)@.next_id);
            }
        }
        id
    }

    /// Drop `id`'s outbound handle and remove it from every room. Harmless
    /// when `id` is already gone: the second call leaves the registry as the
    /// first left it.
    pub fn disconnect(&mut self, id: SessionId)
        requires
            old(self).inv(),
        ensures
            final(self).inv(),
            final(self)@ == disconnect_m(old(self)@, id),
    {
        let c = remove_id(&self.connected, id);
        self.connected = c;
        self.leave_rooms(id);
        proof {
            assert(self@ =~~= disconnect_m(old(self)@, id));
            lemma_disconnect_wf(old(self)@, id);
        }
    }

    /// Move `id` into room `name`: leave the previous room if any, create
    /// `name` lazily, enter it. Joining the room already occupied changes
    /// nothing. `id` must be an identity the registry has issued.
    pub fn join(&mut self, id: SessionId, name: String)
        requires
            old(self).inv(),
            id < old(self)@.next_id,
        ensures
            final(self).inv(),
            final(self)@ == join_m(old(self)@, id, name@),
    {
        let ghost m = old(self)@;
        self.leave_rooms(id);
        let found = self.find_room(&name);
        match found {
            Some(k) => {
                proof {
                    assert(m.has_room(name@)) by {
                        assert(m.rooms[k as int].name == name@);
                    }
                    let ki = m.room_index(name@);
                    assert(0 <= ki < m.rooms.len() && m.rooms[ki].name == name@);
                    assert(ki == k as int) by {
                        if ki != k as int {
                            assert(m.rooms[ki].name != m.rooms[k as int].name);
                        }
                    }
                }
                let mut room = self.rooms.remove(k);
                proof {
                    if room.members@.contains(id) {
                        assert(room.members@.to_set().contains(id));
                        assert(leave_all(m.rooms, id)[k as int].members.contains(id));
                    }
                    lemma_push_fresh(room.members@, id);
                }
                room.members.push(id);
                self.rooms.insert(k, room);
                proof {
                    assert(self@.rooms =~~= join_m(m, id, name@).rooms);
                }
            },
            None => {
                proof {
                    if m.has_room(name@) {
                        let ki = m.room_index(name@);
                        assert(0 <= ki < m.rooms.len() && m.rooms[ki].name == name@);
                        assert(self.rooms@[ki]@.name != name@);
                    }
                }
                let mut members: Vec<SessionId> = Vec::new();
                members.push(id);
                self.rooms.push(Room { name: name, members: members });
                proof {
                    let mem = self.rooms@.last().members@;
                    assert forall|x: SessionId| #[trigger] mem.contains(x) implies x == id by {
                        let k = choose|k: int| 0 <= k < mem.len() && mem[k] == x;
                        assert(mem[0] == id);
                    }
                    assert(mem[0] == id);
                    assert(self.rooms@.last()@.members =~= Set::empty().insert(id));
                    assert(self@.rooms =~~= join_m(m, id, name@).rooms);
                }
            },
        }
        proof {
            assert(self@ =~~= join_m(m, id, name@));
            lemma_join_wf(m, id, name@);
        }
    }

    /// The sessions one broadcast to room `name` reaches right now: each
    /// current member that still has a live handle, each exactly once. A
    /// member whose session has already disconnected is skipped, and an
    /// unknown room reaches nobody.
    pub fn recipients(&self, name: &String) -> (r: Vec<SessionId>)
        requires
            self.inv(),
        ensures
            r@.no_duplicates(),
            r@.to_set() == self@.recipients(name@),
    {
        let found = self.find_room(name);
        match found {
            None => {
                let out: Vec<SessionId> = Vec::new();
                proof {
                    assert(!self@.has_room(name@)) by {
                        if self@.has_room(name@) {
                            let ki = self@.room_index(name@);
                            assert(self.rooms@[ki]@.name == name@);
                        }
                    }
                    assert(out@.to_set() =~= self@.recipients(name@));
                }
                out
            },
            Some(k) => {
                let out = filter_connected(&self.rooms[k].members, &self.connected);
                proof {
                    assert(self@.has_room(name@)) by {
                        assert(self@.rooms[k as int].name == name@);
                    }
                    let ki = self@.room_index(name@);
                    assert(0 <= ki < self@.rooms.len() && self@.rooms[ki].name == name@);
                    assert(ki == k as int) by {
                        if ki != k as int {
                            assert(self@.rooms[ki].name != self@.rooms[k as int].name);
                        }
                    }
                    assert(self@.members_of(name@) == self.rooms@[k as int]@.members);
                }
                out
            },
        }
    }

    /// One broadcast, attributed to session `id`: the deliveries it causes,
    /// one `(target, text)` pair for every current member of `room` that
    /// still has a live handle — the sender among them whenever it is a
    /// member, with no special casing — and nobody else, each exactly once.
    /// Handing a pair to a target whose session raced away is the caller's
    /// harmless no-op.
    pub fn message(&self, id: SessionId, room: &String, text: &String) -> (r: Vec<
        (SessionId, String),
    >)
        requires
            self.inv(),
        ensures
            r@.map_values(|p: (SessionId, String)| p.0).to_set() == self@.recipients(room@),
            r@.map_values(|p: (SessionId, String)| p.0).no_duplicates(),
            forall|k: int| 0 <= k < r@.len() ==> (#[trigger] r@[k]).1@ == text@,
            self@.connected.contains(id) && self@.members_of(room@).contains(id)
                ==> r@.map_values(|p: (SessionId, String)| p.0).to_set().contains(id),
    {
        let targets = self.recipients(room);
        let mut out: Vec<(SessionId, String)> = Vec::new();
        let mut i: usize = 0;
        while i < targets.len()
            invariant
                i <= targets@.len(),
                out@.len() == i,
                forall|k: int| 0 <= k < i ==> (#[trigger] out@[k]).0 == targets@[k],
                forall|k: int| 0 <= k < i ==> (#[trigger] out@[k]).1@ == text@,
            decreases targets@.len() - i,
        {
            out.push((targets[i], text.clone()));
            i = i + 1;
        }
        proof {
            assert(out@.map_values(|p: (SessionId, String)| p.0) =~= targets@);
        }
        out
    }

    /// The identity the next successful `connect` will return; every
    /// identity issued so far is below it.
    pub fn next_session_id(&self) -> (r: SessionId)
        ensures
            r == self@.next_id,
    {
        self.next_id
    }

    /// Snapshot of all room names in creation order, empty rooms included.
    pub fn list_rooms(&self) -> (r: Vec<String>)
        ensures
            r@.len() == self@.rooms.len(),
            forall|i: int| 0 <= i < r@.len() ==> (#[trigger] r@[i])@ == self@.rooms[i].name,
    {
        let mut out: Vec<String> = Vec::new();
        let mut i: usize = 0;
        while i < self.rooms.len()
            invariant
                i <= self.rooms@.len(),
                out@.len() == i,
                forall|j: int| 0 <= j < i ==> (#[trigger] out@[j])@ == self@.rooms[j].name,
            decreases self.rooms@.len() - i,
        {
            out.push(self.rooms[i].name.clone());
            i = i + 1;
        }
        out
    }

    /// Remove `id` from every room's member list; everything else stays.
    fn leave_rooms(&mut self, id: SessionId)
        requires
            forall|i: int|
                0 <= i < old(self).rooms@.len()
                    ==> (#[trigger] old(self).rooms@[i]).members@.no_duplicates(),
        ensures
            final(self).next_id == old(self).next_id,
            final(self).connected == old(self).connected,
            final(self).rooms@.len() == old(self).rooms@.len(),
            forall|i: int|
                0 <= i < final(self).rooms@.len()
                    ==> (#[trigger] final(self).rooms@[i]).members@.no_duplicates(),
            forall|i: int|
                0 <= i < final(self).rooms@.len()
                    ==> (#[trigger] final(self).rooms@[i])@ == leave_all(old(self)@.rooms, id)[i],
    {
        let ghost orig = self.rooms@;
        let mut i: usize = 0;
        while i < self.rooms.len()
            invariant
                i <= self.rooms@.len(),
                self.rooms@.len() == orig.len(),
                self.next_id == old(self).next_id,
                self.connected == old(self).connected,
                forall|j: int| 0 <= j < orig.len() ==> (#[trigger] orig[j]).members@.no_duplicates(),
                forall|j: int| i <= j < orig.len() ==> (#[trigger] self.rooms@[j]) == orig[j],
                forall|j: int|
                    0 <= j < i ==> (#[trigger] self.rooms@[j]).members@.no_duplicates(),
                forall|j: int|
                    0 <= j < i
                        ==> (#[trigger] self.rooms@[j])@ == (RoomV {
                        name: orig[j]@.name,
                        members: orig[j]@.members.remove(id),
                    }),
            decreases self.rooms@.len() - i,
        {
            let ghost pre = self.rooms@;
            let mut room = self.rooms.remove(i);
            let m2 = remove_id(&room.members, id);
            room.members = m2;
            self.rooms.insert(i, room);
            proof {
                assert(self.rooms@ =~= pre.update(i as int, self.rooms@[i as int]));
                assert(self.rooms@[i as int]@ =~~= (RoomV {
                    name: orig[i as int]@.name,
                    members: orig[i as int]@.members.remove(id),
                }));
            }
            i = i + 1;
        }
        proof {
            assert forall|i: int| 0 <= i < self.rooms@.len() implies (#[trigger] self.rooms@[i])@
                == leave_all(old(self)@.rooms, id)[i] by {
                assert(old(self)@.rooms[i] == orig[i]@);
                assert(self.rooms@[i]@ =~~= leave_all(old(self)@.rooms, id)[i]);
            }
        }
    }

    /// Index of the room called `name`, when it exists.
    fn find_room(&self, name: &String) -> (r: Option<usize>)
        ensures
            (match r {
                Some(k) => k < self.rooms@.len() && self.rooms@[k as int]@.name == name@,
                None => forall|i: int|
                    0 <= i < self.rooms@.len() ==> (#[trigger] self.rooms@[i])@.name != name@,
            }),
    {
        let mut i: usize = 0;
        while i < self.rooms.len()
            invariant
                i <= self.rooms@.len(),
                forall|j: int| 0 <= j < i ==> (#[trigger] self.rooms@[j])@.name != name@,
            decreases self.rooms@.len() - i,
        {
            if string_eq(&self.rooms[i].name, name) {
                return Some(i);
            }
            i = i + 1;
        }
        None
    }
}

/// True when the two strings hold the same characters.
fn string_eq(a: &String, b: &String) -> (r: bool)
    ensures
        r == (a@ == b@),
{
    *a == *b
}

/// The members that still have a live handle, each exactly once.
fn filter_connected(members: &Vec<SessionId>, connected: &Vec<SessionId>) -> (out: Vec<
    SessionId,
>)
    requires
        members@.no_duplicates(),
    ensures
        out@.no_duplicates(),
        out@.to_set() == members@.to_set().intersect(connected@.to_set()),
{
    let mut out: Vec<SessionId> = Vec::new();
    let mut i: usize = 0;
    while i < members.len()
        invariant
            i <= members@.len(),
            members@.no_duplicates(),
            out@.no_duplicates(),
            forall|x: SessionId|
                #[trigger] out@.contains(x) <==> (members@.subrange(0, i as int).contains(x)
                    && connected@.contains(x)),
        decreases members@.len() - i,
    {
        let ghost pre = out@;
        let ghost s0 = members@.subrange(0, i as int);
        let ghost s1 = members@.subrange(0, i as int + 1);
        let x = members[i];
        if contains_id(connected, x) {
            proof {
                if out@.contains(x) {
                    let k = choose|k: int| 0 <= k < s0.len() && s0[k] == x;
                    assert(members@[k] == x);
                }
                lemma_push_fresh(out@, x);
            }
            out.push(x);
        }
        proof {
            assert(s1 =~= s0.push(members@[i as int]));
            assert forall|y: SessionId| #[trigger] out@.contains(y) <==> (s1.contains(y)
                && connected@.contains(y)) by {
                assert(s1.contains(y) <==> (s0.contains(y) || y == members@[i as int])) by {
                    if s1.contains(y) {
                        let k = choose|k: int| 0 <= k < s1.len() && s1[k] == y;
                        if k < i {
                            assert(s0[k] == y);
                        }
                    }
                    if s0.contains(y) {
                        let k = choose|k: int| 0 <= k < s0.len() && s0[k] == y;
                        assert(s1[k] == y);
                    }
                    if y == members@[i as int] {
                        assert(s1[i as int] == y);
                    }
                }
                if connected@.contains(members@[i as int]) {
                    assert(out@ == pre.push(members@[i as int]));
                    assert(out@.contains(y) <==> (pre.contains(y) || y == members@[i as int]))
                        by {
                        if out@.contains(y) {
                            let k = choose|k: int| 0 <= k < out@.len() && out@[k] == y;
                            if k < pre.len() {
                                assert(pre[k] == y);
                            }
                        }
                        if pre.contains(y) {
                            let k = choose|k: int| 0 <= k < pre.len() && pre[k] == y;
                            assert(out@[k] == y);
                        }
                        assert(out@[out@.len() - 1] == members@[i as int]);
                    }
                } else {
                    assert(out@ == pre);
                }
            }
        }
        i = i + 1;
    }
    proof {
        assert(members@.subrange(0, members@.len() as int) =~= members@);
        assert(out@.to_set() =~= members@.to_set().intersect(connected@.to_set()));
    }
    out
}

/// Disconnecting keeps the registry well formed.
pub proof fn lemma_disconnect_wf(m: RegistryV, id: SessionId)
    requires
        m.wf(),
    ensures
        disconnect_m(m, id).wf(),
{
    let d = disconnect_m(m, id);
    assert forall|i: int, j: int|
        0 <= i < d.rooms.len() && 0 <= j < d.rooms.len() && i != j implies (
    #[trigger] d.rooms[i].name) != (#[trigger] d.rooms[j].name) by {
        assert(d.rooms[i].name == m.rooms[i].name);
        assert(d.rooms[j].name == m.rooms[j].name);
    }
    assert forall|i: int, x: SessionId|
        0 <= i < d.rooms.len() && (#[trigger] d.rooms[i].members.contains(x)) implies m.rooms[i].members.contains(
        x,
    ) by {}
}

/// Joining keeps the registry well formed, and afterwards `id` is a member
/// of `name` and of no other room.
pub proof fn lemma_join_wf(m: RegistryV, id: SessionId, name: Seq<char>)
    requires
        m.wf(),
        id < m.next_id,
    ensures
        join_m(m, id, name).wf(),
        join_m(m, id, name).member_of_exactly(id, name),
{
    let cleared = leave_all(m.rooms, id);
    let j = join_m(m, id, name);
    assert forall|i: int, x: SessionId|
        0 <= i < cleared.len() && (#[trigger] cleared[i].members.contains(x)) implies m.rooms[i].members.contains(
        x,
    ) && x != id by {}
    if m.has_room(name) {
        let k = m.room_index(name);
        assert(0 <= k < m.rooms.len() && m.rooms[k].name == name);
        assert(j.rooms =~= cleared.update(k, RoomV { name: name, members: cleared[k].members.insert(id) }));
        assert(j.rooms[k].members.contains(id));
        assert forall|a: int, b: int|
            0 <= a < j.rooms.len() && 0 <= b < j.rooms.len() && a != b implies (
        #[trigger] j.rooms[a].name) != (#[trigger] j.rooms[b].name) by {
            assert(j.rooms[a].name == m.rooms[a].name);
            assert(j.rooms[b].name == m.rooms[b].name);
        }
        assert forall|a: int, b: int, x: SessionId|
            0 <= a < j.rooms.len() && 0 <= b < j.rooms.len() && a != b implies !((
        #[trigger] j.rooms[a].members.contains(x)) && (#[trigger] j.rooms[b].members.contains(
            x,
        ))) by {
            if j.rooms[a].members.contains(x) && j.rooms[b].members.contains(x) {
                if x == id {
                    if a != k {
                        assert(cleared[a].members.contains(id));
                    }
                    if b != k {
                        assert(cleared[b].members.contains(id));
                    }
                } else {
                    assert(m.rooms[a].members.contains(x));
                    assert(m.rooms[b].members.contains(x));
                }
            }
        }
        assert forall|i: int, x: SessionId|
            0 <= i < j.rooms.len() && (#[trigger] j.rooms[i].members.contains(x)) implies x
            < m.next_id by {
            if i == k && x == id {
            } else {
                assert(m.rooms[i].members.contains(x));
            }
        }
        assert(j.has_room(name)) by {
            assert(j.rooms[k].name == name);
        }
        assert(j.member_of_exactly(id, name)) by {
            let ki = j.room_index(name);
            assert(0 <= ki < j.rooms.len() && j.rooms[ki].name == name);
            assert(ki == k) by {
                if ki != k {
                    assert(m.rooms[ki].name != m.rooms[k].name);
                }
            }
            assert(j.members_of(name).contains(id));
            assert forall|i: int|
                0 <= i < j.rooms.len() && (#[trigger] j.rooms[i].members.contains(id)) implies j.rooms[i].name
                == name by {
                if i != k {
                    assert(cleared[i].members.contains(id));
                }
            }
        }
    } else {
        let n = cleared.len();
        assert(j.rooms =~= cleared.push(RoomV { name: name, members: Set::empty().insert(id) }));
        assert forall|i: int, x: SessionId|
            0 <= i < j.rooms.len() && (#[trigger] j.rooms[i].members.contains(x)) implies x
            < m.next_id by {
            if i < n {
                assert(m.rooms[i].members.contains(x));
            }
        }
        assert forall|a: int, b: int|
            0 <= a < j.rooms.len() && 0 <= b < j.rooms.len() && a != b implies (
        #[trigger] j.rooms[a].name) != (#[trigger] j.rooms[b].name) by {
            if a < n && b < n {
                assert(m.rooms[a].name != m.rooms[b].name);
            } else if a < n {
                assert(j.rooms[b].name == name);
                assert(m.rooms[a].name == j.rooms[a].name);
                if j.rooms[a].name == name {
                    assert(m.has_room(name));
                }
            } else if b < n {
                assert(j.rooms[a].name == name);
                assert(m.rooms[b].name == j.rooms[b].name);
                if j.rooms[b].name == name {
                    assert(m.has_room(name));
                }
            }
        }
        assert forall|a: int, b: int, x: SessionId|
            0 <= a < j.rooms.len() && 0 <= b < j.rooms.len() && a != b implies !((
        #[trigger] j.rooms[a].members.contains(x)) && (#[trigger] j.rooms[b].members.contains(
            x,
        ))) by {
            if j.rooms[a].members.contains(x) && j.rooms[b].members.contains(x) {
                if a < n && b < n {
                    if x == id {
                        assert(cleared[a].members.contains(id));
                    } else {
                        assert(m.rooms[a].members.contains(x));
                        assert(m.rooms[b].members.contains(x));
                    }
                } else if a < n {
                    assert(x == id);
                    assert(cleared[a].members.contains(id));
                } else if b < n {
                    assert(x == id);
                    assert(cleared[b].members.contains(id));
                }
            }
        }
        assert(j.has_room(name)) by {
            assert(j.rooms[n as int].name == name);
        }
        assert(j.member_of_exactly(id, name)) by {
            let ki = j.room_index(name);
            assert(0 <= ki < j.rooms.len() && j.rooms[ki].name == name);
            assert(ki == n as int) by {
                if ki != n as int {
                    assert(m.rooms[ki].name == name);
                    assert(m.has_room(name));
                }
            }
            assert(j.members_of(name).contains(id));
            assert forall|i: int|
                0 <= i < j.rooms.len() && (#[trigger] j.rooms[i].members.contains(id)) implies j.rooms[i].name
                == name by {
                if i < n {
                    assert(cleared[i].members.contains(id));
                }
            }
        }
    }
}

/// Copy of `v` without `id`; every other element and the absence of
/// duplicates are kept.
fn remove_id(v: &Vec<SessionId>, id: SessionId) -> (out: Vec<SessionId>)
    requires
        v@.no_duplicates(),
    ensures
        out@.no_duplicates(),
        out@.to_set() == v@.to_set().remove(id),
{
    let mut out: Vec<SessionId> = Vec::new();
    let mut i: usize = 0;
    while i < v.len()
        invariant
            i <= v@.len(),
            v@.no_duplicates(),
            out@.no_duplicates(),
            forall|x: SessionId|
                #[trigger] out@.contains(x) <==> (v@.subrange(0, i as int).contains(x) && x
                    != id),
        decreases v@.len() - i,
    {
        let ghost pre = out@;
        let ghost s0 = v@.subrange(0, i as int);
        let ghost s1 = v@.subrange(0, i as int + 1);
        if v[i] != id {
            proof {
                if out@.contains(v@[i as int]) {
                    let k = choose|k: int| 0 <= k < s0.len() && s0[k] == v@[i as int];
                    assert(v@[k] == v@[i as int]);
                }
                lemma_push_fresh(out@, v@[i as int]);
            }
            out.push(v[i]);
        }
        proof {
            assert(s1 =~= s0.push(v@[i as int]));
            assert forall|x: SessionId| #[trigger] out@.contains(x) <==> (s1.contains(x) && x
                != id) by {
                assert(s1.contains(x) <==> (s0.contains(x) || x == v@[i as int])) by {
                    if s1.contains(x) {
                        let k = choose|k: int| 0 <= k < s1.len() && s1[k] == x;
                        if k < i {
                            assert(s0[k] == x);
                        }
                    }
                    if s0.contains(x) {
                        let k = choose|k: int| 0 <= k < s0.len() && s0[k] == x;
                        assert(s1[k] == x);
                    }
                    if x == v@[i as int] {
                        assert(s1[i as int] == x);
                    }
                }
                if v@[i as int] != id {
                    assert(out@ == pre.push(v@[i as int]));
                    assert(out@.contains(x) <==> (pre.contains(x) || x == v@[i as int])) by {
                        if out@.contains(x) {
                            let k = choose|k: int| 0 <= k < out@.len() && out@[k] == x;
                            if k < pre.len() {
                                assert(pre[k] == x);
                            }
                        }
                        if pre.contains(x) {
                            let k = choose|k: int| 0 <= k < pre.len() && pre[k] == x;
                            assert(out@[k] == x);
                        }
                        assert(out@[out@.len() - 1] == v@[i as int]);
                    }
                } else {
                    assert(out@ == pre);
                }
            }
        }
        i = i + 1;
    }
    proof {
        assert(v@.subrange(0, v@.len() as int) =~= v@);
        assert(out@.to_set() =~= v@.to_set().remove(id));
    }
    out
}

/// True when `v` holds `id`.
fn contains_id(v: &Vec<SessionId>, id: SessionId) -> (r: bool)
    ensures
        r == v@.contains(id),
{
    let mut i: usize = 0;
    while i < v.len()
        invariant
            i <= v@.len(),
            forall|k: int| 0 <= k < i ==> v@[k] != id,
        decreases v@.len() - i,
    {
        if v[i] == id {
            return true;
        }
        i = i + 1;
    }
    false
}

/// Pushing an element that is absent keeps a sequence duplicate-free and
/// inserts it into the set of elements.
proof fn lemma_push_fresh(s: Seq<SessionId>, x: SessionId)
    requires
        s.no_duplicates(),
        !s.contains(x),
    ensures
        s.push(x).no_duplicates(),
        s.push(x).to_set() =~= s.to_set().insert(x),
{
    let t = s.push(x);
    assert forall|i: int, j: int|
        0 <= i < t.len() && 0 <= j < t.len() && i != j implies t[i] != t[j] by {
        if i < s.len() && j < s.len() {
            assert(s[i] != s[j]);
        } else if i < s.len() {
            assert(s.contains(s[i]));
        } else if j < s.len() {
            assert(s.contains(s[j]));
        }
    }
    assert forall|y: SessionId| #[trigger] t.contains(y) implies s.contains(y) || y == x by {
        let k = choose|k: int| 0 <= k < t.len() && t[k] == y;
        if k < s.len() {
            assert(s[k] == y);
        }
    }
    assert forall|y: SessionId| s.contains(y) implies t.contains(y) by {
        let k = choose|k: int| 0 <= k < s.len() && s[k] == y;
        assert(t[k] == y);
    }
    assert(t.contains(x)) by {
        assert(t[s.len() as int] == x);
    }
}

/// The registry after `id` has joined each room in `names`, in order.
pub open spec fn apply_joins(m: RegistryV, id: SessionId, names: Seq<Seq<char>>) -> RegistryV
    decreases names.len(),
{
    if names.len() == 0 {
        m
    } else {
        join_m(apply_joins(m, id, names.drop_last()), id, names.last())
    }
}

/// However a single session chains join operations, afterwards it is a
/// member of exactly one room: the one it joined last — never zero rooms
/// after its first join, never more than one.
pub proof fn lemma_joins_one_room(m: RegistryV, id: SessionId, names: Seq<Seq<char>>)
    requires
        m.wf(),
        id < m.next_id,
        names.len() > 0,
    ensures
        apply_joins(m, id, names).wf(),
        apply_joins(m, id, names).next_id == m.next_id,
        apply_joins(m, id, names).member_of_exactly(id, names.last()),
    decreases names.len(),
{
    if names.len() == 1 {
        assert(apply_joins(m, id, names.drop_last()) == m);
        lemma_join_wf(m, id, names.last());
    } else {
        lemma_joins_one_room(m, id, names.drop_last());
        let prev = apply_joins(m, id, names.drop_last());
        lemma_join_wf(prev, id, names.last());
    }
}

/// Disconnecting a session twice is idempotent: the second disconnect
/// leaves the registry exactly as the first did.
pub proof fn lemma_disconnect_idempotent(m: RegistryV, id: SessionId)
    ensures
        disconnect_m(disconnect_m(m, id), id) == disconnect_m(m, id),
{
    let d1 = disconnect_m(m, id);
    let d2 = disconnect_m(d1, id);
    assert(d2.connected =~= d1.connected);
    assert forall|i: int| 0 <= i < d1.rooms.len() implies #[trigger] d2.rooms[i] == d1.rooms[i] by {
        assert(d2.rooms[i].members =~= d1.rooms[i].members);
        assert(d2.rooms[i] =~~= d1.rooms[i]);
    }
    assert(d2 =~~= d1);
}

/// A broadcast to `name` reaches a session exactly when it is a current
/// member of that room whose handle is still live; in particular it never
/// reaches a session that has disconnected since.
pub proof fn lemma_broadcast_reach(m: RegistryV, name: Seq<char>, id: SessionId)
    ensures
        m.recipients(name).contains(id) <==> (m.members_of(name).contains(id)
            && m.connected.contains(id)),
        !disconnect_m(m, id).recipients(name).contains(id),
{
    let d = disconnect_m(m, id);
    assert(!d.connected.contains(id));
}

/// Rooms are never deleted: a disconnect leaves the listing unchanged, and
/// a join keeps every existing room, adding at most one new name at the end.
pub proof fn lemma_rooms_persist(m: RegistryV, id: SessionId, name: Seq<char>)
    ensures
        disconnect_m(m, id).room_names() == m.room_names(),
        join_m(m, id, name).has_room(name),
        forall|n: Seq<char>| #[trigger] m.has_room(n) ==> join_m(m, id, name).has_room(n),
{
    assert(disconnect_m(m, id).room_names() =~= m.room_names());
    let j = join_m(m, id, name);
    if m.has_room(name) {
        let k = m.room_index(name);
        assert(0 <= k < m.rooms.len() && m.rooms[k].name == name);
        assert(j.rooms[k].name == name);
    } else {
        assert(j.rooms[m.rooms.len() as int].name == name);
    }
    assert forall|n: Seq<char>| #[trigger] m.has_room(n) implies j.has_room(n) by {
        let i = choose|i: int| 0 <= i < m.rooms.len() && m.rooms[i].name == n;
        if m.has_room(name) {
            let k = m.room_index(name);
            if i == k {
                assert(j.rooms[k].name == name);
            } else {
                assert(j.rooms[i].name == n);
            }
        } else {
            assert(j.rooms[i].name == n);
        }
    }
}

/// One session's operations never disturb another session's state: a join
/// or a disconnect by `id` leaves every other identity's connectedness and
/// room membership exactly as they were, and any room a join creates holds
/// the joining session alone.
pub proof fn lemma_session_isolation(
    m: RegistryV,
    id: SessionId,
    name: Seq<char>,
    other: SessionId,
)
    requires
        other != id,
    ensures
        disconnect_m(m, id).connected.contains(other) == m.connected.contains(other),
        join_m(m, id, name).connected.contains(other) == m.connected.contains(other),
        disconnect_m(m, id).rooms.len() == m.rooms.len(),
        forall|i: int|
            0 <= i < m.rooms.len()
                ==> (#[trigger] disconnect_m(m, id).rooms[i]).members.contains(other)
                == m.rooms[i].members.contains(other),
        m.rooms.len() <= join_m(m, id, name).rooms.len() <= m.rooms.len() + 1,
        forall|i: int|
            0 <= i < m.rooms.len()
                ==> (#[trigger] join_m(m, id, name).rooms[i]).members.contains(other)
                == m.rooms[i].members.contains(other),
        forall|i: int|
            m.rooms.len() <= i < join_m(m, id, name).rooms.len()
                ==> !(#[trigger] join_m(m, id, name).rooms[i]).members.contains(other),
{
    let d = disconnect_m(m, id);
    assert forall|i: int| 0 <= i < m.rooms.len() implies (#[trigger] d.rooms[i]).members.contains(
        other,
    ) == m.rooms[i].members.contains(other) by {
        assert(d.rooms[i].members == m.rooms[i].members.remove(id));
    }
    let j = join_m(m, id, name);
    let cleared = leave_all(m.rooms, id);
    assert forall|i: int| 0 <= i < m.rooms.len() implies (#[trigger] j.rooms[i]).members.contains(
        other,
    ) == m.rooms[i].members.contains(other) by {
        assert(cleared[i].members == m.rooms[i].members.remove(id));
        if m.has_room(name) {
            let k = m.room_index(name);
            if i == k {
                assert(j.rooms[i].members == cleared[k].members.insert(id));
            }
        }
    }
}

} // verus!
