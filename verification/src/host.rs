//! The host ledger: which rooms this host mirrors, since when, how many pins
//! and bytes, and when each was first published; and the host's public
//! contribution fingerprint.

use vstd::prelude::*;

use crate::codec::{hex_lower, to_hex};
use crate::error::{store_err, MemError, MemErrorView};
use crate::text::{chars_of, string_of, sub_chars};
use crate::vault::{normalize_pk, normalize_pk_spec};

verus! {

/// One room mirrored by this host.
pub struct HostRoomEntry {
    pub room_wire_pk: String,
    pub first_seen: u64,
    pub last_seen: u64,
    pub pin_count: u64,
    pub memory_bytes: u64,
    pub first_published: Option<u64>,
}

pub struct HostRoomView {
    pub room_wire_pk: Seq<char>,
    pub first_seen: u64,
    pub last_seen: u64,
    pub pin_count: u64,
    pub memory_bytes: u64,
    pub first_published: Option<u64>,
}

impl View for HostRoomEntry {
    type V = HostRoomView;

    open spec fn view(&self) -> HostRoomView {
        HostRoomView {
            room_wire_pk: self.room_wire_pk@,
            first_seen: self.first_seen,
            last_seen: self.last_seen,
            pin_count: self.pin_count,
            memory_bytes: self.memory_bytes,
            first_published: self.first_published,
        }
    }
}

/// What this host has contributed: its fingerprint, its rooms, and when it
/// first and last did GDIR work.
pub struct HostLedger {
    pub contrib_fp: String,
    pub rooms: Vec<HostRoomEntry>,
    pub gdir_first_seen: Option<u64>,
    pub gdir_last_seen: Option<u64>,
}

pub struct HostLedgerView {
    pub contrib_fp: Seq<char>,
    pub rooms: Seq<HostRoomView>,
    pub gdir_first_seen: Option<u64>,
    pub gdir_last_seen: Option<u64>,
}

pub open spec fn room_views(rooms: Seq<HostRoomEntry>) -> Seq<HostRoomView> {
    rooms.map_values(|r: HostRoomEntry| r@)
}

impl View for HostLedger {
    type V = HostLedgerView;

    open spec fn view(&self) -> HostLedgerView {
        HostLedgerView {
            contrib_fp: self.contrib_fp@,
            rooms: room_views(self.rooms@),
            gdir_first_seen: self.gdir_first_seen,
            gdir_last_seen: self.gdir_last_seen,
        }
    }
}

impl Default for HostLedger {
    fn default() -> (l: Self)
        ensures
            l@.contrib_fp.len() == 0,
            l@.rooms.len() == 0,
            l@.gdir_first_seen is None,
            l@.gdir_last_seen is None,
    {
        HostLedger {
            contrib_fp: String::new(),
            rooms: Vec::new(),
            gdir_first_seen: None,
            gdir_last_seen: None,
        }
    }
}

// ---------------------------------------------------------------------------
// Finding a room.
// ---------------------------------------------------------------------------

pub open spec fn room_at(rooms: Seq<HostRoomView>, pk: Seq<char>, i: int) -> bool {
    0 <= i < rooms.len() && rooms[i].room_wire_pk == pk
}

/// The first entry of the room with key `pk`.
pub open spec fn find_room(rooms: Seq<HostRoomView>, pk: Seq<char>) -> Option<int> {
    if exists|i: int| room_at(rooms, pk, i) {
        Some(choose|i: int| room_at(rooms, pk, i) && forall|j: int| 0 <= j < i ==> !room_at(rooms, pk, j))
    } else {
        None
    }
}

proof fn lemma_find_room_first(rooms: Seq<HostRoomView>, pk: Seq<char>, i: int)
    requires
        room_at(rooms, pk, i),
        forall|j: int| 0 <= j < i ==> !room_at(rooms, pk, j),
    ensures
        find_room(rooms, pk) == Some(i),
{
    let k = choose|k: int| room_at(rooms, pk, k) && forall|j: int| 0 <= j < k ==> !room_at(rooms, pk, j);
    assert(room_at(rooms, pk, k) && forall|j: int| 0 <= j < k ==> !room_at(rooms, pk, j));
    if k < i {
        assert(!room_at(rooms, pk, k));
    }
    if i < k {
        assert(!room_at(rooms, pk, i));
    }
}

proof fn lemma_least_room(rooms: Seq<HostRoomView>, pk: Seq<char>, i: int)
    requires
        room_at(rooms, pk, i),
    ensures
        exists|k: int| room_at(rooms, pk, k) && forall|j: int| 0 <= j < k ==> !room_at(rooms, pk, j),
    decreases i,
{
    if exists|j: int| 0 <= j < i && room_at(rooms, pk, j) {
        let j = choose|j: int| 0 <= j < i && room_at(rooms, pk, j);
        lemma_least_room(rooms, pk, j);
    } else {
        assert(room_at(rooms, pk, i) && forall|j: int| 0 <= j < i ==> !room_at(rooms, pk, j));
    }
}

proof fn lemma_find_room_some(rooms: Seq<HostRoomView>, pk: Seq<char>)
    requires
        find_room(rooms, pk) is Some,
    ensures
        room_at(rooms, pk, find_room(rooms, pk)->0),
        forall|j: int| 0 <= j < find_room(rooms, pk)->0 ==> !room_at(rooms, pk, j),
{
    let i = choose|i: int| room_at(rooms, pk, i);
    lemma_least_room(rooms, pk, i);
}

fn find_room_index(rooms: &Vec<HostRoomEntry>, pk: &String) -> (r: Option<usize>)
    ensures
        r is None <==> find_room(room_views(rooms@), pk@) is None,
        r matches Some(i) ==> find_room(room_views(rooms@), pk@) == Some(i as int) && i
            < rooms@.len(),
{
    let ghost rs = room_views(rooms@);
    let mut i: usize = 0;
    while i < rooms.len()
        invariant
            rs == room_views(rooms@),
            i <= rooms.len(),
            forall|j: int| 0 <= j < i ==> !room_at(rs, pk@, j),
        decreases rooms.len() - i,
    {
        if rooms[i].room_wire_pk == *pk {
            proof {
                assert(rs[i as int] == rooms@[i as int]@);
                lemma_find_room_first(rs, pk@, i as int);
            }
            return Some(i);
        }
        assert(!room_at(rs, pk@, i as int));
        i = i + 1;
    }
    assert(!exists|j: int| room_at(rs, pk@, j));
    None
}

/// No two entries are for the same room.
pub open spec fn rooms_unique(rooms: Seq<HostRoomView>) -> bool {
    forall|i: int, j: int|
        0 <= i < j < rooms.len() ==> #[trigger] rooms[i].room_wire_pk != #[trigger] rooms[j].room_wire_pk
}

// ---------------------------------------------------------------------------
// Recording pins, publications and GDIR work.
// ---------------------------------------------------------------------------

/// The ledger after a pin of `bytes` bytes is stored for room `pk` at `now`.
pub open spec fn touch_pin_spec(l: HostLedgerView, pk: Seq<char>, bytes: u64, now: u64) -> HostLedgerView {
    let k = normalize_pk_spec(pk);
    match find_room(l.rooms, k) {
        Some(i) => HostLedgerView {
            rooms: l.rooms.update(
                i,
                HostRoomView {
                    last_seen: now,
                    pin_count: (l.rooms[i].pin_count + 1) as u64,
                    memory_bytes: (l.rooms[i].memory_bytes + bytes) as u64,
                    ..l.rooms[i]
                },
            ),
            ..l
        },
        None => HostLedgerView {
            rooms: l.rooms.push(
                HostRoomView {
                    room_wire_pk: k,
                    first_seen: now,
                    last_seen: now,
                    pin_count: 1,
                    memory_bytes: bytes,
                    first_published: None,
                },
            ),
            ..l
        },
    }
}

/// Storing another pin does not overflow the room's counters.
pub open spec fn can_touch_pin(l: HostLedgerView, pk: Seq<char>, bytes: u64) -> bool {
    match find_room(l.rooms, normalize_pk_spec(pk)) {
        Some(i) => l.rooms[i].pin_count < u64::MAX && l.rooms[i].memory_bytes + bytes <= u64::MAX,
        None => true,
    }
}

proof fn lemma_update_unique(rooms: Seq<HostRoomView>, i: int, e: HostRoomView)
    requires
        rooms_unique(rooms),
        0 <= i < rooms.len(),
        e.room_wire_pk == rooms[i].room_wire_pk,
    ensures
        rooms_unique(rooms.update(i, e)),
{
    let r = rooms.update(i, e);
    assert forall|a: int, b: int| 0 <= a < b < r.len() implies #[trigger] r[a].room_wire_pk
        != #[trigger] r[b].room_wire_pk by {
        assert(r[a].room_wire_pk == rooms[a].room_wire_pk);
        assert(r[b].room_wire_pk == rooms[b].room_wire_pk);
    }
}

proof fn lemma_push_unique(rooms: Seq<HostRoomView>, e: HostRoomView)
    requires
        rooms_unique(rooms),
        find_room(rooms, e.room_wire_pk) is None,
    ensures
        rooms_unique(rooms.push(e)),
{
    let r = rooms.push(e);
    assert forall|a: int, b: int| 0 <= a < b < r.len() implies #[trigger] r[a].room_wire_pk
        != #[trigger] r[b].room_wire_pk by {
        if b == rooms.len() {
            assert(!room_at(rooms, e.room_wire_pk, a));
        }
    }
}

/// Records a pin of `pin_bytes` bytes stored for a room at time `now`.
pub fn touch_room_pin(ledger: &mut HostLedger, room_wire_pk: &str, pin_bytes: u64, now: u64)
    requires
        can_touch_pin(old(ledger)@, room_wire_pk@, pin_bytes),
    ensures
        final(ledger)@ == touch_pin_spec(old(ledger)@, room_wire_pk@, pin_bytes, now),
        rooms_unique(old(ledger)@.rooms) ==> rooms_unique(final(ledger)@.rooms),
{
    let pk = normalize_pk(room_wire_pk);
    let ghost l0 = ledger@;
    match find_room_index(&ledger.rooms, &pk) {
        Some(i) => {
            assert(l0.rooms[i as int] == ledger.rooms@[i as int]@);
            ledger.rooms[i].last_seen = now;
            ledger.rooms[i].pin_count = ledger.rooms[i].pin_count + 1;
            ledger.rooms[i].memory_bytes = ledger.rooms[i].memory_bytes + pin_bytes;
            proof {
                let e = touch_pin_spec(l0, room_wire_pk@, pin_bytes, now).rooms[i as int];
                assert(ledger@.rooms =~= l0.rooms.update(i as int, e));
                if rooms_unique(l0.rooms) {
                    lemma_update_unique(l0.rooms, i as int, e);
                }
            }
        },
        None => {
            ledger.rooms.push(
                HostRoomEntry {
                    room_wire_pk: pk,
                    first_seen: now,
                    last_seen: now,
                    pin_count: 1,
                    memory_bytes: pin_bytes,
                    first_published: None,
                },
            );
            proof {
                let e = touch_pin_spec(l0, room_wire_pk@, pin_bytes, now).rooms.last();
                assert(ledger@.rooms =~= l0.rooms.push(e));
                if rooms_unique(l0.rooms) {
                    lemma_push_unique(l0.rooms, e);
                }
            }
        },
    }
}

pub open spec fn sat_add(a: u64, b: u64) -> u64 {
    if a + b > u64::MAX {
        u64::MAX
    } else {
        (a + b) as u64
    }
}

/// The ledger after `bytes` bytes of room `pk` are published at `now`.
pub open spec fn touch_published_spec(l: HostLedgerView, pk: Seq<char>, bytes: u64, now: u64) -> HostLedgerView {
    let k = normalize_pk_spec(pk);
    match find_room(l.rooms, k) {
        Some(i) => HostLedgerView {
            rooms: l.rooms.update(
                i,
                HostRoomView {
                    last_seen: now,
                    memory_bytes: sat_add(l.rooms[i].memory_bytes, bytes),
                    first_published: if l.rooms[i].first_published is Some {
                        l.rooms[i].first_published
                    } else {
                        Some(now)
                    },
                    ..l.rooms[i]
                },
            ),
            ..l
        },
        None => HostLedgerView {
            rooms: l.rooms.push(
                HostRoomView {
                    room_wire_pk: k,
                    first_seen: now,
                    last_seen: now,
                    pin_count: 0,
                    memory_bytes: bytes,
                    first_published: Some(now),
                },
            ),
            ..l
        },
    }
}

/// Records the publication of `pin_bytes` bytes of a room at time `now`;
/// the room's first publication time is kept once set.
pub fn touch_room_published(ledger: &mut HostLedger, room_wire_pk: &str, pin_bytes: u64, now: u64)
    ensures
        final(ledger)@ == touch_published_spec(old(ledger)@, room_wire_pk@, pin_bytes, now),
        rooms_unique(old(ledger)@.rooms) ==> rooms_unique(final(ledger)@.rooms),
{
    let pk = normalize_pk(room_wire_pk);
    let ghost l0 = ledger@;
    match find_room_index(&ledger.rooms, &pk) {
        Some(i) => {
            assert(l0.rooms[i as int] == ledger.rooms@[i as int]@);
            ledger.rooms[i].last_seen = now;
            ledger.rooms[i].memory_bytes = ledger.rooms[i].memory_bytes.saturating_add(pin_bytes);
            if ledger.rooms[i].first_published.is_none() {
                ledger.rooms[i].first_published = Some(now);
            }
            proof {
                let e = touch_published_spec(l0, room_wire_pk@, pin_bytes, now).rooms[i as int];
                assert(ledger@.rooms =~= l0.rooms.update(i as int, e));
                if rooms_unique(l0.rooms) {
                    lemma_update_unique(l0.rooms, i as int, e);
                }
            }
        },
        None => {
            ledger.rooms.push(
                HostRoomEntry {
                    room_wire_pk: pk,
                    first_seen: now,
                    last_seen: now,
                    pin_count: 0,
                    memory_bytes: pin_bytes,
                    first_published: Some(now),
                },
            );
            proof {
                let e = touch_published_spec(l0, room_wire_pk@, pin_bytes, now).rooms.last();
                assert(ledger@.rooms =~= l0.rooms.push(e));
                if rooms_unique(l0.rooms) {
                    lemma_push_unique(l0.rooms, e);
                }
            }
        },
    }
}

/// Records GDIR work at time `now`: the first time is kept once set.
pub fn touch_gdir_contrib(ledger: &mut HostLedger, now: u64)
    ensures
        final(ledger)@ == (HostLedgerView {
            gdir_first_seen: if old(ledger)@.gdir_first_seen is Some {
                old(ledger)@.gdir_first_seen
            } else {
                Some(now)
            },
            gdir_last_seen: Some(now),
            ..old(ledger)@
        }),
{
    if ledger.gdir_first_seen.is_none() {
        ledger.gdir_first_seen = Some(now);
    }
    ledger.gdir_last_seen = Some(now);
}

// ---------------------------------------------------------------------------
// Reading the ledger.
// ---------------------------------------------------------------------------

/// Seconds room `pk` has been hosted at `now`: since its first publication,
/// zero when it was never published.
pub open spec fn hosted_spec(l: HostLedgerView, pk: Seq<char>, now: u64) -> u64 {
    match find_room(l.rooms, normalize_pk_spec(pk)) {
        Some(i) => match l.rooms[i].first_published {
            Some(start) => if now >= start {
                (now - start) as u64
            } else {
                0
            },
            None => 0,
        },
        None => 0,
    }
}

/// How long a room has been hosted at time `now`.
pub fn hosted_seconds(ledger: &HostLedger, room_wire_pk: &str, now: u64) -> (r: u64)
    ensures
        r == hosted_spec(ledger@, room_wire_pk@, now),
{
    let pk = normalize_pk(room_wire_pk);
    match find_room_index(&ledger.rooms, &pk) {
        Some(i) => match {
            assert(ledger@.rooms[i as int] == ledger.rooms@[i as int]@);
            ledger.rooms[i].first_published
        } {
            Some(start) => now.saturating_sub(start),
            None => 0,
        },
        None => 0,
    }
}

fn copy_room(e: &HostRoomEntry) -> (r: HostRoomEntry)
    ensures
        r@ == e@,
{
    HostRoomEntry {
        room_wire_pk: e.room_wire_pk.clone(),
        first_seen: e.first_seen,
        last_seen: e.last_seen,
        pin_count: e.pin_count,
        memory_bytes: e.memory_bytes,
        first_published: e.first_published,
    }
}

/// The ledger entry of a room, if this host mirrors it.
pub fn room_host_status(ledger: &HostLedger, room_wire_pk: &str) -> (r: Option<HostRoomEntry>)
    ensures
        match find_room(ledger@.rooms, normalize_pk_spec(room_wire_pk@)) {
            Some(i) => r matches Some(e) && e@ == ledger@.rooms[i],
            None => r is None,
        },
{
    let pk = normalize_pk(room_wire_pk);
    match find_room_index(&ledger.rooms, &pk) {
        Some(i) => {
            assert(ledger@.rooms[i as int] == ledger.rooms@[i as int]@);
            Some(copy_room(&ledger.rooms[i]))
        },
        None => None,
    }
}

// ---------------------------------------------------------------------------
// Laws of the ledger.
// ---------------------------------------------------------------------------

/// Storing pins never starts hosting: every room's hosted time is what it
/// was.
pub proof fn lemma_pin_keeps_hosting(l: HostLedgerView, pk: Seq<char>, bytes: u64, t: u64, q: Seq<char>, now: u64)
    ensures
        hosted_spec(touch_pin_spec(l, pk, bytes, t), q, now) == hosted_spec(l, q, now),
{
    let k = normalize_pk_spec(pk);
    let kq = normalize_pk_spec(q);
    let l2 = touch_pin_spec(l, pk, bytes, t);
    match find_room(l.rooms, k) {
        Some(i) => {
            lemma_find_room_some(l.rooms, k);
            match find_room(l.rooms, kq) {
                Some(j) => {
                    lemma_find_room_some(l.rooms, kq);
                    assert(room_at(l2.rooms, kq, j));
                    assert forall|m: int| 0 <= m < j implies !room_at(l2.rooms, kq, m) by {
                        assert(!room_at(l.rooms, kq, m));
                    }
                    lemma_find_room_first(l2.rooms, kq, j);
                },
                None => {
                    assert forall|m: int| !room_at(l2.rooms, kq, m) by {
                        assert(!room_at(l.rooms, kq, m));
                    }
                },
            }
        },
        None => {
            match find_room(l.rooms, kq) {
                Some(j) => {
                    lemma_find_room_some(l.rooms, kq);
                    assert(room_at(l2.rooms, kq, j));
                    assert forall|m: int| 0 <= m < j implies !room_at(l2.rooms, kq, m) by {
                        assert(!room_at(l.rooms, kq, m));
                    }
                    lemma_find_room_first(l2.rooms, kq, j);
                },
                None => {
                    if kq == k {
                        assert(room_at(l2.rooms, kq, l.rooms.len() as int));
                        assert forall|m: int| 0 <= m < l.rooms.len() implies !room_at(l2.rooms, kq, m) by {
                            assert(!room_at(l.rooms, kq, m));
                        }
                        lemma_find_room_first(l2.rooms, kq, l.rooms.len() as int);
                    } else {
                        assert forall|m: int| !room_at(l2.rooms, kq, m) by {
                            if m < l.rooms.len() {
                                assert(!room_at(l.rooms, kq, m));
                            }
                        }
                    }
                },
            }
        },
    }
}

/// A room published for the first time at `t` has been hosted `now - t`
/// seconds at any later `now`.
pub proof fn lemma_first_publication_starts_hosting(l: HostLedgerView, pk: Seq<char>, bytes: u64, t: u64, now: u64)
    requires
        t <= now,
        match find_room(l.rooms, normalize_pk_spec(pk)) {
            Some(i) => l.rooms[i].first_published is None,
            None => true,
        },
    ensures
        hosted_spec(touch_published_spec(l, pk, bytes, t), pk, now) == now - t,
{
    let k = normalize_pk_spec(pk);
    let l2 = touch_published_spec(l, pk, bytes, t);
    match find_room(l.rooms, k) {
        Some(i) => {
            lemma_find_room_some(l.rooms, k);
            assert(room_at(l2.rooms, k, i));
            assert forall|m: int| 0 <= m < i implies !room_at(l2.rooms, k, m) by {
                assert(!room_at(l.rooms, k, m));
            }
            lemma_find_room_first(l2.rooms, k, i);
        },
        None => {
            assert(room_at(l2.rooms, k, l.rooms.len() as int));
            assert forall|m: int| 0 <= m < l.rooms.len() implies !room_at(l2.rooms, k, m) by {
                assert(!room_at(l.rooms, k, m));
            }
            lemma_find_room_first(l2.rooms, k, l.rooms.len() as int);
        },
    }
}

/// The new ledger's entry for the room touched: where the old one was, or
/// appended.
proof fn lemma_touched_room_found(l: HostLedgerView, l2: HostLedgerView, k: Seq<char>)
    requires
        l2.rooms.len() >= l.rooms.len(),
        forall|m: int| 0 <= m < l.rooms.len() ==> (#[trigger] l2.rooms[m]).room_wire_pk == l.rooms[m].room_wire_pk,
        find_room(l.rooms, k) is None ==> l2.rooms.len() == l.rooms.len() + 1 && l2.rooms[l.rooms.len() as int].room_wire_pk == k,
    ensures
        find_room(l2.rooms, k) == match find_room(l.rooms, k) {
            Some(i) => Some(i),
            None => Some(l.rooms.len() as int),
        },
{
    match find_room(l.rooms, k) {
        Some(i) => {
            lemma_find_room_some(l.rooms, k);
            assert(room_at(l2.rooms, k, i));
            assert forall|m: int| 0 <= m < i implies !room_at(l2.rooms, k, m) by {
                assert(!room_at(l.rooms, k, m));
            }
            lemma_find_room_first(l2.rooms, k, i);
        },
        None => {
            assert(room_at(l2.rooms, k, l.rooms.len() as int));
            assert forall|m: int| 0 <= m < l.rooms.len() implies !room_at(l2.rooms, k, m) by {
                assert(!room_at(l.rooms, k, m));
            }
            lemma_find_room_first(l2.rooms, k, l.rooms.len() as int);
        },
    }
}

/// Law: storing a pin of `bytes` bytes counts one more pin and `bytes` more
/// bytes for its room (starting from zero for a new room) and marks the
/// room seen at `now`; other rooms are unchanged.
pub proof fn lemma_pin_is_counted(l: HostLedgerView, pk: Seq<char>, bytes: u64, now: u64)
    requires
        can_touch_pin(l, pk, bytes),
    ensures
        ({
            let k = normalize_pk_spec(pk);
            let l2 = touch_pin_spec(l, pk, bytes, now);
            let (count, size) = match find_room(l.rooms, k) {
                Some(i) => (l.rooms[i].pin_count as int, l.rooms[i].memory_bytes as int),
                None => (0int, 0int),
            };
            &&& find_room(l2.rooms, k) is Some
            &&& l2.rooms[find_room(l2.rooms, k)->0].pin_count == count + 1
            &&& l2.rooms[find_room(l2.rooms, k)->0].memory_bytes == size + bytes
            &&& l2.rooms[find_room(l2.rooms, k)->0].last_seen == now
            &&& forall|m: int|
                0 <= m < l.rooms.len() && m != find_room(l2.rooms, k)->0 ==> #[trigger] l2.rooms[m] == l.rooms[m]
        }),
{
    let k = normalize_pk_spec(pk);
    let l2 = touch_pin_spec(l, pk, bytes, now);
    if find_room(l.rooms, k) is Some {
        lemma_find_room_some(l.rooms, k);
    }
    lemma_touched_room_found(l, l2, k);
}

/// Law: publishing again does not restart hosting: once a room has a first
/// publication time, later publications keep it, and the hosted time stays
/// what it was.
pub proof fn lemma_republication_keeps_hosting(l: HostLedgerView, pk: Seq<char>, bytes: u64, t: u64, now: u64)
    requires
        find_room(l.rooms, normalize_pk_spec(pk)) matches Some(i) && l.rooms[i].first_published is Some,
    ensures
        hosted_spec(touch_published_spec(l, pk, bytes, t), pk, now) == hosted_spec(l, pk, now),
{
    let k = normalize_pk_spec(pk);
    let l2 = touch_published_spec(l, pk, bytes, t);
    lemma_find_room_some(l.rooms, k);
    lemma_touched_room_found(l, l2, k);
}

// ---------------------------------------------------------------------------
// The host secret and its public fingerprint.
// ---------------------------------------------------------------------------

/// The host secret is exactly 32 bytes.
pub fn host_secret_from_bytes(data: Vec<u8>) -> (r: Result<Vec<u8>, MemError>)
    ensures
        data@.len() == 32 ==> (r matches Ok(v) && v@ == data@),
        data@.len() != 32 ==> (r matches Err(e) && e@ == MemErrorView::Store(
            "host.secret must be 32 bytes"@,
        )),
{
    if data.len() == 32 {
        Ok(data)
    } else {
        Err(store_err("host.secret must be 32 bytes"))
    }
}

proof fn lemma_hex_len(b: Seq<u8>)
    ensures
        hex_lower(b).len() == 2 * b.len(),
    decreases b.len(),
{
    if b.len() > 0 {
        lemma_hex_len(b.drop_first());
    }
}

/// The public contribution fingerprint of a host: the first sixteen hex
/// digits of its secret.
pub fn contrib_fp(secret: &[u8]) -> (fp: String)
    requires
        secret@.len() == 32,
    ensures
        fp@ == hex_lower(secret@).take(16),
{
    let h = to_hex(secret);
    let c = chars_of(h.as_str());
    proof {
        lemma_hex_len(secret@);
    }
    let p = sub_chars(&c, 0, 16);
    assert(p@ =~= hex_lower(secret@).take(16));
    string_of(&p)
}

} // verus!
