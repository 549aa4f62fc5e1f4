//! Pinning wires from the pool: the options of a pin run, and the
//! decisions of its two loops (polling the pool epoch by epoch, and
//! following a live receiver).

use vstd::prelude::*;

use std::path::PathBuf;

use crate::codec::{hex_lower, to_hex};
use crate::error::MemError;
use crate::order::seq_views;
use crate::pipe::{next_pool_epoch_of, parse_next_pool_epoch, parse_wrote_epoch, wrote_epoch_of, ReceiveOutput};
use crate::store::{pin_from_wire, pin_of_wire};
use crate::vault::{normalize_pk, normalize_pk_spec};
use crate::wire::{pin_wire, MemoryPin};

verus! {

/// How to pin a room's wires.
pub struct PinOptions {
    pub room_wire_pk: String,
    pub config: PathBuf,
    pub ratchet_seed: PathBuf,
    pub follow: bool,
    pub max_messages: Option<usize>,
    pub follow_timeout_secs: u64,
    pub filter_pk: Option<PathBuf>,
    pub filter_sk: Option<PathBuf>,
}

/// The default options: poll once, follow for two minutes, no filter.
pub fn default_pin_opts(room_wire_pk: &str, config: PathBuf, ratchet_seed: PathBuf) -> (o:
    PinOptions)
    ensures
        o.room_wire_pk@ == room_wire_pk@,
        o.config == config,
        o.ratchet_seed == ratchet_seed,
        !o.follow,
        o.max_messages is None,
        o.follow_timeout_secs == 120,
        o.filter_pk is None,
        o.filter_sk is None,
{
    PinOptions {
        room_wire_pk: String::from_str(room_wire_pk),
        config,
        ratchet_seed,
        follow: false,
        max_messages: None,
        follow_timeout_secs: 120,
        filter_pk: None,
        filter_sk: None,
    }
}

// ---------------------------------------------------------------------------
// Polling.
// ---------------------------------------------------------------------------

/// A poll run: the room, how many pins to store, how many were stored, and
/// the epoch the next receive starts from.
pub struct PinPoll {
    pub room_wire_pk: String,
    pub limit: usize,
    pub stored: usize,
    pub from_epoch: u64,
}

/// What to do with a received wire.
pub enum PollAction {
    /// Nothing arrived: wait a moment and receive again.
    Wait,
    /// Already stored, or not this room's: receive on.
    Skip,
    /// Store this pin.
    Store(MemoryPin),
}

impl PinPoll {
    /// A poll for a room, storing `max_messages` pins (one by default).
    pub fn new(room_wire_pk: &str, max_messages: Option<usize>) -> (p: Self)
        ensures
            p.room_wire_pk@ == normalize_pk_spec(room_wire_pk@),
            p.limit == match max_messages {
                Some(n) => n,
                None => 1,
            },
            p.stored == 0,
            p.from_epoch == 0,
    {
        PinPoll {
            room_wire_pk: normalize_pk(room_wire_pk),
            limit: match max_messages {
                Some(n) => n,
                None => 1,
            },
            stored: 0,
            from_epoch: 0,
        }
    }

    /// More pins are wanted.
    pub fn wants_more(&self) -> (b: bool)
        ensures
            b == (self.stored < self.limit),
    {
        self.stored < self.limit
    }

    /// Decides on a received wire: wait on an empty one; skip one already
    /// stored or not of this room (moving the cursor when the receiver names
    /// the next epoch); otherwise store it at the epoch it was written at
    /// (else the cursor's) and move the cursor.
    pub fn after_receive(&mut self, recv: &ReceiveOutput, duplicate: bool, matches_room: bool) -> (r:
        PollAction)
        requires
            old(self).stored < old(self).limit,
        ensures
            final(self).room_wire_pk == old(self).room_wire_pk,
            final(self).limit == old(self).limit,
            final(self).from_epoch == if recv.wire_bytes@.len() == 0 {
                old(self).from_epoch
            } else {
                match next_pool_epoch_of(recv.stdout@) {
                    Some(e) => e,
                    None => old(self).from_epoch,
                }
            },
            recv.wire_bytes@.len() == 0 ==> (r is Wait && final(self).stored == old(self).stored),
            recv.wire_bytes@.len() > 0 && (duplicate || !matches_room) ==> (r is Skip
                && final(self).stored == old(self).stored),
            recv.wire_bytes@.len() > 0 && !duplicate && matches_room ==> (r matches PollAction::Store(p)
                && p@ == pin_of_wire(
                old(self).room_wire_pk@,
                match wrote_epoch_of(recv.stdout@) {
                    Some(e) => e,
                    None => old(self).from_epoch,
                },
                recv.wire_bytes@,
            ) && pin_wire(p@) == Some(recv.wire_bytes@) && final(self).stored == old(self).stored + 1),
    {
        if recv.wire_bytes.len() == 0 {
            return PollAction::Wait;
        }
        let next = parse_next_pool_epoch(recv.stdout.as_str());
        if duplicate || !matches_room {
            if let Some(e) = next {
                self.from_epoch = e;
            }
            return PollAction::Skip;
        }
        let epoch = match parse_wrote_epoch(recv.stdout.as_str()) {
            Some(e) => e,
            None => self.from_epoch,
        };
        let pin = match pin_from_wire(self.room_wire_pk.as_str(), epoch, recv.wire_bytes.as_slice()) {
            Ok(p) => p,
            Err(_) => {
                return PollAction::Skip;
            },
        };
        self.stored = self.stored + 1;
        if let Some(e) = next {
            self.from_epoch = e;
        }
        PollAction::Store(pin)
    }
}

// ---------------------------------------------------------------------------
// Following.
// ---------------------------------------------------------------------------

/// A follow run: the room, how many pins to store, how many were stored,
/// and the identities of the wires stored during the run.
pub struct PinFollow {
    pub room_wire_pk: String,
    pub limit: usize,
    pub stored: usize,
    pub seen: Vec<String>,
}

impl PinFollow {
    /// A follow for a room, storing at most `max_messages` pins (no limit by
    /// default).
    pub fn new(room_wire_pk: &str, max_messages: Option<usize>) -> (f: Self)
        ensures
            f.room_wire_pk@ == normalize_pk_spec(room_wire_pk@),
            f.limit == match max_messages {
                Some(n) => n,
                None => usize::MAX,
            },
            f.stored == 0,
            f.seen@.len() == 0,
    {
        PinFollow {
            room_wire_pk: normalize_pk(room_wire_pk),
            limit: match max_messages {
                Some(n) => n,
                None => usize::MAX,
            },
            stored: 0,
            seen: Vec::new(),
        }
    }

    pub fn wants_more(&self) -> (b: bool)
        ensures
            b == (self.stored < self.limit),
    {
        self.stored < self.limit
    }

    /// A non-empty wire not stored during this run.
    pub fn is_new(&self, wire: &[u8]) -> (b: bool)
        ensures
            b == (wire@.len() > 0 && !seq_views(self.seen@).contains(hex_lower(wire@))),
    {
        if wire.len() == 0 {
            return false;
        }
        let h = to_hex(wire);
        let mut i: usize = 0;
        while i < self.seen.len()
            invariant
                i <= self.seen.len(),
                h@ == hex_lower(wire@),
                forall|j: int| 0 <= j < i ==> self.seen@[j]@ != h@,
            decreases self.seen.len() - i,
        {
            if self.seen[i] == h {
                assert(seq_views(self.seen@)[i as int] == h@);
                return false;
            }
            i = i + 1;
        }
        assert forall|j: int| 0 <= j < seq_views(self.seen@).len() implies seq_views(self.seen@)[j]
            != h@ by {
            assert(seq_views(self.seen@)[j] == self.seen@[j]@);
        }
        true
    }

    /// Takes a settled wire: the pin to store (at epoch zero), remembering
    /// the wire so that the run stores it once.
    pub fn accept(&mut self, wire: &[u8]) -> (r: Result<MemoryPin, MemError>)
        requires
            old(self).stored < old(self).limit,
        ensures
            r matches Ok(p) && p@ == pin_of_wire(old(self).room_wire_pk@, 0, wire@) && pin_wire(p@)
                == Some(wire@),
            final(self).room_wire_pk == old(self).room_wire_pk,
            final(self).limit == old(self).limit,
            final(self).stored == old(self).stored + 1,
            seq_views(final(self).seen@) == seq_views(old(self).seen@).push(hex_lower(wire@)),
    {
        let pin = pin_from_wire(self.room_wire_pk.as_str(), 0, wire)?;
        let ghost before = seq_views(self.seen@);
        let h = to_hex(wire);
        self.seen.push(h);
        assert(seq_views(self.seen@) =~= before.push(hex_lower(wire@)));
        self.stored = self.stored + 1;
        Ok(pin)
    }
}

} // verus!
