use vstd::prelude::*;
use crate::msgs::ServerMsg;
use crate::room::{RoomState, DECK_MAX};
use crate::rng::random_lowercase_letter;
use crate::text::{clone_cards, code_matches, matches_code, push_char};

verus! {

/// Length of a room code.
pub const CODE_LEN: usize = 4;

/// Seconds a room with no connected player may sit untouched before the
/// reclamation sweep removes it.
pub const IDLE_TIMEOUT_S: u64 = 3600;

/// Most random draws a single code generation makes before giving up.
pub const CODE_TRIES: usize = 100000;

/// A room code: a fixed-length word over the lowercase alphabet.
pub open spec fn is_code(s: Seq<char>) -> bool {
    s.len() == CODE_LEN && (forall|i: int| 0 <= i < s.len() ==> 'a' <= s[i] && s[i] <= 'z')
}

/// One room in the directory, with the counters that drive reclamation:
/// how many players are connected right now and when the room was last
/// touched by a connection attempt.
pub struct RoomEntry {
    pub code: String,
    pub room: RoomState,
    pub active_count: u64,
    pub last_access: u64,
}

/// `e` qualifies for reclamation at time `now`: nobody is connected and
/// the room has been idle beyond the timeout.
pub open spec fn is_idle(e: RoomEntry, now: u64) -> bool {
    e.active_count == 0 && now > e.last_access + IDLE_TIMEOUT_S
}

/// The room directory: it creates rooms under codes never handed out
/// twice, looks them up case-insensitively, reports usage, and reclaims
/// rooms that sit idle with nobody connected.
pub struct Registry {
    pub rooms: Vec<RoomEntry>,
    pub base_deck: Vec<String>,
}

impl Registry {
    /// No two rooms ever hold the same code.
    pub open spec fn codes_unique(self) -> bool {
        forall|i: int, j: int|
            0 <= i < j < self.rooms@.len() ==> self.rooms@[i].code@ != self.rooms@[j].code@
    }

    pub open spec fn wf(self) -> bool {
        &&& self.codes_unique()
        &&& forall|i: int|
            0 <= i < self.rooms@.len() ==> is_code((#[trigger] self.rooms@[i]).code@)
                && self.rooms@[i].room.wf() && self.rooms@[i].room.room_id@ == self.rooms@[i].code@
        &&& self.base_deck@.len() <= DECK_MAX
    }

    /// An empty directory over the shared deck catalog.
    pub fn new(base_deck: Vec<String>) -> (r: Registry)
        requires
            base_deck@.len() <= DECK_MAX,
        ensures
            r.wf(),
            r.rooms@.len() == 0,
            r.base_deck == base_deck,
    {
        Registry { rooms: Vec::new(), base_deck }
    }

    /// Draws random codes until one is unused. A collision is possible
    /// for a short code, so generation retries; the number of draws is
    /// capped so that the search provably terminates, and a room
    /// directory anywhere near realistic size finds a free code on the
    /// first few draws.
    fn fresh_code(&self) -> (code: Option<String>)
        requires
            self.wf(),
        ensures
            match code {
                Some(c) => is_code(c@) && forall|i: int|
                    0 <= i < self.rooms@.len() ==> (#[trigger] self.rooms@[i]).code@ != c@,
                None => true,
            },
    {
        let mut tries: usize = 0;
        while tries < CODE_TRIES
            invariant
                self.wf(),
            decreases CODE_TRIES - tries,
        {
            let mut code = String::new();
            let mut k: usize = 0;
            while k < CODE_LEN
                invariant
                    0 <= k <= CODE_LEN,
                    code@.len() == k,
                    forall|i: int| 0 <= i < k ==> 'a' <= code@[i] && code@[i] <= 'z',
                decreases CODE_LEN - k,
            {
                let c = random_lowercase_letter();
                push_char(&mut code, c);
                k = k + 1;
            }
            let mut used = false;
            let mut i: usize = 0;
            while i < self.rooms.len()
                invariant
                    0 <= i <= self.rooms@.len(),
                    used <==> exists|j: int|
                        0 <= j < i && (#[trigger] self.rooms@[j]).code@ == code@,
                decreases self.rooms@.len() - i,
            {
                if self.rooms[i].code.eq(&code) {
                    used = true;
                }
                i = i + 1;
            }
            if !used {
                return Some(code);
            }
            tries = tries + 1;
        }
        None
    }

    /// Installs a room under the given unused code: it starts in the
    /// joining stage with a private copy of the deck and nobody seated,
    /// the access time is stamped, and the new room's snapshot returned.
    pub fn insert_room(&mut self, code: String, now: u64) -> (msg: ServerMsg)
        requires
            old(self).wf(),
            is_code(code@),
            forall|i: int| 0 <= i < old(self).rooms@.len() ==> (#[trigger] old(self).rooms@[i]).code@ != code@,
        ensures
            final(self).wf(),
            final(self).base_deck == old(self).base_deck,
            final(self).rooms@.len() == old(self).rooms@.len() + 1,
            final(self).rooms@.drop_last() == old(self).rooms@,
            final(self).rooms@.last().code@ == code@,
            final(self).rooms@.last().active_count == 0,
            final(self).rooms@.last().last_access == now,
            final(self).rooms@.last().room.stage is Joining,
            final(self).rooms@.last().room.players@.len() == 0,
            final(self).rooms@.last().room.deck@ == old(self).base_deck@,
            final(self).rooms@.last().room.room_id@ == code@,
            final(self).rooms@.last().room.is_room_state_msg(msg),
    {
        let room = RoomState::new(code.as_str(), clone_cards(&self.base_deck));
        let msg = room.get_room_state();
        self.rooms.push(RoomEntry { code, room, active_count: 0, last_access: now });
        assert(self.rooms@.drop_last() =~= old(self).rooms@);
        msg
    }

    /// Creates a room under a freshly drawn code that no live room holds
    /// and returns the new room's snapshot. Fails only if the capped code
    /// search finds every draw taken, leaving the directory unchanged.
    pub fn create_room(&mut self, now: u64) -> (r: Option<ServerMsg>)
        requires
            old(self).wf(),
        ensures
            final(self).wf(),
            final(self).base_deck == old(self).base_deck,
            match r {
                Some(msg) => {
                    &&& final(self).rooms@.len() == old(self).rooms@.len() + 1
                    &&& final(self).rooms@.drop_last() == old(self).rooms@
                    &&& is_code(final(self).rooms@.last().code@)
                    &&& forall|i: int|
                        0 <= i < old(self).rooms@.len() ==> (#[trigger] old(self).rooms@[i]).code@
                            != final(self).rooms@.last().code@
                    &&& final(self).rooms@.last().active_count == 0
                    &&& final(self).rooms@.last().last_access == now
                    &&& final(self).rooms@.last().room.stage is Joining
                    &&& final(self).rooms@.last().room.players@.len() == 0
                    &&& final(self).rooms@.last().room.deck@ == old(self).base_deck@
                    &&& final(self).rooms@.last().room.room_id@ == final(self).rooms@.last().code@
                    &&& final(self).rooms@.last().room.is_room_state_msg(msg)
                },
                None => *final(self) == *old(self),
            },
    {
        let code = match self.fresh_code() {
            Some(c) => c,
            None => {
                return None;
            },
        };
        Some(self.insert_room(code, now))
    }

    /// Case-normalized lookup: the room whose stored lowercase code is
    /// the lowercase form of the query, if one is live.
    pub fn lookup(&self, code: &str) -> (r: Option<usize>)
        ensures
            match r {
                Some(i) => i < self.rooms@.len() && code_matches(
                    self.rooms@[i as int].code@,
                    code@,
                ),
                None => forall|i: int|
                    0 <= i < self.rooms@.len() ==> !code_matches(
                        (#[trigger] self.rooms@[i]).code@,
                        code@,
                    ),
            },
    {
        let mut i: usize = 0;
        while i < self.rooms.len()
            invariant
                0 <= i <= self.rooms@.len(),
                forall|j: int|
                    0 <= j < i ==> !code_matches((#[trigger] self.rooms@[j]).code@, code@),
            decreases self.rooms@.len() - i,
        {
            if matches_code(self.rooms[i].code.as_str(), code) {
                return Some(i);
            }
            i = i + 1;
        }
        None
    }

    /// Stamps a connection attempt on a room.
    pub fn touch(&mut self, i: usize, now: u64)
        requires
            old(self).wf(),
            i < old(self).rooms@.len(),
        ensures
            final(self).wf(),
            final(self).base_deck == old(self).base_deck,
            final(self).rooms@ == old(self).rooms@.update(
                i as int,
                (RoomEntry { last_access: now, ..old(self).rooms@[i as int] }),
            ),
    {
        self.rooms[i].last_access = now;
        assert(self.rooms@ =~= old(self).rooms@.update(
            i as int,
            (RoomEntry { last_access: now, ..old(self).rooms@[i as int] }),
        ));
    }

    /// Counts a player in. The count never realistically nears the limit,
    /// but the bound keeps the arithmetic exact.
    pub fn connect(&mut self, i: usize)
        requires
            old(self).wf(),
            i < old(self).rooms@.len(),
            old(self).rooms@[i as int].active_count < u64::MAX,
        ensures
            final(self).wf(),
            final(self).base_deck == old(self).base_deck,
            final(self).rooms@ == old(self).rooms@.update(
                i as int,
                (RoomEntry {
                    active_count: (old(self).rooms@[i as int].active_count + 1) as u64,
                    ..old(self).rooms@[i as int]
                }),
            ),
    {
        self.rooms[i].active_count = self.rooms[i].active_count + 1;
        assert(self.rooms@ =~= old(self).rooms@.update(
            i as int,
            (RoomEntry {
                active_count: (old(self).rooms@[i as int].active_count + 1) as u64,
                ..old(self).rooms@[i as int]
            }),
        ));
    }

    /// Counts a player out; the caller pairs this with `connect`.
    pub fn disconnect(&mut self, i: usize)
        requires
            old(self).wf(),
            i < old(self).rooms@.len(),
            old(self).rooms@[i as int].active_count > 0,
        ensures
            final(self).wf(),
            final(self).base_deck == old(self).base_deck,
            final(self).rooms@ == old(self).rooms@.update(
                i as int,
                (RoomEntry {
                    active_count: (old(self).rooms@[i as int].active_count - 1) as u64,
                    ..old(self).rooms@[i as int]
                }),
            ),
    {
        self.rooms[i].active_count = self.rooms[i].active_count - 1;
        assert(self.rooms@ =~= old(self).rooms@.update(
            i as int,
            (RoomEntry {
                active_count: (old(self).rooms@[i as int].active_count - 1) as u64,
                ..old(self).rooms@[i as int]
            }),
        ));
    }

    /// A read-only usage snapshot: each live code with its connected
    /// count and last access time.
    pub fn stats(&self) -> (r: Vec<(String, (u64, u64))>)
        ensures
            r@.len() == self.rooms@.len(),
            forall|i: int|
                #![trigger r@[i]]
                0 <= i < r@.len() ==> r@[i].0@ == self.rooms@[i].code@ && r@[i].1.0
                    == self.rooms@[i].active_count && r@[i].1.1 == self.rooms@[i].last_access,
    {
        let mut r: Vec<(String, (u64, u64))> = Vec::new();
        let mut i: usize = 0;
        while i < self.rooms.len()
            invariant
                0 <= i <= self.rooms@.len(),
                r@.len() == i,
                forall|j: int|
                    #![trigger r@[j]]
                    0 <= j < i ==> r@[j].0@ == self.rooms@[j].code@ && r@[j].1.0
                        == self.rooms@[j].active_count && r@[j].1.1 == self.rooms@[j].last_access,
            decreases self.rooms@.len() - i,
        {
            r.push(
                (
                    self.rooms[i].code.clone(),
                    (self.rooms[i].active_count, self.rooms[i].last_access),
                ),
            );
            i = i + 1;
        }
        r
    }

    /// The reclamation sweep: exactly the rooms that sit idle past the
    /// timeout with nobody connected are dropped; every room with a
    /// connected player survives, whatever its age.
    #[verifier::loop_isolation(false)]
    pub fn reclaim_idle(&mut self, now: u64)
        requires
            old(self).wf(),
        ensures
            final(self).wf(),
            final(self).base_deck == old(self).base_deck,
            final(self).rooms@ == old(self).rooms@.filter(|e: RoomEntry| !is_idle(e, now)),
    {
        proof {
            reveal(Seq::filter);
        }
        let ghost orig = self.rooms@;
        let n = self.rooms.len();
        let mut kept: Vec<RoomEntry> = Vec::new();
        let mut i: usize = 0;
        while i < n
            invariant
                0 <= i <= n,
                orig.len() == n,
                self.rooms@ == orig.skip(i as int),
                kept@ == orig.take(i as int).filter(|e: RoomEntry| !is_idle(e, now)),
                self.base_deck == old(self).base_deck,
                forall|a: int|
                    0 <= a < kept@.len() ==> exists|j: int|
                        0 <= j < i && orig[j] == #[trigger] kept@[a],
                forall|a: int, b: int|
                    0 <= a < b < kept@.len() ==> kept@[a].code@ != kept@[b].code@,
            decreases n - i,
        {
            let e = self.rooms.remove(0);
            assert(e == orig[i as int]);
            let keep = e.active_count > 0 || !(now > e.last_access && now - e.last_access
                > IDLE_TIMEOUT_S);
            proof {
                reveal(Seq::filter);
                assert(orig.take(i + 1).drop_last() =~= orig.take(i as int));
                assert(orig.take(i + 1).last() == orig[i as int]);
                assert(self.rooms@ =~= orig.skip(i + 1));
            }
            if keep {
                assert(!is_idle(e, now));
                let ghost kept_pre = kept@;
                kept.push(e);
                proof {
                    assert forall|a: int|
                        0 <= a < kept@.len() implies exists|j: int|
                        0 <= j < i + 1 && orig[j] == #[trigger] kept@[a] by {
                        if a < kept_pre.len() {
                            let j = choose|j: int| 0 <= j < i && orig[j] == kept_pre[a];
                            assert(orig[j] == kept@[a]);
                        } else {
                            assert(orig[i as int] == kept@[a]);
                        }
                    }
                    assert forall|a: int, b: int|
                        0 <= a < b < kept@.len() implies kept@[a].code@ != kept@[b].code@ by {
                        if b < kept_pre.len() {
                        } else {
                            let j = choose|j: int| 0 <= j < i && orig[j] == kept@[a];
                            assert(orig[j].code@ != orig[i as int].code@);
                        }
                    }
                }
            } else {
                assert(is_idle(e, now));
            }
            i = i + 1;
        }
        proof {
            assert(orig.take(n as int) =~= orig);
        }
        self.rooms = kept;
        proof {
            assert forall|a: int|
                0 <= a < self.rooms@.len() implies is_code(
                (#[trigger] self.rooms@[a]).code@,
            ) && self.rooms@[a].room.wf() && self.rooms@[a].room.room_id@
                == self.rooms@[a].code@ by {
                let j = choose|j: int| 0 <= j < n && orig[j] == self.rooms@[a];
                assert(is_code(orig[j].code@));
            }
        }
    }
}

/// Every entry that a filter keeps is one of the entries filtered.
pub proof fn lemma_filter_entries(s: Seq<RoomEntry>, pred: spec_fn(RoomEntry) -> bool)
    ensures
        forall|i: int|
            0 <= i < s.filter(pred).len() ==> exists|j: int|
                0 <= j < s.len() && s[j] == #[trigger] s.filter(pred)[i],
    decreases s.len(),
{
    reveal(Seq::filter);
    if s.len() > 0 {
        lemma_filter_entries(s.drop_last(), pred);
        assert forall|i: int| 0 <= i < s.filter(pred).len() implies exists|j: int|
            0 <= j < s.len() && s[j] == #[trigger] s.filter(pred)[i] by {
            let f = s.filter(pred);
            let fd = s.drop_last().filter(pred);
            if i < fd.len() {
                let j = choose|j: int| 0 <= j < s.drop_last().len() && s.drop_last()[j] == fd[i];
                assert(s[j] == f[i]);
            } else {
                assert(s[s.len() - 1] == f[i]);
            }
        }
    }
}

/// Law: the sweep never touches a room with a connected player — such a
/// room survives reclamation whatever its last access time.
pub proof fn lemma_reclaim_keeps_active(pre: Registry, post: Registry, now: u64, i: int)
    requires
        pre.wf(),
        post.rooms@ == pre.rooms@.filter(|e: RoomEntry| !is_idle(e, now)),
        0 <= i < pre.rooms@.len(),
        pre.rooms@[i].active_count > 0,
    ensures
        exists|j: int| 0 <= j < post.rooms@.len() && post.rooms@[j] == pre.rooms@[i],
{
    broadcast use vstd::seq_lib::group_filter_ensures;

    let pred = |e: RoomEntry| !is_idle(e, now);
    assert(pred(pre.rooms@[i]));
    assert(pre.rooms@.filter(pred).contains(pre.rooms@[i]));
    let j = choose|j: int|
        0 <= j < post.rooms@.len() && post.rooms@[j] == pre.rooms@[i];
    assert(0 <= j < post.rooms@.len() && post.rooms@[j] == pre.rooms@[i]);
}

/// Law: after the sweep, the code of a room that was idle past the
/// timeout with nobody connected misses every lookup — no live room
/// holds it.
pub proof fn lemma_reclaim_removes_idle(pre: Registry, post: Registry, now: u64, i: int)
    requires
        pre.wf(),
        post.rooms@ == pre.rooms@.filter(|e: RoomEntry| !is_idle(e, now)),
        0 <= i < pre.rooms@.len(),
        is_idle(pre.rooms@[i], now),
    ensures
        forall|j: int|
            0 <= j < post.rooms@.len() ==> (#[trigger] post.rooms@[j]).code@
                != pre.rooms@[i].code@,
{
    broadcast use vstd::seq_lib::group_filter_ensures;

    let pred = |e: RoomEntry| !is_idle(e, now);
    lemma_filter_entries(pre.rooms@, pred);
    assert forall|j: int|
        0 <= j < post.rooms@.len() implies (#[trigger] post.rooms@[j]).code@
        != pre.rooms@[i].code@ by {
        assert(pred(post.rooms@[j]));
        let k = choose|k: int|
            0 <= k < pre.rooms@.len() && pre.rooms@[k] == pre.rooms@.filter(pred)[j];
        if k != i {
            if k < i {
                assert(pre.rooms@[k].code@ != pre.rooms@[i].code@);
            } else {
                assert(pre.rooms@[i].code@ != pre.rooms@[k].code@);
            }
        }
    }
}

/// Law: room codes are never handed out twice — every pair of live rooms
/// holds different codes, and a newly created room's code differs from
/// every code already live.
pub proof fn lemma_codes_never_reissued(r: Registry, i: int, j: int)
    requires
        r.wf(),
        0 <= i < j < r.rooms@.len(),
    ensures
        r.rooms@[i].code@ != r.rooms@[j].code@,
{
}

} // verus!
