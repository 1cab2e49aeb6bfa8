use vstd::prelude::*;
use vstd::string::StringExecFns;
use vstd::string::StringSliceAdditionalSpecFns;
use vstd::pervasive::unreached;
use vstd::multiset::Multiset;
use vstd::utf8::encode_utf8;
use crate::msgs::{ClientMsg, Outgoing, PlayerInfo, RoomStage, ServerMsg};
use crate::text::{description_ok, clone_cards, find_card, is_trim_of, trim_description};
use crate::scoring::{
    card_of, count_votes_cast, count_votes_for, delta, lemma_delta_bounds,
    lemma_split_vote_active_gain, lemma_symmetric_failure, lemma_votes_cast_le_len,
    lemma_votes_for_le_cast, votes_cast, votes_for,
};
use crate::rng::shuffle;

verus! {

/// Most players a room seats.
pub const MAX_PLAYERS: usize = 8;

/// Fewest players needed to start a round.
pub const MIN_PLAYERS: usize = 3;

/// Cards each player holds at the start of a round.
pub const HAND_SIZE: usize = 6;

/// Largest deck a room accepts. The bound keeps every point total well
/// inside `u16`: points grow only when a resolved round retires cards, so
/// a bounded deck bounds the points a game can ever produce.
pub const DECK_MAX: usize = 4000;

/// Longest display name accepted, in bytes.
pub const NAME_MAX: usize = 30;

/// One seated player: the stable per-game record plus the state of the
/// current round (the hand, the card placed in the center, and the vote).
pub struct Player {
    pub name: String,
    pub info: PlayerInfo,
    pub hand: Vec<String>,
    pub current_card: Option<String>,
    pub vote: Option<String>,
}

/// The full mutable state of one room. The caller keeps it behind an
/// exclusive lock; every operation here is a pure state change that hands
/// back the deliveries to perform after the lock is released.
pub struct RoomState {
    pub room_id: String,
    pub players: Vec<Player>,
    pub deck: Vec<String>,
    pub stage: RoomStage,
    /// Rotation of seats: indices into `players`, fixed when the first
    /// round starts.
    pub player_order: Vec<usize>,
    /// Index into `player_order` of the current active player.
    pub active_player: usize,
    pub current_description: String,
}

/// Why a join attempt was turned away.
#[derive(Debug, Clone, Copy, PartialEq, Eq, Structural)]
pub enum JoinError {
    NameEmpty,
    NameTooLong,
    NameTaken,
    RoomFull,
    GameStarted,
}

impl JoinError {
    /// The text reported to the rejected connection.
    pub fn message(&self) -> (r: String)
        ensures
            r@ == match *self {
                JoinError::NameEmpty => "Name cannot be empty"@,
                JoinError::NameTooLong => "Name too long"@,
                JoinError::NameTaken => "Name already taken"@,
                JoinError::RoomFull => "Too many players!"@,
                JoinError::GameStarted => "Game has already started"@,
            },
    {
        match *self {
            JoinError::NameEmpty => String::from_str("Name cannot be empty"),
            JoinError::NameTooLong => String::from_str("Name too long"),
            JoinError::NameTaken => String::from_str("Name already taken"),
            JoinError::RoomFull => String::from_str("Too many players!"),
            JoinError::GameStarted => String::from_str("Game has already started"),
        }
    }
}

/// A display name a room will seat: non-empty and at most `NAME_MAX`
/// bytes in its UTF-8 form.
pub open spec fn name_ok(n: Seq<char>) -> bool {
    n.len() > 0 && encode_utf8(n).len() <= NAME_MAX
}

/// How many rounds' worth of safety margin each outstanding card carries
/// in the point budget; see `RoomState::budget_ok`.
pub open spec fn stage_credit(st: RoomStage) -> int {
    if st is Results {
        0
    } else {
        16
    }
}

/// 1 when the player has a card in the center, else 0.
pub open spec fn sub_count(p: Player) -> int {
    if p.current_card is Some {
        1
    } else {
        0
    }
}

/// How many players among `ps` are marked ready.
pub open spec fn count_ready(ps: Seq<Player>) -> int
    decreases ps.len(),
{
    if ps.len() == 0 {
        0
    } else {
        count_ready(ps.drop_last()) + if ps.last().info.ready {
            1int
        } else {
            0int
        }
    }
}

/// Cards a player must draw to refill the hand.
pub open spec fn need_of(p: Player) -> int {
    if p.hand@.len() >= HAND_SIZE {
        0
    } else {
        HAND_SIZE - p.hand@.len()
    }
}

/// Cards the whole table must draw to refill every hand.
pub open spec fn cards_needed(ps: Seq<Player>) -> int
    decreases ps.len(),
{
    if ps.len() == 0 {
        0
    } else {
        need_of(ps.first()) + cards_needed(ps.drop_first())
    }
}

/// `m` is the full-refresh snapshot of a room whose fields are the given
/// parts.
pub open spec fn is_room_state_parts(
    m: ServerMsg,
    room_id: Seq<char>,
    ps: Seq<Player>,
    stage: RoomStage,
    order: Seq<usize>,
    active: int,
) -> bool {
    match m {
        ServerMsg::RoomState {
            room_id: mid,
            players: mplayers,
            stage: mstage,
            active_player: mactive,
            player_order: morder,
        } => {
            &&& mid@ == room_id
            &&& mplayers@.len() == ps.len()
            &&& forall|i: int|
                0 <= i < mplayers@.len() ==> mplayers@[i].0@ == ps[i].name@ && mplayers@[i].1
                    == ps[i].info
            &&& mstage == stage
            &&& match mactive {
                Some(n) => order.len() > 0 && n@ == ps[order[active] as int].name@,
                None => order.len() == 0,
            }
            &&& morder@.len() == order.len()
            &&& forall|k: int| 0 <= k < morder@.len() ==> morder@[k]@ == ps[order[k] as int].name@
        },
        _ => false,
    }
}

/// `o` broadcasts the snapshot of a room with the given parts.
pub open spec fn is_broadcast_parts(
    o: Outgoing,
    room_id: Seq<char>,
    ps: Seq<Player>,
    stage: RoomStage,
    order: Seq<usize>,
    active: int,
) -> bool {
    match o {
        Outgoing::Broadcast(m) => is_room_state_parts(m, room_id, ps, stage, order, active),
        _ => false,
    }
}

/// `o` carries a direct error reply for `name`.
pub open spec fn is_direct_error(o: Outgoing, name: Seq<char>, text: Seq<char>) -> bool {
    match o {
        Outgoing::Direct { to, msg } => to@ == name && is_error_msg(msg, text),
        _ => false,
    }
}

/// The seats after player `i` is marked ready.
pub open spec fn ready_set(ps: Seq<Player>, i: int) -> Seq<Player> {
    ps.update(
        i,
        (Player { info: (PlayerInfo { ready: true, ..ps[i].info }), ..ps[i] }),
    )
}

pub proof fn lemma_count_ready_bound(ps: Seq<Player>)
    ensures
        0 <= count_ready(ps) <= ps.len(),
    decreases ps.len(),
{
    if ps.len() > 0 {
        lemma_count_ready_bound(ps.drop_last());
    }
}

/// A quorum of everyone: when the ready count reaches the table size,
/// every player is ready.
pub proof fn lemma_count_ready_all(ps: Seq<Player>)
    requires
        count_ready(ps) == ps.len(),
    ensures
        forall|i: int| 0 <= i < ps.len() ==> ps[i].info.ready,
    decreases ps.len(),
{
    if ps.len() > 0 {
        lemma_count_ready_bound(ps.drop_last());
        lemma_count_ready_all(ps.drop_last());
        assert forall|i: int| 0 <= i < ps.len() implies ps[i].info.ready by {
            if i < ps.len() - 1 {
                assert(ps.drop_last()[i] == ps[i]);
            } else {
                assert(ps.last() == ps[i]);
            }
        }
    }
}

/// One player not ready caps the ready count below the table size.
pub proof fn lemma_count_ready_missing(ps: Seq<Player>, a: int)
    requires
        0 <= a < ps.len(),
        !ps[a].info.ready,
    ensures
        count_ready(ps) <= ps.len() - 1,
    decreases ps.len(),
{
    if a == ps.len() - 1 {
        lemma_count_ready_bound(ps.drop_last());
    } else {
        assert(ps.drop_last()[a] == ps[a]);
        lemma_count_ready_missing(ps.drop_last(), a);
    }
}

/// A quorum of everyone but `a`: when the ready count reaches the table
/// size less one and `a` is not ready, every other player is ready.
pub proof fn lemma_count_ready_quorum(ps: Seq<Player>, a: int)
    requires
        0 <= a < ps.len(),
        !ps[a].info.ready,
        count_ready(ps) >= ps.len() - 1,
    ensures
        forall|i: int| 0 <= i < ps.len() && i != a ==> ps[i].info.ready,
    decreases ps.len(),
{
    if a == ps.len() - 1 {
        lemma_count_ready_bound(ps.drop_last());
        lemma_count_ready_all(ps.drop_last());
        assert forall|i: int| 0 <= i < ps.len() && i != a implies ps[i].info.ready by {
            assert(ps.drop_last()[i] == ps[i]);
        }
    } else {
        assert(ps.drop_last()[a] == ps[a]);
        if ps.last().info.ready {
            lemma_count_ready_quorum(ps.drop_last(), a);
            assert forall|i: int| 0 <= i < ps.len() && i != a implies ps[i].info.ready by {
                if i < ps.len() - 1 {
                    assert(ps.drop_last()[i] == ps[i]);
                }
            }
        } else {
            lemma_count_ready_missing(ps.drop_last(), a);
        }
    }
}

/// The ready count reads nothing but the ready flags.
pub proof fn lemma_count_ready_same_flags(a: Seq<Player>, b: Seq<Player>)
    requires
        a.len() == b.len(),
        forall|i: int| 0 <= i < a.len() ==> a[i].info.ready == b[i].info.ready,
    ensures
        count_ready(a) == count_ready(b),
    decreases a.len(),
{
    if a.len() > 0 {
        assert forall|i: int|
            0 <= i < a.drop_last().len() implies a.drop_last()[i].info.ready
            == b.drop_last()[i].info.ready by {
            assert(a.drop_last()[i] == a[i]);
            assert(b.drop_last()[i] == b[i]);
        }
        lemma_count_ready_same_flags(a.drop_last(), b.drop_last());
    }
}

/// With unique names, the seat found for a name is the only one.
pub proof fn lemma_ix_at(s: RoomState, name: Seq<char>, i: int)
    requires
        s.names_unique(),
        0 <= i < s.players@.len(),
        s.players@[i].name@ == name,
    ensures
        s.ix_of(name) == i,
{
    assert(0 <= s.ix_of(name) < s.players@.len() && s.players@[s.ix_of(name)].name@ == name);
    let j = s.ix_of(name);
    if j < i {
        assert(s.players@[j].name@ != s.players@[i].name@);
    }
    if i < j {
        assert(s.players@[i].name@ != s.players@[j].name@);
    }
}

pub proof fn lemma_cards_needed_nonneg(ps: Seq<Player>)
    ensures
        0 <= cards_needed(ps),
    decreases ps.len(),
{
    if ps.len() > 0 {
        lemma_cards_needed_nonneg(ps.drop_first());
    }
}

/// A rearrangement of the identity rotation is still a permutation: every
/// entry is in range and no entry repeats.
pub proof fn lemma_shuffled_permutation(a: Seq<usize>, b: Seq<usize>, n: int)
    requires
        a.len() == n,
        forall|j: int| 0 <= j < n ==> a[j] as int == j,
        b.to_multiset() == a.to_multiset(),
        b.len() == a.len(),
    ensures
        forall|k: int| 0 <= k < b.len() ==> (b[k] as int) < n,
        forall|k: int, l: int| 0 <= k < l < b.len() ==> b[k] != b[l],
{
    broadcast use vstd::seq_lib::group_to_multiset_ensures;

    assert(a.no_duplicates());
    a.lemma_multiset_has_no_duplicates();
    b.lemma_multiset_has_no_duplicates_conv();
    assert(b.no_duplicates());
    assert forall|k: int| 0 <= k < b.len() implies (b[k] as int) < n by {
        assert(b[k] == b.index(k));
        assert(b.contains(b[k]));
        assert(b.to_multiset().count(b[k]) > 0);
        assert(a.to_multiset().count(b[k]) > 0);
        assert(a.contains(b[k]));
        let j = choose|j: int| 0 <= j < a.len() && a[j] == b[k];
        assert(a[j] as int == j);
    }
}

impl RoomState {
    /// The rotation has been fixed, which happens when the first round
    /// starts; from then on the set of seats never changes.
    pub open spec fn started(self) -> bool {
        self.player_order@.len() > 0
    }

    /// Seat index (into `players`) of the active player.
    pub open spec fn active_ix(self) -> int {
        self.player_order@[self.active_player as int] as int
    }

    /// The seat of the player called `name`; meaningful only when such a
    /// player exists, and then unique because names are.
    pub open spec fn ix_of(self, name: Seq<char>) -> int {
        choose|j: int| 0 <= j < self.players@.len() && self.players@[j].name@ == name
    }

    pub open spec fn names_unique(self) -> bool {
        forall|i: int, j: int|
            0 <= i < j < self.players@.len() ==> self.players@[i].name@ != self.players@[j].name@
    }

    /// Every seated name passed the join validation: non-empty and within
    /// the byte limit. Seats only ever open through `attempt_join`, which
    /// rejects any other name, so this is an invariant of the room.
    pub open spec fn names_valid(self) -> bool {
        forall|i: int| 0 <= i < self.players@.len() ==> name_ok(#[trigger] self.players@[i].name@)
    }

    /// The rotation is a permutation of the seats.
    pub open spec fn order_ok(self) -> bool {
        self.started() ==> {
            &&& self.player_order@.len() == self.players@.len()
            &&& (self.active_player as int) < self.player_order@.len()
            &&& forall|k: int|
                0 <= k < self.player_order@.len() ==> (self.player_order@[k] as int)
                    < self.players@.len()
            &&& forall|k: int, l: int|
                0 <= k < l < self.player_order@.len() ==> self.player_order@[k]
                    != self.player_order@[l]
        }
    }

    /// The points a player holds, plus a credit for every card still in
    /// play, never exceed `u16::MAX`. Points are only granted when a
    /// resolved round retires the submitted cards, and each grant is
    /// smaller than the credit those cards carried, so the bound is kept
    /// for the life of the room and point arithmetic never overflows.
    pub open spec fn player_budget(self, i: int) -> int {
        self.players@[i].info.points + 16 * (self.deck@.len() + self.players@[i].hand@.len()
            + sub_count(self.players@[i])) + stage_credit(self.stage)
    }

    pub open spec fn budget_ok(self) -> bool {
        &&& 16 * self.deck@.len() + 16 <= 65535
        &&& forall|i: int| 0 <= i < self.players@.len() ==> self.player_budget(i) <= 65535
    }

    /// What each stage guarantees about hands, center cards, votes and
    /// ready flags.
    pub open spec fn stage_ok(self) -> bool {
        match self.stage {
            RoomStage::Joining => {
                !self.started() && forall|i: int|
                0 <= i < self.players@.len() ==> {
                    &&& self.players@[i].hand@.len() == 0
                    &&& self.players@[i].current_card is None
                    &&& self.players@[i].vote is None
                }
            },
            RoomStage::ActiveChooses => {
                self.started() && forall|i: int|
                0 <= i < self.players@.len() ==> {
                    &&& self.players@[i].hand@.len() == HAND_SIZE
                    &&& self.players@[i].current_card is None
                    &&& self.players@[i].vote is None
                }
            },
            RoomStage::PlayersChoose => {
                self.started() && forall|i: int|
                0 <= i < self.players@.len() ==> {
                    &&& self.players@[i].vote is None
                    &&& (i == self.active_ix() ==> self.players@[i].current_card is Some
                        && self.players@[i].hand@.len() == HAND_SIZE - 1
                        && !self.players@[i].info.ready)
                    &&& (i != self.active_ix() ==> {
                        &&& self.players@[i].info.ready <==> self.players@[i].current_card is Some
                        &&& self.players@[i].current_card is Some ==> self.players@[i].hand@.len()
                            == HAND_SIZE - 1
                        &&& self.players@[i].current_card is None ==> self.players@[i].hand@.len()
                            == HAND_SIZE
                    })
                }
            },
            RoomStage::Voting => {
                self.started() && forall|i: int|
                0 <= i < self.players@.len() ==> {
                    &&& self.players@[i].current_card is Some
                    &&& self.players@[i].hand@.len() == HAND_SIZE - 1
                    &&& (i == self.active_ix() ==> self.players@[i].vote is None
                        && !self.players@[i].info.ready)
                    &&& (i != self.active_ix() ==> (self.players@[i].info.ready
                        <==> self.players@[i].vote is Some))
                }
            },
            RoomStage::Results => {
                self.started() && forall|i: int|
                0 <= i < self.players@.len() ==> {
                    &&& self.players@[i].current_card is Some
                    &&& self.players@[i].hand@.len() == HAND_SIZE - 1
                    &&& (i == self.active_ix() ==> self.players@[i].vote is None)
                    &&& (i != self.active_ix() ==> self.players@[i].vote is Some)
                }
            },
        }
    }

    /// A recorded vote names a card that is in the center and is not the
    /// card the voter placed there themselves.
    pub open spec fn votes_ok(self) -> bool {
        forall|i: int|
            0 <= i < self.players@.len() && self.players@[i].vote is Some ==> {
                &&& self.players@[i].current_card is Some
                &&& self.players@[i].vote->Some_0@ != self.players@[i].current_card->Some_0@
                &&& exists|j: int|
                    0 <= j < self.players@.len() && self.players@[j].current_card is Some
                        && self.players@[j].current_card->Some_0@ == self.players@[i].vote->Some_0@
            }
    }

    pub open spec fn description_state_ok(self) -> bool {
        match self.stage {
            RoomStage::Joining | RoomStage::ActiveChooses => self.current_description@.len() == 0,
            _ => description_ok(self.current_description@),
        }
    }

    /// The room's well-formedness invariant: every operation of the state
    /// machine both assumes and preserves it.
    pub open spec fn wf(self) -> bool {
        &&& self.players@.len() <= MAX_PLAYERS
        &&& (self.started() ==> self.players@.len() >= MIN_PLAYERS)
        &&& self.names_unique()
        &&& self.names_valid()
        &&& self.order_ok()
        &&& self.budget_ok()
        &&& self.stage_ok()
        &&& self.votes_ok()
        &&& self.description_state_ok()
    }

    /// A fresh room in the joining stage, holding a private copy of the
    /// shared deck.
    pub fn new(room_id: &str, deck: Vec<String>) -> (s: RoomState)
        requires
            deck@.len() <= DECK_MAX,
        ensures
            s.wf(),
            s.room_id@ == room_id@,
            s.players@.len() == 0,
            s.stage is Joining,
            s.deck == deck,
            s.player_order@.len() == 0,
            s.active_player == 0,
            s.current_description@.len() == 0,
    {
        RoomState {
            room_id: String::from_str(room_id),
            players: Vec::new(),
            deck,
            stage: RoomStage::Joining,
            player_order: Vec::new(),
            active_player: 0,
            current_description: String::new(),
        }
    }

    /// Seat index of the player with this name, if any.
    pub fn find_player(&self, name: &str) -> (r: Option<usize>)
        ensures
            match r {
                Some(i) => i < self.players@.len() && self.players@[i as int].name@ == name@,
                None => forall|k: int|
                    0 <= k < self.players@.len() ==> self.players@[k].name@ != name@,
            },
    {
        let mut i: usize = 0;
        while i < self.players.len()
            invariant
                0 <= i <= self.players@.len(),
                forall|k: int| 0 <= k < i ==> self.players@[k].name@ != name@,
            decreases self.players@.len() - i,
        {
            if self.players[i].name.as_str().eq(name) {
                return Some(i);
            }
            i = i + 1;
        }
        None
    }

    /// The full-refresh snapshot broadcast on every state change.
    pub open spec fn is_room_state_msg(self, m: ServerMsg) -> bool {
        is_room_state_parts(
            m,
            self.room_id@,
            self.players@,
            self.stage,
            self.player_order@,
            self.active_player as int,
        )
    }

    /// Builds the public snapshot of the room.
    #[verifier::loop_isolation(false)]
    pub fn get_room_state(&self) -> (m: ServerMsg)
        requires
            self.order_ok(),
        ensures
            self.is_room_state_msg(m),
    {
        let mut pairs: Vec<(String, PlayerInfo)> = Vec::new();
        let mut i: usize = 0;
        while i < self.players.len()
            invariant
                0 <= i <= self.players@.len(),
                pairs@.len() == i,
                forall|k: int|
                    0 <= k < i ==> pairs@[k].0@ == self.players@[k].name@ && pairs@[k].1
                        == self.players@[k].info,
            decreases self.players@.len() - i,
        {
            pairs.push((self.players[i].name.clone(), self.players[i].info));
            i = i + 1;
        }
        let active_player: Option<String> = if self.player_order.len() > 0 {
            Some(self.players[self.player_order[self.active_player]].name.clone())
        } else {
            None
        };
        let mut order_names: Vec<String> = Vec::new();
        let mut k: usize = 0;
        while k < self.player_order.len()
            invariant
                0 <= k <= self.player_order@.len(),
                order_names@.len() == k,
                forall|l: int|
                    0 <= l < k ==> order_names@[l]@ == self.players@[
                        self.player_order@[l] as int
                    ].name@,
            decreases self.player_order@.len() - k,
        {
            order_names.push(self.players[self.player_order[k]].name.clone());
            k = k + 1;
        }
        ServerMsg::RoomState {
            room_id: self.room_id.clone(),
            players: pairs,
            stage: self.stage,
            active_player,
            player_order: order_names,
        }
    }
}

/// The center-card submissions of `ps`, in seat order.
pub open spec fn subs_strings(ps: Seq<Player>) -> Seq<String>
    decreases ps.len(),
{
    if ps.len() == 0 {
        Seq::empty()
    } else {
        subs_strings(ps.drop_last()) + if ps.last().current_card is Some {
            seq![ps.last().current_card->Some_0]
        } else {
            Seq::<String>::empty()
        }
    }
}

/// The `(voter, card)` pairs of the votes cast so far, in seat order.
pub open spec fn votes_pairs(ps: Seq<Player>) -> Seq<(Seq<char>, Seq<char>)>
    decreases ps.len(),
{
    if ps.len() == 0 {
        Seq::empty()
    } else {
        votes_pairs(ps.drop_last()) + if ps.last().vote is Some {
            seq![(ps.last().name@, ps.last().vote->Some_0@)]
        } else {
            Seq::<(Seq<char>, Seq<char>)>::empty()
        }
    }
}

/// The `(player, submitted card)` pairs of the round, in seat order.
pub open spec fn subs_pairs(ps: Seq<Player>) -> Seq<(Seq<char>, Seq<char>)>
    decreases ps.len(),
{
    if ps.len() == 0 {
        Seq::empty()
    } else {
        subs_pairs(ps.drop_last()) + if ps.last().current_card is Some {
            seq![(ps.last().name@, ps.last().current_card->Some_0@)]
        } else {
            Seq::<(Seq<char>, Seq<char>)>::empty()
        }
    }
}

/// `m` is a direct error reply carrying `text`.
pub open spec fn is_error_msg(m: ServerMsg, text: Seq<char>) -> bool {
    match m {
        ServerMsg::ErrorMsg(t) => t@ == text,
        _ => false,
    }
}

/// `m` reports a resolved round among the seats `ps` with `active` the
/// active seat: votes, submissions, the active card and each player's
/// point gain.
pub open spec fn is_results_msg_of(m: ServerMsg, ps: Seq<Player>, active: int) -> bool {
    match m {
        ServerMsg::Results { player_to_vote, player_to_current_card, active_card, point_change } => {
            &&& player_to_vote@.map_values(|p: (String, String)| (p.0@, p.1@)) == votes_pairs(ps)
            &&& player_to_current_card@.map_values(|p: (String, String)| (p.0@, p.1@)) == subs_pairs(
                ps,
            )
            &&& active_card@ == card_of(ps[active])
            &&& point_change@.len() == ps.len()
            &&& forall|i: int|
                #![trigger point_change@[i]]
                0 <= i < point_change@.len() ==> point_change@[i].0@ == ps[i].name@
                    && point_change@[i].1 == delta(ps, active, i)
        },
        _ => false,
    }
}

/// The seats after non-active player `i` records a vote for `card`.
pub open spec fn voted_set(ps: Seq<Player>, i: int, card: String) -> Seq<Player> {
    ps.update(
        i,
        (Player { info: (PlayerInfo { ready: true, ..ps[i].info }), vote: Some(card), ..ps[i] }),
    )
}

impl RoomState {
    /// `m` hands player `i` their private hand for a fresh round.
    pub open spec fn is_start_round_msg(self, m: ServerMsg, i: int) -> bool {
        match m {
            ServerMsg::StartRound { hand } => hand@ == self.players@[i].hand@,
            _ => false,
        }
    }

    /// `m` hands player `i` the description and their current hand.
    pub open spec fn is_players_choose_msg(self, m: ServerMsg, i: int) -> bool {
        match m {
            ServerMsg::PlayersChoose { description, hand } => description@
                == self.current_description@ && hand@ == self.players@[i].hand@,
            _ => false,
        }
    }

    /// `m` opens the vote: it shows the center cards — the submissions in
    /// a deliberately random order — and the round's description.
    pub open spec fn is_begin_voting_msg(self, m: ServerMsg) -> bool {
        match m {
            ServerMsg::BeginVoting { center_cards, description } => description@
                == self.current_description@ && center_cards@.to_multiset() == subs_strings(
                self.players@,
            ).to_multiset(),
            _ => false,
        }
    }

    /// `m` reports the resolved round: votes, submissions, the active card
    /// and every player's point gain.
    pub open spec fn is_results_msg(self, m: ServerMsg) -> bool {
        is_results_msg_of(m, self.players@, self.active_ix())
    }

    /// The stage-specific payload a player is owed on (re)connection, if
    /// the stage has one.
    pub open spec fn is_stage_msg(self, m: ServerMsg, i: int) -> bool {
        match self.stage {
            RoomStage::Joining => false,
            RoomStage::ActiveChooses => self.is_start_round_msg(m, i),
            RoomStage::PlayersChoose => self.is_players_choose_msg(m, i),
            RoomStage::Voting => self.is_begin_voting_msg(m),
            RoomStage::Results => self.is_results_msg(m),
        }
    }

    /// Collects the submitted cards and shuffles them, so that a card's
    /// position in the center carries no information about who played it.
    #[verifier::loop_isolation(false)]
    fn get_center_cards(&self) -> (r: Vec<String>)
        ensures
            r@.to_multiset() == subs_strings(self.players@).to_multiset(),
    {
        let mut center: Vec<String> = Vec::new();
        let mut i: usize = 0;
        while i < self.players.len()
            invariant
                0 <= i <= self.players@.len(),
                center@ == subs_strings(self.players@.take(i as int)),
            decreases self.players@.len() - i,
        {
            proof {
                assert(self.players@.take(i + 1).drop_last() =~= self.players@.take(i as int));
                assert(self.players@.take(i + 1).last() == self.players@[i as int]);
            }
            match &self.players[i].current_card {
                Some(c) => {
                    center.push(c.clone());
                    assert(center@ =~= subs_strings(self.players@.take(i + 1)));
                },
                None => {
                    assert(center@ =~= subs_strings(self.players@.take(i + 1)));
                },
            }
            i = i + 1;
        }
        proof {
            assert(self.players@.take(self.players@.len() as int) =~= self.players@);
        }
        shuffle(&mut center);
        center
    }

    /// Computes every player's point gain for the round from the recorded
    /// submissions and votes; the state is not changed.
    pub fn compute_results(&self) -> (out: Vec<(String, u16)>)
        requires
            self.wf(),
            self.stage is Voting || self.stage is Results,
        ensures
            out@.len() == self.players@.len(),
            forall|i: int| #![trigger out@[i]]
                0 <= i < out@.len() ==> out@[i].0@ == self.players@[i].name@ && out@[i].1 == delta(
                    self.players@,
                    self.active_ix(),
                    i,
                ),
    {
        let active_i = self.player_order[self.active_player];
        assert(self.players@[active_i as int].current_card is Some);
        let ac: &String = match &self.players[active_i].current_card {
            Some(c) => c,
            None => unreached(),
        };
        let n = count_votes_cast(&self.players);
        let v = count_votes_for(&self.players, ac);
        proof {
            lemma_votes_cast_le_len(self.players@);
        }
        let mut out: Vec<(String, u16)> = Vec::new();
        let mut i: usize = 0;
        while i < self.players.len()
            invariant
                self.wf(),
                self.stage is Voting || self.stage is Results,
                0 <= i <= self.players@.len(),
                active_i as int == self.active_ix(),
                ac@ == card_of(self.players@[self.active_ix()]),
                n == votes_cast(self.players@),
                v == votes_for(self.players@, ac@),
                out@.len() == i,
                forall|k: int| #![trigger out@[k]]
                    0 <= k < i ==> out@[k].0@ == self.players@[k].name@ && out@[k].1 == delta(
                        self.players@,
                        self.active_ix(),
                        k,
                    ),
            decreases self.players@.len() - i,
        {
            let d: u16 = if v == 0 || v == n {
                if i == active_i {
                    0
                } else {
                    2
                }
            } else {
                if i == active_i {
                    3
                } else {
                    assert(self.players@[i as int].current_card is Some);
                    let own: &String = match &self.players[i].current_card {
                        Some(c) => c,
                        None => unreached(),
                    };
                    let bonus = count_votes_for(&self.players, own);
                    proof {
                        lemma_votes_for_le_cast(self.players@, own@);
                        lemma_votes_cast_le_len(self.players@);
                    }
                    let base: u16 = if own.eq(ac) {
                        3
                    } else {
                        0
                    };
                    base + (bonus as u16)
                }
            };
            out.push((self.players[i].name.clone(), d));
            i = i + 1;
        }
        out
    }

    /// Builds the results report for the resolved round.
    #[verifier::loop_isolation(false)]
    fn results_msg(&self) -> (m: ServerMsg)
        requires
            self.wf(),
            self.stage is Results,
        ensures
            self.is_results_msg(m),
    {
        let mut ptv: Vec<(String, String)> = Vec::new();
        let mut ptc: Vec<(String, String)> = Vec::new();
        let mut i: usize = 0;
        while i < self.players.len()
            invariant
                0 <= i <= self.players@.len(),
                ptv@.map_values(|p: (String, String)| (p.0@, p.1@)) == votes_pairs(
                    self.players@.take(i as int),
                ),
                ptc@.map_values(|p: (String, String)| (p.0@, p.1@)) == subs_pairs(
                    self.players@.take(i as int),
                ),
            decreases self.players@.len() - i,
        {
            proof {
                assert(self.players@.take(i + 1).drop_last() =~= self.players@.take(i as int));
                assert(self.players@.take(i + 1).last() == self.players@[i as int]);
            }
            match &self.players[i].vote {
                Some(vcard) => {
                    ptv.push((self.players[i].name.clone(), vcard.clone()));
                    assert(ptv@.map_values(|p: (String, String)| (p.0@, p.1@)) =~= votes_pairs(
                        self.players@.take(i + 1),
                    ));
                },
                None => {
                    assert(ptv@.map_values(|p: (String, String)| (p.0@, p.1@)) =~= votes_pairs(
                        self.players@.take(i + 1),
                    ));
                },
            }
            match &self.players[i].current_card {
                Some(scard) => {
                    ptc.push((self.players[i].name.clone(), scard.clone()));
                    assert(ptc@.map_values(|p: (String, String)| (p.0@, p.1@)) =~= subs_pairs(
                        self.players@.take(i + 1),
                    ));
                },
                None => {
                    assert(ptc@.map_values(|p: (String, String)| (p.0@, p.1@)) =~= subs_pairs(
                        self.players@.take(i + 1),
                    ));
                },
            }
            i = i + 1;
        }
        proof {
            assert(self.players@.take(self.players@.len() as int) =~= self.players@);
        }
        let active_i = self.player_order[self.active_player];
        assert(self.players@[active_i as int].current_card is Some);
        let ac: &String = match &self.players[active_i].current_card {
            Some(c) => c,
            None => unreached(),
        };
        ServerMsg::Results {
            player_to_vote: ptv,
            player_to_current_card: ptc,
            active_card: ac.clone(),
            point_change: self.compute_results(),
        }
    }

    /// `o` broadcasts the current snapshot of this room.
    pub open spec fn is_broadcast_state(self, o: Outgoing) -> bool {
        match o {
            Outgoing::Broadcast(m) => self.is_room_state_msg(m),
            _ => false,
        }
    }

    /// `o` sends the current snapshot of this room to `name` alone.
    pub open spec fn is_direct_state(self, o: Outgoing, name: Seq<char>) -> bool {
        match o {
            Outgoing::Direct { to, msg } => to@ == name && self.is_room_state_msg(msg),
            _ => false,
        }
    }

    /// `o` sends player `i` (named `name`) the stage payload they are owed.
    pub open spec fn is_direct_stage(self, o: Outgoing, name: Seq<char>, i: int) -> bool {
        match o {
            Outgoing::Direct { to, msg } => to@ == name && self.is_stage_msg(msg, i),
            _ => false,
        }
    }

    /// Some seat holds a player of this name.
    pub open spec fn has_player(self, name: Seq<char>) -> bool {
        exists|i: int| 0 <= i < self.players@.len() && self.players@[i].name@ == name
    }

    /// Everything but the seats is unchanged between `pre` and `self`.
    pub open spec fn same_but_players(self, pre: RoomState) -> bool {
        &&& self.room_id == pre.room_id
        &&& self.deck == pre.deck
        &&& self.stage == pre.stage
        &&& self.player_order == pre.player_order
        &&& self.active_player == pre.active_player
        &&& self.current_description == pre.current_description
    }

    /// Player `i` came back: only their connected flag changed, so their
    /// name, points, hand, submission and vote are exactly what they were
    /// when the connection dropped.
    pub open spec fn rejoined(self, pre: RoomState, i: int) -> bool {
        &&& 0 <= i < pre.players@.len()
        &&& !pre.players@[i].info.connected
        &&& self.players@ == pre.players@.update(
            i,
            (Player {
                info: (PlayerInfo { connected: true, ..pre.players@[i].info }),
                ..pre.players@[i]
            }),
        )
        &&& self.same_but_players(pre)
    }

    /// A new player took the last seat: everyone already seated is
    /// untouched and the newcomer starts connected, with no points, no
    /// hand and no ready flag.
    pub open spec fn joined_fresh(self, pre: RoomState, name: Seq<char>) -> bool {
        &&& pre.stage is Joining
        &&& pre.players@.len() < MAX_PLAYERS
        &&& self.players@.len() == pre.players@.len() + 1
        &&& self.players@.drop_last() == pre.players@
        &&& self.players@.last().name@ == name
        &&& self.players@.last().info == (PlayerInfo { connected: true, points: 0, ready: false })
        &&& self.players@.last().hand@.len() == 0
        &&& self.players@.last().current_card is None
        &&& self.players@.last().vote is None
        &&& self.same_but_players(pre)
    }

    /// Seats a connection under `name`: a newcomer is accepted while the
    /// room is still joining and has a free seat; a known name that is
    /// currently disconnected is reactivated with all its state intact;
    /// everything else is refused with the reason.
    /// Reactivates a seat whose player had disconnected; nothing but the
    /// connected flag changes.
    #[verifier::rlimit(50)]
    fn reactivate_seat(&mut self, i: usize)
        requires
            old(self).wf(),
            i < old(self).players@.len(),
            !old(self).players@[i as int].info.connected,
        ensures
            final(self).wf(),
            final(self).rejoined(*old(self), i as int),
            final(self).players@[i as int].name@ == old(self).players@[i as int].name@,
    {
        self.players[i].info.connected = true;
        assert(self.players@ =~= old(self).players@.update(
            i as int,
            (Player {
                info: (PlayerInfo { connected: true, ..old(self).players@[i as int].info }),
                ..old(self).players@[i as int]
            }),
        ));
        proof {
            assert forall|k: int|
                0 <= k < self.players@.len() implies self.player_budget(k) <= 65535 by {
                assert(self.player_budget(k) == old(self).player_budget(k));
                assert(old(self).player_budget(k) <= 65535);
            }
            assert forall|k: int|
                0 <= k < self.players@.len() && self.players@[k].vote is Some implies (exists|
                j: int,
            |
                0 <= j < self.players@.len() && self.players@[j].current_card is Some
                    && self.players@[j].current_card->Some_0@ == self.players@[k].vote->Some_0@) by {
                assert(old(self).players@[k].vote is Some);
                let j = choose|j: int|
                    0 <= j < old(self).players@.len() && old(self).players@[j].current_card is Some
                        && old(self).players@[j].current_card->Some_0@ == old(self).players@[k].vote->Some_0@;
                assert(self.players@[j].current_card is Some
                    && self.players@[j].current_card->Some_0@ == self.players@[k].vote->Some_0@);
            }
        }
        assert(self.wf());
    }

    /// Seats a new player on the last free seat while the room is joining.
    fn seat_new_player(&mut self, name: &str)
        requires
            old(self).wf(),
            old(self).stage is Joining,
            old(self).players@.len() < MAX_PLAYERS,
            !old(self).has_player(name@),
            name_ok(name@),
        ensures
            final(self).wf(),
            final(self).joined_fresh(*old(self), name@),
    {
        self.players.push(
            Player {
                name: String::from_str(name),
                info: PlayerInfo { connected: true, points: 0, ready: false },
                hand: Vec::new(),
                current_card: None,
                vote: None,
            },
        );
        assert(self.players@.drop_last() =~= old(self).players@);
        proof {
            assert forall|k: int|
                0 <= k < self.players@.len() implies self.player_budget(k) <= 65535 by {
                if k < old(self).players@.len() {
                    assert(self.player_budget(k) == old(self).player_budget(k));
                    assert(old(self).player_budget(k) <= 65535);
                } else {
                    assert(self.players@[k].info.points == 0);
                    assert(self.players@[k].hand@.len() == 0);
                }
            }
        }
        assert(self.wf());
    }

    /// Seats a connection under `name`: a newcomer is accepted while the
    /// room is still joining and has a free seat; a known name that is
    /// currently disconnected is reactivated with all its state intact;
    /// everything else is refused with the reason. A seated name passed
    /// this same validation when it joined (`names_valid`), so a
    /// reconnection under it is always accepted.
    pub fn attempt_join(&mut self, name: &str) -> (r: Result<Vec<Outgoing>, JoinError>)
        requires
            old(self).wf(),
        ensures
            final(self).wf(),
            r is Ok <==> name@.len() > 0 && name.spec_bytes().len() <= NAME_MAX && ((exists|i: int|
                0 <= i < old(self).players@.len() && old(self).players@[i].name@ == name@ && !old(self).players@[i].info.connected) || (!old(self).has_player(name@) && old(self).stage is Joining && old(self).players@.len() < MAX_PLAYERS)),
            match r {
                Ok(outs) => {
                    &&& (exists|i: int|
                        #![trigger old(self).players@[i]]
                        0 <= i < old(self).players@.len() && old(self).players@[i].name@ == name@
                            && final(self).rejoined(*old(self), i)) || (!old(self).has_player(name@)
                        && final(self).joined_fresh(*old(self), name@))
                    &&& outs@.len() == if final(self).stage is Joining {
                        2int
                    } else {
                        3int
                    }
                    &&& final(self).is_broadcast_state(outs@[0])
                    &&& final(self).is_direct_state(outs@[1], name@)
                    &&& !(final(self).stage is Joining) ==> (exists|i: int|
                        0 <= i < final(self).players@.len() && final(self).players@[i].name@
                            == name@ && final(self).is_direct_stage(outs@[2], name@, i))
                },
                Err(e) => {
                    &&& *final(self) == *old(self)
                    &&& match e {
                        JoinError::NameEmpty => name@.len() == 0,
                        JoinError::NameTooLong => name@.len() > 0 && name.spec_bytes().len()
                            > NAME_MAX,
                        JoinError::NameTaken => exists|i: int|
                            0 <= i < final(self).players@.len() && final(self).players@[i].name@
                                == name@ && final(self).players@[i].info.connected,
                        JoinError::GameStarted => !final(self).has_player(name@)
                            && !(final(self).stage is Joining),
                        JoinError::RoomFull => !final(self).has_player(name@)
                            && final(self).stage is Joining
                            && final(self).players@.len() >= MAX_PLAYERS,
                    }
                },
            },
    {
        if name.is_empty() {
            return Err(JoinError::NameEmpty);
        }
        if name.as_bytes().len() > NAME_MAX {
            return Err(JoinError::NameTooLong);
        }
        assert(name_ok(name@));
        let seat = self.find_player(name);
        let i: usize = match seat {
            Some(i) => {
                if self.players[i].info.connected {
                    proof {
                        assert forall|j: int|
                            0 <= j < self.players@.len() && self.players@[j].name@ == name@
                            implies j == i as int by {
                            if j < i as int {
                                assert(self.players@[j].name@ != self.players@[i as int].name@);
                            }
                            if (i as int) < j {
                                assert(self.players@[i as int].name@ != self.players@[j].name@);
                            }
                        }
                    }
                    return Err(JoinError::NameTaken);
                }
                self.reactivate_seat(i);
                i
            },
            None => {
                match self.stage {
                    RoomStage::Joining => {},
                    _ => {
                        return Err(JoinError::GameStarted);
                    },
                }
                if self.players.len() >= MAX_PLAYERS {
                    return Err(JoinError::RoomFull);
                }
                let seat_no = self.players.len();
                self.seat_new_player(name);
                seat_no
            },
        };
        assert(self.players@[i as int].name@ == name@);
        proof {
            match seat {
                Some(si) => {
                    assert(0 <= (si as int) && (si as int) < old(self).players@.len());
                    assert(old(self).players@[si as int].name@ == name@);
                    assert(!old(self).players@[si as int].info.connected);
                    assert(self.rejoined(*old(self), si as int));
                },
                None => {
                    assert(!old(self).has_player(name@));
                    assert(self.joined_fresh(*old(self), name@));
                },
            }
        }
        let mut outs: Vec<Outgoing> = Vec::new();
        outs.push(Outgoing::Broadcast(self.get_room_state()));
        outs.push(Outgoing::Direct { to: String::from_str(name), msg: self.get_room_state() });
        if let Some(m) = self.get_msg(i) {
            outs.push(Outgoing::Direct { to: String::from_str(name), msg: m });
            assert(self.is_direct_stage(outs@[2], name@, i as int));
        }
        Ok(outs)
    }

    /// Tears a connection down: while the room is still joining the seat
    /// is given up entirely; once the game has started the player is only
    /// marked disconnected, keeping hand and points for a later return.
    #[verifier::rlimit(50)]
    pub fn on_disconnect(&mut self, name: &str) -> (outs: Vec<Outgoing>)
        requires
            old(self).wf(),
        ensures
            final(self).wf(),
            final(self).same_but_players(*old(self)),
            outs@.len() == 1 && final(self).is_broadcast_state(outs@[0]),
            old(self).stage is Joining ==> ((exists|i: int|
                0 <= i < old(self).players@.len() && old(self).players@[i].name@ == name@
                    && final(self).players@ == old(self).players@.remove(i)) || (!old(self).has_player(
                name@,
            ) && final(self).players@ == old(self).players@)),
            !(old(self).stage is Joining) ==> final(self).players@.len() == old(self).players@.len()
                && ((exists|i: int|
                #![trigger old(self).players@[i]]
                0 <= i < old(self).players@.len() && old(self).players@[i].name@ == name@
                    && final(self).players@ == old(self).players@.update(
                    i,
                    (Player {
                        info: (PlayerInfo { connected: false, ..old(self).players@[i].info }),
                        ..old(self).players@[i]
                    }),
                )) || (!old(self).has_player(name@) && final(self).players@ == old(self).players@)),
    {
        let seat = self.find_player(name);
        match seat {
            Some(i) => {
                match self.stage {
                    RoomStage::Joining => {
                        self.players.remove(i);
                        proof {
                            assert forall|a: int, b: int|
                                0 <= a < b < self.players@.len() implies self.players@[a].name@
                                != self.players@[b].name@ by {
                                let pa: int = if a < i as int {
                                    a
                                } else {
                                    a + 1
                                };
                                let pb: int = if b < i as int {
                                    b
                                } else {
                                    b + 1
                                };
                                assert(self.players@[a] == old(self).players@[pa]);
                                assert(self.players@[b] == old(self).players@[pb]);
                            }
                            assert forall|k: int|
                                0 <= k < self.players@.len() implies self.player_budget(k) <= 65535
                                && self.players@[k].hand@.len() == 0 && self.players@[k].current_card
                                is None && self.players@[k].vote is None by {
                                let pk: int = if k < i as int {
                                    k
                                } else {
                                    k + 1
                                };
                                assert(self.players@[k] == old(self).players@[pk]);
                                assert(old(self).player_budget(pk) <= 65535);
                            }
                            assert(self.wf());
                        }
                    },
                    _ => {
                        self.players[i].info.connected = false;
                        assert(self.players@ =~= old(self).players@.update(
                            i as int,
                            (Player {
                                info: (PlayerInfo {
                                    connected: false,
                                    ..old(self).players@[i as int].info
                                }),
                                ..old(self).players@[i as int]
                            }),
                        ));
                        proof {
                            assert forall|k: int|
                                0 <= k < self.players@.len() implies self.player_budget(k) <= 65535 by {
                                assert(self.player_budget(k) == old(self).player_budget(k));
                                assert(old(self).player_budget(k) <= 65535);
                            }
                            assert forall|k: int|
                                0 <= k < self.players@.len() && self.players@[k].vote is Some implies (
                                exists|j: int|
                                    0 <= j < self.players@.len() && self.players@[j].current_card is Some
                                                && self.players@[j].current_card->Some_0@
                                                == self.players@[k].vote->Some_0@) by {
                                assert(old(self).players@[k].vote is Some);
                                let j = choose|j: int|
                                    0 <= j < old(self).players@.len() && old(self).players@[j].current_card
                                                is Some && old(self).players@[j].current_card->Some_0@ == old(self).players@[k].vote->Some_0@;
                                assert(self.players@[j].current_card is Some
                                    && self.players@[j].current_card->Some_0@
                                    == self.players@[k].vote->Some_0@);
                            }
                        }
                        assert(self.wf());
                    },
                }
            },
            None => {},
        }
        let mut outs: Vec<Outgoing> = Vec::new();
        outs.push(Outgoing::Broadcast(self.get_room_state()));
        outs
    }

    /// Clears every player's submission, vote and ready flag, keeping
    /// name, points, connection state and hand.
    #[verifier::loop_isolation(false)]
    fn clear_round_data(&mut self)
        requires
            old(self).budget_ok(),
            old(self).stage is Joining || old(self).stage is Results,
            old(self).stage is Results ==> forall|j: int|
                0 <= j < old(self).players@.len() ==> old(self).players@[j].current_card is Some,
        ensures
            final(self).players@.len() == old(self).players@.len(),
            forall|j: int|
                #![trigger final(self).players@[j]]
                0 <= j < final(self).players@.len() ==> cleared_like(
                    final(self).players@[j],
                    old(self).players@[j],
                ),
            forall|j: int|
                #![trigger final(self).players@[j]]
                0 <= j < final(self).players@.len() ==> final(self).players@[j].info.points + 16 * (
                final(self).deck@.len() + final(self).players@[j].hand@.len()) + 16 <= 65535,
            final(self).same_but_players(*old(self)),
    {
        let n = self.players.len();
        let mut k: usize = 0;
        while k < n
            invariant
                0 <= k <= n,
                self.players@.len() == n,
                forall|j: int|
                    #![trigger self.players@[j]]
                    0 <= j < k ==> cleared_like(self.players@[j], old(self).players@[j]),
                forall|j: int|
                    #![trigger self.players@[j]]
                    k <= j < n ==> self.players@[j] == old(self).players@[j],
                forall|j: int|
                    #![trigger self.players@[j]]
                    0 <= j < k ==> self.players@[j].info.points + 16 * (self.deck@.len()
                        + self.players@[j].hand@.len()) + 16 <= 65535,
                self.same_but_players(*old(self)),
            decreases n - k,
        {
            assert(old(self).player_budget(k as int) <= 65535);
            self.players[k].current_card = None;
            self.players[k].vote = None;
            self.players[k].info.ready = false;
            k = k + 1;
        }
    }

    /// Fixes the rotation on the first round — a random permutation of
    /// the seats — or advances it by one, and shuffles the deck.
    #[verifier::loop_isolation(false)]
    fn fix_rotation(&mut self)
        requires
            old(self).players@.len() >= MIN_PLAYERS,
            old(self).player_order@.len() > 0 ==> {
                &&& old(self).player_order@.len() == old(self).players@.len()
                &&& (old(self).active_player as int) < old(self).player_order@.len()
                &&& forall|k: int|
                    0 <= k < old(self).player_order@.len() ==> (old(self).player_order@[k] as int) < old(self).players@.len()
                &&& forall|k: int, l: int|
                    0 <= k < l < old(self).player_order@.len() ==> old(self).player_order@[k]
                        != old(self).player_order@[l]
            },
        ensures
            final(self).players == old(self).players,
            final(self).room_id == old(self).room_id,
            final(self).stage == old(self).stage,
            final(self).current_description == old(self).current_description,
            final(self).deck@.len() == old(self).deck@.len(),
            final(self).deck@.to_multiset() == old(self).deck@.to_multiset(),
            final(self).player_order@.len() == old(self).players@.len(),
            forall|k: int|
                0 <= k < final(self).player_order@.len() ==> (final(self).player_order@[k] as int) < old(self).players@.len(),
            forall|k: int, l: int|
                0 <= k < l < final(self).player_order@.len() ==> final(self).player_order@[k]
                    != final(self).player_order@[l],
            (final(self).active_player as int) < final(self).player_order@.len(),
            if old(self).player_order@.len() == 0 {
                final(self).active_player == 0
            } else {
                final(self).player_order == old(self).player_order && final(self).active_player as int == (old(self).active_player + 1) as int % (old(self).player_order@.len() as int)
            },
    {
        let n = self.players.len();
        if self.player_order.len() == 0 {
            let mut order: Vec<usize> = Vec::new();
            let mut k: usize = 0;
            while k < n
                invariant
                    order@.len() == k,
                    0 <= k <= n,
                    forall|j: int| 0 <= j < k ==> order@[j] as int == j,
                decreases n - k,
            {
                order.push(k);
                k = k + 1;
            }
            let ghost order0 = order@;
            shuffle(&mut order);
            proof {
                lemma_shuffled_permutation(order0, order@, n as int);
            }
            self.player_order = order;
            self.active_player = 0;
        } else {
            self.active_player = (self.active_player + 1) % self.player_order.len();
        }
        shuffle(&mut self.deck);
    }

    /// Tops every hand up to six cards, drawing from the end of the deck.
    #[verifier::loop_isolation(false)]
    #[verifier::rlimit(50)]
    fn deal_hands(&mut self)
        requires
            cards_needed(old(self).players@) <= old(self).deck@.len(),
            forall|j: int|
                0 <= j < old(self).players@.len() ==> old(self).players@[j].hand@.len()
                    <= HAND_SIZE,
            forall|j: int|
                0 <= j < old(self).players@.len() ==> old(self).players@[j].info.points + 16 * (
                old(self).deck@.len() + old(self).players@[j].hand@.len()) + 16 <= 65535,
        ensures
            final(self).players@.len() == old(self).players@.len(),
            forall|j: int|
                #![trigger final(self).players@[j]]
                0 <= j < final(self).players@.len() ==> {
                    &&& final(self).players@[j].name == old(self).players@[j].name
                    &&& final(self).players@[j].info == old(self).players@[j].info
                    &&& final(self).players@[j].current_card == old(self).players@[j].current_card
                    &&& final(self).players@[j].vote == old(self).players@[j].vote
                    &&& final(self).players@[j].hand@.len() == HAND_SIZE
                    &&& final(self).players@[j].hand@.take(
                        old(self).players@[j].hand@.len() as int,
                    ) == old(self).players@[j].hand@
                    &&& final(self).players@[j].info.points + 16 * (final(self).deck@.len()
                        + final(self).players@[j].hand@.len()) + 16 <= 65535
                },
            forall|c: String|
                #![trigger final(self).deck@.to_multiset().count(c)]
                final(self).deck@.to_multiset().count(c) <= old(self).deck@.to_multiset().count(c),
            forall|j: int, m: int|
                #![trigger final(self).players@[j].hand@[m]]
                0 <= j < final(self).players@.len() && old(self).players@[j].hand@.len() <= m
                    < HAND_SIZE ==> old(self).deck@.to_multiset().count(
                    final(self).players@[j].hand@[m],
                ) > 0,
            final(self).deck@.len() <= old(self).deck@.len(),
            final(self).deck@.len() + cards_needed(old(self).players@) == old(self).deck@.len(),
            room_cards(*final(self)) == room_cards(*old(self)),
            final(self).room_id == old(self).room_id,
            final(self).stage == old(self).stage,
            final(self).current_description == old(self).current_description,
            final(self).player_order == old(self).player_order,
            final(self).active_player == old(self).active_player,
    {
        broadcast use vstd::seq_lib::group_to_multiset_ensures;
        broadcast use vstd::multiset::group_multiset_axioms;

        let n = self.players.len();
        proof {
            assert(self.players@.skip(0) =~= self.players@);
        }
        let mut k: usize = 0;
        while k < n
            invariant
                0 <= k <= n,
                self.players@.len() == n,
                forall|j: int|
                    #![trigger self.players@[j]]
                    0 <= j < k ==> {
                        &&& self.players@[j].name == old(self).players@[j].name
                        &&& self.players@[j].info == old(self).players@[j].info
                        &&& self.players@[j].current_card == old(self).players@[j].current_card
                        &&& self.players@[j].vote == old(self).players@[j].vote
                        &&& self.players@[j].hand@.len() == HAND_SIZE
                        &&& self.players@[j].hand@.take(old(self).players@[j].hand@.len() as int)
                            == old(self).players@[j].hand@
                    },
                forall|j: int, m: int|
                    #![trigger self.players@[j].hand@[m]]
                    0 <= j < k && old(self).players@[j].hand@.len() <= m < HAND_SIZE ==> old(
                        self,
                    ).deck@.to_multiset().count(self.players@[j].hand@[m]) > 0,
                forall|j: int|
                    #![trigger self.players@[j]]
                    k <= j < n ==> self.players@[j] == old(self).players@[j],
                forall|j: int|
                    #![trigger self.players@[j]]
                    0 <= j < n ==> self.players@[j].info.points + 16 * (self.deck@.len()
                        + self.players@[j].hand@.len()) + 16 <= 65535,
                cards_needed(self.players@.skip(k as int)) <= self.deck@.len(),
                self.deck@.len() + cards_needed(old(self).players@) == old(self).deck@.len()
                    + cards_needed(self.players@.skip(k as int)),
                forall|c: String|
                    #![trigger self.deck@.to_multiset().count(c)]
                    self.deck@.to_multiset().count(c) <= old(self).deck@.to_multiset().count(c),
                self.deck@.len() <= old(self).deck@.len(),
                room_cards(*self) == room_cards(*old(self)),
                self.room_id == old(self).room_id,
                self.stage == old(self).stage,
                self.current_description == old(self).current_description,
                self.player_order == old(self).player_order,
                self.active_player == old(self).active_player,
            decreases n - k,
        {
            while self.players[k].hand.len() < HAND_SIZE
                invariant
                    0 <= k < n,
                    self.players@.len() == n,
                    forall|j: int|
                        #![trigger self.players@[j]]
                        0 <= j < k ==> {
                            &&& self.players@[j].name == old(self).players@[j].name
                            &&& self.players@[j].info == old(self).players@[j].info
                            &&& self.players@[j].current_card == old(self).players@[j].current_card
                            &&& self.players@[j].vote == old(self).players@[j].vote
                            &&& self.players@[j].hand@.len() == HAND_SIZE
                            &&& self.players@[j].hand@.take(
                                old(self).players@[j].hand@.len() as int,
                            ) == old(self).players@[j].hand@
                        },
                    self.players@[k as int].name == old(self).players@[k as int].name,
                    self.players@[k as int].info == old(self).players@[k as int].info,
                    self.players@[k as int].current_card == old(self).players@[k as int].current_card,
                    self.players@[k as int].vote == old(self).players@[k as int].vote,
                    self.players@[k as int].hand@.len() <= HAND_SIZE,
                    self.players@[k as int].hand@.take(
                        old(self).players@[k as int].hand@.len() as int,
                    ) == old(self).players@[k as int].hand@,
                    forall|j: int, m: int|
                        #![trigger self.players@[j].hand@[m]]
                        0 <= j < k && old(self).players@[j].hand@.len() <= m < HAND_SIZE ==> old(
                            self,
                        ).deck@.to_multiset().count(self.players@[j].hand@[m]) > 0,
                    forall|m: int|
                        old(self).players@[k as int].hand@.len() <= m
                            < self.players@[k as int].hand@.len() ==> old(
                            self,
                        ).deck@.to_multiset().count(
                            #[trigger] self.players@[k as int].hand@[m],
                        ) > 0,
                    forall|j: int|
                        #![trigger self.players@[j]]
                        k < j < n ==> self.players@[j] == old(self).players@[j],
                    forall|j: int|
                        #![trigger self.players@[j]]
                        0 <= j < n ==> self.players@[j].info.points + 16 * (self.deck@.len()
                            + self.players@[j].hand@.len()) + 16 <= 65535,
                    cards_needed(self.players@.skip(k as int)) <= self.deck@.len(),
                    self.deck@.len() + cards_needed(old(self).players@) == old(self).deck@.len()
                        + cards_needed(self.players@.skip(k as int)),
                    forall|c: String|
                        #![trigger self.deck@.to_multiset().count(c)]
                        self.deck@.to_multiset().count(c) <= old(self).deck@.to_multiset().count(
                            c,
                        ),
                    self.deck@.len() <= old(self).deck@.len(),
                    room_cards(*self) == room_cards(*old(self)),
                    old(self).players@[k as int].hand@.len()
                        <= self.players@[k as int].hand@.len(),
                    self.room_id == old(self).room_id,
                    self.stage == old(self).stage,
                    self.current_description == old(self).current_description,
                    self.player_order == old(self).player_order,
                    self.active_player == old(self).active_player,
                decreases HAND_SIZE - self.players@[k as int].hand@.len(),
            {
                proof {
                    lemma_cards_needed_skip(self.players@, k as int);
                    lemma_cards_needed_nonneg(self.players@.skip(k as int + 1));
                    assert(self.deck@.len() >= 1);
                }
                let ghost deck_pre = self.deck@;
                let c = match self.deck.pop() {
                    Some(c) => c,
                    None => unreached(),
                };
                proof {
                    assert(deck_pre.drop_last() =~= deck_pre.remove(deck_pre.len() - 1));
                    assert forall|x: String|
                        self.deck@.to_multiset().count(x) <= old(self).deck@.to_multiset().count(
                            x,
                        ) by {
                        assert(self.deck@.to_multiset() =~= deck_pre.to_multiset().remove(c));
                    }
                    assert(deck_pre.contains(c));
                    assert(deck_pre.to_multiset().count(c) > 0);
                    assert(old(self).deck@.to_multiset().count(c) > 0);
                }
                let ghost ps_pre = self.players@;
                let ghost rc_pre = room_cards(*old(self));
                self.players[k].hand.push(c);
                proof {
                    assert(self.players@[k as int].hand@ == ps_pre[k as int].hand@.push(c));
                    assert(self.players@.skip(k as int + 1) =~= ps_pre.skip(k as int + 1));
                    lemma_cards_needed_skip(ps_pre, k as int);
                    lemma_cards_needed_skip(self.players@, k as int);
                    assert(self.players@[k as int].hand@.take(
                        old(self).players@[k as int].hand@.len() as int,
                    ) =~= old(self).players@[k as int].hand@);
                    // the drawn card moved from the deck into the hand, so
                    // the room's card multiset is unchanged
                    let pk = ps_pre[k as int];
                    let pk2 = self.players@[k as int];
                    lemma_hand_views_remove(deck_pre, deck_pre.len() - 1);
                    assert(deck_pre.drop_last() =~= deck_pre.remove(deck_pre.len() - 1));
                    assert(self.deck@.map_values(|c2: String| c2@).to_multiset() == deck_pre.map_values(
                        |c2: String| c2@,
                    ).to_multiset().remove(c@));
                    assert(deck_pre.map_values(|c2: String| c2@).to_multiset().count(c@) > 0) by {
                        assert(deck_pre.map_values(|c2: String| c2@)[deck_pre.len() - 1] == c@);
                        assert(deck_pre.map_values(|c2: String| c2@).contains(c@));
                    }
                    assert(pk2.hand@.map_values(|c2: String| c2@) =~= pk.hand@.map_values(
                        |c2: String| c2@,
                    ).push(c@));
                    assert(held_cards(pk2) =~= held_cards(pk).insert(c@));
                    assert(self.players@ =~= ps_pre.update(k as int, pk2));
                    lemma_table_update(ps_pre, k as int, pk2);
                    assert(table_cards(self.players@).add(held_cards(pk)) == table_cards(
                        ps_pre,
                    ).add(held_cards(pk2)));
                    assert forall|x: Seq<char>|
                        room_cards(*self).count(x) == rc_pre.count(x) by {
                        assert(table_cards(self.players@).add(held_cards(pk)).count(x)
                            == table_cards(self.players@).count(x) + held_cards(pk).count(x));
                        assert(table_cards(ps_pre).add(held_cards(pk2)).count(x) == table_cards(
                            ps_pre,
                        ).count(x) + held_cards(pk2).count(x));
                        assert(held_cards(pk2).count(x) == held_cards(pk).insert(c@).count(x));
                    }
                    assert(room_cards(*self) =~= rc_pre);
                }
            }
            proof {
                let ps_now = self.players@;
                lemma_cards_needed_skip(ps_now, k as int);
                assert(ps_now.skip(k as int + 1) =~= self.players@.skip(k as int + 1));
            }
            k = k + 1;
        }
        proof {
            assert(self.players@.skip(n as int) =~= Seq::<Player>::empty());
        }
    }

    /// Starts the next round; see `round_start_rel` for everything this
    /// does. The caller has checked that the table is large enough and
    /// that the deck can refill every hand.
    #[verifier::loop_isolation(false)]
    #[verifier::rlimit(50)]
    fn init_round(&mut self) -> (outs: Vec<Outgoing>)
        requires
            old(self).wf(),
            old(self).stage is Joining || old(self).stage is Results,
            old(self).players@.len() >= MIN_PLAYERS,
            cards_needed(old(self).players@) <= old(self).deck@.len(),
        ensures
            final(self).wf(),
            round_start_rel(*old(self), *final(self), outs@),
    {
        let ghost pre = *old(self);
        self.clear_round_data();
        self.current_description = String::new();
        let ghost cleared = *self;
        proof {
            lemma_cards_needed_same_lens(self.players@, pre.players@);
            // clearing the center retires exactly the submitted cards
            assert forall|j: int|
                0 <= j < pre.players@.len() implies (#[trigger] cleared.players@[j]).hand
                == pre.players@[j].hand && cleared.players@[j].current_card is None by {
                assert(cleared_like(cleared.players@[j], pre.players@[j]));
            }
            assert forall|c: Seq<char>|
                #![trigger room_cards(cleared).count(c)]
                room_cards(cleared).count(c) + center_cards(pre.players@).count(c) == room_cards(
                    pre,
                ).count(c) by {
                broadcast use vstd::multiset::group_multiset_axioms;

                lemma_table_center_count(pre.players@, cleared.players@, c);
            }
        }
        self.fix_rotation();
        let ghost rotated = *self;
        proof {
            // the shuffle permutes the deck, so the card multiset is kept
            lemma_views_ms_permutation(rotated.deck@, cleared.deck@);
            assert(room_cards(rotated) == room_cards(cleared));
        }
        self.deal_hands();
        proof {
            assert(room_cards(*self) == room_cards(rotated));
            assert(room_cards(*self) == room_cards(cleared));
            // the deal drew exactly what the hands needed
            assert(self.deck@.len() + cards_needed(pre.players@) == pre.deck@.len()) by {
                assert(cards_needed(rotated.players@) == cards_needed(pre.players@));
                assert(rotated.deck@.len() == pre.deck@.len());
            }
            // cards are conserved up to the retired submissions
            assert forall|c: Seq<char>|
                room_cards(*self).add(center_cards(pre.players@)).count(c) == room_cards(
                    pre,
                ).count(c) by {
                broadcast use vstd::multiset::group_multiset_axioms;

                assert(room_cards(*self).count(c) == room_cards(cleared).count(c));
            }
            assert(room_cards(*self).add(center_cards(pre.players@)) =~= room_cards(pre));
        }
        self.stage = RoomStage::ActiveChooses;
        let mut outs: Vec<Outgoing> = Vec::new();
        let mut k: usize = 0;
        while k < self.player_order.len()
            invariant
                0 <= k <= self.player_order@.len(),
                outs@.len() == k,
                forall|j: int|
                    #![trigger outs@[j]]
                    0 <= j < k ==> match outs@[j] {
                        Outgoing::Direct { to, msg } => to@ == self.players@[
                            self.player_order@[j] as int
                        ].name@ && self.is_start_round_msg(msg, self.player_order@[j] as int),
                        _ => false,
                    },
            decreases self.player_order@.len() - k,
        {
            let pidx = self.player_order[k];
            outs.push(
                Outgoing::Direct {
                    to: self.players[pidx].name.clone(),
                    msg: ServerMsg::StartRound { hand: clone_cards(&self.players[pidx].hand) },
                },
            );
            k = k + 1;
        }
        outs.push(Outgoing::Broadcast(self.get_room_state()));
        assert(self.wf());
        assert(round_start_rel(pre, *self, outs@));
        outs
    }

    /// Resets every ready flag, leaving everything else in place.
    #[verifier::loop_isolation(false)]
    fn clear_ready(&mut self)
        ensures
            final(self).players@.len() == old(self).players@.len(),
            forall|j: int|
                #![trigger final(self).players@[j]]
                0 <= j < final(self).players@.len() ==> {
                    &&& final(self).players@[j].name == old(self).players@[j].name
                    &&& final(self).players@[j].info.points == old(self).players@[j].info.points
                    &&& final(self).players@[j].info.connected == old(self).players@[j].info.connected
                    &&& !final(self).players@[j].info.ready
                    &&& final(self).players@[j].current_card == old(self).players@[j].current_card
                    &&& final(self).players@[j].vote == old(self).players@[j].vote
                    &&& final(self).players@[j].hand == old(self).players@[j].hand
                },
            forall|j: int|
                #![trigger final(self).player_budget(j)]
                0 <= j < final(self).players@.len() ==> final(self).player_budget(j) == old(self).player_budget(j),
            final(self).same_but_players(*old(self)),
    {
        let n = self.players.len();
        let mut k: usize = 0;
        while k < n
            invariant
                0 <= k <= n,
                self.players@.len() == n,
                forall|j: int|
                    #![trigger self.players@[j]]
                    0 <= j < k ==> self.players@[j] == (Player {
                        info: (PlayerInfo { ready: false, ..old(self).players@[j].info }),
                        ..old(self).players@[j]
                    }),
                forall|j: int|
                    #![trigger self.players@[j]]
                    k <= j < n ==> self.players@[j] == old(self).players@[j],
                self.same_but_players(*old(self)),
            decreases n - k,
        {
            self.players[k].info.ready = false;
            k = k + 1;
        }
    }

    /// Marks seat `i` ready and broadcasts the new state; when that
    /// completes the quorum on a large enough table, the next round is
    /// started or, if the deck cannot refill the hands, aborted with an
    /// error to the initiator.
    #[verifier::loop_isolation(false)]
    #[verifier::rlimit(50)]
    fn handle_ready(&mut self, i: usize) -> (outs: Vec<Outgoing>)
        requires
            old(self).wf(),
            old(self).stage is Joining || old(self).stage is Results,
            i < old(self).players@.len(),
        ensures
            final(self).wf(),
            ready_after(*old(self), *final(self), i as int, outs@),
    {
        self.players[i].info.ready = true;
        assert(self.players@ =~= ready_set(old(self).players@, i as int));
        proof {
            assert forall|k: int|
                0 <= k < self.players@.len() implies self.player_budget(k) <= 65535 by {
                assert(self.player_budget(k) == old(self).player_budget(k));
                assert(old(self).player_budget(k) <= 65535);
            }
            assert forall|k: int|
                0 <= k < self.players@.len() && self.players@[k].vote is Some implies (exists|
                j: int,
            |
                0 <= j < self.players@.len() && self.players@[j].current_card is Some
                    && self.players@[j].current_card->Some_0@ == self.players@[k].vote->Some_0@) by {
                assert(old(self).players@[k].vote is Some);
                let j = choose|j: int|
                    0 <= j < old(self).players@.len() && old(self).players@[j].current_card is Some
                        && old(self).players@[j].current_card->Some_0@ == old(self).players@[k].vote->Some_0@;
                assert(self.players@[j].current_card is Some
                    && self.players@[j].current_card->Some_0@ == self.players@[k].vote->Some_0@);
            }
        }
        assert(self.wf());
        let mut outs: Vec<Outgoing> = Vec::new();
        outs.push(Outgoing::Broadcast(self.get_room_state()));
        let rc = count_ready_exec(&self.players);
        if rc == self.players.len() && self.players.len() >= MIN_PLAYERS {
            proof {
                assert forall|j: int|
                    0 <= j < self.players@.len() implies self.players@[j].hand@.len()
                    <= HAND_SIZE by {
                    assert(old(self).players@[j].hand@.len() <= HAND_SIZE);
                }
            }
            let needed = cards_needed_exec(&self.players);
            if needed > self.deck.len() {
                outs.push(
                    Outgoing::Direct {
                        to: self.players[i].name.clone(),
                        msg: ServerMsg::ErrorMsg(
                            String::from_str("Not enough cards in the deck"),
                        ),
                    },
                );
                return outs;
            }
            let ghost mid = *self;
            let mut more = self.init_round();
            let ghost more0 = more@;
            outs.append(&mut more);
            proof {
                assert(outs@.skip(1) =~= more0);
                assert(round_start_rel(mid, *self, outs@.skip(1)));
                assert forall|j: int|
                    0 <= j < mid.players@.len() implies held_cards(mid.players@[j]) == held_cards(
                    old(self).players@[j],
                ) by {
                    assert(mid.players@[j].hand == old(self).players@[j].hand);
                }
                lemma_table_congruence(mid.players@, old(self).players@);
                assert(room_cards(mid) == room_cards(*old(self)));
                lemma_cards_needed_same_lens(mid.players@, old(self).players@);
                lemma_center_congruence(mid.players@, old(self).players@);
                assert(round_start_rel(*old(self), *self, outs@.skip(1)));
            }
        }
        outs
    }

    /// Closes the submission phase: every player has now placed a card in
    /// the center, so the ready flags reset and voting opens on the
    /// shuffled center.
    #[verifier::loop_isolation(false)]
    #[verifier::rlimit(50)]
    fn init_voting(&mut self) -> (outs: Vec<Outgoing>)
        requires
            old(self).wf(),
            old(self).stage is PlayersChoose,
            count_ready(old(self).players@) == old(self).players@.len() - 1,
        ensures
            final(self).wf(),
            final(self).stage is Voting,
            final(self).players@.len() == old(self).players@.len(),
            forall|j: int|
                #![trigger final(self).players@[j]]
                0 <= j < final(self).players@.len() ==> final(self).players@[j] == (Player {
                    info: (PlayerInfo { ready: false, ..old(self).players@[j].info }),
                    ..old(self).players@[j]
                }),
            final(self).room_id == old(self).room_id,
            final(self).deck == old(self).deck,
            final(self).player_order == old(self).player_order,
            final(self).active_player == old(self).active_player,
            final(self).current_description == old(self).current_description,
            outs@.len() == 2,
            match outs@[0] {
                Outgoing::Broadcast(m) => final(self).is_begin_voting_msg(m),
                _ => false,
            },
            final(self).is_broadcast_state(outs@[1]),
    {
        proof {
            lemma_count_ready_quorum(old(self).players@, old(self).active_ix());
        }
        assert(forall|j: int|
            0 <= j < self.players@.len() ==> self.players@[j].current_card is Some);
        self.stage = RoomStage::Voting;
        self.clear_ready();
        proof {
            assert forall|k: int|
                0 <= k < self.players@.len() implies self.player_budget(k) <= 65535 by {
                assert(self.player_budget(k) == old(self).player_budget(k));
                assert(old(self).player_budget(k) <= 65535);
            }
            assert forall|j: int|
                0 <= j < self.players@.len() implies self.players@[j].current_card is Some
                && self.players@[j].hand@.len() == HAND_SIZE - 1 && self.players@[j].vote
                is None by {
                assert(self.players@[j].current_card == old(self).players@[j].current_card);
                if j != old(self).active_ix() {
                    assert(old(self).players@[j].info.ready);
                }
            }
        }
        assert(self.wf());
        let mut outs: Vec<Outgoing> = Vec::new();
        outs.push(
            Outgoing::Broadcast(
                ServerMsg::BeginVoting {
                    center_cards: self.get_center_cards(),
                    description: self.current_description.clone(),
                },
            ),
        );
        outs.push(Outgoing::Broadcast(self.get_room_state()));
        outs
    }

    /// Adds each player's round gain to their running total. The caller
    /// has bounded the gains so no total can overflow.
    #[verifier::loop_isolation(false)]
    fn apply_deltas(&mut self, deltas: &Vec<(String, u16)>)
        requires
            deltas@.len() == old(self).players@.len(),
            forall|j: int| 0 <= j < deltas@.len() ==> deltas@[j].1 <= 16,
            forall|j: int|
                0 <= j < old(self).players@.len() ==> old(self).player_budget(j) + 16 <= 65535,
            forall|j: int|
                0 <= j < old(self).players@.len() ==> old(self).players@[j].hand@.len()
                    <= HAND_SIZE,
        ensures
            final(self).players@.len() == old(self).players@.len(),
            forall|j: int|
                #![trigger final(self).players@[j]]
                0 <= j < final(self).players@.len() ==> {
                    &&& final(self).players@[j].name == old(self).players@[j].name
                    &&& final(self).players@[j].info.points == old(self).players@[j].info.points
                        + deltas@[j].1
                    &&& final(self).players@[j].info.connected == old(self).players@[j].info.connected
                    &&& final(self).players@[j].info.ready == old(self).players@[j].info.ready
                    &&& final(self).players@[j].current_card == old(self).players@[j].current_card
                    &&& final(self).players@[j].vote == old(self).players@[j].vote
                    &&& final(self).players@[j].hand == old(self).players@[j].hand
                },
            final(self).same_but_players(*old(self)),
    {
        let n = self.players.len();
        let mut k: usize = 0;
        while k < n
            invariant
                0 <= k <= n,
                self.players@.len() == n,
                forall|j: int|
                    #![trigger self.players@[j]]
                    0 <= j < k ==> self.players@[j] == (Player {
                        info: (PlayerInfo {
                            points: (old(self).players@[j].info.points + deltas@[j].1) as u16,
                            ..old(self).players@[j].info
                        }),
                        ..old(self).players@[j]
                    }),
                forall|j: int|
                    #![trigger self.players@[j]]
                    k <= j < n ==> self.players@[j] == old(self).players@[j],
                self.same_but_players(*old(self)),
            decreases n - k,
        {
            proof {
                assert(old(self).player_budget(k as int) + 16 <= 65535);
            }
            let d = deltas[k].1;
            self.players[k].info.points = self.players[k].info.points + d;
            k = k + 1;
        }
        proof {
            assert forall|j: int|
                0 <= j < self.players@.len() implies self.players@[j].info.points == old(self).players@[j].info.points + deltas@[j].1 by {
                assert(old(self).player_budget(j) + 16 <= 65535);
                assert(deltas@[j].1 <= 16);
            }
        }
    }

    /// Resolves the round: every vote is in, so the scores are computed,
    /// added to the running totals, and reported with the votes and
    /// submissions; the ready flags reset for the next round.
    #[verifier::loop_isolation(false)]
    #[verifier::rlimit(60)]
    #[verifier::spinoff_prover]
    fn init_results(&mut self) -> (outs: Vec<Outgoing>)
        requires
            old(self).wf(),
            old(self).stage is Voting,
            count_ready(old(self).players@) == old(self).players@.len() - 1,
        ensures
            final(self).wf(),
            final(self).stage is Results,
            final(self).players@.len() == old(self).players@.len(),
            forall|j: int|
                #![trigger final(self).players@[j]]
                0 <= j < final(self).players@.len() ==> {
                    &&& final(self).players@[j].name == old(self).players@[j].name
                    &&& final(self).players@[j].info.connected == old(self).players@[j].info.connected
                    &&& !final(self).players@[j].info.ready
                    &&& final(self).players@[j].current_card == old(self).players@[j].current_card
                    &&& final(self).players@[j].vote == old(self).players@[j].vote
                    &&& final(self).players@[j].hand == old(self).players@[j].hand
                    &&& final(self).players@[j].info.points == old(self).players@[j].info.points
                        + delta(old(self).players@, old(self).active_ix(), j)
                },
            final(self).room_id == old(self).room_id,
            final(self).deck == old(self).deck,
            final(self).player_order == old(self).player_order,
            final(self).active_player == old(self).active_player,
            final(self).current_description == old(self).current_description,
            outs@.len() == 2,
            match outs@[0] {
                Outgoing::Broadcast(m) => old(self).is_results_msg(m),
                _ => false,
            },
            final(self).is_broadcast_state(outs@[1]),
    {
        proof {
            lemma_count_ready_quorum(old(self).players@, old(self).active_ix());
        }
        self.stage = RoomStage::Results;
        proof {
            assert forall|k: int|
                0 <= k < self.players@.len() implies self.player_budget(k) <= 65535 by {
                assert(self.player_budget(k) <= old(self).player_budget(k));
                assert(old(self).player_budget(k) <= 65535);
            }
            assert forall|j: int|
                0 <= j < self.players@.len() && j != self.active_ix() implies self.players@[j].vote
                is Some by {
                assert(old(self).players@[j].info.ready);
            }
        }
        assert(self.wf());
        let results = self.results_msg();
        let deltas = self.compute_results();
        proof {
            assert forall|j: int| 0 <= j < deltas@.len() implies deltas@[j].1 <= 16 by {
                lemma_delta_bounds(old(self).players@, old(self).active_ix(), j);
            }
            assert forall|j: int|
                0 <= j < self.players@.len() implies self.player_budget(j) + 16 <= 65535 by {
                assert(old(self).player_budget(j) <= 65535);
            }
        }
        self.apply_deltas(&deltas);
        proof {
            assert forall|j: int|
                0 <= j < self.players@.len() implies self.player_budget(j) <= 65535 by {
                lemma_delta_bounds(old(self).players@, old(self).active_ix(), j);
                assert(old(self).player_budget(j) <= 65535);
            }
        }
        self.clear_ready();
        proof {
            assert forall|k: int|
                0 <= k < self.players@.len() implies self.player_budget(k) <= 65535 by {
                lemma_delta_bounds(old(self).players@, old(self).active_ix(), k);
                assert(old(self).player_budget(k) <= 65535);
            }
            assert forall|k: int|
                0 <= k < self.players@.len() && self.players@[k].vote is Some implies (exists|
                j: int,
            |
                0 <= j < self.players@.len() && self.players@[j].current_card is Some
                    && self.players@[j].current_card->Some_0@ == self.players@[k].vote->Some_0@) by {
                assert(old(self).players@[k].vote is Some);
                let j = choose|j: int|
                    0 <= j < old(self).players@.len() && old(self).players@[j].current_card is Some
                        && old(self).players@[j].current_card->Some_0@ == old(self).players@[k].vote->Some_0@;
                assert(self.players@[j].current_card is Some
                    && self.players@[j].current_card->Some_0@ == self.players@[k].vote->Some_0@);
            }
        }
        assert(self.names_unique());
        assert(self.order_ok());
        assert(self.stage_ok());
        assert(self.votes_ok());
        assert(self.description_state_ok());
        assert(self.wf());
        let mut outs: Vec<Outgoing> = Vec::new();
        outs.push(Outgoing::Broadcast(results));
        outs.push(Outgoing::Broadcast(self.get_room_state()));
        outs
    }

    /// Handles the active player's clue: card and description are
    /// validated, then the round moves to the submission stage.
    #[verifier::loop_isolation(false)]
    #[verifier::rlimit(60)]
    #[verifier::spinoff_prover]
    fn handle_active_choose(&mut self, i: usize, card: &String, description: &str) -> (outs: Vec<
        Outgoing,
    >)
        requires
            old(self).wf(),
            old(self).stage is ActiveChooses,
            i < old(self).players@.len(),
            i as int == old(self).active_ix(),
        ensures
            final(self).wf(),
            active_choose_after(
                *old(self),
                *final(self),
                i as int,
                *card,
                description@,
                outs@,
            ),
    {
        let pos = find_card(&self.players[i].hand, card);
        let h = match pos {
            None => {
                let mut outs: Vec<Outgoing> = Vec::new();
                outs.push(
                    Outgoing::Direct {
                        to: self.players[i].name.clone(),
                        msg: ServerMsg::ErrorMsg(
                            String::from_str("Invalid card chosen by active player"),
                        ),
                    },
                );
                return outs;
            },
            Some(h) => h,
        };
        let trimmed = match trim_description(description) {
            None => {
                let mut outs: Vec<Outgoing> = Vec::new();
                outs.push(
                    Outgoing::Direct {
                        to: self.players[i].name.clone(),
                        msg: ServerMsg::ErrorMsg(
                            String::from_str("Description must be one word"),
                        ),
                    },
                );
                return outs;
            },
            Some(t) => t,
        };
        let c = self.players[i].hand.remove(h);
        self.players[i].current_card = Some(c);
        self.current_description = trimmed;
        self.stage = RoomStage::PlayersChoose;
        self.clear_ready();
        proof {
            assert forall|k: int|
                0 <= k < self.players@.len() implies self.player_budget(k) <= 65535 by {
                assert(old(self).player_budget(k) <= 65535);
            }
        }
        assert(self.wf());
        let mut outs: Vec<Outgoing> = Vec::new();
        let mut k: usize = 0;
        while k < self.player_order.len()
            invariant
                0 <= k <= self.player_order@.len(),
                outs@.len() == k,
                forall|j: int|
                    #![trigger outs@[j]]
                    0 <= j < k ==> match outs@[j] {
                        Outgoing::Direct { to, msg } => to@ == self.players@[
                            self.player_order@[j] as int
                        ].name@ && self.is_players_choose_msg(msg, self.player_order@[j] as int),
                        _ => false,
                    },
            decreases self.player_order@.len() - k,
        {
            let pidx = self.player_order[k];
            outs.push(
                Outgoing::Direct {
                    to: self.players[pidx].name.clone(),
                    msg: ServerMsg::PlayersChoose {
                        description: self.current_description.clone(),
                        hand: clone_cards(&self.players[pidx].hand),
                    },
                },
            );
            k = k + 1;
        }
        outs.push(Outgoing::Broadcast(self.get_room_state()));
        assert(active_choose_after(
            *old(self),
            *self,
            i as int,
            *card,
            description@,
            outs@,
        ));
        outs
    }

    /// Records a non-active player's submission: the card moves from the
    /// hand to the center, swapping back any earlier submission, and the
    /// player is marked ready. Returns false, changing nothing, when the
    /// card is not in the player's hand.
    #[verifier::loop_isolation(false)]
    #[verifier::rlimit(60)]
    #[verifier::spinoff_prover]
    fn record_submission(&mut self, i: usize, card: &String) -> (ok: bool)
        requires
            old(self).wf(),
            old(self).stage is PlayersChoose,
            i < old(self).players@.len(),
            i as int != old(self).active_ix(),
        ensures
            final(self).wf(),
            !ok ==> *final(self) == *old(self) && (forall|h: int|
                0 <= h < old(self).players@[i as int].hand@.len() ==> old(self).players@[i as int].hand@[h]@ != card@),
            ok ==> {
                let pre = *old(self);
                let hand = pre.players@[i as int].hand@;
                &&& final(self).same_but_players(pre)
                &&& final(self).players@.len() == pre.players@.len()
                &&& (exists|h: int|
                    0 <= h < hand.len() && hand[h]@ == card@ && final(self).players@[i as int].hand@ == (match pre.players@[i as int].current_card {
                        Some(c0) => hand.remove(h).push(c0),
                        None => hand.remove(h),
                    }))
                &&& final(self).players@[i as int].current_card is Some
                &&& final(self).players@[i as int].current_card->Some_0@ == card@
                &&& final(self).players@[i as int].name == pre.players@[i as int].name
                &&& final(self).players@[i as int].info.points == pre.players@[i as int].info.points
                &&& final(self).players@[i as int].info.connected == pre.players@[
                    i as int
                ].info.connected
                &&& final(self).players@[i as int].info.ready
                &&& final(self).players@[i as int].vote is None
                &&& (forall|k: int|
                    0 <= k < pre.players@.len() && k != i as int ==> (#[trigger] final(self).players@[k]) == pre.players@[k])
                &&& count_ready(final(self).players@) == count_ready(
                    ready_set(pre.players@, i as int),
                )
            },
    {
        let pos = find_card(&self.players[i].hand, card);
        let h = match pos {
            None => {
                return false;
            },
            Some(h) => h,
        };
        let c = self.players[i].hand.remove(h);
        let previous = self.players[i].current_card.take();
        match previous {
            Some(c0) => {
                self.players[i].hand.push(c0);
            },
            None => {},
        }
        self.players[i].current_card = Some(c);
        self.players[i].info.ready = true;
        proof {
            assert forall|k: int|
                0 <= k < self.players@.len() implies self.player_budget(k) <= 65535 by {
                assert(self.player_budget(k) == old(self).player_budget(k));
                assert(old(self).player_budget(k) <= 65535);
            }
            lemma_count_ready_same_flags(self.players@, ready_set(old(self).players@, i as int));
            let hg = h as int;
            let prehand = old(self).players@[i as int].hand@;
            assert(0 <= hg < prehand.len() && prehand[hg]@ == card@);
            assert(self.players@[i as int].hand@ =~= (match old(self).players@[i as int].current_card {
                Some(c0) => prehand.remove(hg).push(c0),
                None => prehand.remove(hg),
            }));
        }
        assert(self.wf());
        true
    }

    /// Handles a non-active player's submission into the center.
    #[verifier::loop_isolation(false)]
    #[verifier::rlimit(60)]
    #[verifier::spinoff_prover]
    fn handle_player_choose(&mut self, i: usize, card: &String) -> (outs: Vec<Outgoing>)
        requires
            old(self).wf(),
            old(self).stage is PlayersChoose,
            i < old(self).players@.len(),
            i as int != old(self).active_ix(),
        ensures
            final(self).wf(),
            player_choose_after(*old(self), *final(self), i as int, *card, outs@),
    {
        let ok = self.record_submission(i, card);
        if !ok {
            let mut outs: Vec<Outgoing> = Vec::new();
            outs.push(
                Outgoing::Direct {
                    to: self.players[i].name.clone(),
                    msg: ServerMsg::ErrorMsg(String::from_str("Invalid card chosen by player")),
                },
            );
            return outs;
        }
        let mut outs: Vec<Outgoing> = Vec::new();
        outs.push(Outgoing::Broadcast(self.get_room_state()));
        proof {
            let mid = ready_set(old(self).players@, i as int);
            assert forall|k: int|
                0 <= k < mid.len() implies mid[k].name@ == self.players@[k].name@ && mid[k].info
                == self.players@[k].info by {}
        }
        let rc = count_ready_exec(&self.players);
        if rc == self.players.len() - 1 {
            let mut more = self.init_voting();
            let ghost more0 = more@;
            outs.append(&mut more);
            proof {
                assert(outs@[1] == more0[0]);
                assert(outs@[2] == more0[1]);
            }
        }
        assert(player_choose_after(*old(self), *self, i as int, *card, outs@));
        outs
    }

    /// Handles a vote for a center card.
    #[verifier::loop_isolation(false)]
    #[verifier::rlimit(60)]
    #[verifier::spinoff_prover]
    fn handle_vote(&mut self, i: usize, card: &String) -> (outs: Vec<Outgoing>)
        requires
            old(self).wf(),
            old(self).stage is Voting,
            i < old(self).players@.len(),
        ensures
            final(self).wf(),
            vote_after(*old(self), *final(self), i as int, *card, outs@),
    {
        let active_i = self.player_order[self.active_player];
        if i == active_i {
            let mut outs: Vec<Outgoing> = Vec::new();
            outs.push(
                Outgoing::Direct {
                    to: self.players[i].name.clone(),
                    msg: ServerMsg::ErrorMsg(String::from_str("Active player cannot vote")),
                },
            );
            return outs;
        }
        let mut in_center = false;
        let mut j: usize = 0;
        while j < self.players.len()
            invariant
                0 <= j <= self.players@.len(),
                in_center <==> exists|l: int|
                    0 <= l < j && (#[trigger] self.players@[l]).current_card is Some
                        && self.players@[l].current_card->Some_0@ == card@,
            decreases self.players@.len() - j,
        {
            let hit = match &self.players[j].current_card {
                Some(c) => c.eq(card),
                None => false,
            };
            if hit {
                in_center = true;
            }
            j = j + 1;
        }
        if !in_center {
            let mut outs: Vec<Outgoing> = Vec::new();
            outs.push(
                Outgoing::Direct {
                    to: self.players[i].name.clone(),
                    msg: ServerMsg::ErrorMsg(String::from_str("Invalid card")),
                },
            );
            return outs;
        }
        let own_hit = match &self.players[i].current_card {
            Some(c) => c.eq(card),
            None => false,
        };
        if own_hit {
            let mut outs: Vec<Outgoing> = Vec::new();
            outs.push(
                Outgoing::Direct {
                    to: self.players[i].name.clone(),
                    msg: ServerMsg::ErrorMsg(String::from_str("You cannot vote for your own card")),
                },
            );
            return outs;
        }
        self.players[i].vote = Some(card.clone());
        self.players[i].info.ready = true;
        assert(self.players@ =~= voted_set(old(self).players@, i as int, *card)) by {
            assert(self.players@[i as int] == voted_set(
                old(self).players@,
                i as int,
                *card,
            )[i as int]);
        }
        proof {
            assert forall|k: int|
                0 <= k < self.players@.len() implies self.player_budget(k) <= 65535 by {
                assert(self.player_budget(k) == old(self).player_budget(k));
                assert(old(self).player_budget(k) <= 65535);
            }
            assert forall|k: int|
                0 <= k < self.players@.len() && self.players@[k].vote is Some implies (exists|
                l: int,
            |
                0 <= l < self.players@.len() && self.players@[l].current_card is Some
                    && self.players@[l].current_card->Some_0@ == self.players@[k].vote->Some_0@) by {
                if k == i as int {
                    let l = choose|l: int|
                        0 <= l < old(self).players@.len() && (#[trigger] old(self).players@[l]).current_card is Some
                            && old(self).players@[l].current_card->Some_0@ == card@;
                    assert(self.players@[l].current_card is Some
                        && self.players@[l].current_card->Some_0@ == self.players@[k].vote->Some_0@);
                } else {
                    assert(old(self).players@[k].vote is Some);
                    let l = choose|l: int|
                        0 <= l < old(self).players@.len() && old(self).players@[l].current_card
                            is Some && old(self).players@[l].current_card->Some_0@ == old(self).players@[k].vote->Some_0@;
                    assert(self.players@[l].current_card is Some
                        && self.players@[l].current_card->Some_0@ == self.players@[k].vote->Some_0@);
                }
            }
        }
        assert(self.wf());
        let mut outs: Vec<Outgoing> = Vec::new();
        outs.push(Outgoing::Broadcast(self.get_room_state()));
        let rc = count_ready_exec(&self.players);
        if rc == self.players.len() - 1 {
            let mut more = self.init_results();
            let ghost more0 = more@;
            outs.append(&mut more);
            proof {
                assert(outs@[1] == more0[0]);
                assert(outs@[2] == more0[1]);
            }
        }
        assert(vote_after(*old(self), *self, i as int, *card, outs@));
        outs
    }

    /// The payload a player is owed for the current stage: their private
    /// hand, the voting center, or the round's results.
    pub fn get_msg(&self, i: usize) -> (r: Option<ServerMsg>)
        requires
            self.wf(),
            i < self.players@.len(),
        ensures
            match r {
                Some(m) => self.is_stage_msg(m, i as int) && !(self.stage is Joining),
                None => self.stage is Joining,
            },
    {
        match self.stage {
            RoomStage::Joining => None,
            RoomStage::ActiveChooses => Some(
                ServerMsg::StartRound { hand: clone_cards(&self.players[i].hand) },
            ),
            RoomStage::PlayersChoose => Some(
                ServerMsg::PlayersChoose {
                    description: self.current_description.clone(),
                    hand: clone_cards(&self.players[i].hand),
                },
            ),
            RoomStage::Voting => Some(
                ServerMsg::BeginVoting {
                    center_cards: self.get_center_cards(),
                    description: self.current_description.clone(),
                },
            ),
            RoomStage::Results => Some(self.results_msg()),
        }
    }
}

pub proof fn lemma_cards_needed_same_lens(a: Seq<Player>, b: Seq<Player>)
    requires
        a.len() == b.len(),
        forall|i: int| 0 <= i < a.len() ==> a[i].hand@.len() == b[i].hand@.len(),
    ensures
        cards_needed(a) == cards_needed(b),
    decreases a.len(),
{
    if a.len() > 0 {
        assert(a.first().hand@.len() == b.first().hand@.len());
        assert forall|i: int|
            0 <= i < a.drop_first().len() implies a.drop_first()[i].hand@.len()
            == b.drop_first()[i].hand@.len() by {
            assert(a.drop_first()[i] == a[i + 1]);
            assert(b.drop_first()[i] == b[i + 1]);
        }
        lemma_cards_needed_same_lens(a.drop_first(), b.drop_first());
    }
}

/// `p` is `q` with the round data cleared: same identity, points, link
/// state and hand, but no submission, no vote and no ready flag.
pub open spec fn cleared_like(p: Player, q: Player) -> bool {
    &&& p.name == q.name
    &&& p.info.points == q.info.points
    &&& p.info.connected == q.info.connected
    &&& !p.info.ready
    &&& p.current_card is None
    &&& p.vote is None
    &&& p.hand == q.hand
}

/// Counts the seated players that are marked ready.
pub(crate) fn count_ready_exec(players: &Vec<Player>) -> (n: usize)
    ensures
        n == count_ready(players@),
{
    let mut n: usize = 0;
    let mut i: usize = 0;
    while i < players.len()
        invariant
            0 <= i <= players@.len(),
            n <= i,
            n == count_ready(players@.take(i as int)),
        decreases players@.len() - i,
    {
        proof {
            assert(players@.take(i + 1).drop_last() =~= players@.take(i as int));
            assert(players@.take(i + 1).last() == players@[i as int]);
        }
        if players[i].info.ready {
            n = n + 1;
        }
        i = i + 1;
    }
    proof {
        assert(players@.take(players@.len() as int) =~= players@);
    }
    n
}

pub proof fn lemma_cards_needed_skip(ps: Seq<Player>, i: int)
    requires
        0 <= i < ps.len(),
    ensures
        cards_needed(ps.skip(i)) == need_of(ps[i]) + cards_needed(ps.skip(i + 1)),
{
    assert(ps.skip(i).drop_first() =~= ps.skip(i + 1));
    assert(ps.skip(i).first() == ps[i]);
}

/// Counts the cards the whole table needs to refill every hand.
pub(crate) fn cards_needed_exec(players: &Vec<Player>) -> (n: usize)
    requires
        players@.len() <= MAX_PLAYERS,
        forall|j: int| 0 <= j < players@.len() ==> players@[j].hand@.len() <= HAND_SIZE,
    ensures
        n == cards_needed(players@),
{
    let mut n: usize = 0;
    let mut i: usize = 0;
    proof {
        assert(players@.skip(0) =~= players@);
    }
    while i < players.len()
        invariant
            0 <= i <= players@.len(),
            players@.len() <= MAX_PLAYERS,
            forall|j: int| 0 <= j < players@.len() ==> players@[j].hand@.len() <= HAND_SIZE,
            n <= HAND_SIZE * i,
            n + cards_needed(players@.skip(i as int)) == cards_needed(players@),
        decreases players@.len() - i,
    {
        proof {
            lemma_cards_needed_skip(players@, i as int);
        }
        n = n + (HAND_SIZE - players[i].hand.len());
        i = i + 1;
    }
    proof {
        assert(players@.skip(players@.len() as int) =~= Seq::<Player>::empty());
    }
    n
}

/// What starting a round does: submissions, votes, ready flags and the
/// description are cleared, the rotation is fixed (first round) or
/// advanced by one, every hand is topped up to six cards drawn from the
/// shuffled deck, and each player is dealt their private hand before the
/// new public state is broadcast. The deal draws without replacement and
/// discards nothing: the deck shrinks by exactly the cards the hands
/// need, and the room's cards are conserved as a multiset, up to the
/// submissions retired from the center (on the first round, exactly).
pub open spec fn round_start_rel(pre: RoomState, post: RoomState, outs: Seq<Outgoing>) -> bool {
    let n = pre.players@.len() as int;
    &&& post.room_id == pre.room_id
    &&& post.stage is ActiveChooses
    &&& post.current_description@.len() == 0
    &&& post.players@.len() == n
    &&& forall|k: int|
        #![trigger post.players@[k]]
        0 <= k < n ==> {
            &&& post.players@[k].name == pre.players@[k].name
            &&& post.players@[k].info.points == pre.players@[k].info.points
            &&& post.players@[k].info.connected == pre.players@[k].info.connected
            &&& !post.players@[k].info.ready
            &&& post.players@[k].current_card is None
            &&& post.players@[k].vote is None
            &&& post.players@[k].hand@.len() == HAND_SIZE
            &&& post.players@[k].hand@.take(pre.players@[k].hand@.len() as int)
                == pre.players@[k].hand@
        }
    &&& if pre.player_order@.len() == 0 {
        post.player_order@.len() == n && post.active_player == 0
    } else {
        post.player_order == pre.player_order && post.active_player as int == (
        pre.active_player + 1) as int % (pre.player_order@.len() as int)
    }
    &&& forall|c: String|
        #![trigger post.deck@.to_multiset().count(c)]
        post.deck@.to_multiset().count(c) <= pre.deck@.to_multiset().count(c)
    &&& post.deck@.len() + cards_needed(pre.players@) == pre.deck@.len()
    &&& forall|k: int, m: int|
        #![trigger post.players@[k].hand@[m]]
        0 <= k < n && pre.players@[k].hand@.len() <= m < HAND_SIZE
            ==> pre.deck@.to_multiset().count(post.players@[k].hand@[m]) > 0
    &&& forall|c: Seq<char>|
        #![trigger room_cards(post).count(c)]
        room_cards(post).count(c) <= room_cards(pre).count(c)
    &&& room_cards(post).add(center_cards(pre.players@)) == room_cards(pre)
    &&& outs.len() == n + 1
    &&& forall|k: int|
        #![trigger outs[k]]
        0 <= k < n ==> match outs[k] {
            Outgoing::Direct { to, msg } => to@ == post.players@[
                post.player_order@[k] as int
            ].name@ && post.is_start_round_msg(msg, post.player_order@[k] as int),
            _ => false,
        }
    &&& post.is_broadcast_state(outs[n])
}

/// What a ready signal does once it reaches seat `i` in the joining or
/// results stage: the flag is set and the new state broadcast; when that
/// completes the quorum and the table is large enough, the next round
/// starts, unless the deck cannot refill the hands, in which case the
/// round is aborted and only the initiator is told.
pub open spec fn ready_after(pre: RoomState, post: RoomState, i: int, outs: Seq<Outgoing>) -> bool {
    let mid = ready_set(pre.players@, i);
    let quorum = count_ready(mid) == mid.len() && mid.len() >= MIN_PLAYERS;
    &&& outs.len() >= 1
    &&& is_broadcast_parts(
        outs[0],
        pre.room_id@,
        mid,
        pre.stage,
        pre.player_order@,
        pre.active_player as int,
    )
    &&& if quorum && cards_needed(mid) <= pre.deck@.len() {
        round_start_rel(pre, post, outs.skip(1))
    } else if quorum {
        &&& post.players@ == mid
        &&& post.same_but_players(pre)
        &&& outs.len() == 2
        &&& is_direct_error(outs[1], pre.players@[i].name@, "Not enough cards in the deck"@)
    } else {
        &&& post.players@ == mid
        &&& post.same_but_players(pre)
        &&& outs.len() == 1
    }
}

/// What an active player's submission does: the card must come from
/// their hand and the description must trim to a single word, each
/// rejected with a direct error; on acceptance the card moves from the
/// hand to the center, the trimmed description is recorded, and the
/// submission stage opens with every player sent their private view.
pub open spec fn active_choose_after(
    pre: RoomState,
    post: RoomState,
    i: int,
    card: String,
    desc: Seq<char>,
    outs: Seq<Outgoing>,
) -> bool {
    let hand = pre.players@[i].hand@;
    let n = pre.players@.len() as int;
    if forall|h: int| 0 <= h < hand.len() ==> hand[h]@ != card@ {
        &&& post == pre
        &&& outs.len() == 1
        &&& is_direct_error(outs[0], pre.players@[i].name@, "Invalid card chosen by active player"@)
    } else if forall|a: int, b: int| is_trim_of(desc, a, b) ==> !description_ok(desc.subrange(a, b)) {
        &&& post == pre
        &&& outs.len() == 1
        &&& is_direct_error(outs[0], pre.players@[i].name@, "Description must be one word"@)
    } else {
        &&& post.room_id == pre.room_id
        &&& post.deck == pre.deck
        &&& post.player_order == pre.player_order
        &&& post.active_player == pre.active_player
        &&& post.stage is PlayersChoose
        &&& (exists|a: int, b: int|
            is_trim_of(desc, a, b) && post.current_description@ == desc.subrange(a, b))
        &&& description_ok(post.current_description@)
        &&& post.players@.len() == n
        &&& (exists|h: int|
            0 <= h < hand.len() && hand[h]@ == card@ && post.players@[i].hand@ == hand.remove(h))
        &&& post.players@[i].current_card is Some
        &&& post.players@[i].current_card->Some_0@ == card@
        &&& post.players@[i].name == pre.players@[i].name
        &&& post.players@[i].info.points == pre.players@[i].info.points
        &&& post.players@[i].info.connected == pre.players@[i].info.connected
        &&& post.players@[i].vote is None
        &&& forall|k: int|
            #![trigger post.players@[k]]
            0 <= k < n && k != i ==> {
                &&& post.players@[k].name == pre.players@[k].name
                &&& post.players@[k].info.points == pre.players@[k].info.points
                &&& post.players@[k].info.connected == pre.players@[k].info.connected
                &&& post.players@[k].current_card == pre.players@[k].current_card
                &&& post.players@[k].vote == pre.players@[k].vote
                &&& post.players@[k].hand == pre.players@[k].hand
            }
        &&& forall|k: int| 0 <= k < n ==> !(#[trigger] post.players@[k]).info.ready
        &&& outs.len() == n + 1
        &&& forall|k: int|
            #![trigger outs[k]]
            0 <= k < n ==> match outs[k] {
                Outgoing::Direct { to, msg } => to@ == post.players@[
                    post.player_order@[k] as int
                ].name@ && post.is_players_choose_msg(msg, post.player_order@[k] as int),
                _ => false,
            }
        &&& post.is_broadcast_state(outs[n])
    }
}

/// What a non-active player's submission does: the card must come from
/// their hand, else a direct error; on acceptance it moves to the center
/// (swapping back any earlier submission), the player is marked ready,
/// and when every other player has submitted the voting stage opens.
pub open spec fn player_choose_after(
    pre: RoomState,
    post: RoomState,
    i: int,
    card: String,
    outs: Seq<Outgoing>,
) -> bool {
    let hand = pre.players@[i].hand@;
    let n = pre.players@.len() as int;
    let mid = ready_set(pre.players@, i);
    let quorum = count_ready(mid) == n - 1;
    if forall|h: int| 0 <= h < hand.len() ==> hand[h]@ != card@ {
        &&& post == pre
        &&& outs.len() == 1
        &&& is_direct_error(outs[0], pre.players@[i].name@, "Invalid card chosen by player"@)
    } else {
        &&& post.room_id == pre.room_id
        &&& post.deck == pre.deck
        &&& post.player_order == pre.player_order
        &&& post.active_player == pre.active_player
        &&& post.current_description == pre.current_description
        &&& post.players@.len() == n
        &&& (exists|h: int|
            0 <= h < hand.len() && hand[h]@ == card@ && post.players@[i].hand@ == (
            match pre.players@[i].current_card {
                Some(c0) => hand.remove(h).push(c0),
                None => hand.remove(h),
            }))
        &&& post.players@[i].current_card is Some
        &&& post.players@[i].current_card->Some_0@ == card@
        &&& post.players@[i].name == pre.players@[i].name
        &&& post.players@[i].info.points == pre.players@[i].info.points
        &&& post.players@[i].info.connected == pre.players@[i].info.connected
        &&& post.players@[i].vote is None
        &&& forall|k: int|
            #![trigger post.players@[k]]
            0 <= k < n && k != i ==> {
                &&& post.players@[k].name == pre.players@[k].name
                &&& post.players@[k].info.points == pre.players@[k].info.points
                &&& post.players@[k].info.connected == pre.players@[k].info.connected
                &&& post.players@[k].current_card == pre.players@[k].current_card
                &&& post.players@[k].vote == pre.players@[k].vote
                &&& post.players@[k].hand == pre.players@[k].hand
            }
        &&& if quorum {
            &&& post.stage is Voting
            &&& (forall|k: int| 0 <= k < n ==> !(#[trigger] post.players@[k]).info.ready)
            &&& outs.len() == 3
            &&& is_broadcast_parts(
                outs[0],
                pre.room_id@,
                mid,
                pre.stage,
                pre.player_order@,
                pre.active_player as int,
            )
            &&& (match outs[1] {
                Outgoing::Broadcast(m) => post.is_begin_voting_msg(m),
                _ => false,
            })
            &&& post.is_broadcast_state(outs[2])
        } else {
            &&& post.stage is PlayersChoose
            &&& post.players@[i].info.ready
            &&& (forall|k: int|
                0 <= k < n && k != i ==> (#[trigger] post.players@[k]).info.ready == pre.players@[
                    k
                ].info.ready)
            &&& outs.len() == 1
            &&& is_broadcast_parts(
                outs[0],
                pre.room_id@,
                mid,
                pre.stage,
                pre.player_order@,
                pre.active_player as int,
            )
        }
    }
}

/// What a vote does: the active player may not vote, the card must be in
/// the center and must not be the voter's own submission, each rejected
/// with a direct error; a valid vote is recorded and marks the voter
/// ready, and the last vote resolves the round.
pub open spec fn vote_after(
    pre: RoomState,
    post: RoomState,
    i: int,
    card: String,
    outs: Seq<Outgoing>,
) -> bool {
    let n = pre.players@.len() as int;
    let mid = voted_set(pre.players@, i, card);
    let quorum = count_ready(mid) == n - 1;
    if i == pre.active_ix() {
        &&& post == pre
        &&& outs.len() == 1
        &&& is_direct_error(outs[0], pre.players@[i].name@, "Active player cannot vote"@)
    } else if forall|j: int|
        0 <= j < n ==> !((#[trigger] pre.players@[j]).current_card is Some
            && pre.players@[j].current_card->Some_0@ == card@) {
        &&& post == pre
        &&& outs.len() == 1
        &&& is_direct_error(outs[0], pre.players@[i].name@, "Invalid card"@)
    } else if pre.players@[i].current_card->Some_0@ == card@ {
        &&& post == pre
        &&& outs.len() == 1
        &&& is_direct_error(outs[0], pre.players@[i].name@, "You cannot vote for your own card"@)
    } else {
        &&& post.room_id == pre.room_id
        &&& post.deck == pre.deck
        &&& post.player_order == pre.player_order
        &&& post.active_player == pre.active_player
        &&& post.current_description == pre.current_description
        &&& post.players@.len() == n
        &&& post.players@[i].vote is Some
        &&& post.players@[i].vote->Some_0@ == card@
        &&& forall|k: int|
            #![trigger post.players@[k]]
            0 <= k < n ==> {
                &&& post.players@[k].name == mid[k].name
                &&& post.players@[k].info.connected == mid[k].info.connected
                &&& post.players@[k].current_card == mid[k].current_card
                &&& post.players@[k].vote == mid[k].vote
                &&& post.players@[k].hand == mid[k].hand
            }
        &&& if quorum {
            &&& post.stage is Results
            &&& (forall|k: int|
                0 <= k < n ==> !(#[trigger] post.players@[k]).info.ready
                    && post.players@[k].info.points == mid[k].info.points + delta(
                    mid,
                    pre.active_ix(),
                    k,
                ))
            &&& outs.len() == 3
            &&& is_broadcast_parts(
                outs[0],
                pre.room_id@,
                mid,
                pre.stage,
                pre.player_order@,
                pre.active_player as int,
            )
            &&& (match outs[1] {
                Outgoing::Broadcast(m) => is_results_msg_of(m, mid, pre.active_ix()),
                _ => false,
            })
            &&& post.is_broadcast_state(outs[2])
        } else {
            &&& post.stage is Voting
            &&& (forall|k: int|
                0 <= k < n ==> (#[trigger] post.players@[k]).info.ready == mid[k].info.ready
                    && post.players@[k].info.points == mid[k].info.points)
            &&& outs.len() == 1
            &&& is_broadcast_parts(
                outs[0],
                pre.room_id@,
                mid,
                pre.stage,
                pre.player_order@,
                pre.active_player as int,
            )
        }
    }
}

/// What one client message does to the room, whoever sent it: messages
/// out of stage or from an unknown or wrong actor are silently ignored;
/// the rest act as the per-action relations say.
pub open spec fn client_msg_rel(
    pre: RoomState,
    post: RoomState,
    name: Seq<char>,
    msg: ClientMsg,
    outs: Seq<Outgoing>,
) -> bool {
    match msg {
        ClientMsg::Ready {  } => {
            if (pre.stage is Joining || pre.stage is Results) && pre.has_player(name) {
                ready_after(pre, post, pre.ix_of(name), outs)
            } else {
                post == pre && outs.len() == 0
            }
        },
        ClientMsg::ActivePlayerChooseCard { card, description } => {
            if pre.stage is ActiveChooses && pre.has_player(name) && pre.ix_of(name)
                == pre.active_ix() {
                active_choose_after(pre, post, pre.active_ix(), card, description@, outs)
            } else {
                post == pre && outs.len() == 0
            }
        },
        ClientMsg::PlayerChooseCard { card } => {
            if pre.stage is PlayersChoose && pre.has_player(name) && pre.ix_of(name)
                != pre.active_ix() {
                player_choose_after(pre, post, pre.ix_of(name), card, outs)
            } else {
                post == pre && outs.len() == 0
            }
        },
        ClientMsg::Vote { card } => {
            if pre.stage is Voting && pre.has_player(name) {
                vote_after(pre, post, pre.ix_of(name), card, outs)
            } else {
                post == pre && outs.len() == 0
            }
        },
        _ => post == pre && outs.len() == 0,
    }
}

impl RoomState {
    /// Applies one client message from the player called `name` to the
    /// room and returns the deliveries to perform; every reply described
    /// by `client_msg_rel` — stage transitions, private hands, direct
    /// errors — comes out here.
    #[verifier::rlimit(60)]
    #[verifier::spinoff_prover]
    pub fn handle_client_msg(&mut self, name: &str, msg: &ClientMsg) -> (outs: Vec<Outgoing>)
        requires
            old(self).wf(),
        ensures
            final(self).wf(),
            client_msg_rel(*old(self), *final(self), name@, *msg, outs@),
    {
        match msg {
            ClientMsg::Ready {  } => {
                let in_stage = match self.stage {
                    RoomStage::Joining | RoomStage::Results => true,
                    _ => false,
                };
                if !in_stage {
                    return Vec::new();
                }
                match self.find_player(name) {
                    Some(i) => {
                        proof {
                            lemma_ix_at(*self, name@, i as int);
                        }
                        self.handle_ready(i)
                    },
                    None => Vec::new(),
                }
            },
            ClientMsg::ActivePlayerChooseCard { card, description } => {
                let in_stage = match self.stage {
                    RoomStage::ActiveChooses => true,
                    _ => false,
                };
                if !in_stage {
                    return Vec::new();
                }
                match self.find_player(name) {
                    Some(i) => {
                        proof {
                            lemma_ix_at(*self, name@, i as int);
                        }
                        if i == self.player_order[self.active_player] {
                            self.handle_active_choose(i, card, description.as_str())
                        } else {
                            Vec::new()
                        }
                    },
                    None => Vec::new(),
                }
            },
            ClientMsg::PlayerChooseCard { card } => {
                let in_stage = match self.stage {
                    RoomStage::PlayersChoose => true,
                    _ => false,
                };
                if !in_stage {
                    return Vec::new();
                }
                match self.find_player(name) {
                    Some(i) => {
                        proof {
                            lemma_ix_at(*self, name@, i as int);
                        }
                        if i != self.player_order[self.active_player] {
                            self.handle_player_choose(i, card)
                        } else {
                            Vec::new()
                        }
                    },
                    None => Vec::new(),
                }
            },
            ClientMsg::Vote { card } => {
                let in_stage = match self.stage {
                    RoomStage::Voting => true,
                    _ => false,
                };
                if !in_stage {
                    return Vec::new();
                }
                match self.find_player(name) {
                    Some(i) => {
                        proof {
                            lemma_ix_at(*self, name@, i as int);
                        }
                        self.handle_vote(i, card)
                    },
                    None => Vec::new(),
                }
            },
            _ => Vec::new(),
        }
    }
}

/// Law: a player's point total never decreases, and the set of seats,
/// their names and their connection flags are untouched, whatever client
/// message the room handles.
pub proof fn lemma_points_never_decrease(
    pre: RoomState,
    post: RoomState,
    name: Seq<char>,
    msg: ClientMsg,
    outs: Seq<Outgoing>,
)
    requires
        pre.wf(),
        client_msg_rel(pre, post, name, msg, outs),
    ensures
        post.players@.len() == pre.players@.len(),
        forall|i: int|
            0 <= i < pre.players@.len() ==> (#[trigger] post.players@[i]).info.points
                >= pre.players@[i].info.points && post.players@[i].name == pre.players@[i].name
                && post.players@[i].info.connected == pre.players@[i].info.connected,
{
    match msg {
        ClientMsg::Vote { card } => {
            if pre.stage is Voting && pre.has_player(name) {
                let i = pre.ix_of(name);
                let mid = voted_set(pre.players@, i, card);
                if i != pre.active_ix() && !(forall|j: int|
                    0 <= j < pre.players@.len() ==> !((#[trigger] pre.players@[j]).current_card
                        is Some && pre.players@[j].current_card->Some_0@ == card@)) && !(
                pre.players@[i].current_card->Some_0@ == card@) {
                    if count_ready(mid) == pre.players@.len() - 1 {
                        assert forall|k: int|
                            0 <= k < pre.players@.len() implies (#[trigger] post.players@[k]).info.points
                            >= pre.players@[k].info.points by {
                            lemma_delta_bounds(mid, pre.active_ix(), k);
                        }
                    }
                }
            }
        },
        _ => {},
    }
}

/// Law: a recorded vote never names the voter's own submission; a
/// self-vote is refused at submission time, so the room never holds one.
pub proof fn lemma_vote_never_own_card(s: RoomState, i: int)
    requires
        s.wf(),
        0 <= i < s.players@.len(),
        s.players@[i].vote is Some,
    ensures
        s.players@[i].current_card is Some,
        s.players@[i].vote->Some_0@ != s.players@[i].current_card->Some_0@,
{
}

/// Law: a self-vote is rejected with a direct error and no state change.
pub proof fn lemma_self_vote_rejected(
    pre: RoomState,
    post: RoomState,
    name: Seq<char>,
    card: String,
    outs: Seq<Outgoing>,
)
    requires
        pre.wf(),
        pre.stage is Voting,
        pre.has_player(name),
        pre.ix_of(name) != pre.active_ix(),
        pre.players@[pre.ix_of(name)].current_card->Some_0@ == card@,
        client_msg_rel(pre, post, name, ClientMsg::Vote { card }, outs),
    ensures
        post == pre,
        outs.len() == 1,
        is_direct_error(outs[0], pre.players@[pre.ix_of(name)].name@, "You cannot vote for your own card"@),
{
}

/// Law: when a vote resolves the round, the new totals follow the
/// scoring rules exactly. With `mid` the table as it stands when the
/// last vote lands: in a symmetric round — no vote, or every vote, on
/// the active card — every voter gains exactly two points and the
/// active player none; in a split round the active player gains exactly
/// three.
pub proof fn lemma_resolved_round_scores(
    pre: RoomState,
    post: RoomState,
    name: Seq<char>,
    card: String,
    outs: Seq<Outgoing>,
)
    requires
        pre.wf(),
        pre.stage is Voting,
        client_msg_rel(pre, post, name, ClientMsg::Vote { card }, outs),
        post.stage is Results,
    ensures
        ({
            let mid = voted_set(pre.players@, pre.ix_of(name), card);
            let ac = card_of(mid[pre.active_ix()]);
            &&& (votes_for(mid, ac) == 0 || votes_for(mid, ac) == votes_cast(mid)) ==> {
                &&& post.players@[pre.active_ix()].info.points == pre.players@[
                    pre.active_ix()
                ].info.points
                &&& forall|k: int|
                    0 <= k < pre.players@.len() && k != pre.active_ix() ==> (
                    #[trigger] post.players@[k]).info.points == pre.players@[k].info.points + 2
            }
            &&& (0 < votes_for(mid, ac) < votes_cast(mid)) ==> post.players@[
                pre.active_ix()
            ].info.points == pre.players@[pre.active_ix()].info.points + 3
        }),
{
    let i = pre.ix_of(name);
    let mid = voted_set(pre.players@, i, card);
    let ac = card_of(mid[pre.active_ix()]);
    assert(pre.has_player(name));
    lemma_votes_for_le_cast(mid, ac);
    if votes_for(mid, ac) == 0 || votes_for(mid, ac) == votes_cast(mid) {
        assert forall|k: int| 0 <= k < pre.players@.len() implies delta(mid, pre.active_ix(), k)
            == if k == pre.active_ix() { 0int } else { 2int } by {
            lemma_symmetric_failure(mid, pre.active_ix(), k);
        }
    } else {
        lemma_split_vote_active_gain(mid, pre.active_ix());
    }
}

/// Law: a player who disconnects after the game has started and then
/// rejoins under the same name comes back to exactly the seats they
/// left: the whole table, their hand, points, submission and vote
/// included, round-trips unchanged.
pub proof fn lemma_reconnect_round_trip(
    s0: RoomState,
    s1: RoomState,
    s2: RoomState,
    name: Seq<char>,
    i: int,
)
    requires
        s0.wf(),
        !(s0.stage is Joining),
        0 <= i < s0.players@.len(),
        s0.players@[i].name@ == name,
        s0.players@[i].info.connected,
        // what `on_disconnect` leaves behind
        s1.players@ == s0.players@.update(
            i,
            (Player {
                info: (PlayerInfo { connected: false, ..s0.players@[i].info }),
                ..s0.players@[i]
            }),
        ),
        // what `attempt_join` does on the reconnection path
        s2.rejoined(s1, i),
    ensures
        s2.players@ == s0.players@,
        s2.players@[i].hand == s0.players@[i].hand,
        s2.players@[i].info.points == s0.players@[i].info.points,
        s2.players@[i].current_card == s0.players@[i].current_card,
        s2.players@[i].vote == s0.players@[i].vote,
{
    assert(s2.players@ =~= s0.players@);
}

/// The card identifiers a player holds: the hand plus the card they have
/// placed in the center, as a multiset of identifier views.
pub open spec fn held_cards(p: Player) -> Multiset<Seq<char>> {
    p.hand@.map_values(|c: String| c@).to_multiset().add(
        match p.current_card {
            Some(c) => Multiset::singleton(c@),
            None => Multiset::empty(),
        },
    )
}

/// The card identifiers held around the table.
pub open spec fn table_cards(ps: Seq<Player>) -> Multiset<Seq<char>>
    decreases ps.len(),
{
    if ps.len() == 0 {
        Multiset::empty()
    } else {
        table_cards(ps.drop_last()).add(held_cards(ps.last()))
    }
}

/// The card identifiers sitting in the center: each seat's submission,
/// if any. These are the cards a round retires when the next one starts.
pub open spec fn center_cards(ps: Seq<Player>) -> Multiset<Seq<char>>
    decreases ps.len(),
{
    if ps.len() == 0 {
        Multiset::empty()
    } else {
        center_cards(ps.drop_last()).add(
            match ps.last().current_card {
                Some(c) => Multiset::singleton(c@),
                None => Multiset::empty(),
            },
        )
    }
}

/// Every card identifier a room owns: the deck plus what the table holds.
pub open spec fn room_cards(s: RoomState) -> Multiset<Seq<char>> {
    s.deck@.map_values(|c: String| c@).to_multiset().add(table_cards(s.players@))
}

/// The rooms invariant on card identity: no identifier occurs twice, so a
/// card sits in at most one of the deck, one hand, or the center.
pub open spec fn cards_distinct(s: RoomState) -> bool {
    forall|c: Seq<char>| #![trigger room_cards(s).count(c)] room_cards(s).count(c) <= 1
}

/// Two tables whose seats hold the same cards have the same card
/// multiset, whatever else differs about the players.
pub proof fn lemma_table_congruence(a: Seq<Player>, b: Seq<Player>)
    requires
        a.len() == b.len(),
        forall|i: int| 0 <= i < a.len() ==> held_cards(a[i]) == held_cards(b[i]),
    ensures
        table_cards(a) == table_cards(b),
    decreases a.len(),
{
    if a.len() > 0 {
        assert forall|i: int|
            0 <= i < a.drop_last().len() implies held_cards(a.drop_last()[i]) == held_cards(
            b.drop_last()[i],
        ) by {
            assert(a.drop_last()[i] == a[i]);
            assert(b.drop_last()[i] == b[i]);
        }
        lemma_table_congruence(a.drop_last(), b.drop_last());
        assert(held_cards(a.last()) == held_cards(b.last()));
    }
}

/// Taking a card out of a hand takes exactly one occurrence of its view
/// out of the hand's card multiset.
pub proof fn lemma_hand_views_remove(hand: Seq<String>, h: int)
    requires
        0 <= h < hand.len(),
    ensures
        hand.remove(h).map_values(|c: String| c@).to_multiset() == hand.map_values(
            |c: String| c@,
        ).to_multiset().remove(hand[h]@),
{
    broadcast use vstd::seq_lib::group_to_multiset_ensures;

    assert(hand.remove(h).map_values(|c: String| c@) =~= hand.map_values(
        |c: String| c@,
    ).remove(h));
    assert(hand.map_values(|c: String| c@)[h] == hand[h]@);
}

/// Two tables whose seats hold the same submissions have the same center
/// multiset, whatever else differs about the players.
pub proof fn lemma_center_congruence(a: Seq<Player>, b: Seq<Player>)
    requires
        a.len() == b.len(),
        forall|i: int| 0 <= i < a.len() ==> a[i].current_card == (#[trigger] b[i]).current_card,
    ensures
        center_cards(a) == center_cards(b),
    decreases a.len(),
{
    if a.len() > 0 {
        assert forall|i: int|
            0 <= i < a.drop_last().len() implies a.drop_last()[i].current_card == (
        #[trigger] b.drop_last()[i]).current_card by {
            assert(a.drop_last()[i] == a[i]);
            assert(b.drop_last()[i] == b[i]);
        }
        lemma_center_congruence(a.drop_last(), b.drop_last());
        assert(a.last().current_card == b.last().current_card);
    }
}

/// Clearing the center splits a table's cards exactly: what the cleared
/// seats hold plus the retired submissions is what the seats held before.
pub proof fn lemma_table_center_count(a: Seq<Player>, b: Seq<Player>, c: Seq<char>)
    requires
        a.len() == b.len(),
        forall|i: int|
            0 <= i < a.len() ==> (#[trigger] b[i]).hand == a[i].hand && b[i].current_card is None,
    ensures
        table_cards(b).count(c) + center_cards(a).count(c) == table_cards(a).count(c),
    decreases a.len(),
{
    broadcast use vstd::multiset::group_multiset_axioms;

    if a.len() > 0 {
        assert forall|i: int|
            0 <= i < a.drop_last().len() implies (#[trigger] b.drop_last()[i]).hand
            == a.drop_last()[i].hand && b.drop_last()[i].current_card is None by {
            assert(a.drop_last()[i] == a[i]);
            assert(b.drop_last()[i] == b[i]);
        }
        lemma_table_center_count(a.drop_last(), b.drop_last(), c);
        assert(b.last() == b[a.len() - 1]);
        assert(a.last() == a[a.len() - 1]);
        assert(held_cards(b.last()).count(c) + (match a.last().current_card {
            Some(cc) => Multiset::singleton(cc@),
            None => Multiset::empty(),
        }).count(c) == held_cards(a.last()).count(c));
    }
}

pub proof fn lemma_table_update(ps: Seq<Player>, i: int, p: Player)
    requires
        0 <= i < ps.len(),
    ensures
        table_cards(ps.update(i, p)).add(held_cards(ps[i])) == table_cards(ps).add(held_cards(p)),
    decreases ps.len(),
{
    broadcast use vstd::multiset::group_multiset_axioms;

    let u = ps.update(i, p);
    if i == ps.len() - 1 {
        assert(u.drop_last() =~= ps.drop_last());
        assert(u.last() == p);
        assert(ps.last() == ps[i]);
        assert(table_cards(u).add(held_cards(ps[i])) =~= table_cards(ps).add(held_cards(p)));
    } else {
        assert(u.drop_last() =~= ps.drop_last().update(i, p));
        assert(u.last() == ps.last());
        lemma_table_update(ps.drop_last(), i, p);
        assert(ps.drop_last()[i] == ps[i]);
        assert(table_cards(u) == table_cards(ps.drop_last().update(i, p)).add(
            held_cards(ps.last()),
        ));
        assert(table_cards(ps) == table_cards(ps.drop_last()).add(held_cards(ps.last())));
        assert forall|c: Seq<char>|
            table_cards(u).add(held_cards(ps[i])).count(c) == table_cards(ps).add(
                held_cards(p),
            ).count(c) by {
            assert(table_cards(ps.drop_last().update(i, p)).add(
                held_cards(ps.drop_last()[i]),
            ).count(c) == table_cards(ps.drop_last()).add(held_cards(p)).count(c));
        }
        assert(table_cards(u).add(held_cards(ps[i])) =~= table_cards(ps).add(held_cards(p)));
    }
}

pub proof fn lemma_table_push(ps: Seq<Player>, p: Player)
    ensures
        table_cards(ps.push(p)) == table_cards(ps).add(held_cards(p)),
{
    broadcast use vstd::multiset::group_multiset_axioms;

    assert(ps.push(p).drop_last() =~= ps);
    assert(ps.push(p).last() == p);
}

pub proof fn lemma_table_remove(ps: Seq<Player>, i: int)
    requires
        0 <= i < ps.len(),
    ensures
        table_cards(ps.remove(i)).add(held_cards(ps[i])) == table_cards(ps),
    decreases ps.len(),
{
    broadcast use vstd::multiset::group_multiset_axioms;

    let r = ps.remove(i);
    if i == ps.len() - 1 {
        assert(r =~= ps.drop_last());
        assert(ps.last() == ps[i]);
    } else {
        assert(r.drop_last() =~= ps.drop_last().remove(i));
        assert(r.last() == ps.last());
        lemma_table_remove(ps.drop_last(), i);
        assert(ps.drop_last()[i] == ps[i]);
        assert(table_cards(r).add(held_cards(ps[i])) =~= table_cards(ps));
    }
}

/// Seqs with the same multiset keep the same multiset after mapping.
pub proof fn lemma_views_ms_permutation(a: Seq<String>, b: Seq<String>)
    requires
        a.to_multiset() == b.to_multiset(),
    ensures
        a.map_values(|c: String| c@).to_multiset() == b.map_values(|c: String| c@).to_multiset(),
    decreases a.len(),
{
    broadcast use vstd::seq_lib::group_to_multiset_ensures;

    if a.len() == 0 {
        assert(a.to_multiset().len() == 0);
        assert(b.to_multiset().len() == b.len());
        assert(b.len() == 0);
        assert(a.map_values(|c: String| c@).to_multiset() =~= b.map_values(
            |c: String| c@,
        ).to_multiset());
    } else {
        let x = a.last();
        assert(a.contains(x));
        assert(b.to_multiset().count(x) > 0);
        assert(b.contains(x));
        let j = choose|j: int| 0 <= j < b.len() && b[j] == x;
        let b2 = b.remove(j);
        assert(a.drop_last().to_multiset() =~= b2.to_multiset()) by {
            assert(a.drop_last() =~= a.remove(a.len() - 1));
            assert(a.drop_last().to_multiset() =~= a.to_multiset().remove(x));
            assert(b2.to_multiset() =~= b.to_multiset().remove(x));
        }
        lemma_views_ms_permutation(a.drop_last(), b2);
        assert(a.map_values(|c: String| c@) =~= a.drop_last().map_values(|c: String| c@).push(x@));
        assert(b2.map_values(|c: String| c@) =~= b.map_values(|c: String| c@).remove(j));
        assert(b.map_values(|c: String| c@)[j] == x@);
        assert(b2.map_values(|c: String| c@).to_multiset() =~= b.map_values(
            |c: String| c@,
        ).to_multiset().remove(x@));
        assert(a.map_values(|c: String| c@).to_multiset() =~= a.drop_last().map_values(
            |c: String| c@,
        ).to_multiset().insert(x@));
        assert(a.map_values(|c: String| c@).to_multiset() =~= b.map_values(
            |c: String| c@,
        ).to_multiset());
    }
}

/// Law: a fresh room over a duplicate-free catalog satisfies the card
/// invariant — every identifier sits in the deck once and nowhere else.
pub proof fn lemma_new_room_cards_distinct(s: RoomState)
    requires
        s.players@.len() == 0,
        forall|i: int, j: int| 0 <= i < j < s.deck@.len() ==> s.deck@[i]@ != s.deck@[j]@,
    ensures
        cards_distinct(s),
{
    broadcast use vstd::multiset::group_multiset_axioms;
    broadcast use vstd::seq_lib::group_to_multiset_ensures;

    let views = s.deck@.map_values(|c: String| c@);
    assert(views.no_duplicates());
    views.lemma_multiset_has_no_duplicates();
    assert forall|c: Seq<char>| #![trigger room_cards(s).count(c)] room_cards(s).count(c)
        <= 1 by {
        assert(table_cards(s.players@) == Multiset::<Seq<char>>::empty());
        if views.to_multiset().count(c) > 0 {
            assert(views.to_multiset().contains(c));
        }
    }
}

/// A state with the same deck and the same table as a distinct-card
/// state has distinct cards.
proof fn lemma_same_cards_distinct(pre: RoomState, post: RoomState)
    requires
        cards_distinct(pre),
        post.deck == pre.deck,
        table_cards(post.players@) == table_cards(pre.players@),
    ensures
        cards_distinct(post),
{
    assert forall|c: Seq<char>| #![trigger room_cards(post).count(c)] room_cards(post).count(c)
        <= 1 by {
        assert(room_cards(post) == room_cards(pre));
    }
}

/// Law: a reconnection keeps the card invariant — nothing but a flag
/// changes hands.
pub proof fn lemma_rejoin_preserves_cards_distinct(pre: RoomState, post: RoomState, i: int)
    requires
        cards_distinct(pre),
        post.rejoined(pre, i),
    ensures
        cards_distinct(post),
{
    assert forall|j: int|
        0 <= j < post.players@.len() implies held_cards(post.players@[j]) == held_cards(
        pre.players@[j],
    ) by {
        assert(post.players@[j].hand == pre.players@[j].hand);
    }
    lemma_table_congruence(post.players@, pre.players@);
    lemma_same_cards_distinct(pre, post);
}

/// Law: seating a newcomer keeps the card invariant — they arrive with
/// no cards.
pub proof fn lemma_fresh_join_preserves_cards_distinct(
    pre: RoomState,
    post: RoomState,
    name: Seq<char>,
)
    requires
        cards_distinct(pre),
        post.joined_fresh(pre, name),
    ensures
        cards_distinct(post),
{
    broadcast use vstd::multiset::group_multiset_axioms;
    broadcast use vstd::seq_lib::group_to_multiset_ensures;

    let p = post.players@.last();
    assert(held_cards(p) =~= Multiset::<Seq<char>>::empty()) by {
        assert(p.hand@.map_values(|c: String| c@) =~= Seq::<Seq<char>>::empty());
    }
    assert(post.players@ =~= pre.players@.push(p));
    lemma_table_push(pre.players@, p);
    assert forall|c: Seq<char>| #![trigger room_cards(post).count(c)] room_cards(post).count(c)
        <= 1 by {
        assert(room_cards(post).count(c) == room_cards(pre).count(c));
    }
}

/// Law: a player leaving keeps the card invariant — a removed seat can
/// only take cards away, a kept seat only flips its connected flag.
pub proof fn lemma_disconnect_preserves_cards_distinct(
    pre: RoomState,
    post: RoomState,
    name: Seq<char>,
)
    requires
        pre.wf(),
        cards_distinct(pre),
        pre.stage is Joining ==> ((exists|i: int|
            0 <= i < pre.players@.len() && pre.players@[i].name@ == name && post.players@
                == pre.players@.remove(i)) || post.players@ == pre.players@),
        !(pre.stage is Joining) ==> ((exists|i: int|
            #![trigger pre.players@[i]]
            0 <= i < pre.players@.len() && pre.players@[i].name@ == name && post.players@
                == pre.players@.update(
                i,
                (Player {
                    info: (PlayerInfo { connected: false, ..pre.players@[i].info }),
                    ..pre.players@[i]
                }),
            )) || post.players@ == pre.players@),
        post.same_but_players(pre),
    ensures
        cards_distinct(post),
{
    broadcast use vstd::multiset::group_multiset_axioms;

    if post.players@ == pre.players@ {
        assert forall|c: Seq<char>| #![trigger room_cards(post).count(c)] room_cards(post).count(
            c,
        ) <= 1 by {
            assert(room_cards(post).count(c) == room_cards(pre).count(c));
        }
    } else if pre.stage is Joining {
        let i = choose|i: int|
            0 <= i < pre.players@.len() && pre.players@[i].name@ == name && post.players@
                == pre.players@.remove(i);
        lemma_table_remove(pre.players@, i);
        assert forall|c: Seq<char>| #![trigger room_cards(post).count(c)] room_cards(post).count(
            c,
        ) <= 1 by {
            assert(table_cards(post.players@).add(held_cards(pre.players@[i])).count(c)
                == table_cards(post.players@).count(c) + held_cards(pre.players@[i]).count(c));
            assert(room_cards(post).count(c) <= room_cards(pre).count(c));
        }
    } else {
        let i = choose|i: int|
            #![trigger pre.players@[i]]
            0 <= i < pre.players@.len() && pre.players@[i].name@ == name && post.players@
                == pre.players@.update(
                i,
                (Player {
                    info: (PlayerInfo { connected: false, ..pre.players@[i].info }),
                    ..pre.players@[i]
                }),
            );
        assert forall|j: int|
            0 <= j < post.players@.len() implies held_cards(post.players@[j]) == held_cards(
            pre.players@[j],
        ) by {
            assert(post.players@[j].hand == pre.players@[j].hand);
        }
        lemma_table_congruence(post.players@, pre.players@);
        lemma_same_cards_distinct(pre, post);
    }
}

/// Law: handling any client message keeps the card invariant. Cards only
/// move — from hand to center on a submission (swapping back any earlier
/// one) and from the deck into the hands when a round starts — and
/// leave play when the round's submissions are retired, so an identifier
/// never ends up in two places.
pub proof fn lemma_msg_preserves_cards_distinct(
    pre: RoomState,
    post: RoomState,
    name: Seq<char>,
    msg: ClientMsg,
    outs: Seq<Outgoing>,
)
    requires
        pre.wf(),
        cards_distinct(pre),
        client_msg_rel(pre, post, name, msg, outs),
    ensures
        cards_distinct(post),
{
    broadcast use vstd::multiset::group_multiset_axioms;
    broadcast use vstd::seq_lib::group_to_multiset_ensures;

    if post == pre {
        assert forall|c: Seq<char>| #![trigger room_cards(post).count(c)] room_cards(post).count(
            c,
        ) <= 1 by {
            assert(room_cards(post).count(c) == room_cards(pre).count(c));
        }
    } else {
        match msg {
            ClientMsg::Ready {  } => {
                let i = pre.ix_of(name);
                let mid = ready_set(pre.players@, i);
                let quorum = count_ready(mid) == mid.len() && mid.len() >= MIN_PLAYERS;
                if quorum && cards_needed(mid) <= pre.deck@.len() {
                    assert(round_start_rel(pre, post, outs.skip(1)));
                    assert forall|c: Seq<char>|
                        #![trigger room_cards(post).count(c)]
                        room_cards(post).count(c) <= 1 by {
                        assert(room_cards(post).count(c) <= room_cards(pre).count(c));
                    }
                } else {
                    assert forall|j: int|
                        0 <= j < post.players@.len() implies held_cards(post.players@[j])
                        == held_cards(pre.players@[j]) by {
                        assert(post.players@[j].hand == pre.players@[j].hand);
                    }
                    lemma_table_congruence(post.players@, pre.players@);
                    lemma_same_cards_distinct(pre, post);
                }
            },
            ClientMsg::ActivePlayerChooseCard { card, description } => {
                let i = pre.active_ix();
                let hand = pre.players@[i].hand@;
                let h = choose|h: int|
                    0 <= h < hand.len() && hand[h]@ == card@ && post.players@[i].hand@
                        == hand.remove(h);
                lemma_hand_views_remove(hand, h);
                assert(held_cards(post.players@[i]) =~= held_cards(pre.players@[i])) by {
                    assert(pre.players@[i].current_card is None);
                    assert(hand.map_values(|c: String| c@).to_multiset().count(hand[h]@) > 0) by {
                        assert(hand.map_values(|c: String| c@)[h] == hand[h]@);
                        assert(hand.map_values(|c: String| c@).contains(hand[h]@));
                    }
                }
                assert forall|j: int|
                    0 <= j < post.players@.len() implies held_cards(post.players@[j])
                    == held_cards(pre.players@[j]) by {
                    if j != i {
                        assert(post.players@[j].hand == pre.players@[j].hand);
                    }
                }
                lemma_table_congruence(post.players@, pre.players@);
                lemma_same_cards_distinct(pre, post);
            },
            ClientMsg::PlayerChooseCard { card } => {
                let i = pre.ix_of(name);
                let hand = pre.players@[i].hand@;
                let h = choose|h: int|
                    0 <= h < hand.len() && hand[h]@ == card@ && post.players@[i].hand@ == (
                    match pre.players@[i].current_card {
                        Some(c0) => hand.remove(h).push(c0),
                        None => hand.remove(h),
                    });
                lemma_hand_views_remove(hand, h);
                assert(hand.map_values(|c: String| c@).to_multiset().count(hand[h]@) > 0) by {
                    assert(hand.map_values(|c: String| c@)[h] == hand[h]@);
                    assert(hand.map_values(|c: String| c@).contains(hand[h]@));
                }
                assert(held_cards(post.players@[i]) =~= held_cards(pre.players@[i])) by {
                    match pre.players@[i].current_card {
                        Some(c0) => {
                            assert(post.players@[i].hand@.map_values(|c2: String| c2@)
                                =~= hand.remove(h).map_values(|c2: String| c2@).push(c0@));
                        },
                        None => {},
                    }
                }
                assert forall|j: int|
                    0 <= j < post.players@.len() implies held_cards(post.players@[j])
                    == held_cards(pre.players@[j]) by {
                    if j != i {
                        assert(post.players@[j].hand == pre.players@[j].hand);
                    }
                }
                lemma_table_congruence(post.players@, pre.players@);
                lemma_same_cards_distinct(pre, post);
            },
            ClientMsg::Vote { card } => {
                let i = pre.ix_of(name);
                let mid = voted_set(pre.players@, i, card);
                assert forall|j: int|
                    0 <= j < post.players@.len() implies held_cards(post.players@[j])
                    == held_cards(pre.players@[j]) by {
                    assert(mid[j].hand == pre.players@[j].hand);
                    assert(post.players@[j].hand == mid[j].hand);
                }
                lemma_table_congruence(post.players@, pre.players@);
                lemma_same_cards_distinct(pre, post);
            },
            _ => {},
        }
    }
}

} // verus!
