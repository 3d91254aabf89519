//! One online table: its lobby, its match, and what it tells each
//! connection. The room is driven one event at a time (a connection joins,
//! a message arrives, a connection drops, a deadline passes); each step
//! returns the messages to send. Sockets, clocks and timers belong to the
//! caller, which hands in the current time in milliseconds.

use vstd::prelude::*;
use vstd::string::*;
use crate::action::Action;
use crate::bot::Difficulty;
use crate::event::Event;
use crate::names::{bot_name, make_bot_name, sanitize_name, sanitized_name};
use crate::protocol::{ClientMsg, Emote, ErrorCode, LobbySeat, LobbyState, ServerMsg};
use crate::state::{MatchConfig, MatchState, Phase, Seat, SeatConfig, SeatKind};
use crate::view::{is_view_of, lemma_view_never_leaks, shows, viewer_seat, visible, PlayerView, Viewer};
use crate::apply::applied;
use crate::model::{dealt_from, is_fresh_deal, rule_error};
use crate::card::standard_deck_spec;
use crate::rng::seeded_shuffle;
use crate::wellformed::lemma_fresh_deal_discard;

verus! {

/// Identifies one connection within a room. Stable across seat removals,
/// unlike seat indices.
pub type ConnId = u64;

/// Seats at a table, bots included.
pub const MAX_SEATS: usize = 4;

/// A seat's emotes closer together than this are dropped.
pub const EMOTE_COOLDOWN_MS: u64 = 1500;

/// How long a player who drops out of the lobby keeps their seat.
pub const LOBBY_GRACE_MS: u64 = 60000;

/// The difficulty of the bot that takes over a seat kicked mid-game.
pub open spec fn takeover_difficulty() -> Difficulty {
    Difficulty::Medium
}

/// Delays the room waits for.
#[derive(Debug, Clone, Copy, PartialEq, Eq, Structural)]
pub struct RoomTiming {
    /// Pause before each bot sub-action, so watching humans can follow.
    pub bot_step_ms: u64,
    /// A room with no connections left is closed after this long.
    pub gc_ms: u64,
}

#[derive(Debug)]
pub struct SeatSlot {
    pub name: String,
    /// `Some` for a bot seat.
    pub difficulty: Option<Difficulty>,
    /// Session token a human uses to reclaim this seat after a disconnect.
    pub token: Option<String>,
    pub conn_id: Option<ConnId>,
    /// When a player dropped out of the lobby (their seat is held for a while).
    pub away_since: Option<u64>,
    /// When this seat's last emote went out.
    pub last_emote: Option<u64>,
}

/// A message and the connections it goes to.
#[derive(Debug)]
pub struct Outbound {
    pub to: Vec<ConnId>,
    pub msg: ServerMsg,
}

#[derive(Debug)]
pub struct Room {
    pub code: String,
    pub seats: Vec<SeatSlot>,
    pub game: Option<MatchState>,
    pub next_conn_id: ConnId,
    /// When the bot whose turn it is acts next.
    pub bot_at: Option<u64>,
    /// When the room checks whether anyone is still connected.
    pub gc_at: Option<u64>,
    pub timing: RoomTiming,
}

// ---------------------------------------------------------------------------
// Who is connected.

/// The seats that have a connection, in seat order.
pub open spec fn connected(seats: Seq<SeatSlot>) -> Seq<int>
    decreases seats.len(),
{
    if seats.len() == 0 {
        Seq::empty()
    } else {
        let rest = connected(seats.drop_last());
        if seats.last().conn_id is Some {
            rest.push(seats.len() - 1)
        } else {
            rest
        }
    }
}

/// The connections of those seats, in seat order.
pub open spec fn conns_of(seats: Seq<SeatSlot>) -> Seq<ConnId>
    decreases seats.len(),
{
    if seats.len() == 0 {
        Seq::empty()
    } else {
        let rest = conns_of(seats.drop_last());
        match seats.last().conn_id {
            Some(c) => rest.push(c),
            None => rest,
        }
    }
}

/// The first seat bound to connection `conn`.
pub open spec fn seat_with_conn(seats: Seq<SeatSlot>, conn: ConnId) -> Option<int>
    decreases seats.len(),
{
    if seats.len() == 0 {
        None
    } else {
        match seat_with_conn(seats.drop_last(), conn) {
            Some(i) => Some(i),
            None => if seats.last().conn_id == Some(conn) {
                Some(seats.len() - 1)
            } else {
                None
            },
        }
    }
}

/// The first seat holding session token `token`.
pub open spec fn seat_with_token(seats: Seq<SeatSlot>, token: Seq<char>) -> Option<int>
    decreases seats.len(),
{
    if seats.len() == 0 {
        None
    } else {
        match seat_with_token(seats.drop_last(), token) {
            Some(i) => Some(i),
            None => if seats.last().token matches Some(t) && t@ == token {
                Some(seats.len() - 1)
            } else {
                None
            },
        }
    }
}

/// How many seats are bots.
pub open spec fn bot_count(seats: Seq<SeatSlot>) -> nat
    decreases seats.len(),
{
    if seats.len() == 0 {
        0
    } else {
        bot_count(seats.drop_last()) + if seats.last().difficulty is Some {
            1nat
        } else {
            0nat
        }
    }
}

/// No seat has a connection.
pub open spec fn nobody_connected(seats: Seq<SeatSlot>) -> bool {
    forall|i: int| 0 <= i < seats.len() ==> (#[trigger] seats[i]).conn_id is None
}

pub proof fn lemma_connected(seats: Seq<SeatSlot>)
    ensures
        connected(seats).len() == conns_of(seats).len(),
        forall|k: int|
            0 <= k < connected(seats).len() ==> {
                &&& 0 <= #[trigger] connected(seats)[k] < seats.len()
                &&& seats[connected(seats)[k]].conn_id == Some(conns_of(seats)[k])
            },
        forall|k: int, l: int|
            0 <= k < l < connected(seats).len() ==> connected(seats)[k] < connected(seats)[l],
        nobody_connected(seats) <==> connected(seats).len() == 0,
    decreases seats.len(),
{
    if seats.len() > 0 {
        let d = seats.drop_last();
        lemma_connected(d);
        if connected(seats).len() == 0 {
            assert(seats.last().conn_id is None);
            assert forall|i: int| 0 <= i < seats.len() implies (#[trigger] seats[i]).conn_id is None by {
                if i < seats.len() - 1 {
                    assert(d[i] == seats[i]);
                }
            }
        }
        if nobody_connected(seats) {
            assert(seats[seats.len() - 1].conn_id is None);
            assert forall|i: int| 0 <= i < d.len() implies (#[trigger] d[i]).conn_id is None by {
                assert(d[i] == seats[i]);
            }
        }
    }
}

pub proof fn lemma_seat_with_conn(seats: Seq<SeatSlot>, conn: ConnId)
    ensures
        seat_with_conn(seats, conn) matches Some(i) ==> {
            &&& 0 <= i < seats.len()
            &&& seats[i].conn_id == Some(conn)
            &&& forall|j: int| 0 <= j < i ==> (#[trigger] seats[j]).conn_id != Some(conn)
        },
        seat_with_conn(seats, conn) is None ==> forall|j: int|
            0 <= j < seats.len() ==> (#[trigger] seats[j]).conn_id != Some(conn),
    decreases seats.len(),
{
    if seats.len() > 0 {
        lemma_seat_with_conn(seats.drop_last(), conn);
        assert forall|j: int| 0 <= j < seats.len() - 1 implies seats.drop_last()[j] == #[trigger] seats[j] by {}
    }
}

pub proof fn lemma_seat_with_token(seats: Seq<SeatSlot>, token: Seq<char>)
    ensures
        seat_with_token(seats, token) matches Some(i) ==> (0 <= i < seats.len() && (seats[i].token matches Some(
            t,
        ) && t@ == token)),
        seat_with_token(seats, token) is None <==> forall|j: int|
            0 <= j < seats.len() ==> !((#[trigger] seats[j]).token matches Some(t) && t@ == token),
    decreases seats.len(),
{
    if seats.len() > 0 {
        let d = seats.drop_last();
        lemma_seat_with_token(d, token);
        assert forall|j: int| 0 <= j < d.len() implies d[j] == #[trigger] seats[j] by {}
        if seat_with_token(seats, token) is None {
            assert forall|j: int| 0 <= j < seats.len() implies !((#[trigger] seats[j]).token matches Some(
                t,
            ) && t@ == token) by {
                if j < d.len() {
                    assert(d[j] == seats[j]);
                }
            }
        }
    }
}

// ---------------------------------------------------------------------------
// What the room sends.

/// `o` goes to connection `conn` alone.
pub open spec fn to_one(o: Outbound, conn: ConnId) -> bool {
    o.to@ == seq![conn]
}

/// `o` tells `conn` of error `code`, with the code's name as its message.
pub open spec fn error_sent(o: Outbound, conn: ConnId, code: ErrorCode) -> bool {
    &&& to_one(o, conn)
    &&& o.msg matches ServerMsg::Error { code: c, message } && c == code && message@ == code.name_spec()
}

impl Room {
    /// A match is under way (the lobby is closed).
    pub open spec fn started(&self) -> bool {
        self.game matches Some(g) && !(g.phase is MatchComplete)
    }

    pub open spec fn wf(&self) -> bool {
        &&& self.seats@.len() <= MAX_SEATS
        &&& self.game matches Some(g) ==> g.wf()
    }

    /// It is a bot seat's turn.
    pub open spec fn bot_up(&self) -> bool {
        &&& self.game matches Some(g)
        &&& g.phase is Playing
        &&& (g.hole.current as int) < self.seats@.len()
        &&& self.seats@[g.hole.current as int].difficulty is Some
    }

    /// When the bot acts next, from `now`: after the bot delay if a bot is up.
    pub open spec fn bot_deadline(&self, now: u64) -> Option<u64> {
        if self.bot_up() {
            Some(now.saturating_add(self.timing.bot_step_ms))
        } else {
            None
        }
    }
}

/// `ls` is the lobby as seat `you` sees it in room `r`.
pub open spec fn lobby_ok(ls: LobbyState, r: Room, you: int) -> bool {
    &&& ls.code@ == r.code@
    &&& ls.seats@.len() == r.seats@.len()
    &&& forall|i: int|
        0 <= i < r.seats@.len() ==> {
            &&& (#[trigger] ls.seats@[i]).name@ == r.seats@[i].name@
            &&& ls.seats@[i].difficulty == r.seats@[i].difficulty
            &&& ls.seats@[i].connected == (r.seats@[i].conn_id is Some || r.seats@[i].difficulty is Some)
        }
    &&& ls.host == 0
    &&& ls.you == you as Seat
    &&& ls.started == r.started()
}

/// `out` gives every connected seat of `r`, in seat order, its own lobby.
pub open spec fn lobby_sent(out: Seq<Outbound>, r: Room) -> bool {
    let cs = connected(r.seats@);
    &&& out.len() == cs.len()
    &&& forall|k: int|
        0 <= k < cs.len() ==> {
            &&& to_one(#[trigger] out[k], r.seats@[cs[k]].conn_id->Some_0)
            &&& out[k].msg matches ServerMsg::Lobby { state } && lobby_ok(state, r, cs[k])
        }
}

/// `o` gives seat `seat`'s connection its view of `r`'s match.
pub open spec fn state_sent(o: Outbound, r: Room, seat: int) -> bool {
    &&& to_one(o, r.seats@[seat].conn_id->Some_0)
    &&& o.msg matches ServerMsg::State { view } && is_view_of(&r.game->Some_0, Viewer::Seat(seat as Seat), &view)
}

/// `out` tells every connected seat of `r` the public `events` (if any) and
/// then gives each its own view of the match.
pub open spec fn game_sent(out: Seq<Outbound>, r: Room, events: Seq<Event>) -> bool {
    let cs = connected(r.seats@);
    let k0: int = if events.len() > 0 {
        1
    } else {
        0
    };
    &&& out.len() == k0 + cs.len()
    &&& events.len() > 0 ==> (out[0].to@ == conns_of(r.seats@) && (out[0].msg matches ServerMsg::Events {
        events: e,
    } && e@ == events))
    &&& forall|k: int| 0 <= k < cs.len() ==> state_sent(out[k0 + k], r, #[trigger] cs[k])
}

// ---------------------------------------------------------------------------
// Building messages.

fn error_to(conn: ConnId, code: ErrorCode) -> (o: Outbound)
    ensures
        error_sent(o, conn, code),
{
    let mut to: Vec<ConnId> = Vec::new();
    to.push(conn);
    assert(to@ == seq![conn]);
    Outbound { to, msg: ServerMsg::Error { code, message: String::from_str(code.name()) } }
}

fn one(conn: ConnId, msg: ServerMsg) -> (o: Outbound)
    ensures
        to_one(o, conn),
        o.msg == msg,
{
    let mut to: Vec<ConnId> = Vec::new();
    to.push(conn);
    assert(to@ == seq![conn]);
    Outbound { to, msg }
}

impl Room {
    /// A fresh, empty room. Its garbage-collection check is due after the
    /// configured delay.
    pub fn new(code: String, timing: RoomTiming, now: u64) -> (r: Room)
        ensures
            r.wf(),
            r.code@ == code@,
            r.seats@.len() == 0,
            r.game is None,
            r.next_conn_id == 1,
            r.bot_at is None,
            r.gc_at == Some(now.saturating_add(timing.gc_ms)),
            r.timing == timing,
    {
        Room {
            code,
            seats: Vec::new(),
            game: None,
            next_conn_id: 1,
            bot_at: None,
            gc_at: Some(now.saturating_add(timing.gc_ms)),
            timing,
        }
    }

    pub fn started_now(&self) -> (b: bool)
        ensures
            b == self.started(),
    {
        match &self.game {
            Some(g) => match g.phase {
                Phase::MatchComplete { .. } => false,
                _ => true,
            },
            None => false,
        }
    }

    /// The seat bound to connection `conn`, if any.
    pub fn seat_of(&self, conn: ConnId) -> (r: Option<Seat>)
        requires
            self.wf(),
        ensures
            r == (match seat_with_conn(self.seats@, conn) {
                Some(i) => Some(i as Seat),
                None => None::<Seat>,
            }),
    {
        let mut i: usize = 0;
        while i < self.seats.len()
            invariant
                i <= self.seats@.len() <= MAX_SEATS,
                seat_with_conn(self.seats@.take(i as int), conn) is None,
            decreases self.seats@.len() - i,
        {
            assert(self.seats@.take(i + 1).drop_last() == self.seats@.take(i as int));
            if self.seats[i].conn_id == Some(conn) {
                assert(seat_with_conn(self.seats@.take(i + 1), conn) == Some(i as int));
                proof {
                    lemma_prefix_seat(self.seats@, conn, i + 1);
                }
                return Some(i as Seat);
            }
            i += 1;
        }
        assert(self.seats@.take(i as int) == self.seats@);
        None
    }

    /// The lobby as seat `you` sees it.
    pub fn lobby_state(&self, you: Seat) -> (ls: LobbyState)
        ensures
            lobby_ok(ls, *self, you as int),
    {
        let mut seats: Vec<LobbySeat> = Vec::new();
        let mut i: usize = 0;
        while i < self.seats.len()
            invariant
                i <= self.seats@.len(),
                seats@.len() == i,
                forall|j: int|
                    0 <= j < i ==> {
                        &&& (#[trigger] seats@[j]).name@ == self.seats@[j].name@
                        &&& seats@[j].difficulty == self.seats@[j].difficulty
                        &&& seats@[j].connected == (self.seats@[j].conn_id is Some
                            || self.seats@[j].difficulty is Some)
                    },
            decreases self.seats@.len() - i,
        {
            let s = &self.seats[i];
            seats.push(
                LobbySeat {
                    name: s.name.clone(),
                    difficulty: s.difficulty,
                    connected: s.conn_id.is_some() || s.difficulty.is_some(),
                },
            );
            i += 1;
        }
        LobbyState {
            code: self.code.clone(),
            seats,
            host: 0,
            you,
            started: self.started_now(),
        }
    }

    /// Every connected seat's lobby.
    fn lobby_broadcast(&self) -> (out: Vec<Outbound>)
        requires
            self.wf(),
        ensures
            lobby_sent(out@, *self),
    {
        let mut out: Vec<Outbound> = Vec::new();
        let mut i: usize = 0;
        while i < self.seats.len()
            invariant
                i <= self.seats@.len() <= MAX_SEATS,
                out@.len() == connected(self.seats@.take(i as int)).len(),
                forall|k: int|
                    0 <= k < out@.len() ==> {
                        let cs = connected(self.seats@.take(i as int));
                        &&& to_one(#[trigger] out@[k], self.seats@[cs[k]].conn_id->Some_0)
                        &&& out@[k].msg matches ServerMsg::Lobby { state } && lobby_ok(state, *self, cs[k])
                    },
            decreases self.seats@.len() - i,
        {
            let ghost before = self.seats@.take(i as int);
            let ghost after = self.seats@.take(i + 1);
            assert(after.drop_last() == before);
            proof {
                lemma_connected(before);
                lemma_connected(after);
            }
            match self.seats[i].conn_id {
                Some(c) => {
                    out.push(one(c, ServerMsg::Lobby { state: self.lobby_state(i as Seat) }));
                },
                None => {},
            }
            proof {
                assert forall|k: int| 0 <= k < connected(before).len() implies #[trigger] connected(after)[k]
                    == connected(before)[k] by {}
            }
            i += 1;
        }
        assert(self.seats@.take(i as int) == self.seats@);
        out
    }

    /// Every connected seat's view of the match, after the public events.
    fn game_broadcast(&self, events: Vec<Event>) -> (out: Vec<Outbound>)
        requires
            self.wf(),
            self.game is Some,
        ensures
            game_sent(out@, *self, events@),
    {
        let ghost evs = events@;
        let mut out: Vec<Outbound> = Vec::new();
        if events.len() > 0 {
            let to = self.connections();
            out.push(Outbound { to, msg: ServerMsg::Events { events } });
        }
        let ghost k0: int = if evs.len() > 0 {
            1
        } else {
            0
        };
        let game = match &self.game {
            Some(g) => g,
            None => {
                proof {
                    assert(false);
                }
                return out;
            },
        };
        let mut i: usize = 0;
        while i < self.seats.len()
            invariant
                i <= self.seats@.len() <= MAX_SEATS,
                self.game == Some(*game),
                game.wf(),
                k0 == (if evs.len() > 0 {
                    1int
                } else {
                    0int
                }),
                out@.len() == k0 + connected(self.seats@.take(i as int)).len(),
                evs.len() > 0 ==> (out@[0].to@ == conns_of(self.seats@) && (out@[0].msg matches ServerMsg::Events {
                    events: e,
                } && e@ == evs)),
                forall|k: int|
                    0 <= k < connected(self.seats@.take(i as int)).len() ==> state_sent(
                        #[trigger] out@[k0 + k],
                        *self,
                        connected(self.seats@.take(i as int))[k],
                    ),
            decreases self.seats@.len() - i,
        {
            let ghost before = self.seats@.take(i as int);
            let ghost after = self.seats@.take(i + 1);
            assert(after.drop_last() == before);
            proof {
                lemma_connected(before);
                lemma_connected(after);
            }
            match self.seats[i].conn_id {
                Some(c) => {
                    let view = game.view(Viewer::Seat(i as Seat));
                    out.push(one(c, ServerMsg::State { view }));
                },
                None => {},
            }
            proof {
                assert forall|k: int| 0 <= k < connected(before).len() implies #[trigger] connected(after)[k]
                    == connected(before)[k] by {}
            }
            i += 1;
        }
        assert(self.seats@.take(i as int) == self.seats@);
        out
    }

    /// The connections of all connected seats, in seat order.
    fn connections(&self) -> (to: Vec<ConnId>)
        ensures
            to@ == conns_of(self.seats@),
    {
        let mut to: Vec<ConnId> = Vec::new();
        let mut i: usize = 0;
        while i < self.seats.len()
            invariant
                i <= self.seats@.len(),
                to@ == conns_of(self.seats@.take(i as int)),
            decreases self.seats@.len() - i,
        {
            assert(self.seats@.take(i + 1).drop_last() == self.seats@.take(i as int));
            match self.seats[i].conn_id {
                Some(c) => to.push(c),
                None => {},
            }
            i += 1;
        }
        assert(self.seats@.take(i as int) == self.seats@);
        to
    }

    /// Sets the bot deadline for whoever is up now.
    fn schedule_bots(&mut self, now: u64)
        ensures
            final(self).bot_at == old(self).bot_deadline(now),
            final(self).code == old(self).code,
            final(self).seats == old(self).seats,
            final(self).game == old(self).game,
            final(self).next_conn_id == old(self).next_conn_id,
            final(self).gc_at == old(self).gc_at,
            final(self).timing == old(self).timing,
    {
        let up = match &self.game {
            Some(g) => match g.phase {
                Phase::Playing => {
                    let c = g.hole.current as usize;
                    c < self.seats.len() && self.seats[c].difficulty.is_some()
                },
                _ => false,
            },
            None => false,
        };
        self.bot_at = if up {
            Some(now.saturating_add(self.timing.bot_step_ms))
        } else {
            None
        };
    }
}

/// `o` binds seat `seat` of `r` to connection `conn` under session `token`.
pub open spec fn joined_sent(o: Outbound, r: Room, conn: ConnId, seat: int, token: Seq<char>) -> bool {
    &&& to_one(o, conn)
    &&& o.msg matches ServerMsg::RoomJoined { code, seat: s, token: t } && code@ == r.code@ && s == seat
        as Seat && t@ == token
}

impl Room {
    /// A new player takes the next seat, unless the match is under way or
    /// the table is full. On success the player learns their seat and
    /// session token, and everyone connected gets the new lobby.
    pub fn join(&mut self, name: &str, token: String, now: u64) -> (r: (Result<ConnId, ErrorCode>, Vec<Outbound>))
        requires
            old(self).wf(),
            old(self).next_conn_id < u64::MAX,
        ensures
            final(self).wf(),
            old(self).started() ==> r.0 == Err::<ConnId, ErrorCode>(ErrorCode::MatchAlreadyStarted)
                && r.1@.len() == 0 && *final(self) == *old(self),
            !old(self).started() && old(self).seats@.len() >= MAX_SEATS ==> r.0 == Err::<ConnId, ErrorCode>(
                ErrorCode::RoomFull,
            ) && r.1@.len() == 0 && *final(self) == *old(self),
            !old(self).started() && old(self).seats@.len() < MAX_SEATS ==> {
                let n = old(self).seats@.len() as int;
                let id = old(self).next_conn_id;
                &&& r.0 == Ok::<ConnId, ErrorCode>(id)
                &&& final(self).seats@.len() == n + 1
                &&& forall|i: int| 0 <= i < n ==> #[trigger] final(self).seats@[i] == old(self).seats@[i]
                &&& final(self).seats@[n].name@ == sanitized_name(name@, n)
                &&& final(self).seats@[n].difficulty is None
                &&& final(self).seats@[n].token matches Some(t) && t@ == token@
                &&& final(self).seats@[n].conn_id == Some(id)
                &&& final(self).seats@[n].away_since is None
                &&& final(self).seats@[n].last_emote is None
                &&& final(self).next_conn_id == id + 1
                &&& final(self).gc_at is None
                &&& final(self).code == old(self).code
                &&& final(self).game == old(self).game
                &&& final(self).bot_at == old(self).bot_at
                &&& final(self).timing == old(self).timing
                &&& r.1@.len() >= 1
                &&& joined_sent(r.1@[0], *final(self), id, n, token@)
                &&& lobby_sent(r.1@.skip(1), *final(self))
            },
    {
        if self.started_now() {
            return (Err(ErrorCode::MatchAlreadyStarted), Vec::new());
        }
        if self.seats.len() >= MAX_SEATS {
            return (Err(ErrorCode::RoomFull), Vec::new());
        }
        let conn_id = self.next_conn_id;
        self.next_conn_id = self.next_conn_id + 1;
        let seat = self.seats.len() as Seat;
        self.seats.push(
            SeatSlot {
                name: sanitize_name(name, seat),
                difficulty: None,
                token: Some(token.clone()),
                conn_id: Some(conn_id),
                away_since: None,
                last_emote: None,
            },
        );
        self.gc_at = None;
        let mut out: Vec<Outbound> = Vec::new();
        out.push(one(conn_id, ServerMsg::RoomJoined { code: self.code.clone(), seat, token }));
        let mut lobby = self.lobby_broadcast();
        let ghost sent = lobby@;
        out.append(&mut lobby);
        assert(out@.skip(1) == sent);
        (Ok(conn_id), out)
    }

    /// A player reclaims the seat holding `token` on a new connection. They
    /// get their seat, their lobby and (during a match) their view; then
    /// everyone connected gets the new lobby.
    pub fn rejoin(&mut self, token: String, now: u64) -> (r: (Result<ConnId, ErrorCode>, Vec<Outbound>))
        requires
            old(self).wf(),
            old(self).next_conn_id < u64::MAX,
        ensures
            final(self).wf(),
            seat_with_token(old(self).seats@, token@) is None ==> r.0 == Err::<ConnId, ErrorCode>(
                ErrorCode::BadToken,
            ) && r.1@.len() == 0 && *final(self) == *old(self),
            seat_with_token(old(self).seats@, token@) matches Some(s) ==> {
                let id = old(self).next_conn_id;
                let k: int = if old(self).game is Some {
                    3
                } else {
                    2
                };
                &&& r.0 == Ok::<ConnId, ErrorCode>(id)
                &&& final(self).seats@ == old(self).seats@.update(
                    s,
                    SeatSlot { conn_id: Some(id), away_since: None, ..old(self).seats@[s] },
                )
                &&& final(self).next_conn_id == id + 1
                &&& final(self).gc_at is None
                &&& final(self).code == old(self).code
                &&& final(self).game == old(self).game
                &&& final(self).bot_at == old(self).bot_at
                &&& final(self).timing == old(self).timing
                &&& r.1@.len() >= k
                &&& joined_sent(r.1@[0], *final(self), id, s, token@)
                &&& to_one(r.1@[1], id) && (r.1@[1].msg matches ServerMsg::Lobby { state } && lobby_ok(
                    state,
                    *final(self),
                    s,
                ))
                &&& old(self).game is Some ==> state_sent(r.1@[2], *final(self), s)
                &&& lobby_sent(r.1@.skip(k), *final(self))
            },
    {
        let ghost old_seats = self.seats@;
        let mut found: Option<usize> = None;
        let mut i: usize = 0;
        while i < self.seats.len()
            invariant
                self.seats@ == old_seats,
                i <= old_seats.len() <= MAX_SEATS,
                found == (match seat_with_token(old_seats.take(i as int), token@) {
                    Some(j) => Some(j as usize),
                    None => None::<usize>,
                }),
                found matches Some(j) ==> j < i,
            decreases old_seats.len() - i,
        {
            assert(old_seats.take(i + 1).drop_last() == old_seats.take(i as int));
            if found.is_none() {
                let hit = match &self.seats[i].token {
                    Some(t) => *t == token,
                    None => false,
                };
                if hit {
                    found = Some(i);
                }
            }
            i += 1;
        }
        assert(old_seats.take(i as int) == old_seats);
        proof {
            lemma_seat_with_token(old_seats, token@);
        }
        let s = match found {
            Some(s) => s,
            None => {
                return (Err(ErrorCode::BadToken), Vec::new());
            },
        };
        let conn_id = self.next_conn_id;
        self.next_conn_id = self.next_conn_id + 1;
        self.seats[s].conn_id = Some(conn_id);
        self.seats[s].away_since = None;
        assert(self.seats@ =~= old_seats.update(
            s as int,
            SeatSlot { conn_id: Some(conn_id), away_since: None, ..old_seats[s as int] },
        ));
        self.gc_at = None;
        let mut out: Vec<Outbound> = Vec::new();
        out.push(
            one(conn_id, ServerMsg::RoomJoined { code: self.code.clone(), seat: s as Seat, token }),
        );
        out.push(one(conn_id, ServerMsg::Lobby { state: self.lobby_state(s as Seat) }));
        match &self.game {
            Some(g) => {
                out.push(one(conn_id, ServerMsg::State { view: g.view(Viewer::Seat(s as Seat)) }));
            },
            None => {},
        }
        let ghost k = out@.len();
        let mut lobby = self.lobby_broadcast();
        let ghost sent = lobby@;
        out.append(&mut lobby);
        assert(out@.skip(k as int) == sent);
        (Ok(conn_id), out)
    }

    /// A connection dropped. Its seat stays (a player can rejoin with their
    /// token); in the lobby a non-host seat is only held for
    /// `LOBBY_GRACE_MS`. When nobody is left connected, the room schedules
    /// its garbage-collection check. Everyone still connected gets the new
    /// lobby.
    pub fn disconnected(&mut self, conn: ConnId, now: u64) -> (out: Vec<Outbound>)
        requires
            old(self).wf(),
        ensures
            final(self).wf(),
            seat_with_conn(old(self).seats@, conn) is None ==> out@.len() == 0 && *final(self)
                == *old(self),
            seat_with_conn(old(self).seats@, conn) matches Some(s) ==> {
                &&& final(self).seats@ == old(self).seats@.update(
                    s,
                    SeatSlot {
                        conn_id: None,
                        away_since: if !old(self).started() && s != 0 {
                            Some(now)
                        } else {
                            old(self).seats@[s].away_since
                        },
                        ..old(self).seats@[s]
                    },
                )
                &&& final(self).gc_at == if nobody_connected(final(self).seats@) {
                    Some(now.saturating_add(old(self).timing.gc_ms))
                } else {
                    old(self).gc_at
                }
                &&& final(self).code == old(self).code
                &&& final(self).game == old(self).game
                &&& final(self).next_conn_id == old(self).next_conn_id
                &&& final(self).bot_at == old(self).bot_at
                &&& final(self).timing == old(self).timing
                &&& lobby_sent(out@, *final(self))
            },
    {
        let seat = match self.seat_of(conn) {
            Some(s) => s as usize,
            None => {
                return Vec::new();
            },
        };
        proof {
            lemma_seat_with_conn(self.seats@, conn);
        }
        let started = self.started_now();
        let ghost old_seats = self.seats@;
        self.seats[seat].conn_id = None;
        if !started && seat != 0 {
            self.seats[seat].away_since = Some(now);
        }
        assert(self.seats@ =~= old_seats.update(
            seat as int,
            SeatSlot {
                conn_id: None,
                away_since: if !started && seat != 0 {
                    Some(now)
                } else {
                    old_seats[seat as int].away_since
                },
                ..old_seats[seat as int]
            },
        ));
        let mut anyone = false;
        let mut i: usize = 0;
        while i < self.seats.len()
            invariant
                i <= self.seats@.len() <= MAX_SEATS,
                !anyone <==> forall|j: int| 0 <= j < i ==> (#[trigger] self.seats@[j]).conn_id is None,
            decreases self.seats@.len() - i,
        {
            if self.seats[i].conn_id.is_some() {
                anyone = true;
            }
            i += 1;
        }
        if !anyone {
            self.gc_at = Some(now.saturating_add(self.timing.gc_ms));
        }
        self.lobby_broadcast()
    }
}

// ---------------------------------------------------------------------------
// What the host and the players ask for.

/// `after` equals `before` except, possibly, in its seats.
pub open spec fn same_but_seats(before: Room, after: Room) -> bool {
    &&& after.code == before.code
    &&& after.game == before.game
    &&& after.next_conn_id == before.next_conn_id
    &&& after.bot_at == before.bot_at
    &&& after.gc_at == before.gc_at
    &&& after.timing == before.timing
}

/// The request is refused with `code`: nothing changes, and only the asker
/// (on `conn`) is told.
pub open spec fn refused(before: Room, after: Room, out: Seq<Outbound>, conn: ConnId, code: ErrorCode) -> bool {
    &&& after == before
    &&& out.len() == 1
    &&& error_sent(out[0], conn, code)
}

/// Why seat `seat` may not add a bot now, if it may not.
pub open spec fn add_bot_error(r: Room, seat: Seat) -> Option<ErrorCode> {
    if seat != 0 {
        Some(ErrorCode::NotHost)
    } else if r.started() {
        Some(ErrorCode::MatchAlreadyStarted)
    } else if r.seats@.len() >= MAX_SEATS {
        Some(ErrorCode::RoomFull)
    } else {
        None
    }
}

/// A bot of `difficulty` took the next seat, named after how many bots the
/// table has; everyone connected gets the new lobby.
pub open spec fn bot_added(before: Room, after: Room, difficulty: Difficulty, out: Seq<Outbound>) -> bool {
    let n = before.seats@.len() as int;
    &&& after.seats@.len() == n + 1
    &&& forall|i: int| 0 <= i < n ==> #[trigger] after.seats@[i] == before.seats@[i]
    &&& after.seats@[n].name@ == bot_name(difficulty, bot_count(before.seats@) + 1)
    &&& after.seats@[n].difficulty == Some(difficulty)
    &&& after.seats@[n].token is None
    &&& after.seats@[n].conn_id is None
    &&& after.seats@[n].away_since is None
    &&& after.seats@[n].last_emote is None
    &&& same_but_seats(before, after)
    &&& lobby_sent(out, after)
}

/// Why seat `seat` may not remove seat `target` now, if it may not. The
/// host cannot remove itself; mid-game only humans can be removed.
pub open spec fn remove_error(r: Room, seat: Seat, target: Seat) -> Option<ErrorCode> {
    if seat != 0 {
        Some(ErrorCode::NotHost)
    } else if target == 0 || target >= r.seats@.len() {
        Some(ErrorCode::BadRequest)
    } else if r.started() && r.seats@[target as int].difficulty is Some {
        Some(ErrorCode::MatchAlreadyStarted)
    } else {
        None
    }
}

/// Seat `target` was removed: a connected human is first told they were
/// kicked (which voids their token). In the lobby the seat goes; mid-game a
/// bot takes it over and, if it is that seat's turn, is scheduled. Everyone
/// still connected gets the new lobby.
pub open spec fn seat_removed(before: Room, after: Room, target: int, now: u64, out: Seq<Outbound>) -> bool {
    let slot = before.seats@[target];
    let k: int = if slot.conn_id is Some {
        1
    } else {
        0
    };
    &&& out.len() >= k
    &&& slot.conn_id matches Some(c) ==> error_sent(out[0], c, ErrorCode::Kicked)
    &&& lobby_sent(out.skip(k), after)
    &&& after.code == before.code
    &&& after.game == before.game
    &&& after.next_conn_id == before.next_conn_id
    &&& after.gc_at == before.gc_at
    &&& after.timing == before.timing
    &&& if before.started() {
        &&& after.seats@ == before.seats@.update(
            target,
            SeatSlot {
                difficulty: Some(takeover_difficulty()),
                token: None,
                conn_id: None,
                away_since: None,
                ..slot
            },
        )
        &&& after.bot_at == after.bot_deadline(now)
    } else {
        &&& after.seats@ == before.seats@.remove(target)
        &&& after.bot_at == before.bot_at
    }
}

/// Why seat `seat` may not start a match now, if it may not.
pub open spec fn start_error(r: Room, seat: Seat) -> Option<ErrorCode> {
    if seat != 0 {
        Some(ErrorCode::NotHost)
    } else if r.started() {
        Some(ErrorCode::MatchAlreadyStarted)
    } else if r.seats@.len() < 2 {
        Some(ErrorCode::BadRequest)
    } else {
        None
    }
}

/// The number of holes a match is started with: the request clamped to 1..=18.
pub open spec fn clamp_holes(holes: u8) -> u8 {
    if holes < 1 {
        1
    } else if holes > 18 {
        18
    } else {
        holes
    }
}

/// `cfg` seats the room's players in order: their names, and bot or human.
pub open spec fn config_of(cfg: MatchConfig, seats: Seq<SeatSlot>) -> bool {
    &&& cfg.seats@.len() == seats.len()
    &&& forall|i: int|
        0 <= i < seats.len() ==> {
            &&& (#[trigger] cfg.seats@[i]).name@ == seats[i].name@
            &&& cfg.seats@[i].kind == match seats[i].difficulty {
                Some(d) => SeatKind::Bot { difficulty: d },
                None => SeatKind::Human,
            }
        }
}

/// A new match of `clamp_holes(holes)` holes began with the room's seats,
/// dealt from the deck in the order `seed` shuffles it: everyone connected
/// gets the lobby (now started), then the deal and their view; the first
/// bot up is scheduled.
pub open spec fn match_started(before: Room, after: Room, holes: u8, seed: u64, now: u64, out: Seq<Outbound>) -> bool {
    let n = before.seats@.len();
    let cs = connected(before.seats@).len();
    &&& after.game matches Some(g)
    &&& config_of(g.config, before.seats@)
    &&& g.config.holes == clamp_holes(holes)
    &&& g.hole_number == 1
    &&& g.phase == Phase::Playing
    &&& g.totals@ == Seq::new(n, |i: int| 0i32)
    &&& g.score_history@.len() == 0
    &&& g.hole.model() == dealt_from(seeded_shuffle(standard_deck_spec(), seed), n, 0)
    &&& is_fresh_deal(g.hole.model(), n, 0)
    &&& after.seats == before.seats
    &&& after.code == before.code
    &&& after.next_conn_id == before.next_conn_id
    &&& after.gc_at == before.gc_at
    &&& after.timing == before.timing
    &&& after.bot_at == after.bot_deadline(now)
    &&& out.len() >= cs
    &&& lobby_sent(out.take(cs as int), after)
    &&& game_sent(
        out.skip(cs as int),
        after,
        seq![
            Event::HoleDealt { hole: 1, starting_seat: 0, discard_start: g.hole.discard@.last() },
            Event::TurnStarted { seat: 0 },
        ],
    )
}

/// Seat `seat`'s game action went to the match: a refused action is
/// explained to the asker alone; otherwise everyone connected gets the
/// events and their view, and the next bot up is scheduled.
pub open spec fn acted(before: Room, after: Room, seat: Seat, action: Action, conn: ConnId, now: u64, out: Seq<Outbound>) -> bool {
    match before.game {
        None => refused(before, after, out, conn, ErrorCode::MatchNotStarted),
        Some(g) => match rule_error(g.model(), g.seats(), seat, action) {
            Some(e) => {
                &&& after == before
                &&& out.len() == 1
                &&& to_one(out[0], conn)
                &&& out[0].msg matches ServerMsg::Error { code, message } && code == ErrorCode::BadAction
                    && message@ == e.message_spec()
            },
            None => stepped(g, before, after, seat, action, now, out),
        },
    }
}

/// The match `g` of room `before` took seat `seat`'s legal `action`:
/// everyone connected gets the events and their view, and the next bot up
/// is scheduled.
pub open spec fn stepped(g: MatchState, before: Room, after: Room, seat: Seat, action: Action, now: u64, out: Seq<Outbound>) -> bool {
    &&& after.game matches Some(g2)
    &&& exists|events: Vec<Event>| #[trigger]
        applied(g, seat, action, g2, Ok(events)) && game_sent(out, after, events@)
    &&& after.seats == before.seats
    &&& after.code == before.code
    &&& after.next_conn_id == before.next_conn_id
    &&& after.gc_at == before.gc_at
    &&& after.timing == before.timing
    &&& after.bot_at == after.bot_deadline(now)
}

/// Seat `seat`'s emote: dropped inside the cooldown since its last one,
/// otherwise shown to everyone connected.
pub open spec fn emoted(before: Room, after: Room, seat: int, emote: Emote, now: u64, out: Seq<Outbound>) -> bool {
    let last = before.seats@[seat].last_emote;
    if last matches Some(t) && now < t + EMOTE_COOLDOWN_MS {
        after == before && out.len() == 0
    } else {
        &&& after.seats@ == before.seats@.update(
            seat,
            SeatSlot { last_emote: Some(now), ..before.seats@[seat] },
        )
        &&& same_but_seats(before, after)
        &&& out.len() == 1
        &&& out[0].to@ == conns_of(after.seats@)
        &&& out[0].msg == ServerMsg::Emote { seat: seat as Seat, emote }
    }
}

impl Room {
    /// The host adds a bot of `difficulty` in the lobby.
    pub fn add_bot(&mut self, seat: Seat, difficulty: Difficulty, conn: ConnId) -> (out: Vec<Outbound>)
        requires
            old(self).wf(),
        ensures
            final(self).wf(),
            add_bot_error(*old(self), seat) matches Some(code) ==> refused(
                *old(self),
                *final(self),
                out@,
                conn,
                code,
            ),
            add_bot_error(*old(self), seat) is None ==> bot_added(*old(self), *final(self), difficulty, out@),
    {
        if seat != 0 {
            return vec![error_to(conn, ErrorCode::NotHost)];
        }
        if self.started_now() {
            return vec![error_to(conn, ErrorCode::MatchAlreadyStarted)];
        }
        if self.seats.len() >= MAX_SEATS {
            return vec![error_to(conn, ErrorCode::RoomFull)];
        }
        let mut count: u8 = 0;
        let mut i: usize = 0;
        while i < self.seats.len()
            invariant
                i <= self.seats@.len() < MAX_SEATS,
                count == bot_count(self.seats@.take(i as int)),
                count <= i,
            decreases self.seats@.len() - i,
        {
            assert(self.seats@.take(i + 1).drop_last() == self.seats@.take(i as int));
            if self.seats[i].difficulty.is_some() {
                count = count + 1;
            }
            i += 1;
        }
        assert(self.seats@.take(i as int) == self.seats@);
        self.seats.push(
            SeatSlot {
                name: make_bot_name(difficulty, count + 1),
                difficulty: Some(difficulty),
                token: None,
                conn_id: None,
                away_since: None,
                last_emote: None,
            },
        );
        self.lobby_broadcast()
    }

    /// The host removes seat `target` (see `seat_removed`).
    pub fn remove_seat(&mut self, seat: Seat, target: Seat, conn: ConnId, now: u64) -> (out: Vec<Outbound>)
        requires
            old(self).wf(),
        ensures
            final(self).wf(),
            remove_error(*old(self), seat, target) matches Some(code) ==> refused(
                *old(self),
                *final(self),
                out@,
                conn,
                code,
            ),
            remove_error(*old(self), seat, target) is None ==> seat_removed(
                *old(self),
                *final(self),
                target as int,
                now,
                out@,
            ),
    {
        if seat != 0 {
            return vec![error_to(conn, ErrorCode::NotHost)];
        }
        let t = target as usize;
        if t == 0 || t >= self.seats.len() {
            return vec![error_to(conn, ErrorCode::BadRequest)];
        }
        let started = self.started_now();
        if started && self.seats[t].difficulty.is_some() {
            return vec![error_to(conn, ErrorCode::MatchAlreadyStarted)];
        }
        let mut out: Vec<Outbound> = Vec::new();
        match self.seats[t].conn_id {
            Some(c) => out.push(error_to(c, ErrorCode::Kicked)),
            None => {},
        }
        let ghost k = out@.len();
        let ghost old_seats = self.seats@;
        if started {
            self.seats[t].difficulty = Some(Difficulty::Medium);
            self.seats[t].token = None;
            self.seats[t].conn_id = None;
            self.seats[t].away_since = None;
            assert(self.seats@ =~= old_seats.update(
                t as int,
                SeatSlot {
                    difficulty: Some(takeover_difficulty()),
                    token: None,
                    conn_id: None,
                    away_since: None,
                    ..old_seats[t as int]
                },
            ));
            self.schedule_bots(now);
        } else {
            self.seats.remove(t);
        }
        let mut lobby = self.lobby_broadcast();
        let ghost sent = lobby@;
        out.append(&mut lobby);
        assert(out@.skip(k as int) == sent);
        out
    }

    /// The host starts a match (see `match_started`); `seed` shuffles its deals.
    pub fn start_match(&mut self, seat: Seat, holes: u8, seed: u64, conn: ConnId, now: u64) -> (out: Vec<Outbound>)
        requires
            old(self).wf(),
        ensures
            final(self).wf(),
            start_error(*old(self), seat) matches Some(code) ==> refused(
                *old(self),
                *final(self),
                out@,
                conn,
                code,
            ),
            start_error(*old(self), seat) is None ==> match_started(
                *old(self),
                *final(self),
                holes,
                seed,
                now,
                out@,
            ),
    {
        if seat != 0 {
            return vec![error_to(conn, ErrorCode::NotHost)];
        }
        if self.started_now() {
            return vec![error_to(conn, ErrorCode::MatchAlreadyStarted)];
        }
        if self.seats.len() < 2 {
            return vec![error_to(conn, ErrorCode::BadRequest)];
        }
        let mut seats: Vec<SeatConfig> = Vec::new();
        let mut i: usize = 0;
        while i < self.seats.len()
            invariant
                i <= self.seats@.len() <= MAX_SEATS,
                seats@.len() == i,
                forall|j: int|
                    0 <= j < i ==> {
                        &&& (#[trigger] seats@[j]).name@ == self.seats@[j].name@
                        &&& seats@[j].kind == match self.seats@[j].difficulty {
                            Some(d) => SeatKind::Bot { difficulty: d },
                            None => SeatKind::Human,
                        }
                    },
            decreases self.seats@.len() - i,
        {
            let kind = match self.seats[i].difficulty {
                Some(difficulty) => SeatKind::Bot { difficulty },
                None => SeatKind::Human,
            };
            seats.push(SeatConfig { name: self.seats[i].name.clone(), kind });
            i += 1;
        }
        let holes = if holes < 1 {
            1
        } else if holes > 18 {
            18
        } else {
            holes
        };
        let config = MatchConfig { seats, holes };
        let game = match MatchState::new(config, seed) {
            Ok(g) => g,
            Err(_) => {
                return vec![error_to(conn, ErrorCode::BadRequest)];
            },
        };
        proof {
            lemma_fresh_deal_discard(game.hole.model(), game.seats(), 0);
        }
        let discard_start = game.hole.discard[game.hole.discard.len() - 1];
        self.game = Some(game);
        self.schedule_bots(now);
        let mut out = self.lobby_broadcast();
        let ghost cs = out@.len();
        let ghost sent_lobby = out@;
        let events = vec![
            Event::HoleDealt { hole: 1, starting_seat: 0, discard_start },
            Event::TurnStarted { seat: 0 },
        ];
        let mut game_out = self.game_broadcast(events);
        let ghost sent_game = game_out@;
        out.append(&mut game_out);
        assert(out@.take(cs as int) == sent_lobby);
        assert(out@.skip(cs as int) == sent_game);
        out
    }

    /// A player's game action (see `acted`).
    pub fn act(&mut self, seat: Seat, action: Action, conn: ConnId, now: u64) -> (out: Vec<Outbound>)
        requires
            old(self).wf(),
        ensures
            final(self).wf(),
            acted(*old(self), *final(self), seat, action, conn, now, out@),
    {
        let mut game = match self.game.take() {
            Some(g) => g,
            None => {
                return vec![error_to(conn, ErrorCode::MatchNotStarted)];
            },
        };
        let ghost before = game;
        let r = game.apply(seat, action);
        match r {
            Err(e) => {
                self.game = Some(game);
                let mut to: Vec<ConnId> = Vec::new();
                to.push(conn);
                assert(to@ == seq![conn]);
                vec![
                    Outbound {
                        to,
                        msg: ServerMsg::Error {
                            code: ErrorCode::BadAction,
                            message: String::from_str(e.message()),
                        },
                    },
                ]
            },
            Ok(events) => {
                let ghost ev = events;
                assert(applied(before, seat, action, game, Ok(ev)));
                self.game = Some(game);
                self.schedule_bots(now);
                let out = self.game_broadcast(events);
                assert(applied(before, seat, action, game, Ok(ev)) && game_sent(out@, *self, ev@));
                out
            },
        }
    }

    /// A player's emote (see `emoted`).
    pub fn emote(&mut self, seat: Seat, emote: Emote, now: u64) -> (out: Vec<Outbound>)
        requires
            old(self).wf(),
            (seat as int) < old(self).seats@.len(),
        ensures
            final(self).wf(),
            emoted(*old(self), *final(self), seat as int, emote, now, out@),
    {
        let s = seat as usize;
        match self.seats[s].last_emote {
            Some(t) => {
                if (now as u128) < (t as u128) + (EMOTE_COOLDOWN_MS as u128) {
                    return Vec::new();
                }
            },
            None => {},
        }
        let ghost old_seats = self.seats@;
        self.seats[s].last_emote = Some(now);
        assert(self.seats@ =~= old_seats.update(
            s as int,
            SeatSlot { last_emote: Some(now), ..old_seats[s as int] },
        ));
        let to = self.connections();
        vec![Outbound { to, msg: ServerMsg::Emote { seat, emote } }]
    }
}

/// What a message from a seated connection does.
pub open spec fn handled(before: Room, after: Room, seat: int, conn: ConnId, msg: ClientMsg, seed: u64, now: u64, out: Seq<Outbound>) -> bool {
    let s = seat as Seat;
    match msg {
        ClientMsg::Ping => after == before && out.len() == 1 && to_one(out[0], conn) && out[0].msg
            == ServerMsg::Pong,
        ClientMsg::AddBot { difficulty } => match add_bot_error(before, s) {
            Some(code) => refused(before, after, out, conn, code),
            None => bot_added(before, after, difficulty, out),
        },
        ClientMsg::RemoveSeat { seat: target } => match remove_error(before, s, target) {
            Some(code) => refused(before, after, out, conn, code),
            None => seat_removed(before, after, target as int, now, out),
        },
        ClientMsg::StartMatch { holes } => match start_error(before, s) {
            Some(code) => refused(before, after, out, conn, code),
            None => match_started(before, after, holes, seed, now, out),
        },
        ClientMsg::Act { action } => acted(before, after, s, action, conn, now, out),
        ClientMsg::Emote { emote } => emoted(before, after, seat, emote, now, out),
        _ => refused(before, after, out, conn, ErrorCode::BadRequest),
    }
}

/// What `Room::tick` reports.
#[derive(Debug)]
pub struct TickOutcome {
    /// Nobody was connected when the garbage-collection check came due: the
    /// room should close.
    pub close: bool,
    /// The bot deadline passed: the bot whose turn it is should act.
    pub bot_due: bool,
    pub out: Vec<Outbound>,
}

/// A lobby seat whose player has been away for the whole grace period.
pub open spec fn expired(slot: SeatSlot, now: u64) -> bool {
    slot.conn_id is None && (slot.away_since matches Some(t) && t + LOBBY_GRACE_MS <= now)
}

/// The seats that are not expired, in order.
pub open spec fn keep_seats(seats: Seq<SeatSlot>, now: u64) -> Seq<SeatSlot>
    decreases seats.len(),
{
    if seats.len() == 0 {
        Seq::empty()
    } else {
        (if expired(seats[0], now) {
            Seq::empty()
        } else {
            seq![seats[0]]
        }) + keep_seats(seats.drop_first(), now)
    }
}

/// The earlier of two optional times.
pub open spec fn sooner(a: Option<u64>, b: Option<u64>) -> Option<u64> {
    match (a, b) {
        (Some(x), Some(y)) => Some(if x <= y {
            x
        } else {
            y
        }),
        (Some(x), None) => Some(x),
        (None, y) => y,
    }
}

/// When the first away seat's grace period ends.
pub open spec fn grace_deadline(seats: Seq<SeatSlot>) -> Option<u64>
    decreases seats.len(),
{
    if seats.len() == 0 {
        None
    } else {
        sooner(
            grace_deadline(seats.drop_last()),
            if seats.last().conn_id is None && seats.last().away_since is Some {
                Some(seats.last().away_since->Some_0.saturating_add(LOBBY_GRACE_MS))
            } else {
                None
            },
        )
    }
}

impl Room {
    /// When the room next needs a `tick`: the bot deadline, the
    /// garbage-collection check, or (in the lobby) the end of a grace period.
    pub open spec fn wake_at(&self) -> Option<u64> {
        sooner(
            sooner(self.bot_at, self.gc_at),
            if self.started() {
                None
            } else {
                grace_deadline(self.seats@)
            },
        )
    }

    /// A message from connection `conn` (see `handled`). Messages from a
    /// connection that holds no seat are ignored. `seed` shuffles the deals
    /// if the message starts a match.
    pub fn client_msg(&mut self, conn: ConnId, msg: ClientMsg, seed: u64, now: u64) -> (out: Vec<Outbound>)
        requires
            old(self).wf(),
        ensures
            final(self).wf(),
            seat_with_conn(old(self).seats@, conn) is None ==> *final(self) == *old(self) && out@.len() == 0,
            seat_with_conn(old(self).seats@, conn) matches Some(s) ==> handled(
                *old(self),
                *final(self),
                s,
                conn,
                msg,
                seed,
                now,
                out@,
            ),
    {
        let seat = match self.seat_of(conn) {
            Some(s) => s,
            None => {
                return Vec::new();
            },
        };
        proof {
            lemma_seat_with_conn(self.seats@, conn);
        }
        match msg {
            ClientMsg::Ping => vec![one(conn, ServerMsg::Pong)],
            ClientMsg::AddBot { difficulty } => self.add_bot(seat, difficulty, conn),
            ClientMsg::RemoveSeat { seat: target } => self.remove_seat(seat, target, conn, now),
            ClientMsg::StartMatch { holes } => self.start_match(seat, holes, seed, conn, now),
            ClientMsg::Act { action } => self.act(seat, action, conn, now),
            ClientMsg::Emote { emote } => self.emote(seat, emote, now),
            ClientMsg::CreateRoom { .. } | ClientMsg::JoinRoom { .. } | ClientMsg::Rejoin { .. } => {
                vec![error_to(conn, ErrorCode::BadRequest)]
            },
        }
    }

    /// The clock reached `now`. A due garbage-collection check closes an
    /// empty room (and otherwise lapses); in the lobby, seats whose players
    /// stayed away for the whole grace period are freed (everyone connected
    /// then gets the new lobby); a due bot deadline is reported.
    pub fn tick(&mut self, now: u64) -> (r: TickOutcome)
        requires
            old(self).wf(),
        ensures
            final(self).wf(),
            ({
                let gc_due = (old(self).gc_at matches Some(d) && d <= now);
                if gc_due && nobody_connected(old(self).seats@) {
                    r.close && !r.bot_due && r.out@.len() == 0 && *final(self) == *old(self)
                } else {
                    let bot_due = (old(self).bot_at matches Some(d) && d <= now);
                    &&& !r.close
                    &&& r.bot_due == bot_due
                    &&& final(self).bot_at == if bot_due {
                        None
                    } else {
                        old(self).bot_at
                    }
                    &&& final(self).gc_at == if gc_due {
                        None
                    } else {
                        old(self).gc_at
                    }
                    &&& final(self).seats@ == if old(self).started() {
                        old(self).seats@
                    } else {
                        keep_seats(old(self).seats@, now)
                    }
                    &&& final(self).code == old(self).code
                    &&& final(self).game == old(self).game
                    &&& final(self).next_conn_id == old(self).next_conn_id
                    &&& final(self).timing == old(self).timing
                    &&& if final(self).seats@.len() == old(self).seats@.len() {
                        r.out@.len() == 0
                    } else {
                        lobby_sent(r.out@, *final(self))
                    }
                }
            }),
    {
        let gc_due = match self.gc_at {
            Some(d) => d <= now,
            None => false,
        };
        if gc_due {
            let mut anyone = false;
            let mut i: usize = 0;
            while i < self.seats.len()
                invariant
                    i <= self.seats@.len() <= MAX_SEATS,
                    !anyone <==> forall|j: int| 0 <= j < i ==> (#[trigger] self.seats@[j]).conn_id is None,
                decreases self.seats@.len() - i,
            {
                if self.seats[i].conn_id.is_some() {
                    anyone = true;
                }
                i += 1;
            }
            if !anyone {
                return TickOutcome { close: true, bot_due: false, out: Vec::new() };
            }
            self.gc_at = None;
        }
        let n = self.seats.len();
        if !self.started_now() {
            let ghost old_seats = self.seats@;
            let ghost pre = *self;
            let mut j: usize = n;
            assert(old_seats.skip(n as int) == Seq::<SeatSlot>::empty());
            assert(old_seats.take(n as int) == old_seats);
            while j > 0
                invariant
                    n == old_seats.len() <= MAX_SEATS,
                    j <= n,
                    self.wf(),
                    same_but_seats(pre, *self),
                    self.seats@ == old_seats.take(j as int) + keep_seats(old_seats.skip(j as int), now),
                decreases j,
            {
                let ghost k = keep_seats(old_seats.skip(j as int), now);
                assert(old_seats.skip(j - 1).drop_first() == old_seats.skip(j as int));
                assert(old_seats.skip(j - 1)[0] == old_seats[j - 1]);
                let slot = &self.seats[j - 1];
                let gone = slot.conn_id.is_none() && match slot.away_since {
                    Some(t) => (t as u128) + (LOBBY_GRACE_MS as u128) <= (now as u128),
                    None => false,
                };
                assert(self.seats@[j - 1] == old_seats[j - 1]);
                if gone {
                    self.seats.remove(j - 1);
                    assert(self.seats@ =~= old_seats.take(j - 1) + k);
                } else {
                    assert(self.seats@ =~= old_seats.take(j - 1) + (seq![old_seats[j - 1]] + k));
                }
                j -= 1;
            }
            assert(old_seats.skip(0) == old_seats);
            assert(self.seats@ =~= keep_seats(old_seats, now));
        }
        let bot_due = match self.bot_at {
            Some(d) => d <= now,
            None => false,
        };
        if bot_due {
            self.bot_at = None;
        }
        let out = if self.seats.len() == n {
            Vec::new()
        } else {
            self.lobby_broadcast()
        };
        TickOutcome { close: false, bot_due, out }
    }

    /// When the room next needs a `tick` (see `wake_at`).
    pub fn next_deadline(&self) -> (r: Option<u64>)
        ensures
            r == self.wake_at(),
    {
        let mut grace: Option<u64> = None;
        if !self.started_now() {
            let mut i: usize = 0;
            while i < self.seats.len()
                invariant
                    i <= self.seats@.len(),
                    grace == grace_deadline(self.seats@.take(i as int)),
                decreases self.seats@.len() - i,
            {
                assert(self.seats@.take(i + 1).drop_last() == self.seats@.take(i as int));
                let slot = &self.seats[i];
                let here = if slot.conn_id.is_none() {
                    match slot.away_since {
                        Some(t) => Some(t.saturating_add(LOBBY_GRACE_MS)),
                        None => None,
                    }
                } else {
                    None
                };
                grace = sooner_of(grace, here);
                i += 1;
            }
            assert(self.seats@.take(i as int) == self.seats@);
        }
        sooner_of(sooner_of(self.bot_at, self.gc_at), grace)
    }

    /// The bot whose turn it is, if any: its seat, its difficulty, and its
    /// view of the match.
    pub fn bot_turn(&self) -> (r: Option<(Seat, Difficulty, PlayerView)>)
        requires
            self.wf(),
        ensures
            r is Some <==> self.bot_up(),
            r matches Some((s, d, v)) ==> {
                &&& s == self.game->Some_0.hole.current
                &&& self.seats@[s as int].difficulty == Some(d)
                &&& is_view_of(&self.game->Some_0, Viewer::Seat(s), &v)
            },
    {
        match &self.game {
            Some(g) => match g.phase {
                Phase::Playing => {
                    let c = g.hole.current;
                    if (c as usize) < self.seats.len() {
                        match self.seats[c as usize].difficulty {
                            Some(d) => Some((c, d, g.view(Viewer::Seat(c)))),
                            None => None,
                        }
                    } else {
                        None
                    }
                },
                _ => None,
            },
            None => None,
        }
    }

    /// The action a bot chose for seat `seat`: applied like a player's, but
    /// a refused action changes nothing and tells no one.
    pub fn bot_acted(&mut self, seat: Seat, action: Action, now: u64) -> (out: Vec<Outbound>)
        requires
            old(self).wf(),
        ensures
            final(self).wf(),
            match old(self).game {
                None => *final(self) == *old(self) && out@.len() == 0,
                Some(g) => match rule_error(g.model(), g.seats(), seat, action) {
                    Some(_) => *final(self) == *old(self) && out@.len() == 0,
                    None => stepped(g, *old(self), *final(self), seat, action, now, out@),
                },
            },
    {
        let mut game = match self.game.take() {
            Some(g) => g,
            None => {
                return Vec::new();
            },
        };
        let ghost before = game;
        let r = game.apply(seat, action);
        match r {
            Err(_) => {
                self.game = Some(game);
                Vec::new()
            },
            Ok(events) => {
                let ghost ev = events;
                self.game = Some(game);
                self.schedule_bots(now);
                let out = self.game_broadcast(events);
                assert(applied(before, seat, action, game, Ok(ev)) && game_sent(out@, *self, ev@));
                out
            },
        }
    }
}

fn sooner_of(a: Option<u64>, b: Option<u64>) -> (r: Option<u64>)
    ensures
        r == sooner(a, b),
{
    match (a, b) {
        (Some(x), Some(y)) => Some(if x <= y {
            x
        } else {
            y
        }),
        (Some(x), None) => Some(x),
        (None, y) => y,
    }
}

proof fn lemma_prefix_seat(seats: Seq<SeatSlot>, conn: ConnId, n: int)
    requires
        0 <= n <= seats.len(),
        seat_with_conn(seats.take(n), conn) is Some,
    ensures
        seat_with_conn(seats, conn) == seat_with_conn(seats.take(n), conn),
    decreases seats.len() - n,
{
    if n < seats.len() {
        assert(seats.take(n + 1).drop_last() == seats.take(n));
        lemma_prefix_seat(seats, conn, n + 1);
    } else {
        assert(seats.take(n) == seats);
    }
}

// ---------------------------------------------------------------------------
// Laws.

/// A removed seat's session token stops working: once the host has removed
/// a seat, no seat answers to its token (tokens being distinct).
pub proof fn lemma_kicked_token_void(
    before: Room,
    after: Room,
    target: int,
    now: u64,
    out: Seq<Outbound>,
    token: Seq<char>,
)
    requires
        0 <= target < before.seats@.len(),
        seat_removed(before, after, target, now, out),
        before.seats@[target].token matches Some(t) && t@ == token,
        forall|j: int|
            0 <= j < before.seats@.len() && j != target ==> !((#[trigger] before.seats@[j]).token matches Some(
                u,
            ) && u@ == token),
    ensures
        seat_with_token(after.seats@, token) is None,
{
    lemma_seat_with_token(after.seats@, token);
    if before.started() {
        assert forall|j: int| 0 <= j < after.seats@.len() implies !((#[trigger] after.seats@[j]).token matches Some(
            u,
        ) && u@ == token) by {
            if j != target {
                assert(after.seats@[j] == before.seats@[j]);
            }
        }
    } else {
        assert forall|j: int| 0 <= j < after.seats@.len() implies !((#[trigger] after.seats@[j]).token matches Some(
            u,
        ) && u@ == token) by {
            if j < target {
                assert(after.seats@[j] == before.seats@[j]);
            } else {
                assert(after.seats@[j] == before.seats@[j + 1]);
            }
        }
    }
}

/// What the room sends a seat's connection about the match never shows a
/// card hidden from that seat.
pub proof fn lemma_broadcast_never_leaks(r: Room, out: Seq<Outbound>, events: Seq<Event>, k: int, o: int, s: int)
    requires
        r.wf(),
        r.game is Some,
        game_sent(out, r, events),
        0 <= k < connected(r.seats@).len(),
        0 <= o < r.game->Some_0.seats(),
        0 <= s < 6,
        !visible(
            r.game->Some_0.model().hole.grids[o][s],
            o,
            Some(connected(r.seats@)[k] as Seat),
        ),
    ensures
        ({
            let k0: int = if events.len() > 0 {
                1
            } else {
                0
            };
            &&& to_one(out[k0 + k], r.seats@[connected(r.seats@)[k]].conn_id->Some_0)
            &&& out[k0 + k].msg matches ServerMsg::State { view } && !shows(
                &view,
                r.game->Some_0.model().hole.grids[o][s].card,
            )
        }),
{
    let k0: int = if events.len() > 0 {
        1
    } else {
        0
    };
    let g = r.game->Some_0;
    let seat = connected(r.seats@)[k];
    assert(state_sent(out[k0 + k], r, seat));
    lemma_connected(r.seats@);
    if let ServerMsg::State { view } = out[k0 + k].msg {
        assert(viewer_seat(Viewer::Seat(seat as Seat)) == Some(seat as Seat));
        lemma_view_never_leaks(&g, Viewer::Seat(seat as Seat), &view, o, s);
    }
}

/// In every lobby the room hands out, a bot seat is listed as connected
/// (bots never go offline), and a human seat is listed as connected exactly
/// when a connection holds it; names and difficulties are the seats' own.
pub proof fn lemma_lobby_lists_bots_connected(ls: LobbyState, r: Room, you: int, i: int)
    requires
        lobby_ok(ls, r, you),
        0 <= i < r.seats@.len(),
    ensures
        r.seats@[i].difficulty is Some ==> ls.seats@[i].connected,
        r.seats@[i].difficulty is None ==> (ls.seats@[i].connected <==> r.seats@[i].conn_id is Some),
        ls.seats@[i].difficulty == r.seats@[i].difficulty,
        ls.seats@[i].name@ == r.seats@[i].name@,
{
    assert(ls.seats@[i].name@ == r.seats@[i].name@);
}

} // verus!
