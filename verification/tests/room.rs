//! The online table, driven message by message: joining, the host's
//! powers, a whole hole with a bot, reconnecting, kicking and emotes.

use golf_engine::bot::{Difficulty, EasyBot};
use golf_engine::protocol::{ClientMsg, Emote, ErrorCode, ServerMsg};
use golf_engine::room::{Outbound, Room, RoomTiming, LOBBY_GRACE_MS};
use rand::SeedableRng;
use rand_chacha::ChaCha8Rng;
use golf_engine::{Action, PhaseView, PlayerView, SlotView, TurnState};

const TIMING: RoomTiming = RoomTiming {
    bot_step_ms: 5,
    gc_ms: 1_800_000,
};

/// Messages that went to `conn`, in order.
fn to(out: &[Outbound], conn: u64) -> Vec<&ServerMsg> {
    out.iter()
        .filter(|o| o.to.contains(&conn))
        .map(|o| &o.msg)
        .collect()
}

fn last_state(out: &[Outbound], conn: u64) -> Option<PlayerView> {
    to(out, conn).into_iter().rev().find_map(|m| match m {
        ServerMsg::State { view } => Some(view.clone()),
        _ => None,
    })
}

fn error_code(out: &[Outbound], conn: u64) -> Option<ErrorCode> {
    to(out, conn).into_iter().find_map(|m| match m {
        ServerMsg::Error { code, .. } => Some(*code),
        _ => None,
    })
}

fn assert_redacted(view: &PlayerView, viewer: u8) {
    assert_eq!(view.viewer, Some(viewer));
    for (owner, seat) in view.seats.iter().enumerate() {
        for slot in &seat.grid {
            if owner as u8 != viewer {
                assert!(
                    !matches!(slot, SlotView::Peeked { .. }),
                    "seat {viewer} sees a peeked card of seat {owner}"
                );
            }
        }
    }
}

/// Pick a simple legal action from a view (draw → flip first face-down → keep).
fn next_action(view: &PlayerView) -> Action {
    let me = view.viewer.unwrap() as usize;
    match view.turn {
        TurnState::AwaitDraw => Action::DrawFromDeck,
        TurnState::AwaitFlip { .. } => {
            let slot = view.seats[me]
                .grid
                .iter()
                .position(|s| !matches!(s, SlotView::FaceUp { .. }))
                .expect("a face-down slot exists") as u8;
            Action::Flip { slot }
        }
        TurnState::AwaitResolve { .. } => Action::Keep,
    }
}

/// A room with Ann (host, conn 1) and Ben (conn 2) seated.
fn ann_and_ben() -> (Room, u64, u64, String) {
    let mut room = Room::new("ABCD".to_string(), TIMING, 0);
    let (ann, out) = room.join("Ann", "ann-token".to_string(), 0);
    let ann = ann.unwrap();
    assert!(matches!(
        to(&out, ann)[0],
        ServerMsg::RoomJoined { seat: 0, .. }
    ));
    let (ben, out) = room.join("Ben", "ben-token".to_string(), 0);
    let ben = ben.unwrap();
    assert!(matches!(
        to(&out, ben)[0],
        ServerMsg::RoomJoined { seat: 1, .. }
    ));
    // Ann sees Ben arrive.
    assert!(to(&out, ann).iter().any(
        |m| matches!(m, ServerMsg::Lobby { state } if state.seats.len() == 2 && state.you == 0)
    ));
    (room, ann, ben, "ben-token".to_string())
}

/// Let due bots act until a human is up or the hole is over.
fn run_bots(room: &mut Room, now: &mut u64, out: &mut Vec<Outbound>) {
    let mut bot = EasyBot;
    let mut rng = ChaCha8Rng::seed_from_u64(7);
    loop {
        *now += TIMING.bot_step_ms;
        let tick = room.tick(*now);
        out.extend(tick.out);
        if !tick.bot_due {
            return;
        }
        let Some((seat, _, view)) = room.bot_turn() else {
            return;
        };
        let action = bot.decide(&view, &mut rng);
        out.extend(room.bot_acted(seat, action, *now));
    }
}

#[test]
fn full_online_flow() {
    let (mut room, ann, ben, ben_token) = ann_and_ben();
    let mut now = 10;

    // Ann adds a bot; Ben may not.
    let out = room.client_msg(ann, ClientMsg::AddBot { difficulty: Difficulty::Easy }, 0, now);
    assert!(to(&out, ben).iter().any(|m| matches!(
        m,
        ServerMsg::Lobby { state } if state.seats.len() == 3 && state.seats[2].name == "Easy bot 1"
    )));
    let out = room.client_msg(ben, ClientMsg::AddBot { difficulty: Difficulty::Easy }, 0, now);
    assert_eq!(error_code(&out, ben), Some(ErrorCode::NotHost));
    let out = room.client_msg(ben, ClientMsg::StartMatch { holes: 1 }, 0, now);
    assert_eq!(error_code(&out, ben), Some(ErrorCode::NotHost));

    // Ann starts a one-hole match.
    let out = room.client_msg(ann, ClientMsg::StartMatch { holes: 1 }, 42, now);
    let mut ann_view = last_state(&out, ann).unwrap();
    let mut ben_view = last_state(&out, ben).unwrap();
    let out = room.client_msg(ann, ClientMsg::AddBot { difficulty: Difficulty::Easy }, 0, now);
    assert_eq!(error_code(&out, ann), Some(ErrorCode::MatchAlreadyStarted));

    let mut steps = 0;
    loop {
        assert_redacted(&ann_view, 0);
        assert_redacted(&ben_view, 1);
        if let PhaseView::HoleComplete { scores, .. } = &ann_view.phase {
            assert_eq!(scores.len(), 3);
            break;
        }
        let mut out = Vec::new();
        if ann_view.current == 0 && !ann_view.legal_actions.is_empty() {
            out.extend(room.client_msg(ann, ClientMsg::Act { action: next_action(&ann_view) }, 0, now));
        } else if ben_view.current == 1 && !ben_view.legal_actions.is_empty() {
            out.extend(room.client_msg(ben, ClientMsg::Act { action: next_action(&ben_view) }, 0, now));
        }
        run_bots(&mut room, &mut now, &mut out);
        ann_view = last_state(&out, ann).unwrap_or(ann_view);
        ben_view = last_state(&out, ben).unwrap_or(ben_view);
        steps += 1;
        assert!(steps < 500, "hole did not complete");
    }

    // Ben drops and rejoins with his token; his private view is restored.
    let known = |v: &PlayerView| -> Vec<SlotView> {
        v.seats[1]
            .grid
            .iter()
            .filter(|s| matches!(s, SlotView::Peeked { .. } | SlotView::FaceUp { .. }))
            .cloned()
            .collect()
    };
    let before = known(&ben_view);
    room.disconnected(ben, now);
    let (ben2, out) = room.rejoin(ben_token, now);
    let ben2 = ben2.unwrap();
    assert!(matches!(
        to(&out, ben2)[0],
        ServerMsg::RoomJoined { seat: 1, .. }
    ));
    let restored = last_state(&out, ben2).unwrap();
    assert_redacted(&restored, 1);
    assert_eq!(before, known(&restored), "rejoin lost private knowledge");
    // The old connection no longer speaks for the seat.
    assert!(room.client_msg(ben, ClientMsg::Ping, 0, now).is_empty());

    // A bad token is rejected.
    let (r, out) = room.rejoin("not-a-token".to_string(), now);
    assert_eq!(r, Err(ErrorCode::BadToken));
    assert!(out.is_empty());
}

#[test]
fn lobby_disconnect_grace_allows_rejoin() {
    let (mut room, ann, ben, ben_token) = ann_and_ben();
    let out = room.disconnected(ben, 100);
    // Ann still sees Ben's (offline) seat.
    assert!(to(&out, ann).iter().any(|m| matches!(
        m,
        ServerMsg::Lobby { state } if state.seats.len() == 2 && !state.seats[1].connected
    )));
    // Within the grace period the token reclaims the seat.
    assert!(room.tick(100 + LOBBY_GRACE_MS - 1).out.is_empty());
    let (r, out) = room.rejoin(ben_token.clone(), 200);
    let ben2 = r.unwrap();
    assert!(matches!(
        to(&out, ben2)[0],
        ServerMsg::RoomJoined { seat: 1, .. }
    ));

    // Once the grace period has run out, the seat is freed.
    room.disconnected(ben2, 1000);
    assert_eq!(room.next_deadline(), Some(1000 + LOBBY_GRACE_MS));
    let tick = room.tick(1000 + LOBBY_GRACE_MS);
    assert!(!tick.close);
    assert!(to(&tick.out, ann).iter().any(
        |m| matches!(m, ServerMsg::Lobby { state } if state.seats.len() == 1)
    ));
    let (r, _) = room.rejoin(ben_token, 2000 + LOBBY_GRACE_MS);
    assert_eq!(r, Err(ErrorCode::BadToken));
}

#[test]
fn host_kicks_player_from_lobby() {
    let (mut room, ann, ben, ben_token) = ann_and_ben();
    // Ben must not be able to kick (not host).
    let out = room.client_msg(ben, ClientMsg::RemoveSeat { seat: 0 }, 0, 5);
    assert_eq!(error_code(&out, ben), Some(ErrorCode::NotHost));

    let out = room.client_msg(ann, ClientMsg::RemoveSeat { seat: 1 }, 0, 5);
    assert_eq!(error_code(&out, ben), Some(ErrorCode::Kicked));
    assert!(to(&out, ann).iter().any(
        |m| matches!(m, ServerMsg::Lobby { state } if state.seats.len() == 1)
    ));

    // The kicked token is dead.
    let (r, _) = room.rejoin(ben_token, 6);
    assert_eq!(r, Err(ErrorCode::BadToken));
}

#[test]
fn mid_game_kick_hands_seat_to_bot() {
    let (mut room, ann, ben, _) = ann_and_ben();
    let mut now = 10;
    let out = room.client_msg(ann, ClientMsg::StartMatch { holes: 1 }, 3, now);
    let mut view = last_state(&out, ann).unwrap();

    // Kick Ben; he's told, and his seat plays on as a bot.
    let mut out = room.client_msg(ann, ClientMsg::RemoveSeat { seat: 1 }, 0, now);
    assert_eq!(error_code(&out, ben), Some(ErrorCode::Kicked));
    assert_eq!(room.seats[1].difficulty, Some(Difficulty::Medium));
    run_bots(&mut room, &mut now, &mut out);
    view = last_state(&out, ann).unwrap_or(view);

    // Ann alone can finish the hole: the takeover bot moves for seat 1.
    let mut n = 0;
    loop {
        if matches!(view.phase, PhaseView::HoleComplete { .. }) {
            break;
        }
        let mut out = Vec::new();
        if view.current == 0 && !view.legal_actions.is_empty() {
            out.extend(room.client_msg(ann, ClientMsg::Act { action: next_action(&view) }, 0, now));
        }
        run_bots(&mut room, &mut now, &mut out);
        view = last_state(&out, ann).unwrap_or(view);
        n += 1;
        assert!(n < 500, "hole did not complete after the kick");
    }
}

#[test]
fn emotes_broadcast_and_rate_limit() {
    let (mut room, ann, ben, _) = ann_and_ben();
    let first = room.client_msg(ben, ClientMsg::Emote { emote: Emote::Fire }, 0, 1000);
    let second = room.client_msg(ben, ClientMsg::Emote { emote: Emote::Cry }, 0, 1010);
    let pong = room.client_msg(ben, ClientMsg::Ping, 0, 1020);
    assert!(second.is_empty());
    assert!(matches!(to(&pong, ben)[0], ServerMsg::Pong));
    // Everyone at the table sees it, not just the sender.
    for conn in [ann, ben] {
        let seen: Vec<_> = to(&first, conn)
            .into_iter()
            .filter_map(|m| match m {
                ServerMsg::Emote { seat, emote } => Some((*seat, *emote)),
                _ => None,
            })
            .collect();
        assert_eq!(seen, vec![(1, Emote::Fire)]);
    }
}

#[test]
fn join_is_refused_when_full_or_started() {
    let (mut room, ann, _, _) = ann_and_ben();
    room.client_msg(ann, ClientMsg::AddBot { difficulty: Difficulty::Hard }, 0, 1);
    let out = room.client_msg(ann, ClientMsg::AddBot { difficulty: Difficulty::Hard }, 0, 1);
    assert!(to(&out, ann).iter().any(|m| matches!(
        m,
        ServerMsg::Lobby { state } if state.seats[3].name == "Hard bot 2"
    )));
    let out = room.client_msg(ann, ClientMsg::AddBot { difficulty: Difficulty::Easy }, 0, 1);
    assert_eq!(error_code(&out, ann), Some(ErrorCode::RoomFull));
    let (r, out) = room.join("Cat", "cat".to_string(), 1);
    assert_eq!(r, Err(ErrorCode::RoomFull));
    assert!(out.is_empty());

    // A bot seat can be removed in the lobby; then the match starts and
    // late joiners are turned away.
    room.client_msg(ann, ClientMsg::RemoveSeat { seat: 3 }, 0, 1);
    assert_eq!(room.seats.len(), 3);
    room.client_msg(ann, ClientMsg::StartMatch { holes: 0 }, 1, 1);
    assert_eq!(room.game.as_ref().unwrap().config.holes, 1);
    let (r, _) = room.join("Cat", "cat".to_string(), 1);
    assert_eq!(r, Err(ErrorCode::MatchAlreadyStarted));
    // Mid-game a bot cannot be removed.
    let out = room.client_msg(ann, ClientMsg::RemoveSeat { seat: 2 }, 0, 1);
    assert_eq!(error_code(&out, ann), Some(ErrorCode::MatchAlreadyStarted));
}

#[test]
fn errors_name_their_code_and_rules() {
    let (mut room, ann, ben, _) = ann_and_ben();
    let out = room.client_msg(ann, ClientMsg::Act { action: Action::DrawFromDeck }, 0, 1);
    assert!(matches!(
        to(&out, ann)[0],
        ServerMsg::Error { code: ErrorCode::MatchNotStarted, message } if message == "MatchNotStarted"
    ));
    let out = room.client_msg(ann, ClientMsg::JoinRoom { code: "X".into(), name: "Y".into() }, 0, 1);
    assert_eq!(error_code(&out, ann), Some(ErrorCode::BadRequest));
    room.client_msg(ann, ClientMsg::StartMatch { holes: 30 }, 9, 1);
    assert_eq!(room.game.as_ref().unwrap().config.holes, 18);
    // Ben acting out of turn is told why.
    let out = room.client_msg(ben, ClientMsg::Act { action: Action::DrawFromDeck }, 0, 1);
    assert!(matches!(
        to(&out, ben)[0],
        ServerMsg::Error { code: ErrorCode::BadAction, message } if message == "not your turn"
    ));
    // Unknown connections are ignored.
    assert!(room.client_msg(99, ClientMsg::Ping, 0, 1).is_empty());
    assert!(room.disconnected(99, 1).is_empty());
}

#[test]
fn empty_room_closes_at_the_gc_check() {
    let mut room = Room::new("WXYZ".to_string(), TIMING, 0);
    assert_eq!(room.next_deadline(), Some(TIMING.gc_ms));
    // Someone joined: the check lapses without closing.
    let (ann, _) = room.join("Ann", "t".to_string(), 1);
    assert_eq!(room.gc_at, None);
    let ann = ann.unwrap();
    // Everyone left: the check is scheduled again, and closes the room.
    room.disconnected(ann, 50);
    assert_eq!(room.gc_at, Some(50 + TIMING.gc_ms));
    assert!(!room.tick(49 + TIMING.gc_ms).close);
    assert!(room.tick(50 + TIMING.gc_ms).close);
}
