use cake_room::room::GameHandler;
use cake_room::replay::{replay_commit, replay_ranking, replay_scores};
use cake_room::types::{Address, Broadcast, Cake, GameError, Operation, PeerId, Phase, Player, Position};
use rand_chacha::rand_core::SeedableRng;
use rand_chacha::ChaCha20Rng;

fn addr(n: u32) -> Address {
    Address { high: 0xaa00 + n as u128, low: n }
}

fn peer(n: u32) -> PeerId {
    PeerId { high: 0xbb00 + n as u128, low: n }
}

fn player(n: u32) -> Player {
    Player { peer: peer(n), account: addr(n) }
}

fn rng() -> ChaCha20Rng {
    ChaCha20Rng::from_seed([7u8; 32])
}

fn two_player_room() -> GameHandler {
    GameHandler::create(&vec![player(1), player(2)], rng(), 0)
}

fn mv(room: &mut GameHandler, who: u32, row: u64, col: u64, now: u64) -> Result<Vec<Broadcast>, GameError> {
    room.handle(peer(who), "move", &vec![Some(row), Some(col)], now)
}

fn cell(row: u64, col: u64) -> Position {
    Position { row, col }
}

#[test]
fn create_places_players_at_corners() {
    let room = GameHandler::create(&vec![player(1), player(2), player(3), player(4)], rng(), 0);
    assert_eq!(
        room.status(),
        vec![(addr(1), 0, 0, 0), (addr(2), 13, 0, 0), (addr(3), 0, 20, 0), (addr(4), 13, 20, 0)]
    );
    assert_eq!(room.phase(), Phase::Started);
    assert!(room.operations().is_empty());
}

#[test]
fn scenario_seeded_room_replays_to_single_winner() {
    let mut room = two_player_room();
    assert_eq!(room.tick_at(20_000, cell(3, 4)), Ok(vec![Broadcast::Cake(1, 3, 4)]));
    assert_eq!(room.tick_at(21_000, cell(5, 5)), Ok(vec![Broadcast::Cake(2, 5, 5)]));
    let events = mv(&mut room, 1, 3, 4, 21_500).unwrap();
    assert_eq!(events, vec![Broadcast::Moved(addr(1), 3, 4), Broadcast::Eaten(1, Some(addr(1)), 1)]);
    assert_eq!(room.status()[0], (addr(1), 3, 4, 1));
    assert_eq!(room.operations().last(), Some(&Operation::Move(addr(1), 3, 4)));
    let events = room.tick_at(26_000, cell(7, 7)).unwrap();
    assert_eq!(events, vec![Broadcast::Eaten(2, None, 0), Broadcast::Cake(3, 7, 7)]);
    assert_eq!(room.consumed_cakes().len(), 2);
    assert_eq!(
        room.operations()[..4].to_vec(),
        vec![
            Operation::CakeCreated(1, 3, 4),
            Operation::CakeCreated(2, 5, 5),
            Operation::Move(addr(1), 3, 4),
            Operation::CakeMissed(2),
        ]
    );
    let log = vec![
        Operation::CakeCreated(1, 3, 4),
        Operation::CakeCreated(2, 5, 5),
        Operation::Move(addr(1), 3, 4),
        Operation::CakeMissed(2),
    ];
    assert_eq!(replay_ranking(&log), Ok(vec![addr(1)]));
    assert_eq!(replay_scores(&log), Ok(vec![(addr(1), 1)]));
}

#[test]
fn move_too_soon_is_refused_without_effect() {
    let mut room = two_player_room();
    room.tick_at(20_000, cell(3, 4)).unwrap();
    mv(&mut room, 1, 2, 2, 20_100).unwrap();
    let log_len = room.operations().len();
    let status = room.status();
    assert_eq!(mv(&mut room, 1, 3, 4, 20_399), Err(GameError::Timeout));
    assert_eq!(room.operations().len(), log_len);
    assert_eq!(room.status(), status);
    assert_eq!(room.alive_cakes().len(), 1);
    assert!(mv(&mut room, 1, 3, 4, 20_400).is_ok());
    assert_eq!(room.status()[0], (addr(1), 3, 4, 1));
}

#[test]
fn first_move_right_after_creation_is_too_soon() {
    let mut room = GameHandler::create(&vec![player(1)], rng(), 1_000);
    assert_eq!(mv(&mut room, 1, 1, 1, 1_299), Err(GameError::Timeout));
    assert!(mv(&mut room, 1, 1, 1, 1_300).is_ok());
}

#[test]
fn expired_cake_is_missed_and_broadcast_unclaimed() {
    let mut room = two_player_room();
    room.tick_at(20_000, cell(1, 1)).unwrap();
    assert_eq!(room.tick_at(23_999, cell(2, 2)), Ok(vec![Broadcast::Cake(2, 2, 2)]));
    let events = room.tick_at(24_000, cell(3, 3)).unwrap();
    assert_eq!(events, vec![Broadcast::Eaten(1, None, 0), Broadcast::Cake(3, 3, 3)]);
    assert_eq!(room.consumed_cakes(), &vec![Cake { index: 1, position: cell(1, 1), timeout: 20_000 }]);
    assert!(room.operations().contains(&Operation::CakeMissed(1)));
    assert_eq!(room.alive_cakes().len(), 2);
}

#[test]
fn expiry_walks_the_front_and_reports_last_first() {
    let mut room = two_player_room();
    room.tick_at(20_000, cell(1, 1)).unwrap();
    room.tick_at(21_000, cell(2, 2)).unwrap();
    room.tick_at(23_000, cell(3, 3)).unwrap();
    let events = room.tick_at(25_500, cell(4, 4)).unwrap();
    assert_eq!(
        events,
        vec![Broadcast::Eaten(2, None, 0), Broadcast::Eaten(1, None, 0), Broadcast::Cake(4, 4, 4)]
    );
    let indices: Vec<u32> = room.alive_cakes().iter().map(|c| c.index).collect();
    assert_eq!(indices, vec![3, 4]);
}

#[test]
fn two_cakes_on_one_cell_are_eaten_together() {
    let mut room = two_player_room();
    room.tick_at(20_000, cell(3, 4)).unwrap();
    room.tick_at(21_000, cell(3, 4)).unwrap();
    let events = mv(&mut room, 2, 3, 4, 21_500).unwrap();
    assert_eq!(
        events,
        vec![
            Broadcast::Moved(addr(2), 3, 4),
            Broadcast::Eaten(2, Some(addr(2)), 1),
            Broadcast::Eaten(1, Some(addr(2)), 2),
        ]
    );
    assert_eq!(room.status()[1], (addr(2), 3, 4, 2));
    assert!(room.alive_cakes().is_empty());
    assert_eq!(room.consumed_cakes().len(), 2);
}

#[test]
fn unknown_peer_is_refused() {
    let mut room = two_player_room();
    assert_eq!(mv(&mut room, 9, 1, 1, 5_000), Err(GameError::NoPlayer));
}

#[test]
fn malformed_calls_are_refused() {
    let mut room = two_player_room();
    assert_eq!(room.handle(peer(1), "jump", &vec![Some(1), Some(1)], 5_000), Err(GameError::Params));
    assert_eq!(room.handle(peer(1), "move", &vec![Some(1)], 5_000), Err(GameError::Params));
    assert_eq!(room.handle(peer(1), "move", &vec![Some(1), Some(2), Some(3)], 5_000), Err(GameError::Params));
    assert_eq!(room.handle(peer(1), "move", &vec![None, Some(2)], 5_000), Err(GameError::Params));
    assert!(room.operations().is_empty());
    assert_eq!(room.status()[0], (addr(1), 0, 0, 0));
    assert!(mv(&mut room, 1, 1, 1, 5_000).is_ok());
}

#[test]
fn moves_are_not_bounded_to_the_board() {
    let mut room = two_player_room();
    let events = mv(&mut room, 1, 99, 1_000, 5_000).unwrap();
    assert_eq!(events, vec![Broadcast::Moved(addr(1), 99, 1_000)]);
    assert_eq!(room.status()[0], (addr(1), 99, 1_000, 0));
}

/// Plays a full match: player 1 eats the odd cakes, player 2 the even ones.
fn play_to_the_end(room: &mut GameHandler) -> Vec<Vec<Broadcast>> {
    let mut all = vec![];
    let mut now: u64 = 20_000;
    for i in 1..=10u64 {
        let events = room.tick_at(now, cell(i % 14, i)).unwrap();
        assert_eq!(events.last(), Some(&Broadcast::Cake(i as u32, i % 14, i)));
        now += 1_000;
        let who = if i % 2 == 1 { 1 } else { 2 };
        all.push(mv(room, who, i % 14, i, now).unwrap());
        now += 4_000;
    }
    all
}

#[test]
fn match_ends_once_at_the_target() {
    let mut room = two_player_room();
    let all = play_to_the_end(&mut room);
    for events in &all[..9] {
        assert!(!events.contains(&Broadcast::Over));
    }
    assert_eq!(all[9].last(), Some(&Broadcast::Over));
    assert_eq!(room.phase(), Phase::Over);
    assert_eq!(room.consumed_cakes().len(), 10);
    let log_len = room.operations().len();
    assert_eq!(room.tick_at(100_000, cell(1, 1)), Err(GameError::Timeout));
    assert_eq!(room.tick(100_000), Err(GameError::Timeout));
    assert_eq!(mv(&mut room, 1, 1, 1, 100_000), Err(GameError::Timeout));
    assert_eq!(room.operations().len(), log_len);
}

#[test]
fn match_ends_by_expiry() {
    let mut room = two_player_room();
    let mut now: u64 = 20_000;
    let mut over_seen = 0;
    for i in 1..=11u64 {
        let events = room.tick_at(now, cell(1, 1)).unwrap();
        over_seen += events.iter().filter(|e| **e == Broadcast::Over).count();
        if i <= 10 {
            assert_eq!(events.last(), Some(&Broadcast::Cake(i as u32, 1, 1)));
        } else {
            assert_eq!(events, vec![Broadcast::Eaten(10, None, 0), Broadcast::Over]);
        }
        now += 5_000;
    }
    assert_eq!(over_seen, 1);
    assert_eq!(room.phase(), Phase::Over);
    assert_eq!(room.tick_at(now, cell(1, 1)), Err(GameError::Timeout));
}

#[test]
fn live_ranking_equals_replayed_ranking() {
    let mut room = two_player_room();
    play_to_the_end(&mut room);
    assert_eq!(room.status()[0].3, 5);
    assert_eq!(room.status()[1].3, 5);
    let live = room.ranking();
    assert_eq!(live, vec![addr(1), addr(2)]);
    assert_eq!(replay_ranking(room.operations()), Ok(live));
    let (bytes, proof) = room.prove();
    assert!(proof.is_empty());
    assert_eq!(replay_commit(room.operations()), Ok(bytes));
}

#[test]
fn ranking_orders_by_score_then_account() {
    let mut room = GameHandler::create(&vec![player(3), player(1), player(2)], rng(), 0);
    room.tick_at(20_000, cell(5, 5)).unwrap();
    room.tick_at(21_000, cell(6, 6)).unwrap();
    mv(&mut room, 2, 5, 5, 21_500).unwrap();
    mv(&mut room, 3, 6, 6, 21_500).unwrap();
    assert_eq!(room.ranking(), vec![addr(2), addr(3), addr(1)]);
    assert_eq!(replay_ranking(room.operations()), Ok(vec![addr(2), addr(3)]));
}

#[test]
fn prove_encodes_ranking_as_address_array() {
    let mut room = GameHandler::create(&vec![player(1)], rng(), 0);
    room.tick_at(20_000, cell(2, 2)).unwrap();
    mv(&mut room, 1, 2, 2, 20_500).unwrap();
    let (bytes, _) = room.prove();
    let mut expected = vec![0u8; 96];
    expected[31] = 0x20;
    expected[63] = 1;
    expected[76..92].copy_from_slice(&addr(1).high.to_be_bytes());
    expected[92..96].copy_from_slice(&addr(1).low.to_be_bytes());
    assert_eq!(bytes, expected);
}

#[test]
fn timer_waits_longer_before_the_first_spawn() {
    let mut room = two_player_room();
    assert_eq!(room.timer(), 20);
    room.tick_at(20_000, cell(1, 1)).unwrap();
    assert_eq!(room.timer(), 5);
    let joinable = GameHandler::pozk_create(player(1), rng(), 0);
    assert_eq!(joinable.timer(), 10);
}

#[test]
fn tick_draws_a_cell_of_the_board() {
    let mut room = two_player_room();
    for i in 0..10u64 {
        let events = room.tick(20_000 + i * 1_000).unwrap();
        match events.last() {
            Some(Broadcast::Cake(index, row, col)) => {
                assert_eq!(*index as u64, i + 1);
                assert!(*row < 14 && *col < 21);
            }
            other => panic!("no cake spawned: {:?}", other),
        }
    }
}

#[test]
fn joinable_room_starts_when_full() {
    let mut room = GameHandler::pozk_create(player(1), rng(), 0);
    assert_eq!(room.phase(), Phase::Forming);
    assert_eq!(room.pozk_join(player(2), 10), Ok(vec![]));
    assert_eq!(room.pozk_join(player(3), 20), Ok(vec![]));
    assert_eq!(room.pozk_join(player(4), 30), Ok(vec![Broadcast::Started]));
    assert_eq!(room.phase(), Phase::Started);
    assert_eq!(room.status()[3], (addr(4), 13, 20, 0));
    assert_eq!(room.pozk_join(player(5), 40), Ok(vec![]));
    assert_eq!(room.status().len(), 4);
}

#[test]
fn joinable_room_refuses_a_member_twice() {
    let mut room = GameHandler::pozk_create(player(1), rng(), 0);
    assert_eq!(room.pozk_join(player(1), 10), Err(GameError::Params));
    let same_account = Player { peer: peer(7), account: addr(1) };
    assert_eq!(room.pozk_join(same_account, 10), Err(GameError::Params));
    assert_eq!(room.status().len(), 1);
}

#[test]
fn joinable_room_starts_after_waiting_time() {
    let mut room = GameHandler::pozk_create(player(1), rng(), 1_000);
    assert_eq!(room.tick_at(120_999, cell(1, 1)), Ok(vec![]));
    assert_eq!(room.phase(), Phase::Forming);
    assert_eq!(room.tick_at(121_000, cell(1, 1)), Ok(vec![Broadcast::Started]));
    assert_eq!(room.phase(), Phase::Started);
    assert!(room.alive_cakes().is_empty());
    assert_eq!(room.tick_at(131_000, cell(1, 1)), Ok(vec![Broadcast::Cake(1, 1, 1)]));
}

#[test]
fn finished_joinable_room_refuses_joins() {
    let mut room = GameHandler::pozk_create(player(1), rng(), 0);
    assert_eq!(room.tick_at(120_000, cell(1, 1)), Ok(vec![Broadcast::Started]));
    let mut now: u64 = 130_000;
    for _ in 0..11 {
        room.tick_at(now, cell(2, 2)).unwrap();
        now += 5_000;
    }
    assert_eq!(room.phase(), Phase::Over);
    assert_eq!(room.pozk_join(player(2), now), Err(GameError::Timeout));
    assert_eq!(room.status().len(), 1);
}

#[test]
fn forming_room_accepts_moves() {
    let mut room = GameHandler::pozk_create(player(1), rng(), 0);
    assert_eq!(mv(&mut room, 1, 4, 4, 1_000), Ok(vec![Broadcast::Moved(addr(1), 4, 4)]));
    assert_eq!(room.operations(), &vec![Operation::Move(addr(1), 4, 4)]);
}
