use cake_room::replay::{replay_commit, replay_ranking, replay_scores, LogError};
use cake_room::types::{Address, Operation};

fn addr(n: u32) -> Address {
    Address { high: 0xcc00 + n as u128, low: n }
}

#[test]
fn replay_of_empty_log_ranks_nobody() {
    assert_eq!(replay_ranking(&vec![]), Ok(vec![]));
    assert_eq!(replay_scores(&vec![]), Ok(vec![]));
}

#[test]
fn replay_credits_first_arrival_only() {
    let log = vec![
        Operation::CakeCreated(1, 2, 2),
        Operation::Move(addr(1), 2, 2),
        Operation::Move(addr(2), 2, 2),
    ];
    assert_eq!(replay_scores(&log), Ok(vec![(addr(1), 1)]));
    assert_eq!(replay_ranking(&log), Ok(vec![addr(1)]));
}

#[test]
fn replay_credits_every_cake_on_the_cell() {
    let log = vec![
        Operation::CakeCreated(1, 2, 2),
        Operation::CakeCreated(2, 2, 2),
        Operation::CakeCreated(3, 4, 4),
        Operation::Move(addr(1), 2, 2),
        Operation::Move(addr(2), 4, 4),
    ];
    assert_eq!(replay_scores(&log), Ok(vec![(addr(1), 2), (addr(2), 1)]));
    assert_eq!(replay_ranking(&log), Ok(vec![addr(1), addr(2)]));
}

#[test]
fn replay_breaks_ties_by_account() {
    let log = vec![
        Operation::CakeCreated(1, 2, 2),
        Operation::CakeCreated(2, 3, 3),
        Operation::Move(addr(9), 2, 2),
        Operation::Move(addr(4), 3, 3),
    ];
    assert_eq!(replay_ranking(&log), Ok(vec![addr(4), addr(9)]));
}

#[test]
fn missed_cake_cannot_be_eaten() {
    let log = vec![
        Operation::CakeCreated(1, 2, 2),
        Operation::CakeMissed(1),
        Operation::Move(addr(1), 2, 2),
    ];
    assert_eq!(replay_ranking(&log), Ok(vec![]));
}

#[test]
fn missing_a_never_created_cake_is_fatal() {
    let log = vec![Operation::CakeCreated(1, 2, 2), Operation::CakeMissed(5)];
    assert_eq!(replay_ranking(&log), Err(LogError::UnknownCake(1)));
    assert_eq!(replay_commit(&log), Err(LogError::UnknownCake(1)));
}

#[test]
fn missing_an_eaten_cake_is_fatal() {
    let log = vec![
        Operation::CakeCreated(1, 2, 2),
        Operation::Move(addr(1), 2, 2),
        Operation::CakeMissed(1),
    ];
    assert_eq!(replay_scores(&log), Err(LogError::UnknownCake(2)));
}

#[test]
fn reused_cake_index_is_fatal() {
    let log = vec![
        Operation::CakeCreated(1, 2, 2),
        Operation::CakeCreated(1, 3, 3),
        Operation::CakeMissed(9),
    ];
    assert_eq!(replay_ranking(&log), Err(LogError::StaleIndex(1)));
    assert_eq!(replay_ranking(&vec![Operation::CakeCreated(0, 1, 1)]), Err(LogError::StaleIndex(0)));
}

#[test]
fn commit_is_the_abi_address_array() {
    let log = vec![
        Operation::CakeCreated(1, 2, 2),
        Operation::CakeCreated(2, 3, 3),
        Operation::Move(addr(2), 2, 2),
        Operation::Move(addr(1), 3, 3),
        Operation::CakeCreated(3, 5, 5),
        Operation::Move(addr(1), 5, 5),
    ];
    let bytes = replay_commit(&log).unwrap();
    assert_eq!(bytes.len(), 32 * 4);
    assert_eq!(bytes[31], 0x20);
    assert_eq!(bytes[63], 2);
    assert!(bytes[64..76].iter().all(|b| *b == 0));
    assert_eq!(&bytes[76..92], &addr(1).high.to_be_bytes());
    assert_eq!(&bytes[92..96], &addr(1).low.to_be_bytes());
    assert_eq!(&bytes[108..124], &addr(2).high.to_be_bytes());
    assert_eq!(&bytes[124..128], &addr(2).low.to_be_bytes());
}
