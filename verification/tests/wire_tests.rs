//! Tests for the game wire format: decoding, encoding, and the round trip.

use vpg::game::Player;
use vpg::game::VertexIndex;
use vpg::wire::FormatError;
use vpg::wire::parse_pg;
use vpg::wire::write_pg;

#[test]
fn parse_decodes_header_and_records() {
    // Two vertices, three edges, initial vertex 0; vertex 0 is Even with
    // priority 2 and successors 1 and 0; vertex 1 is Odd with priority 1
    // and successor 0.
    let numbers = vec![2, 3, 0, 0, 2, 2, 1, 0, 1, 1, 1, 0];
    let game = parse_pg(&numbers).expect("well-formed stream");
    assert_eq!(game.num_of_vertices(), 2);
    assert_eq!(game.num_of_edges(), 3);
    assert_eq!(game.initial_vertex().value(), 0);
    assert_eq!(game.owner(VertexIndex::new(0)), Player::Even);
    assert_eq!(game.owner(VertexIndex::new(1)), Player::Odd);
    assert_eq!(game.priority(VertexIndex::new(0)).value(), 2);
    let succs: Vec<usize> = game
        .outgoing_edges(VertexIndex::new(0))
        .iter()
        .map(|w| w.value())
        .collect();
    assert_eq!(succs, vec![1, 0]);
}

#[test]
fn encode_then_decode_is_the_identity() {
    let numbers = vec![2, 3, 0, 0, 2, 2, 1, 0, 1, 1, 1, 0];
    let game = parse_pg(&numbers).expect("well-formed stream");
    assert_eq!(write_pg(&game), numbers);
    let again = parse_pg(&write_pg(&game)).expect("round trip");
    assert_eq!(write_pg(&again), numbers);
}

#[test]
fn parse_rejects_malformed_streams() {
    assert_eq!(parse_pg(&vec![1, 1]).err(), Some(FormatError::Truncated));
    // Record cut off.
    assert_eq!(
        parse_pg(&vec![1, 1, 0, 0, 2]).err(),
        Some(FormatError::Truncated)
    );
    // Owner out of range.
    assert_eq!(
        parse_pg(&vec![1, 1, 0, 7, 2, 1, 0]).err(),
        Some(FormatError::BadOwner)
    );
    // Numbers after the last record.
    assert_eq!(
        parse_pg(&vec![1, 1, 0, 0, 2, 1, 0, 9]).err(),
        Some(FormatError::TrailingInput)
    );
    // Header announces the wrong edge count.
    assert_eq!(
        parse_pg(&vec![1, 2, 0, 0, 2, 1, 0]).err(),
        Some(FormatError::WrongCounts)
    );
    // A successor that does not exist.
    assert_eq!(
        parse_pg(&vec![1, 1, 0, 0, 2, 1, 5]).err(),
        Some(FormatError::DanglingVertex)
    );
    // An initial vertex that does not exist.
    assert_eq!(
        parse_pg(&vec![1, 1, 9, 0, 2, 1, 0]).err(),
        Some(FormatError::DanglingVertex)
    );
}
