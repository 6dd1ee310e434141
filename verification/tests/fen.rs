use hfc::board::Board;
use hfc::tables::init_tables;

fn fault(fen: &str) -> String {
    let t = init_tables();
    match Board::try_from_fen(&t, fen) {
        Ok(b) => panic!("{fen:?} was read as {}", b.to_fen()),
        Err(e) => e,
    }
}

#[test]
fn positions_read_back_as_they_were_written() {
    let t = init_tables();
    for fen in [
        "rnbqkbnr/pppppppp/8/8/8/8/PPPPPPPP/RNBQKBNR w KQkq - 0 1",
        "r3k2r/p1ppqpb1/bn2pnp1/3PN3/1p2P3/2N2Q1p/PPPBBPPP/R3K2R w KQkq - 0 1",
        "4k3/8/8/8/3pP3/8/8/4K3 b - e3 0 1",
        "r3k3/8/8/8/8/8/8/4K2R b Kq - 17 1",
        "8/2p5/3p4/KP5r/1R3p1k/8/4P1P1/8 w - - 255 1",
    ] {
        assert_eq!(Board::from_fen(&t, fen).to_fen(), fen);
    }
}

#[test]
fn missing_fields_have_defaults() {
    let t = init_tables();
    let b = Board::from_fen(&t, "  4k3/8/8/8/8/8/8/4K3  ");
    assert_eq!(b.to_fen(), "4k3/8/8/8/8/8/8/4K3 w - - 0 1");
    let b = Board::from_fen(&t, "4k3/8/8/8/8/8/8/4K3\tb\u{3000}- -");
    assert_eq!(b.to_fen(), "4k3/8/8/8/8/8/8/4K3 b - - 0 1");
    let b = Board::from_fen(&t, "4k3/8/8/8/8/8/8/4K3 w - - +007 12");
    assert_eq!(b.halfmove, 7);
}

#[test]
fn an_en_passant_square_nobody_can_use_is_dropped() {
    let t = init_tables();
    let b = Board::from_fen(&t, "4k3/8/8/8/4P3/8/8/4K3 b - e3 0 1");
    assert_eq!(b.ep, 64);
}

#[test]
fn placements_are_checked() {
    assert_eq!(fault(""), "placement has 1 ranks, expected 8");
    assert_eq!(fault("8/8/8 w"), "placement has 3 ranks, expected 8");
    assert_eq!(fault("4k3/8/8/8/8/8/8/4K30 w"), "rank 1: '0' is not a run of 1-8");
    assert_eq!(fault("9/8/8/8/8/8/8/8"), "rank 8: '9' is not a run of 1-8");
    assert_eq!(fault("4k3/8/8/x7/8/8/8/4K3"), "rank 5: 'x' is not a piece");
    assert_eq!(fault("4k3/8/8/8/8/8/8/4K4"), "rank 1 describes 9 squares, expected 8");
    assert_eq!(fault("4k3/7/8/8/8/8/8/4K3"), "rank 7 describes 7 squares, expected 8");
    assert_eq!(fault("4k3/8/8/8/8/8/8/8K"), "rank 1 describes more than 8 squares");
    assert_eq!(fault("4k2p/8/8/8/8/8/8/4K3"), "a pawn on rank 8");
    assert_eq!(fault("8/8/8/8/8/8/8/4K3"), "black has 0 kings, expected 1");
    assert_eq!(fault("4k3/8/8/8/8/8/8/3KK3"), "white has 2 kings, expected 1");
}

#[test]
fn the_other_fields_are_checked() {
    let p = "4k3/8/8/8/8/8/8/4K3";
    assert_eq!(fault(&format!("{p} x")), "side to move is 'x', expected w or b");
    assert_eq!(fault(&format!("{p} w z")), "'z' is not a castling right");
    assert_eq!(
        fault(&format!("{p} w K")),
        "claims white kingside castling, but the king or rook has moved"
    );
    assert_eq!(
        fault("r3k3/8/8/8/8/8/8/R3K3 w Qqk"),
        "claims black kingside castling, but the king or rook has moved"
    );
    assert_eq!(fault(&format!("{p} w - e9")), "en passant square 'e9' is not a square");
    assert_eq!(fault(&format!("{p} w - e")), "en passant square 'e' is not a square");
    assert_eq!(fault(&format!("{p} w - e3")), "en passant square 'e3' is not on rank 6");
    assert_eq!(fault(&format!("{p} b - e6")), "en passant square 'e6' is not on rank 3");
    assert_eq!(fault(&format!("{p} w - e6")), "en passant square 'e6' with no pawn to capture");
    assert_eq!(fault(&format!("{p} w - - 256")), "halfmove clock '256' is not a number");
    assert_eq!(fault(&format!("{p} w - - -1")), "halfmove clock '-1' is not a number");
}

#[test]
fn the_side_that_moved_is_not_in_check() {
    assert_eq!(
        fault("4k3/4R3/8/8/8/8/8/4K3 w - - 0 1"),
        "the side not to move is in check"
    );
}

#[test]
fn both_readers_give_one_board() {
    let t = init_tables();
    for fen in ["rnbqkbnr/pppppppp/8/8/8/8/PPPPPPPP/RNBQKBNR w KQkq - 0 1", "4k3/8/8/8/3pP3/8/8/4K3 b - e3 7 1"] {
        let a = Board::try_from_fen(&t, fen).unwrap();
        let b = Board::from_fen(&t, fen);
        assert_eq!((a.pieces, a.colors, a.mailbox), (b.pieces, b.colors, b.mailbox));
        assert_eq!((a.stm, a.castle, a.ep, a.halfmove), (b.stm, b.castle, b.ep, b.halfmove));
    }
}
