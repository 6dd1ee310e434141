use hfc::board::Board;
use hfc::fen_text::{file_ch, rank_ch};
use hfc::game::Outcome;
use hfc::moves::{mv_from, mv_is_promo, mv_promo_piece, mv_to};
use hfc::notation::{move_to_san, move_to_uci, score_str, sq_str, to_pgn};
use hfc::tables::{init_tables, Tables};

const START: &str = "rnbqkbnr/pppppppp/8/8/8/8/PPPPPPPP/RNBQKBNR w KQkq - 0 1";

fn find(t: &Tables, b: &Board, uci: &str) -> u16 {
    *b.legal_moves(t).iter().find(|&&m| move_to_uci(m) == uci).expect("a legal move")
}

fn san(fen: &str, uci: &str) -> String {
    let t = init_tables();
    let b = Board::from_fen(&t, fen);
    move_to_san(&t, &b, find(&t, &b, uci))
}

#[test]
fn squares_have_names() {
    assert_eq!((file_ch(0), rank_ch(0)), ('a', '1'));
    assert_eq!((file_ch(63), rank_ch(63)), ('h', '8'));
    assert_eq!(sq_str(28), "e4");
}

#[test]
fn coordinates() {
    assert_eq!(move_to_uci(12 | 28 << 6), "e2e4");
    assert_eq!(move_to_uci(52 | 60 << 6 | 11 << 12), "e7e8q");
    assert_eq!(move_to_uci(52 | 61 << 6 | 12 << 12), "e7f8n");
    assert_eq!(move_to_uci(0xffff), "h8h8q");
    assert_eq!(move_to_uci(0), "a1a1");
}

#[test]
fn coordinates_tell_legal_moves_apart() {
    let t = init_tables();
    let b = Board::from_fen(&t, "rnbq1k1r/pp1Pbppp/2p5/8/2B5/8/PPP1NnPP/RNBQK2R w KQ - 1 8");
    let legal = b.legal_moves(&t);
    for &x in &legal {
        for &y in &legal {
            assert_eq!(move_to_uci(x) == move_to_uci(y), x == y);
            assert_eq!(move_to_san(&t, &b, x) == move_to_san(&t, &b, y), x == y);
        }
    }
    let promo = *legal.iter().find(|&&m| mv_is_promo(m)).unwrap();
    assert_eq!((mv_from(promo), mv_to(promo), mv_promo_piece(promo)), (51, 58, 1));
}

#[test]
fn algebraic_notation() {
    assert_eq!(san(START, "e2e4"), "e4");
    assert_eq!(san(START, "g1f3"), "Nf3");
    assert_eq!(san("4k3/8/8/3p4/4P3/8/8/4K3 w - - 0 1", "e4d5"), "exd5");
    assert_eq!(san("4k3/8/8/8/3pP3/8/8/4K3 b - e3 0 1", "d4e3"), "dxe3");
    assert_eq!(san("8/P6k/8/8/8/8/7K/8 w - - 0 1", "a7a8q"), "a8=Q");
    assert_eq!(san("1r5k/P7/8/8/8/8/7K/8 w - - 0 1", "a7b8n"), "axb8=N");
    assert_eq!(san("r3k2r/8/8/8/8/8/8/R3K2R w KQkq - 0 1", "e1g1"), "O-O");
    assert_eq!(san("r3k2r/8/8/8/8/8/8/R3K2R b KQkq - 0 1", "e8c8"), "O-O-O");
    // By file, by rank, and by both.
    assert_eq!(san("4k3/8/8/8/8/8/4K3/R6R w - - 0 1", "a1d1"), "Rad1");
    assert_eq!(san("4k3/8/8/R7/8/8/4K3/R7 w - - 0 1", "a1a3"), "R1a3");
    assert_eq!(san("1k6/8/8/8/4Q2Q/8/8/K6Q w - - 0 1", "h4e1"), "Qh4e1");
    // A pinned rival is no rival.
    assert_eq!(san("4r2k/8/8/8/8/4N3/8/4K1N1 w - - 0 1", "g1e2"), "Ne2");
    // Check and mate.
    assert_eq!(san("4k3/8/8/8/8/8/8/R3K3 w - - 0 1", "a1a8"), "Ra8+");
    assert_eq!(san("6k1/5ppp/8/8/8/8/8/R3K3 w - - 0 1", "a1a8"), "Ra8#");
}

#[test]
fn games_are_written_whole() {
    let t = init_tables();
    let mut b = Board::from_fen(&t, START);
    let mut moves = Vec::new();
    for u in ["f2f3", "e7e5", "g2g4", "d8h4"] {
        let m = find(&t, &b, u);
        moves.push(m);
        b.make(m);
    }
    let s = to_pgn(&t, START, &moves, "one", "two", Outcome::Win(1), 3);
    assert_eq!(
        s,
        "[Event \"High-Frequency Chess\"]\n[Round \"3\"]\n[White \"one\"]\n[Black \"two\"]\n\
         [Result \"0-1\"]\n[FEN \"rnbqkbnr/pppppppp/8/8/8/8/PPPPPPPP/RNBQKBNR w KQkq - 0 1\"]\n\
         [SetUp \"1\"]\n[Termination \"normal\"]\n\n1. f3 e5 2. g4 Qh4# 0-1\n\n"
    );
}

#[test]
fn games_may_begin_with_black() {
    let t = init_tables();
    let fen = "4k3/8/8/8/8/8/8/R3K3 b - - 0 1";
    let mut b = Board::from_fen(&t, fen);
    let mut moves = Vec::new();
    for u in ["e8d7", "a1a2", "d7d6", "a2a3", "d6d5", "a3a4", "d5e5", "a4a5", "e5e4"] {
        let m = find(&t, &b, u);
        moves.push(m);
        b.make(m);
    }
    let s = to_pgn(&t, fen, &moves, "w", "b", Outcome::Forfeit(0, "illegal move"), 1);
    assert!(s.contains("[Termination \"forfeit: illegal move\"]"));
    assert!(s.ends_with(
        "1... Kd7 2. Ra2 Kd6 3. Ra3 Kd5 4. Ra4 Ke5 5. Ra5+ \nKe4 0-1\n\n"
    ));
}

#[test]
fn scores_as_text() {
    assert_eq!(score_str(Outcome::Win(0)), "1-0");
    assert_eq!(score_str(Outcome::Win(1)), "0-1");
    assert_eq!(score_str(Outcome::Draw("stalemate")), "1/2-1/2");
    assert_eq!(score_str(Outcome::Forfeit(0, "x")), "0-1");
    assert_eq!(score_str(Outcome::Forfeit(1, "x")), "1-0");
    assert_eq!(score_str(Outcome::Ongoing), "*");
}
