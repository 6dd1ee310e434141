use hfc::board::Board;
use hfc::game::{Game, Outcome};
use hfc::moves::{
    mv, mv_flag, mv_from, mv_is_cap, mv_is_promo, mv_promo_piece, mv_to, F_CAPTURE, F_DOUBLE, F_EP,
    F_KCASTLE, F_QCASTLE, F_QUIET,
};
use hfc::tables::{bishop_att, init_tables, queen_att, rook_att, Tables};

const START: &str = "rnbqkbnr/pppppppp/8/8/8/8/PPPPPPPP/RNBQKBNR w KQkq - 0 1";
const KIWIPETE: &str = "r3k2r/p1ppqpb1/bn2pnp1/3PN3/1p2P3/2N2Q1p/PPPBBPPP/R3K2R w KQkq - 0 1";

fn perft(t: &Tables, b: &mut Board, depth: u32) -> u64 {
    let legal = b.legal_moves(t);
    if depth == 1 {
        return legal.len() as u64;
    }
    let mut n = 0;
    for m in legal {
        let before = b.to_fen();
        let u = b.make(m);
        n += perft(t, b, depth - 1);
        b.unmake(m, u);
        assert_eq!(b.to_fen(), before);
    }
    n
}

fn sq(name: &str) -> u32 {
    let b = name.as_bytes();
    (b[1] - b'1') as u32 * 8 + (b[0] - b'a') as u32
}

fn find(t: &Tables, b: &Board, from: &str, to: &str) -> u16 {
    *b.legal_moves(t)
        .iter()
        .find(|&&m| mv_from(m) == sq(from) && mv_to(m) == sq(to))
        .expect("a legal move")
}

#[test]
fn perft_from_the_start() {
    let t = init_tables();
    let mut b = Board::from_fen(&t, START);
    assert_eq!(perft(&t, &mut b, 1), 20);
    assert_eq!(perft(&t, &mut b, 2), 400);
    assert_eq!(perft(&t, &mut b, 3), 8902);
}

#[test]
fn perft_with_everything_at_once() {
    let t = init_tables();
    let mut b = Board::from_fen(&t, KIWIPETE);
    assert_eq!(perft(&t, &mut b, 1), 48);
    assert_eq!(perft(&t, &mut b, 2), 2039);
}

#[test]
fn perft_with_pins_and_en_passant() {
    let t = init_tables();
    let mut b = Board::from_fen(&t, "8/2p5/3p4/KP5r/1R3p1k/8/4P1P1/8 w - - 0 1");
    assert_eq!(perft(&t, &mut b, 1), 14);
    assert_eq!(perft(&t, &mut b, 2), 191);
    assert_eq!(perft(&t, &mut b, 3), 2812);
}

#[test]
fn perft_with_promotions() {
    let t = init_tables();
    let mut b =
        Board::from_fen(&t, "rnbq1k1r/pp1Pbppp/2p5/8/2B5/8/PPP1NnPP/RNBQK2R w KQ - 1 8");
    assert_eq!(perft(&t, &mut b, 1), 44);
    assert_eq!(perft(&t, &mut b, 2), 1486);
}

#[test]
fn move_words_pack_and_unpack() {
    let m = mv(12, 28, F_DOUBLE);
    assert_eq!(m, 12 | 28 << 6 | 1 << 12);
    assert_eq!((mv_from(m), mv_to(m), mv_flag(m)), (12, 28, F_DOUBLE));
    assert!(!mv_is_cap(m) && !mv_is_promo(m));
    let p = mv(52, 61, 14);
    assert!(mv_is_cap(p) && mv_is_promo(p));
    assert_eq!(mv_promo_piece(p), 3);
    assert!(mv_is_cap(mv(0, 1, F_CAPTURE)) && mv_is_cap(mv(0, 1, F_EP)));
    assert!(!mv_is_cap(mv(0, 1, F_QUIET)) && !mv_is_cap(mv(4, 6, F_KCASTLE)));
}

#[test]
fn sliders_stop_at_the_first_man() {
    let t = init_tables();
    let occ = 1u64 << sq("a4") | 1 << sq("d1") | 1 << sq("c3");
    let rook = 1u64 << sq("a2") | 1 << sq("a3") | 1 << sq("a4") | 1 << sq("b1") | 1 << sq("c1")
        | 1 << sq("d1");
    assert_eq!(rook_att(&t, sq("a1"), occ), rook);
    let bishop = 1u64 << sq("b2") | 1 << sq("c3");
    assert_eq!(bishop_att(&t, sq("a1"), occ), bishop);
    assert_eq!(queen_att(&t, sq("a1"), occ), rook | bishop);
}

#[test]
fn buffers_hold_what_lists_hold() {
    let t = init_tables();
    let b = Board::from_fen(&t, KIWIPETE);
    let mut all = [0u16; 256];
    let n = b.gen_moves(&t, &mut all);
    assert_eq!(n, 48);
    let mut caps = [0u16; 256];
    let k = b.gen_caps(&t, &mut caps);
    assert_eq!(k, 8);
    assert!(caps[..k].iter().all(|m| all[..n].contains(m) && mv_is_cap(*m)));
    let mut legal = [7u16; 256];
    let l = b.legal_moves_into(&t, &mut legal);
    assert_eq!(legal[..l].to_vec(), b.legal_moves(&t));
    assert!(legal[l..].iter().all(|&m| m == 7));
}

#[test]
fn no_move_is_listed_twice() {
    let t = init_tables();
    for fen in [START, KIWIPETE, "8/2p5/3p4/KP5r/1R3p1k/8/4P1P1/8 w - - 0 1"] {
        let mut l = Board::from_fen(&t, fen).legal_moves(&t);
        let n = l.len();
        l.sort();
        l.dedup();
        assert_eq!(l.len(), n);
    }
}

#[test]
fn castling_moves_the_rook_and_forfeits_the_rights() {
    let t = init_tables();
    let mut b = Board::from_fen(&t, "r3k2r/8/8/8/8/8/8/R3K2R w KQkq - 3 1");
    let m = mv(4, 6, F_KCASTLE);
    assert!(b.legal_moves(&t).contains(&m));
    let u = b.make(m);
    assert_eq!(b.to_fen(), "r3k2r/8/8/8/8/8/8/R4RK1 b kq - 4 1");
    b.unmake(m, u);
    let q = mv(4, 2, F_QCASTLE);
    b.make(q);
    assert_eq!(b.to_fen(), "r3k2r/8/8/8/8/8/8/2KR3R b kq - 4 1");
}

#[test]
fn en_passant_takes_the_pawn_beside() {
    let t = init_tables();
    let mut b = Board::from_fen(&t, "4k3/8/8/8/3p4/8/4P3/4K3 w - - 0 1");
    b.make(find(&t, &b, "e2", "e4"));
    assert_eq!(b.to_fen(), "4k3/8/8/8/3pP3/8/8/4K3 b - e3 0 1");
    let m = find(&t, &b, "d4", "e3");
    assert_eq!(mv_flag(m), F_EP);
    b.make(m);
    assert_eq!(b.to_fen(), "4k3/8/8/8/8/4p3/8/4K3 w - - 0 1");
}

#[test]
fn an_unusable_en_passant_square_is_not_recorded() {
    let t = init_tables();
    let mut b = Board::from_fen(&t, START);
    b.make(find(&t, &b, "e2", "e4"));
    assert_eq!(b.to_fen(), "rnbqkbnr/pppppppp/8/8/4P3/8/PPPP1PPP/RNBQKBNR b KQkq - 0 1");
}

#[test]
fn the_clock_stops_at_its_largest_value() {
    let t = init_tables();
    let mut b = Board::from_fen(&t, "4k3/8/8/8/8/8/8/R3K3 w - - 255 1");
    b.make(find(&t, &b, "a1", "a2"));
    assert_eq!(b.halfmove, 255);
}

#[test]
fn hashes_follow_the_published_schedule() {
    let t = init_tables();
    assert_eq!(Board::from_fen(&t, START).hash(), 0x9eaaa48c2fccdc6f);
    let e = Board::from_fen(&t, "4k3/8/8/8/3pP3/8/8/4K3 b - e3 0 1");
    assert_eq!(e.hash(), 0xa6678c41d9343fb8);
    // The clock does not count.
    let late = Board::from_fen(&t, "4k3/8/8/8/3pP3/8/8/4K3 b - e3 9 1");
    assert_eq!(e.hash(), late.hash());
    let other = Board::from_fen(&t, "4k3/8/8/8/3pP3/8/8/4K3 b - - 0 1");
    assert_ne!(e.hash(), other.hash());
}

#[test]
fn attacks_and_checks() {
    let t = init_tables();
    let b = Board::from_fen(&t, "4k3/8/8/8/8/8/4r3/4K3 w - - 0 1");
    assert!(b.in_check(&t, 0) && !b.in_check(&t, 1));
    assert!(b.attacked(&t, sq("e1"), 1) && b.attacked(&t, sq("a2"), 1));
    assert!(!b.attacked(&t, sq("a1"), 1));
    assert_eq!(b.king_sq(0), sq("e1"));
    assert_eq!(b.piece_at(sq("e2")), 3);
    assert_eq!(b.piece_at(sq("h8")), 6);
    assert_eq!(b.occ().count_ones(), 3);
    assert_eq!(Board::empty().king_sq(0), 64);
}

#[test]
fn dead_positions() {
    let t = init_tables();
    let dead = |f: &str| Board::from_fen(&t, f).insufficient_material();
    assert!(dead("4k3/8/8/8/8/8/8/4K3 w - - 0 1"));
    assert!(dead("4k3/8/8/8/8/8/8/4KN2 w - - 0 1"));
    assert!(dead("4k3/8/8/8/8/8/8/4KB2 w - - 0 1"));
    // f1 and c8 are light, c1 is dark.
    assert!(dead("2b1k3/8/8/8/8/8/8/4KB2 w - - 0 1"));
    assert!(!dead("2b1k3/8/8/8/8/8/8/2B1K3 w - - 0 1"));
    // Three bishops of one complex: f1, d3, c8.
    assert!(dead("2b1k3/8/8/8/8/3B4/8/4KB2 w - - 0 1"));
    assert!(!dead("4k3/8/8/8/8/8/8/4KNN1 w - - 0 1"));
    assert!(!dead("4k3/8/8/8/8/8/P7/4K3 w - - 0 1"));
    assert!(!dead("4k3/8/8/8/8/8/8/R3K3 w - - 0 1"));
}

#[test]
fn games_end_as_the_rules_say() {
    let t = init_tables();
    let outcome = |f: &str| Game::from_fen(&t, f).outcome(&t);
    assert_eq!(outcome(START), Outcome::Ongoing);
    assert_eq!(outcome("7k/6Q1/6K1/8/8/8/8/8 b - - 0 1"), Outcome::Win(0));
    assert_eq!(outcome("7k/5Q2/6K1/8/8/8/8/8 b - - 0 1"), Outcome::Draw("stalemate"));
    assert_eq!(outcome("4k3/8/8/8/8/8/8/R3K3 w - - 100 1"), Outcome::Draw("fifty-move"));
    assert_eq!(outcome("4k3/8/8/8/8/8/8/R3K3 w - - 99 1"), Outcome::Ongoing);
    assert_eq!(
        outcome("4k3/8/8/8/8/8/8/4K3 w - - 0 1"),
        Outcome::Draw("insufficient material")
    );
    // Mate comes before the clock.
    assert_eq!(outcome("7k/6Q1/6K1/8/8/8/8/8 b - - 100 1"), Outcome::Win(0));
}

#[test]
fn the_third_occurrence_draws() {
    let t = init_tables();
    let mut g = Game::from_fen(&t, START);
    for round in 0..2 {
        for (from, to) in [("g1", "f3"), ("g8", "f6"), ("f3", "g1"), ("f6", "g8")] {
            assert_eq!(g.outcome(&t), Outcome::Ongoing, "round {round}");
            let m = find(&t, &g.board, from, to);
            g.apply(m);
        }
    }
    assert_eq!(g.outcome(&t), Outcome::Draw("threefold repetition"));
    assert_eq!(g.moves.len(), 8);
    assert_eq!(g.history.len(), 9);
    assert_eq!(g.history[0], g.history[8]);
}

#[test]
fn an_occupied_en_passant_square_is_noticed() {
    let t = init_tables();
    let b = Board::from_fen(&t, "4k3/8/8/8/3Pp3/3N4/8/4K3 b - d3 0 1");
    assert!(!b.ep_is_free());
    let c = Board::from_fen(&t, "4k3/8/8/8/3Pp3/8/8/4K3 b - d3 0 1");
    assert!(c.ep_is_free());
}

#[test]
fn captures_come_in_the_order_of_all_moves() {
    let t = init_tables();
    for fen in [
        "r3k2r/p1ppqpb1/bn2pnp1/3PN3/1p2P3/2N2Q1p/PPPBBPPP/R3K2R w KQkq - 0 1",
        "rnbq1k1r/pp1Pbppp/2p5/8/2B5/8/PPP1NnPP/RNBQK2R w KQ - 1 8",
        "4k3/8/8/8/3pP3/8/8/4K3 b - e3 0 1",
        "8/P6k/8/8/8/8/7K/8 w - - 0 1",
    ] {
        let b = Board::from_fen(&t, fen);
        let mut all = [0u16; 256];
        let mut caps = [0u16; 256];
        let n = b.gen_moves(&t, &mut all);
        let k = b.gen_caps(&t, &mut caps);
        let want: Vec<u16> =
            all[..n].iter().copied().filter(|&m| mv_is_cap(m) || mv_is_promo(m)).collect();
        assert_eq!(caps[..k].to_vec(), want);
        for &m in &all[..n] {
            let enemy = b.colors[1 - b.stm] >> mv_to(m) & 1 == 1;
            assert_eq!(mv_is_cap(m), enemy || mv_flag(m) == F_EP);
        }
    }
}
