use lib::bitboard::{get_ray_between_end_inclusive, get_ray_between_exclusive};
use lib::board::{Board, Color, Piece};
use lib::evaluate::{flip_square, Evaluate};
use lib::magic_bitboard::{
    generate_bishop_attacks_mask, generate_rook_attacks_mask, get_bishop_attacks_mask, get_queen_attacks_mask,
    get_rook_attacks_mask,
};
use lib::movegen::{MoveGenerator, MoveList};
use lib::movepick::{MovePicker, ScoreStage};
use lib::mv::{Move, MoveFlag};
use lib::search::{PvTable, Search};
use lib::tables::Tables;
use lib::transposition::{floor_power_of_two, HashFlag, TranspositionTable, TtEntry};
use lib::uci::{parse_number, Uci, UciReply};

fn tables() -> Tables {
    Tables::new().expect("the magic constants make perfect tables")
}

#[test]
fn test_generate_pseudo_legal_moves() {
    let t = tables();
    let b = Board::new_starting_board(&t).unwrap();
    let moves_list = MoveGenerator::generate_pseudo_legal_moves(&t, &b);
    let texts: Vec<String> = (0..moves_list.count).map(|i| moves_list.moves[i].to_string()).collect();
    println!("{:?}", texts);
    assert_eq!(moves_list.count, 20);
    assert_eq!(moves_list.moves[0], Move::new(8, 16, MoveFlag::QuietMove));
    assert_eq!(moves_list.moves[7], Move::new(15, 23, MoveFlag::QuietMove));
    assert_eq!(moves_list.moves[8], Move::new(8, 24, MoveFlag::DoublePawnPush));
    assert_eq!(moves_list.moves[16], Move::new(1, 16, MoveFlag::QuietMove));
    assert_eq!(moves_list.moves[17], Move::new(1, 18, MoveFlag::QuietMove));
    assert_eq!(moves_list.moves[18], Move::new(6, 21, MoveFlag::QuietMove));
    assert_eq!(moves_list.moves[19], Move::new(6, 23, MoveFlag::QuietMove));
}

#[test]
fn generated_moves_follow_the_piece_order() {
    let t = tables();
    let mut b = Board::new();
    b.parse_fen(&t, "r3k2r/1P6/8/2pP4/8/8/8/R3K2R w KQkq c6 0 1").unwrap();
    let l = MoveGenerator::generate_pseudo_legal_moves(&t, &b);
    let texts: Vec<String> = (0..l.count).map(|i| l.moves[i].to_string()).collect();
    assert_eq!(texts[0], "d5d6");
    assert_eq!(&texts[1..5], &["b7b8n", "b7b8b", "b7b8r", "b7b8q"]);
    assert_eq!(&texts[5..9], &["b7a8n", "b7a8b", "b7a8r", "b7a8q"]);
    assert_eq!(texts[9], "d5c6");
    assert_eq!(l.moves[9].get_flag(), MoveFlag::EnPassant);
    assert!(texts.contains(&"e1g1".to_string()));
    assert!(texts.contains(&"e1c1".to_string()));
    assert_eq!(texts[texts.len() - 2], "e1g1");
    assert_eq!(texts[texts.len() - 1], "e1c1");
    assert!(texts.contains(&"a1a8".to_string()));
}

#[test]
fn move_lists_grow_by_push() {
    let mut l = MoveList::new();
    assert_eq!(l.count, 0);
    l.push(Move::new(1, 2, MoveFlag::QuietMove));
    assert_eq!(l.count, 1);
    assert_eq!(l.moves[0], Move::new(1, 2, MoveFlag::QuietMove));
}

#[test]
fn slider_attacks_stop_at_blockers() {
    let t = tables();
    assert_eq!(get_rook_attacks_mask(&t.magic, 0, 0), 0x01010101010101FE);
    assert_eq!(get_bishop_attacks_mask(&t.magic, 0, 0), 0x8040201008040200);
    let blockers = 1u64 << 27;
    assert_eq!(get_bishop_attacks_mask(&t.magic, blockers, 0), 0x0000000008040200);
    assert_eq!(
        get_queen_attacks_mask(&t.magic, 0, 0),
        0x01010101010101FE | 0x8040201008040200
    );
    assert_eq!(get_ray_between_exclusive(&t.rays, 0, 63), 0x0040201008040200);
    assert_eq!(get_ray_between_end_inclusive(&t.rays, 0, 63), 0x8040201008040200);
    assert_eq!(get_ray_between_exclusive(&t.rays, 0, 10), 0);
}

#[test]
fn the_start_position_is_balanced() {
    let t = tables();
    let b = Board::new_starting_board(&t).unwrap();
    assert_eq!(Evaluate::eval(&b), 0);
    assert_eq!(Evaluate::sided_eval(&b), 0);
    assert_eq!(flip_square(0), 56);
    assert_eq!(flip_square(flip_square(13)), 13);
}

#[test]
fn a_missing_queen_counts() {
    let t = tables();
    let mut b = Board::new();
    b.parse_fen(&t, "rnb1kbnr/pppppppp/8/8/8/8/PPPPPPPP/RNBQKBNR w KQkq - 0 1").unwrap();
    // The white queen on d1 is worth 1025 - 5 in the middle game and
    // 936 - 5 in the end game; the phase is 20 of 24.
    assert_eq!(Evaluate::eval(&b), (1020 * 20 + 931 * 4) / 24);
    b.active_color = Color::Black;
    assert_eq!(Evaluate::sided_eval(&b), -((1020 * 20 + 931 * 4) / 24));
}

#[test]
fn picker_yields_hash_move_then_best_first() {
    let t = tables();
    let s = Search::new();
    let mut b = Board::new();
    b.parse_fen(&t, "4k3/8/8/3q4/4P3/8/8/4K3 w - - 0 1").unwrap();
    let tt = Move::new(4, 3, MoveFlag::QuietMove);
    let mut p = MovePicker::new(tt);
    assert_eq!(p.next(&s, &t, &b), Some(tt));
    assert_eq!(p.next(&s, &t, &b), Some(Move::new(28, 35, MoveFlag::Capture)));
    let mut rest = 0;
    while let Some(m) = p.next(&s, &t, &b) {
        assert_ne!(m, tt);
        rest += 1;
    }
    let all = MoveGenerator::generate_pseudo_legal_moves(&t, &b);
    assert_eq!(rest, all.count - 2);
    assert_eq!(p.next(&s, &t, &b), None);
    let q = MovePicker::new(Move::null());
    let _ = ScoreStage::GenerateAll;
    drop(q);
}

#[test]
fn principal_variation_is_built_from_the_leaves() {
    let mut pv = PvTable::new();
    let a = Move::new(12, 28, MoveFlag::DoublePawnPush);
    let b = Move::new(52, 36, MoveFlag::DoublePawnPush);
    let c = Move::new(6, 21, MoveFlag::QuietMove);
    pv.store(2, c);
    pv.store(1, b);
    pv.store(0, a);
    assert_eq!(pv.get_pv(), &[a, b, c]);
    pv.store(63, a);
    assert_eq!(pv.get_pv().len(), 3);
    pv.clear();
    assert_eq!(pv.get_pv().len(), 0);
}

#[test]
fn search_starts_fresh() {
    let mut s = Search::new();
    s.nodes = 7;
    s.clear();
    assert_eq!(s.nodes, 0);
    assert!(!s.is_aborted);
}

#[test]
fn table_keeps_the_deeper_entry() {
    let mut tt = TranspositionTable::try_new(1).unwrap();
    let key = 0x1234_5678_9abc_def0u64;
    assert!(tt.read(key).is_none());
    let mv = Move::new(12, 28, MoveFlag::DoublePawnPush);
    tt.write(TtEntry::new(key, mv, 55, 1, 6, HashFlag::Exact));
    let e = tt.read(key).unwrap();
    assert_eq!(e.get_depth(), 6);
    assert_eq!(e.get_flag(), HashFlag::Exact);
    assert_eq!(e.get_score(0), 55);
    tt.write(TtEntry::new(key, mv, 20, 1, 3, HashFlag::Beta));
    assert_eq!(tt.read(key).unwrap().get_depth(), 6);
    tt.write(TtEntry::new(key, mv, 20, 2, 3, HashFlag::Beta));
    assert_eq!(tt.read(key).unwrap().get_depth(), 3);
    tt.clear();
    assert!(tt.read(key).is_none());
    assert_eq!(floor_power_of_two(65536), 65536);
    assert_eq!(floor_power_of_two(100), 64);
    assert_eq!(tt.size_mask + 1, 65536);
}

#[test]
fn mate_scores_count_from_the_stored_position() {
    let stored = TtEntry::to_tt_score(30990, 5);
    assert_eq!(stored, 30985);
    let e = TtEntry::new(1, Move::null(), stored, 0, 0, HashFlag::Exact);
    assert_eq!(e.get_score(5), 30990);
    assert_eq!(e.get_score(9), 30994);
    assert_eq!(TtEntry::to_tt_score(-30990, 5), -30985);
    assert_eq!(TtEntry::to_tt_score(100, 5), 100);
}

#[test]
fn uci_commands_are_answered() {
    let t = tables();
    let mut u = Uci::new();
    assert!(matches!(u.handle_command(&t, "uci"), UciReply::Identify));
    assert!(matches!(u.handle_command(&t, "  isready "), UciReply::Ready));
    assert!(matches!(u.handle_command(&t, "uci now"), UciReply::Done));
    assert!(matches!(u.handle_command(&t, "position startpos moves e2e4 e7e5 g1f3"), UciReply::Done));
    let b = u.current_board();
    assert_eq!(b.mailbox[28], Some(Piece::WhitePawn));
    assert_eq!(b.mailbox[36], Some(Piece::BlackPawn));
    assert_eq!(b.mailbox[21], Some(Piece::WhiteKnight));
    assert_eq!(b.active_color, Color::Black);
    match u.handle_command(&t, "position startpos moves e2e4 e2e4") {
        UciReply::InvalidMove(m) => assert_eq!(m.iter().collect::<String>(), "e2e4"),
        _ => panic!("the second e2e4 is no move"),
    }
    assert!(matches!(
        u.handle_command(&t, "position fen 8/8/8 w - - 0"),
        UciReply::IncompleteFen
    ));
    assert!(matches!(
        u.handle_command(&t, "position fen 8/8/8/8/8/8/8/7x w - - 0 1"),
        UciReply::FenError("invalid piece char")
    ));
    assert!(matches!(
        u.handle_command(&t, "position fen 8/8/8/8/8/8/8/8/8 w - - 0 1"),
        UciReply::Abort
    ));
    assert!(matches!(
        u.handle_command(&t, "position fen 4k3/8/8/8/8/8/8/4K2R w K - 0 1 moves e1g1"),
        UciReply::Done
    ));
    assert_eq!(u.current_board().mailbox[5], Some(Piece::WhiteRook));
    match u.handle_command(&t, "go depth 5 wtime 20000 winc 1000") {
        UciReply::Go(l) => {
            assert_eq!(l.max_depth, Some(5));
            assert_eq!(l.max_move_time, None);
        }
        _ => panic!("go is a search"),
    }
    match u.handle_command(&t, "go btime 20000 binc 1000") {
        UciReply::Go(l) => assert_eq!(l.max_move_time, Some(1500)),
        _ => panic!("go is a search"),
    }
    match u.handle_command(&t, "go infinite") {
        UciReply::Go(l) => assert_eq!(l.max_move_time, Some(u64::MAX)),
        _ => panic!("go is a search"),
    }
    assert!(matches!(u.handle_command(&t, "go depth 300"), UciReply::InvalidValue("invalid depth")));
    assert!(matches!(u.handle_command(&t, "go wtime"), UciReply::Abort));
    assert!(matches!(u.handle_command(&t, "print"), UciReply::PrintBoard));
    assert!(matches!(u.handle_command(&t, "quit"), UciReply::Quit));
}

#[test]
fn numbers_are_read_like_str_parse() {
    let text = |s: &str| s.chars().collect::<Vec<char>>();
    assert_eq!(parse_number(&text("123"), u64::MAX), Some(123));
    assert_eq!(parse_number(&text("+7"), u64::MAX), Some(7));
    assert_eq!(parse_number(&text("+"), u64::MAX), None);
    assert_eq!(parse_number(&text(""), u64::MAX), None);
    assert_eq!(parse_number(&text("12a"), u64::MAX), None);
    assert_eq!(parse_number(&text("256"), 255), None);
    assert_eq!(parse_number(&text("18446744073709551615"), u64::MAX), Some(u64::MAX));
    assert_eq!(parse_number(&text("18446744073709551616"), u64::MAX), None);
    assert_eq!("256".parse::<u8>().is_err(), true);
}

#[test]
fn a_fresh_picker_gives_every_move_once_captures_first() {
    let t = tables();
    let s = Search::new();
    let mut b = Board::new();
    b.parse_fen(&t, "4k3/8/2n5/3q4/4P3/8/8/3RK3 w - - 0 1").unwrap();
    let all = MoveGenerator::generate_pseudo_legal_moves(&t, &b);
    let mut p = MovePicker::new(Move::null());
    let mut given = Vec::new();
    while let Some(m) = p.next(&s, &t, &b) {
        given.push(m);
    }
    assert_eq!(given.len(), all.count);
    for i in 0..all.count {
        assert_eq!(given.iter().filter(|m| **m == all.moves[i]).count(), 1);
    }
    let first_quiet = given.iter().position(|m| !m.is_capture()).unwrap();
    assert!(given[first_quiet..].iter().all(|m| !m.is_capture()));
    assert_eq!(given[0], Move::new(28, 35, MoveFlag::Capture));
    assert_eq!(given[1], Move::new(3, 35, MoveFlag::Capture));
}

#[test]
fn magic_lookups_match_the_ray_walk_on_full_occupancies() {
    let t = tables();
    let occupancies: [u64; 5] = [0, u64::MAX, 0xFF818181818181FF, 0x0000_0010_2400_0000, 0x8142_2418_1824_4281];
    for from in 0..64u8 {
        for &occ in occupancies.iter() {
            assert_eq!(get_rook_attacks_mask(&t.magic, occ, from), generate_rook_attacks_mask(from, occ));
            assert_eq!(get_bishop_attacks_mask(&t.magic, occ, from), generate_bishop_attacks_mask(from, occ));
        }
    }
}

#[test]
fn position_command_keeps_the_hash_key_of_its_position() {
    let t = tables();
    let mut u = Uci::new();
    assert!(matches!(u.handle_command(&t, "position startpos moves e2e4"), UciReply::Done));
    let mut b = Board::new();
    b.parse_fen(&t, "rnbqkbnr/pppppppp/8/8/4P3/8/PPPP1PPP/RNBQKBNR b KQkq e3 0 1").unwrap();
    assert_eq!(u.current_board().hash_key, b.hash_key);
    assert_eq!(u.current_board().history_ply, 1);
}
