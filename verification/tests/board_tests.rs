use lib::board::{Board, CastlingRights, Color, Piece, Square};
use lib::fen::{fen_would_panic, str_to_square};
use lib::mv::{Move, MoveFlag};
use lib::tables::Tables;

fn tables() -> Tables {
    Tables::new().expect("the magic constants make perfect tables")
}

fn show(board: &Board) {
    println!("  +-----------------+");
    for rank in (0..8).rev() {
        let mut line = format!("{} | ", rank + 1);
        for file in 0..8 {
            let c = match board.mailbox[rank * 8 + file] {
                Some(p) => Piece::to_char(p),
                None => '.',
            };
            line.push(c);
            line.push(' ');
        }
        println!("{}|", line);
    }
    println!("  +-----------------+");
    println!("    a b c d e f g h");
}

#[test]
fn check_detection() {
    let t = tables();
    let mut board = Board::new();
    board
        .parse_fen(&t, "rnbqkbnr/1ppppppp/p7/8/Q7/2P5/PP1PPPPP/RNB1KBNR b KQkq - 0 1")
        .unwrap();
    show(&board);

    let is_attacked_test = board.is_square_attacked_by(&t, Square::D7.index(), Color::White, false);
    println!("{}", is_attacked_test);
    assert!(is_attacked_test);

    let test_mv = Move::new(Square::D7.index(), Square::D6.index(), MoveFlag::QuietMove);
    let (is_legal, unmove) = board.make_move(&t, test_mv, true);
    show(&board);
    println!("{}", is_legal);
    assert!(!is_legal);

    board.unmake_move(&t, test_mv, unmove);
    show(&board);
    assert_eq!(board.mailbox[Square::D7.index() as usize], Some(Piece::BlackPawn));
    assert_eq!(board.mailbox[Square::D6.index() as usize], None);
}

#[test]
fn starting_board_has_the_starting_position() {
    let t = tables();
    let b = Board::new_starting_board(&t).unwrap();
    let back = [
        Piece::WhiteRook,
        Piece::WhiteKnight,
        Piece::WhiteBishop,
        Piece::WhiteQueen,
        Piece::WhiteKing,
        Piece::WhiteBishop,
        Piece::WhiteKnight,
        Piece::WhiteRook,
    ];
    for f in 0..8 {
        assert_eq!(b.mailbox[f], Some(back[f]));
        assert_eq!(b.mailbox[8 + f], Some(Piece::WhitePawn));
        assert_eq!(b.mailbox[48 + f], Some(Piece::BlackPawn));
    }
    for s in 16..48 {
        assert_eq!(b.mailbox[s], None);
    }
    assert_eq!(b.mailbox[60], Some(Piece::BlackKing));
    assert_eq!(b.mailbox[59], Some(Piece::BlackQueen));
    assert_eq!(b.castling_rights.0, 15);
    assert_eq!(b.active_color, Color::White);
    assert_eq!(b.en_passant_square, None);
    assert_eq!(b.phase_value, 24);
    assert_eq!(b.all_pieces, 0xFFFF00000000FFFF);
    assert_eq!(b.white_pieces, 0xFFFF);
}

#[test]
fn fen_errors_name_the_faulty_field() {
    let t = tables();
    let mut b = Board::new();
    assert_eq!(b.parse_fen(&t, ""), Err("missing piece placement field"));
    assert_eq!(b.parse_fen(&t, "8/8/8/8/8/8/8/8"), Err("missing active color field"));
    assert_eq!(b.parse_fen(&t, "8/8/8/8/8/8/8/8 w"), Err("missing castling rights field"));
    assert_eq!(b.parse_fen(&t, "8/8/8/8/8/8/8/8 w -"), Err("missing en passant square"));
    assert_eq!(b.parse_fen(&t, "8/8/8/8/8/8/8/7x w - -"), Err("invalid piece char"));
    assert_eq!(b.parse_fen(&t, "8/8/8/8/8/8/8/8k w - -"), Err("fen rank field overflows 8 files"));
    assert_eq!(b.parse_fen(&t, "8/8/8/8/8/8/8/8 x - -"), Err("invalid fen active color field"));
    assert_eq!(b.parse_fen(&t, "8/8/8/8/8/8/8/8 w KX -"), Err("invalid fen castling rights char"));
    assert_eq!(b.parse_fen(&t, "8/8/8/8/8/8/8/8 w - e"), Err("square string length must equal 2"));
    assert_eq!(b.parse_fen(&t, "8/8/8/8/8/8/8/8 w - i3"), Err("file char not in range a-h"));
    assert_eq!(b.parse_fen(&t, "8/8/8/8/8/8/8/8 w - e9"), Err("rank char not in range 1-8"));
    assert_eq!(b.parse_fen(&t, "8/8/8/8/8/8/8/8 w - e4"), Err("invalid fen en passant square"));
    assert_eq!(b.mailbox, [None; 64]);
    assert_eq!(b.hash_key, 0);
}

#[test]
fn fen_fields_are_read() {
    let t = tables();
    let mut b = Board::new();
    assert_eq!(b.parse_fen(&t, "  4k3/8/8/3pP3/8/8/8/4K3\tb Kq d6 12 40 extra"), Ok(()));
    assert_eq!(b.active_color, Color::Black);
    assert_eq!(b.castling_rights.0, 1 | 8);
    assert_eq!(b.en_passant_square, Some(43));
    assert_eq!(b.mailbox[35], Some(Piece::BlackPawn));
    assert_eq!(b.mailbox[36], Some(Piece::WhitePawn));
    assert_eq!(b.mailbox[60], Some(Piece::BlackKing));
    assert_eq!(b.mailbox[4], Some(Piece::WhiteKing));
    assert_eq!(b.half_move_clock, 0);
    assert_eq!(b.phase_value, 0);
}

#[test]
fn fen_panics_are_told_apart() {
    assert!(fen_would_panic("8/8/8/8/8/8/8/8/8 w - - 0 1"));
    assert!(fen_would_panic("8888888888888888888888888888888888 w - - 0 1"));
    assert!(fen_would_panic("8/8/8/8/8/8/8/8 w - \u{e9} 0 1"));
    assert!(fen_would_panic(
        "QQQQQQQQ/QQQQQQQQ/QQQQQQQQ/QQQQQQQQ/QQQQQQQQ/QQQQQQQQ/QQQQQQQQ/QQQQQQQQ w - - 0 1"
    ));
    assert!(!fen_would_panic(
        "QQQQQQQQ/QQQQQQQQ/QQQQQQQQ/QQQQQQQQ/QQQQQQQQ/QQQQQQQQ/QQQQQQQQ/QQQQQQQR w - - 0 1"
    ));
    assert!(!fen_would_panic("rnbqkbnr/pppppppp/8/8/8/8/PPPPPPPP/RNBQKBNR w KQkq - 0 1"));
    assert!(!fen_would_panic("8/8/8/8/8/8/8/8/8"));
    assert!(!fen_would_panic("8/8/8/8/8/8/8/8 w - \u{e9}\u{e9} 0 1"));
}

#[test]
fn squares_are_read_from_names() {
    assert_eq!(str_to_square("e3"), Ok(20));
    assert_eq!(str_to_square("a1"), Ok(0));
    assert_eq!(str_to_square("h8"), Ok(63));
    assert_eq!(str_to_square("e33"), Err("square string length must equal 2"));
    assert_eq!(str_to_square("z3"), Err("file char not in range a-h"));
    assert_eq!(str_to_square("e0"), Err("rank char not in range 1-8"));
}

#[test]
fn unmake_takes_back_make() {
    let t = tables();
    let fens = [
        "rnbqkbnr/pppppppp/8/8/8/8/PPPPPPPP/RNBQKBNR w KQkq - 0 1",
        "r3k2r/pppq1ppp/2n2n2/3pp3/1b1PP1b1/2N2N2/PPPQ1PPP/R3K2R w KQkq - 0 1",
        "4k3/8/8/3pP3/8/8/8/4K3 w - d6 0 1",
        "4k3/1P6/8/8/8/8/6p1/4K2R b K - 0 1",
    ];
    for fen in fens {
        let mut b = Board::new();
        b.parse_fen(&t, fen).unwrap();
        let moves = lib::movegen::MoveGenerator::generate_pseudo_legal_moves(&t, &b);
        for i in 0..moves.count {
            let mv = moves.moves[i];
            let before = b.mailbox;
            let castling = b.castling_rights.0;
            let ep = b.en_passant_square;
            let (_, unmove) = b.make_move(&t, mv, false);
            b.unmake_move(&t, mv, unmove);
            assert_eq!(b.mailbox, before, "{} {}", fen, mv.to_string());
            assert_eq!(b.castling_rights.0, castling);
            assert_eq!(b.en_passant_square, ep);
        }
    }
}

#[test]
fn castling_moves_the_rook() {
    let t = tables();
    let mut b = Board::new();
    b.parse_fen(&t, "r3k2r/8/8/8/8/8/8/R3K2R w KQkq - 0 1").unwrap();
    let mv = Move::new(4, 6, MoveFlag::KingCastle);
    let (legal, _) = b.make_move(&t, mv, true);
    assert!(legal);
    assert_eq!(b.mailbox[6], Some(Piece::WhiteKing));
    assert_eq!(b.mailbox[5], Some(Piece::WhiteRook));
    assert_eq!(b.mailbox[7], None);
    assert_eq!(b.castling_rights.0, 4 | 8);
    assert_eq!(b.active_color, Color::Black);
}

#[test]
fn en_passant_takes_the_pawn_behind() {
    let t = tables();
    let mut b = Board::new();
    b.parse_fen(&t, "4k3/8/8/3pP3/8/8/8/4K3 w - d6 0 1").unwrap();
    let mv = Move::new(36, 43, MoveFlag::EnPassant);
    let (legal, unmove) = b.make_move(&t, mv, true);
    assert!(legal);
    assert_eq!(unmove.captured_piece, Some(Piece::BlackPawn));
    assert_eq!(b.mailbox[35], None);
    assert_eq!(b.mailbox[43], Some(Piece::WhitePawn));
    assert_eq!(b.en_passant_square, None);
}

#[test]
fn pieces_and_rights_round_trip() {
    for c in ['P', 'N', 'B', 'R', 'Q', 'K', 'p', 'n', 'b', 'r', 'q', 'k'] {
        assert_eq!(Piece::to_char(Piece::from_char(c).unwrap()), c);
    }
    assert_eq!(Piece::from_char('x'), Err("invalid piece char"));
    assert_eq!(Piece::get_phase_value(Piece::BlackQueen), 4);
    assert_eq!(Piece::get_phase_value(Piece::WhiteRook), 2);
    assert_eq!(Piece::get_phase_value(Piece::WhitePawn), 0);
    let mut r = CastlingRights(0);
    r.put(CastlingRights::WHITE_QUEENSIDE);
    assert!(r.has(CastlingRights::WHITE_QUEENSIDE));
    assert!(!r.has(CastlingRights::BLACK_KINGSIDE));
    r.remove(CastlingRights::WHITE_QUEENSIDE);
    assert_eq!(r.0, 0);
    assert_eq!(Square::E4.index(), 28);
    assert_eq!(Color::White.not(), Color::Black);
}

#[test]
fn moves_pack_their_squares() {
    let m = Move::new(12, 28, MoveFlag::DoublePawnPush);
    assert_eq!(m.get_from(), 12);
    assert_eq!(m.get_to(), 28);
    assert_eq!(m.get_flag(), MoveFlag::DoublePawnPush);
    assert_eq!(m.to_string(), "e2e4");
    assert!(!m.is_capture());
    assert!(Move::new(52, 61, MoveFlag::PromoteCaptureQ).is_capture());
    assert!(Move::new(52, 61, MoveFlag::PromoteCaptureQ).is_promotion());
    assert_eq!(Move::new(52, 60, MoveFlag::PromoteN).to_string(), "e7e8n");
    assert!(Move::new(36, 43, MoveFlag::EnPassant).is_en_passant());
    assert!(Move::null().is_null());
    assert!(m.is_present());
}

#[test]
fn starting_board_counts_plies_from_zero() {
    let t = tables();
    let mut board = Board::new_starting_board(&t).unwrap();
    assert_eq!(board.history_ply, 0);
    let (legal, _) = board.make_move(&t, Move::new(12, 28, MoveFlag::DoublePawnPush), true);
    assert!(legal);
    assert_eq!(board.history_ply, 1);
    assert_eq!(board.en_passant_square, Some(20));
    assert_eq!(board.mailbox[20], None);
    assert_eq!(board.mailbox[28], Some(Piece::WhitePawn));
    assert_eq!(board.half_move_clock, 0);
    assert_eq!(board.active_color, Color::Black);
}

#[test]
fn an_origin_past_the_board_spills_into_the_destination() {
    assert_eq!(Move::new(69, 10, MoveFlag::QuietMove), Move::new(5, 11, MoveFlag::QuietMove));
    assert_eq!(Move::new(69, 10, MoveFlag::Capture).get_flag(), MoveFlag::Capture);
}

#[test]
fn fen_fields_set_the_rights_the_square_and_the_side() {
    let t = tables();
    let mut board = Board::new();
    board.parse_fen(&t, "rnbqkbnr/pppppppp/8/8/4P3/8/PPPP1PPP/RNBQKBNR b Kq e3 0 1").unwrap();
    assert_eq!(board.castling_rights.0, 0b1001);
    assert_eq!(board.en_passant_square, Some(20));
    assert_eq!(board.active_color, Color::Black);
    assert_eq!(board.history_ply, 0);
    assert_eq!(board.half_move_clock, 0);
    let mut other = Board::new();
    assert_eq!(
        other.parse_fen(&t, "rnbqkbnr/pppppppp/8/8/4P3/8/PPPP1PPP/RNBQKBNR b KQkq e5 0 1"),
        Err("invalid fen en passant square")
    );
}

#[test]
fn capturing_a_king_adds_no_king() {
    let t = tables();
    let mut board = Board::new();
    board.parse_fen(&t, "4k3/8/8/8/8/8/8/4R1K1 w - - 0 1").unwrap();
    let _ = board.make_move(&t, Move::new(4, 60, MoveFlag::Capture), false);
    let count = |p: Piece| board.mailbox.iter().filter(|s| **s == Some(p)).count();
    assert_eq!(count(Piece::WhiteKing), 1);
    assert_eq!(count(Piece::BlackKing), 0);
    assert_eq!(board.mailbox[60], Some(Piece::WhiteRook));
}
