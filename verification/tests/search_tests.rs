use lib::board::Board;
use lib::evaluate::Evaluate;
use lib::movegen::MoveGenerator;
use lib::mv::Move;
use lib::search::{nodes_per_second, pick_move, time_is_up, try_move, Search, SearchLimits, Tried};
use lib::tables::Tables;

fn tables() -> Tables {
    Tables::new().expect("the magic constants make perfect tables")
}

fn show(board: &Board) {
    let picture = board.picture();
    println!("  +-----------------+");
    for row in 0..8 {
        let mut line = format!("{} | ", 8 - row);
        for file in 0..8 {
            line.push(picture[row * 8 + file]);
            line.push(' ');
        }
        println!("{}|", line);
    }
    println!("  +-----------------+");
    println!("    a b c d e f g h");
}

#[test]
fn test_random_search() {
    let t = tables();
    let mut board = Board::new();
    board
        .parse_fen(&t, "r1bk1b1r/ppp2ppp/2p5/4Pn2/8/5N2/PPP2PPP/RNB2RK1 w - - 0 9")
        .unwrap();
    show(&board);

    let list = MoveGenerator::generate_pseudo_legal_moves(&t, &board);
    let random_move = Search::random(&t, board).expect("white has legal moves");
    println!("{}", random_move.to_string());
    assert!((0..list.count).any(|i| list.moves[i] == random_move));
}

#[test]
fn test_search() {
    let t = tables();
    let mut board = Board::new_starting_board(&t).unwrap();
    show(&board);

    let mut search = Search::new();
    let limits = SearchLimits {
        max_depth: Some(7),
        max_move_time: Some(u64::MAX),
    };
    let before = board.mailbox;
    let report = search.root_search(&t, &mut board, limits);
    for line in &report.lines {
        let pv: Vec<String> = line.pv.iter().map(|m| m.to_string()).collect();
        println!(
            "info depth {} seldepth {} score cp {} nodes {} time {} pv {}",
            line.depth,
            line.sel_depth,
            line.score,
            line.nodes,
            line.time_ms,
            pv.join(" ")
        );
    }
    let best = report.best_move.expect("the starting position has moves");
    println!("bestmove {}", best.to_string());
    assert_eq!(report.lines.len(), 7);
    assert_eq!(best, report.lines[6].pv[0]);
    assert_eq!(board.mailbox, before);
}

#[test]
fn search_finds_mate_in_one() {
    let t = tables();
    let mut board = Board::new();
    board.parse_fen(&t, "6k1/5ppp/8/8/8/8/8/R6K w - - 0 1").unwrap();
    let mut search = Search::new();
    let limits = SearchLimits { max_depth: Some(2), max_move_time: None };
    let report = search.root_search(&t, &mut board, limits);
    assert_eq!(report.lines.len(), 2);
    assert_eq!(report.lines[0].depth, 1);
    assert_eq!(report.lines[1].depth, 2);
    assert_eq!(report.lines[1].score, 31000);
    assert_eq!(report.best_move.unwrap().to_string(), "a1a8");
    assert!(!search.fault);
}

#[test]
fn search_of_depth_zero_plays_the_null_move() {
    let t = tables();
    let mut board = Board::new_starting_board(&t).unwrap();
    let mut search = Search::new();
    let limits = SearchLimits { max_depth: Some(0), max_move_time: None };
    let report = search.root_search(&t, &mut board, limits);
    assert!(report.lines.is_empty());
    assert_eq!(report.best_move, Some(Move::null()));
}

#[test]
fn search_of_a_mated_side_has_no_line() {
    let t = tables();
    let mut board = Board::new();
    board.parse_fen(&t, "R5k1/5ppp/8/8/8/8/8/7K b - - 1 1").unwrap();
    let mut search = Search::new();
    let limits = SearchLimits { max_depth: Some(3), max_move_time: None };
    let report = search.root_search(&t, &mut board, limits);
    assert!(report.lines.is_empty());
    assert_eq!(report.best_move, None);
    assert!(!search.fault);
}

#[test]
fn random_of_a_mated_side_is_none() {
    let t = tables();
    let mut board = Board::new();
    board.parse_fen(&t, "R5k1/5ppp/8/8/8/8/8/7K b - - 1 1").unwrap();
    assert_eq!(Search::random(&t, board), None);
}

#[test]
fn random_move_of_a_single_legal_move() {
    let t = tables();
    let mut board = Board::new();
    // The white rook on a7 covers the seventh rank, so Kg8 is the one move.
    board.parse_fen(&t, "7k/R7/8/8/8/8/8/6K1 b - - 0 1").unwrap();
    let m = Search::random(&t, board).unwrap();
    assert_eq!(m.to_string(), "h8g8");
}

#[test]
fn nodes_per_second_values() {
    assert_eq!(nodes_per_second(5000, 2000), Some(2500));
    assert_eq!(nodes_per_second(7, 0), Some(7000));
    assert_eq!(nodes_per_second(u64::MAX, 10), None);
    assert_eq!(nodes_per_second(1, u64::MAX as u128 + 1), None);
}

#[test]
fn alpha_beta_at_depth_one_is_the_best_negated_quiescence_score() {
    let t = tables();
    let mut board = Board::new();
    board
        .parse_fen(&t, "r1bqkbnr/pppp1ppp/2n5/4p3/3PP3/5N2/PPP2PPP/RNBQKB1R b KQkq - 0 3")
        .unwrap();
    let mut search = Search::new();
    let list = MoveGenerator::generate_pseudo_legal_moves(&t, &board);
    let mut best = i32::MIN;
    for i in 0..list.count {
        let mv = list.moves[i];
        if let Tried::Made(unmove) = try_move(&t, &mut board, mv) {
            let score = -search.quiescence_search(&t, &mut board, -32000, 32000, 1);
            board.unmake_move(&t, mv, unmove);
            best = best.max(score);
        }
    }
    let mut search = Search::new();
    let score = search.alpha_beta_search(&t, &mut board, -32000, 32000, 1, 0);
    assert!(!search.fault && !search.is_aborted);
    assert_eq!(score, best);
}

#[test]
fn quiescence_takes_a_hanging_queen() {
    let t = tables();
    let mut board = Board::new();
    board.parse_fen(&t, "4k3/8/8/3q4/8/8/8/3RK3 w - - 0 1").unwrap();
    let mut search = Search::new();
    let stand = Evaluate::sided_eval(&board);
    let score = search.quiescence_search(&t, &mut board, -32000, 32000, 0);
    assert!(score > stand + 800);
}

#[test]
fn square_names_read_back() {
    for sq in 0u8..64 {
        let name = format!("{}{}", (b'a' + sq % 8) as char, (b'1' + sq / 8) as char);
        assert_eq!(lib::fen::str_to_square(&name), Ok(sq));
    }
}

#[test]
fn picture_of_the_starting_board() {
    let t = tables();
    let board = Board::new_starting_board(&t).unwrap();
    let picture: String = board.picture().into_iter().collect();
    assert_eq!(
        picture,
        "rnbqkbnrpppppppp................................PPPPPPPPRNBQKBNR"
    );
}

#[test]
fn mirrored_position_has_the_negated_evaluation() {
    use_evaluation_symmetry(
        "r1bqkbnr/pppp1ppp/2n5/4p3/4P3/5N2/PPPP1PPP/RNBQKB1R w KQkq - 2 3",
        "rnbqkb1r/pppp1ppp/5n2/4p3/4P3/2N5/PPPP1PPP/R1BQKBNR b KQkq - 2 3",
    );
    use_evaluation_symmetry("4k3/8/8/3q4/8/8/8/3RK3 w - - 0 1", "3rk3/8/8/8/3Q4/8/8/4K3 b - - 0 1");
}

fn use_evaluation_symmetry(fen: &str, mirrored: &str) {
    let t = tables();
    let mut a = Board::new();
    a.parse_fen(&t, fen).unwrap();
    let mut b = Board::new();
    b.parse_fen(&t, mirrored).unwrap();
    assert_eq!(Evaluate::eval(&b), -Evaluate::eval(&a));
    assert_eq!(Evaluate::sided_eval(&b), Evaluate::sided_eval(&a));
}

#[test]
fn generated_moves_read_back_from_their_text() {
    let t = tables();
    for fen in [
        "rnbqkbnr/pppppppp/8/8/8/8/PPPPPPPP/RNBQKBNR w KQkq - 0 1",
        "r3k2r/pPppqpb1/bn2pnp1/3PN3/1p2P3/2N2Q1p/PPPBBPPP/R3K2R w KQkq - 0 1",
        "rnbqkbnr/ppp1p1pp/8/3pPp2/8/8/PPPP1PPP/RNBQKBNR w KQkq f6 0 3",
        "r3k2r/8/8/8/8/8/6p1/R3K2R b KQkq - 0 1",
    ] {
        let mut board = Board::new();
        board.parse_fen(&t, fen).unwrap();
        let list = MoveGenerator::generate_pseudo_legal_moves(&t, &board);
        for i in 0..list.count {
            let mv = list.moves[i];
            let text: Vec<char> = mv.to_string().chars().collect();
            assert_eq!(board.str_to_move(&text), Some(mv), "{}", mv.to_string());
        }
    }
}

#[test]
fn a_mated_side_scores_checkmate_in_any_window() {
    let t = tables();
    let mut board = Board::new();
    board.parse_fen(&t, "R5k1/5ppp/8/8/8/8/8/7K b - - 1 1").unwrap();
    for (alpha, beta) in [(-32000, 32000), (100, 200), (-31500, -31400)] {
        let mut search = Search::new();
        let score = search.alpha_beta_search(&t, &mut board, alpha, beta, 2, 0);
        assert!(!search.fault);
        assert_eq!(score, -31000);
    }
}

#[test]
fn quiescence_stands_pat_at_beta() {
    let t = tables();
    let mut board = Board::new();
    board.parse_fen(&t, "4k3/8/8/3q4/8/8/8/3RK3 w - - 0 1").unwrap();
    let stand = Evaluate::sided_eval(&board);
    let mut search = Search::new();
    assert_eq!(search.quiescence_search(&t, &mut board, stand - 10, stand, 0), stand);
}

#[test]
fn depth_one_search_reports_one_line_and_a_move() {
    let t = tables();
    let mut board = Board::new_starting_board(&t).unwrap();
    let mut search = Search::new();
    let limits = SearchLimits { max_depth: Some(1), max_move_time: Some(0) };
    let report = search.root_search(&t, &mut board, limits);
    assert!(!search.fault && !search.is_aborted);
    assert_eq!(report.lines.len(), 1);
    assert!(report.best_move.is_some());
}

#[test]
fn windows_past_the_score_bound_are_searched() {
    let t = tables();
    let mut board = Board::new();
    board.parse_fen(&t, "R5k1/5ppp/8/8/8/8/8/7K b - - 1 1").unwrap();
    let mut search = Search::new();
    let score = search.alpha_beta_search(&t, &mut board, i32::MIN + 1, i32::MAX, 3, 0);
    assert_eq!(score, -31000);
    assert!(!search.fault && !search.is_aborted);

    let mut board = Board::new();
    board.parse_fen(&t, "4k3/8/8/3q4/8/8/8/3RK3 w - - 0 1").unwrap();
    let stand = Evaluate::sided_eval(&board);
    let mut search = Search::new();
    let score = search.quiescence_search(&t, &mut board, i32::MIN + 1, i32::MAX, 0);
    assert!(score >= stand);
    assert!(!search.fault);
}

#[test]
fn time_is_up_only_on_every_2048th_node_past_the_limit() {
    assert!(time_is_up(2048, 11, 10));
    assert!(!time_is_up(2048, 10, 10));
    assert!(!time_is_up(2047, 1000, 10));
    assert!(time_is_up(0, 1, 0));
}

#[test]
fn pick_move_takes_the_draw_modulo_the_count() {
    let t = tables();
    let board = Board::new_starting_board(&t).unwrap();
    let moves = MoveGenerator::generate_pseudo_legal_moves(&t, &board);
    assert_eq!(moves.count, 20);
    assert_eq!(pick_move(&moves, 0), moves.moves[0]);
    assert_eq!(pick_move(&moves, 7), moves.moves[7]);
    assert_eq!(pick_move(&moves, 45), moves.moves[5]);
    assert_eq!(pick_move(&moves, u64::MAX), moves.moves[(u64::MAX as usize) % 20]);
}
