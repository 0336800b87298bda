//! The UCI command lines the library reads: commands, `go` limits, `position`
//! setups, options, and the reports it writes.

use beluga_core::chess_move::Move;
use beluga_core::position::Position;
use beluga_core::search::{SearchInfo, MATE};
use beluga_core::types::Square;
use beluga_core::chess_move::MoveFlag;
use beluga_core::uci::{
    format_score, info_line, parse_command, parse_go, position_command, position_from_command,
    EngineOptions, OptionChange, UciCommand,
};

const KIWIPETE: &str = "r3k2r/p1ppqpb1/bn2pnp1/3PN3/1p2P3/2N2Q1p/PPPBBPPP/R3K2R w KQkq - 0 1";

#[test]
fn commands_by_first_word() {
    assert_eq!(parse_command("uci"), UciCommand::Uci);
    assert_eq!(parse_command("  isready  "), UciCommand::IsReady);
    assert_eq!(parse_command("ucinewgame"), UciCommand::NewGame);
    assert_eq!(parse_command("position startpos"), UciCommand::Position);
    assert_eq!(parse_command("go depth 3"), UciCommand::Go);
    assert_eq!(parse_command("d"), UciCommand::Display);
    assert_eq!(parse_command("display"), UciCommand::Display);
    assert_eq!(parse_command("eval"), UciCommand::Eval);
    assert_eq!(parse_command("perft 3"), UciCommand::Perft(3));
    assert_eq!(parse_command("perft"), UciCommand::Perft(5));
    assert_eq!(parse_command("perft x"), UciCommand::Perft(5));
    assert_eq!(parse_command("bench 4"), UciCommand::Bench(4));
    assert_eq!(parse_command("bench"), UciCommand::Bench(11));
    assert_eq!(parse_command("quit"), UciCommand::Quit);
    assert_eq!(parse_command(""), UciCommand::Empty);
    assert_eq!(parse_command("   "), UciCommand::Empty);
    assert_eq!(parse_command("garbage"), UciCommand::Unknown);
    assert_eq!(parse_command("Uci"), UciCommand::Unknown);
}

#[test]
fn go_reads_every_parameter() {
    let l = parse_go(
        "go wtime 60000 btime 50000 winc 1000 binc 900 movestogo 12 depth 7 nodes 5000 movetime 250 infinite",
    );
    assert_eq!(l.wtime, Some(60000));
    assert_eq!(l.btime, Some(50000));
    assert_eq!(l.winc, Some(1000));
    assert_eq!(l.binc, Some(900));
    assert_eq!(l.movestogo, Some(12));
    assert_eq!(l.depth, Some(7));
    assert_eq!(l.nodes, Some(5000));
    assert_eq!(l.movetime, Some(250));
    assert!(l.infinite);
    assert_eq!(l.move_overhead_ms, 30);
}

#[test]
fn go_ignores_unreadable_values() {
    let l = parse_go("go depth x wtime");
    assert_eq!(l.depth, None);
    assert_eq!(l.wtime, None);
    assert!(!l.infinite);
    // The value word is consumed even when it cannot be read.
    let l = parse_go("go depth infinite");
    assert_eq!(l.depth, None);
    assert!(!l.infinite);
    assert_eq!(parse_go("go depth 4294967296").depth, None);
    assert_eq!(parse_go("go depth +9").depth, Some(9));
    assert_eq!(parse_go("go").nodes, None);
}

#[test]
fn position_line_parts() {
    let (fen, moves) = position_command("position startpos moves e2e4 e7e5");
    assert!(fen.is_none());
    assert_eq!(moves, b"e2e4 e7e5".to_vec());
    let line = format!("position fen {KIWIPETE} moves e1g1");
    let (fen, moves) = position_command(&line);
    assert_eq!(fen, Some(KIWIPETE.as_bytes().to_vec()));
    assert_eq!(moves, b"e1g1".to_vec());
    let (fen, moves) = position_command(&format!("position fen {KIWIPETE}"));
    assert_eq!(fen, Some(KIWIPETE.as_bytes().to_vec()));
    assert!(moves.is_empty());
    let (fen, moves) = position_command("position whatever");
    assert!(fen.is_none());
    assert!(moves.is_empty());
}

#[test]
fn position_setup_plays_up_to_an_illegal_word() {
    let (pos, n) = position_from_command("position startpos moves e2e4 e7e5").unwrap();
    assert_eq!(n, 2);
    assert_eq!(
        pos.to_fen(),
        "rnbqkbnr/pppp1ppp/8/4p3/4P3/8/PPPP1PPP/RNBQKBNR w KQkq - 0 2"
    );
    let (pos, n) = position_from_command("position startpos moves e2e4 notamove e7e5").unwrap();
    assert_eq!(n, 1);
    assert_eq!(
        pos.to_fen(),
        "rnbqkbnr/pppppppp/8/8/4P3/8/PPPP1PPP/RNBQKBNR b KQkq - 0 1"
    );
    let (pos, n) = position_from_command(&format!("position fen {KIWIPETE} moves e1g1")).unwrap();
    assert_eq!(n, 1);
    assert_eq!(
        pos.to_fen(),
        "r3k2r/p1ppqpb1/bn2pnp1/3PN3/1p2P3/2N2Q1p/PPPBBPPP/R4RK1 b kq - 1 1"
    );
    assert!(position_from_command("position fen not a real fen").is_err());
    let (pos, n) = position_from_command("position").unwrap();
    assert_eq!(n, 0);
    assert_eq!(pos.to_fen(), Position::startpos().to_fen());
}

#[test]
fn options_are_read_and_clamped() {
    let mut o = EngineOptions::new();
    assert_eq!((o.hash_mb, o.threads, o.move_overhead_ms), (16, 1, 30));
    assert_eq!(o.set_option("setoption name Hash value 128"), OptionChange::Hash);
    assert_eq!(o.hash_mb, 128);
    assert_eq!(o.set_option("setoption name Hash value 0"), OptionChange::Hash);
    assert_eq!(o.hash_mb, 1);
    assert_eq!(o.set_option("setoption name hash value 100000"), OptionChange::Hash);
    assert_eq!(o.hash_mb, 65536);
    assert_eq!(o.set_option("setoption name Threads value 300"), OptionChange::Threads);
    assert_eq!(o.threads, 256);
    assert_eq!(o.set_option("SETOPTION NAME Move Overhead VALUE 9000"), OptionChange::MoveOverhead);
    assert_eq!(o.move_overhead_ms, 5000);
    assert_eq!(o.set_option("setoption name Clear Hash"), OptionChange::ClearHash);
    assert_eq!(o.set_option("setoption name Nonexistent value 5"), OptionChange::Ignored);
    assert_eq!(o.set_option("setoption name Hash value abc"), OptionChange::Ignored);
    assert_eq!(o.hash_mb, 65536);
}

#[test]
fn scores_are_reported_in_centipawns_or_mates() {
    assert_eq!(format_score(35), b"cp 35".to_vec());
    assert_eq!(format_score(-12), b"cp -12".to_vec());
    assert_eq!(format_score(MATE - 1), b"mate 1".to_vec());
    assert_eq!(format_score(MATE - 4), b"mate 2".to_vec());
    assert_eq!(format_score(-(MATE - 2)), b"mate -1".to_vec());
    assert_eq!(format_score(-(MATE - 6)), b"mate -3".to_vec());
}

#[test]
fn info_line_reports_an_iteration() {
    let e2e4 = Move::new(Square(12), Square(28), MoveFlag::DoublePush);
    let e7e5 = Move::new(Square(52), Square(36), MoveFlag::DoublePush);
    let info = SearchInfo {
        depth: 5,
        seldepth: 7,
        score: 20,
        nodes: 1000,
        time_ms: 10,
        pv: vec![e2e4, e7e5],
        hashfull: 3,
    };
    assert_eq!(
        String::from_utf8(info_line(&info)).unwrap(),
        "info depth 5 seldepth 7 score cp 20 nodes 1000 nps 100000 time 10 hashfull 3 pv e2e4 e7e5"
    );
    let info = SearchInfo {
        depth: 1,
        seldepth: 1,
        score: MATE - 1,
        nodes: 42,
        time_ms: 0,
        pv: vec![],
        hashfull: 0,
    };
    assert_eq!(
        String::from_utf8(info_line(&info)).unwrap(),
        "info depth 1 seldepth 1 score mate 1 nodes 42 nps 42 time 0 hashfull 0 pv "
    );
}
