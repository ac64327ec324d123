use fes::engine::{parse_command, parse_go, parse_number, split_words, UciCommand};

#[test]
fn words_and_numbers() {
    assert_eq!(split_words("  e2e4  e7e5\tg1f3 \n"), vec!["e2e4", "e7e5", "g1f3"]);
    assert_eq!(split_words(""), Vec::<&str>::new());
    assert_eq!(split_words("   "), Vec::<&str>::new());
    assert_eq!(split_words("a"), vec!["a"]);
    assert_eq!(parse_number("0"), Some(0));
    assert_eq!(parse_number("007"), Some(7));
    assert_eq!(parse_number("1234567890"), Some(1234567890));
    assert_eq!(parse_number("18446744073709551615"), Some(u64::MAX));
    assert_eq!(parse_number("18446744073709551616"), None);
    assert_eq!(parse_number("99999999999999999999999"), None);
    assert_eq!(parse_number(""), None);
    assert_eq!(parse_number("12a"), None);
    assert_eq!(parse_number("-1"), None);
}

#[test]
fn plain_commands() {
    assert!(matches!(parse_command("uci"), UciCommand::Uci));
    assert!(matches!(parse_command("  uci  "), UciCommand::Uci));
    assert!(matches!(parse_command("isready"), UciCommand::IsReady));
    assert!(matches!(parse_command("stop"), UciCommand::Stop));
    assert!(matches!(parse_command("quit"), UciCommand::Quit));
    assert!(matches!(parse_command("debug on"), UciCommand::Debug(true)));
    assert!(matches!(parse_command("debug off"), UciCommand::Debug(false)));
    assert!(matches!(parse_command("debug maybe"), UciCommand::Unknown("debug")));
    assert!(matches!(parse_command("debug"), UciCommand::Unknown("debug")));
    assert!(matches!(parse_command("hello there"), UciCommand::Unknown("hello")));
    assert!(matches!(parse_command(""), UciCommand::Unknown("")));
    assert!(matches!(
        parse_command("setoption name Hash value 32"),
        UciCommand::SetOption("name Hash value 32")
    ));
    assert!(matches!(parse_command("register later"), UciCommand::Register("later")));
    assert!(matches!(parse_command("ucinewgame"), UciCommand::NewGame("")));
}

#[test]
fn positions() {
    match parse_command("position startpos moves e2e4 e7e5 e1g1 a7a8q") {
        UciCommand::Position(moves) => assert_eq!(moves, vec!["e2e4", "e7e5", "e1g1", "a7a8q"]),
        _ => panic!("a position with moves"),
    }
    assert!(matches!(parse_command("position startpos"), UciCommand::PositionNoMoves));
    match parse_command(
        "position rnbqkbnr/pppppppp/8/8/8/8/PPPPPPPP/RNBQKBNR w KQkq - 0 1 moves g1f3",
    ) {
        UciCommand::Position(moves) => assert_eq!(moves, vec!["g1f3"]),
        _ => panic!("a position with moves"),
    }
    assert!(matches!(
        parse_command("position 8/8/8/8/8/8/8/8 w - -"),
        UciCommand::PositionNoMoves
    ));
    assert!(matches!(
        parse_command("position somewhere else"),
        UciCommand::PositionNoMatch("somewhere else")
    ));
}

#[test]
fn go_arguments() {
    let args = parse_go("searchmoves e2e4 d2d4 ponder wtime 300000 btime 0 winc 10 binc 20 movestogo 40 depth 12 nodes 100000 mate 3 movetime 5000 infinite");
    assert_eq!(args.moves, Some(vec!["e2e4", "d2d4"]));
    assert!(args.ponder);
    assert_eq!(args.wtime, Some(300000));
    assert_eq!(args.btime, Some(0));
    assert_eq!(args.winc, Some(10));
    assert_eq!(args.binc, Some(20));
    assert_eq!(args.movestogo, Some(40));
    assert_eq!(args.depth, Some(12));
    assert_eq!(args.nodes, Some(100000));
    assert_eq!(args.mate, Some(3));
    assert_eq!(args.move_time, Some(5000));
    assert!(args.infinite);
    let args = parse_go("depth 99999999999999999999");
    assert_eq!(args.depth, None);
    assert_eq!(args.moves, None);
    assert!(!args.ponder);
    assert!(!args.infinite);
    assert_eq!(args.wtime, None);
    match parse_command("go depth 6") {
        UciCommand::Go(args) => {
            assert_eq!(args.depth, Some(6));
            assert_eq!(args.nodes, None);
        }
        _ => panic!("go"),
    }
}
