use fatduck::chess::{apply_draw_rules, classify_terminal, Color, GameResult, Terminal};
use fatduck::expand::{legal_priors, normalize_priors, order_by_prior};
use fatduck::loader::{is_weight_file_name, NetHeader, WeightFile, WeightFileError, WeightsEncoding};
use fatduck::network::{MovesLeftFormat, NetworkCapabilities, InputFormat};
use fatduck::puct::{frac_less, isqrt, score_fraction, FirstPlayUrgency, MctsParams};
use fatduck::search::{check_limits, SearchLimits};
use fatduck::uci::{parse_go, parse_u64, UciEvent, UciError, UciGoParams, UciLoop};
use fatduck::time::StoppersHints;
use fatduck::utils::{get_version_int, get_version_string};
use std::io::Write;

fn words(line: &str) -> Vec<String> {
    line.split_whitespace().map(|s| s.to_string()).collect()
}

fn gzip(data: &[u8]) -> Vec<u8> {
    let mut e = flate2::write::GzEncoder::new(Vec::new(), flate2::Compression::default());
    e.write_all(data).unwrap();
    e.finish().unwrap()
}

#[test]
fn version_string_has_optional_parts() {
    assert_eq!(get_version_string(0, 30, 1, "", ""), "0.30.1");
    assert_eq!(get_version_string(1, 2, 3, "rc1", ""), "1.2.3-rc1");
    assert_eq!(get_version_string(10, 0, 205, "dev", "abc"), "10.0.205-dev+abc");
    assert_eq!(get_version_string(4, 5, 6, "", "b7"), "4.5.6+b7");
}

#[test]
fn version_int_packs_parts() {
    assert_eq!(get_version_int(0, 30, 0), 30_000);
    assert_eq!(get_version_int(1, 2, 3), 1_002_003);
}

#[test]
fn integer_square_root() {
    assert_eq!(isqrt(0), 0);
    assert_eq!(isqrt(15), 3);
    assert_eq!(isqrt(16), 4);
    assert_eq!(isqrt(u64::MAX), 4_294_967_295);
}

#[test]
fn exploration_rises_with_prior_and_falls_with_visits() {
    // cpuct 1.5, 100 parent visits: sqrt = 10 (10000 at the scale)
    let low = score_fraction(0, 1500, 2_000, 100, 3, 0);
    let high = score_fraction(0, 1500, 4_000, 100, 3, 0);
    assert_eq!(low, (1500 * 2_000 * 10_000, 4));
    assert!(frac_less(low, high));
    let busy = score_fraction(0, 1500, 4_000, 100, 3, 2);
    assert_eq!(busy, (1500 * 4_000 * 10_000, 6));
    assert!(frac_less(busy, high));
    // no rounding hides the smallest differences
    assert!(frac_less(score_fraction(0, 1, 1, 1, 0, 0), score_fraction(0, 1, 2, 1, 0, 0)));
    assert!(frac_less(score_fraction(0, 1, 1, 1, 1, 0), score_fraction(0, 1, 1, 1, 0, 0)));
    // the value counts at the scale 10^6
    assert_eq!(score_fraction(7, 0, 0, 0, 1, 1), (7 * 1_000_000 * 3, 3));
}

#[test]
fn priors_share_the_unit() {
    assert_eq!(normalize_priors(&vec![1, 1, 2]), vec![2_500, 2_500, 5_000]);
    assert_eq!(normalize_priors(&vec![0, 0, 0, 0]), vec![2_500, 2_500, 2_500, 2_500]);
    // the rounding remainder goes to the first largest mass
    assert_eq!(normalize_priors(&vec![1, 1, 1]), vec![3_334, 3_333, 3_333]);
    assert_eq!(normalize_priors(&vec![1, 2]), vec![3_333, 6_667]);
    assert_eq!(normalize_priors(&vec![0, 0, 0]), vec![3_334, 3_333, 3_333]);
    assert_eq!(normalize_priors(&vec![5, 3, 5, 1]).iter().sum::<u32>(), 10_000);
    // masses of illegal moves are dropped before renormalizing
    assert_eq!(legal_priors(&vec![5, 100, 15, 7], &vec![0, 2]), vec![2_500, 7_500]);
}

#[test]
fn draw_rules_override_the_board() {
    assert_eq!(apply_draw_rules(100, 0, GameResult::NonTerminal), GameResult::Draw);
    assert_eq!(apply_draw_rules(99, 0, GameResult::NonTerminal), GameResult::NonTerminal);
    assert_eq!(apply_draw_rules(3, 2, GameResult::NonTerminal), GameResult::Draw);
    let mate = GameResult::Decisive { winner: Color::Black };
    assert_eq!(apply_draw_rules(3, 1, mate), mate);
}

#[test]
fn limits_from_go_parameters() {
    let mut p = UciGoParams::new();
    p.wtime = Some(60_000);
    p.winc = Some(1_000);
    assert_eq!(p.limits(Color::White), SearchLimits::Time(60_000 / 20 + 1_000));
    assert_eq!(p.limits(Color::Black), SearchLimits::Infinite);
    p.movestogo = Some(10);
    assert_eq!(p.limits(Color::White), SearchLimits::Time(7_000));
    p.nodes = Some(500);
    assert_eq!(p.limits(Color::White), SearchLimits::Nodes(500));
    p.movetime = Some(250);
    assert_eq!(p.limits(Color::White), SearchLimits::Time(250));
    p.infinite = true;
    assert_eq!(p.limits(Color::White), SearchLimits::Infinite);
}

#[test]
fn limits_are_checked() {
    assert!(check_limits(SearchLimits::Nodes(5), 5, 0, 0));
    assert!(!check_limits(SearchLimits::Nodes(5), 4, 0, 0));
    assert!(check_limits(SearchLimits::Time(100), 0, 100, 0));
    assert!(!check_limits(SearchLimits::Depth(3), 100, 100, 2));
    assert!(!check_limits(SearchLimits::Infinite, 1_000, 1_000, 1_000));
}

#[test]
fn decimal_numbers_parse() {
    assert_eq!(parse_u64("0"), Some(0));
    assert_eq!(parse_u64("18446744073709551615"), Some(u64::MAX));
    assert_eq!(parse_u64("18446744073709551616"), None);
    assert_eq!(parse_u64("12a"), None);
    assert_eq!(parse_u64(""), None);
}

#[test]
fn go_parameters_parse() {
    let p = parse_go(&words("go wtime 300 btime 200 winc 5 movestogo 7 ponder")).unwrap();
    assert_eq!(p.wtime, Some(300));
    assert_eq!(p.btime, Some(200));
    assert_eq!(p.winc, Some(5));
    assert_eq!(p.movestogo, Some(7));
    assert!(p.ponder);
    assert!(!p.infinite);
    assert!(matches!(parse_go(&words("go nodes")), Err(UciError::MissingValue)));
    assert!(matches!(parse_go(&words("go depth x")), Err(UciError::BadNumber)));
    let s = parse_go(&words("go infinite searchmoves e2e4 d2d4")).unwrap();
    assert!(s.infinite);
    assert_eq!(s.searchmoves, vec!["e2e4".to_string(), "d2d4".to_string()]);
}

#[test]
fn commands_are_dispatched() {
    let mut u = UciLoop::new();
    assert!(matches!(u.dispatch_cmd(&words("uci"), Color::White), Ok(UciEvent::Nothing)));
    assert_eq!(u.outbox, vec!["id name FatDuck", "id author The FatDuck developers", "uciok"]);
    assert!(matches!(u.dispatch_cmd(&words("isready"), Color::White), Ok(UciEvent::Nothing)));
    assert_eq!(u.outbox.last().unwrap(), "readyok");
    assert!(matches!(u.dispatch_cmd(&words("stop"), Color::White), Ok(UciEvent::Stop)));
    assert!(matches!(u.dispatch_cmd(&words("ponderhit"), Color::White), Ok(UciEvent::PonderHit)));
    assert!(matches!(u.dispatch_cmd(&words("ucinewgame"), Color::White), Ok(UciEvent::NewGame)));
    assert!(matches!(u.dispatch_cmd(&words("quit"), Color::White), Ok(UciEvent::Quit)));
    assert!(matches!(u.dispatch_cmd(&words("start"), Color::White), Ok(UciEvent::Start)));
    assert!(matches!(u.dispatch_cmd(&words("bogus"), Color::White), Err(UciError::UnknownCommand)));
    assert!(matches!(u.dispatch_cmd(&vec![], Color::White), Err(UciError::UnknownCommand)));
    assert!(matches!(
        u.dispatch_cmd(&words("setoption name Threads value 2"), Color::White),
        Err(UciError::UnknownOption)
    ));
    match u.dispatch_cmd(&words("go movetime 300"), Color::Black) {
        Ok(UciEvent::Search { limits, ponder }) => {
            assert_eq!(limits, SearchLimits::Time(300));
            assert!(!ponder);
        }
        _ => panic!("go must start a search"),
    }
    match u.dispatch_cmd(&words("position startpos moves e2e4 e7e5"), Color::White) {
        Ok(UciEvent::Position { fen, moves }) => {
            assert!(fen.is_none());
            assert_eq!(moves, vec!["e2e4".to_string(), "e7e5".to_string()]);
        }
        _ => panic!("position must set the position"),
    }
    match u.dispatch_cmd(&words("position fen 8/8/8/8/8/8/8/K6k w - - 0 1 moves a1a2"), Color::White) {
        Ok(UciEvent::Position { fen, moves }) => {
            assert_eq!(fen.unwrap(), "8/8/8/8/8/8/8/K6k w - - 0 1");
            assert_eq!(moves, vec!["a1a2".to_string()]);
        }
        _ => panic!("position fen must set the position"),
    }
}

#[test]
fn responses_queue_in_order() {
    let mut u = UciLoop::new();
    u.send_response("a".to_string());
    u.send_responses(vec!["b".to_string(), "c".to_string()]);
    u.send_id();
    assert_eq!(u.outbox, vec!["a", "b", "c", "id name FatDuck", "id author The FatDuck developers"]);
}

#[test]
fn weight_buffer_header_is_checked() {
    assert_eq!(WeightFile::check_buffer(&vec![49]), Err(WeightFileError::TooSmall));
    assert_eq!(
        WeightFile::check_buffer(&vec![49, 10, 0]),
        Err(WeightFileError::UnsupportedVersion("2".to_string()))
    );
    assert_eq!(WeightFile::check_buffer(&vec![50, 10]), Err(WeightFileError::TextFormat));
    assert_eq!(WeightFile::check_buffer(&vec![8, 1, 2]), Ok(()));
}

#[test]
fn gzip_weight_file_is_decompressed_then_checked() {
    let text = gzip(b"2\nweights");
    assert!(matches!(WeightFile::from_gzip_bytes(&text), Err(WeightFileError::TextFormat)));
    let payload = vec![0x0d, 0x01, 0x41, 0x42];
    let w = WeightFile::from_gzip_bytes(&gzip(&payload)).unwrap();
    assert_eq!(w.weights(), &payload);
    assert!(matches!(WeightFile::from_gzip_bytes(&vec![1, 2, 3]), Err(WeightFileError::IoError)));
    assert!(matches!(WeightFile::from_gzip_bytes(&gzip(b"x")), Err(WeightFileError::TooSmall)));
}

#[test]
fn network_header_is_checked() {
    let good = NetHeader {
        magic: 0x1c0,
        min_version: Some((0, 28, 0)),
        has_weights: true,
        weights_encoding: Some(WeightsEncoding::Linear16),
    };
    assert_eq!(WeightFile::check_net(&good), Ok(()));
    let bad = NetHeader { magic: 7, ..good };
    assert_eq!(WeightFile::check_net(&bad), Err(WeightFileError::BadHeader));
    let none = NetHeader { min_version: None, ..good };
    assert_eq!(WeightFile::check_net(&none), Err(WeightFileError::MissingMinVersion));
    let newer = NetHeader { min_version: Some((0, 31, 2)), ..good };
    assert_eq!(
        WeightFile::check_net(&newer),
        Err(WeightFileError::UnsupportedVersion("0.31.2".to_string()))
    );
    let fp32 = NetHeader { weights_encoding: Some(WeightsEncoding::Float32), ..good };
    assert_eq!(WeightFile::check_net(&fp32), Err(WeightFileError::UnsupportedWeightEncoding));
    let noformat = NetHeader { weights_encoding: None, ..good };
    assert_eq!(WeightFile::check_net(&noformat), Err(WeightFileError::MissingFormat));
    let noweights = NetHeader { has_weights: false, weights_encoding: None, ..good };
    assert_eq!(WeightFile::check_net(&noweights), Ok(()));
}

#[test]
fn capabilities_report_moves_left() {
    let c = NetworkCapabilities::new(InputFormat::Classical112Plane, MovesLeftFormat::V1);
    assert!(c.has_moves_left());
    let d = NetworkCapabilities::new(InputFormat::Classical112Plane, MovesLeftFormat::NoMovesLeft);
    assert!(!d.has_moves_left());
    let p = MctsParams::new(1500, 200);
    assert_eq!(p.cpuct, 1500);
    assert_eq!(p.fpu, FirstPlayUrgency::ParentReduced(200));
    assert!(p.is_valid());
    assert!(!MctsParams::with_fpu(1500, FirstPlayUrgency::Absolute(20_001)).is_valid());
    assert!(!MctsParams::new(1_000_001, 0).is_valid());
}

#[test]
fn stopper_hints_are_read_and_written() {
    let mut h = StoppersHints::new(5_000, 300, None);
    assert_eq!(h.remaining_time_ms(), 5_000);
    *h.remaining_time_mut() -= 1_000;
    *h.remaining_playouts_mut() += 1;
    *h.estimated_nps_mut() = Some(40_000);
    assert_eq!(h.remaining_time_ms(), 4_000);
    assert_eq!(h.remaining_playouts(), 301);
    assert_eq!(h.estimated_nps(), Some(40_000));
}

#[test]
fn terminal_kinds_are_classified() {
    let mate = GameResult::Decisive { winner: Color::White };
    assert_eq!(classify_terminal(0, 0, mate), Terminal::GameOver);
    assert_eq!(classify_terminal(100, 0, GameResult::NonTerminal), Terminal::GameOver);
    assert_eq!(classify_terminal(5, 2, GameResult::NonTerminal), Terminal::GameOver);
    assert_eq!(classify_terminal(5, 1, GameResult::NonTerminal), Terminal::TwoFold);
    assert_eq!(classify_terminal(5, 0, GameResult::NonTerminal), Terminal::NonTerminal);
}

#[test]
fn weight_file_names_end_in_pb_gz() {
    assert!(is_weight_file_name("net.pb.gz"));
    assert!(is_weight_file_name(".pb.gz"));
    assert!(!is_weight_file_name("net.pb"));
    assert!(!is_weight_file_name("net.pb.gzip"));
    assert!(!is_weight_file_name("pb.gz"));
}

#[test]
fn edges_are_ordered_by_prior_stably() {
    assert_eq!(order_by_prior(&vec![10, 30, 20, 30]), vec![1, 3, 2, 0]);
    assert_eq!(order_by_prior(&vec![5, 5, 5]), vec![0, 1, 2]);
    assert_eq!(order_by_prior(&vec![]), Vec::<u32>::new());
}

#[test]
fn position_and_go_edge_cases() {
    let mut u = UciLoop::new();
    assert!(matches!(u.dispatch_cmd(&words("position"), Color::White), Err(UciError::MissingValue)));
    match u.dispatch_cmd(&words("go ponder infinite"), Color::White) {
        Ok(UciEvent::Search { limits, ponder }) => {
            assert_eq!(limits, SearchLimits::Infinite);
            assert!(ponder);
        }
        _ => panic!("go without numbers always starts a search"),
    }
    match u.dispatch_cmd(&words("go wtime 1000 winc 10"), Color::White) {
        Ok(UciEvent::Search { limits, .. }) => assert_eq!(limits, SearchLimits::Time(1000 / 20 + 10)),
        _ => panic!("go must start a search"),
    }
}
