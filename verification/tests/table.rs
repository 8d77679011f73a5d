use iomap::io_analyzer::{AnalyzedProc, Impact, IoAnalyzer, Rate};
use iomap::proc_scanner::ProcIo;
use iomap::proc_scanner::{CollectionError, ProcScanner, RawSample};
use iomap::tui::{
    cycle, draw, format_pid, format_rate, header, idle_nanos, label, push_decimal, row, sort_by_rate,
    step, widths, Action, ColumnWidth, Event, Input, LoopState,
};

fn analyzed(pid: i32, cmd: &str, read: u64, write: u64) -> AnalyzedProc {
    IoAnalyzer::analyze(ProcIo { pid, cmd: cmd.to_string(), read_bytes: read, write_bytes: write })
}

fn pids(procs: &[AnalyzedProc]) -> Vec<i32> {
    procs.iter().map(|p| p.pid).collect()
}

#[test]
fn sorts_by_combined_rate_descending() {
    let mut procs = vec![
        analyzed(1, "ten", 10_000_000, 0),
        analyzed(2, "fifty", 20_000_000, 30_000_000),
        analyzed(3, "half", 0, 500_000),
    ];
    sort_by_rate(&mut procs);
    assert_eq!(pids(&procs), vec![2, 1, 3]);
    let totals: Vec<u128> = procs.iter().map(|p| p.combined_rate()).collect();
    assert_eq!(totals, vec![50_000_000, 10_000_000, 500_000]);
}

#[test]
fn equal_rates_keep_their_order() {
    let mut procs = vec![
        analyzed(1, "a", 5, 0),
        analyzed(2, "b", 9, 0),
        analyzed(3, "c", 0, 5),
        analyzed(4, "d", 4, 5),
        analyzed(5, "e", 2, 3),
        analyzed(6, "f", 0, 0),
        analyzed(7, "g", 1, 8),
    ];
    sort_by_rate(&mut procs);
    assert_eq!(pids(&procs), vec![2, 4, 7, 1, 3, 5, 6]);
}

#[test]
fn sorting_little_changes_nothing() {
    let mut none: Vec<AnalyzedProc> = Vec::new();
    sort_by_rate(&mut none);
    assert!(none.is_empty());
    let mut one = vec![analyzed(1, "a", 5, 0)];
    sort_by_rate(&mut one);
    assert_eq!(pids(&one), vec![1]);
    let mut sorted = vec![analyzed(1, "a", 9, 0), analyzed(2, "b", 5, 0), analyzed(3, "c", 5, 0)];
    sort_by_rate(&mut sorted);
    assert_eq!(pids(&sorted), vec![1, 2, 3]);
}

#[test]
fn sorting_compares_sums_beyond_a_counter() {
    let mut procs = vec![
        analyzed(1, "a", u64::MAX, 0),
        analyzed(2, "b", u64::MAX, u64::MAX),
        analyzed(3, "c", u64::MAX, 1),
    ];
    sort_by_rate(&mut procs);
    assert_eq!(pids(&procs), vec![2, 3, 1]);
}

fn float_text(bytes: u64) -> String {
    format!("{:.1} MB/s", bytes as f64 / 1_000_000f64)
}

#[test]
fn rates_show_one_decimal_and_the_unit() {
    assert_eq!(format_rate(Rate { millionths: 6_000_000 }), "6.0 MB/s");
    assert_eq!(format_rate(Rate { millionths: 12_345_678 }), "12.3 MB/s");
    assert_eq!(format_rate(Rate { millionths: 0 }), "0.0 MB/s");
    assert_eq!(format_rate(Rate { millionths: 1 }), "0.0 MB/s");
    assert_eq!(format_rate(Rate { millionths: 49_999 }), "0.0 MB/s");
    assert_eq!(format_rate(Rate { millionths: 50_001 }), "0.1 MB/s");
    assert_eq!(format_rate(Rate { millionths: 949_999 }), "0.9 MB/s");
    assert_eq!(format_rate(Rate { millionths: 999_999 }), "1.0 MB/s");
    assert_eq!(format_rate(Rate { millionths: 9_960_000 }), "10.0 MB/s");
    assert_eq!(format_rate(Rate { millionths: 500_000 }), "0.5 MB/s");
    assert_eq!(format_rate(Rate { millionths: u64::MAX }), "18446744073709.6 MB/s");
}

#[test]
fn a_rate_half_way_goes_where_its_double_lies() {
    assert_eq!(format_rate(Rate { millionths: 50_000 }), "0.1 MB/s");
    assert_eq!(format_rate(Rate { millionths: 150_000 }), "0.1 MB/s");
    assert_eq!(format_rate(Rate { millionths: 350_000 }), "0.3 MB/s");
    assert_eq!(format_rate(Rate { millionths: 450_000 }), "0.5 MB/s");
    assert_eq!(format_rate(Rate { millionths: 950_000 }), "0.9 MB/s");
    assert_eq!(
        format_rate(Rate { millionths: 18_446_744_073_709_549_999 }),
        "18446744073709.6 MB/s"
    );
}

#[test]
fn a_double_half_way_goes_to_the_even_tenth() {
    assert_eq!(format_rate(Rate { millionths: 250_000 }), "0.2 MB/s");
    assert_eq!(format_rate(Rate { millionths: 750_000 }), "0.8 MB/s");
    assert_eq!(format_rate(Rate { millionths: 1_250_000 }), "1.2 MB/s");
    assert_eq!(format_rate(Rate { millionths: 1_750_000 }), "1.8 MB/s");
    assert_eq!(format_rate(Rate { millionths: 9_950_000 }), "9.9 MB/s");
    assert_eq!(format_rate(Rate { millionths: 4_096_250_000 }), "4096.2 MB/s");
}

#[test]
fn rates_read_as_floating_point_prints_them_at_the_half_way_marks() {
    let mut bytes: u64 = 50_000;
    let mut marks = 0;
    while marks < 20_000 {
        assert_eq!(format_rate(Rate::from_bytes(bytes)), float_text(bytes), "{}", bytes);
        bytes += 100_000;
        marks += 1;
    }
    let mut high: u64 = u64::MAX - u64::MAX % 100_000 - 50_000;
    marks = 0;
    while marks < 5_000 {
        assert_eq!(format_rate(Rate::from_bytes(high)), float_text(high), "{}", high);
        high -= 100_000;
        marks += 1;
    }
}

#[test]
fn rates_read_as_floating_point_prints_them_everywhere() {
    for bytes in [0u64, 1, 99_999, 100_000, 123_456, 5_000_000, 6_000_000, 50_000_100, 987_654_321] {
        assert_eq!(format_rate(Rate::from_bytes(bytes)), float_text(bytes));
    }
    let mut state: u64 = 0x9e37_79b9_7f4a_7c15;
    let mut round = 0;
    while round < 200_000 {
        state = state.wrapping_mul(6_364_136_223_846_793_005).wrapping_add(1_442_695_040_888_963_407);
        let bytes = state >> (round % 64);
        assert_eq!(format_rate(Rate::from_bytes(bytes)), float_text(bytes), "{}", bytes);
        round += 1;
    }
    let mut shift = 0;
    while shift < 64 {
        for bytes in [1u64 << shift, (1u64 << shift) - 1, (1u64 << shift) + 1, u64::MAX >> shift] {
            assert_eq!(format_rate(Rate::from_bytes(bytes)), float_text(bytes), "{}", bytes);
        }
        shift += 1;
    }
    let mut near = 0;
    while near < 5_000 {
        let bytes = u64::MAX - near;
        assert_eq!(format_rate(Rate::from_bytes(bytes)), float_text(bytes), "{}", bytes);
        let low = (1u64 << 53) - 2_500 + near;
        assert_eq!(format_rate(Rate::from_bytes(low)), float_text(low), "{}", low);
        near += 1;
    }
}

#[test]
fn identifiers_show_in_decimal() {
    assert_eq!(format_pid(0), "0");
    assert_eq!(format_pid(7), "7");
    assert_eq!(format_pid(10), "10");
    assert_eq!(format_pid(4_194_304), "4194304");
    assert_eq!(format_pid(i32::MAX), "2147483647");
    assert_eq!(format_pid(-5), "-5");
    assert_eq!(format_pid(i32::MIN), "-2147483648");
}

#[test]
fn decimal_digits_are_appended() {
    let mut s = String::from("n=");
    push_decimal(&mut s, 0);
    push_decimal(&mut s, 1_002_003);
    push_decimal(&mut s, u64::MAX as u128);
    push_decimal(&mut s, u128::MAX);
    assert_eq!(s, "n=0100200318446744073709551615340282366920938463463374607431768211455");
}

#[test]
fn impacts_have_their_tokens() {
    assert_eq!(label(Impact::High), "HIGH");
    assert_eq!(label(Impact::Medium), "MED");
    assert_eq!(label(Impact::Low), "LOW");
}

#[test]
fn a_row_has_five_cells() {
    let cells = row(&analyzed(100, "postgres", 6_000_000, 149_999));
    assert_eq!(cells, vec!["100", "postgres", "6.0 MB/s", "0.1 MB/s", "MED"]);
}

#[test]
fn draw_sorts_and_lays_out() {
    let mut procs = vec![
        analyzed(1, "ten", 10_000_000, 0),
        analyzed(2, "fifty", 20_000_000, 30_000_000),
        analyzed(3, "half", 0, 500_000),
        analyzed(4, "more", 50_000_000, 1),
    ];
    let rows = draw(&mut procs);
    assert_eq!(pids(&procs), vec![4, 2, 1, 3]);
    assert_eq!(
        rows,
        vec![
            vec!["4", "more", "50.0 MB/s", "0.0 MB/s", "HIGH"],
            vec!["2", "fifty", "20.0 MB/s", "30.0 MB/s", "MED"],
            vec!["1", "ten", "10.0 MB/s", "0.0 MB/s", "MED"],
            vec!["3", "half", "0.0 MB/s", "0.5 MB/s", "LOW"],
        ]
    );
    let mut none: Vec<AnalyzedProc> = Vec::new();
    assert!(draw(&mut none).is_empty());
}

#[test]
fn the_table_has_its_header_and_widths() {
    assert_eq!(header(), vec!["PID", "CMD", "READ/s", "WRITE/s", "IMPACT"]);
    assert_eq!(
        widths(),
        vec![
            ColumnWidth::Length(6),
            ColumnWidth::Percentage(40),
            ColumnWidth::Length(12),
            ColumnWidth::Length(12),
            ColumnWidth::Length(8),
        ]
    );
}

#[test]
fn the_quit_key_stops_the_loop() {
    let event = Event::Waited { input: Input::Key('q'), elapsed_nanos: 5 };
    assert_eq!(step(LoopState::Running, 1000, event), (LoopState::Stopped, Action::Exit));
}

#[test]
fn other_input_and_none_let_the_loop_go_on() {
    for input in [Input::Key('Q'), Input::Key('x'), Input::Key('\n'), Input::Other, Input::Timeout] {
        let event = Event::Waited { input, elapsed_nanos: 400_000_000 };
        assert_eq!(
            step(LoopState::Running, 1000, event),
            (LoopState::Running, Action::Idle { nanos: 600_000_000 })
        );
    }
}

#[test]
fn the_wait_for_a_key_lasts_the_rest_of_the_interval() {
    assert_eq!(
        step(LoopState::Running, 1000, Event::Drawn { elapsed_nanos: 250_000_000 }),
        (LoopState::Running, Action::Wait { nanos: 750_000_000 })
    );
    assert_eq!(
        step(LoopState::Running, 1000, Event::Drawn { elapsed_nanos: 0 }),
        (LoopState::Running, Action::Wait { nanos: 1_000_000_000 })
    );
    assert_eq!(
        step(LoopState::Running, 1000, Event::Drawn { elapsed_nanos: 1_000_000_000 }),
        (LoopState::Running, Action::Wait { nanos: 0 })
    );
    assert_eq!(
        step(LoopState::Running, 1000, Event::Drawn { elapsed_nanos: 7_000_000_000 }),
        (LoopState::Running, Action::Wait { nanos: 0 })
    );
    assert_eq!(
        step(LoopState::Stopped, 1000, Event::Drawn { elapsed_nanos: 0 }),
        (LoopState::Stopped, Action::Exit)
    );
}

#[test]
fn a_wait_that_ran_out_leaves_nothing_to_idle() {
    let event = Event::Waited { input: Input::Timeout, elapsed_nanos: 1_000_000_123 };
    assert_eq!(step(LoopState::Running, 1000, event), (LoopState::Running, Action::Idle { nanos: 0 }));
}

#[test]
fn a_failed_scan_aborts() {
    assert_eq!(step(LoopState::Running, 1000, Event::ScanFailed), (LoopState::Stopped, Action::Abort));
}

#[test]
fn a_stopped_loop_stays_stopped() {
    let waited = Event::Waited { input: Input::Timeout, elapsed_nanos: 0 };
    assert_eq!(step(LoopState::Stopped, 1000, waited), (LoopState::Stopped, Action::Exit));
    assert_eq!(step(LoopState::Stopped, 1000, Event::ScanFailed), (LoopState::Stopped, Action::Exit));
}

#[test]
fn the_idle_time_is_the_rest_of_the_interval() {
    assert_eq!(idle_nanos(1000, 0), 1_000_000_000);
    assert_eq!(idle_nanos(1000, 1), 999_999_999);
    assert_eq!(idle_nanos(1000, 999_999_999), 1);
    assert_eq!(idle_nanos(1000, 1_000_000_000), 0);
    assert_eq!(idle_nanos(1000, 5_000_000_000), 0);
    assert_eq!(idle_nanos(0, 0), 0);
    assert_eq!(idle_nanos(u64::MAX, 0), u64::MAX as u128 * 1_000_000);
    assert_eq!(idle_nanos(250, u128::MAX), 0);
}

#[test]
fn the_defaults() {
    assert_eq!(iomap::tui::DEFAULT_INTERVAL_MS, 1000);
    assert_eq!(iomap::tui::QUIT_KEY, 'q');
    assert_eq!(iomap::tui::TITLE, "IOMap");
}

#[test]
fn a_cycle_scans_analyzes_and_lays_out() {
    let sample = |pid: i32, cmd: &str, read: u64, write: u64| {
        Some(RawSample {
            pid,
            cmd: cmd.to_string(),
            read_bytes: read,
            write_bytes: write,
            status: String::new(),
        })
    };
    let mut scanner = ProcScanner::new(None, None, "");
    let mut analyzer = IoAnalyzer;
    let (procs, rows) = cycle(
        &mut scanner,
        &mut analyzer,
        Some(vec![sample(1, "a", 100, 0), None, sample(2, "b", 0, 50_000)]),
    )
    .unwrap();
    assert_eq!(pids(&procs), vec![1, 2]);
    assert_eq!(
        rows,
        vec![
            vec!["1", "a", "0.0 MB/s", "0.0 MB/s", "LOW"],
            vec!["2", "b", "0.0 MB/s", "0.0 MB/s", "LOW"],
        ]
    );
    let (procs, rows) = cycle(
        &mut scanner,
        &mut analyzer,
        Some(vec![sample(1, "a", 6_000_100, 0), sample(2, "b", 60_000_000, 100_000)]),
    )
    .unwrap();
    assert_eq!(pids(&procs), vec![2, 1]);
    assert_eq!(
        rows,
        vec![
            vec!["2", "b", "60.0 MB/s", "0.1 MB/s", "HIGH"],
            vec!["1", "a", "6.0 MB/s", "0.0 MB/s", "MED"],
        ]
    );
    assert_eq!(scanner.last_seen(2), Some((60_000_000, 100_000)));
}

#[test]
fn a_cycle_without_a_list_fails_and_changes_nothing() {
    let mut scanner = ProcScanner::new(None, None, "");
    let mut analyzer = IoAnalyzer;
    let listing = Some(vec![Some(RawSample {
        pid: 1,
        cmd: "a".to_string(),
        read_bytes: 7,
        write_bytes: 8,
        status: String::new(),
    })]);
    cycle(&mut scanner, &mut analyzer, listing).unwrap();
    let out = cycle(&mut scanner, &mut analyzer, None);
    assert!(matches!(out, Err(CollectionError::ProcessList)));
    assert_eq!(scanner.last_seen(1), Some((7, 8)));
}
