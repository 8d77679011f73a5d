use iomap::io_analyzer::{Impact, IoAnalyzer, Rate};
use iomap::proc_scanner::{ProcScanner, RawSample};
use iomap::tui::draw;

fn sample(pid: i32, cmd: &str, read: u64, write: u64) -> RawSample {
    RawSample {
        pid,
        cmd: cmd.to_string(),
        read_bytes: read,
        write_bytes: write,
        status: String::new(),
    }
}

#[test]
fn six_megabytes_read_in_the_second_cycle() {
    let mut scanner = ProcScanner::new(None, None, "");
    let mut analyzer = IoAnalyzer;

    let first = scanner.snapshot(Some(vec![Some(sample(100, "worker", 0, 0))])).unwrap();
    assert_eq!(first.len(), 1);
    assert_eq!((first[0].read_bytes, first[0].write_bytes), (0, 0));

    let second = scanner.snapshot(Some(vec![Some(sample(100, "worker", 6_000_000, 0))])).unwrap();
    assert_eq!(second.len(), 1);
    assert_eq!(second[0].pid, 100);
    assert_eq!(second[0].read_bytes, 6_000_000);
    assert_eq!(second[0].write_bytes, 0);

    let mut analyzed = analyzer.evaluate(second);
    assert_eq!(analyzed.len(), 1);
    assert_eq!(analyzed[0].read_per_s, Rate { millionths: 6_000_000 });
    assert_eq!(analyzed[0].read_per_s.millionths as f64 / 1_000_000.0, 6.0);
    assert_eq!(analyzed[0].write_per_s.millionths as f64 / 1_000_000.0, 0.0);
    assert_eq!(analyzed[0].impact, Impact::Medium);

    let rows = draw(&mut analyzed);
    assert_eq!(rows, vec![vec!["100", "worker", "6.0 MB/s", "0.0 MB/s", "MED"]]);
}

#[test]
fn a_long_lived_process_first_seen_late_shows_no_burst() {
    let mut scanner = ProcScanner::new(None, None, "");
    let mut analyzer = IoAnalyzer;
    let first = scanner
        .snapshot(Some(vec![Some(sample(1, "init", 900_000_000_000, 800_000_000_000))]))
        .unwrap();
    let analyzed = analyzer.evaluate(first);
    assert_eq!(analyzed[0].impact, Impact::Low);
    assert_eq!(analyzed[0].combined_rate(), 0);
}

#[test]
fn a_cycle_with_several_processes() {
    let mut scanner = ProcScanner::new(None, Some("d".to_string()), "");
    let mut analyzer = IoAnalyzer;
    scanner
        .snapshot(Some(vec![
            Some(sample(1, "dd", 0, 0)),
            Some(sample(2, "bash", 0, 0)),
            Some(sample(3, "rsyncd", 10, 10)),
        ]))
        .unwrap();
    let records = scanner
        .snapshot(Some(vec![
            Some(sample(1, "dd", 1_000_000, 2_000_000)),
            None,
            Some(sample(2, "bash", 99_000_000, 0)),
            Some(sample(3, "rsyncd", 60_000_010, 10)),
            Some(sample(4, "systemd", 5, 5)),
        ]))
        .unwrap();
    let mut analyzed = analyzer.evaluate(records);
    let rows = draw(&mut analyzed);
    assert_eq!(
        rows,
        vec![
            vec!["3", "rsyncd", "60.0 MB/s", "0.0 MB/s", "HIGH"],
            vec!["1", "dd", "1.0 MB/s", "2.0 MB/s", "LOW"],
            vec!["4", "systemd", "0.0 MB/s", "0.0 MB/s", "LOW"],
        ]
    );
}
