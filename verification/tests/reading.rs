use du_app::clock::{get_current_timestamp_ms, millis_of};
use du_app::reports::{concat_reports, is_metrics_file, line_window, push_report, select_metric_files};
use du_app::text::{chars_of, join_with, read_byte_lines, split_at_char};

fn lines(s: &[u8]) -> Vec<Vec<u8>> {
    read_byte_lines(s)
}

#[test]
fn lines_like_bufread() {
    assert_eq!(lines(b"h\nl1\r\nl2\n"), vec![b"h".to_vec(), b"l1".to_vec(), b"l2".to_vec()]);
    assert_eq!(lines(b"a\r"), vec![b"a\r".to_vec()]);
    assert_eq!(lines(b""), Vec::<Vec<u8>>::new());
    assert_eq!(lines(b"a\n\n"), vec![b"a".to_vec(), b"".to_vec()]);
    assert_eq!(lines(b"\n"), vec![b"".to_vec()]);
    for s in ["x\ny\r\n\r\nz", "one", "a\r\nb\r", "\n\n\n", "\u{e9}t\u{e9}\r\n"] {
        let std_lines: Vec<Vec<u8>> = std::io::BufRead::lines(s.as_bytes())
            .map(|l| l.unwrap().into_bytes())
            .collect();
        assert_eq!(lines(s.as_bytes()), std_lines);
    }
}

#[test]
fn invalid_utf8_stays_in_its_line() {
    let content = b"head\n\xff\xfe\r\n1,2\n";
    let l = lines(content);
    assert_eq!(l.len(), 3);
    assert_eq!(l[1], vec![0xff, 0xfe]);
    assert_eq!(String::from_utf8(l[2].clone()).unwrap(), "1,2");
}

#[test]
fn split_and_join() {
    assert_eq!(split_at_char("a,,b", ','), vec!["a", "", "b"]);
    assert_eq!(split_at_char("", ','), vec![""]);
    assert_eq!(split_at_char(",", ','), vec!["", ""]);
    let fields = split_at_char("5,10,é,", ',');
    assert_eq!(join_with(&fields, ","), "5,10,é,");
    assert_eq!(chars_of("aé"), vec!['a', 'é']);
}

#[test]
fn window_of_lines() {
    assert_eq!(line_window(10, 3), (7, 3));
    assert_eq!(line_window(3, 5), (1, 2));
    assert_eq!(line_window(3, 3), (1, 2));
    assert_eq!(line_window(4, 3), (1, 3));
    assert_eq!(line_window(0, 5), (0, 0));
    assert_eq!(line_window(1, 5), (1, 0));
    assert_eq!(line_window(4, 0), (4, 0));
}

#[test]
fn reports_end_with_newlines() {
    assert_eq!(concat_reports(&vec!["a".to_string(), "b,c".to_string()]), "a\nb,c\n");
    assert_eq!(concat_reports(&vec![]), "");
}

#[test]
fn metrics_files() {
    assert!(is_metrics_file("/root/radio_code/scope_config/metrics/csv/1010123456002_metrics.csv"));
    assert!(!is_metrics_file("/root/radio_code/scope_config/metrics/csv/123_metrics.csv"));
    assert!(is_metrics_file("abcdefghij"));
    assert!(!is_metrics_file("abcdefghi"));
    assert!(is_metrics_file("dir_long_name/ééééé_x"));
    assert!(!is_metrics_file("/root/1010123456002/x_y.csv"));
    let paths = vec![
        "/m/1010123456002_metrics.csv".to_string(),
        "/m/readme".to_string(),
        "/m/1010123456003_metrics.csv".to_string(),
    ];
    assert_eq!(
        select_metric_files(&paths),
        vec!["/m/1010123456002_metrics.csv", "/m/1010123456003_metrics.csv"]
    );
}

#[test]
fn clock_reads_after_epoch() {
    let ts = get_current_timestamp_ms().expect("clock after the epoch");
    assert!(ts > 1_600_000_000_000);
}

#[test]
fn only_nonempty_reports_are_kept() {
    let mut reports = Vec::new();
    assert!(push_report(&mut reports, "a,b".to_string()));
    assert!(!push_report(&mut reports, String::new()));
    assert!(push_report(&mut reports, "c".to_string()));
    assert_eq!(reports, vec!["a,b", "c"]);
    assert_eq!(concat_reports(&reports), "a,b\nc\n");
}

#[test]
fn millis_like_duration() {
    assert_eq!(millis_of(2, 999_999_999), 2999);
    assert_eq!(millis_of(0, 1_999_999), 1);
    for (s, n) in [(0u64, 0u32), (1_700_000_000, 123_456_789), (u64::MAX, 999_999_999)] {
        assert_eq!(millis_of(s, n), std::time::Duration::new(s, n).as_millis());
    }
}
