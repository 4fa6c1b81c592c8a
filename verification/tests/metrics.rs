use du_app::metrics::{
    metrics_line_is_valid, read_metrics, read_metrics_interactive, timestamp_difference, BsMetrics,
};

const TS: u128 = 1700000000000;

fn sample_line() -> String {
    let fields = [
        "1700000000000", "1", "1010123456002", "70", "x", "1", "0", "15", "1.0", "1", "u",
        "27.5", "100", "2048", "1.25", "12", "0.5", "15", "", "20", "50", "-1", "0.3", "7", "0",
        "-80.5", "12.1", "30", "z", "10", "5", "", "0", "1", "0.1", "2.5",
    ];
    fields.join(",")
}

fn read(line: &str) -> (BsMetrics, i32) {
    assert!(metrics_line_is_valid(line));
    let mut bs = BsMetrics::default();
    let n = read_metrics(line, &mut bs);
    (bs, n)
}

#[test]
fn reads_every_metric() {
    let (bs, n) = read(&sample_line());
    assert_eq!(n, 34);
    assert_eq!(bs.timestamp, TS);
    assert_eq!(bs.num_ues, 1);
    assert_eq!(bs.imsi, 1010123456002);
    assert_eq!(bs.rnti, 70);
    assert_eq!(bs.slicing_enabled, 1);
    assert_eq!(bs.slice_id, 0);
    assert_eq!(bs.slice_prb, 15);
    assert_eq!(bs.power_multiplier, "1.0");
    assert_eq!(bs.scheduling_policy, 1);
    assert_eq!(bs.dl_mcs, "27.5");
    assert_eq!(bs.dl_n_samples, 100);
    assert_eq!(bs.dl_buffer_bytes, 2048);
    assert_eq!(bs.tx_brate_downlink_mbps, "1.25");
    assert_eq!(bs.tx_pkts_downlink, 12);
    assert_eq!(bs.tx_errors_downlink_perc, "0.5");
    assert_eq!(bs.dl_cqi, "15");
    assert_eq!(bs.ul_mcs, "20");
    assert_eq!(bs.ul_n_samples, 50);
    assert_eq!(bs.ul_buffer_bytes, -1);
    assert_eq!(bs.rx_brate_uplink_mbps, "0.3");
    assert_eq!(bs.rx_pkts_uplink, 7);
    assert_eq!(bs.rx_errors_uplink_perc, "0");
    assert_eq!(bs.ul_rssi, "-80.5");
    assert_eq!(bs.ul_sinr, "12.1");
    assert_eq!(bs.phr, "30");
    assert_eq!(bs.sum_requested_prbs, 10);
    assert_eq!(bs.sum_granted_prbs, 5);
    assert_eq!(bs.dl_pmi, "0");
    assert_eq!(bs.dl_ri, "1");
    assert_eq!(bs.ul_n, "0.1");
    assert_eq!(bs.ul_turbo_iters, "2.5");
}

#[test]
fn empty_fields_change_nothing() {
    let mut bs = BsMetrics::default();
    bs.slice_prb = 9;
    bs.phr = "4".to_string();
    let n = read_metrics(",,,,", &mut bs);
    assert_eq!(n, 0);
    assert_eq!(bs.slice_prb, 9);
    assert_eq!(bs.phr, "4");
    let n = read_metrics("", &mut bs);
    assert_eq!(n, 0);
}

#[test]
fn default_record() {
    let bs = BsMetrics::default();
    assert_eq!(bs.timestamp, 0);
    assert_eq!(bs.sum_granted_prbs, 0);
    assert_eq!(bs.power_multiplier, "0");
    assert_eq!(bs.ul_turbo_iters, "0");
}

#[test]
fn invalid_integer_fields_are_refused() {
    assert!(metrics_line_is_valid(&sample_line()));
    assert!(!metrics_line_is_valid("1,abc"));
    assert!(!metrics_line_is_valid("1,1,1,70000"));
    assert!(!metrics_line_is_valid("1,1,1,1,1,256"));
    assert!(!metrics_line_is_valid(&format!("{},{}", "1,".repeat(12), "2147483648")));
    assert!(metrics_line_is_valid("1,1,1,1,1,1,1,1,not-a-number"));
    assert!(!metrics_line_is_valid("timestamp,num_ues"));
}

#[test]
fn agent_preset_csv() {
    let (bs, n) = read(&sample_line());
    let out = read_metrics_interactive(&bs, n, TS + 1000, false, 1, "0.5");
    assert_eq!(out, "0,2048,1.25,0.5,15,12");
}

#[test]
fn agent_preset_json() {
    let (bs, n) = read(&sample_line());
    let out = read_metrics_interactive(&bs, n, TS + 1000, true, 1, "0.5");
    assert_eq!(
        out,
        "{\"timestamp\":1700000000000,\"slice_id\":0,\"dl_bytes\":2048,\"dl_thr_mbps\":1.25,\
         \"ratio_granted_req_prb\":0.5,\"slice_prb\":15,\"dl_pkts\":12}"
    );
}

#[test]
fn all_metrics_csv() {
    let (bs, n) = read(&sample_line());
    let out = read_metrics_interactive(&bs, n, TS, false, 0, "0.5");
    assert_eq!(
        out,
        "1700000000000,1,1010123456002,70,1,0,15,1.0,1,27.5,100,2048,1.25,12,0.5,15,20,50,-1,0.3,7,0,-80.5,12.1,30,10,5,0,1,0.1,2.5"
    );
}

#[test]
fn all_metrics_json() {
    let (bs, n) = read(&sample_line());
    let out = read_metrics_interactive(&bs, n, TS, true, 0, "0.5");
    assert_eq!(
        out,
        "{\"timestamp\":1700000000000,\"num_ue\":1,\"imsi\":1010123456002,\"rnti\":70,\
         \"slicing_enabled\":1,\"slice_id\":0,\"slice_prb\":15,\"power_multiplier\":1.0,\
         \"scheduling_policies\":1,\"dl_mcs\":27.5,\"dl_samples\":100,\"dl_bytes\":2048,\
         \"dl_thr_mbps\":1.25,\"dl_pkts\":12,\"dl_errors\":0.5,\"dl_cqi\":15,\"ul_mcs\":20,\
         \"ul_samples\":50,\"ul_bytes\":-1,\"ul_thr_mbps\":0.3,\"ul_pkts\":7,\"ul_errors\":0,\
         \"ul_rssi\":-80.5,\"ul_sinr\":12.1,\"phr\":30,\"sum_requested_prbs\":10,\
         \"sum_granted_prbs\":5,\"dl_pmi\":0,\"dl_ri\":1,\"ul_n\":0.1,\"ul_turbo_iterations\":2.5}"
    );
}

#[test]
fn stale_lines_are_not_reported() {
    let (bs, n) = read(&sample_line());
    assert_ne!(read_metrics_interactive(&bs, n, TS + 2000, false, 1, "1"), "");
    assert_eq!(read_metrics_interactive(&bs, n, TS + 2001, false, 1, "1"), "");
    assert_ne!(read_metrics_interactive(&bs, n, TS - 5000, false, 1, "1"), "");
}

#[test]
fn short_lines_are_not_reported() {
    let (bs, _) = read(&sample_line());
    assert_eq!(read_metrics_interactive(&bs, 30, TS, false, 1, "1"), "");
    assert_ne!(read_metrics_interactive(&bs, 31, TS, false, 1, "1"), "");
}

#[test]
fn prb_condition() {
    let (mut bs, n) = read(&sample_line());
    bs.sum_requested_prbs = 0;
    bs.sum_granted_prbs = 0;
    assert_eq!(read_metrics_interactive(&bs, n, TS, false, 1, "1"), "");
    bs.sum_granted_prbs = 3;
    assert_eq!(read_metrics_interactive(&bs, n, TS, false, 1, "1"), "0,2048,1.25,1,15,12");
    bs.sum_requested_prbs = -1;
    assert_eq!(read_metrics_interactive(&bs, n, TS, false, 1, "1"), "");
}

#[test]
fn unknown_preset() {
    let (bs, n) = read(&sample_line());
    assert_eq!(read_metrics_interactive(&bs, n, TS, true, 7, "1"), "");
}

#[test]
fn timestamp_age() {
    assert_eq!(timestamp_difference(TS + 5, TS), Some(5));
    assert_eq!(timestamp_difference(TS, TS + 5), Some(-5));
    // u128::MAX is -1 taken as an i128
    assert_eq!(timestamp_difference(TS, u128::MAX), Some(TS as i128 + 1));
    assert_eq!(timestamp_difference(TS, 1u128 << 127), None);
}

#[test]
fn wrapped_timestamp_is_stale() {
    let (mut bs, n) = read(&sample_line());
    bs.timestamp = u128::MAX;
    assert_eq!(read_metrics_interactive(&bs, n, TS, false, 1, "1"), "");
}
