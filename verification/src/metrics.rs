//! Base-station metrics: reading a CSV metrics line into a record, and building the
//! report that is sent for it.
use vstd::prelude::*;
use vstd::string::StringExecFns;
use crate::number::{
    decimal, decimal_text, lemma_decimal, lemma_decimal_without, lemma_signed_decimal_without, parse_signed, parse_signed_text, parse_unsigned, parse_unsigned_text,
    signed_decimal, signed_decimal_text,
};
use crate::text::{join, join_with, law_split_join, lemma_join_first, split, split_at_char, views};

verus! {

/// Number of metrics that a usable CSV line holds.
pub const CSV_METRICS_NUM: u8 = 31;

/// Age, in seconds, beyond which a metrics line is no longer reported.
pub const DELTA_TS_S: u8 = 2;

/// The report preset used when reading metrics files.
pub const METRICS_PRESET: u32 = 1;

/// When set, stale metrics lines are reported too.
pub const TIMESTAMP_DEBUG: bool = false;

/// One line of base-station metrics.
///
/// Integer metrics hold their values. The metrics that the base station writes as
/// floating-point numbers hold text: `read_metrics` stores the field's text as read, and
/// the report shows whatever text the record holds, so a caller that wants them shown
/// as Rust shows an `f32` converts them before building the report.
pub struct BsMetrics {
    pub timestamp: u128,
    pub num_ues: u16,
    pub imsi: u64,
    pub rnti: u16,
    pub slicing_enabled: u8,
    pub slice_id: u32,
    pub slice_prb: u32,
    pub power_multiplier: String,
    pub scheduling_policy: u32,
    // downlink
    pub dl_mcs: String,
    pub dl_n_samples: i32,
    pub dl_buffer_bytes: i32,
    pub tx_brate_downlink_mbps: String,
    pub tx_pkts_downlink: i32,
    pub tx_errors_downlink_perc: String,
    pub dl_cqi: String,
    // uplink
    pub ul_mcs: String,
    pub ul_n_samples: i32,
    pub ul_buffer_bytes: i32,
    pub rx_brate_uplink_mbps: String,
    pub rx_pkts_uplink: i32,
    pub rx_errors_uplink_perc: String,
    pub ul_rssi: String,
    pub ul_sinr: String,
    pub phr: String,
    // prb
    pub sum_requested_prbs: i32,
    pub sum_granted_prbs: i32,
    // other
    pub dl_pmi: String,
    pub dl_ri: String,
    pub ul_n: String,
    pub ul_turbo_iters: String,
}

/// The record before anything is read: every integer metric 0, every other metric "0".
pub open spec fn is_initial(m: BsMetrics) -> bool {
    &&& m.timestamp == 0
    &&& m.num_ues == 0
    &&& m.imsi == 0
    &&& m.rnti == 0
    &&& m.slicing_enabled == 0
    &&& m.slice_id == 0
    &&& m.slice_prb == 0
    &&& m.power_multiplier@ == "0"@
    &&& m.scheduling_policy == 0
    &&& m.dl_mcs@ == "0"@
    &&& m.dl_n_samples == 0
    &&& m.dl_buffer_bytes == 0
    &&& m.tx_brate_downlink_mbps@ == "0"@
    &&& m.tx_pkts_downlink == 0
    &&& m.tx_errors_downlink_perc@ == "0"@
    &&& m.dl_cqi@ == "0"@
    &&& m.ul_mcs@ == "0"@
    &&& m.ul_n_samples == 0
    &&& m.ul_buffer_bytes == 0
    &&& m.rx_brate_uplink_mbps@ == "0"@
    &&& m.rx_pkts_uplink == 0
    &&& m.rx_errors_uplink_perc@ == "0"@
    &&& m.ul_rssi@ == "0"@
    &&& m.ul_sinr@ == "0"@
    &&& m.phr@ == "0"@
    &&& m.sum_requested_prbs == 0
    &&& m.sum_granted_prbs == 0
    &&& m.dl_pmi@ == "0"@
    &&& m.dl_ri@ == "0"@
    &&& m.ul_n@ == "0"@
    &&& m.ul_turbo_iters@ == "0"@
}

impl Default for BsMetrics {
    fn default() -> (m: Self)
        ensures
            is_initial(m),
    {
        BsMetrics {
            timestamp: 0,
            num_ues: 0,
            imsi: 0,
            rnti: 0,
            slicing_enabled: 0,
            slice_id: 0,
            slice_prb: 0,
            power_multiplier: String::from_str("0"),
            scheduling_policy: 0,
            dl_mcs: String::from_str("0"),
            dl_n_samples: 0,
            dl_buffer_bytes: 0,
            tx_brate_downlink_mbps: String::from_str("0"),
            tx_pkts_downlink: 0,
            tx_errors_downlink_perc: String::from_str("0"),
            dl_cqi: String::from_str("0"),
            ul_mcs: String::from_str("0"),
            ul_n_samples: 0,
            ul_buffer_bytes: 0,
            rx_brate_uplink_mbps: String::from_str("0"),
            rx_pkts_uplink: 0,
            rx_errors_uplink_perc: String::from_str("0"),
            ul_rssi: String::from_str("0"),
            ul_sinr: String::from_str("0"),
            phr: String::from_str("0"),
            sum_requested_prbs: 0,
            sum_granted_prbs: 0,
            dl_pmi: String::from_str("0"),
            dl_ri: String::from_str("0"),
            ul_n: String::from_str("0"),
            ul_turbo_iters: String::from_str("0"),
        }
    }
}

// ---------------------------------------------------------------------------
// Reading a line
// ---------------------------------------------------------------------------

/// Field `i` of the line is there and not empty.
pub open spec fn present(f: Seq<Seq<char>>, i: int) -> bool {
    i < f.len() && f[i].len() > 0
}

/// An unsigned metric after reading field `i`: its value when present, else `old`.
pub open spec fn read_unsigned(f: Seq<Seq<char>>, i: int, max: int, old: int) -> int {
    if present(f, i) {
        parse_unsigned(f[i], max).unwrap()
    } else {
        old
    }
}

/// A signed 32-bit metric after reading field `i`.
pub open spec fn read_i32(f: Seq<Seq<char>>, i: int, old: int) -> int {
    if present(f, i) {
        parse_signed(f[i], i32::MIN as int, i32::MAX as int).unwrap()
    } else {
        old
    }
}

/// A displayed metric after reading field `i`: the field's text when present.
pub open spec fn read_text(f: Seq<Seq<char>>, i: int, old: Seq<char>) -> Seq<char> {
    if present(f, i) {
        f[i]
    } else {
        old
    }
}

pub open spec fn unsigned_ok(f: Seq<Seq<char>>, i: int, max: int) -> bool {
    present(f, i) ==> parse_unsigned(f[i], max) is Some
}

pub open spec fn i32_ok(f: Seq<Seq<char>>, i: int) -> bool {
    present(f, i) ==> parse_signed(f[i], i32::MIN as int, i32::MAX as int) is Some
}

/// Every integer metric that the comma-separated fields hold parses as its type.
pub open spec fn integer_fields_ok(f: Seq<Seq<char>>) -> bool {
    &&& unsigned_ok(f, 0, u128::MAX as int)
    &&& unsigned_ok(f, 1, u16::MAX as int)
    &&& unsigned_ok(f, 2, u64::MAX as int)
    &&& unsigned_ok(f, 3, u16::MAX as int)
    &&& unsigned_ok(f, 5, u8::MAX as int)
    &&& unsigned_ok(f, 6, u32::MAX as int)
    &&& unsigned_ok(f, 7, u32::MAX as int)
    &&& unsigned_ok(f, 9, u32::MAX as int)
    &&& i32_ok(f, 12)
    &&& i32_ok(f, 13)
    &&& i32_ok(f, 15)
    &&& i32_ok(f, 20)
    &&& i32_ok(f, 21)
    &&& i32_ok(f, 23)
    &&& i32_ok(f, 29)
    &&& i32_ok(f, 30)
}

/// A metrics line that can be read: its integer metrics parse, and the count of its
/// fields fits in an `i32`.
pub open spec fn line_readable(line: Seq<char>) -> bool {
    &&& split(line, ',').len() <= i32::MAX
    &&& integer_fields_ok(split(line, ','))
}

/// The number of non-empty fields.
pub open spec fn nonempty_count(f: Seq<Seq<char>>) -> nat
    decreases f.len(),
{
    if f.len() == 0 {
        0
    } else {
        nonempty_count(f.drop_last()) + if f.last().len() > 0 {
            1nat
        } else {
            0nat
        }
    }
}

/// `new` is `old` after reading the comma-separated fields of `line`: each metric
/// takes the value of the field at its position when that field is not empty.
pub open spec fn read_into(line: Seq<char>, old: BsMetrics, new: BsMetrics) -> bool {
    let f = split(line, ',');
    &&& new.timestamp == read_unsigned(f, 0, u128::MAX as int, old.timestamp as int)
    &&& new.num_ues == read_unsigned(f, 1, u16::MAX as int, old.num_ues as int)
    &&& new.imsi == read_unsigned(f, 2, u64::MAX as int, old.imsi as int)
    &&& new.rnti == read_unsigned(f, 3, u16::MAX as int, old.rnti as int)
    &&& new.slicing_enabled == read_unsigned(f, 5, u8::MAX as int, old.slicing_enabled as int)
    &&& new.slice_id == read_unsigned(f, 6, u32::MAX as int, old.slice_id as int)
    &&& new.slice_prb == read_unsigned(f, 7, u32::MAX as int, old.slice_prb as int)
    &&& new.power_multiplier@ == read_text(f, 8, old.power_multiplier@)
    &&& new.scheduling_policy == read_unsigned(f, 9, u32::MAX as int, old.scheduling_policy as int)
    &&& new.dl_mcs@ == read_text(f, 11, old.dl_mcs@)
    &&& new.dl_n_samples == read_i32(f, 12, old.dl_n_samples as int)
    &&& new.dl_buffer_bytes == read_i32(f, 13, old.dl_buffer_bytes as int)
    &&& new.tx_brate_downlink_mbps@ == read_text(f, 14, old.tx_brate_downlink_mbps@)
    &&& new.tx_pkts_downlink == read_i32(f, 15, old.tx_pkts_downlink as int)
    &&& new.tx_errors_downlink_perc@ == read_text(f, 16, old.tx_errors_downlink_perc@)
    &&& new.dl_cqi@ == read_text(f, 17, old.dl_cqi@)
    &&& new.ul_mcs@ == read_text(f, 19, old.ul_mcs@)
    &&& new.ul_n_samples == read_i32(f, 20, old.ul_n_samples as int)
    &&& new.ul_buffer_bytes == read_i32(f, 21, old.ul_buffer_bytes as int)
    &&& new.rx_brate_uplink_mbps@ == read_text(f, 22, old.rx_brate_uplink_mbps@)
    &&& new.rx_pkts_uplink == read_i32(f, 23, old.rx_pkts_uplink as int)
    &&& new.rx_errors_uplink_perc@ == read_text(f, 24, old.rx_errors_uplink_perc@)
    &&& new.ul_rssi@ == read_text(f, 25, old.ul_rssi@)
    &&& new.ul_sinr@ == read_text(f, 26, old.ul_sinr@)
    &&& new.phr@ == read_text(f, 27, old.phr@)
    &&& new.sum_requested_prbs == read_i32(f, 29, old.sum_requested_prbs as int)
    &&& new.sum_granted_prbs == read_i32(f, 30, old.sum_granted_prbs as int)
    &&& new.dl_pmi@ == read_text(f, 32, old.dl_pmi@)
    &&& new.dl_ri@ == read_text(f, 33, old.dl_ri@)
    &&& new.ul_n@ == read_text(f, 34, old.ul_n@)
    &&& new.ul_turbo_iters@ == read_text(f, 35, old.ul_turbo_iters@)
}

fn is_present(f: &Vec<String>, i: usize) -> (b: bool)
    ensures
        b == present(views(f@), i as int),
{
    i < f.len() && f[i].unicode_len() > 0
}

fn unsigned_field_ok(f: &Vec<String>, i: usize, max: u128) -> (b: bool)
    ensures
        b == unsigned_ok(views(f@), i as int, max as int),
{
    if is_present(f, i) {
        parse_unsigned_text(f[i].as_str(), max).is_some()
    } else {
        true
    }
}

fn i32_field_ok(f: &Vec<String>, i: usize) -> (b: bool)
    ensures
        b == i32_ok(views(f@), i as int),
{
    if is_present(f, i) {
        parse_signed_text(f[i].as_str(), i32::MIN as i128, i32::MAX as i128).is_some()
    } else {
        true
    }
}

fn integer_fields_valid(f: &Vec<String>) -> (b: bool)
    ensures
        b == integer_fields_ok(views(f@)),
{
    unsigned_field_ok(f, 0, u128::MAX) && unsigned_field_ok(f, 1, u16::MAX as u128)
        && unsigned_field_ok(f, 2, u64::MAX as u128) && unsigned_field_ok(f, 3, u16::MAX as u128)
        && unsigned_field_ok(f, 5, u8::MAX as u128) && unsigned_field_ok(f, 6, u32::MAX as u128)
        && unsigned_field_ok(f, 7, u32::MAX as u128) && unsigned_field_ok(f, 9, u32::MAX as u128)
        && i32_field_ok(f, 12) && i32_field_ok(f, 13) && i32_field_ok(f, 15) && i32_field_ok(f, 20)
        && i32_field_ok(f, 21) && i32_field_ok(f, 23) && i32_field_ok(f, 29) && i32_field_ok(f, 30)
}

/// Whether `read_metrics` can read `line`; where it cannot, reading it is refused.
pub fn metrics_line_is_valid(line: &str) -> (b: bool)
    ensures
        b == line_readable(line@),
{
    let f = split_at_char(line, ',');
    f.len() <= i32::MAX as usize && integer_fields_valid(&f)
}

fn read_unsigned_field(f: &Vec<String>, i: usize, max: u128, old: u128) -> (v: u128)
    requires
        old <= max,
        unsigned_ok(views(f@), i as int, max as int),
    ensures
        v == read_unsigned(views(f@), i as int, max as int, old as int),
        v <= max,
{
    if is_present(f, i) {
        match parse_unsigned_text(f[i].as_str(), max) {
            Some(v) => v,
            None => old,
        }
    } else {
        old
    }
}

fn read_i32_field(f: &Vec<String>, i: usize, old: i32) -> (v: i32)
    requires
        i32_ok(views(f@), i as int),
    ensures
        v == read_i32(views(f@), i as int, old as int),
{
    if is_present(f, i) {
        match parse_signed_text(f[i].as_str(), i32::MIN as i128, i32::MAX as i128) {
            Some(v) => v as i32,
            None => old,
        }
    } else {
        old
    }
}

fn read_text_field(f: &Vec<String>, i: usize, old: &String) -> (v: String)
    ensures
        v@ == read_text(views(f@), i as int, old@),
{
    if is_present(f, i) {
        f[i].clone()
    } else {
        old.clone()
    }
}

proof fn lemma_nonempty_count_le(f: Seq<Seq<char>>)
    ensures
        nonempty_count(f) <= f.len(),
    decreases f.len(),
{
    if f.len() > 0 {
        lemma_nonempty_count_le(f.drop_last());
    }
}

fn count_nonempty(f: &Vec<String>) -> (n: i32)
    requires
        f.len() <= i32::MAX,
    ensures
        n == nonempty_count(views(f@)),
{
    let mut n: i32 = 0;
    let mut i: usize = 0;
    while i < f.len()
        invariant
            f.len() <= i32::MAX,
            i <= f.len(),
            n == nonempty_count(views(f@).take(i as int)),
        decreases f.len() - i,
    {
        proof {
            lemma_nonempty_count_le(views(f@).take(i as int));
            assert(views(f@).take(i + 1).drop_last() =~= views(f@).take(i as int));
        }
        if f[i].unicode_len() > 0 {
            n = n + 1;
        }
        i = i + 1;
    }
    assert(views(f@).take(f.len() as int) =~= views(f@));
    n
}

/// Reads the comma-separated metrics of `line` into `bs_metrics` and returns how many
/// non-empty fields the line holds.
///
/// A field that is empty, or that lies at a position which holds no metric, changes
/// nothing; every non-empty field counts.
pub fn read_metrics(line: &str, bs_metrics: &mut BsMetrics) -> (read_items: i32)
    requires
        line_readable(line@),
    ensures
        read_into(line@, *old(bs_metrics), *final(bs_metrics)),
        read_items == nonempty_count(split(line@, ',')),
{
    let f = split_at_char(line, ',');
    bs_metrics.timestamp = read_unsigned_field(&f, 0, u128::MAX, bs_metrics.timestamp);
    bs_metrics.num_ues = read_unsigned_field(&f, 1, u16::MAX as u128, bs_metrics.num_ues as u128) as u16;
    bs_metrics.imsi = read_unsigned_field(&f, 2, u64::MAX as u128, bs_metrics.imsi as u128) as u64;
    bs_metrics.rnti = read_unsigned_field(&f, 3, u16::MAX as u128, bs_metrics.rnti as u128) as u16;
    bs_metrics.slicing_enabled = read_unsigned_field(
        &f,
        5,
        u8::MAX as u128,
        bs_metrics.slicing_enabled as u128,
    ) as u8;
    bs_metrics.slice_id = read_unsigned_field(&f, 6, u32::MAX as u128, bs_metrics.slice_id as u128) as u32;
    bs_metrics.slice_prb = read_unsigned_field(&f, 7, u32::MAX as u128, bs_metrics.slice_prb as u128) as u32;
    bs_metrics.power_multiplier = read_text_field(&f, 8, &bs_metrics.power_multiplier);
    bs_metrics.scheduling_policy = read_unsigned_field(
        &f,
        9,
        u32::MAX as u128,
        bs_metrics.scheduling_policy as u128,
    ) as u32;
    bs_metrics.dl_mcs = read_text_field(&f, 11, &bs_metrics.dl_mcs);
    bs_metrics.dl_n_samples = read_i32_field(&f, 12, bs_metrics.dl_n_samples);
    bs_metrics.dl_buffer_bytes = read_i32_field(&f, 13, bs_metrics.dl_buffer_bytes);
    bs_metrics.tx_brate_downlink_mbps = read_text_field(&f, 14, &bs_metrics.tx_brate_downlink_mbps);
    bs_metrics.tx_pkts_downlink = read_i32_field(&f, 15, bs_metrics.tx_pkts_downlink);
    bs_metrics.tx_errors_downlink_perc = read_text_field(&f, 16, &bs_metrics.tx_errors_downlink_perc);
    bs_metrics.dl_cqi = read_text_field(&f, 17, &bs_metrics.dl_cqi);
    bs_metrics.ul_mcs = read_text_field(&f, 19, &bs_metrics.ul_mcs);
    bs_metrics.ul_n_samples = read_i32_field(&f, 20, bs_metrics.ul_n_samples);
    bs_metrics.ul_buffer_bytes = read_i32_field(&f, 21, bs_metrics.ul_buffer_bytes);
    bs_metrics.rx_brate_uplink_mbps = read_text_field(&f, 22, &bs_metrics.rx_brate_uplink_mbps);
    bs_metrics.rx_pkts_uplink = read_i32_field(&f, 23, bs_metrics.rx_pkts_uplink);
    bs_metrics.rx_errors_uplink_perc = read_text_field(&f, 24, &bs_metrics.rx_errors_uplink_perc);
    bs_metrics.ul_rssi = read_text_field(&f, 25, &bs_metrics.ul_rssi);
    bs_metrics.ul_sinr = read_text_field(&f, 26, &bs_metrics.ul_sinr);
    bs_metrics.phr = read_text_field(&f, 27, &bs_metrics.phr);
    bs_metrics.sum_requested_prbs = read_i32_field(&f, 29, bs_metrics.sum_requested_prbs);
    bs_metrics.sum_granted_prbs = read_i32_field(&f, 30, bs_metrics.sum_granted_prbs);
    bs_metrics.dl_pmi = read_text_field(&f, 32, &bs_metrics.dl_pmi);
    bs_metrics.dl_ri = read_text_field(&f, 33, &bs_metrics.dl_ri);
    bs_metrics.ul_n = read_text_field(&f, 34, &bs_metrics.ul_n);
    bs_metrics.ul_turbo_iters = read_text_field(&f, 35, &bs_metrics.ul_turbo_iters);
    count_nonempty(&f)
}

// ---------------------------------------------------------------------------
// Building the report of a line
// ---------------------------------------------------------------------------

/// The PRB condition under which a line is reported: PRBs were requested, or none were
/// requested and some were granted anyway.
pub open spec fn prbs_reported(m: BsMetrics) -> bool {
    m.sum_requested_prbs > 0 || (m.sum_requested_prbs == 0 && m.sum_granted_prbs > 0)
}

/// A `u128` taken as an `i128` (`as i128`): values above `i128::MAX` wrap around.
pub open spec fn wrap_i128(x: int) -> int {
    if x > i128::MAX {
        x - 0x1_0000_0000_0000_0000_0000_0000_0000_0000
    } else {
        x
    }
}

/// The age of a line, in milliseconds, as the difference of both times taken as `i128`.
pub open spec fn age_ms(curr_ts: int, timestamp: int) -> int {
    wrap_i128(curr_ts) - wrap_i128(timestamp)
}

/// A line is stale when it is more than `DELTA_TS_S` seconds older than `curr_ts`
/// (both in milliseconds).
pub open spec fn is_stale(curr_ts: int, timestamp: int) -> bool {
    age_ms(curr_ts, timestamp) > DELTA_TS_S as int * 1000
}

fn wrapped_i128(x: u128) -> (v: i128)
    ensures
        v == wrap_i128(x as int),
{
    if x > i128::MAX as u128 {
        (x - i128::MAX as u128 - 1) as i128 + i128::MIN
    } else {
        x as i128
    }
}

/// The age of a line stamped `timestamp` at time `curr_ts`, in milliseconds, when it
/// fits in an `i128`; `None` when the subtraction overflows.
pub fn timestamp_difference(curr_ts: u128, timestamp: u128) -> (d: Option<i128>)
    ensures
        match d {
            Some(v) => v == age_ms(curr_ts as int, timestamp as int),
            None => !(i128::MIN <= age_ms(curr_ts as int, timestamp as int) <= i128::MAX),
        },
{
    let a = wrapped_i128(curr_ts);
    let b = wrapped_i128(timestamp);
    a.checked_sub(b)
}

/// The report keys of all metrics, in report order.
pub open spec fn all_metric_keys() -> Seq<Seq<char>> {
    seq![
        "timestamp"@, "num_ue"@, "imsi"@, "rnti"@, "slicing_enabled"@, "slice_id"@,
        "slice_prb"@, "power_multiplier"@, "scheduling_policies"@, "dl_mcs"@, "dl_samples"@,
        "dl_bytes"@, "dl_thr_mbps"@, "dl_pkts"@, "dl_errors"@, "dl_cqi"@, "ul_mcs"@,
        "ul_samples"@, "ul_bytes"@, "ul_thr_mbps"@, "ul_pkts"@, "ul_errors"@, "ul_rssi"@,
        "ul_sinr"@, "phr"@, "sum_requested_prbs"@, "sum_granted_prbs"@, "dl_pmi"@, "dl_ri"@,
        "ul_n"@, "ul_turbo_iterations"@,
    ]
}

/// The displayed values of all metrics, in report order.
pub open spec fn all_metric_values(m: BsMetrics) -> Seq<Seq<char>> {
    seq![
        decimal(m.timestamp as nat), decimal(m.num_ues as nat), decimal(m.imsi as nat),
        decimal(m.rnti as nat), decimal(m.slicing_enabled as nat), decimal(m.slice_id as nat),
        decimal(m.slice_prb as nat), m.power_multiplier@, decimal(m.scheduling_policy as nat),
        m.dl_mcs@, signed_decimal(m.dl_n_samples as int), signed_decimal(m.dl_buffer_bytes as int),
        m.tx_brate_downlink_mbps@, signed_decimal(m.tx_pkts_downlink as int),
        m.tx_errors_downlink_perc@, m.dl_cqi@, m.ul_mcs@, signed_decimal(m.ul_n_samples as int),
        signed_decimal(m.ul_buffer_bytes as int), m.rx_brate_uplink_mbps@,
        signed_decimal(m.rx_pkts_uplink as int), m.rx_errors_uplink_perc@, m.ul_rssi@,
        m.ul_sinr@, m.phr@, signed_decimal(m.sum_requested_prbs as int),
        signed_decimal(m.sum_granted_prbs as int), m.dl_pmi@, m.dl_ri@, m.ul_n@,
        m.ul_turbo_iters@,
    ]
}

/// The report keys of the agent's preset.
pub open spec fn agent_keys() -> Seq<Seq<char>> {
    seq![
        "timestamp"@, "slice_id"@, "dl_bytes"@, "dl_thr_mbps"@, "ratio_granted_req_prb"@,
        "slice_prb"@, "dl_pkts"@,
    ]
}

/// The values of the agent's preset, under `agent_keys`.
pub open spec fn agent_json_values(m: BsMetrics, ratio: Seq<char>) -> Seq<Seq<char>> {
    seq![
        decimal(m.timestamp as nat), decimal(m.slice_id as nat),
        signed_decimal(m.dl_buffer_bytes as int), m.tx_brate_downlink_mbps@, ratio,
        decimal(m.slice_prb as nat), signed_decimal(m.tx_pkts_downlink as int),
    ]
}

/// The values of the agent's preset in CSV, in the order of the agent's parser; the
/// timestamp is left out.
pub open spec fn agent_csv_values(m: BsMetrics, ratio: Seq<char>) -> Seq<Seq<char>> {
    seq![
        decimal(m.slice_id as nat), signed_decimal(m.dl_buffer_bytes as int),
        m.tx_brate_downlink_mbps@, ratio, decimal(m.slice_prb as nat),
        signed_decimal(m.tx_pkts_downlink as int),
    ]
}

/// One JSON member: the quoted key, a colon, and the value.
pub open spec fn json_member(key: Seq<char>, value: Seq<char>) -> Seq<char> {
    "\""@ + key + "\":"@ + value
}

/// A JSON object of the keys and values, without spaces.
pub open spec fn json_object(keys: Seq<Seq<char>>, values: Seq<Seq<char>>) -> Seq<char> {
    "{"@ + join(Seq::new(keys.len(), |i: int| json_member(keys[i], values[i])), ","@) + "}"@
}

/// The report of a metrics line.
///
/// Nothing is reported for a line with fewer than `CSV_METRICS_NUM` non-empty fields,
/// for a stale line, for a line that fails the PRB condition, or for an unknown preset.
/// Preset 0 reports every metric; preset 1 reports the agent's metrics, with `ratio` as
/// the ratio of granted to requested PRBs.
pub open spec fn report(
    m: BsMetrics,
    read_items: int,
    curr_ts: int,
    json_format: bool,
    metrics_preset: int,
    ratio: Seq<char>,
) -> Seq<char> {
    if read_items < CSV_METRICS_NUM as int {
        Seq::<char>::empty()
    } else if is_stale(curr_ts, m.timestamp as int) && !TIMESTAMP_DEBUG {
        Seq::<char>::empty()
    } else if !prbs_reported(m) {
        Seq::<char>::empty()
    } else if metrics_preset == 0 {
        if json_format {
            json_object(all_metric_keys(), all_metric_values(m))
        } else {
            join(all_metric_values(m), ","@)
        }
    } else if metrics_preset == 1 {
        if json_format {
            json_object(agent_keys(), agent_json_values(m, ratio))
        } else {
            join(agent_csv_values(m, ratio), ","@)
        }
    } else {
        Seq::<char>::empty()
    }
}

/// None of the metrics displayed from text holds a comma.
pub open spec fn displays_without_comma(m: BsMetrics) -> bool {
    &&& !m.power_multiplier@.contains(',')
    &&& !m.dl_mcs@.contains(',')
    &&& !m.tx_brate_downlink_mbps@.contains(',')
    &&& !m.tx_errors_downlink_perc@.contains(',')
    &&& !m.dl_cqi@.contains(',')
    &&& !m.ul_mcs@.contains(',')
    &&& !m.rx_brate_uplink_mbps@.contains(',')
    &&& !m.rx_errors_uplink_perc@.contains(',')
    &&& !m.ul_rssi@.contains(',')
    &&& !m.ul_sinr@.contains(',')
    &&& !m.phr@.contains(',')
    &&& !m.dl_pmi@.contains(',')
    &&& !m.dl_ri@.contains(',')
    &&& !m.ul_n@.contains(',')
    &&& !m.ul_turbo_iters@.contains(',')
}

/// A line is reported (CSV or JSON, preset 0 or 1) when it has at least
/// `CSV_METRICS_NUM` non-empty fields, is at most `DELTA_TS_S` seconds old, and PRBs were
/// requested (whatever was granted) or, with none requested, some were granted.
pub proof fn law_report_sent(
    m: BsMetrics,
    read_items: int,
    curr_ts: int,
    json_format: bool,
    metrics_preset: int,
    ratio: Seq<char>,
)
    requires
        read_items >= CSV_METRICS_NUM,
        m.timestamp <= curr_ts <= i128::MAX,
        curr_ts - m.timestamp <= DELTA_TS_S as int * 1000,
        m.sum_requested_prbs > 0 || (m.sum_requested_prbs == 0 && m.sum_granted_prbs > 0),
        metrics_preset == 0 || metrics_preset == 1,
    ensures
        report(m, read_items, curr_ts, json_format, metrics_preset, ratio).len() > 0,
{
    reveal_strlit("{");
    lemma_decimal(m.timestamp as nat);
    lemma_decimal(m.slice_id as nat);
    if !json_format {
        if metrics_preset == 0 {
            lemma_join_first(all_metric_values(m), ","@);
        } else {
            lemma_join_first(agent_csv_values(m, ratio), ","@);
        }
    }
}

/// A line is not reported when it has fewer than `CSV_METRICS_NUM` non-empty fields, when
/// it is more than `DELTA_TS_S` seconds old, when it fails the PRB condition (fewer than
/// zero PRBs requested, or none requested and none granted), or for an unknown preset.
pub proof fn law_report_dropped(
    m: BsMetrics,
    read_items: int,
    curr_ts: int,
    json_format: bool,
    metrics_preset: int,
    ratio: Seq<char>,
)
    ensures
        read_items < CSV_METRICS_NUM ==> report(m, read_items, curr_ts, json_format, metrics_preset, ratio)
            == Seq::<char>::empty(),
        (0 <= curr_ts <= i128::MAX && m.timestamp <= i128::MAX && curr_ts - m.timestamp > DELTA_TS_S
            as int * 1000) ==> report(m, read_items, curr_ts, json_format, metrics_preset, ratio)
            == Seq::<char>::empty(),
        (m.sum_requested_prbs < 0 || (m.sum_requested_prbs == 0 && m.sum_granted_prbs <= 0))
            ==> report(m, read_items, curr_ts, json_format, metrics_preset, ratio)
            == Seq::<char>::empty(),
        (metrics_preset != 0 && metrics_preset != 1) ==> report(
            m,
            read_items,
            curr_ts,
            json_format,
            metrics_preset,
            ratio,
        ) == Seq::<char>::empty(),
{
}

/// A CSV report that is sent splits at its commas into exactly the reported values, in
/// order, when no displayed value holds a comma: this is how the agent's parser reads it.
pub proof fn law_csv_report_fields(
    m: BsMetrics,
    read_items: int,
    curr_ts: int,
    metrics_preset: int,
    ratio: Seq<char>,
)
    requires
        read_items >= CSV_METRICS_NUM,
        !is_stale(curr_ts, m.timestamp as int),
        m.sum_requested_prbs > 0 || (m.sum_requested_prbs == 0 && m.sum_granted_prbs > 0),
        metrics_preset == 0 || metrics_preset == 1,
        displays_without_comma(m),
        !ratio.contains(','),
    ensures
        split(report(m, read_items, curr_ts, false, metrics_preset, ratio), ',') == (if metrics_preset
            == 0 {
            all_metric_values(m)
        } else {
            agent_csv_values(m, ratio)
        }),
{
    lemma_decimal_without(m.timestamp as nat, ',');
    lemma_decimal_without(m.num_ues as nat, ',');
    lemma_decimal_without(m.imsi as nat, ',');
    lemma_decimal_without(m.rnti as nat, ',');
    lemma_decimal_without(m.slicing_enabled as nat, ',');
    lemma_decimal_without(m.slice_id as nat, ',');
    lemma_decimal_without(m.slice_prb as nat, ',');
    lemma_decimal_without(m.scheduling_policy as nat, ',');
    lemma_signed_decimal_without(m.dl_n_samples as int, ',');
    lemma_signed_decimal_without(m.dl_buffer_bytes as int, ',');
    lemma_signed_decimal_without(m.tx_pkts_downlink as int, ',');
    lemma_signed_decimal_without(m.ul_n_samples as int, ',');
    lemma_signed_decimal_without(m.ul_buffer_bytes as int, ',');
    lemma_signed_decimal_without(m.rx_pkts_uplink as int, ',');
    lemma_signed_decimal_without(m.sum_requested_prbs as int, ',');
    lemma_signed_decimal_without(m.sum_granted_prbs as int, ',');
    reveal_strlit(",");
    assert(","@ =~= seq![',']);
    if metrics_preset == 0 {
        let v = all_metric_values(m);
        assert forall|i: int| 0 <= i < v.len() implies !(#[trigger] v[i]).contains(',') by {}
        law_split_join(v, ',');
    } else {
        let v = agent_csv_values(m, ratio);
        assert forall|i: int| 0 <= i < v.len() implies !(#[trigger] v[i]).contains(',') by {}
        law_split_join(v, ',');
    }
}

fn all_keys_exec() -> (v: Vec<String>)
    ensures
        views(v@) == all_metric_keys(),
{
    let mut v: Vec<String> = Vec::new();
    v.push(String::from_str("timestamp"));
    v.push(String::from_str("num_ue"));
    v.push(String::from_str("imsi"));
    v.push(String::from_str("rnti"));
    v.push(String::from_str("slicing_enabled"));
    v.push(String::from_str("slice_id"));
    v.push(String::from_str("slice_prb"));
    v.push(String::from_str("power_multiplier"));
    v.push(String::from_str("scheduling_policies"));
    v.push(String::from_str("dl_mcs"));
    v.push(String::from_str("dl_samples"));
    v.push(String::from_str("dl_bytes"));
    v.push(String::from_str("dl_thr_mbps"));
    v.push(String::from_str("dl_pkts"));
    v.push(String::from_str("dl_errors"));
    v.push(String::from_str("dl_cqi"));
    v.push(String::from_str("ul_mcs"));
    v.push(String::from_str("ul_samples"));
    v.push(String::from_str("ul_bytes"));
    v.push(String::from_str("ul_thr_mbps"));
    v.push(String::from_str("ul_pkts"));
    v.push(String::from_str("ul_errors"));
    v.push(String::from_str("ul_rssi"));
    v.push(String::from_str("ul_sinr"));
    v.push(String::from_str("phr"));
    v.push(String::from_str("sum_requested_prbs"));
    v.push(String::from_str("sum_granted_prbs"));
    v.push(String::from_str("dl_pmi"));
    v.push(String::from_str("dl_ri"));
    v.push(String::from_str("ul_n"));
    v.push(String::from_str("ul_turbo_iterations"));
    assert(views(v@) =~= all_metric_keys());
    v
}

fn all_values_exec(m: &BsMetrics) -> (v: Vec<String>)
    ensures
        views(v@) == all_metric_values(*m),
{
    let mut v: Vec<String> = Vec::new();
    v.push(decimal_text(m.timestamp));
    v.push(decimal_text(m.num_ues as u128));
    v.push(decimal_text(m.imsi as u128));
    v.push(decimal_text(m.rnti as u128));
    v.push(decimal_text(m.slicing_enabled as u128));
    v.push(decimal_text(m.slice_id as u128));
    v.push(decimal_text(m.slice_prb as u128));
    v.push(m.power_multiplier.clone());
    v.push(decimal_text(m.scheduling_policy as u128));
    v.push(m.dl_mcs.clone());
    v.push(signed_decimal_text(m.dl_n_samples as i128));
    v.push(signed_decimal_text(m.dl_buffer_bytes as i128));
    v.push(m.tx_brate_downlink_mbps.clone());
    v.push(signed_decimal_text(m.tx_pkts_downlink as i128));
    v.push(m.tx_errors_downlink_perc.clone());
    v.push(m.dl_cqi.clone());
    v.push(m.ul_mcs.clone());
    v.push(signed_decimal_text(m.ul_n_samples as i128));
    v.push(signed_decimal_text(m.ul_buffer_bytes as i128));
    v.push(m.rx_brate_uplink_mbps.clone());
    v.push(signed_decimal_text(m.rx_pkts_uplink as i128));
    v.push(m.rx_errors_uplink_perc.clone());
    v.push(m.ul_rssi.clone());
    v.push(m.ul_sinr.clone());
    v.push(m.phr.clone());
    v.push(signed_decimal_text(m.sum_requested_prbs as i128));
    v.push(signed_decimal_text(m.sum_granted_prbs as i128));
    v.push(m.dl_pmi.clone());
    v.push(m.dl_ri.clone());
    v.push(m.ul_n.clone());
    v.push(m.ul_turbo_iters.clone());
    assert(views(v@) =~= all_metric_values(*m));
    v
}

fn agent_keys_exec() -> (v: Vec<String>)
    ensures
        views(v@) == agent_keys(),
{
    let mut v: Vec<String> = Vec::new();
    v.push(String::from_str("timestamp"));
    v.push(String::from_str("slice_id"));
    v.push(String::from_str("dl_bytes"));
    v.push(String::from_str("dl_thr_mbps"));
    v.push(String::from_str("ratio_granted_req_prb"));
    v.push(String::from_str("slice_prb"));
    v.push(String::from_str("dl_pkts"));
    assert(views(v@) =~= agent_keys());
    v
}

fn agent_values_exec(m: &BsMetrics, ratio: &str, with_timestamp: bool) -> (v: Vec<String>)
    ensures
        views(v@) == (if with_timestamp {
            agent_json_values(*m, ratio@)
        } else {
            agent_csv_values(*m, ratio@)
        }),
{
    let mut v: Vec<String> = Vec::new();
    if with_timestamp {
        v.push(decimal_text(m.timestamp));
    }
    v.push(decimal_text(m.slice_id as u128));
    v.push(signed_decimal_text(m.dl_buffer_bytes as i128));
    v.push(m.tx_brate_downlink_mbps.clone());
    v.push(String::from_str(ratio));
    v.push(decimal_text(m.slice_prb as u128));
    v.push(signed_decimal_text(m.tx_pkts_downlink as i128));
    if with_timestamp {
        assert(views(v@) =~= agent_json_values(*m, ratio@));
    } else {
        assert(views(v@) =~= agent_csv_values(*m, ratio@));
    }
    v
}

/// The JSON object of the keys and values.
fn json_object_text(keys: &Vec<String>, values: &Vec<String>) -> (out: String)
    requires
        keys.len() == values.len(),
    ensures
        out@ == json_object(views(keys@), views(values@)),
{
    let ghost k = views(keys@);
    let ghost vs = views(values@);
    let mut members: Vec<String> = Vec::new();
    let mut i: usize = 0;
    while i < keys.len()
        invariant
            keys.len() == values.len(),
            k == views(keys@),
            vs == views(values@),
            i <= keys.len(),
            views(members@) == Seq::new(i as nat, |j: int| json_member(k[j], vs[j])),
        decreases keys.len() - i,
    {
        let mut member = String::from_str("\"");
        member.append(keys[i].as_str());
        member.append("\":");
        member.append(values[i].as_str());
        assert(keys@[i as int]@ == k[i as int]);
        assert(values@[i as int]@ == vs[i as int]);
        assert(member@ =~= json_member(k[i as int], vs[i as int]));
        let ghost before = views(members@);
        members.push(member);
        assert(views(members@) == before.push(member@));
        i = i + 1;
        assert(views(members@) =~= Seq::new(i as nat, |j: int| json_member(k[j], vs[j])));
    }
    let mut out = String::from_str("{");
    let body = join_with(&members, ",");
    out.append(body.as_str());
    out.append("}");
    assert(views(members@) =~= Seq::new(k.len(), |j: int| json_member(k[j], vs[j])));
    out
}

/// The report of a metrics line that has been read into `bs_metrics`, with
/// `read_items` non-empty fields, at time `curr_ts` (milliseconds since the epoch).
///
/// `ratio` is the displayed ratio of granted to requested PRBs, capped at 1 (1 when no
/// PRBs were requested). The age test compares milliseconds: a line is stale when its
/// age exceeds 2000, which is where the age in seconds, taken as a 32-bit float, exceeds
/// `DELTA_TS_S`. Computing the age must not overflow an `i128`.
pub fn read_metrics_interactive(
    bs_metrics: &BsMetrics,
    read_items: i32,
    curr_ts: u128,
    json_format: bool,
    metrics_preset: u32,
    ratio: &str,
) -> (selected_metrics: String)
    requires
        read_items >= CSV_METRICS_NUM ==> i128::MIN <= age_ms(
            curr_ts as int,
            bs_metrics.timestamp as int,
        ) <= i128::MAX,
    ensures
        selected_metrics@ == report(
            *bs_metrics,
            read_items as int,
            curr_ts as int,
            json_format,
            metrics_preset as int,
            ratio@,
        ),
{
    if read_items < CSV_METRICS_NUM as i32 {
        return String::new();
    }
    let a = wrapped_i128(curr_ts);
    let b = wrapped_i128(bs_metrics.timestamp);
    let stale = a - b > DELTA_TS_S as i128 * 1000;
    if stale && !TIMESTAMP_DEBUG {
        return String::new();
    }
    let requested = bs_metrics.sum_requested_prbs;
    let granted = bs_metrics.sum_granted_prbs;
    if !(requested > 0 || (requested == 0 && granted > 0)) {
        return String::new();
    }
    if metrics_preset == 0 {
        let values = all_values_exec(bs_metrics);
        if json_format {
            let keys = all_keys_exec();
            assert(views(keys@).len() == views(values@).len());
            json_object_text(&keys, &values)
        } else {
            join_with(&values, ",")
        }
    } else if metrics_preset == 1 {
        if json_format {
            let keys = agent_keys_exec();
            let values = agent_values_exec(bs_metrics, ratio, true);
            assert(views(keys@).len() == views(values@).len());
            json_object_text(&keys, &values)
        } else {
            let values = agent_values_exec(bs_metrics, ratio, false);
            join_with(&values, ",")
        }
    } else {
        String::new()
    }
}

} // verus!
