use faddnsd::addr::is_ip_restricted;
use faddnsd::record::{vec_to_hashset_opt, Record};
use faddnsd::sets::StrSet;
use faddnsd::time::{dt_format, Timestamp};
use faddnsd::zone::generate_bind_lines_for_record;

fn ts(year: u64, month: u64, day: u64, hour: u64, minute: u64, second: u64) -> Timestamp {
    Timestamp { year, month, day, hour, minute, second }
}

fn strset(items: &[&str]) -> StrSet {
    let mut s = StrSet::new();
    for it in items {
        s.insert_item(it.to_string());
    }
    s
}

fn record(host: &str, inet: &[&str], inet6: &[&str]) -> Record {
    Record {
        hostname: host.to_string(),
        version: None,
        remote_addr: "1.2.3.4".to_string(),
        ether: None,
        inet: if inet.is_empty() { None } else { Some(strset(inet)) },
        inet6: if inet6.is_empty() { None } else { Some(strset(inet6)) },
    }
}

#[test]
fn test_is_ip_restricted() {
    // Public IPv4
    assert!(!is_ip_restricted("8.8.8.8"));
    assert!(!is_ip_restricted("46.36.37.83"));

    // Private IPv4
    assert!(is_ip_restricted("192.168.1.1"));
    assert!(is_ip_restricted("10.0.0.1"));
    assert!(is_ip_restricted("172.16.0.1"));

    // Loopback
    assert!(is_ip_restricted("127.0.0.1"));
    assert!(is_ip_restricted("::1"));

    // Public IPv6
    assert!(!is_ip_restricted("2002:2e24:2741:9900::1"));
    assert!(!is_ip_restricted("2a02:25b0:aaaa:5555::1111"));

    // Link-local IPv6
    assert!(is_ip_restricted("fe80::1"));

    // ULA IPv6
    assert!(is_ip_restricted("fc00::1"));
    assert!(is_ip_restricted("fd00::1"));

    // Invalid IP
    assert!(is_ip_restricted("not.an.ip"));
    assert!(is_ip_restricted(""));
}

#[test]
fn test_is_ip_restricted_edges() {
    // multicast, both families
    assert!(is_ip_restricted("224.0.0.1"));
    assert!(is_ip_restricted("239.255.255.255"));
    assert!(is_ip_restricted("ff02::1"));
    // IPv4 link-local and the private /12 boundary
    assert!(is_ip_restricted("169.254.10.20"));
    assert!(is_ip_restricted("172.31.255.255"));
    assert!(!is_ip_restricted("172.32.0.1"));
    // deprecated site-local
    assert!(is_ip_restricted("fec0::1"));
    // malformed shapes are restricted
    assert!(is_ip_restricted("256.1.1.1"));
    assert!(is_ip_restricted("1.2.3"));
    assert!(is_ip_restricted("1.2.3.4.5"));
    assert!(is_ip_restricted("01.2.3.4"));
    assert!(is_ip_restricted("8.8.8.8 "));
    assert!(is_ip_restricted("1:2:3:4:5:6:7:8:9"));
    assert!(is_ip_restricted("1::2::3"));
    assert!(is_ip_restricted(":::"));
    // well-formed but unusual: neither all-zero address falls in a
    // restricted range
    assert!(!is_ip_restricted("0.0.0.0"));
    assert!(!is_ip_restricted("::"));
}

#[test]
fn test_ipv6_embedded_ipv4() {
    // embedded dotted quad at the tail
    assert!(!is_ip_restricted("::ffff:8.8.8.8"));
    assert!(!is_ip_restricted("64:ff9b::8.8.8.8"));
    assert!(is_ip_restricted("fe80::1.2.3.4"));
}

#[test]
fn test_generate_bind_lines_for_record() {
    let dt = ts(2025, 5, 30, 10, 0, 0);

    let mut inet_set = Vec::new();
    inet_set.push("46.36.37.83".to_string());
    inet_set.push("192.168.1.1".to_string()); // This should be filtered out

    let mut inet6_set = Vec::new();
    inet6_set.push("2a02:25b0:aaaa:5555::1111".to_string());
    inet6_set.push("fe80::1".to_string()); // This should be filtered out

    let record = Record {
        hostname: "testhost".to_string(),
        version: Some("1.0".to_string()),
        remote_addr: "1.2.3.4".to_string(),
        ether: None,
        inet: vec_to_hashset_opt(inet_set),
        inet6: vec_to_hashset_opt(inet6_set),
    };

    let result = generate_bind_lines_for_record(&record, &dt);

    // Should contain the public IPv4
    assert!(result.contains("testhost\t10M\tA\t46.36.37.83 ; @faddns"));
    // Should contain the public IPv6
    assert!(result.contains("testhost\t10M\tAAAA\t2a02:25b0:aaaa:5555::1111 ; @faddns"));
    // Should NOT contain private IPs
    assert!(!result.contains("192.168.1.1"));
    assert!(!result.contains("fe80::1"));
}

#[test]
fn test_generate_bind_lines_exact() {
    let dt = ts(2025, 5, 30, 10, 0, 0);
    let r = record("Box", &["46.36.37.83"], &[]);
    let out = generate_bind_lines_for_record(&r, &dt);
    assert_eq!(out, "box\t10M\tA\t46.36.37.83 ; @faddns 2025-05-30 10:00:00\n");
    // no publishable address: empty output
    let r2 = record("box", &["192.168.1.1"], &["fe80::1"]);
    assert_eq!(generate_bind_lines_for_record(&r2, &dt), "");
}

#[test]
fn test_dt_format() {
    assert_eq!(dt_format(&ts(2025, 5, 30, 10, 0, 0)), "2025-05-30 10:00:00");
    assert_eq!(dt_format(&ts(987, 12, 1, 23, 59, 9)), "0987-12-01 23:59:09");
}

#[test]
fn test_vec_to_hashset_opt() {
    assert!(vec_to_hashset_opt(Vec::new()).is_none());
    let s = vec_to_hashset_opt(vec![
        "a".to_string(),
        "b".to_string(),
        "a".to_string(),
    ])
    .unwrap();
    assert_eq!(s.len(), 2);
    assert!(s.contains_item("a"));
    assert!(s.contains_item("b"));
    assert!(!s.contains_item("c"));
}

#[test]
fn test_record_same_ignores_set_order() {
    let a = record("h", &["1.1.1.1", "2.2.2.2"], &[]);
    let b = record("h", &["2.2.2.2", "1.1.1.1"], &[]);
    assert!(a.same_as(&b));
    let c = record("h", &["1.1.1.1"], &[]);
    assert!(!a.same_as(&c));
    let mut d = record("h", &["1.1.1.1", "2.2.2.2"], &[]);
    d.version = Some("x".to_string());
    assert!(!a.same_as(&d));
}

use faddnsd::store::RecordStore;

#[test]
fn test_ingest_twice_same_record() {
    let mut store = RecordStore::new();
    let t1 = ts(2025, 1, 1, 0, 0, 0);
    let t2 = ts(2025, 1, 1, 0, 5, 0);
    let changed1 = store.ingest(record("Host", &["8.8.8.8", "9.9.9.9"], &[]), t1, 100);
    assert!(changed1);
    assert_eq!(store.pending.len(), 1);
    assert!(store.pending.contains_item("host"));
    // identical announcement, sets in another order: no change, but the
    // timestamps are refreshed
    let changed2 = store.ingest(record("HOST", &["9.9.9.9", "8.8.8.8"], &[]), t2, 200);
    assert!(!changed2);
    assert_eq!(store.pending.len(), 1);
    let rows = store.snapshot_for_display();
    assert_eq!(rows.len(), 1);
    assert_eq!(rows[0].t, 200);
    assert_eq!(rows[0].datetime, "2025-01-01 00:05:00");
    // a different announcement is a change
    let changed3 = store.ingest(record("host", &["7.7.7.7"], &[]), t2, 300);
    assert!(changed3);
}

#[test]
fn test_mark_forced_and_finish_cycle() {
    let mut store = RecordStore::new();
    let t = ts(2025, 1, 1, 0, 0, 0);
    store.ingest(record("a", &["8.8.8.8"], &[]), t, 1);
    store.ingest(record("b", &["9.9.9.9"], &[]), t, 1);
    store.mark_forced("B");
    assert!(store.forced.contains_item("b"));
    let processed = strset(&["a", "b"]);
    let forced_snapshot = strset(&["b"]);
    store.finish_cycle(&processed, &forced_snapshot);
    assert!(store.pending.is_empty());
    assert!(!store.forced.contains_item("b"));
}

#[test]
fn test_snapshot_for_display_sorted() {
    let mut store = RecordStore::new();
    let t = ts(2025, 1, 1, 0, 0, 0);
    store.ingest(record("zeta", &["8.8.8.8"], &[]), t, 1);
    store.ingest(record("alpha", &["8.8.4.4"], &[]), t, 2);
    store.ingest(record("mid", &[], &[]), t, 3);
    let rows = store.snapshot_for_display();
    assert_eq!(rows.len(), 3);
    assert_eq!(rows[0].record.hostname, "alpha");
    assert_eq!(rows[1].record.hostname, "mid");
    assert_eq!(rows[2].record.hostname, "zeta");
}

use faddnsd::zone::update_zone_file_content;

fn lines(v: &[&str]) -> Vec<String> {
    v.iter().map(|s| s.to_string()).collect()
}

fn store_with(entries: &[(&str, &[&str], &[&str])]) -> RecordStore {
    let mut store = RecordStore::new();
    let t = ts(2025, 5, 30, 10, 0, 0);
    for (h, v4, v6) in entries {
        store.ingest(record(h, v4, v6), t, 1);
    }
    store
}

#[test]
fn test_update_zone_file_content_rewrites_pending_host() {
    let store = store_with(&[("web", &["46.36.37.83"], &[])]);
    let (hosts, pending, _forced, _un) = store.snapshot();
    let zone = lines(&[
        "$TTL 3600",
        "web\t10M\tA\t1.1.1.1 ; @faddns 2020-01-01 00:00:00",
        "mail IN A 5.5.5.5",
    ]);
    let (out, residual) = update_zone_file_content(&zone, &hosts, pending, &StrSet::new());
    assert_eq!(out.len(), 3);
    assert_eq!(out[0], "$TTL 3600");
    assert_eq!(out[1], "web\t10M\tA\t46.36.37.83 ; @faddns 2025-05-30 10:00:00");
    assert_eq!(out[2], "mail IN A 5.5.5.5");
    assert!(residual.is_empty());
}

#[test]
fn test_update_zone_file_content_collapses_duplicates() {
    let store = store_with(&[("web", &["46.36.37.83"], &[])]);
    let (hosts, pending, _forced, _un) = store.snapshot();
    let zone = lines(&[
        "web\t10M\tA\t1.1.1.1 ; @faddns 2020-01-01 00:00:00",
        "web\t10M\tA\t2.2.2.2 ; @faddns 2020-01-01 00:00:00",
    ]);
    let (out, residual) = update_zone_file_content(&zone, &hosts, pending, &StrSet::new());
    assert_eq!(out.len(), 1);
    assert_eq!(out[0], "web\t10M\tA\t46.36.37.83 ; @faddns 2025-05-30 10:00:00");
    assert!(residual.is_empty());
}

#[test]
fn test_update_zone_file_content_keeps_line_when_no_publishable() {
    // an existing host whose new record has no publishable address keeps its
    // old line verbatim and is not reported unreconciled
    let store = store_with(&[("web", &["192.168.1.7"], &[])]);
    let (hosts, pending, _forced, _un) = store.snapshot();
    let zone = lines(&["web\t10M\tA\t1.1.1.1 ; @faddns 2020-01-01 00:00:00"]);
    let (out, residual) = update_zone_file_content(&zone, &hosts, pending, &StrSet::new());
    assert_eq!(out.len(), 1);
    assert_eq!(out[0], "web\t10M\tA\t1.1.1.1 ; @faddns 2020-01-01 00:00:00");
    assert!(residual.is_empty());
}

#[test]
fn test_update_zone_file_content_new_host_authorization() {
    // a never-seen host is not written without authorization...
    let store = store_with(&[("fresh", &["46.36.37.83"], &[])]);
    let (hosts, pending, _forced, _un) = store.snapshot();
    let zone = lines(&["$TTL 3600"]);
    let (out, residual) = update_zone_file_content(&zone, &hosts, pending, &StrSet::new());
    assert_eq!(out.len(), 1);
    assert!(residual.contains_item("fresh"));
    // ...and is appended once forced
    let (hosts2, pending2, _forced2, _un2) = store.snapshot();
    let forced = strset(&["fresh"]);
    let (out2, residual2) = update_zone_file_content(&zone, &hosts2, pending2, &forced);
    assert_eq!(out2.len(), 2);
    assert_eq!(out2[1], "fresh\t10M\tA\t46.36.37.83 ; @faddns 2025-05-30 10:00:00");
    assert!(!residual2.contains_item("fresh"));
}

#[test]
fn test_update_zone_file_content_idempotent() {
    let store = store_with(&[
        ("web", &["46.36.37.83"], &["2a02:25b0:aaaa:5555::1111"]),
        ("gone", &["192.168.0.9"], &[]),
        ("fresh", &["9.9.9.9"], &[]),
    ]);
    let (hosts, pending, _forced, _un) = store.snapshot();
    let forced = strset(&["fresh"]);
    let zone = lines(&[
        "$TTL 3600",
        "web\t10M\tA\t1.1.1.1 ; @faddns 2020-01-01 00:00:00",
        "other IN A 4.4.4.4",
    ]);
    let (out1, residual1) = update_zone_file_content(&zone, &hosts, pending, &forced);
    // second run on the first run's output, pending := residue
    let (hosts2, _p, _f, _u) = store.snapshot();
    let (out2, residual2) = update_zone_file_content(&out1, &hosts2, residual1, &forced);
    assert_eq!(out1, out2);
    let (hosts3, _p, _f, _u) = store.snapshot();
    let (out3, residual3) = update_zone_file_content(&out2, &hosts3, residual2, &forced);
    assert_eq!(out2, out3);
    // the unauthorized host with no publishable address stays unreconciled
    assert_eq!(residual3.len(), 1);
    assert!(residual3.contains_item("gone"));
}

use faddnsd::serial::{bump_serial_lines, SerialError};

#[test]
fn test_bump_serial_lines() {
    let input = lines(&[
        "$TTL 3600",
        "@ IN SOA ns admin ( 5 ; serial 42 refresh )",
        "other 7",
    ]);
    let out = bump_serial_lines(&input).unwrap();
    assert_eq!(out.len(), 3);
    assert_eq!(out[0], "$TTL 3600");
    assert_eq!(out[1], "@ IN SOA ns admin ( 6 ; serial 42 refresh )");
    assert_eq!(out[2], "other 7");
}

#[test]
fn test_bump_serial_simple_line() {
    let input = lines(&["... serial 42 ..."]);
    let out = bump_serial_lines(&input).unwrap();
    assert_eq!(out[0], "... serial 43 ...");
}

#[test]
fn test_bump_serial_case_and_first_only() {
    let input = lines(&[
        "; Serial 9",
        "; serial 1",
    ]);
    let out = bump_serial_lines(&input).unwrap();
    assert_eq!(out[0], "; Serial 10");
    assert_eq!(out[1], "; serial 1");
}

#[test]
fn test_bump_serial_not_found() {
    let input = lines(&["$TTL 3600", "no counter here"]);
    let e = bump_serial_lines(&input).unwrap_err();
    assert_eq!(e, SerialError::NotFound);
    // a serial line without digits does not count
    let input2 = lines(&["; serial pending"]);
    assert!(bump_serial_lines(&input2).is_err());
}

use faddnsd::query::parse_query_params;

#[test]
fn test_parse_query_params() {
    let p = parse_query_params(
        "host=MyBox&version=1.0&inet=1.2.3.4&inet=5.6.7.8&inet6=fe80%3A%3A1&junk&ether=aa%3Abb",
    );
    assert_eq!(p.host.as_deref(), Some("MyBox"));
    assert_eq!(p.version.as_deref(), Some("1.0"));
    assert_eq!(p.inet, vec!["1.2.3.4".to_string(), "5.6.7.8".to_string()]);
    assert_eq!(p.inet6, vec!["fe80::1".to_string()]);
    assert_eq!(p.ether, vec!["aa:bb".to_string()]);
    // first occurrence wins for single-valued keys
    let q = parse_query_params("host=a&host=b");
    assert_eq!(q.host.as_deref(), Some("a"));
    let r = parse_query_params("");
    assert!(r.host.is_none());
    assert!(r.version.is_none());
    assert!(r.inet.is_empty());
}

use faddnsd::cycle::{CycleAction, CycleError, CycleState, UpdateCycle};

#[test]
fn test_cycle_short_circuit_empty_pending() {
    let store = RecordStore::new();
    let (hosts, pending, forced, unrec) = store.snapshot();
    let (cycle, action) = UpdateCycle::start(hosts, pending, forced, &unrec, true, true, true);
    assert!(matches!(action, CycleAction::Done));
    assert!(matches!(cycle.state, CycleState::Idle));
    assert!(cycle.error.is_none());
}

#[test]
fn test_cycle_short_circuit_only_unreconciled() {
    let mut store = store_with(&[("a", &["8.8.8.8"], &[])]);
    let un = strset(&["a"]);
    store.set_unreconciled(un);
    let (hosts, pending, forced, unrec) = store.snapshot();
    let (cycle, action) = UpdateCycle::start(hosts, pending, forced, &unrec, true, true, true);
    assert!(matches!(action, CycleAction::Done));
    assert!(matches!(cycle.state, CycleState::Idle));
}

#[test]
fn test_cycle_full_walk() {
    let mut store = store_with(&[("web", &["46.36.37.83"], &[])]);
    let (hosts, pending, forced, unrec) = store.snapshot();
    let (mut cycle, action) = UpdateCycle::start(hosts, pending, forced, &unrec, true, true, true);
    assert!(matches!(action, CycleAction::ReadZone));
    let zone = lines(&["web\t10M\tA\t1.1.1.1 ; @faddns 2020-01-01 00:00:00"]);
    let action = cycle.on_zone_read(zone);
    let (new_zone, residue) = match action {
        CycleAction::WriteScratch(ls, u) => (ls, u),
        _ => panic!("expected WriteScratch"),
    };
    assert_eq!(new_zone.len(), 1);
    assert!(new_zone[0].starts_with("web\t10M\tA\t46.36.37.83"));
    assert!(residue.is_empty());
    store.set_unreconciled(residue);
    assert!(matches!(cycle.on_scratch_written(), CycleAction::Validate));
    assert!(matches!(
        cycle.on_validator_output("zone OK, loaded"),
        CycleAction::StatScratch
    ));
    assert!(matches!(cycle.on_zone_size(1000), CycleAction::PublishZone));
    assert!(matches!(cycle.on_zone_published(), CycleAction::ReadSerial));
    let serial_in = lines(&["@ soa ( 41 ; serial )"]);
    let action = cycle.on_serial_read(serial_in);
    let bumped = match action {
        CycleAction::WriteSerialScratch(ls) => ls,
        _ => panic!("expected WriteSerialScratch"),
    };
    assert_eq!(bumped[0], "@ soa ( 42 ; serial )");
    assert!(matches!(cycle.on_serial_scratch_written(), CycleAction::StatScratch));
    assert!(matches!(cycle.on_serial_size(999), CycleAction::PublishSerial));
    let action = cycle.on_serial_published();
    assert!(matches!(action, CycleAction::Sign));
    let action = cycle.on_sign_result(true);
    let processed = match action {
        CycleAction::Finish(p) => p,
        _ => panic!("expected Finish"),
    };
    assert!(processed.contains_item("web"));
    store.finish_cycle(&processed, &cycle.forced);
    assert!(store.pending.is_empty());
    assert!(matches!(cycle.on_bookkeeping_done(), CycleAction::Reload));
    assert!(matches!(cycle.on_reload_result(true), CycleAction::Done));
    assert!(matches!(cycle.state, CycleState::Idle));
}

#[test]
fn test_cycle_validation_failure_aborts() {
    let store = store_with(&[("web", &["46.36.37.83"], &[])]);
    let (hosts, pending, forced, unrec) = store.snapshot();
    let (mut cycle, _) = UpdateCycle::start(hosts, pending, forced, &unrec, true, true, true);
    let zone = lines(&["web\t10M\tA\t1.1.1.1 ; @faddns 2020-01-01 00:00:00"]);
    cycle.on_zone_read(zone);
    cycle.on_scratch_written();
    let action = cycle.on_validator_output("errors were found");
    assert!(matches!(action, CycleAction::Done));
    assert!(matches!(cycle.state, CycleState::Aborted));
    assert_eq!(cycle.error, Some(CycleError::ValidationFailed));
}

#[test]
fn test_cycle_size_check_aborts() {
    let store = store_with(&[("web", &["46.36.37.83"], &[])]);
    let (hosts, pending, forced, unrec) = store.snapshot();
    // zone and serial files differ: no validation step
    let (mut cycle, _) = UpdateCycle::start(hosts, pending, forced, &unrec, false, false, false);
    let zone = lines(&["web\t10M\tA\t1.1.1.1 ; @faddns 2020-01-01 00:00:00"]);
    cycle.on_zone_read(zone);
    assert!(matches!(cycle.on_scratch_written(), CycleAction::StatScratch));
    let action = cycle.on_zone_size(3);
    assert!(matches!(action, CycleAction::Done));
    assert_eq!(cycle.error, Some(CycleError::ZoneScratchTooSmall));
}

use faddnsd::AppConfig;

#[test]
fn test_app_config_zone_eq_serial() {
    let c = AppConfig {
        zone: "example.org".to_string(),
        zone_fn: "/tmp/z".to_string(),
        serial_fn: "/tmp/z".to_string(),
        out_fn: "/tmp/z.tmp".to_string(),
        no_zone_reload: false,
        no_zone_sign: false,
    };
    assert!(c.zone_eq_serial());
    let d = AppConfig { serial_fn: "/tmp/s".to_string(), ..c };
    assert!(!d.zone_eq_serial());
}

#[test]
fn test_cycle_serial_not_found_aborts() {
    let store = store_with(&[("web", &["46.36.37.83"], &[])]);
    let (hosts, pending, forced, unrec) = store.snapshot();
    let (mut cycle, _) = UpdateCycle::start(hosts, pending, forced, &unrec, false, false, false);
    let zone = lines(&["web\t10M\tA\t1.1.1.1 ; @faddns 2020-01-01 00:00:00"]);
    cycle.on_zone_read(zone);
    cycle.on_scratch_written();
    cycle.on_zone_size(100);
    cycle.on_zone_published();
    let action = cycle.on_serial_read(lines(&["no counter anywhere"]));
    assert!(matches!(action, CycleAction::Done));
    assert_eq!(cycle.error, Some(CycleError::SerialNotFound));
}

#[test]
fn test_cycle_sign_failure_aborts() {
    let store = store_with(&[("web", &["46.36.37.83"], &[])]);
    let (hosts, pending, forced, unrec) = store.snapshot();
    let (mut cycle, _) = UpdateCycle::start(hosts, pending, forced, &unrec, false, true, true);
    let zone = lines(&["web\t10M\tA\t1.1.1.1 ; @faddns 2020-01-01 00:00:00"]);
    cycle.on_zone_read(zone);
    cycle.on_scratch_written();
    cycle.on_zone_size(100);
    cycle.on_zone_published();
    cycle.on_serial_read(lines(&["x serial 1 x"]));
    cycle.on_serial_scratch_written();
    cycle.on_serial_size(100);
    assert!(matches!(cycle.on_serial_published(), CycleAction::Sign));
    let action = cycle.on_sign_result(false);
    assert!(matches!(action, CycleAction::Done));
    assert_eq!(cycle.error, Some(CycleError::SignFailed));
    assert!(matches!(cycle.state, CycleState::Aborted));
}

#[test]
fn test_update_zone_keeps_unrelated_marked_lines() {
    // marked lines of hosts that are not pending pass through untouched,
    // even with odd shapes
    let store = store_with(&[("web", &["46.36.37.83"], &[])]);
    let (hosts, pending, _forced, _un) = store.snapshot();
    let zone = lines(&[
        "   ",
        "other\t10M\tA\t9.9.9.9 ; @faddns 2019-01-01 00:00:00",
        "web\t10M\tA\t1.1.1.1 ; @faddns 2020-01-01 00:00:00",
    ]);
    let (out, residual) = update_zone_file_content(&zone, &hosts, pending, &StrSet::new());
    assert_eq!(out.len(), 3);
    assert_eq!(out[0], "   ");
    assert_eq!(out[1], "other\t10M\tA\t9.9.9.9 ; @faddns 2019-01-01 00:00:00");
    assert!(out[2].starts_with("web\t10M\tA\t46.36.37.83"));
    assert!(residual.is_empty());
}

#[test]
fn test_update_zone_multiple_addresses_block() {
    let store = store_with(&[(
        "multi",
        &["46.36.37.83", "46.36.37.84", "10.0.0.1"],
        &["2a02:25b0::1"],
    )]);
    let (hosts, pending, _forced, _un) = store.snapshot();
    let zone = lines(&["multi\t10M\tA\t1.1.1.1 ; @faddns 2020-01-01 00:00:00"]);
    let (out, residual) = update_zone_file_content(&zone, &hosts, pending, &StrSet::new());
    // one line per publishable address, the private one excluded
    assert_eq!(out.len(), 3);
    assert!(out[0].contains("\tA\t46.36.37.83 "));
    assert!(out[1].contains("\tA\t46.36.37.84 "));
    assert!(out[2].contains("\tAAAA\t2a02:25b0::1 "));
    assert!(residual.is_empty());
}
