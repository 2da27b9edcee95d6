use lynxctl::blocklist::{
    blocklist_zones, builtin_blocked_domains, get_top_blocked_domains, nxdomain_names,
    update_advance, whitelist_zone_line, UpdateProgress, UpdateStep,
};
use lynxctl::pool::{allocate, pool_addr_string};
use lynxctl::reconcile::{
    firewall_reload_command, interface_setup_command, kernel_peer_list_command, key_install_command,
    peer_add_command, peer_push_fields, purge_commands, push_commands, sync_advance, sync_error,
    SyncProgress, SyncStep,
};
use lynxctl::record::{extract_address, extract_client_key, list_entries, render_record, PeerConfig};
use lynxctl::sessions::{
    format_two_dec, get_active_peers_with_usage, get_session_duration, get_system_uptime,
    resolve_peer_name, trim_str,
};
use lynxctl::telemetry::{
    get_dns_stats, get_net_stats, parse_micros, rate_kbps, rate_percent, DnsStats, NetStats,
};
use lynxctl::text::{parse_u64, split_lines, split_ws, u64_to_string};
use lynxctl::GatewayError;

fn sample_config(name_suffix: &str) -> PeerConfig {
    PeerConfig {
        client_pub: format!("clientkey{}=", name_suffix),
        client_priv: format!("privkey{}=", name_suffix),
        address: "10.200.200.7".to_string(),
        gateway_addr: "10.200.200.1".to_string(),
        server_pub: "serverpub=".to_string(),
        endpoint_host: "203.0.113.9".to_string(),
    }
}

#[test]
fn allocation_skips_occupied_addresses() {
    let occupied = vec![
        "10.200.200.2".to_string(),
        "10.200.200.3".to_string(),
        "10.200.200.5".to_string(),
    ];
    assert_eq!(allocate(&occupied).unwrap(), "10.200.200.4");
}

#[test]
fn allocation_starts_at_host_two() {
    let occupied: Vec<String> = Vec::new();
    assert_eq!(allocate(&occupied).unwrap(), "10.200.200.2");
}

#[test]
fn allocation_fails_when_pool_is_full() {
    let occupied: Vec<String> = (2..255).map(|k| format!("10.200.200.{}", k)).collect();
    assert_eq!(allocate(&occupied), Err(GatewayError::AllocationExhausted));
}

#[test]
fn allocation_ignores_similar_but_different_addresses() {
    // host 25 occupied must not shadow host 2
    let occupied = vec!["10.200.200.25".to_string()];
    assert_eq!(allocate(&occupied).unwrap(), "10.200.200.2");
}

#[test]
fn pool_addresses_render_in_decimal() {
    assert_eq!(pool_addr_string(2), "10.200.200.2");
    assert_eq!(pool_addr_string(254), "10.200.200.254");
}

#[test]
fn rate_follows_the_counter_delta() {
    assert_eq!(rate_kbps(1024, 2048), 8);
    assert_eq!(rate_kbps(0, 0), 0);
    assert_eq!(rate_kbps(500, 500), 0);
}

#[test]
fn rate_is_zero_after_a_counter_reset() {
    assert_eq!(rate_kbps(5000, 100), 0);
}

#[test]
fn percent_guards_against_zero_total() {
    assert_eq!(rate_percent(42, 0), 0);
    assert_eq!(rate_percent(750, 1000), 75);
    assert_eq!(rate_percent(1, 3), 33);
}

#[test]
fn record_round_trips_through_the_store_text() {
    let config = sample_config("A");
    let text = render_record(&config);
    assert_eq!(extract_address(&text), "10.200.200.7");
    assert_eq!(extract_client_key(&text).unwrap(), "clientkeyA=");
}

#[test]
fn record_text_has_the_fixed_layout() {
    let config = sample_config("A");
    let text = render_record(&config);
    let expected = "# ClientPublicKey = clientkeyA=\n\
                    [Interface]\n\
                    PrivateKey = privkeyA=\n\
                    Address = 10.200.200.7/32\n\
                    DNS = 10.200.200.1\n\
                    \n\
                    [Peer]\n\
                    PublicKey = serverpub=\n\
                    Endpoint = 203.0.113.9:51820\n\
                    AllowedIPs = 0.0.0.0/0\n";
    assert_eq!(text, expected);
}

#[test]
fn extract_address_defaults_to_unknown() {
    assert_eq!(extract_address("no address here\n"), "Unknown");
}

#[test]
fn list_entries_pairs_names_with_addresses() {
    let config = sample_config("A");
    let text = render_record(&config);
    let records = vec![
        ("alice".to_string(), text),
        ("bob".to_string(), "broken record\n".to_string()),
    ];
    let listed = list_entries(&records);
    assert_eq!(listed.len(), 2);
    assert_eq!(listed[0], ("alice".to_string(), "10.200.200.7".to_string()));
    assert_eq!(listed[1], ("bob".to_string(), "Unknown".to_string()));
}

#[test]
fn push_commands_cover_exactly_the_complete_records() {
    let complete = render_record(&sample_config("A"));
    let incomplete = "[Interface]\nPrivateKey = x\n".to_string();
    let texts = vec![complete, incomplete];
    let commands = push_commands(&texts);
    assert_eq!(commands.len(), 1);
    assert_eq!(
        commands[0],
        "wg set wg0 peer clientkeyA= allowed-ips 10.200.200.7/32"
    );
}

#[test]
fn push_commands_are_deterministic_across_passes() {
    let texts = vec![render_record(&sample_config("A")), render_record(&sample_config("B"))];
    assert_eq!(push_commands(&texts), push_commands(&texts));
}

#[test]
fn purge_commands_remove_every_reported_peer() {
    let listing = "keyone=\nkeytwo=\n\n";
    let commands = purge_commands(listing);
    assert_eq!(
        commands,
        vec![
            "wg set wg0 peer keyone= remove".to_string(),
            "wg set wg0 peer keytwo= remove".to_string(),
        ]
    );
}

#[test]
fn peer_push_fields_requires_both_fields() {
    let complete = render_record(&sample_config("A"));
    assert_eq!(
        peer_push_fields(&complete),
        Some(("clientkeyA=".to_string(), "10.200.200.7".to_string()))
    );
    assert_eq!(peer_push_fields("[Interface]\n"), None);
}

#[test]
fn reconciliation_steps_run_in_protocol_order() {
    assert_eq!(
        sync_advance(SyncStep::ConfigureInterface, true),
        SyncProgress::Advance(SyncStep::InstallKey)
    );
    assert_eq!(
        sync_advance(SyncStep::InstallKey, true),
        SyncProgress::Advance(SyncStep::PurgePeers)
    );
    assert_eq!(
        sync_advance(SyncStep::PurgePeers, true),
        SyncProgress::Advance(SyncStep::PushPeers)
    );
    assert_eq!(
        sync_advance(SyncStep::PushPeers, true),
        SyncProgress::Advance(SyncStep::ReloadFirewall)
    );
    assert_eq!(sync_advance(SyncStep::ReloadFirewall, true), SyncProgress::Complete);
    assert_eq!(
        sync_advance(SyncStep::PurgePeers, false),
        SyncProgress::Halted(SyncStep::PurgePeers)
    );
}

#[test]
fn reconciliation_failures_report_their_step() {
    assert_eq!(sync_error(SyncStep::PurgePeers), GatewayError::PartialReconciliation);
    assert_eq!(sync_error(SyncStep::ReloadFirewall), GatewayError::ExternalCommandFailed);
}

#[test]
fn fixed_commands_match_the_gateway_configuration() {
    assert_eq!(
        interface_setup_command(),
        "ifconfig wg0 inet 10.200.200.1 255.255.255.0 up"
    );
    assert_eq!(
        key_install_command(),
        "wg set wg0 private-key /etc/wireguard/keys/server.key"
    );
    assert_eq!(kernel_peer_list_command(), "wg show wg0 peers");
    assert_eq!(firewall_reload_command(), "pfctl -f /etc/pf.conf");
    assert_eq!(
        peer_add_command("abc=", "10.200.200.9"),
        "wg set wg0 peer abc= allowed-ips 10.200.200.9/32"
    );
}

#[test]
fn net_stats_read_the_first_transfer_line() {
    let mut stats = NetStats { last_rx: 0, last_tx: 0, kbps_rx: 0, kbps_tx: 0 };
    let output = Some("peerkey=\t1024\t2048\nother=\t5\t6\n".to_string());
    get_net_stats(&output, &mut stats);
    assert_eq!(stats.last_rx, 1024);
    assert_eq!(stats.last_tx, 2048);
}

#[test]
fn net_stats_keep_their_values_without_output() {
    let mut stats = NetStats { last_rx: 7, last_tx: 8, kbps_rx: 1, kbps_tx: 2 };
    get_net_stats(&None, &mut stats);
    assert_eq!(stats.last_rx, 7);
    assert_eq!(stats.last_tx, 8);
    assert_eq!(stats.kbps_rx, 1);
    assert_eq!(stats.kbps_tx, 2);
}

fn fresh_dns_stats() -> DnsStats {
    DnsStats {
        total_queries: 0,
        cache_hits: 0,
        blocked_count: 0,
        hit_rate: 0,
        block_rate: 0,
        avg_response_us: 0,
        blocked_domains: Vec::new(),
    }
}

#[test]
fn dns_stats_parse_the_counter_dump() {
    let mut stats = fresh_dns_stats();
    let output = Some(
        "thread0.num.queries=12\n\
         total.num.queries=1000\n\
         total.num.cachehits=750\n\
         num.answer.rcode.NXDOMAIN=100\n\
         total.answer.time.avg=0.012345\n\
         unknown.key=9\n"
            .to_string(),
    );
    get_dns_stats(&output, &mut stats);
    assert_eq!(stats.total_queries, 1000);
    assert_eq!(stats.cache_hits, 750);
    assert_eq!(stats.blocked_count, 100);
    assert_eq!(stats.hit_rate, 75);
    assert_eq!(stats.block_rate, 10);
    assert_eq!(stats.avg_response_us, 12345);
}

#[test]
fn dns_rates_stay_zero_without_queries() {
    let mut stats = fresh_dns_stats();
    let output = Some("total.num.queries=0\ntotal.num.cachehits=0\n".to_string());
    get_dns_stats(&output, &mut stats);
    assert_eq!(stats.total_queries, 0);
    assert_eq!(stats.hit_rate, 0);
    assert_eq!(stats.block_rate, 0);
}

#[test]
fn latency_parses_whole_and_fractional_seconds() {
    assert_eq!(parse_micros("2"), Some(2_000_000));
    assert_eq!(parse_micros("0.5"), Some(500_000));
    assert_eq!(parse_micros("0.012345"), Some(12_345));
    assert_eq!(parse_micros("1.0000019"), Some(1_000_001));
    assert_eq!(parse_micros("abc"), None);
    assert_eq!(parse_micros(""), None);
}

#[test]
fn blocked_domains_fall_back_to_the_builtin_list() {
    let listed = get_top_blocked_domains(&None, &None);
    let expected = vec![
        "doubleclick.net",
        "googlesyndication.com",
        "googleadservices.com",
        "googletagmanager.com",
        "googletagservices.com",
        "facebook.com",
        "fbcdn.net",
        "amazon-adsystem.com",
        "s.youtube.com",
        "pagead2.googlesyndication.com",
    ];
    assert_eq!(listed, expected);
    assert_eq!(builtin_blocked_domains(), expected);
    // empty texts degrade the same way as missing ones
    assert_eq!(
        get_top_blocked_domains(&Some(String::new()), &Some(String::new())),
        expected
    );
}

#[test]
fn blocked_domains_rank_log_entries_by_frequency() {
    // token layout: the eighth token carries the name
    let mk = |d: &str| format!("a b c d e f NXDOMAIN {}\n", d);
    let mut log = String::new();
    for _ in 0..3 {
        log.push_str(&mk("ads.example"));
    }
    for _ in 0..5 {
        log.push_str(&mk("tracker.example"));
    }
    log.push_str(&mk("one.example"));
    let listed = get_top_blocked_domains(&Some(log), &None);
    assert_eq!(
        listed,
        vec!["tracker.example", "ads.example", "one.example"]
    );
}

#[test]
fn blocked_domains_use_zone_declarations_when_logs_are_silent() {
    let blocklist = "server:\nlocal-zone: \"ads.example\" always_nxdomain\n\
                     local-zone: \"track.example\" always_nxdomain\n";
    let listed = get_top_blocked_domains(&None, &Some(blocklist.to_string()));
    assert_eq!(listed, vec!["\"ads.example\"", "\"track.example\""]);
}

#[test]
fn nx_extraction_skips_short_lines() {
    let log = "short NXDOMAIN line\na b c d e f NXDOMAIN deep.example\n";
    assert_eq!(nxdomain_names(log), vec!["deep.example"]);
}

#[test]
fn zone_extraction_reads_the_second_token() {
    let text = "local-zone: \"a.example\" static\nnot-a-zone: x\nlocal-zone:\n";
    assert_eq!(blocklist_zones(text), vec!["\"a.example\""]);
}

#[test]
fn peer_names_resolve_through_the_record_annotation() {
    let config = sample_config("A");
    let text = render_record(&config);
    let records = vec![("alice".to_string(), text)];
    assert_eq!(resolve_peer_name("clientkeyA=", &records), "alice");
}

#[test]
fn unresolved_peer_names_fall_back_to_a_key_prefix() {
    let records: Vec<(String, String)> = Vec::new();
    assert_eq!(
        resolve_peer_name("AbCdEfGhIjKl=", &records),
        "AbCdEfGh..."
    );
    assert_eq!(resolve_peer_name("short", &records), "short...");
}

#[test]
fn session_ages_format_in_three_tiers() {
    assert_eq!(get_session_duration(1000, 970), "30s ago");
    assert_eq!(get_session_duration(1000, 910), "1m 30s ago");
    assert_eq!(get_session_duration(10000, 6300), "1h 1m ago");
    assert_eq!(get_session_duration(1000, 2000), "0s ago");
}

#[test]
fn uptime_reads_between_the_marker_and_the_comma() {
    let report = " 1:34PM  up 2 days,  5:23, 1 user, load averages: 1.23\n";
    assert_eq!(get_system_uptime(&Some(report.to_string())), "2 days");
    assert_eq!(get_system_uptime(&None), "Unknown");
    assert_eq!(get_system_uptime(&Some("nothing useful".to_string())), "Unknown");
}

#[test]
fn trim_removes_edge_whitespace() {
    assert_eq!(trim_str("  hello \n"), "hello");
    assert_eq!(trim_str("   "), "");
}

#[test]
fn two_decimal_formatting_pads_the_fraction() {
    assert_eq!(format_two_dec(1234), "12.34");
    assert_eq!(format_two_dec(105), "1.05");
    assert_eq!(format_two_dec(7), "0.07");
}

#[test]
fn active_peers_and_usage_fill_five_slots() {
    let config = sample_config("A");
    let records = vec![("alice".to_string(), render_record(&config))];
    let handshakes = Some("clientkeyA=\t970\nidle= 0\n".to_string());
    let transfers = Some("clientkeyA=\t1048576\t1073741824\n".to_string());
    let (sessions, usage) = get_active_peers_with_usage(&handshakes, &transfers, &records, 1000);
    assert_eq!(sessions.len(), 5);
    assert_eq!(usage.len(), 5);
    assert_eq!(sessions[0], ("alice".to_string(), "30s ago".to_string()));
    assert_eq!(sessions[1], (String::new(), String::new()));
    assert_eq!(
        usage[0],
        ("alice".to_string(), "1.00 MB RX / 1.00 GB TX".to_string())
    );
    assert_eq!(usage[4], (String::new(), String::new()));
}

#[test]
fn blocklist_updates_follow_the_validation_protocol() {
    assert_eq!(
        update_advance(UpdateStep::Download, true),
        UpdateProgress::Advance(UpdateStep::Validate)
    );
    assert_eq!(
        update_advance(UpdateStep::Validate, true),
        UpdateProgress::Advance(UpdateStep::Restart)
    );
    assert_eq!(
        update_advance(UpdateStep::Restart, true),
        UpdateProgress::Advance(UpdateStep::ConfirmRunning)
    );
    assert_eq!(update_advance(UpdateStep::ConfirmRunning, true), UpdateProgress::Complete);
    assert_eq!(
        update_advance(UpdateStep::Validate, false),
        UpdateProgress::Halted(GatewayError::ValidationFailed, true)
    );
    assert_eq!(
        update_advance(UpdateStep::Download, false),
        UpdateProgress::Halted(GatewayError::ExternalCommandFailed, false)
    );
}

#[test]
fn whitelist_lines_quote_the_domain() {
    assert_eq!(
        whitelist_zone_line("example.org"),
        "local-zone: \"example.org\" transparent"
    );
}

#[test]
fn text_utilities_agree_with_the_standard_behaviour() {
    assert_eq!(parse_u64("0"), Some(0));
    assert_eq!(parse_u64("18446744073709551615"), Some(u64::MAX));
    assert_eq!(parse_u64("18446744073709551616"), None);
    assert_eq!(parse_u64(""), None);
    assert_eq!(parse_u64("12a"), None);
    assert_eq!(u64_to_string(0), "0");
    assert_eq!(u64_to_string(90210), "90210");
    assert_eq!(split_lines("a\nb\n\nc"), vec!["a", "b", "", "c"]);
    assert_eq!(split_lines("a\nb\n"), vec!["a", "b"]);
    assert_eq!(split_ws("  one two\t three \n"), vec!["one", "two", "three"]);
}
