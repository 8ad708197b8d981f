use hft::bench::book::{level_create_cell, price_scenario};
use hft::bench::cells::rotated;
use hft::bench::config::SuiteConfig;
use hft::bench::drive::{
    engine_benchmarks, engine_command, gateway_risk, pair, push_smoke_record,
    queue_capacity_smoke, EngineRun, EngineTrial, GatewayRun,
};
use hft::bench::fifo::{fifo_fixture, fifo_op, FifoScenario};
use hft::bench::fnv::{mix_fnv_columns, previous_record_checksum};
use hft::bench::handoff::checksum_fold;
use hft::bench::journal::fill_record;
use hft::bench::json::{put_decimal, put_hexadecimal};
use hft::bench::liquidity::{checksum, fixture, inspect};
use hft::bench::plan::{full_level_cell, plan_cell, PlanCell};
use hft::bench::record::{push_latency_record, BenchRecord, Extra};
use hft::bench::stats::{analyze, percentile, sort_samples};
use hft::bench::suite::{run_suite, suite_records, EnginePair, GatewayTrial, OutsideCells};
use hft::bench::replace::{replace_book_cell, replace_risk_cell};
use hft::bench::tif::{labelled_cross, run_po_cell, take_id};
use hft::journal::channel::JournalChannel;
use hft::journal::JournalError;
use hft::journal::RING_CAPACITY;
use hft::types::{
    AccountId, Command, InstrumentId, OrderId, PriceTicks, Quantity, ReportBuffer,
    SequenceNumber, Side, TimeInForce,
};

#[test]
fn percentiles_use_the_nearest_rank() {
    let samples: Vec<u64> = (1..=1_000).collect();
    assert_eq!(percentile(&samples, 0), 1);
    assert_eq!(percentile(&samples, 500), 500);
    assert_eq!(percentile(&samples, 900), 900);
    assert_eq!(percentile(&samples, 990), 990);
    assert_eq!(percentile(&samples, 999), 999);
    assert_eq!(percentile(&samples, 1_000), 1_000);
    assert_eq!(percentile(&samples, usize::MAX), 1_000);
    assert_eq!(percentile(&vec![7], 999), 7);
    assert_eq!(percentile(&vec![3, 5, 9], 500), 5);
    assert_eq!(percentile(&vec![3, 5, 9], 900), 9);
    assert_eq!(percentile(&vec![3, 5, 9], 333), 3);
    assert_eq!(percentile(&vec![3, 5, 9], 334), 5);
}

#[test]
fn samples_are_sorted_before_they_are_summed_up() {
    let mut samples = vec![9, 1, 5, 5, 0];
    let stats = analyze(&mut samples);
    assert_eq!(samples, [0, 1, 5, 5, 9]);
    assert_eq!(stats.mean, 4);
    assert_eq!(stats.p50, 5);
    assert_eq!(stats.p90, 9);
    assert_eq!(stats.p99, 9);
    assert_eq!(stats.p99_9, 9);
    assert_eq!(stats.max, 9);

    let mut extreme = vec![u64::MAX; 3];
    assert_eq!(analyze(&mut extreme).mean, u128::from(u64::MAX));
    let mut none: Vec<u64> = Vec::new();
    sort_samples(&mut none);
    assert_eq!(none, []);
}

#[test]
fn figures_of_a_cell_come_from_its_samples() {
    let mut out = Vec::new();
    let record = BenchRecord::new(
        "component",
        "book",
        "example",
        vec![("depth", Extra::U64(4))],
        0xfeed,
    );
    push_latency_record(&mut out, record.clone(), vec![300, 100, 200]);
    let mut quick = record;
    quick.ops_per_second = 7;
    push_latency_record(&mut out, quick, vec![0, 0]);
    assert_eq!(
        out[0],
        BenchRecord {
            boundary: "component",
            component: "book",
            scenario: "example",
            params: vec![("depth", Extra::U64(4))],
            checksum: 0xfeed,
            samples: 3,
            mean_ns: 200,
            p50_ns: 200,
            p90_ns: 300,
            p99_ns: 300,
            p99_9_ns: 300,
            max_ns: 300,
            ops_per_second: 5_000_000,
            allocations: 0,
            deallocations: 0,
        }
    );
    assert_eq!(out[1].samples, 2);
    assert_eq!(out[1].mean_ns, 0);
    assert_eq!(out[1].ops_per_second, 0);
    assert_eq!(out.len(), 2);
}

#[test]
fn saturation_smoke() {
    let mut channel = JournalChannel::try_new().expect("ring");
    let (mut writer, mut reader) = channel.split(1);
    for _ in 1..=RING_CAPACITY as u64 {
        writer.enqueue(&mut channel, &[0_u8; 46]).expect("fits");
    }
    assert!(matches!(
        writer.enqueue(&mut channel, &[1_u8; 46]),
        Err(JournalError::Saturated)
    ));
    while reader.read(&mut channel).is_ok() {}
    writer.enqueue(&mut channel, &[2_u8; 46]).expect("fits again");
}

#[test]
fn lane_hash_has_known_values() {
    assert_eq!(
        previous_record_checksum(1, &[0x4a; 46]),
        0x3eae_ab02_14a4_e59a
    );
    assert_eq!(previous_record_checksum(0, b""), 0x7f64_e6e9_1c62_fcfd);
    assert_eq!(
        previous_record_checksum(9, b"abcdefghij"),
        0x26bb_95e6_1d79_7c8f
    );
    let mut lanes = [0_u64; 8];
    mix_fnv_columns(&mut lanes, &[9, 1, 2], 1, 2);
    assert_eq!(lanes, [0x100_0000_01b3, 0x200_0000_0366, 0, 0, 0, 0, 0, 0]);
}

#[test]
fn checksum_steps_have_known_values() {
    assert_eq!(rotated(0x8000_0000_0000_0001, 1), 3);
    assert_eq!(rotated(5, 0), 5);
    let mut folded = 0;
    checksum_fold(&mut folded, 0b1100, 66);
    assert_eq!(folded, 0b11);
    checksum_fold(&mut folded, 1, 0);
    assert_eq!(folded, 0b10);
    let mut counter = 41;
    assert_eq!(take_id(&mut counter), 41);
    assert_eq!(counter, 42);
}

#[test]
fn liquidity_fixture_has_both_tops() {
    let book = fixture::<8>(4);
    let top = inspect(&book);
    assert_eq!(top.bid.order_count, 4);
    assert_eq!(top.ask.order_count, 4);
    assert!(top.bid.price.0 < top.ask.price.0);
    let bid = u64::try_from(top.bid.aggregate_quantity).expect("bid");
    let ask = u64::try_from(top.ask.aggregate_quantity).expect("ask");
    assert_eq!(
        checksum(top),
        bid.rotate_left(7) ^ ask ^ 4_u64.rotate_left(17) ^ 4_u64.rotate_left(29)
    );
}

#[test]
fn fifo_operations_keep_the_depth() {
    for (scenario, name, target) in [
        (FifoScenario::HeadCancel, "head_cancel", 1),
        (FifoScenario::MiddleCancel, "middle_cancel", 4),
        (FifoScenario::TailCancel, "tail_cancel", 8),
        (FifoScenario::HeadFill, "head_fill", 1),
    ] {
        assert_eq!(scenario.name(), name);
        let target_found = scenario.target(8);
        assert_eq!(target_found, target, "{name}");
        let mut book = fifo_fixture::<8>();
        let mut reports = ReportBuffer::new();
        assert_eq!(book.order_count(), 8);
        let gone = fifo_op(&mut book, &mut reports, scenario, target);
        assert_eq!(gone, target);
        assert_eq!(book.order_count(), 7);
        assert!(!book.contains_order(OrderId(target)));
    }
}

#[test]
fn queue_smoke_is_refused_once() {
    assert_eq!(queue_capacity_smoke(), (64, 1));
    let mut out = Vec::new();
    push_smoke_record(&mut out);
    assert_eq!(out.len(), 1);
    assert_eq!((out[0].component, out[0].scenario), ("queue", "capacity_smoke"));
    assert_eq!(out[0].checksum, 64);
    assert_eq!(out[0].samples, 65);
    assert_eq!(
        out[0].params,
        vec![
            ("capacity", Extra::U64(64)),
            ("max_occupancy", Extra::U64(64)),
            ("backpressure_events", Extra::U64(1)),
        ]
    );
}

#[test]
fn gateway_run_times_the_configured_window() {
    let mut config = SuiteConfig::reduced();
    config.gateway_iterations = 10;
    config.gateway_samples = 6;
    config.gateway_sample_after = 4;
    assert_eq!(
        gateway_risk(config).account_snapshot(AccountId(2)),
        Some((0, 0))
    );
    let mut run = GatewayRun::new(config);
    assert_eq!(run.warm_up(), pair(1));
    let mut iteration = 0;
    while let Some(round) = run.next() {
        assert_eq!(round.orders, pair(iteration * 2 + 3));
        assert_eq!(round.timed, (4..7).contains(&iteration));
        run.done(iteration, 100 + iteration);
        iteration += 1;
    }
    assert_eq!(iteration, 10);
    let mut out = Vec::new();
    run.finish(0xabc, &mut out);
    assert_eq!(out[0].component, "gateway");
    assert_eq!(out[0].scenario, "pair_rest_fill");
    assert_eq!(out[0].params, vec![("messages", Extra::U64(20))]);
    assert_eq!(out[0].checksum, 0xabc);
    assert_eq!(out[0].samples, 6);
    assert_eq!(out[0].max_ns, 106);
    assert_eq!(out[0].mean_ns, 55);
    assert_eq!(out[0].p50_ns, 6);
}

#[test]
fn pairs_rest_and_fill() {
    let orders = pair(3);
    assert_eq!(orders.sell.order_id, OrderId(3));
    assert_eq!(orders.sell.account_id, AccountId(1));
    assert_eq!(orders.sell.side, Side::Sell);
    assert_eq!(orders.sell.sequence, SequenceNumber(3));
    assert_eq!(orders.buy.order_id, OrderId(4));
    assert_eq!(orders.buy.account_id, AccountId(2));
    assert_eq!(orders.buy.side, Side::Buy);
    for order in [orders.sell, orders.buy] {
        assert_eq!(order.instrument_id, InstrumentId(1));
        assert_eq!(order.price, PriceTicks(100));
        assert_eq!(order.quantity, Quantity(1));
        assert_eq!(order.time_in_force, TimeInForce::Gtc);
    }
}

fn finished_run(samples: usize) -> EngineRun {
    let mut run = EngineRun::new(samples);
    let mut step = 0;
    while let Some(command) = run.next() {
        assert_eq!(command, engine_command(step));
        assert_eq!(command.sequence(), SequenceNumber(step + 1));
        match command {
            Command::NewOrder(order) => {
                assert_eq!(step % 2, 0);
                assert_eq!(order.order_id, OrderId(step + 1));
                assert_eq!(order.quantity, Quantity(2));
            }
            Command::CancelOrder(cancel) => {
                assert_eq!(step % 2, 1);
                assert_eq!(cancel.order_id, OrderId(step));
            }
            Command::ReplaceOrder(_) => unreachable!("no replaces"),
        }
        run.done(step);
        step += 1;
    }
    assert_eq!(step, 128 + u64::try_from(samples).expect("samples"));
    run
}

#[test]
fn engine_trials_are_recorded_side_by_side() {
    let mut out = Vec::new();
    push_smoke_record(&mut out);
    let composition = EngineTrial {
        run: finished_run(3),
        state_bytes: 700,
        digest: [5; 32],
    };
    let facade = EngineTrial {
        run: finished_run(3),
        state_bytes: 800,
        digest: [5; 32],
    };
    engine_benchmarks(composition, facade, &mut out);
    assert_eq!(out.len(), 3);
    for (record, path, bytes) in [(&out[1], "composition", 700), (&out[2], "facade", 800)] {
        assert_eq!(record.boundary, "gateway");
        assert_eq!(record.component, "engine");
        assert_eq!(record.scenario, "journaled_command");
        assert_eq!(
            record.params,
            vec![
                ("path", Extra::Text(path)),
                ("state_bytes", Extra::U64(bytes)),
            ]
        );
        assert_eq!(record.checksum, 129 + 130 + 131);
        assert_eq!(record.samples, 3);
        assert_eq!(record.mean_ns, 129);
        assert_eq!(record.max_ns, 130);
    }
}

#[test]
fn suite_records_cover_every_workload() {
    let records = suite_records(SuiteConfig::reduced(), "none", OutsideCells::none());
    let expected = [
        ("book", "cancel_sweep"),
        ("book", "head_cancel"),
        ("book", "middle_cancel"),
        ("book", "tail_cancel"),
        ("book", "head_fill"),
        ("book", "submit_cross"),
        ("book", "discovery"),
        ("book", "level_create"),
        ("book", "non_crossing"),
        ("book", "single_fill"),
        ("book", "multi_fill"),
        ("book", "report_full"),
        ("book", "deep_rejection"),
        ("book", "top_level_pair"),
        ("book", "submit_top_cancel_top"),
        ("book", "replace_reduce"),
        ("book", "replace_increase"),
        ("book", "replace_reprice"),
        ("book", "replace_reject_unknown"),
        ("risk", "risk_check"),
        ("risk", "reservation_lookup"),
        ("risk", "fill"),
        ("risk", "cancel"),
        ("risk", "settle"),
        ("risk", "reject"),
        ("risk", "account_lookup"),
        ("journal", "controlled_journal_enqueue"),
        ("journal", "controlled_journal_persistence_memory"),
    ];
    assert!(records.len() > 40, "suite emitted {}", records.len());
    for (component, scenario) in expected {
        assert!(
            records
                .iter()
                .any(|record| record.component == component && record.scenario == scenario),
            "missing workload {component}/{scenario}"
        );
    }
    for record in &records {
        assert!(record.samples >= 1, "empty samples: {record:?}");
        assert!(
            record.p50_ns <= record.p90_ns
                && record.p90_ns <= record.p99_ns
                && record.p99_ns <= record.p99_9_ns
                && record.p99_9_ns <= record.max_ns,
            "percentile order: {record:?}"
        );
        assert!(record.mean_ns <= record.max_ns);
        assert_eq!((record.allocations, record.deallocations), (0, 0));
    }
}

#[test]
fn suite_checksums_do_not_depend_on_time() {
    let first = suite_records(SuiteConfig::reduced(), "sse4.2", OutsideCells::none());
    let second = suite_records(SuiteConfig::reduced(), "sse4.2", OutsideCells::none());
    assert_eq!(first.len(), second.len());
    for (one, other) in first.iter().zip(&second) {
        assert_eq!(one.component, other.component);
        assert_eq!(one.scenario, other.scenario);
        assert_eq!(one.params, other.params);
        assert_eq!(one.checksum, other.checksum);
        assert_eq!(one.samples, other.samples);
    }
    let selected = first
        .iter()
        .find(|record| record.scenario == "journal_checksum_selected")
        .expect("checksum cell");
    assert_eq!(
        selected.params,
        vec![
            ("algorithm", Extra::Text("crc32c_selected")),
            ("cpu_crc", Extra::Text("sse4.2")),
        ]
    );
}

#[test]
fn crossing_post_only_cells_are_all_rejects() {
    const REJECT: u64 = 0x0070_6f72_656a;
    for (scenario, deep, levels, checksum) in [
        ("post_only_cross_shallow", false, 1, REJECT),
        ("post_only_cross_deep", true, 64, REJECT),
        ("post_only_noncross_shallow", false, 1, 1),
        ("post_only_noncross_deep", true, 64, 1),
    ] {
        assert_eq!(labelled_cross(scenario), checksum == REJECT);
        let mut out = Vec::new();
        let mut next_taker_id = 1_000_000;
        run_po_cell(1, scenario, deep, &mut next_taker_id, &mut out);
        assert_eq!(out.len(), 1);
        assert_eq!(out[0].scenario, scenario);
        assert_eq!(out[0].checksum, checksum);
        assert_eq!(
            out[0].params,
            vec![
                ("tif", Extra::Text("post_only")),
                ("levels", Extra::U64(levels)),
            ]
        );
        assert_eq!(next_taker_id, 1_000_033);
        run_po_cell(0, scenario, deep, &mut next_taker_id, &mut out);
        assert_eq!((out.len(), next_taker_id), (1, 1_000_033));
    }
}

#[test]
fn replacement_cells_go_by_their_label() {
    let mut out = Vec::new();
    replace_book_cell(0, "replace_reduce", 0, 0, &mut out);
    replace_risk_cell(0, &mut out);
    assert!(out.is_empty());
    replace_book_cell(3, "replace_reduce", 100, 5, &mut out);
    replace_book_cell(3, "replace_reject_unknown", 0, 0, &mut out);
    assert_eq!(out[0].checksum, 15);
    assert_eq!(out[1].checksum, 3 * 0x9e);
}

#[test]
fn a_late_sample_window_is_never_timed() {
    let mut config = SuiteConfig::reduced();
    config.gateway_iterations = 2;
    config.gateway_samples = 1;
    config.gateway_sample_after = u64::MAX;
    let mut run = GatewayRun::new(config);
    while let Some(round) = run.next() {
        assert!(!round.timed);
        run.done(5, 5);
    }
    let mut out = Vec::new();
    run.finish(1, &mut out);
    assert_eq!(out[0].max_ns, 0);
}

#[test]
fn journal_cells_have_a_rate_of_their_own_for_a_mean_of_nothing() {
    let mut out = Vec::new();
    fill_record(&mut out, "brief", vec![], 5, vec![0, 1]);
    fill_record(&mut out, "long", vec![], 6, vec![4, 6]);
    assert_eq!((out[0].mean_ns, out[0].ops_per_second), (0, 1_000_000_000));
    assert_eq!((out[1].mean_ns, out[1].ops_per_second), (5, 200_000_000));
    assert_eq!((out[1].boundary, out[1].component), ("component", "journal"));
}

#[test]
fn numbers_are_written_without_padding_and_with_it() {
    let mut line = String::new();
    put_decimal(&mut line, 0);
    line.push(' ');
    put_decimal(&mut line, 907);
    line.push(' ');
    put_decimal(&mut line, u64::MAX);
    line.push(' ');
    put_hexadecimal(&mut line, 0xfeed, 16);
    line.push(' ');
    put_hexadecimal(&mut line, u64::MAX, 16);
    assert_eq!(
        line,
        "0 907 18446744073709551615 000000000000feed ffffffffffffffff"
    );
}

#[test]
fn a_record_is_one_line_of_json() {
    let mut out = Vec::new();
    let mut record = BenchRecord::new(
        "component",
        "book",
        "example",
        vec![("depth", Extra::U64(4)), ("shape", Extra::Text("dense"))],
        0xfeed,
    );
    record.allocations = 3;
    record.deallocations = 2;
    push_latency_record(&mut out, record, vec![300, 100, 200]);
    assert_eq!(
        out[0].to_json_line(),
        [
            r#"{"schema":"hft-bench-results/1","boundary":"component","component":"book","#,
            r#""scenario":"example","params":{"depth":4,"shape":"dense"},"samples":3,"#,
            r#""mean_ns":200,"p50_ns":200,"p90_ns":300,"p99_ns":300,"p99_9_ns":300,"#,
            r#""max_ns":300,"ops_per_second":5000000,"allocations":3,"deallocations":2,"#,
            r#""checksum":"000000000000feed"}"#,
        ]
        .concat()
    );
    let bare = BenchRecord::new("gateway", "engine", "empty", vec![], 0);
    assert!(bare.to_json_line().contains(r#""params":{},"samples":0,"#));
}

#[test]
fn the_suite_prints_one_line_for_each_record() {
    let lines = run_suite(SuiteConfig::reduced(), "none", OutsideCells::none());
    assert!(lines.len() > 40, "suite emitted {}", lines.len());
    for line in &lines {
        assert!(line.starts_with(r#"{"schema":"hft-bench-results/1","boundary":""#));
        assert!(line.contains(r#","allocations":0,"deallocations":0,"checksum":""#));
        assert!(line.ends_with(r#""}"#));
        assert!(!line.contains('\n'));
    }
    assert!(lines[0].contains(r#""component":"queue","scenario":"capacity_smoke""#));
}

#[test]
fn outside_cells_stand_in_their_places() {
    let config = SuiteConfig::reduced();
    let mut run = GatewayRun::new(config);
    run.warm_up();
    while run.next().is_some() {
        run.done(1, 1);
    }
    let trial = || EngineTrial {
        run: finished_run(config.tif_samples),
        state_bytes: 900,
        digest: [1; 32],
    };
    let cell = |scenario| vec![BenchRecord::new("component", "outside", scenario, vec![], 1)];
    let outside = OutsideCells {
        gateway: Some(GatewayTrial { run, digest: 0xd16e57 }),
        parser: cell("parser"),
        spsc: cell("spsc"),
        mixed: cell("mixed"),
        deep_book: cell("deep_book"),
        session: cell("session"),
        session_recovery: cell("session_recovery"),
        recovery: cell("recovery"),
        events: cell("events"),
        router: cell("router"),
        engine: Some(EnginePair {
            composition: trial(),
            facade: trial(),
        }),
    };
    let records = suite_records(config, "none", outside);
    let place = |scenario: &str| {
        records
            .iter()
            .position(|record| record.scenario == scenario)
            .expect("a record of the scenario")
    };
    assert_eq!(place("pair_rest_fill"), 0);
    assert_eq!(records[0].checksum, 0xd16e57);
    assert_eq!(place("capacity_smoke"), 1);
    let order = [
        "capacity_smoke",
        "cancel_sweep",
        "head_cancel",
        "submit_cross",
        "non_crossing",
        "parser",
        "spsc",
        "mixed",
        "deep_book",
        "replace_reduce",
        "session",
        "session_recovery",
        "journal_checksum_selected",
        "controlled_journal_enqueue",
        "recovery",
        "events",
        "router",
        "journaled_command",
    ];
    for (earlier, later) in order.iter().zip(&order[1..]) {
        assert!(place(earlier) < place(later), "{earlier} before {later}");
    }
    assert_eq!(place("journaled_command"), records.len() - 2);
    assert_eq!(records[records.len() - 1].scenario, "journaled_command");
}

#[test]
fn every_round_of_a_cell_runs() {
    let (samples, made) = level_create_cell::<16, 4>(8, 3, 5);
    assert_eq!((samples.len(), made.created), (5, 8));
    assert_eq!(made.book.order_count(), 8);
    let (samples, full) = full_level_cell(2, 4);
    assert_eq!((samples.len(), full.refused), (4, 6));
    assert_eq!(full.book.order_count(), 8);

    let mut config = SuiteConfig::reduced();
    config.price_samples = 4;
    config.plan_samples = 3;
    let mut out = Vec::new();
    let run = price_scenario::<16, 4>(config, "narrow", 8, &mut out);
    assert_eq!((run.crossed, run.discovered, run.created), (68, 68, 68));
    assert_eq!(plan_cell(config, PlanCell::DeepRejection, &mut out), 67);
    assert_eq!(plan_cell(config, PlanCell::SingleFill, &mut out), 67);
    assert_eq!(out.len(), 5);
    assert!(out.iter().all(|record| record.samples >= 3));
}
