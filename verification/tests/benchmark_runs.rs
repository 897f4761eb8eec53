use qartez::benchmark::{
    build_non_mcp_cache, effective_samples, git_sha, parse_sha, preview_of, select_scenarios,
    BenchmarkReport, BenchmarkRunner, LatencyConfig, MeasureStep, Measured, Measurement,
    NonMcpCache, Scenario, ScenarioReport, SideReport,
};

fn side(output: &str) -> SideReport {
    SideReport {
        response_bytes: output.len(),
        response_preview: output.to_string(),
        tokens: 0,
        naive_tokens: 0,
        latency_us: Vec::new(),
        error: None,
        args: None,
        steps: None,
        reused: false,
        full_output: output.to_string(),
        grounding: None,
    }
}

fn synthetic_report(git_sha: Option<&str>) -> BenchmarkReport {
    BenchmarkReport {
        git_sha: git_sha.map(|sha| sha.to_string()),
        scenarios: vec![ScenarioReport {
            scenario_id: "scenario-1".to_string(),
            tool: "qartez_find".to_string(),
            mcp: side(""),
            non_mcp: side(""),
        }],
    }
}

#[test]
fn build_non_mcp_cache_matches_when_sha_equal() {
    let prior = synthetic_report(Some("abc123"));
    let cache = build_non_mcp_cache(&prior, Some("abc123"));
    assert_eq!(cache.len(), 1, "SHA match must populate cache");
}

#[test]
fn build_non_mcp_cache_empty_when_sha_differs() {
    let prior = synthetic_report(Some("abc123"));
    let cache = build_non_mcp_cache(&prior, Some("def456"));
    assert!(cache.is_empty(), "SHA mismatch must drop cache");
}

#[test]
fn build_non_mcp_cache_empty_when_prior_sha_missing_but_expected_some() {
    let prior = synthetic_report(None);
    let cache = build_non_mcp_cache(&prior, Some("abc123"));
    assert!(
        cache.is_empty(),
        "prior report with no SHA must be rejected when caller pins one"
    );
}

#[test]
fn build_non_mcp_cache_accepts_prior_when_caller_is_agnostic() {
    let prior = synthetic_report(Some("abc123"));
    let cache = build_non_mcp_cache(&prior, None);
    assert_eq!(
        cache.len(),
        1,
        "None expected_sha must accept any prior report"
    );
}

#[test]
fn build_non_mcp_cache_accepts_when_both_none() {
    let prior = synthetic_report(None);
    let cache = build_non_mcp_cache(&prior, None);
    assert_eq!(cache.len(), 1);
}

#[test]
fn the_last_of_two_equal_scenarios_is_kept() {
    let mut prior = synthetic_report(None);
    prior.scenarios.push(ScenarioReport {
        scenario_id: "scenario-1".to_string(),
        tool: "qartez_find".to_string(),
        mcp: side(""),
        non_mcp: side("later"),
    });
    let cache = build_non_mcp_cache(&prior, None);
    assert_eq!(cache.len(), 1);
    assert_eq!(cache.get("scenario-1").unwrap().full_output, "later");
    assert!(cache.get("scenario-2").is_none());
}

#[test]
fn the_usual_configuration() {
    let config = LatencyConfig::default();
    assert_eq!(config.warmup_runs, 3);
    assert_eq!(config.measured_runs, 7);
    assert!(config.trim_outliers);
    let runner = BenchmarkRunner::new();
    assert_eq!(runner.config.measured_runs, 7);
    assert!(runner.non_mcp_cache.is_empty());
    assert!(!runner.grounding_enabled);
}

#[test]
fn previews_are_cut_between_characters() {
    assert_eq!(preview_of(""), "");
    let short = "x".repeat(240);
    assert_eq!(preview_of(&short), short);
    let long = "x".repeat(241);
    assert_eq!(preview_of(&long), format!("{short}…"));
    let mut wide = "x".repeat(239);
    wide.push('é');
    wide.push('y');
    assert_eq!(preview_of(&wide), format!("{}…", "x".repeat(239)));
}

#[test]
fn outliers_are_trimmed_from_three_times_on() {
    assert_eq!(effective_samples(vec![5, 1, 3], true), vec![3]);
    assert_eq!(effective_samples(vec![5, 1, 3], false), vec![1, 3, 5]);
    assert_eq!(effective_samples(vec![5, 1], true), vec![1, 5]);
    assert_eq!(effective_samples(vec![2, 2, 9, 2, 1, 7, 2], true), vec![2, 2, 2, 2, 7]);
    assert!(effective_samples(Vec::new(), true).is_empty());
}

#[test]
fn a_measurement_warms_up_then_records() {
    let config = LatencyConfig {
        warmup_runs: 1,
        measured_runs: 3,
        trim_outliers: true,
    };
    let mut measurement = Measurement::start(&config);
    assert_eq!(measurement.next_step(), MeasureStep::WarmUp);
    measurement.warmed_up();
    assert_eq!(measurement.next_step(), MeasureStep::Measure);
    measurement.record(30, Err("early".to_string()));
    measurement.record(10, Ok("output".to_string()));
    assert_eq!(measurement.final_output(), "output");
    measurement.record(20, Err("late".to_string()));
    assert_eq!(measurement.next_step(), MeasureStep::Finish);
    let report = measurement.finish(4, 2, None, Some("{}".to_string()), None);
    assert_eq!(report.full_output, "output");
    assert_eq!(report.response_bytes, 6);
    assert_eq!(report.response_preview, "output");
    assert_eq!(report.error.as_deref(), Some("late"));
    assert_eq!(report.latency_us, vec![20]);
    assert_eq!(report.tokens, 4);
    assert_eq!(report.naive_tokens, 2);
    assert_eq!(report.args.as_deref(), Some("{}"));
    assert!(report.steps.is_none());
    assert!(!report.reused);
}

#[test]
fn the_usual_measurement_counts_five_times() {
    let runner = BenchmarkRunner::new();
    let mut measurement = Measurement::start(&runner.config);
    let mut warmups = 0;
    let mut runs: u128 = 0;
    loop {
        match measurement.next_step() {
            MeasureStep::WarmUp => {
                assert_eq!(runs, 0);
                warmups += 1;
                measurement.warmed_up();
            }
            MeasureStep::Measure => {
                runs += 1;
                measurement.record(10 * runs, Ok("out".to_string()));
            }
            MeasureStep::Finish => break,
        }
    }
    assert_eq!((warmups, runs), (3, 7));
    let report = runner.run_mcp(measurement, 1, 1, None, "{}".to_string());
    assert_eq!(report.latency_us, vec![20, 30, 40, 50, 60]);
}

#[test]
fn a_success_clears_an_error() {
    let config = LatencyConfig {
        warmup_runs: 0,
        measured_runs: 2,
        trim_outliers: false,
    };
    let mut measurement = Measurement::start(&config);
    measurement.record(1, Err("broken".to_string()));
    measurement.record(2, Ok("fine".to_string()));
    let report = measurement.finish(0, 0, None, None, Some(vec!["Grep".to_string()]));
    assert_eq!(report.error, None);
    assert_eq!(report.full_output, "fine");
    assert_eq!(report.latency_us, vec![1, 2]);
    assert_eq!(report.steps, Some(vec!["Grep".to_string()]));
}

fn scenario(id: &str, tool: &str, tier: u8) -> Scenario {
    Scenario {
        id: id.to_string(),
        tool: tool.to_string(),
        tier,
    }
}

fn scenarios() -> Vec<Scenario> {
    vec![
        scenario("find-main", "qartez_find", 1),
        scenario("map-all", "qartez_map", 2),
        scenario("grep-todo", "qartez_grep", 1),
    ]
}

#[test]
fn scenarios_are_selected_by_tier_and_name() {
    let all = scenarios();
    assert_eq!(select_scenarios(&all, None, 1), vec![0, 2]);
    assert_eq!(select_scenarios(&all, None, 2), vec![0, 1, 2]);
    assert_eq!(select_scenarios(&all, Some("qartez_f"), 2), vec![0]);
    assert_eq!(select_scenarios(&all, Some("todo"), 2), vec![2]);
    assert!(select_scenarios(&all, Some("map"), 1).is_empty());
}

fn measured(output: &str) -> Measured {
    Measured {
        mcp: side(output),
        simulated: Some(side("simulated")),
    }
}

#[test]
fn run_all_reports_on_the_first_tier() {
    let runner = BenchmarkRunner::new();
    let all = scenarios();
    let reports = runner.run_all(&all, None, vec![measured("one"), measured("two")]);
    let with_tier = runner.run_all_with_tier(&all, None, 1, vec![measured("one"), measured("two")]);
    assert_eq!(reports.len(), 2);
    assert_eq!(reports[0].scenario_id, "find-main");
    assert_eq!(reports[1].scenario_id, "grep-todo");
    assert_eq!(reports[1].tool, "qartez_grep");
    assert_eq!(reports[1].mcp.full_output, "two");
    assert_eq!(reports[1].non_mcp.full_output, "simulated");
    for (a, b) in reports.iter().zip(&with_tier) {
        assert_eq!(a.scenario_id, b.scenario_id);
        assert_eq!(a.mcp.full_output, b.mcp.full_output);
    }
}

#[test]
fn a_cached_side_is_reused() {
    let mut cache = NonMcpCache::new();
    cache.insert("find-main", side("cached"));
    let runner = BenchmarkRunner::new()
        .with_non_mcp_cache(cache)
        .with_grounding_enabled(true)
        .with_config(LatencyConfig {
            warmup_runs: 0,
            measured_runs: 1,
            trim_outliers: false,
        });
    let known = scenario("find-main", "qartez_find", 1);
    let unknown = scenario("map-all", "qartez_map", 2);
    assert!(!runner.needs_simulation(&known));
    assert!(runner.needs_simulation(&unknown));
    let report = runner.run_one(
        &known,
        Measured {
            mcp: side("mcp"),
            simulated: None,
        },
    );
    assert_eq!(report.non_mcp.full_output, "cached");
    assert!(report.non_mcp.reused);
    let report = runner.run_one(&unknown, measured("mcp"));
    assert_eq!(report.non_mcp.full_output, "simulated");
    assert!(!report.non_mcp.reused);
    assert_eq!(runner.grounding_for(Some("0.5".to_string())).as_deref(), Some("0.5"));
    let runner = runner.with_grounding_enabled(false);
    assert_eq!(runner.grounding_for(Some("0.5".to_string())), None);
    assert_eq!(runner.config.measured_runs, 1);
}

#[test]
fn a_revision_is_read_from_the_output() {
    assert_eq!(git_sha(true, b"abc1234\n").as_deref(), Some("abc1234"));
    assert_eq!(git_sha(false, b"abc1234\n"), None);
    assert_eq!(git_sha(true, b" \n"), None);
    assert_eq!(git_sha(true, b"ab\xFFcd\n").as_deref(), Some("ab\u{FFFD}cd"));
    assert_eq!(parse_sha("  f00d \n").as_deref(), Some("f00d"));
    assert_eq!(parse_sha(""), None);
}

#[test]
fn both_sides_are_reported() {
    let runner = BenchmarkRunner::new().with_config(LatencyConfig {
        warmup_runs: 0,
        measured_runs: 1,
        trim_outliers: true,
    });
    let measure = || {
        let mut measurement = Measurement::start(&runner.config);
        measurement.record(8, Ok("out".to_string()));
        measurement
    };
    let mcp = runner.run_mcp(measure(), 3, 2, Some("1.0".to_string()), "{}".to_string());
    assert_eq!(mcp.args.as_deref(), Some("{}"));
    assert_eq!(mcp.steps, None);
    assert_eq!(mcp.grounding, None);
    assert_eq!(mcp.latency_us, vec![8]);
    let sim = runner.run_sim(measure(), 3, 2, None, vec!["Read".to_string()]);
    assert_eq!(sim.args, None);
    assert_eq!(sim.steps, Some(vec!["Read".to_string()]));
    assert_eq!(sim.full_output, "out");
}
