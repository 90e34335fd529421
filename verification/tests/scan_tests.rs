use param_probe::bisect::{Action, Bisector};
use param_probe::data::{ReasonKind, Response, ScanConfig, ScanError};
use param_probe::ledger::Ledger;
use param_probe::scan::Scan;

fn base_cfg(max: usize) -> ScanConfig {
    ScanConfig {
        stable_reflections: true,
        stable_body: true,
        reflected_only: false,
        strict: false,
        baseline_code: 200,
        url: String::from("http://target.example/"),
        max,
        concurrency: 1,
    }
}

fn resp(code: u16, diffs: &[&str], reflected: Option<&str>, repeat: bool) -> Response {
    Response {
        code,
        body_length: 100,
        reflected: reflected.map(String::from),
        repeat,
        diffs: diffs.iter().map(|d| String::from(*d)).collect(),
    }
}

fn clean() -> Response {
    resp(200, &[], None, false)
}

fn names_of(v: &[&str]) -> Vec<String> {
    v.iter().map(|s| String::from(*s)).collect()
}

/// Drives a scan against a mock transport until it is done or errors.
/// Returns the number of real probes and of random probes performed.
fn drive(
    scan: &mut Scan,
    on_probe: &mut dyn FnMut(&[String]) -> Result<Response, ()>,
    on_random: &mut dyn FnMut(usize) -> Result<Response, ()>,
) -> Result<(usize, usize), ScanError> {
    let mut probes: usize = 0;
    let mut randoms: usize = 0;
    let mut steps: usize = 0;
    loop {
        steps += 1;
        assert!(steps < 100000, "driver ran away");
        match scan.next() {
            Action::Done => return Ok((probes, randoms)),
            Action::Probe { names } => {
                probes += 1;
                match on_probe(&names) {
                    Ok(r) => scan.on_response(r)?,
                    Err(()) => scan.on_failure()?,
                }
            }
            Action::RandomProbe { arity } => {
                randoms += 1;
                match on_random(arity) {
                    Ok(r) => scan.on_response(r)?,
                    Err(()) => scan.on_failure()?,
                }
            }
        }
    }
}

fn has(names: &[String], wanted: &str) -> bool {
    names.iter().any(|n| n == wanted)
}

#[test]
fn empty_dictionary_probes_nothing() {
    // Boundary: an empty dictionary returns the initial diffs and no
    // findings, without a single probe.
    let initial = names_of(&["known-noise"]);
    let mut scan = Scan::new(base_cfg(8), initial.clone(), Vec::new());
    let (probes, randoms) = drive(
        &mut scan,
        &mut |_| panic!("no probe expected"),
        &mut |_| panic!("no probe expected"),
    )
    .unwrap();
    assert_eq!(probes, 0);
    assert_eq!(randoms, 0);
    let (diffs, found) = scan.finish();
    assert_eq!(diffs, initial);
    assert!(found.is_empty());
}

#[test]
fn clean_responses_find_nothing() {
    // If the baseline matches every probe response, nothing is found and
    // the diffs are unchanged.
    let mut scan = Scan::new(base_cfg(4), Vec::new(), names_of(&["a", "b", "c", "d", "e"]));
    let (probes, _) = drive(&mut scan, &mut |_| Ok(clean()), &mut |_| Ok(clean())).unwrap();
    assert_eq!(probes, 2); // one chunk of four, one of one
    let (diffs, found) = scan.finish();
    assert!(diffs.is_empty());
    assert!(found.is_empty());
}

#[test]
fn single_name_needs_one_probe() {
    // Boundary: a one-name dictionary performs exactly one probe in the
    // non-error path.
    let mut scan = Scan::new(base_cfg(8), Vec::new(), names_of(&["solo"]));
    let (probes, randoms) = drive(&mut scan, &mut |_| Ok(clean()), &mut |_| Ok(clean())).unwrap();
    assert_eq!(probes, 1);
    assert_eq!(randoms, 0);
}

#[test]
fn full_chunk_needs_one_probe() {
    // Boundary: a dictionary of exactly `max` names makes one chunk and one
    // probe when nothing differs.
    let mut scan = Scan::new(base_cfg(3), Vec::new(), names_of(&["a", "b", "c"]));
    let (probes, randoms) = drive(&mut scan, &mut |_| Ok(clean()), &mut |_| Ok(clean())).unwrap();
    assert_eq!(probes, 1);
    assert_eq!(randoms, 0);
}

#[test]
fn pure_reflection_is_recorded() {
    // Scenario: the server echoes `alpha` back; the finding carries the
    // Reflected reason and no diffs.
    let mut scan = Scan::new(base_cfg(8), Vec::new(), names_of(&["alpha", "beta", "gamma"]));
    let (_, _) = drive(
        &mut scan,
        &mut |names| {
            if has(names, "alpha") {
                Ok(resp(200, &[], Some("alpha"), false))
            } else {
                Ok(clean())
            }
        },
        &mut |_| Ok(clean()),
    )
    .unwrap();
    let (_, found) = scan.finish();
    assert_eq!(found.len(), 1);
    assert_eq!(found[0].name, "alpha");
    assert_eq!(found[0].reason, ReasonKind::Reflected);
    assert!(found[0].diffs.is_empty());
}

#[test]
fn lone_name_reflection_is_demoted() {
    // A reflection seen on a one-name chunk cannot be attributed with
    // certainty, so it is recorded as NotReflected.
    let mut scan = Scan::new(base_cfg(8), Vec::new(), names_of(&["solo"]));
    let (_, _) = drive(
        &mut scan,
        &mut |names| {
            if has(names, "solo") {
                Ok(resp(200, &[], Some("solo"), false))
            } else {
                Ok(clean())
            }
        },
        &mut |_| Ok(clean()),
    )
    .unwrap();
    let (_, found) = scan.finish();
    assert_eq!(found.len(), 1);
    assert_eq!(found[0].reason, ReasonKind::NotReflected);
}

#[test]
fn code_difference_is_bisected_to_one_name() {
    // Scenario: the server answers 500 exactly when `c` is present; the
    // bisection narrows the chunk down to `c` alone.
    let mut scan = Scan::new(base_cfg(4), Vec::new(), names_of(&["a", "b", "c", "d"]));
    let (probes, _) = drive(
        &mut scan,
        &mut |names| {
            if has(names, "c") {
                Ok(resp(500, &[], None, false))
            } else {
                Ok(clean())
            }
        },
        &mut |_| Ok(clean()),
    )
    .unwrap();
    let (_, found) = scan.finish();
    assert_eq!(found.len(), 1);
    assert_eq!(found[0].name, "c");
    assert_eq!(found[0].reason, ReasonKind::Code);
    assert_eq!(found[0].diffs, vec![String::from("200 -> 500")]);
    assert_eq!(found[0].status_code, 500);
    assert!(probes <= 5); // ceil(log2(4)) + 1 per branch
}

#[test]
fn text_difference_survives_noise_control() {
    // Scenario: every response carries an unstable timestamp diff; only the
    // token tied to `y` survives the random-control comparison.
    let mut scan = Scan::new(base_cfg(2), Vec::new(), names_of(&["x", "y"]));
    let (_, _) = drive(
        &mut scan,
        &mut |names| {
            if has(names, "y") {
                Ok(resp(200, &["ts", "FOUND-y"], None, false))
            } else {
                Ok(resp(200, &["ts"], None, false))
            }
        },
        &mut |_| Ok(resp(200, &["ts"], None, false)),
    )
    .unwrap();
    let (diffs, found) = scan.finish();
    assert!(diffs.contains(&String::from("ts")));
    assert_eq!(found.len(), 1);
    assert_eq!(found[0].name, "y");
    assert_eq!(found[0].reason, ReasonKind::Text);
    assert!(found[0].diffs.contains(&String::from("FOUND-y")));
}

#[test]
fn unstable_page_aborts_with_url() {
    // Scenario: the server turns 503 for every request; after more than
    // fifty consecutive divergences the control probe confirms the page is
    // unstable and the scan aborts, keeping earlier findings.
    let params: Vec<String> = (0..60).map(|i| format!("p{}", i)).collect();
    let mut scan = Scan::new(base_cfg(1), Vec::new(), params);
    let r = drive(
        &mut scan,
        &mut |_| Ok(resp(503, &[], None, false)),
        &mut |_| Ok(resp(503, &[], None, false)),
    );
    match r {
        Err(ScanError::PageUnstableCode(url)) => {
            assert_eq!(url, "http://target.example/");
        }
        other => panic!("expected PageUnstableCode, got {:?}", other.is_ok()),
    }
    let (_, found) = scan.finish();
    assert_eq!(found.len(), 51);
    assert!(found.iter().all(|f| f.reason == ReasonKind::Code));
}

#[test]
fn strict_mode_deduplicates_signatures() {
    // Scenario: two names produce the identical diff signature; with strict
    // set only the first is recorded, without it both are.
    for (strict, expected) in [(true, 1), (false, 2)] {
        let mut cfg = base_cfg(1);
        cfg.strict = strict;
        let mut scan = Scan::new(cfg, Vec::new(), names_of(&["x", "y"]));
        let (_, _) = drive(
            &mut scan,
            &mut |_| Ok(resp(200, &["D1"], None, false)),
            &mut |_| Ok(clean()),
        )
        .unwrap();
        let (_, found) = scan.finish();
        assert_eq!(found.len(), expected, "strict={}", strict);
    }
}

#[test]
fn transport_flake_is_no_signal() {
    // Scenario: the probe times out but the control probe of the same arity
    // succeeds; the chunk counts as carrying no signal and the ledger is
    // untouched.
    let mut failed = false;
    let mut scan = Scan::new(base_cfg(2), names_of(&["seed"]), names_of(&["x", "y"]));
    let (probes, randoms) = drive(
        &mut scan,
        &mut |_| {
            if !failed {
                failed = true;
                Err(())
            } else {
                Ok(clean())
            }
        },
        &mut |_| Ok(clean()),
    )
    .unwrap();
    assert_eq!(probes, 1);
    assert_eq!(randoms, 1);
    let (diffs, found) = scan.finish();
    assert_eq!(diffs, names_of(&["seed"]));
    assert!(found.is_empty());
}

#[test]
fn dead_server_is_fatal() {
    // Both the probe and its control probe fail at the transport.
    let mut scan = Scan::new(base_cfg(2), Vec::new(), names_of(&["x"]));
    let r = drive(&mut scan, &mut |_| Err(()), &mut |_| Err(()));
    assert!(matches!(r, Err(ScanError::UnreachableServer)));
}

#[test]
fn failed_noise_control_is_fatal() {
    // The random control probe of the body sub-phase fails: the error
    // propagates, as the diff cannot be told from page noise.
    let mut scan = Scan::new(base_cfg(1), Vec::new(), names_of(&["x"]));
    let r = drive(
        &mut scan,
        &mut |_| Ok(resp(200, &["D"], None, false)),
        &mut |_| Err(()),
    );
    assert!(matches!(r, Err(ScanError::ControlProbeFailed)));
}

#[test]
fn reflected_only_skips_code_and_body() {
    // With reflected_only every finding carries a reflection reason, even
    // when the code or the body differs as well.
    let mut cfg = base_cfg(4);
    cfg.reflected_only = true;
    let mut scan = Scan::new(cfg, Vec::new(), names_of(&["a", "b", "c", "d"]));
    let (probes, _) = drive(
        &mut scan,
        &mut |names| {
            if has(names, "a") {
                Ok(resp(500, &["D"], Some("a"), false))
            } else {
                Ok(resp(500, &["D"], None, false))
            }
        },
        &mut |_| Ok(clean()),
    )
    .unwrap();
    assert_eq!(probes, 1);
    let (_, found) = scan.finish();
    assert!(found
        .iter()
        .all(|f| f.reason == ReasonKind::Reflected || f.reason == ReasonKind::NotReflected));
    assert_eq!(found.len(), 1);
    assert_eq!(found[0].name, "a");
}

#[test]
fn rerun_is_deterministic() {
    // Against a deterministic mock server, running the scan twice yields
    // the same findings.
    let run = || {
        let mut scan = Scan::new(base_cfg(2), Vec::new(), names_of(&["a", "b", "c", "d"]));
        drive(
            &mut scan,
            &mut |names| {
                if has(names, "b") {
                    Ok(resp(500, &[], None, false))
                } else if has(names, "d") {
                    Ok(resp(200, &["D-d"], None, false))
                } else {
                    Ok(clean())
                }
            },
            &mut |_| Ok(clean()),
        )
        .unwrap();
        let (_, found) = scan.finish();
        found
            .into_iter()
            .map(|f| (f.name, f.reason))
            .collect::<Vec<_>>()
    };
    let first = run();
    let second = run();
    assert_eq!(first.len(), 2);
    assert_eq!(first, second);
}

#[test]
fn disjoint_diffs_are_both_found() {
    // Two names cause disjoint diffs: both are recorded whatever chunk they
    // started in, and each name appears at most once.
    let mut scan = Scan::new(base_cfg(4), Vec::new(), names_of(&["a", "b", "c", "d"]));
    let (_, _) = drive(
        &mut scan,
        &mut |names| {
            let mut ds: Vec<&str> = Vec::new();
            if has(names, "a") {
                ds.push("DA");
            }
            if has(names, "c") {
                ds.push("DC");
            }
            Ok(resp(200, &ds, None, false))
        },
        &mut |_| Ok(clean()),
    )
    .unwrap();
    let (_, found) = scan.finish();
    let mut names: Vec<&str> = found.iter().map(|f| f.name.as_str()).collect();
    names.sort();
    assert_eq!(names, vec!["a", "c"]);
    assert!(found.len() <= 4);
}

#[test]
fn depth_guard_drops_chunk_without_probing() {
    // A bisection call past depth fifty is dropped: no probe is issued and
    // the ledger is never even handed to the machine.
    let mut bis = Bisector::new_at_depth(names_of(&["a", "b"]), 51);
    assert!(matches!(bis.next(), Action::Done));

    let mut bis2 = Bisector::new_at_depth(names_of(&["a", "b"]), 50);
    assert!(matches!(bis2.next(), Action::Probe { .. }));
}

#[test]
fn bisector_runs_standalone_with_shared_ledger() {
    // Two bisectors sharing one ledger, as a concurrent driver would run
    // them chunk by chunk.
    let cfg = base_cfg(2);
    let mut ledger = Ledger::new(Vec::new());
    for chunk in [names_of(&["a"]), names_of(&["b"])] {
        let mut bis = Bisector::new(chunk);
        loop {
            match bis.next() {
                Action::Done => break,
                Action::Probe { names } => {
                    let r = if has(&names, "b") {
                        resp(500, &[], None, false)
                    } else {
                        clean()
                    };
                    bis.on_response(&cfg, &mut ledger, r).unwrap();
                }
                Action::RandomProbe { .. } => {
                    bis.on_response(&cfg, &mut ledger, clean()).unwrap();
                }
            }
        }
    }
    let found = ledger.found;
    assert_eq!(found.len(), 1);
    assert_eq!(found[0].name, "b");
    assert_eq!(found[0].reason, ReasonKind::Code);
}

#[test]
fn repeat_flag_rechecks_the_shrunken_chunk() {
    // The differ may signal that more reflections remain: the chunk, with
    // the recorded name removed, is probed again.
    let mut scan = Scan::new(base_cfg(4), Vec::new(), names_of(&["a", "b"]));
    let (_, _) = drive(
        &mut scan,
        &mut |names| {
            if has(names, "a") {
                Ok(resp(200, &[], Some("a"), true))
            } else if has(names, "b") {
                Ok(resp(200, &[], Some("b"), false))
            } else {
                Ok(clean())
            }
        },
        &mut |_| Ok(clean()),
    )
    .unwrap();
    let (_, found) = scan.finish();
    let mut names: Vec<&str> = found.iter().map(|f| f.name.as_str()).collect();
    names.sort();
    assert_eq!(names, vec!["a", "b"]);
    // `b` was alone in its re-probed chunk, so its reflection is demoted.
    assert!(found.iter().any(|f| f.name == "b" && f.reason == ReasonKind::NotReflected));
}

#[test]
fn code_transition_renders_all_digit_counts() {
    // The recorded transition string is exact for small and large codes.
    let mut cfg = base_cfg(1);
    cfg.baseline_code = 9;
    let mut scan = Scan::new(cfg, Vec::new(), names_of(&["n"]));
    let (_, _) = drive(
        &mut scan,
        &mut |_| Ok(resp(65535, &[], None, false)),
        &mut |_| Ok(resp(9, &[], None, false)),
    )
    .unwrap();
    let (_, found) = scan.finish();
    assert_eq!(found.len(), 1);
    assert_eq!(found[0].diffs, vec![String::from("9 -> 65535")]);
}

#[test]
fn stable_control_resets_the_code_counter() {
    // The server diverges on every probe, but the random control probe
    // still matches the baseline: the counter is reset and the scan runs
    // to completion, recording every name.
    let params: Vec<String> = (0..60).map(|i| format!("q{}", i)).collect();
    let mut scan = Scan::new(base_cfg(1), Vec::new(), params);
    let r = drive(
        &mut scan,
        &mut |_| Ok(resp(503, &[], None, false)),
        &mut |_| Ok(clean()),
    );
    assert!(r.is_ok());
    let (_, found) = scan.finish();
    assert_eq!(found.len(), 60);
    assert!(found.iter().all(|f| f.reason == ReasonKind::Code));
}

#[test]
fn strict_dedup_compares_joined_signatures() {
    // Strict mode compares joined signatures: an earlier finding with the
    // single diff "a|b" deduplicates later fresh diffs ["a", "b"] — the
    // joined forms agree — so the second chunk sends no control probe and
    // records nothing.
    let mut cfg = base_cfg(1);
    cfg.strict = true;
    let mut scan = Scan::new(cfg, Vec::new(), names_of(&["x", "y"]));
    let (_, randoms) = drive(
        &mut scan,
        &mut |names| {
            if has(names, "x") {
                Ok(resp(200, &["a|b"], None, false))
            } else {
                Ok(resp(200, &["a", "b"], None, false))
            }
        },
        &mut |_| Ok(clean()),
    )
    .unwrap();
    assert_eq!(randoms, 1); // only the first chunk's noise control
    let (_, found) = scan.finish();
    assert_eq!(found.len(), 1);
    assert_eq!(found[0].name, "x");
    assert_eq!(found[0].diffs, vec![String::from("a|b")]);
}
