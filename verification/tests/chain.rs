use x_planets_core::scalar::Real64;
use x_planets_core::verify_chain::{
    check_load_requests, check_mesh_centered, check_mesh_sizes, check_parent_child, conclude,
    phase1_chain, phase1_name, ChainResult, StepResult, VerifyChain,
};

type Step = Box<dyn Fn() -> StepResult>;

fn r64(v: f64) -> Real64 {
    Real64 { bits: v.to_bits() }
}

#[test]
fn test_step_result_constructors() {
    assert!(StepResult::pass().passed);
    assert!(!StepResult::fail("oops").passed);

    let r = StepResult::pass_with("good").with_metric("acc", r64(0.99));
    assert!(r.passed);
    assert_eq!(r.metric("acc"), Some(r64(0.99)));
}

#[test]
fn test_verify_chain_all_pass() {
    let mut chain: VerifyChain<Step> = VerifyChain::new();
    chain.add("always pass", Box::new(|| StepResult::pass()));
    chain.add("also pass", Box::new(|| StepResult::pass_with("ok")));

    let result = chain.run();
    assert!(result.is_ok());
}

#[test]
fn test_verify_chain_stops_on_failure() {
    let mut chain: VerifyChain<Step> = VerifyChain::new();
    chain.add("pass", Box::new(|| StepResult::pass()));
    chain.add("fail", Box::new(|| StepResult::fail("broken")));
    chain.add("never reached", Box::new(|| panic!("should not run after failure")));

    let result = chain.run();
    assert!(!result.is_ok());
    match result {
        ChainResult::Failed { step, name } => {
            assert_eq!(step, 1);
            assert_eq!(name, "fail");
        }
        _ => panic!("expected failure"),
    }
}

/// Mercator on the unit square, for the steps that need real arithmetic.
fn to_mercator(lat: f64, lon: f64) -> (f64, f64) {
    let r = lat.to_radians();
    let y = (1.0 - (r.tan() + 1.0 / r.cos()).ln() / std::f64::consts::PI) / 2.0;
    ((lon + 180.0) / 360.0, y)
}

fn from_mercator(x: f64, y: f64) -> (f64, f64) {
    let n = std::f64::consts::PI * (1.0 - 2.0 * y);
    (n.sinh().atan().to_degrees(), x * 360.0 - 180.0)
}

fn normalize() -> StepResult {
    let (lat, lon) = (100.0f64.clamp(-90.0, 90.0), (200.0f64 + 180.0).rem_euclid(360.0) - 180.0);
    if (lat - 90.0).abs() > 1e-10 || (lon + 160.0).abs() > 1e-10 {
        return StepResult::fail("should be 90, -160");
    }
    StepResult::pass()
}

fn cities() -> StepResult {
    let cities = [
        (51.5074, -0.1278),
        (35.6762, 139.6503),
        (40.7128, -74.0060),
        (-33.8688, 151.2093),
        (-23.5505, -46.6333),
        (37.5665, 126.9780),
    ];
    let mut worst = 0.0f64;
    for (lat, lon) in cities {
        let (x, y) = to_mercator(lat, lon);
        let (a, b) = from_mercator(x, y);
        worst = worst.max((a - lat).hypot(b - lon));
    }
    if worst < 1e-10 {
        StepResult::pass().with_metric("max_roundtrip_error", r64(worst))
    } else {
        StepResult::fail("roundtrip")
    }
}

fn containment() -> StepResult {
    let points =
        [(0.0, 0.0), (51.5, -0.1), (-33.9, 151.2), (37.6, 127.0), (85.0, 0.0), (-85.0, 0.0)];
    for (lat, lon) in points {
        for z in 0..=18u32 {
            let n = (1u32 << z) as f64;
            let (mx, my) = to_mercator(lat, lon);
            let (tx, ty) = ((mx * n).floor(), (my * n).floor());
            let (north, west) = from_mercator(tx / n, ty / n);
            let (south, east) = from_mercator((tx + 1.0) / n, (ty + 1.0) / n);
            let e = 1e-9;
            if lat > north + e || lat < south - e || lon < west - e || lon > east + e {
                return StepResult::fail("tile does not contain its coordinate");
            }
        }
    }
    StepResult::pass()
}

fn known_values() -> StepResult {
    for (lat, lon, ex, ey) in [(0.0, 0.0, 0.5, 0.5), (0.0, -180.0, 0.0, 0.5), (0.0, 180.0, 1.0, 0.5)]
    {
        let (x, y) = to_mercator(lat, lon);
        if (x - ex).hypot(y - ey) > 1e-6 {
            return StepResult::fail("known value");
        }
    }
    StepResult::pass_with("all known values match")
}

fn thousand_points() -> StepResult {
    let mut worst = 0.0f64;
    for i in 0..50 {
        let lat = -80.0 + 160.0 * (i as f64 / 49.0);
        for j in 0..20 {
            let lon = -179.0 + 358.0 * (j as f64 / 19.0);
            let (x, y) = to_mercator(lat, lon);
            let (a, b) = from_mercator(x, y);
            worst = worst.max((a - lat).hypot(b - lon));
        }
    }
    if worst < 1e-8 {
        StepResult::pass()
    } else {
        StepResult::fail("roundtrip")
    }
}

#[test]
fn test_phase1_chain_passes() {
    let host: Vec<fn() -> StepResult> =
        vec![normalize, cities, containment, known_values, thousand_points];
    let chain = phase1_chain(host);
    let result = chain.run();
    assert!(result.is_ok(), "Phase 1 verification chain should pass");
    assert!(matches!(result, ChainResult::AllPassed { steps: 9 }));
}

#[test]
fn the_standard_chain_reports_the_platforms_failure() {
    for bad in 0..5usize {
        let host: Vec<Step> = (0..5usize)
            .map(|k| {
                let step: Step = Box::new(move || {
                    if k == bad {
                        StepResult::fail("no")
                    } else if k > bad {
                        panic!("ran after a failure")
                    } else {
                        StepResult::pass()
                    }
                });
                step
            })
            .collect();
        let expected = [0, 1, 2, 4, 5][bad];
        match phase1_chain(host).run() {
            ChainResult::Failed { step, name } => {
                assert_eq!(step, expected);
                assert_eq!(name, phase1_name(expected));
            }
            _ => panic!("expected failure"),
        }
    }
}

#[test]
fn own_steps_pass() {
    let r = check_parent_child();
    assert!(r.passed);
    assert_eq!(r.details, "0 parent/child mismatches");
    assert_eq!(r.metric("failures"), Some(r64(0.0)));
    assert!(check_mesh_centered().passed);
    let r = check_mesh_sizes();
    assert!(r.passed);
    assert_eq!(r.details, "16 vertices, 4 tiles");
    assert!(check_load_requests().passed);
}

#[test]
fn metrics_are_replaced_by_name() {
    let r = StepResult::fail("x")
        .with_metric("a", r64(1.0))
        .with_metric("b", r64(2.0))
        .with_metric("a", r64(3.0));
    assert!(!r.passed);
    assert_eq!(r.details, "x");
    assert_eq!(r.metric("a"), Some(r64(3.0)));
    assert_eq!(r.metric("b"), Some(r64(2.0)));
    assert_eq!(r.metric("c"), None);
    assert_eq!(r.metrics.len(), 2);
}

#[test]
fn conclusions_from_outcomes() {
    let names: Vec<String> = ["a", "b", "c"].iter().map(|s| s.to_string()).collect();
    assert!(matches!(conclude(&names, &[true, true, true]), ChainResult::AllPassed { steps: 3 }));
    match conclude(&names, &[true, false, false]) {
        ChainResult::Failed { step, name } => {
            assert_eq!(step, 1);
            assert_eq!(name, "b");
        }
        _ => panic!("expected failure"),
    }
    assert!(conclude(&[], &[]).is_ok());
}

#[test]
fn an_empty_chain_passes() {
    let chain: VerifyChain<fn() -> StepResult> = VerifyChain::new();
    assert!(matches!(chain.run(), ChainResult::AllPassed { steps: 0 }));
}

#[test]
fn step_names() {
    assert_eq!(phase1_name(0), "GeoCoord normalize clamps correctly");
    assert_eq!(phase1_name(3), "TileCoord parent/child consistency");
    assert_eq!(phase1_name(8), "compute_load_requests: excludes cached tiles");
}
