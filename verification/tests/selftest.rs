use clippy_lib::selftest::{pretty_step, pretty_summary, CheckStatus, CheckTally};

#[test]
fn tally_counts_required_and_optional() {
    let mut t = CheckTally::new();
    t.record(true, CheckStatus::Pass);
    t.record(true, CheckStatus::Pass);
    t.record(false, CheckStatus::Skip);
    t.record(false, CheckStatus::Fail);
    assert_eq!((t.required_passed, t.required_total, t.optional_passed, t.optional_total), (2, 2, 1, 2));
    assert!(t.passed());
    t.record(true, CheckStatus::Skip);
    assert_eq!((t.required_passed, t.required_total), (2, 3));
    assert!(!t.passed());
}

#[test]
fn report_lines() {
    assert_eq!(
        pretty_step("d3d11_device", true, CheckStatus::Pass, "D3D11 hardware device created"),
        "[PASS] d3d11_device (required)\n        D3D11 hardware device created"
    );
    assert_eq!(pretty_step("hw", false, CheckStatus::Skip, ""), "[SKIP] hw (optional)\n        ");
    let mut t = CheckTally::new();
    t.record(true, CheckStatus::Fail);
    t.record(false, CheckStatus::Pass);
    assert_eq!(pretty_summary(&t), "\nSummary: required 0/1, optional 1/1 \u{2014} fail");
    assert_eq!(pretty_summary(&CheckTally::new()), "\nSummary: required 0/0, optional 0/0 \u{2014} ok");
}
