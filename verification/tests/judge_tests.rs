use chainsaw::judge::{extract_bench_name, extract_json_string, Verdict};
use chainsaw::report::relative_path;

#[test]
fn verdict_fail_is_fail() {
    assert!(Verdict::Fail.is_fail());
    assert!(!Verdict::Pass.is_fail());
    assert!(!Verdict::Faster.is_fail());
    assert_eq!(Verdict::Fail.label(), "FAIL");
    assert_eq!(Verdict::Pass.label(), "pass");
}

#[test]
fn extract_json_string_reads_first_value() {
    let json = "{\"overall\": \"pass\", \"tree_sha\": \"abc123\"}";
    assert_eq!(extract_json_string(json, "overall"), Some("pass".to_string()));
    assert_eq!(extract_json_string(json, "tree_sha"), Some("abc123".to_string()));
    assert_eq!(extract_json_string(json, "missing"), None);
}

#[test]
fn extract_bench_name_strips_criterion_prefix() {
    assert_eq!(extract_bench_name("target/criterion/ts_resolve/"), "ts_resolve");
    assert_eq!(extract_bench_name("target/criterion/ts_resolve"), "ts_resolve");
    assert_eq!(extract_bench_name("some/dir/bench"), "bench");
    assert_eq!(extract_bench_name("bench"), "bench");
}

#[test]
fn relative_path_strips_root() {
    assert_eq!(relative_path(&"/w/app/src/a.ts".to_string(), &"/w/app".to_string()), "src/a.ts");
    assert_eq!(relative_path(&"/elsewhere/a.ts".to_string(), &"/w/app".to_string()), "/elsewhere/a.ts");
    assert_eq!(relative_path(&"/w/app".to_string(), &"/w/app".to_string()), "");
}
