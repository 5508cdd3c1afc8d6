use sqlexpr_load_congo_rust::report::{
    generate_failed_tests_report, generate_timings_report, sort_classes, ClassReport, FailedTest,
    OverallStats,
};

/// Figures of a class as the harness measures them, in seconds.
struct Measured {
    complexity: usize,
    total_evaluations: usize,
    unique_expressions: usize,
    total: f64,
    min: f64,
    max: f64,
    avg: f64,
    stdev: f64,
}

fn class_report(m: &Measured) -> ClassReport {
    ClassReport {
        complexity: m.complexity,
        total_evaluations: m.total_evaluations,
        unique_expressions: m.unique_expressions,
        total_time_ms: format!("{:.6}", m.total * 1000.0),
        min_time_ms: format!("{:.6}", m.min * 1000.0),
        max_time_ms: format!("{:.6}", m.max * 1000.0),
        avg_time_ms: format!("{:.6}", m.avg * 1000.0),
        stdev_ms: format!("{:.6}", m.stdev * 1000.0),
    }
}

/// The report as the harness writes it, every timing with six decimals,
/// with fixed timestamps.
fn expected_timings_report(
    mut stats: Vec<Measured>,
    local: &str,
    utc: &str,
    path: &str,
    iterations: usize,
    total_expressions: usize,
    total_evaluations: usize,
    total_time_secs: f64,
    total_failures: usize,
    generated: &str,
) -> String {
    stats.sort_by_key(|s| s.complexity);
    let mut report = String::new();
    report.push_str("# Load Test Results - sqlexpr-rust\n\n");
    report.push_str("## Overall Statistics\n\n");
    report.push_str(&format!("- **Start Time (Local)**: {}\n", local));
    report.push_str(&format!("- **Start Time (UTC)**: {}\n", utc));
    report.push_str(&format!("- **Input File**: {}\n", path));
    report.push_str(&format!("- **Iterations**: {}\n", iterations));
    report.push_str(&format!("- **Total Expressions Evaluated**: {}\n", total_expressions));
    report.push_str(&format!("- **Total Evaluations Executed**: {}\n", total_evaluations));
    report.push_str(&format!("- **Total Execution Time**: {:.6} ms\n", total_time_secs * 1000.0));
    report.push_str(&format!("- **Failed Evaluations**: {}\n\n", total_failures));
    report.push_str("## Results by Complexity Class\n\n");
    for stat in stats {
        report.push_str(&format!(
            "### Complexity Class {} ({} expressions)\n\n",
            stat.complexity, stat.unique_expressions
        ));
        let metrics = vec![
            ("Total Time", stat.total * 1000.0),
            ("Min Time", stat.min * 1000.0),
            ("Max Time", stat.max * 1000.0),
            ("Average Time", stat.avg * 1000.0),
            ("Std Deviation", stat.stdev * 1000.0),
        ];
        let metric_col_width = metrics.iter().map(|(name, _)| name.len()).max().unwrap_or(6).max(6);
        let ms_col_width = metrics
            .iter()
            .map(|(_, value)| format!("{:.6}", value).len())
            .max()
            .unwrap_or(13)
            .max(13);
        let metric_width = metric_col_width + 2;
        let ms_width = ms_col_width + 2;
        let metric_header = format!("{:^width$}", "Metric", width = metric_width);
        let ms_header = format!("{:^width$}", "Milliseconds", width = ms_width);
        report.push_str(&format!("|{}|{}|\n", metric_header, ms_header));
        report.push_str(&format!("|{}|{}|\n", "-".repeat(metric_width), "-".repeat(ms_width)));
        for (metric_name, value) in metrics {
            let metric_cell = format!("{:width$}", format!(" {}", metric_name), width = metric_width);
            let value_cell = format!("{:>width$.6} ", value, width = ms_width - 1);
            report.push_str(&format!("|{}|{}|\n", metric_cell, value_cell));
        }
        report.push('\n');
        report.push_str(&format!("- **Total Evaluations**: {}\n", stat.total_evaluations));
        report.push_str(&format!("- **Unique Expressions**: {}\n\n", stat.unique_expressions));
    }
    report.push_str("---\n\n");
    report.push_str(&format!("Generated: {}\n", generated));
    report
}

fn measured(complexity: usize, scale: f64) -> Measured {
    Measured {
        complexity,
        total_evaluations: 3 * complexity + 1,
        unique_expressions: complexity + 2,
        total: 0.006 * scale,
        min: 0.001 * scale,
        max: 0.003 * scale,
        avg: 0.002 * scale,
        stdev: 0.001 * scale,
    }
}

fn overall(total_time_secs: f64) -> OverallStats {
    OverallStats {
        input_file_path: "/data/resources/complex_expressions-max.json".to_string(),
        start_time_local: "2026-03-09 10:11:12 +01:00".to_string(),
        start_time_utc: "2026-03-09 09:11:12 UTC".to_string(),
        iterations: 3,
        total_expressions: 12,
        total_evaluations: 36,
        total_time_ms: format!("{:.6}", total_time_secs * 1000.0),
        total_failures: 2,
    }
}

fn check_timings(ms: Vec<Measured>, total_time_secs: f64) {
    let reports: Vec<ClassReport> = ms.iter().map(class_report).collect();
    let got = generate_timings_report(reports, overall(total_time_secs), "2026-03-09 10:20:00");
    let expected = expected_timings_report(
        ms,
        "2026-03-09 10:11:12 +01:00",
        "2026-03-09 09:11:12 UTC",
        "/data/resources/complex_expressions-max.json",
        3,
        12,
        36,
        total_time_secs,
        2,
        "2026-03-09 10:20:00",
    );
    assert_eq!(got, expected);
}

#[test]
fn timings_report_matches_the_established_layout() {
    check_timings(vec![measured(2, 1.0), measured(0, 0.5), measured(1, 2.0)], 0.0185);
}

#[test]
fn timings_report_widens_columns_for_long_values() {
    // Values wider than the 13-character minimum widen the value column.
    check_timings(vec![measured(4, 1.0e9), measured(3, 1.0e12)], 12345.678);
}

#[test]
fn timings_report_without_classes() {
    check_timings(vec![], 0.0);
}

#[test]
fn timings_report_table_exact_text() {
    let m = measured(5, 1.0);
    let got = generate_timings_report(vec![class_report(&m)], overall(0.006), "now");
    let table = "\
|    Metric     | Milliseconds  |
|---------------|---------------|
| Total Time    |      6.000000 |
| Min Time      |      1.000000 |
| Max Time      |      3.000000 |
| Average Time  |      2.000000 |
| Std Deviation |      1.000000 |
";
    assert!(got.contains(table));
    assert!(got.contains("### Complexity Class 5 (7 expressions)\n\n"));
    assert!(got.ends_with("---\n\nGenerated: now\n"));
}

#[test]
fn classes_are_sorted_stably_by_complexity() {
    let mut a = class_report(&measured(3, 1.0));
    a.stdev_ms = "first".to_string();
    let mut b = class_report(&measured(3, 1.0));
    b.stdev_ms = "second".to_string();
    let c = class_report(&measured(1, 1.0));
    let sorted = sort_classes(vec![a, c, b]);
    let keys: Vec<usize> = sorted.iter().map(|r| r.complexity).collect();
    assert_eq!(keys, vec![1, 3, 3]);
    assert_eq!(sorted[1].stdev_ms, "first");
    assert_eq!(sorted[2].stdev_ms, "second");
}

fn expected_failed_report(failures: &[(&str, &str, &str)], generated: &str) -> String {
    let mut report = String::new();
    report.push_str("# Failed Expression Evaluations\n\n");
    report.push_str(&format!("Total failures: {}\n\n", failures.len()));
    for (i, (expr, json, err)) in failures.iter().enumerate() {
        report.push_str(&format!("## Failure {}\n\n", i + 1));
        report.push_str("**Expression:**\n");
        report.push_str("```\n");
        report.push_str(expr);
        report.push_str("\n```\n\n");
        report.push_str("**Value Map:**\n");
        report.push_str("```json\n");
        report.push_str(json);
        report.push_str("\n```\n\n");
        report.push_str("**Error:**\n");
        report.push_str("```\n");
        report.push_str(err);
        report.push_str("\n```\n\n");
        report.push_str("---\n\n");
    }
    report.push_str(&format!("Generated: {}\n", generated));
    report
}

#[test]
fn failed_report_numbers_each_failure() {
    let raw = [
        ("a = 1 AND b", "{\n  \"a\": 1\n}", "ParseError"),
        ("x > 'é'", "{}", "Value map conversion error: Unsupported JSON value type: Array []"),
    ];
    let failures: Vec<FailedTest> = raw
        .iter()
        .map(|(e, j, m)| FailedTest {
            expr: e.to_string(),
            value_map_json: j.to_string(),
            error_message: m.to_string(),
        })
        .collect();
    let got = generate_failed_tests_report(&failures, "2026-03-09 10:20:00");
    assert_eq!(got, expected_failed_report(&raw, "2026-03-09 10:20:00"));
    assert!(got.contains("Total failures: 2\n"));
    assert!(got.contains("## Failure 2\n"));
}

#[test]
fn failed_report_without_failures() {
    let got = generate_failed_tests_report(&[], "t");
    assert_eq!(got, "# Failed Expression Evaluations\n\nTotal failures: 0\n\nGenerated: t\n");
}

#[test]
fn table_lines_share_one_width() {
    let mut c = class_report(&measured(1, 1.0));
    c.max_time_ms = "123456789012345678.000000".to_string();
    let got = generate_timings_report(vec![c], overall(1.0), "now");
    let lines: Vec<&str> = got.lines().filter(|l| l.starts_with('|')).collect();
    assert_eq!(lines.len(), 7);
    let width = lines[0].chars().count();
    assert!(lines.iter().all(|l| l.chars().count() == width));
    assert_eq!(width, 15 + (25 + 2) + 3);
}

#[test]
fn report_does_not_depend_on_class_order() {
    let ms = [measured(2, 1.0), measured(0, 0.5), measured(1, 2.0)];
    let forward: Vec<ClassReport> = ms.iter().map(class_report).collect();
    let backward: Vec<ClassReport> = ms.iter().rev().map(class_report).collect();
    assert_eq!(
        generate_timings_report(forward, overall(0.5), "now"),
        generate_timings_report(backward, overall(0.5), "now")
    );
}
