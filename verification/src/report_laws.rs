//! What the two reports hold, stated on their text: where each section
//! stands, what it says, and that nothing else stands between them.

use vstd::prelude::*;
use crate::report::{
    ascending, class_section, class_sections, failed_tests_report, failure_section,
    failure_sections, law_sorted_classes_ascend, law_sorted_classes_permute, metric_names,
    metric_values, overall_section, sort_by_complexity, timings_report, ClassReport,
    FailedTest, OverallStats,
};
use crate::table::metric_table;
use crate::text::decimal;

verus! {

/// A stretch of the first part of `a + b` is that stretch of `a`, and the
/// second part is `b`.
proof fn lemma_concat_stretches(a: Seq<char>, b: Seq<char>, lo: int, hi: int)
    requires
        0 <= lo <= hi <= a.len(),
    ensures
        (a + b).subrange(lo, hi) == a.subrange(lo, hi),
        (a + b).subrange(a.len() as int, (a.len() + b.len()) as int) == b,
{
    assert((a + b).subrange(lo, hi) =~= a.subrange(lo, hi));
    assert((a + b).subrange(a.len() as int, (a.len() + b.len()) as int) =~= b);
}

/// A stretch of the middle part of `head + body + foot` is the same
/// stretch of `body`, shifted by the length of `head`.
proof fn lemma_middle_stretch(head: Seq<char>, body: Seq<char>, foot: Seq<char>, lo: int, hi: int)
    requires
        0 <= lo <= hi <= body.len(),
    ensures
        (head + body + foot).subrange(head.len() + lo, head.len() + hi) == body.subrange(lo, hi),
{
    assert((head + body + foot).subrange(head.len() + lo, head.len() + hi) =~= body.subrange(
        lo,
        hi,
    ));
}

// ------------------------------------------------------------------
// The failed-evaluations report
// ------------------------------------------------------------------

#[verifier::opaque]
/// How failure number `number` reads in the report: its number, then its
/// expression, value map and error, each in a fenced block.
pub open spec fn failure_block(number: nat, f: FailedTest) -> Seq<char> {
    "## Failure "@ + decimal(number) + "\n\n"@ + "**Expression:**\n"@ + "```\n"@ + f.expr@
        + "\n```\n\n"@ + "**Value Map:**\n"@ + "```json\n"@ + f.value_map_json@
        + "\n```\n\n"@ + "**Error:**\n"@ + "```\n"@ + f.error_message@ + "\n```\n\n"@
        + "---\n\n"@
}

/// The combined length of the blocks of the first `k` failures.
pub open spec fn failure_blocks_len(fs: Seq<FailedTest>, k: nat) -> nat
    decreases k,
{
    if k == 0 {
        0
    } else {
        failure_blocks_len(fs, (k - 1) as nat) + failure_block(k, fs[k - 1]).len()
    }
}

/// The head of the failed-evaluations report for `n` failures.
pub open spec fn failed_report_head(n: nat) -> Seq<char> {
    "# Failed Expression Evaluations\n\n"@ + "Total failures: "@ + decimal(n) + "\n\n"@
}

/// The foot of either report.
pub open spec fn generated_line(generated: Seq<char>) -> Seq<char> {
    "Generated: "@ + generated + "\n"@
}

proof fn lemma_failure_section_is_block(number: nat, f: FailedTest)
    ensures
        failure_section(number, f) == failure_block(number, f),
{
    reveal(failure_section);
    reveal(failure_block);
}

proof fn lemma_failure_sections_layout(fs: Seq<FailedTest>, n: nat)
    requires
        n <= fs.len(),
    ensures
        failure_sections(fs, n).len() == failure_blocks_len(fs, n),
        forall|k: int|
            0 <= k < n ==> #[trigger] failure_sections(fs, n).subrange(
                failure_blocks_len(fs, k as nat) as int,
                failure_blocks_len(fs, (k + 1) as nat) as int,
            ) == failure_block((k + 1) as nat, fs[k]),
    decreases n,
{
    if n > 0 {
        let m = (n - 1) as nat;
        lemma_failure_sections_layout(fs, m);
        let prev = failure_sections(fs, m);
        let sec = failure_section(n, fs[n - 1]);
        lemma_failure_section_is_block(n, fs[n - 1]);
        let all = failure_sections(fs, n);
        assert(all == prev + sec);
        assert forall|k: int| 0 <= k < n implies #[trigger] all.subrange(
            failure_blocks_len(fs, k as nat) as int,
            failure_blocks_len(fs, (k + 1) as nat) as int,
        ) == failure_block((k + 1) as nat, fs[k]) by {
            if k < m {
                lemma_blocks_len_monotone(fs, (k + 1) as nat, m);
                lemma_blocks_len_monotone(fs, k as nat, (k + 1) as nat);
                lemma_concat_stretches(
                    prev,
                    sec,
                    failure_blocks_len(fs, k as nat) as int,
                    failure_blocks_len(fs, (k + 1) as nat) as int,
                );
            } else {
                lemma_concat_stretches(prev, sec, 0, 0);
            }
        }
    }
}

proof fn lemma_blocks_len_monotone(fs: Seq<FailedTest>, a: nat, b: nat)
    requires
        a <= b,
    ensures
        failure_blocks_len(fs, a) <= failure_blocks_len(fs, b),
    decreases b,
{
    if a < b {
        lemma_blocks_len_monotone(fs, a, (b - 1) as nat);
    }
}

/// The failed-evaluations report holds exactly one section per failure,
/// in the order given, whatever the failures hold (equal error texts
/// included): after a head with the number of failures, the `k`-th stretch
/// of the report is "## Failure k" with that failure's expression, value
/// map and error, and after the last one only the generation line follows.
pub proof fn law_failed_report_has_one_section_per_failure(
    fs: Seq<FailedTest>,
    generated: Seq<char>,
)
    ensures
        ({
            let r = failed_tests_report(fs, generated);
            let head = failed_report_head(fs.len());
            let foot = generated_line(generated);
            &&& r.len() == head.len() + failure_blocks_len(fs, fs.len()) + foot.len()
            &&& r.subrange(0, head.len() as int) == head
            &&& r.subrange(r.len() - foot.len(), r.len() as int) == foot
            &&& forall|k: int|
                0 <= k < fs.len() ==> #[trigger] r.subrange(
                    (head.len() + failure_blocks_len(fs, k as nat)) as int,
                    (head.len() + failure_blocks_len(fs, (k + 1) as nat)) as int,
                ) == failure_block((k + 1) as nat, fs[k])
        }),
{
    let r = failed_tests_report(fs, generated);
    let head = failed_report_head(fs.len());
    let foot = generated_line(generated);
    let body = failure_sections(fs, fs.len());
    lemma_failure_sections_layout(fs, fs.len());
    assert(r =~= head + body + foot);
    assert(r.subrange(0, head.len() as int) =~= head);
    assert(r.subrange(r.len() - foot.len(), r.len() as int) =~= foot);
    assert forall|k: int| 0 <= k < fs.len() implies #[trigger] r.subrange(
        (head.len() + failure_blocks_len(fs, k as nat)) as int,
        (head.len() + failure_blocks_len(fs, (k + 1) as nat)) as int,
    ) == failure_block((k + 1) as nat, fs[k]) by {
        lemma_blocks_len_monotone(fs, (k + 1) as nat, fs.len());
        lemma_blocks_len_monotone(fs, k as nat, (k + 1) as nat);
        assert(r.subrange(
            (head.len() + failure_blocks_len(fs, k as nat)) as int,
            (head.len() + failure_blocks_len(fs, (k + 1) as nat)) as int,
        ) =~= body.subrange(
            failure_blocks_len(fs, k as nat) as int,
            failure_blocks_len(fs, (k + 1) as nat) as int,
        ));
    }
}

// ------------------------------------------------------------------
// The timings report
// ------------------------------------------------------------------

/// The overall figures, one per line (the failed evaluations always, zero
/// included), closed by a blank line.
pub open spec fn overall_lines(o: OverallStats) -> Seq<char> {
    "## Overall Statistics\n\n"@ + ("- **Start Time (Local)**: "@ + o.start_time_local@ + "\n"@)
        + ("- **Start Time (UTC)**: "@ + o.start_time_utc@ + "\n"@) + ("- **Input File**: "@
        + o.input_file_path@ + "\n"@) + ("- **Iterations**: "@ + decimal(o.iterations as nat)
        + "\n"@) + ("- **Total Expressions Evaluated**: "@ + decimal(o.total_expressions as nat)
        + "\n"@) + ("- **Total Evaluations Executed**: "@ + decimal(o.total_evaluations as nat)
        + "\n"@) + ("- **Total Execution Time**: "@ + (o.total_time_ms@ + " ms"@) + "\n"@) + (
    "- **Failed Evaluations**: "@ + decimal(o.total_failures as nat) + "\n"@) + "\n"@
}

/// How the report opens: its title, the overall figures, and the heading
/// of the per-class results.
pub open spec fn timings_report_head(o: OverallStats) -> Seq<char> {
    "# Load Test Results - sqlexpr-rust\n\n"@ + overall_lines(o) + "## Results by Complexity Class\n\n"@
}

#[verifier::opaque]
/// How a complexity class reads in the report: a heading with its
/// complexity and its full count of distinct expressions, its table of
/// timings, then its evaluation and expression counts.
pub open spec fn class_block(c: ClassReport) -> Seq<char> {
    ("### Complexity Class "@ + decimal(c.complexity as nat) + " ("@ + decimal(
        c.unique_expressions as nat,
    ) + " expressions)\n\n"@) + metric_table(metric_names(), metric_values(c)) + "\n"@ + (
    "- **Total Evaluations**: "@ + decimal(c.total_evaluations as nat) + "\n"@) + (
    "- **Unique Expressions**: "@ + decimal(c.unique_expressions as nat) + "\n"@) + "\n"@
}

/// The combined length of the blocks of the first `k` classes.
pub open spec fn class_blocks_len(cs: Seq<ClassReport>, k: nat) -> nat
    decreases k,
{
    if k == 0 {
        0
    } else {
        class_blocks_len(cs, (k - 1) as nat) + class_block(cs[k - 1]).len()
    }
}

/// How the timings report closes.
pub open spec fn timings_report_foot(generated: Seq<char>) -> Seq<char> {
    "---\n\n"@ + generated_line(generated)
}

proof fn lemma_class_blocks_len_monotone(cs: Seq<ClassReport>, a: nat, b: nat)
    requires
        a <= b,
    ensures
        class_blocks_len(cs, a) <= class_blocks_len(cs, b),
    decreases b,
{
    if a < b {
        lemma_class_blocks_len_monotone(cs, a, (b - 1) as nat);
    }
}

proof fn lemma_class_section_is_block(c: ClassReport)
    ensures
        class_section(c) == class_block(c),
{
    reveal(class_section);
    reveal(class_block);
}

proof fn lemma_class_sections_layout(cs: Seq<ClassReport>, n: nat)
    requires
        n <= cs.len(),
    ensures
        class_sections(cs.subrange(0, n as int)).len() == class_blocks_len(cs, n),
        forall|k: int|
            0 <= k < n ==> #[trigger] class_sections(cs.subrange(0, n as int)).subrange(
                class_blocks_len(cs, k as nat) as int,
                class_blocks_len(cs, (k + 1) as nat) as int,
            ) == class_block(cs[k]),
    decreases n,
{
    if n > 0 {
        let m = (n - 1) as nat;
        lemma_class_sections_layout(cs, m);
        let part = cs.subrange(0, n as int);
        assert(part.drop_last() =~= cs.subrange(0, m as int));
        assert(part.last() == cs[n - 1]);
        let prev = class_sections(cs.subrange(0, m as int));
        let sec = class_section(cs[n - 1]);
        lemma_class_section_is_block(cs[n - 1]);
        let all = class_sections(part);
        assert(all == prev + sec);
        assert forall|k: int| 0 <= k < n implies #[trigger] all.subrange(
            class_blocks_len(cs, k as nat) as int,
            class_blocks_len(cs, (k + 1) as nat) as int,
        ) == class_block(cs[k]) by {
            if k < m {
                lemma_class_blocks_len_monotone(cs, (k + 1) as nat, m);
                lemma_class_blocks_len_monotone(cs, k as nat, (k + 1) as nat);
                lemma_concat_stretches(
                    prev,
                    sec,
                    class_blocks_len(cs, k as nat) as int,
                    class_blocks_len(cs, (k + 1) as nat) as int,
                );
            } else {
                lemma_concat_stretches(prev, sec, 0, 0);
            }
        }
    }
}

proof fn lemma_timings_report_parts(stats: Seq<ClassReport>, o: OverallStats, generated: Seq<char>)
    ensures
        timings_report(stats, o, generated) == timings_report_head(o) + class_sections(
            sort_by_complexity(stats),
        ) + timings_report_foot(generated),
{
    assert(overall_section(o) == overall_lines(o)) by {
        reveal(overall_section);
    }
    let c = class_sections(sort_by_complexity(stats));
    let x = timings_report_head(o) + c;
    assert(timings_report(stats, o, generated) == x + "---\n\n"@ + "Generated: "@ + generated
        + "\n"@);
    assert(x + "---\n\n"@ + "Generated: "@ + generated + "\n"@ =~= x + timings_report_foot(
        generated,
    ));
}

/// The timings report opens with its title and every overall figure, one
/// per line, in a fixed order: the line of failed evaluations is always
/// there (zero failures included) and stands right before the blank line
/// and the heading of the per-class results.
pub proof fn law_timings_report_opens_with_all_overall_figures(
    stats: Seq<ClassReport>,
    o: OverallStats,
    generated: Seq<char>,
)
    ensures
        ({
            let r = timings_report(stats, o, generated);
            let head = timings_report_head(o);
            r.len() >= head.len() && r.subrange(0, head.len() as int) == head
        }),
{
    lemma_timings_report_parts(stats, o, generated);
    let r = timings_report(stats, o, generated);
    let head = timings_report_head(o);
    assert(r.subrange(0, head.len() as int) =~= head);
}

/// The timings report holds exactly one section per class given, whatever
/// the class holds (no evaluations included), in ascending order of
/// complexity: after the overall figures, the `k`-th stretch of the report
/// is the `k`-th class in that order, headed by its complexity and its full
/// count of distinct expressions, and after the last one only the foot
/// follows.
pub proof fn law_timings_report_has_one_section_per_class(
    stats: Seq<ClassReport>,
    o: OverallStats,
    generated: Seq<char>,
)
    ensures
        ({
            let r = timings_report(stats, o, generated);
            let head = timings_report_head(o);
            let foot = timings_report_foot(generated);
            let sorted = sort_by_complexity(stats);
            &&& sorted.len() == stats.len()
            &&& sorted.to_multiset() == stats.to_multiset()
            &&& ascending(sorted)
            &&& r.len() == head.len() + class_blocks_len(sorted, sorted.len()) + foot.len()
            &&& r.subrange(r.len() - foot.len(), r.len() as int) == foot
            &&& forall|k: int|
                0 <= k < sorted.len() ==> #[trigger] r.subrange(
                    (head.len() + class_blocks_len(sorted, k as nat)) as int,
                    (head.len() + class_blocks_len(sorted, (k + 1) as nat)) as int,
                ) == class_block(sorted[k])
        }),
{
    law_sorted_classes_ascend(stats);
    law_sorted_classes_permute(stats);
    lemma_timings_report_parts(stats, o, generated);
    let r = timings_report(stats, o, generated);
    let head = timings_report_head(o);
    let foot = timings_report_foot(generated);
    let sorted = sort_by_complexity(stats);
    let n = sorted.len();
    lemma_class_sections_layout(sorted, n);
    assert(sorted.subrange(0, n as int) =~= sorted);
    let body = class_sections(sorted);
    assert(r == head + body + foot);
    assert(r.subrange(r.len() - foot.len(), r.len() as int) =~= foot);
    assert forall|k: int| 0 <= k < n implies #[trigger] r.subrange(
        (head.len() + class_blocks_len(sorted, k as nat)) as int,
        (head.len() + class_blocks_len(sorted, (k + 1) as nat)) as int,
    ) == class_block(sorted[k]) by {
        lemma_class_blocks_len_monotone(sorted, (k + 1) as nat, n);
        lemma_class_blocks_len_monotone(sorted, k as nat, (k + 1) as nat);
        lemma_middle_stretch(
            head,
            body,
            foot,
            class_blocks_len(sorted, k as nat) as int,
            class_blocks_len(sorted, (k + 1) as nat) as int,
        );
    }
}

} // verus!
