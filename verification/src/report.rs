//! The two Markdown reports of a load-test run: the timings by complexity
//! class, and the list of failed evaluations.
//!
//! The reports are laid out here from plain values. Timings arrive already
//! rendered as millisecond text, timestamps as formatted text, and a failed
//! evaluation's value map as its pretty-printed JSON.

use vstd::prelude::*;
use vstd::string::*;
use crate::table::{label_width, max_width, metric_table, push_table, table_fits, texts, value_width};
use crate::text::{byte_len, decimal, push_decimal};

verus! {

/// The figures of one complexity class, ready for the report.
pub struct ClassReport {
    /// The complexity class (number of logical operators).
    pub complexity: usize,
    /// Number of evaluations timed in the class.
    pub total_evaluations: usize,
    /// Number of distinct expressions in the class.
    pub unique_expressions: usize,
    /// Total time, in milliseconds, as text.
    pub total_time_ms: String,
    /// Shortest time, in milliseconds, as text.
    pub min_time_ms: String,
    /// Longest time, in milliseconds, as text.
    pub max_time_ms: String,
    /// Mean time, in milliseconds, as text.
    pub avg_time_ms: String,
    /// Sample standard deviation, in milliseconds, as text.
    pub stdev_ms: String,
}

/// Overall figures of a run.
pub struct OverallStats {
    /// Canonical path of the input file.
    pub input_file_path: String,
    /// Start of processing, local time, formatted.
    pub start_time_local: String,
    /// Start of processing, UTC, formatted.
    pub start_time_utc: String,
    /// Evaluations per expression.
    pub iterations: usize,
    /// Expressions evaluated without failure.
    pub total_expressions: usize,
    /// Evaluations executed.
    pub total_evaluations: usize,
    /// Total execution time, in milliseconds, as text.
    pub total_time_ms: String,
    /// Failed evaluations.
    pub total_failures: usize,
}

/// An expression whose evaluation failed.
pub struct FailedTest {
    /// The expression.
    pub expr: String,
    /// Its value map, pretty-printed as JSON.
    pub value_map_json: String,
    /// Why it failed.
    pub error_message: String,
}

// ------------------------------------------------------------------
// Ordering the classes
// ------------------------------------------------------------------

/// The position at or after `i` where a class of complexity `key` goes in
/// the ordered `sorted`: before the first class of greater complexity.
pub open spec fn insert_index(sorted: Seq<ClassReport>, key: usize, i: nat) -> nat
    decreases sorted.len() - i,
{
    if i >= sorted.len() {
        i
    } else if sorted[i as int].complexity > key {
        i
    } else {
        insert_index(sorted, key, i + 1)
    }
}

/// The classes ordered by ascending complexity; classes of equal complexity
/// keep their relative order (a stable sort by complexity).
pub open spec fn sort_by_complexity(s: Seq<ClassReport>) -> Seq<ClassReport>
    decreases s.len(),
{
    if s.len() == 0 {
        s
    } else {
        let sorted = sort_by_complexity(s.drop_last());
        sorted.insert(insert_index(sorted, s.last().complexity, 0) as int, s.last())
    }
}

/// The ordered classes are in ascending order of complexity.
pub open spec fn ascending(s: Seq<ClassReport>) -> bool {
    forall|i: int, j: int| 0 <= i < j < s.len() ==> s[i].complexity <= s[j].complexity
}

proof fn lemma_insert_index_bounds(sorted: Seq<ClassReport>, key: usize, i: nat)
    requires
        i <= sorted.len(),
    ensures
        i <= insert_index(sorted, key, i) <= sorted.len(),
        forall|k: int|
            i <= k < insert_index(sorted, key, i) ==> sorted[k].complexity <= key,
        insert_index(sorted, key, i) < sorted.len() ==> sorted[insert_index(
            sorted,
            key,
            i,
        ) as int].complexity > key,
    decreases sorted.len() - i,
{
    if i < sorted.len() && sorted[i as int].complexity <= key {
        lemma_insert_index_bounds(sorted, key, i + 1);
    }
}

/// The result of the ordering is in ascending order of complexity.
pub proof fn law_sorted_classes_ascend(s: Seq<ClassReport>)
    ensures
        ascending(sort_by_complexity(s)),
        sort_by_complexity(s).len() == s.len(),
    decreases s.len(),
{
    if s.len() > 0 {
        let sorted = sort_by_complexity(s.drop_last());
        law_sorted_classes_ascend(s.drop_last());
        let x = s.last();
        let p = insert_index(sorted, x.complexity, 0);
        lemma_insert_index_bounds(sorted, x.complexity, 0);
        let r = sorted.insert(p as int, x);
        assert forall|i: int, j: int| 0 <= i < j < r.len() implies r[i].complexity
            <= r[j].complexity by {
            if j < p {
            } else if j == p {
                assert(sorted[i].complexity <= x.complexity);
            } else if i < p {
                assert(r[j] == sorted[j - 1]);
                assert(sorted[i].complexity <= sorted[j - 1].complexity);
            } else if i == p {
                assert(r[j] == sorted[j - 1]);
                assert(sorted[p as int].complexity > x.complexity);
                assert(sorted[p as int].complexity <= sorted[j - 1].complexity);
            } else {
                assert(r[i] == sorted[i - 1]);
                assert(r[j] == sorted[j - 1]);
            }
        }
    }
}

/// The ordering neither loses nor adds a class: it is a permutation.
pub proof fn law_sorted_classes_permute(s: Seq<ClassReport>)
    ensures
        sort_by_complexity(s).to_multiset() == s.to_multiset(),
    decreases s.len(),
{
    broadcast use vstd::seq_lib::group_to_multiset_ensures;

    if s.len() > 0 {
        let sorted = sort_by_complexity(s.drop_last());
        law_sorted_classes_permute(s.drop_last());
        lemma_insert_index_bounds(sorted, s.last().complexity, 0);
        let p = insert_index(sorted, s.last().complexity, 0) as int;
        let r = sorted.insert(p, s.last());
        assert(r =~= sorted.subrange(0, p).push(s.last()) + sorted.subrange(p, sorted.len() as int));
        assert(sorted =~= sorted.subrange(0, p) + sorted.subrange(p, sorted.len() as int));
        vstd::seq_lib::lemma_multiset_commutative(
            sorted.subrange(0, p).push(s.last()),
            sorted.subrange(p, sorted.len() as int),
        );
        vstd::seq_lib::lemma_multiset_commutative(
            sorted.subrange(0, p),
            sorted.subrange(p, sorted.len() as int),
        );
        assert(s =~= s.drop_last().push(s.last()));
    }
}

/// No two classes share a complexity.
pub open spec fn distinct_complexities(s: Seq<ClassReport>) -> bool {
    forall|i: int, j: int|
        0 <= i < s.len() && 0 <= j < s.len() && i != j ==> s[i].complexity != s[j].complexity
}

proof fn lemma_sorted_elements(s: Seq<ClassReport>)
    ensures
        forall|i: int|
            #![trigger sort_by_complexity(s)[i]]
            0 <= i < sort_by_complexity(s).len() ==> exists|j: int|
                0 <= j < s.len() && sort_by_complexity(s)[i] == #[trigger] s[j],
    decreases s.len(),
{
    law_sorted_classes_ascend(s);
    if s.len() > 0 {
        let d = s.drop_last();
        let sorted = sort_by_complexity(d);
        lemma_sorted_elements(d);
        law_sorted_classes_ascend(d);
        lemma_insert_index_bounds(sorted, s.last().complexity, 0);
        let p = insert_index(sorted, s.last().complexity, 0) as int;
        let r = sorted.insert(p, s.last());
        assert forall|i: int| #![trigger r[i]] 0 <= i < r.len() implies exists|j: int|
            0 <= j < s.len() && r[i] == #[trigger] s[j] by {
            if i == p {
                assert(r[i] == s[s.len() - 1]);
            } else {
                let i2 = if i < p {
                    i
                } else {
                    i - 1
                };
                assert(r[i] == sorted[i2]);
                let j = choose|j: int| 0 <= j < d.len() && sorted[i2] == #[trigger] d[j];
                assert(r[i] == s[j]);
            }
        }
    }
}

proof fn lemma_sorted_distinct(s: Seq<ClassReport>)
    requires
        distinct_complexities(s),
    ensures
        distinct_complexities(sort_by_complexity(s)),
    decreases s.len(),
{
    if s.len() > 0 {
        let d = s.drop_last();
        let sorted = sort_by_complexity(d);
        lemma_sorted_distinct(d);
        lemma_sorted_elements(d);
        law_sorted_classes_ascend(d);
        lemma_insert_index_bounds(sorted, s.last().complexity, 0);
        let p = insert_index(sorted, s.last().complexity, 0) as int;
        let r = sorted.insert(p, s.last());
        assert forall|k: int| 0 <= k < sorted.len() implies sorted[k].complexity
            != s.last().complexity by {
            let j = choose|j: int| 0 <= j < d.len() && sorted[k] == #[trigger] d[j];
            assert(s[j] == d[j]);
        }
        assert forall|i: int, j: int|
            0 <= i < r.len() && 0 <= j < r.len() && i != j implies r[i].complexity
            != r[j].complexity by {
            let i2 = if i < p {
                i
            } else {
                i - 1
            };
            let j2 = if j < p {
                j
            } else {
                j - 1
            };
            if i != p && j != p {
                assert(r[i] == sorted[i2]);
                assert(r[j] == sorted[j2]);
            } else if i == p {
                assert(r[j] == sorted[j2]);
            } else {
                assert(r[i] == sorted[i2]);
            }
        }
    }
}

/// Two ascending orderings of the same classes are the same where the
/// second has no repeated complexity.
proof fn lemma_ascending_unique(x: Seq<ClassReport>, y: Seq<ClassReport>)
    requires
        ascending(x),
        ascending(y),
        distinct_complexities(y),
        x.to_multiset() == y.to_multiset(),
    ensures
        x == y,
    decreases x.len(),
{
    broadcast use vstd::seq_lib::group_to_multiset_ensures;
    broadcast use vstd::multiset::group_multiset_axioms;

    assert(x.len() == x.to_multiset().len());
    assert(y.len() == y.to_multiset().len());
    if x.len() == 0 {
        assert(x =~= y);
    } else {
        let n = x.len() as int;
        let xl = x.last();
        let yl = y.last();
        assert(x.contains(xl)) by {
            assert(x[n - 1] == xl);
        }
        assert(y.contains(yl)) by {
            assert(y[n - 1] == yl);
        }
        assert(y.to_multiset().count(xl) > 0);
        assert(y.contains(xl));
        assert(x.to_multiset().count(yl) > 0);
        assert(x.contains(yl));
        let k = choose|k: int| 0 <= k < y.len() && y[k] == xl;
        let m = choose|m: int| 0 <= m < x.len() && x[m] == yl;
        assert(x[m].complexity <= x[n - 1].complexity);
        assert(y[k].complexity <= y[n - 1].complexity);
        assert(k == n - 1);
        assert(xl == yl);
        let xd = x.drop_last();
        let yd = y.drop_last();
        assert(x =~= xd.push(xl));
        assert(y =~= yd.push(yl));
        assert(xd.to_multiset() =~= yd.to_multiset()) by {
            assert forall|v: ClassReport| xd.to_multiset().count(v) == yd.to_multiset().count(v) by {
                assert(x.to_multiset().count(v) == xd.to_multiset().insert(xl).count(v));
                assert(y.to_multiset().count(v) == yd.to_multiset().insert(yl).count(v));
            }
        }
        assert(ascending(xd));
        assert(ascending(yd));
        assert(distinct_complexities(yd));
        lemma_ascending_unique(xd, yd);
        assert(x =~= y);
    }
}

/// The timings report does not depend on the order in which the classes
/// are given: any reordering of classes with distinct complexities gives
/// the same report.
pub proof fn law_report_ignores_class_order(
    stats: Seq<ClassReport>,
    reordered: Seq<ClassReport>,
    overall: OverallStats,
    generated: Seq<char>,
)
    requires
        reordered.to_multiset() == stats.to_multiset(),
        distinct_complexities(stats),
    ensures
        timings_report(reordered, overall, generated) == timings_report(stats, overall, generated),
{
    law_sorted_classes_ascend(stats);
    law_sorted_classes_ascend(reordered);
    law_sorted_classes_permute(stats);
    law_sorted_classes_permute(reordered);
    lemma_sorted_distinct(stats);
    lemma_ascending_unique(sort_by_complexity(reordered), sort_by_complexity(stats));
}

fn insert_position(sorted: &Vec<ClassReport>, key: usize) -> (r: usize)
    ensures
        r == insert_index(sorted@, key, 0),
{
    let mut i: usize = 0;
    while i < sorted.len() && sorted[i].complexity <= key
        invariant
            i <= sorted.len(),
            insert_index(sorted@, key, 0) == insert_index(sorted@, key, i as nat),
        decreases sorted.len() - i,
    {
        i = i + 1;
    }
    i
}

/// Orders the classes by ascending complexity, stably.
pub fn sort_classes(stats: Vec<ClassReport>) -> (r: Vec<ClassReport>)
    ensures
        r@ == sort_by_complexity(stats@),
{
    let ghost orig = stats@;
    let mut rest = stats;
    let mut sorted: Vec<ClassReport> = Vec::new();
    let ghost mut k: int = 0;
    assert(orig.subrange(0, 0) =~= Seq::<ClassReport>::empty());
    while rest.len() > 0
        invariant
            0 <= k <= orig.len(),
            rest@ == orig.subrange(k, orig.len() as int),
            sorted@ == sort_by_complexity(orig.subrange(0, k)),
        decreases rest.len(),
    {
        let item = rest.remove(0);
        let pos = insert_position(&sorted, item.complexity);
        proof {
            lemma_insert_index_bounds(sorted@, item.complexity, 0);
        }
        sorted.insert(pos, item);
        proof {
            k = k + 1;
            assert(orig.subrange(0, k).drop_last() =~= orig.subrange(0, k - 1));
            assert(orig.subrange(0, k).last() == item);
            assert(rest@ =~= orig.subrange(k, orig.len() as int));
        }
    }
    assert(orig.subrange(0, orig.len() as int) =~= orig);
    sorted
}

// ------------------------------------------------------------------
// The timings report
// ------------------------------------------------------------------

/// The names of the metrics in a class's table, in order.
pub open spec fn metric_names() -> Seq<Seq<char>> {
    seq!["Total Time"@, "Min Time"@, "Max Time"@, "Average Time"@, "Std Deviation"@]
}

/// The millisecond texts of a class's metrics, in the order of their names.
pub open spec fn metric_values(c: ClassReport) -> Seq<Seq<char>> {
    seq![c.total_time_ms@, c.min_time_ms@, c.max_time_ms@, c.avg_time_ms@, c.stdev_ms@]
}

/// A class's metric texts are short enough for its table's widths to be
/// computed in a `usize`.
pub open spec fn class_fits(c: ClassReport) -> bool {
    value_width(metric_values(c)) <= usize::MAX
}

/// The heading of a complexity class's section.
pub open spec fn class_heading(c: ClassReport) -> Seq<char> {
    "### Complexity Class "@ + decimal(c.complexity as nat) + " ("@ + decimal(
        c.unique_expressions as nat,
    ) + " expressions)\n\n"@
}

/// The section of one complexity class.
#[verifier::opaque]
pub open spec fn class_section(c: ClassReport) -> Seq<char> {
    class_heading(c) + metric_table(metric_names(), metric_values(c)) + "\n"@ + text_line(
        "- **Total Evaluations**: "@,
        decimal(c.total_evaluations as nat),
    ) + text_line("- **Unique Expressions**: "@, decimal(c.unique_expressions as nat)) + "\n"@
}

/// The sections of the given classes, in the given order.
pub open spec fn class_sections(cs: Seq<ClassReport>) -> Seq<char>
    decreases cs.len(),
{
    if cs.len() == 0 {
        seq![]
    } else {
        class_sections(cs.drop_last()) + class_section(cs.last())
    }
}

/// A report line: a label, a value and a line break.
pub open spec fn text_line(label: Seq<char>, value: Seq<char>) -> Seq<char> {
    label + value + "\n"@
}

/// The overall part of the timings report.
#[verifier::opaque]
pub open spec fn overall_section(o: OverallStats) -> Seq<char> {
    "## Overall Statistics\n\n"@
        + text_line("- **Start Time (Local)**: "@, o.start_time_local@)
        + text_line("- **Start Time (UTC)**: "@, o.start_time_utc@)
        + text_line("- **Input File**: "@, o.input_file_path@)
        + text_line("- **Iterations**: "@, decimal(o.iterations as nat))
        + text_line("- **Total Expressions Evaluated**: "@, decimal(o.total_expressions as nat))
        + text_line("- **Total Evaluations Executed**: "@, decimal(o.total_evaluations as nat))
        + text_line("- **Total Execution Time**: "@, o.total_time_ms@ + " ms"@)
        + text_line("- **Failed Evaluations**: "@, decimal(o.total_failures as nat)) + "\n"@
}

/// The whole timings report: a header, the overall figures, one section per
/// class in ascending order of complexity, and a footer with the time at
/// which the report was generated.
pub open spec fn timings_report(
    stats: Seq<ClassReport>,
    overall: OverallStats,
    generated: Seq<char>,
) -> Seq<char> {
    "# Load Test Results - sqlexpr-rust\n\n"@ + overall_section(overall)
        + "## Results by Complexity Class\n\n"@ + class_sections(sort_by_complexity(stats))
        + "---\n\n"@ + "Generated: "@ + generated + "\n"@
}

proof fn lemma_metric_names_fit()
    ensures
        label_width(metric_names()) <= usize::MAX,
{
    reveal_strlit("Total Time");
    reveal_strlit("Min Time");
    reveal_strlit("Max Time");
    reveal_strlit("Average Time");
    reveal_strlit("Std Deviation");
    let names = metric_names();
    assert forall|i: int| 0 <= i < names.len() implies byte_len(names[i]) <= 13 by {
        vstd::utf8::is_ascii_chars_encode_utf8(names[i]);
    }
    assert(names.drop_last().drop_last().drop_last().drop_last().drop_last().len() == 0);
    assert(max_width(names, 6) <= 13) by {
        reveal_with_fuel(max_width, 6);
    }
}

fn push_class_heading(s: &mut String, c: &ClassReport)
    ensures
        final(s)@ == old(s)@ + class_heading(*c),
{
    let ghost start = s@;
    s.append("### Complexity Class ");
    push_decimal(s, c.complexity);
    s.append(" (");
    push_decimal(s, c.unique_expressions);
    s.append(" expressions)\n\n");
    assert(s@ =~= start + class_heading(*c));
}

fn push_class_section(s: &mut String, c: &ClassReport)
    requires
        class_fits(*c),
    ensures
        final(s)@ == old(s)@ + class_section(*c),
{
    let ghost start = s@;
    let labels: Vec<&str> = vec!["Total Time", "Min Time", "Max Time", "Average Time", "Std Deviation"];
    let values: Vec<&str> = vec![
        c.total_time_ms.as_str(),
        c.min_time_ms.as_str(),
        c.max_time_ms.as_str(),
        c.avg_time_ms.as_str(),
        c.stdev_ms.as_str(),
    ];
    assert(texts(labels@) =~= metric_names());
    assert(texts(values@) =~= metric_values(*c));
    proof {
        lemma_metric_names_fit();
    }
    push_class_heading(s, c);
    let ghost mut acc = class_heading(*c);
    push_table(s, &labels, &values);
    proof {
        acc = acc + metric_table(metric_names(), metric_values(*c));
        assert(s@ =~= start + acc);
    }
    s.append("\n");
    proof {
        acc = acc + "\n"@;
        assert(s@ =~= start + acc);
    }
    push_count_line(s, "- **Total Evaluations**: ", c.total_evaluations);
    proof {
        acc = acc + text_line("- **Total Evaluations**: "@, decimal(c.total_evaluations as nat));
        assert(s@ =~= start + acc);
    }
    push_count_line(s, "- **Unique Expressions**: ", c.unique_expressions);
    proof {
        acc = acc + text_line("- **Unique Expressions**: "@, decimal(c.unique_expressions as nat));
        assert(s@ =~= start + acc);
    }
    s.append("\n");
    proof {
        acc = acc + "\n"@;
        assert(s@ =~= start + acc);
        reveal(class_section);
    }
}

fn push_line(s: &mut String, label: &str, value: &str)
    ensures
        final(s)@ == old(s)@ + text_line(label@, value@),
{
    let ghost start = s@;
    s.append(label);
    s.append(value);
    s.append("\n");
    assert(s@ =~= start + text_line(label@, value@));
}

fn push_count_line(s: &mut String, label: &str, n: usize)
    ensures
        final(s)@ == old(s)@ + text_line(label@, decimal(n as nat)),
{
    let ghost start = s@;
    s.append(label);
    push_decimal(s, n);
    s.append("\n");
    assert(s@ =~= start + text_line(label@, decimal(n as nat)));
}

fn push_overall_section(s: &mut String, o: &OverallStats)
    ensures
        final(s)@ == old(s)@ + overall_section(*o),
{
    let ghost start = s@;
    s.append("## Overall Statistics\n\n");
    let ghost mut acc = "## Overall Statistics\n\n"@;
    push_line(s, "- **Start Time (Local)**: ", o.start_time_local.as_str());
    proof {
        acc = acc + text_line("- **Start Time (Local)**: "@, o.start_time_local@);
        assert(s@ =~= start + acc);
    }
    push_line(s, "- **Start Time (UTC)**: ", o.start_time_utc.as_str());
    proof {
        acc = acc + text_line("- **Start Time (UTC)**: "@, o.start_time_utc@);
        assert(s@ =~= start + acc);
    }
    push_line(s, "- **Input File**: ", o.input_file_path.as_str());
    proof {
        acc = acc + text_line("- **Input File**: "@, o.input_file_path@);
        assert(s@ =~= start + acc);
    }
    push_count_line(s, "- **Iterations**: ", o.iterations);
    proof {
        acc = acc + text_line("- **Iterations**: "@, decimal(o.iterations as nat));
        assert(s@ =~= start + acc);
    }
    push_count_line(s, "- **Total Expressions Evaluated**: ", o.total_expressions);
    proof {
        acc = acc + text_line("- **Total Expressions Evaluated**: "@, decimal(o.total_expressions as nat));
        assert(s@ =~= start + acc);
    }
    push_count_line(s, "- **Total Evaluations Executed**: ", o.total_evaluations);
    proof {
        acc = acc + text_line("- **Total Evaluations Executed**: "@, decimal(o.total_evaluations as nat));
        assert(s@ =~= start + acc);
    }
    let ghost before_time = s@;
    s.append("- **Total Execution Time**: ");
    s.append(o.total_time_ms.as_str());
    s.append(" ms\n");
    proof {
        reveal_strlit(" ms\n");
        reveal_strlit(" ms");
        reveal_strlit("\n");
        assert(s@ =~= before_time + text_line("- **Total Execution Time**: "@, o.total_time_ms@ + " ms"@));
        acc = acc + text_line("- **Total Execution Time**: "@, o.total_time_ms@ + " ms"@);
        assert(s@ =~= start + acc);
    }
    push_count_line(s, "- **Failed Evaluations**: ", o.total_failures);
    proof {
        acc = acc + text_line("- **Failed Evaluations**: "@, decimal(o.total_failures as nat));
        assert(s@ =~= start + acc);
    }
    s.append("\n");
    proof {
        acc = acc + "\n"@;
        assert(s@ =~= start + acc);
        reveal(overall_section);
    }
}

/// The timings report for the given classes and overall figures, with
/// `generated` as the time of generation in its footer.
pub fn generate_timings_report(
    stats: Vec<ClassReport>,
    overall: OverallStats,
    generated: &str,
) -> (report: String)
    requires
        forall|i: int| 0 <= i < stats@.len() ==> class_fits(#[trigger] stats@[i]),
    ensures
        report@ == timings_report(stats@, overall, generated@),
{
    let ghost orig = stats@;
    let sorted = sort_classes(stats);
    proof {
        law_sorted_classes_permute(orig);
        assert forall|i: int| 0 <= i < sorted@.len() implies class_fits(#[trigger] sorted@[i]) by {
            broadcast use vstd::seq_lib::group_to_multiset_ensures;

            assert(sorted@.contains(sorted@[i]));
            assert(sorted@.to_multiset().count(sorted@[i]) > 0);
            assert(orig.contains(sorted@[i]));
        }
    }
    let mut report = String::new();
    report.append("# Load Test Results - sqlexpr-rust\n\n");
    push_overall_section(&mut report, &overall);
    report.append("## Results by Complexity Class\n\n");
    let ghost head = report@;
    let mut i: usize = 0;
    while i < sorted.len()
        invariant
            i <= sorted@.len(),
            forall|j: int| 0 <= j < sorted@.len() ==> class_fits(#[trigger] sorted@[j]),
            report@ == head + class_sections(sorted@.subrange(0, i as int)),
        decreases sorted.len() - i,
    {
        push_class_section(&mut report, &sorted[i]);
        assert(sorted@.subrange(0, i + 1).drop_last() =~= sorted@.subrange(0, i as int));
        i = i + 1;
    }
    assert(sorted@.subrange(0, sorted@.len() as int) =~= sorted@);
    report.append("---\n\n");
    report.append("Generated: ");
    report.append(generated);
    report.append("\n");
    assert(report@ =~= timings_report(orig, overall, generated@));
    report
}

// ------------------------------------------------------------------
// The failed-evaluations report
// ------------------------------------------------------------------

/// The section of the failure numbered `number` (counting from one).
#[verifier::opaque]
pub open spec fn failure_section(number: nat, f: FailedTest) -> Seq<char> {
    "## Failure "@ + decimal(number) + "\n\n"@ + "**Expression:**\n"@ + "```\n"@ + f.expr@
        + "\n```\n\n"@ + "**Value Map:**\n"@ + "```json\n"@ + f.value_map_json@
        + "\n```\n\n"@ + "**Error:**\n"@ + "```\n"@ + f.error_message@ + "\n```\n\n"@
        + "---\n\n"@
}

/// The sections of the first `n` failures, numbered from one.
pub open spec fn failure_sections(fs: Seq<FailedTest>, n: nat) -> Seq<char>
    decreases n,
{
    if n == 0 {
        seq![]
    } else {
        failure_sections(fs, (n - 1) as nat) + failure_section(n, fs[n - 1])
    }
}

/// The whole failed-evaluations report: a header with the number of
/// failures, one numbered section per failure in the given order, and a
/// footer with the time at which the report was generated.
pub open spec fn failed_tests_report(fs: Seq<FailedTest>, generated: Seq<char>) -> Seq<char> {
    "# Failed Expression Evaluations\n\n"@ + "Total failures: "@ + decimal(fs.len()) + "\n\n"@
        + failure_sections(fs, fs.len()) + "Generated: "@ + generated + "\n"@
}

fn push_failure_section(s: &mut String, number: usize, f: &FailedTest)
    ensures
        final(s)@ == old(s)@ + failure_section(number as nat, *f),
{
    let ghost start = s@;
    s.append("## Failure ");
    push_decimal(s, number);
    s.append("\n\n");
    s.append("**Expression:**\n");
    s.append("```\n");
    s.append(f.expr.as_str());
    s.append("\n```\n\n");
    s.append("**Value Map:**\n");
    s.append("```json\n");
    s.append(f.value_map_json.as_str());
    s.append("\n```\n\n");
    s.append("**Error:**\n");
    s.append("```\n");
    s.append(f.error_message.as_str());
    s.append("\n```\n\n");
    s.append("---\n\n");
    assert(s@ =~= start + failure_section(number as nat, *f)) by {
        reveal(failure_section);
    }
}

/// The failed-evaluations report, with `generated` as the time of
/// generation in its footer.
pub fn generate_failed_tests_report(failures: &[FailedTest], generated: &str) -> (report: String)
    ensures
        report@ == failed_tests_report(failures@, generated@),
{
    let mut report = String::new();
    report.append("# Failed Expression Evaluations\n\n");
    report.append("Total failures: ");
    push_decimal(&mut report, failures.len());
    report.append("\n\n");
    let ghost head = report@;
    let mut i: usize = 0;
    while i < failures.len()
        invariant
            i <= failures@.len(),
            report@ == head + failure_sections(failures@, i as nat),
        decreases failures.len() - i,
    {
        push_failure_section(&mut report, i + 1, &failures[i]);
        i = i + 1;
    }
    report.append("Generated: ");
    report.append(generated);
    report.append("\n");
    assert(report@ =~= failed_tests_report(failures@, generated@));
    report
}

} // verus!
