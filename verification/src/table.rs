//! The two-column Markdown table of a complexity class's timings.
//!
//! Column widths follow the content: each column is as wide as its longest
//! entry in bytes (at least 6 for the metric names, at least 13 for the
//! values) plus two characters of padding.

use vstd::prelude::*;
use vstd::string::*;
use crate::text::{
    byte_len, center, lemma_chars_at_most_bytes, pad_left, pad_right, push_center, push_pad_left,
    push_repeat, repeat,
};

verus! {

/// The greatest byte length among `cells`, and at least `floor`.
pub open spec fn max_width(cells: Seq<Seq<char>>, floor: nat) -> nat
    decreases cells.len(),
{
    if cells.len() == 0 {
        floor
    } else {
        let m = max_width(cells.drop_last(), floor);
        let b = byte_len(cells.last());
        if b > m {
            b
        } else {
            m
        }
    }
}

/// Width of the metric-name column, padding included.
pub open spec fn label_width(labels: Seq<Seq<char>>) -> nat {
    max_width(labels, 6) + 2
}

/// Width of the value column, padding included.
pub open spec fn value_width(values: Seq<Seq<char>>) -> nat {
    max_width(values, 13) + 2
}

/// The header line and the separator line.
pub open spec fn table_head(w1: nat, w2: nat) -> Seq<char> {
    "|"@ + center("Metric"@, w1) + "|"@ + center("Milliseconds"@, w2) + "|\n"@ + "|"@ + repeat(
        '-',
        w1,
    ) + "|"@ + repeat('-', w2) + "|\n"@
}

/// One line of the table: the name left-aligned after a space, the value
/// right-aligned before a space.
pub open spec fn table_row(label: Seq<char>, value: Seq<char>, w1: nat, w2: nat) -> Seq<char> {
    "|"@ + pad_right(" "@ + label, w1) + "|"@ + pad_left(value, (w2 - 1) as nat) + " |\n"@
}

/// The first `n` lines of the table body.
pub open spec fn table_rows(
    labels: Seq<Seq<char>>,
    values: Seq<Seq<char>>,
    n: nat,
    w1: nat,
    w2: nat,
) -> Seq<char>
    decreases n,
{
    if n == 0 {
        seq![]
    } else {
        table_rows(labels, values, (n - 1) as nat, w1, w2) + table_row(
            labels[n - 1],
            values[n - 1],
            w1,
            w2,
        )
    }
}

/// The whole table for the given names and values.
pub open spec fn metric_table(labels: Seq<Seq<char>>, values: Seq<Seq<char>>) -> Seq<char> {
    let w1 = label_width(labels);
    let w2 = value_width(values);
    table_head(w1, w2) + table_rows(labels, values, labels.len(), w1, w2)
}

/// The texts that a sequence of string slices holds.
pub open spec fn texts(cells: Seq<&str>) -> Seq<Seq<char>> {
    cells.map_values(|c: &str| c@)
}

/// The widths of a table fit in a `usize`.
pub open spec fn table_fits(labels: Seq<Seq<char>>, values: Seq<Seq<char>>) -> bool {
    label_width(labels) <= usize::MAX && value_width(values) <= usize::MAX
}

fn column_width(cells: &Vec<&str>, floor: usize) -> (w: usize)
    requires
        max_width(texts(cells@), floor as nat) <= usize::MAX,
    ensures
        w == max_width(texts(cells@), floor as nat),
{
    let mut m = floor;
    let mut i: usize = 0;
    while i < cells.len()
        invariant
            i <= cells.len(),
            m == max_width(texts(cells@).subrange(0, i as int), floor as nat),
            max_width(texts(cells@), floor as nat) <= usize::MAX,
        decreases cells.len() - i,
    {
        proof {
            lemma_max_width_bounds(texts(cells@), floor as nat, i as int);
        }
        let b = cells[i].len();
        assert(texts(cells@)[i as int] == cells@[i as int]@);
        assert(b as nat == byte_len(cells@[i as int]@));
        assert(texts(cells@).subrange(0, i + 1).drop_last() =~= texts(cells@).subrange(
            0,
            i as int,
        ));
        assert(texts(cells@).subrange(0, i + 1).last() == cells@[i as int]@);
        if b > m {
            m = b;
        }
        i = i + 1;
    }
    assert(texts(cells@).subrange(0, cells.len() as int) =~= texts(cells@));
    m
}

/// Appends one line of the table body.
fn push_row(s: &mut String, label: &str, value: &str, w1: usize, w2: usize)
    requires
        w1 >= 1,
        w2 >= 1,
    ensures
        final(s)@ == old(s)@ + table_row(label@, value@, w1 as nat, w2 as nat),
{
    let ghost start = s@;
    s.append("|");
    s.append(" ");
    s.append(label);
    let n = label.unicode_len();
    if n < w1 - 1 {
        push_repeat(s, ' ', w1 - 1 - n);
    }
    assert(s@ =~= start + "|"@ + pad_right(" "@ + label@, w1 as nat)) by {
        reveal_strlit(" ");
    }
    s.append("|");
    push_pad_left(s, value, w2 - 1);
    s.append(" |\n");
    assert(s@ =~= start + table_row(label@, value@, w1 as nat, w2 as nat));
}

/// Appends the table of the given metric names and values.
pub fn push_table(s: &mut String, labels: &Vec<&str>, values: &Vec<&str>)
    requires
        labels.len() == values.len(),
        table_fits(texts(labels@), texts(values@)),
    ensures
        final(s)@ == old(s)@ + metric_table(texts(labels@), texts(values@)),
{
    let ghost start = s@;
    let ghost ls = texts(labels@);
    let ghost vs = texts(values@);
    let w1 = column_width(labels, 6) + 2;
    let w2 = column_width(values, 13) + 2;
    proof {
        lemma_max_width_floor(ls, 6);
        lemma_max_width_floor(vs, 13);
    }
    s.append("|");
    push_center(s, "Metric", w1);
    s.append("|");
    push_center(s, "Milliseconds", w2);
    s.append("|\n");
    s.append("|");
    push_repeat(s, '-', w1);
    s.append("|");
    push_repeat(s, '-', w2);
    s.append("|\n");
    assert(s@ =~= start + table_head(w1 as nat, w2 as nat));
    let mut i: usize = 0;
    while i < labels.len()
        invariant
            i <= labels.len() == values.len(),
            ls == texts(labels@),
            vs == texts(values@),
            w1 == label_width(ls),
            w2 == value_width(vs),
            w1 >= 2,
            w2 >= 2,
            s@ == start + table_head(w1 as nat, w2 as nat) + table_rows(
                ls,
                vs,
                i as nat,
                w1 as nat,
                w2 as nat,
            ),
        decreases labels.len() - i,
    {
        push_row(s, labels[i], values[i], w1, w2);
        assert(ls[i as int] == labels[i as int]@);
        assert(vs[i as int] == values[i as int]@);
        assert(s@ =~= start + table_head(w1 as nat, w2 as nat) + table_rows(
            ls,
            vs,
            (i + 1) as nat,
            w1 as nat,
            w2 as nat,
        ));
        i = i + 1;
    }
}

/// The table's lines all have the same width: every metric name and value
/// fits in its column, so no line is longer or shorter than the header.
pub proof fn law_table_lines_have_equal_width(
    labels: Seq<Seq<char>>,
    values: Seq<Seq<char>>,
    i: int,
)
    requires
        labels.len() == values.len(),
        0 <= i < labels.len(),
    ensures
        ({
            let w1 = label_width(labels);
            let w2 = value_width(values);
            &&& table_head(w1, w2).len() == 2 * (w1 + w2 + 4)
            &&& table_row(labels[i], values[i], w1, w2).len() == w1 + w2 + 4
        }),
{
    let w1 = label_width(labels);
    let w2 = value_width(values);
    reveal_strlit("Metric");
    reveal_strlit("Milliseconds");
    reveal_strlit("|");
    reveal_strlit("|\n");
    reveal_strlit(" ");
    reveal_strlit(" |\n");
    lemma_max_width_floor(labels, 6);
    lemma_max_width_floor(values, 13);
    lemma_max_width_bounds(labels, 6, i);
    lemma_max_width_bounds(values, 13, i);
    lemma_chars_at_most_bytes(labels[i]);
    lemma_chars_at_most_bytes(values[i]);
}

/// A column is as wide as its widest entry in bytes, and at least `floor`:
/// the width bounds every entry and the floor, and is one of them.
pub proof fn law_column_width_is_the_widest_entry(cells: Seq<Seq<char>>, floor: nat)
    ensures
        max_width(cells, floor) >= floor,
        forall|i: int| 0 <= i < cells.len() ==> byte_len(#[trigger] cells[i]) <= max_width(cells, floor),
        max_width(cells, floor) == floor || exists|i: int|
            0 <= i < cells.len() && max_width(cells, floor) == byte_len(#[trigger] cells[i]),
    decreases cells.len(),
{
    lemma_max_width_floor(cells, floor);
    assert forall|i: int| 0 <= i < cells.len() implies byte_len(#[trigger] cells[i]) <= max_width(
        cells,
        floor,
    ) by {
        lemma_max_width_bounds(cells, floor, i);
    }
    if cells.len() > 0 {
        let d = cells.drop_last();
        law_column_width_is_the_widest_entry(d, floor);
        if max_width(cells, floor) != floor {
            if max_width(cells, floor) == byte_len(cells.last()) {
                assert(cells[cells.len() - 1] == cells.last());
            } else {
                let i = choose|i: int| 0 <= i < d.len() && max_width(d, floor) == byte_len(#[trigger] d[i]);
                assert(d[i] == cells[i]);
            }
        }
    }
}

proof fn lemma_rows_layout(labels: Seq<Seq<char>>, values: Seq<Seq<char>>, m: nat)
    requires
        labels.len() == values.len(),
        m <= labels.len(),
    ensures
        ({
            let w1 = label_width(labels);
            let w2 = value_width(values);
            let w = w1 + w2 + 4;
            let rows = table_rows(labels, values, m, w1, w2);
            &&& rows.len() == m * w
            &&& forall|k: int|
                0 <= k < m ==> #[trigger] rows.subrange(k * w, k * w + w) == table_row(
                    labels[k],
                    values[k],
                    w1,
                    w2,
                )
        }),
    decreases m,
{
    let w1 = label_width(labels);
    let w2 = value_width(values);
    let w = w1 + w2 + 4;
    if m > 0 {
        let p = (m - 1) as nat;
        lemma_rows_layout(labels, values, p);
        let prev = table_rows(labels, values, p, w1, w2);
        let row = table_row(labels[p as int], values[p as int], w1, w2);
        law_table_lines_have_equal_width(labels, values, p as int);
        let rows = table_rows(labels, values, m, w1, w2);
        assert(rows == prev + row);
        assert(p * w + w == m * w) by (nonlinear_arith)
            requires
                m == p + 1,
        ;
        assert forall|k: int| 0 <= k < m implies #[trigger] rows.subrange(k * w, k * w + w)
            == table_row(labels[k], values[k], w1, w2) by {
            if k < p {
                assert(k * w + w <= p * w) by (nonlinear_arith)
                    requires
                        k + 1 <= p,
                        w >= 0,
                ;
                assert(0 <= k * w) by (nonlinear_arith)
                    requires
                        k >= 0,
                        w >= 0,
                ;
                assert(rows.subrange(k * w, k * w + w) =~= prev.subrange(k * w, k * w + w));
            } else {
                assert(rows.subrange(k * w, k * w + w) =~= row);
            }
        }
    } else {
        assert(0 * w == 0) by (nonlinear_arith);
    }
}

/// The layout of the table, line by line. The name column is two wider
/// than its widest name (and at least 8), the value column two wider than
/// its widest value (and at least 15); every line is `w` characters wide
/// (the two column widths, three bars and a line break). The first
/// line centres "Metric" and "Milliseconds" in the two columns, the second
/// fills them with dashes, and line `k + 2` holds the `k`-th metric name
/// left-aligned after a space and the `k`-th value right-aligned before a
/// space. Nothing else is in the table.
pub proof fn law_table_layout(labels: Seq<Seq<char>>, values: Seq<Seq<char>>)
    requires
        labels.len() == values.len(),
    ensures
        ({
            let w1 = label_width(labels);
            let w2 = value_width(values);
            let w = w1 + w2 + 4;
            let t = metric_table(labels, values);
            &&& w1 == max_width(labels, 6) + 2
            &&& w2 == max_width(values, 13) + 2
            &&& t.len() == 2 * w + labels.len() * w
            &&& t.subrange(0, w as int) == "|"@ + center("Metric"@, w1) + "|"@ + center(
                "Milliseconds"@,
                w2,
            ) + "|\n"@
            &&& t.subrange(w as int, (2 * w) as int) == "|"@ + repeat('-', w1) + "|"@ + repeat('-', w2)
                + "|\n"@
            &&& forall|k: int|
                0 <= k < labels.len() ==> #[trigger] t.subrange(2 * w + k * w, 2 * w + k * w + w)
                    == "|"@ + pad_right(" "@ + labels[k], w1) + "|"@ + pad_left(
                    values[k],
                    (w2 - 1) as nat,
                ) + " |\n"@
        }),
{
    let w1 = label_width(labels);
    let w2 = value_width(values);
    let w = w1 + w2 + 4;
    let n = labels.len();
    let t = metric_table(labels, values);
    let l0 = "|"@ + center("Metric"@, w1) + "|"@ + center("Milliseconds"@, w2) + "|\n"@;
    let l1 = "|"@ + repeat('-', w1) + "|"@ + repeat('-', w2) + "|\n"@;
    let rows = table_rows(labels, values, n, w1, w2);
    assert(table_head(w1, w2) =~= l0 + l1);
    lemma_max_width_floor(labels, 6);
    lemma_max_width_floor(values, 13);
    reveal_strlit("Metric");
    reveal_strlit("Milliseconds");
    reveal_strlit("|");
    reveal_strlit("|\n");
    assert(l0.len() == w);
    assert(l1.len() == w);
    lemma_rows_layout(labels, values, n);
    assert(t == l0 + l1 + rows);
    assert(t.subrange(0, w as int) =~= l0);
    assert(t.subrange(w as int, (2 * w) as int) =~= l1);
    assert forall|k: int| 0 <= k < n implies #[trigger] t.subrange(2 * w + k * w, 2 * w + k * w + w)
        == "|"@ + pad_right(" "@ + labels[k], w1) + "|"@ + pad_left(values[k], (w2 - 1) as nat)
        + " |\n"@ by {
        assert(k * w + w <= n * w) by (nonlinear_arith)
            requires
                k + 1 <= n,
                w >= 0,
        ;
        assert(0 <= k * w) by (nonlinear_arith)
            requires
                k >= 0,
                w >= 0,
        ;
        assert(t.subrange(2 * w + k * w, 2 * w + k * w + w) =~= rows.subrange(k * w, k * w + w));
    }
}

proof fn lemma_max_width_floor(cells: Seq<Seq<char>>, floor: nat)
    ensures
        max_width(cells, floor) >= floor,
    decreases cells.len(),
{
    if cells.len() > 0 {
        lemma_max_width_floor(cells.drop_last(), floor);
    }
}

proof fn lemma_max_width_bounds(cells: Seq<Seq<char>>, floor: nat, i: int)
    requires
        0 <= i < cells.len(),
    ensures
        byte_len(cells[i]) <= max_width(cells, floor),
    decreases cells.len(),
{
    if i < cells.len() - 1 {
        lemma_max_width_bounds(cells.drop_last(), floor, i);
    }
}

} // verus!
