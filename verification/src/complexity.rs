//! The complexity of a boolean SQL expression: the number of logical `AND`
//! and `OR` operators in it.
//!
//! The expression is upper-cased first. The `AND` that belongs to a
//! `BETWEEN <low> AND <high>` clause is SQL syntax, not a logical operator,
//! so each `BETWEEN` clause is masked before counting: its `" BETWEEN "`
//! becomes `" _______ "` and its `" AND "` becomes `" ___ "`, byte for byte.
//! Operators are then counted as whole words, `" AND "` and `" OR "` with
//! their surrounding spaces, so that words such as `BANANA` or `ORANGE` do
//! not count.
//!
//! The work is done on the UTF-8 bytes of the upper-cased text, at the byte
//! offsets that `str::find` reports. Every byte that is masked belongs to an
//! ASCII keyword, so masking never cuts a character.

use vstd::prelude::*;
use vstd::string::*;
use vstd::utf8::encode_utf8;

verus! {

/// The bytes of `" BETWEEN "`.
pub open spec fn between_word() -> Seq<u8> {
    seq![32u8, 66u8, 69u8, 84u8, 87u8, 69u8, 69u8, 78u8, 32u8]
}

/// The bytes of `" AND "`.
pub open spec fn and_word() -> Seq<u8> {
    seq![32u8, 65u8, 78u8, 68u8, 32u8]
}

/// The bytes of `" OR "`.
pub open spec fn or_word() -> Seq<u8> {
    seq![32u8, 79u8, 82u8, 32u8]
}

/// The bytes of `" ___ "`, which replace the `AND` of a `BETWEEN` clause.
pub open spec fn and_mask() -> Seq<u8> {
    seq![32u8, 95u8, 95u8, 95u8, 32u8]
}

/// The bytes of `" _______ "`, which replace the start of a `BETWEEN` clause.
pub open spec fn between_mask() -> Seq<u8> {
    seq![32u8, 95u8, 95u8, 95u8, 95u8, 95u8, 95u8, 95u8, 32u8]
}

/// `pat` stands in `s` at byte offset `i`.
pub open spec fn occurs_at(s: Seq<u8>, pat: Seq<u8>, i: int) -> bool {
    0 <= i && i + pat.len() <= s.len() && s.subrange(i, i + pat.len()) == pat
}

/// The first offset at or after `from` at which `pat` occurs (`str::find`).
pub open spec fn find_from(s: Seq<u8>, pat: Seq<u8>, from: nat) -> Option<nat>
    decreases s.len() - from,
{
    if s.len() < from + pat.len() {
        None
    } else if occurs_at(s, pat, from as int) {
        Some(from)
    } else if from < s.len() {
        find_from(s, pat, from + 1)
    } else {
        None
    }
}

/// The number of non-overlapping occurrences of `pat` in `s` from offset
/// `from` on, taken from left to right (`str::matches(..).count()`).
pub open spec fn count_from(s: Seq<u8>, pat: Seq<u8>, from: nat) -> nat
    decreases s.len() - from,
{
    if pat.len() == 0 || s.len() < from + pat.len() {
        0
    } else if occurs_at(s, pat, from as int) {
        1 + count_from(s, pat, from + pat.len())
    } else {
        count_from(s, pat, from + 1)
    }
}

/// The number of non-overlapping occurrences of `pat` in `s`.
pub open spec fn count_occurrences(s: Seq<u8>, pat: Seq<u8>) -> nat {
    count_from(s, pat, 0)
}

/// `s` with the `len` bytes at offset `at` replaced by `with`.
pub open spec fn splice(s: Seq<u8>, at: int, len: int, with: Seq<u8>) -> Seq<u8> {
    s.subrange(0, at) + with + s.subrange(at + len, s.len() as int)
}

/// The number of bytes of `s` other than `_`. Masking a clause lowers it,
/// which bounds how many clauses can be masked.
pub open spec fn unmasked(s: Seq<u8>) -> nat
    decreases s.len(),
{
    if s.len() == 0 {
        0
    } else {
        unmasked(s.drop_last()) + if s.last() == 95u8 {
            0nat
        } else {
            1nat
        }
    }
}

/// `s` with the clause whose `" BETWEEN "` stands at `p` and whose `" AND "`
/// stands at `q` masked.
pub open spec fn mask_clause(s: Seq<u8>, p: int, q: int) -> Seq<u8> {
    splice(splice(s, q, 5, and_mask()), p, 9, between_mask())
}

/// The text with every `BETWEEN ... AND` clause masked, one clause at a time
/// from the left: the first `" BETWEEN "`, then the first `" AND "` after it.
pub open spec fn mask_between_clauses(s: Seq<u8>) -> Seq<u8>
    decreases unmasked(s),
{
    match find_from(s, between_word(), 0) {
        None => s,
        Some(p) => match find_from(s, and_word(), p + 9) {
            None => s,
            Some(q) => {
                proof {
                    lemma_find_from_bounds(s, between_word(), 0);
                    lemma_find_from_bounds(s, and_word(), p + 9);
                    lemma_mask_clause_shrinks(s, p as int, q as int);
                }
                mask_between_clauses(mask_clause(s, p as int, q as int))
            },
        },
    }
}

/// The complexity of upper-cased text given as its UTF-8 bytes: the
/// non-overlapping `" AND "` plus the non-overlapping `" OR "` once the
/// `BETWEEN` clauses are masked.
pub open spec fn complexity_of_text(bytes: Seq<u8>) -> nat {
    let t = mask_between_clauses(bytes);
    count_occurrences(t, and_word()) + count_occurrences(t, or_word())
}

/// What `str::to_uppercase` returns for a text.
pub uninterp spec fn spec_to_uppercase(s: Seq<char>) -> Seq<char>;

/// The complexity of an expression: that of its upper-cased UTF-8 bytes.
pub open spec fn complexity(expr: Seq<char>) -> nat {
    complexity_of_text(encode_utf8(spec_to_uppercase(expr)))
}

/// `str::to_uppercase`.
///
/// Trusted: the result is the Unicode upper-case mapping of the text, a
/// function of the text alone (it depends on no locale); it is named by
/// `spec_to_uppercase` and nothing more is stated of it.
#[verifier::external_body]
pub(crate) fn to_uppercase(s: &str) -> (r: String)
    ensures
        r@ == spec_to_uppercase(s@),
{
    s.to_uppercase()
}

proof fn lemma_unmasked_concat(a: Seq<u8>, b: Seq<u8>)
    ensures
        unmasked(a + b) == unmasked(a) + unmasked(b),
    decreases b.len(),
{
    if b.len() > 0 {
        assert((a + b).drop_last() =~= a + b.drop_last());
        lemma_unmasked_concat(a, b.drop_last());
    } else {
        assert(a + b =~= a);
    }
}

proof fn lemma_unmasked_splice(s: Seq<u8>, at: int, len: int, with: Seq<u8>)
    requires
        0 <= at,
        0 <= len,
        at + len <= s.len(),
    ensures
        unmasked(splice(s, at, len, with)) + unmasked(s.subrange(at, at + len)) == unmasked(s)
            + unmasked(with),
        splice(s, at, len, with).len() == s.len() - len + with.len(),
{
    let pre = s.subrange(0, at);
    let mid = s.subrange(at, at + len);
    let post = s.subrange(at + len, s.len() as int);
    assert(s =~= pre + mid + post);
    lemma_unmasked_concat(pre, mid);
    lemma_unmasked_concat(pre + mid, post);
    lemma_unmasked_concat(pre, with);
    lemma_unmasked_concat(pre + with, post);
}

proof fn lemma_unmasked_words()
    ensures
        unmasked(between_word()) == 9,
        unmasked(between_mask()) == 2,
        unmasked(and_word()) == 5,
        unmasked(and_mask()) == 2,
{
    reveal_with_fuel(unmasked, 10);
    assert(between_word().drop_last() =~= seq![32u8, 66u8, 69u8, 84u8, 87u8, 69u8, 69u8, 78u8]);
    assert(between_mask().drop_last() =~= seq![32u8, 95u8, 95u8, 95u8, 95u8, 95u8, 95u8, 95u8]);
}

/// Masking a clause keeps the length and lowers the number of unmasked bytes.
pub proof fn lemma_mask_clause_shrinks(s: Seq<u8>, p: int, q: int)
    requires
        occurs_at(s, between_word(), p),
        occurs_at(s, and_word(), q),
        p + 9 <= q,
    ensures
        mask_clause(s, p, q).len() == s.len(),
        unmasked(mask_clause(s, p, q)) < unmasked(s),
{
    let masked = splice(s, q, 5, and_mask());
    lemma_unmasked_words();
    lemma_unmasked_splice(s, q, 5, and_mask());
    assert(masked.subrange(p, p + 9) =~= s.subrange(p, p + 9));
    lemma_unmasked_splice(masked, p, 9, between_mask());
}

pub proof fn lemma_find_from_bounds(s: Seq<u8>, pat: Seq<u8>, from: nat)
    ensures
        find_from(s, pat, from) matches Some(i) ==> from <= i && i + pat.len() <= s.len()
            && occurs_at(s, pat, i as int),
    decreases s.len() - from,
{
    if s.len() >= from + pat.len() && !occurs_at(s, pat, from as int) && from < s.len() {
        lemma_find_from_bounds(s, pat, from + 1);
    }
}

/// `find_from` gives the first occurrence at or after `from`: where it
/// gives an offset, `pat` stands there and at no earlier offset from `from`
/// on; where it gives none, `pat` stands nowhere from `from` on.
pub proof fn law_find_is_the_first_occurrence(s: Seq<u8>, pat: Seq<u8>, from: nat)
    ensures
        find_from(s, pat, from) matches Some(i) ==> {
            &&& from <= i
            &&& occurs_at(s, pat, i as int)
            &&& forall|j: int| from <= j < i ==> !occurs_at(s, pat, j)
        },
        find_from(s, pat, from) is None ==> forall|j: int| from <= j ==> !occurs_at(s, pat, j),
    decreases s.len() - from,
{
    lemma_find_from_bounds(s, pat, from);
    if s.len() >= from + pat.len() && !occurs_at(s, pat, from as int) && from < s.len() {
        law_find_is_the_first_occurrence(s, pat, from + 1);
    }
}

/// Counting takes occurrences from the left without overlap: nothing is
/// counted where `pat` is not found, and otherwise the first occurrence
/// counts and counting goes on right after its end.
pub proof fn law_count_is_leftmost_without_overlap(s: Seq<u8>, pat: Seq<u8>, from: nat)
    requires
        pat.len() > 0,
    ensures
        count_from(s, pat, from) == match find_from(s, pat, from) {
            None => 0,
            Some(i) => 1 + count_from(s, pat, i + pat.len()),
        },
    decreases s.len() - from,
{
    if s.len() >= from + pat.len() && !occurs_at(s, pat, from as int) {
        law_count_is_leftmost_without_overlap(s, pat, from + 1);
    }
}

/// Where `pat` occurs nowhere, `find_from` finds nothing.
proof fn lemma_find_from_absent(s: Seq<u8>, pat: Seq<u8>, from: nat)
    requires
        forall|i: int| !occurs_at(s, pat, i),
    ensures
        find_from(s, pat, from) is None,
{
    lemma_find_from_bounds(s, pat, from);
}

proof fn lemma_count_bound(s: Seq<u8>, pat: Seq<u8>, from: nat)
    requires
        pat.len() > 0,
        from <= s.len(),
    ensures
        count_from(s, pat, from) * pat.len() <= s.len() - from,
    decreases s.len() - from,
{
    let k = pat.len();
    if s.len() < from + k {
        assert(count_from(s, pat, from) == 0);
        assert(0 * k == 0) by (nonlinear_arith);
    } else if occurs_at(s, pat, from as int) {
        lemma_count_bound(s, pat, from + k);
        let c = count_from(s, pat, from + k);
        assert(count_from(s, pat, from) == 1 + c);
        assert((1 + c) * k == k + c * k) by (nonlinear_arith);
    } else {
        lemma_count_bound(s, pat, from + 1);
        assert(count_from(s, pat, from) == count_from(s, pat, from + 1));
    }
}

/// Where `pat` occurs nowhere, it is counted zero times.
proof fn lemma_count_absent(s: Seq<u8>, pat: Seq<u8>, from: nat)
    requires
        forall|i: int| !occurs_at(s, pat, i),
    ensures
        count_from(s, pat, from) == 0,
    decreases s.len() - from,
{
    if pat.len() > 0 && s.len() >= from + pat.len() {
        assert(!occurs_at(s, pat, from as int));
        lemma_count_absent(s, pat, from + 1);
    }
}

/// A text in which `" BETWEEN "` does not occur is left as it is by the
/// masking, so its complexity is the number of its `" AND "` plus the number
/// of its `" OR "`: every such word is a logical operator.
pub proof fn law_without_between_every_operator_counts(text: Seq<u8>)
    requires
        forall|i: int| !occurs_at(text, between_word(), i),
    ensures
        complexity_of_text(text) == count_occurrences(text, and_word()) + count_occurrences(
            text,
            or_word(),
        ),
{
    lemma_find_from_absent(text, between_word(), 0);
}

/// No false positives: a text in which neither `" AND "` nor `" OR "` occurs
/// as a whole word (such as one whose only `AND` and `OR` letters stand
/// inside words like `BANANA` or `ORANGE`) has complexity zero.
pub proof fn law_no_operator_words_means_zero(text: Seq<u8>)
    requires
        forall|i: int| !occurs_at(text, and_word(), i),
        forall|i: int| !occurs_at(text, or_word(), i),
    ensures
        complexity_of_text(text) == 0,
{
    lemma_find_from_bounds(text, between_word(), 0);
    match find_from(text, between_word(), 0) {
        None => {},
        Some(p) => {
            lemma_find_from_absent(text, and_word(), p + 9);
        },
    }
    assert(mask_between_clauses(text) == text);
    lemma_count_absent(text, and_word(), 0);
    lemma_count_absent(text, or_word(), 0);
}

/// Masking keeps the length of the text.
proof fn lemma_mask_keeps_length(s: Seq<u8>)
    ensures
        mask_between_clauses(s).len() == s.len(),
    decreases unmasked(s),
{
    lemma_find_from_bounds(s, between_word(), 0);
    if let Some(p) = find_from(s, between_word(), 0) {
        lemma_find_from_bounds(s, and_word(), p + 9);
        if let Some(q) = find_from(s, and_word(), p + 9) {
            lemma_mask_clause_shrinks(s, p as int, q as int);
            lemma_mask_keeps_length(mask_clause(s, p as int, q as int));
        }
    }
}

/// Masking only ever writes over keyword letters: a `_` byte stays `_`.
proof fn lemma_mask_keeps_underscores(s: Seq<u8>, k: int)
    requires
        0 <= k < s.len(),
        s[k] == 95u8,
    ensures
        mask_between_clauses(s)[k] == 95u8,
    decreases unmasked(s),
{
    lemma_find_from_bounds(s, between_word(), 0);
    if let Some(p) = find_from(s, between_word(), 0) {
        lemma_find_from_bounds(s, and_word(), p + 9);
        if let Some(q) = find_from(s, and_word(), p + 9) {
            let p = p as int;
            let q = q as int;
            lemma_mask_clause_shrinks(s, p, q);
            let masked = splice(s, q, 5, and_mask());
            let next = mask_clause(s, p, q);
            if p <= k < p + 9 {
                assert(s.subrange(p, p + 9)[k - p] == s[k]);
            }
            if q <= k < q + 5 {
                assert(s.subrange(q, q + 5)[k - q] == s[k]);
            }
            assert(masked[k] == s[k]);
            assert(next[k] == masked[k]);
            lemma_mask_keeps_underscores(next, k);
        }
    }
}

/// The `AND` that closes a `BETWEEN` clause is never counted. Where the
/// first `" BETWEEN "` stands at `p` and the first `" AND "` after it at
/// `q`, the text that is counted holds no `" AND "` at `q`, and masking
/// that clause leaves the complexity as it is.
pub proof fn law_between_and_is_never_counted(text: Seq<u8>, p: nat, q: nat)
    requires
        find_from(text, between_word(), 0) == Some(p),
        find_from(text, and_word(), p + 9) == Some(q),
    ensures
        occurs_at(text, and_word(), q as int),
        !occurs_at(mask_between_clauses(text), and_word(), q as int),
        complexity_of_text(text) == complexity_of_text(mask_clause(text, p as int, q as int)),
{
    lemma_find_from_bounds(text, between_word(), 0);
    lemma_find_from_bounds(text, and_word(), p + 9);
    let k: int = q as int + 1;
    let next = mask_clause(text, p as int, q as int);
    lemma_mask_clause_shrinks(text, p as int, q as int);
    let masked = splice(text, q as int, 5, and_mask());
    assert(masked[k] == and_mask()[1]);
    assert(next[k] == masked[k]);
    lemma_mask_keeps_underscores(next, k);
    lemma_mask_keeps_length(next);
    let fin = mask_between_clauses(text);
    assert(fin == mask_between_clauses(next));
    if occurs_at(fin, and_word(), q as int) {
        assert(fin.subrange(q as int, q as int + 5)[1] == fin[k]);
        assert(and_word()[1] == 65u8);
    }
}

/// Where `pat` stands in the concatenation `x + y`: an occurrence that lies
/// in `x`, or in `y`, is one of `x`, or of `y`.
proof fn lemma_occurs_in_concat(x: Seq<u8>, y: Seq<u8>, pat: Seq<u8>, j: int)
    ensures
        j + pat.len() <= x.len() ==> (occurs_at(x + y, pat, j) == occurs_at(x, pat, j)),
        j >= x.len() ==> (occurs_at(x + y, pat, j) == occurs_at(y, pat, j - x.len())),
{
    if 0 <= j && j + pat.len() <= x.len() {
        assert((x + y).subrange(j, j + pat.len()) =~= x.subrange(j, j + pat.len()));
    }
    if j >= x.len() && j + pat.len() <= x.len() + y.len() {
        assert((x + y).subrange(j, j + pat.len()) =~= y.subrange(
            j - x.len(),
            j - x.len() + pat.len(),
        ));
    }
}

/// An occurrence of `pat` at `j` shows `pat`'s bytes at the offsets it covers.
proof fn lemma_occurrence_covers(s: Seq<u8>, pat: Seq<u8>, j: int, k: int)
    requires
        occurs_at(s, pat, j),
        j <= k < j + pat.len(),
    ensures
        s[k] == pat[k - j],
{
    assert(s.subrange(j, j + pat.len())[k - j] == s[k]);
}

/// Counting in `y` from offset `k` is counting in `x + y` from `x.len() + k`.
proof fn lemma_count_shift(x: Seq<u8>, y: Seq<u8>, pat: Seq<u8>, k: nat)
    ensures
        count_from(x + y, pat, x.len() + k) == count_from(y, pat, k),
    decreases y.len() - k,
{
    lemma_occurs_in_concat(x, y, pat, (x.len() + k) as int);
    if pat.len() > 0 && k + pat.len() <= y.len() {
        if occurs_at(y, pat, k as int) {
            lemma_count_shift(x, y, pat, k + pat.len());
        } else {
            lemma_count_shift(x, y, pat, k + 1);
        }
    }
}

/// Where no occurrence of `pat` straddles the join of `x` and `y`, the
/// count over `x + y` is the count over `x` plus the count over `y`.
proof fn lemma_count_concat(x: Seq<u8>, y: Seq<u8>, pat: Seq<u8>, i: nat)
    requires
        pat.len() > 0,
        i <= x.len(),
        forall|j: int| j < x.len() < j + pat.len() ==> !occurs_at(x + y, pat, j),
    ensures
        count_from(x + y, pat, i) == count_from(x, pat, i) + count_from(y, pat, 0),
    decreases x.len() - i,
{
    let m = pat.len();
    if i == x.len() {
        lemma_count_shift(x, y, pat, 0);
    } else if i + m <= x.len() {
        lemma_occurs_in_concat(x, y, pat, i as int);
        if occurs_at(x, pat, i as int) {
            lemma_count_concat(x, y, pat, i + m);
        } else {
            lemma_count_concat(x, y, pat, i + 1);
        }
    } else {
        assert(!occurs_at(x + y, pat, i as int));
        if (x + y).len() >= i + m {
            lemma_count_concat(x, y, pat, i + 1);
        }
    }
}

/// A byte that `pat` does not contain separates: no occurrence of `pat`
/// straddles a join next to it.
proof fn lemma_separator(x: Seq<u8>, y: Seq<u8>, pat: Seq<u8>, c: u8)
    requires
        forall|k: int| 0 <= k < pat.len() ==> pat[k] != c,
        (x.len() > 0 && x.last() == c) || (y.len() > 0 && y[0] == c),
    ensures
        forall|j: int| j < x.len() < j + pat.len() ==> !occurs_at(x + y, pat, j),
{
    assert forall|j: int| j < x.len() < j + pat.len() implies !occurs_at(x + y, pat, j) by {
        if occurs_at(x + y, pat, j) {
            if x.len() > 0 && x.last() == c {
                lemma_occurrence_covers(x + y, pat, j, x.len() - 1);
            } else {
                lemma_occurrence_covers(x + y, pat, j, x.len() as int);
            }
        }
    }
}

/// `(t)`: the text between parentheses.
pub open spec fn parenthesized(t: Seq<u8>) -> Seq<u8> {
    seq![40u8] + t + seq![41u8]
}

/// The words that are counted or masked contain no parenthesis.
proof fn lemma_words_without_parentheses()
    ensures
        forall|k: int| 0 <= k < between_word().len() ==> between_word()[k] != 40u8 && between_word()[k] != 41u8,
        forall|k: int| 0 <= k < and_word().len() ==> and_word()[k] != 40u8 && and_word()[k] != 41u8,
        forall|k: int| 0 <= k < or_word().len() ==> or_word()[k] != 40u8 && or_word()[k] != 41u8,
{
}

/// Counting in `(t)` is counting in `t`.
proof fn lemma_count_parenthesized(t: Seq<u8>, pat: Seq<u8>)
    requires
        pat.len() > 1,
        forall|k: int| 0 <= k < pat.len() ==> pat[k] != 40u8 && pat[k] != 41u8,
    ensures
        count_occurrences(parenthesized(t), pat) == count_occurrences(t, pat),
{
    let open = seq![40u8];
    let close = seq![41u8];
    lemma_separator(t, close, pat, 41u8);
    lemma_count_concat(t, close, pat, 0);
    assert(count_from(close, pat, 0) == 0);
    lemma_separator(open, t + close, pat, 40u8);
    lemma_count_concat(open, t + close, pat, 0);
    assert(count_from(open, pat, 0) == 0);
    assert(parenthesized(t) =~= open + (t + close));
}

/// `(a) W (b)` holds no `" BETWEEN "` where neither `a` nor `b` does.
proof fn lemma_join_without_between(a: Seq<u8>, w: Seq<u8>, b: Seq<u8>)
    requires
        w.len() < 9,
        forall|i: int| !occurs_at(a, between_word(), i),
        forall|i: int| !occurs_at(b, between_word(), i),
    ensures
        forall|j: int| !occurs_at(parenthesized(a) + w + parenthesized(b), between_word(), j),
{
    let t = parenthesized(a) + w + parenthesized(b);
    let pat = between_word();
    let pa: int = a.len() as int + 1;
    let pb: int = a.len() as int + 2 + w.len();
    let pe: int = t.len() - 1;
    lemma_words_without_parentheses();
    assert(t[0] == 40u8);
    assert(t[pa] == 41u8);
    assert(t[pb] == 40u8);
    assert(t[pe] == 41u8);
    assert forall|j: int| !occurs_at(t, pat, j) by {
        if occurs_at(t, pat, j) {
            if j == 0 {
                lemma_occurrence_covers(t, pat, j, 0);
            } else if j + 9 <= pa {
                assert(t.subrange(j, j + 9) =~= a.subrange(j - 1, j + 8));
                assert(occurs_at(a, pat, j - 1));
            } else if j <= pa {
                lemma_occurrence_covers(t, pat, j, pa);
            } else if j <= pb {
                lemma_occurrence_covers(t, pat, j, pb);
            } else if j + 9 <= pe {
                assert(t.subrange(j, j + 9) =~= b.subrange(j - pb - 1, j - pb + 8));
                assert(occurs_at(b, pat, j - pb - 1));
            } else {
                lemma_occurrence_covers(t, pat, j, pe);
            }
        }
    }
}

/// The counts of `pat` in `(a) W (b)` add up.
proof fn lemma_count_join(a: Seq<u8>, w: Seq<u8>, b: Seq<u8>, pat: Seq<u8>)
    requires
        pat.len() > 1,
        forall|k: int| 0 <= k < pat.len() ==> pat[k] != 40u8 && pat[k] != 41u8,
    ensures
        count_occurrences(parenthesized(a) + w + parenthesized(b), pat) == count_occurrences(a, pat)
            + count_occurrences(w, pat) + count_occurrences(b, pat),
{
    let pa = parenthesized(a);
    let pb = parenthesized(b);
    lemma_separator(pa, w + pb, pat, 41u8);
    lemma_count_concat(pa, w + pb, pat, 0);
    assert(pb[0] == 40u8);
    lemma_separator(w, pb, pat, 40u8);
    lemma_count_concat(w, pb, pat, 0);
    lemma_count_parenthesized(a, pat);
    lemma_count_parenthesized(b, pat);
    assert(pa + w + pb =~= pa + (w + pb));
}

/// Joining two expressions, each without a `BETWEEN` clause, as
/// `(a) AND (b)` or `(a) OR (b)` adds exactly one operator to theirs.
/// Stated on the upper-cased bytes of the expressions.
pub proof fn law_joining_adds_one_operator(a: Seq<u8>, b: Seq<u8>)
    requires
        forall|i: int| !occurs_at(a, between_word(), i),
        forall|i: int| !occurs_at(b, between_word(), i),
    ensures
        complexity_of_text(parenthesized(a) + and_word() + parenthesized(b)) == complexity_of_text(a)
            + complexity_of_text(b) + 1,
        complexity_of_text(parenthesized(a) + or_word() + parenthesized(b)) == complexity_of_text(a)
            + complexity_of_text(b) + 1,
{
    lemma_words_without_parentheses();
    law_without_between_every_operator_counts(a);
    law_without_between_every_operator_counts(b);
    lemma_join_without_between(a, and_word(), b);
    lemma_join_without_between(a, or_word(), b);
    law_without_between_every_operator_counts(parenthesized(a) + and_word() + parenthesized(b));
    law_without_between_every_operator_counts(parenthesized(a) + or_word() + parenthesized(b));
    lemma_count_join(a, and_word(), b, and_word());
    lemma_count_join(a, and_word(), b, or_word());
    lemma_count_join(a, or_word(), b, and_word());
    lemma_count_join(a, or_word(), b, or_word());
    reveal_with_fuel(count_from, 3);
    assert(and_word().subrange(0, 5) =~= and_word());
    assert(or_word().subrange(0, 4) =~= or_word());
    assert(count_occurrences(and_word(), and_word()) == 1);
    assert(count_occurrences(or_word(), or_word()) == 1);
    assert(count_occurrences(or_word(), and_word()) == 0);
    assert(!occurs_at(and_word(), or_word(), 0));
    assert(!occurs_at(and_word(), or_word(), 1));
    assert(count_occurrences(and_word(), or_word()) == 0);
}

/// Masking a clause overwrites the letters of its two keywords with `_`
/// and nothing else: the spaces around them and every other byte stay.
pub proof fn law_mask_clause_overwrites_only_keyword_letters(s: Seq<u8>, p: int, q: int)
    requires
        occurs_at(s, between_word(), p),
        occurs_at(s, and_word(), q),
        p + 9 <= q,
    ensures
        mask_clause(s, p, q).len() == s.len(),
        forall|k: int|
            0 <= k < s.len() ==> #[trigger] mask_clause(s, p, q)[k] == if (p < k < p + 8) || (q < k
                < q + 4) {
                95u8
            } else {
                s[k]
            },
{
    lemma_mask_clause_shrinks(s, p, q);
    let masked = splice(s, q, 5, and_mask());
    let r = mask_clause(s, p, q);
    assert forall|k: int| 0 <= k < s.len() implies #[trigger] r[k] == if (p < k < p + 8) || (q < k
        < q + 4) {
        95u8
    } else {
        s[k]
    } by {
        if p <= k < p + 9 {
            assert(s.subrange(p, p + 9)[k - p] == s[k]);
            assert(r[k] == between_mask()[k - p]);
        } else if q <= k < q + 5 {
            assert(s.subrange(q, q + 5)[k - q] == s[k]);
            assert(r[k] == masked[k]);
            assert(masked[k] == and_mask()[k - q]);
        } else {
            assert(r[k] == masked[k]);
            assert(masked[k] == s[k]);
        }
    }
}

/// A `BETWEEN` with no `" AND "` after it masks nothing: every operator in
/// the text counts.
pub proof fn law_between_without_and_masks_nothing(text: Seq<u8>, p: nat)
    requires
        find_from(text, between_word(), 0) == Some(p),
        find_from(text, and_word(), p + 9) is None,
    ensures
        complexity_of_text(text) == count_occurrences(text, and_word()) + count_occurrences(
            text,
            or_word(),
        ),
{
}

/// Case does not matter: expressions that upper-case to the same text have
/// the same complexity.
pub proof fn law_complexity_ignores_case(e1: Seq<char>, e2: Seq<char>)
    requires
        spec_to_uppercase(e1) == spec_to_uppercase(e2),
    ensures
        complexity(e1) == complexity(e2),
{
}

fn between_bytes() -> (v: Vec<u8>)
    ensures
        v@ == between_word(),
{
    let v: Vec<u8> = vec![32u8, 66u8, 69u8, 84u8, 87u8, 69u8, 69u8, 78u8, 32u8];
    assert(v@ =~= between_word());
    v
}

fn and_bytes() -> (v: Vec<u8>)
    ensures
        v@ == and_word(),
{
    let v: Vec<u8> = vec![32u8, 65u8, 78u8, 68u8, 32u8];
    assert(v@ =~= and_word());
    v
}

fn or_bytes() -> (v: Vec<u8>)
    ensures
        v@ == or_word(),
{
    let v: Vec<u8> = vec![32u8, 79u8, 82u8, 32u8];
    assert(v@ =~= or_word());
    v
}

fn and_mask_bytes() -> (v: Vec<u8>)
    ensures
        v@ == and_mask(),
{
    let v: Vec<u8> = vec![32u8, 95u8, 95u8, 95u8, 32u8];
    assert(v@ =~= and_mask());
    v
}

fn between_mask_bytes() -> (v: Vec<u8>)
    ensures
        v@ == between_mask(),
{
    let v: Vec<u8> = vec![32u8, 95u8, 95u8, 95u8, 95u8, 95u8, 95u8, 95u8, 32u8];
    assert(v@ =~= between_mask());
    v
}

/// Whether `pat` stands in `s` at offset `i`.
fn matches_at(s: &Vec<u8>, pat: &Vec<u8>, i: usize) -> (r: bool)
    ensures
        r == occurs_at(s@, pat@, i as int),
{
    let n = s.len();
    if i > n || pat.len() > n - i {
        return false;
    }
    let mut j: usize = 0;
    while j < pat.len()
        invariant
            n == s@.len(),
            i + pat@.len() <= n,
            j <= pat@.len(),
            forall|k: int| 0 <= k < j ==> s@[i + k] == pat@[k],
        decreases pat.len() - j,
    {
        if s[i + j] != pat[j] {
            assert(s@.subrange(i as int, i + pat@.len())[j as int] != pat@[j as int]);
            return false;
        }
        j = j + 1;
    }
    assert(s@.subrange(i as int, i + pat@.len()) =~= pat@);
    true
}

/// The first offset at or after `from` at which `pat` occurs in `s`.
fn find(s: &Vec<u8>, pat: &Vec<u8>, from: usize) -> (r: Option<usize>)
    requires
        from <= s.len(),
    ensures
        match r {
            Some(i) => find_from(s@, pat@, from as nat) == Some(i as nat),
            None => find_from(s@, pat@, from as nat) is None,
        },
{
    let mut i = from;
    while pat.len() <= s.len() - i
        invariant
            from <= i <= s.len(),
            find_from(s@, pat@, from as nat) == find_from(s@, pat@, i as nat),
        decreases s.len() - i,
    {
        if matches_at(s, pat, i) {
            return Some(i);
        }
        if i == s.len() {
            return None;
        }
        i = i + 1;
    }
    None
}

/// The number of non-overlapping occurrences of `pat` in `s`.
fn count(s: &Vec<u8>, pat: &Vec<u8>) -> (r: usize)
    requires
        pat.len() > 0,
    ensures
        r == count_occurrences(s@, pat@),
{
    let mut i: usize = 0;
    let mut c: usize = 0;
    while pat.len() <= s.len() - i
        invariant
            pat@.len() > 0,
            i <= s.len(),
            c <= i,
            c + count_from(s@, pat@, i as nat) == count_occurrences(s@, pat@),
        decreases s.len() - i,
    {
        if matches_at(s, pat, i) {
            c = c + 1;
            i = i + pat.len();
        } else {
            i = i + 1;
        }
    }
    c
}

/// `s` with the `len` bytes at offset `at` replaced by `with`.
fn splice_bytes(s: &Vec<u8>, at: usize, len: usize, with: &Vec<u8>) -> (r: Vec<u8>)
    requires
        at <= s.len(),
        len <= s.len() - at,
    ensures
        r@ == splice(s@, at as int, len as int, with@),
{
    let mut r: Vec<u8> = Vec::new();
    let mut i: usize = 0;
    while i < at
        invariant
            i <= at <= s.len(),
            r@ == s@.subrange(0, i as int),
        decreases at - i,
    {
        r.push(s[i]);
        i = i + 1;
        assert(r@ =~= s@.subrange(0, i as int));
    }
    let mut j: usize = 0;
    while j < with.len()
        invariant
            i == at,
            j <= with.len(),
            r@ == s@.subrange(0, at as int) + with@.subrange(0, j as int),
        decreases with.len() - j,
    {
        r.push(with[j]);
        j = j + 1;
        assert(r@ =~= s@.subrange(0, at as int) + with@.subrange(0, j as int));
    }
    let mut k: usize = at + len;
    while k < s.len()
        invariant
            at + len <= k <= s.len(),
            r@ == s@.subrange(0, at as int) + with@ + s@.subrange(at + len, k as int),
        decreases s.len() - k,
    {
        r.push(s[k]);
        k = k + 1;
        assert(r@ =~= s@.subrange(0, at as int) + with@ + s@.subrange(at + len, k as int));
    }
    assert(with@.subrange(0, with@.len() as int) =~= with@);
    r
}

/// The complexity of an upper-cased text.
pub fn count_logical_operators(upper: &str) -> (r: usize)
    ensures
        r == complexity_of_text(upper.spec_bytes()),
{
    let mut s: Vec<u8> = upper.as_bytes_vec();
    let ghost original = s@;
    let between = between_bytes();
    let and_w = and_bytes();
    let or_w = or_bytes();
    let and_m = and_mask_bytes();
    let between_m = between_mask_bytes();
    loop
        invariant_except_break
            between@ == between_word(),
            and_w@ == and_word(),
            and_m@ == and_mask(),
            between_m@ == between_mask(),
            mask_between_clauses(s@) == mask_between_clauses(original),
            original == upper.spec_bytes(),
        ensures
            mask_between_clauses(original) == s@,
            original == upper.spec_bytes(),
        decreases unmasked(s@),
    {
        proof {
            lemma_find_from_bounds(s@, between_word(), 0);
        }
        match find(&s, &between, 0) {
            None => {
                break;
            },
            Some(p) => {
                proof {
                    lemma_find_from_bounds(s@, between_word(), 0);
                    assert(s@.len() == s.len());
                }
                match find(&s, &and_w, p + 9) {
                    None => {
                        break;
                    },
                    Some(q) => {
                        proof {
                            lemma_find_from_bounds(s@, and_word(), (p + 9) as nat);
                            lemma_mask_clause_shrinks(s@, p as int, q as int);
                        }
                        let masked = splice_bytes(&s, q, 5, &and_m);
                        s = splice_bytes(&masked, p, 9, &between_m);
                    },
                }
            },
        }
    }
    let and_count = count(&s, &and_w);
    let or_count = count(&s, &or_w);
    proof {
        lemma_count_bound(s@, and_word(), 0);
        lemma_count_bound(s@, or_word(), 0);
        assert(and_count * 5 <= s@.len());
        assert(or_count * 4 <= s@.len());
        assert(s@.len() == s.len());
    }
    and_count + or_count
}

/// The complexity of an expression: the number of logical `AND` and `OR`
/// operators in it, not counting the `AND` of a `BETWEEN` clause.
pub fn calculate_complexity(expr: &str) -> (r: usize)
    ensures
        r == complexity(expr@),
{
    let upper = to_uppercase(expr);
    count_logical_operators(upper.as_str())
}

} // verus!
