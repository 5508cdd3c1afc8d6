use sqlexpr_load_congo_rust::complexity::{calculate_complexity, count_logical_operators};

#[test]
fn test_simple_expressions() {
    assert_eq!(calculate_complexity("a = 1 AND b = 2"), 1);
    assert_eq!(calculate_complexity("a = 1 OR b = 2"), 1);
    assert_eq!(calculate_complexity("a = 1"), 0);
}

#[test]
fn test_complex_expressions() {
    assert_eq!(calculate_complexity("a = 1 AND b = 2 OR c = 3"), 2);
    assert_eq!(calculate_complexity("a = 1 AND b = 2 AND c = 3 OR d = 4"), 3);
}

#[test]
fn test_no_false_positives() {
    // "BANANA" contains "AND" but shouldn't match
    assert_eq!(calculate_complexity("s = 'BANANA' OR s = 'ORANGE'"), 1);
    assert_eq!(calculate_complexity("s = 'BANANA'"), 0);
}

#[test]
fn test_between_clause() {
    // AND within BETWEEN should not be counted
    assert_eq!(calculate_complexity("f92 BETWEEN 20 AND 30"), 0);
    assert_eq!(calculate_complexity("f92 NOT BETWEEN 20 AND 30"), 0);
}

#[test]
fn test_between_with_logical_operators() {
    // BETWEEN clause AND + logical AND
    assert_eq!(calculate_complexity("(f92 BETWEEN 20 AND 30) AND (x = 5)"), 1);

    // BETWEEN clause AND + logical OR
    assert_eq!(calculate_complexity("(f92 NOT BETWEEN 20 AND 30) OR (x = 5)"), 1);

    // Multiple BETWEEN clauses with logical operators
    assert_eq!(
        calculate_complexity("(f92 BETWEEN 20 AND 30) AND (f93 BETWEEN 40 AND 50)"),
        1
    );

    // Complex: BETWEEN + multiple logical operators
    assert_eq!(
        calculate_complexity("(f92 BETWEEN 20 AND 30) AND (x = 5) OR (y = 10)"),
        2
    );
}

#[test]
fn test_real_world_examples() {
    assert_eq!(
        calculate_complexity("(s76 NOT LIKE '_sometext') AND (f92 NOT BETWEEN 20 AND 30)"),
        1 // Only the logical AND, not the BETWEEN AND
    );

    assert_eq!(
        calculate_complexity("(s69 <= 'banana') OR (s57 < 'banana') AND (i BETWEEN 1 AND 10)"),
        2 // One OR and one logical AND, BETWEEN AND not counted
    );
}

#[test]
fn lower_case_operators_are_counted() {
    // Counting happens on the upper-cased text.
    assert_eq!(calculate_complexity("a = 1 and b = 2 or c = 3"), 2);
    assert_eq!(calculate_complexity("x between 1 and 2"), 0);
    assert_eq!(calculate_complexity("A = 1 aNd B = 2"), 1);
}

#[test]
fn empty_expression_has_no_operators() {
    assert_eq!(calculate_complexity(""), 0);
    assert_eq!(count_logical_operators(""), 0);
}

#[test]
fn operators_need_surrounding_spaces() {
    assert_eq!(calculate_complexity("a=1AND b=2"), 0);
    assert_eq!(calculate_complexity("AND OR"), 0);
    assert_eq!(calculate_complexity("x OR"), 0);
    assert_eq!(calculate_complexity(" OR "), 1);
}

#[test]
fn overlapping_operator_words_count_once() {
    // " AND AND " holds two overlapping " AND "; only the first counts.
    assert_eq!(count_logical_operators("X AND AND Y"), 1);
    assert_eq!(count_logical_operators("X OR OR Y"), 1);
    assert_eq!(count_logical_operators("X AND  AND Y"), 2);
}

#[test]
fn between_without_and_is_left_alone() {
    assert_eq!(calculate_complexity("x BETWEEN 1 OR y = 2"), 1);
    assert_eq!(calculate_complexity("x BETWEEN 1"), 0);
}

#[test]
fn between_masks_only_the_first_following_and() {
    assert_eq!(calculate_complexity("x BETWEEN 1 AND 2 AND y = 3"), 1);
    assert_eq!(calculate_complexity("a = 1 AND x BETWEEN 1 AND 2"), 1);
}

#[test]
fn masking_keeps_the_value_after_between() {
    // Only the nine bytes of " BETWEEN " are masked: the value that follows
    // stays whole, so no operator is exposed.
    assert_eq!(calculate_complexity("x BETWEEN band AND 10"), 0);
    assert_eq!(count_logical_operators("X BETWEEN XOR Y AND Z"), 0);
    assert_eq!(count_logical_operators("X BETWEEN XBETWEEN 1 AND 2"), 0);
    assert_eq!(count_logical_operators("X BETWEEN  AND 2 OR Y"), 1);
}

#[test]
fn non_ascii_after_between_is_fine() {
    assert_eq!(calculate_complexity("x between é and y"), 0);
    assert_eq!(count_logical_operators("X BETWEEN É AND Y OR Z"), 1);
    assert_eq!(calculate_complexity("name = 'é' and x between 1 and 2"), 1);
}

#[test]
fn joining_two_expressions_adds_one() {
    let a = "a = 1 OR b = 'BANANA'";
    let b = "c = 3 AND d = 4 AND e = 5";
    let ca = calculate_complexity(a);
    let cb = calculate_complexity(b);
    assert_eq!((ca, cb), (1, 2));
    assert_eq!(calculate_complexity(&format!("({}) AND ({})", a, b)), ca + cb + 1);
    assert_eq!(calculate_complexity(&format!("({}) OR ({})", a, b)), ca + cb + 1);
    assert_eq!(calculate_complexity("() AND ()"), 1);
}

#[test]
fn the_and_of_each_between_clause_is_not_counted() {
    assert_eq!(calculate_complexity("x BETWEEN 1 AND 2 OR y BETWEEN 3 AND 4"), 1);
    assert_eq!(calculate_complexity("x BETWEEN 1 AND 2 AND y BETWEEN 3 AND 4 AND z = 1"), 2);
}
