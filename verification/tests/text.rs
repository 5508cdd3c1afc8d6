use sqlexpr_load_congo_rust::text::{decimal_string, push_center, push_decimal, push_pad_left, push_pad_right, push_repeat};

#[test]
fn decimal_matches_display() {
    for n in [0usize, 7, 9, 10, 42, 100, 1000, 65535, usize::MAX] {
        assert_eq!(decimal_string(n), n.to_string());
    }
}

#[test]
fn push_decimal_appends() {
    let mut s = "n=".to_string();
    push_decimal(&mut s, 305);
    assert_eq!(s, "n=305");
}

#[test]
fn padding_matches_format_specifiers() {
    for (t, w) in [("Metric", 10usize), ("Metric", 11), ("Metric", 3), ("", 4), ("Milliseconds", 15), ("é", 4)] {
        let mut s = String::new();
        push_center(&mut s, t, w);
        assert_eq!(s, format!("{:^width$}", t, width = w));
        let mut s = String::new();
        push_pad_left(&mut s, t, w);
        assert_eq!(s, format!("{:>width$}", t, width = w));
        let mut s = String::new();
        push_pad_right(&mut s, t, w);
        assert_eq!(s, format!("{:width$}", t, width = w));
    }
}

#[test]
fn repeat_matches_str_repeat() {
    let mut s = "|".to_string();
    push_repeat(&mut s, '-', 5);
    assert_eq!(s, format!("|{}", "-".repeat(5)));
}
