use lcs_diff::diff::{try_lcs, join, lcs};
use lcs_diff::lcs_table::{entry_text, lcs_entry_at_boundary, truncate};
use lcs_diff::{split_common_parts, LcsEntry, LcsTable, Step};

type Parts<'a> = (&'a [&'a str], &'a [&'a str], &'a [&'a str], &'a [&'a str]);

fn parts<'a>(h: &'a [&'a str], x: &'a [&'a str], y: &'a [&'a str], t: &'a [&'a str]) -> Parts<'a> {
    (h, x, y, t)
}

#[test]
fn test_lcs_table() {
    let x: Vec<&str> = "A G C A T".split(" ").collect();
    let y: Vec<&str> = "G A C".split(" ").collect();

    let lcs = LcsTable::from(&x, &y);

    assert_eq!(lcs.render(),
        "+---+----------+----------+----------+----------+----------+\
       \n|   | A        | G        | C        | A        | T        |\
       \n+---+----------+----------+----------+----------+----------+\
       \n| G | 2 ↓ or → | 2 ↘      | 1 ↓ or → | 1 ↓      | 0 ↓ or → |\
       \n+---+----------+----------+----------+----------+----------+\
       \n| A | 2 ↘      | 1 ↓ or → | 1 ↓ or → | 1 ↘      | 0 ↓ or → |\
       \n+---+----------+----------+----------+----------+----------+\
       \n| C | 1 →      | 1 →      | 1 ↘      | 0 ↓ or → | 0 ↓ or → |\
       \n+---+----------+----------+----------+----------+----------+\
       \n");
}

#[test]
fn test_lcs_split_common_parts() {
    let none: [&str; 0] = [];
    assert_eq!(split_common_parts(&["a"], &["a"]), parts(&["a"], &none, &none, &none));
    assert_eq!(split_common_parts(&["b"], &["c"]), parts(&none, &["b"], &["c"], &none));
    assert_eq!(split_common_parts(&["a", "b"], &["a", "c"]), parts(&["a"], &["b"], &["c"], &none));
    assert_eq!(split_common_parts(&["b", "d"], &["c", "d"]), parts(&none, &["b"], &["c"], &["d"]));
    assert_eq!(
        split_common_parts(&["a", "b", "d"], &["a", "c", "d"]),
        parts(&["a"], &["b"], &["c"], &["d"])
    );
    assert_eq!(
        split_common_parts(&["a1", "a2", "b1", "b2", "d1", "d2"], &["a1", "a2", "c1", "c2", "d1", "d2"]),
        parts(&["a1", "a2"], &["b1", "b2"], &["c1", "c2"], &["d1", "d2"])
    );
}

#[test]
fn test_lcs() {
    assert_eq!(lcs("AGCAT", "GAC", ""), (4, "AC".to_string()));

    assert_eq!(lcs("a b : g", "b a : b b : g g", " "), (4, "a b : g".to_string()));

    assert_eq!(lcs("test", "test", ""), (0, "test".to_string()));

    assert_eq!(
        lcs(
            "The quick brown fox jumps over the lazy dog",
            "The quick brown dog leaps over the lazy cat",
            "\n",
        ),
        (2, "".to_string())
    );

    assert_eq!(lcs("test", "tost", ""), (2, "tst".to_string()));

    assert_eq!(lcs("test", "test", " "), (0, "test".to_string()));

    assert_eq!(
        lcs(
            "The quick brown fox jumps over the lazy dog",
            "The quick brown dog leaps over the lazy cat",
            "",
        ),
        (16, "The quick brown o ps over the lazy ".to_string())
    );
    assert_eq!(
        lcs(
            "The quick brown fox jumps over the lazy dog",
            "The quick brown dog leaps over the lazy cat",
            " ",
        ),
        (6, "The quick brown over the lazy".to_string())
    );

    assert_eq!(
        lcs(
            "The quick brown fox jumps over the lazy dog",
            "The quick brown fox jumps over the lazy dog",
            "\n",
        ),
        (0, "The quick brown fox jumps over the lazy dog".to_string())
    );
}

#[test]
fn split_keeps_affixes_and_rebuilds_both_sequences() {
    let x = ["p", "a", "b", "s"];
    let y = ["p", "c", "s"];
    let (head, x_mid, y_mid, tail) = split_common_parts(&x, &y);
    assert_eq!(head, &["p"]);
    assert_eq!(x_mid, &["a", "b"]);
    assert_eq!(y_mid, &["c"]);
    assert_eq!(tail, &["s"]);
    assert_eq!([head, x_mid, tail].concat(), x.to_vec());
    assert_eq!([head, y_mid, tail].concat(), y.to_vec());
}

#[test]
fn split_suffix_does_not_overlap_prefix_when_x_is_longer() {
    let none: [&str; 0] = [];
    assert_eq!(split_common_parts(&["a", "b"], &["b"]), parts(&none, &["a"], &none, &["b"]));
    assert_eq!(split_common_parts(&["a", "a", "a"], &["a"]), parts(&["a"], &["a", "a"], &none, &none));
    assert_eq!(split_common_parts(&["a"], &["a", "a", "a"]), parts(&["a"], &none, &["a", "a"], &none));
}

#[test]
fn split_of_empty_sequences() {
    let none: [&str; 0] = [];
    assert_eq!(split_common_parts(&none, &none), parts(&none, &none, &none, &none));
    assert_eq!(split_common_parts(&none, &["a"]), parts(&none, &none, &["a"], &none));
}

#[test]
fn identical_inputs_give_zero_distance() {
    assert_eq!(lcs("one two three", "one two three", " "), (0, "one two three".to_string()));
    assert_eq!(lcs("", "", ","), (0, "".to_string()));
    assert_eq!(lcs("x,,y", "x,,y", ","), (0, "x,,y".to_string()));
}

#[test]
fn distance_lies_between_difference_and_sum() {
    let (d, merged) = lcs("a b c", "x", " ");
    assert_eq!(d, 4);
    assert_eq!(merged, "");
    let (d, merged) = lcs("a,b", "a,b,c", ",");
    assert_eq!(d, 1);
    assert_eq!(merged, "a,b");
    assert!(d >= 1 && d <= 5);
}

#[test]
fn tie_is_broken_towards_the_second_sequence() {
    assert_eq!(lcs("b", "c", ""), (2, "".to_string()));
    let x = ["b"];
    let y = ["c"];
    let table = LcsTable::from(&x, &y);
    let entry = table.entry(0, 0);
    assert_eq!(entry.step, Step::XorY);
    assert_eq!(entry.len, 0);
    let mut it = table.iter();
    assert_eq!(it.next(), Some((Step::OnlyY, "c")));
    assert_eq!(it.next(), Some((Step::OnlyX, "b")));
    assert_eq!(it.next(), None);
}

#[test]
fn walk_follows_the_table() {
    let x = ["A", "G", "C", "A", "T"];
    let y = ["G", "A", "C"];
    let table = LcsTable::from(&x, &y);
    let mut it = table.iter();
    let mut steps = Vec::new();
    while let Some(item) = it.next() {
        steps.push(item);
    }
    assert_eq!(
        steps,
        vec![
            (Step::OnlyY, "G"),
            (Step::Both, "A"),
            (Step::OnlyX, "G"),
            (Step::Both, "C"),
            (Step::OnlyX, "A"),
            (Step::OnlyX, "T"),
        ]
    );
}

#[test]
fn table_entries_and_boundary() {
    let x = ["A", "G", "C", "A", "T"];
    let y = ["G", "A", "C"];
    let table = LcsTable::from(&x, &y);
    let e = table.entry(0, 0);
    assert_eq!((e.step, e.len), (Step::XorY, 2));
    let e = table.entry(1, 0);
    assert_eq!((e.step, e.len), (Step::Both, 2));
    let e = table.entry(0, 2);
    assert_eq!((e.step, e.len), (Step::OnlyX, 1));
    let e = table.entry(5, 0);
    assert_eq!((e.step, e.len), (Step::XorY, 0));
    let e = table.entry(0, 3);
    assert_eq!((e.step, e.len), (Step::XorY, 0));
    let b = lcs_entry_at_boundary();
    assert_eq!((b.step, b.len), (Step::XorY, 0));
}

#[test]
fn new_table_holds_boundary_entries() {
    let x = ["a", "b"];
    let y = ["a"];
    let table = LcsTable::_new(&x, &y);
    let e = table.entry(0, 0);
    assert_eq!((e.step, e.len), (Step::XorY, 0));
    let e = table.entry(1, 0);
    assert_eq!((e.step, e.len), (Step::XorY, 0));
}

#[test]
fn entry_set_overwrites_both_fields() {
    let mut e = LcsEntry { step: Step::XorY, len: 0 };
    e.set(Step::OnlyY, 7);
    assert_eq!((e.step, e.len), (Step::OnlyY, 7));
}

#[test]
fn try_lcs_matches_lcs() {
    assert_eq!(try_lcs("test", "tost", ""), Some((2, "tst".to_string())));
    assert_eq!(try_lcs("AGCAT", "GAC", ""), Some((4, "AC".to_string())));
}

#[test]
fn join_puts_separator_between_tokens() {
    assert_eq!(join(&vec!["a", "b", "c"], "-"), "a-b-c");
    assert_eq!(join(&vec!["a"], "-"), "a");
    assert_eq!(join(&vec![], "-"), "");
}

#[test]
fn cell_texts() {
    assert_eq!(truncate("abcdefg"), "abcde");
    assert_eq!(truncate("abc"), "abc");
    assert_eq!(truncate("äöüßéèx"), "äöüßé");
    assert_eq!(entry_text(LcsEntry { step: Step::Both, len: 12 }), "12 ↘");
    assert_eq!(entry_text(LcsEntry { step: Step::XorY, len: 0 }), "0 ↓ or →");
    assert_eq!(entry_text(LcsEntry { step: Step::OnlyX, len: 305 }), "305 →");
    assert_eq!(entry_text(LcsEntry { step: Step::OnlyY, len: 9 }), "9 ↓");
}

#[test]
fn render_truncates_long_tokens() {
    let x = ["abcdefgh"];
    let y = ["abcdefgh"];
    let table = LcsTable::from(&x, &y);
    assert_eq!(
        table.render(),
        "+-------+-------+\
       \n|       | abcde |\
       \n+-------+-------+\
       \n| abcde | 1 ↘   |\
       \n+-------+-------+\
       \n"
    );
}
