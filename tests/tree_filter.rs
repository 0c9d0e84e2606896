use regex::Regex;
use treegrep::{
    filter_by_matches, filter_by_predicate, filter_by_regex, find_parent, get_depth, list_ancestors,
};

/// A dependency tree as a test dataset.
const DEPTREE: &str = "treegrep v0.1.0
├── clap v2.33.3
│   ├── ansi_term v0.11.0
│   ├── atty v0.2.14
│   │   └── libc v0.2.98
│   ├── bitflags v1.2.1
│   ├── strsim v0.8.0
│   ├── textwrap v0.11.0
│   │   └── unicode-width v0.1.8
│   ├── unicode-width v0.1.8
│   └── vec_map v0.8.2
└── regex v1.5.4
    ├── aho-corasick v0.7.18
    │   └── memchr v2.4.0
    ├── memchr v2.4.0
    └── regex-syntax v0.6.25";

const MEMCHR_ANSWER: &str = "treegrep v0.1.0
└── regex v1.5.4
    ├── aho-corasick v0.7.18
    │   └── memchr v2.4.0
    ├── memchr v2.4.0";

fn string_to_line_vec(s: &str) -> Vec<String> {
    s.lines().map(str::to_string).collect()
}

#[test]
fn test_filter_by_regex() {
    let regex = Regex::new("memchr").unwrap();
    assert_eq!(
        string_to_line_vec(MEMCHR_ANSWER),
        filter_by_regex(string_to_line_vec(DEPTREE), regex)
    );
}

#[test]
fn test_find_parent() {
    let deptree = string_to_line_vec(DEPTREE);
    for (child, parent) in [
        (0, None),
        (1, Some(0)),
        (2, Some(1)),
        (3, Some(1)),
        (4, Some(3)),
        (11, Some(0)),
        (14, Some(11)),
    ] {
        assert_eq!(parent, find_parent(&deptree, child));
    }
}

#[test]
fn test_list_ancestors() {
    let deptree = string_to_line_vec(DEPTREE);
    for (child, ancestry) in [
        (0, vec![0]),
        (1, vec![1, 0]),
        (2, vec![2, 1, 0]),
        (3, vec![3, 1, 0]),
        (4, vec![4, 3, 1, 0]),
        (11, vec![11, 0]),
        (14, vec![14, 11, 0]),
    ] {
        assert_eq!(
            ancestry.as_slice(),
            list_ancestors(&deptree, child).as_slice(),
        );
    }
}

#[test]
fn depth_counts_leading_drawing_characters_in_fours() {
    assert_eq!(get_depth(""), 0);
    assert_eq!(get_depth("treegrep v0.1.0"), 0);
    assert_eq!(get_depth("├── clap v2.33.3"), 1);
    assert_eq!(get_depth("│   │   └── libc v0.2.98"), 3);
    assert_eq!(get_depth("    ├── memchr v2.4.0"), 2);
    assert_eq!(get_depth("   x"), 0);
    assert_eq!(get_depth("       x"), 1);
    assert_eq!(get_depth("--------"), 2);
}

#[test]
fn depth_stops_at_unicode_letters_and_digits() {
    assert_eq!(get_depth("    é"), 1);
    assert_eq!(get_depth("    7 -- -- --"), 1);
    assert_eq!(get_depth("├──├── ├──"), 2);
}

#[test]
fn equal_depth_is_a_sibling_not_a_parent() {
    let lines = string_to_line_vec("a\n├── b\n├── c\n│   └── d\n└── e");
    assert_eq!(find_parent(&lines, 2), Some(0));
    assert_eq!(find_parent(&lines, 3), Some(2));
    assert_eq!(find_parent(&lines, 4), Some(0));
    assert_eq!(list_ancestors(&lines, 3), vec![3, 2, 0]);
}

#[test]
fn several_roots_have_no_parent() {
    let lines = string_to_line_vec("a\n└── b\nc\n└── d");
    assert_eq!(find_parent(&lines, 0), None);
    assert_eq!(find_parent(&lines, 2), None);
    assert_eq!(find_parent(&lines, 3), Some(2));
    assert_eq!(list_ancestors(&lines, 3), vec![3, 2]);
}

#[test]
fn ancestor_chain_depths_strictly_decrease() {
    let deptree = string_to_line_vec(DEPTREE);
    for i in 0..deptree.len() {
        let chain = list_ancestors(&deptree, i);
        assert_eq!(chain[0], i);
        for w in chain.windows(2) {
            assert!(w[1] < w[0]);
            assert!(get_depth(&deptree[w[1]]) < get_depth(&deptree[w[0]]));
            assert_eq!(find_parent(&deptree, w[0]), Some(w[1]));
        }
        assert_eq!(find_parent(&deptree, *chain.last().unwrap()), None);
    }
}

#[test]
fn predicate_filter_on_sample_tree() {
    let out = filter_by_predicate(string_to_line_vec(DEPTREE), |s| s.contains("memchr"));
    assert_eq!(out, string_to_line_vec(MEMCHR_ANSWER));
}

#[test]
fn predicate_filter_keeps_shared_ancestor_once() {
    let out = filter_by_predicate(string_to_line_vec(DEPTREE), |s| s.contains("unicode-width"));
    let expected = "treegrep v0.1.0
├── clap v2.33.3
│   ├── textwrap v0.11.0
│   │   └── unicode-width v0.1.8
│   ├── unicode-width v0.1.8";
    assert_eq!(out, string_to_line_vec(expected));
}

#[test]
fn matches_filter_on_flags() {
    let data = string_to_line_vec(DEPTREE);
    let mut matched = vec![false; data.len()];
    matched[4] = true;
    matched[14] = true;
    let out = filter_by_matches(data, &matched);
    let expected = "treegrep v0.1.0
├── clap v2.33.3
│   ├── atty v0.2.14
│   │   └── libc v0.2.98
└── regex v1.5.4
    ├── memchr v2.4.0";
    assert_eq!(out, string_to_line_vec(expected));
}

#[test]
fn nothing_matches_gives_empty_output() {
    let out = filter_by_predicate(string_to_line_vec(DEPTREE), |s| s.contains("serde"));
    assert!(out.is_empty());
    let out = filter_by_matches(Vec::new(), &Vec::new());
    assert!(out.is_empty());
}

#[test]
fn everything_matches_gives_input_unchanged() {
    let out = filter_by_predicate(string_to_line_vec(DEPTREE), |_| true);
    assert_eq!(out, string_to_line_vec(DEPTREE));
}

#[test]
fn filtering_twice_changes_nothing() {
    let once = filter_by_predicate(string_to_line_vec(DEPTREE), |s| s.contains("libc") || s.contains("regex-syntax"));
    let twice = filter_by_predicate(once.clone(), |s| s.contains("libc") || s.contains("regex-syntax"));
    assert_eq!(once, twice);
    assert_eq!(once.len(), 6);
}

#[test]
fn output_keeps_document_order_and_text() {
    let data = string_to_line_vec(DEPTREE);
    let out = filter_by_predicate(data.clone(), |s| s.contains("v0.8"));
    let mut next = 0;
    for line in &out {
        let pos = data[next..].iter().position(|d| d == line).unwrap();
        next += pos + 1;
    }
    assert_eq!(
        out,
        string_to_line_vec("treegrep v0.1.0\n├── clap v2.33.3\n│   ├── strsim v0.8.0\n│   └── vec_map v0.8.2")
    );
}

#[test]
fn regex_filter_uses_the_expression() {
    let data = string_to_line_vec(DEPTREE);
    let out = filter_by_regex(data.clone(), Regex::new(r"^\W*regex-syntax").unwrap());
    assert_eq!(
        out,
        string_to_line_vec("treegrep v0.1.0\n└── regex v1.5.4\n    └── regex-syntax v0.6.25")
    );
    let out = filter_by_regex(data, Regex::new("no such crate").unwrap());
    assert!(out.is_empty());
}
