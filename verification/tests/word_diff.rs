use std::ops::Range;

use gitkay::word_diff::{changed_tokens, line_emphasis, merge_token_ranges, word_tokens};

#[test]
fn word_emphasis_marks_only_changed_tokens() {
    let pick = |body: &str, ranges: &[Range<usize>]| -> Vec<String> {
        ranges.iter().map(|r| body[r.clone()].to_string()).collect()
    };
    // One token differs; the shared tokens (let, =, foo, (), ;) stay plain.
    let (del, add) = line_emphasis("let x = foo();", "let y = foo();");
    assert_eq!(pick("let x = foo();", &del), vec!["x".to_string()]);
    assert_eq!(pick("let y = foo();", &add), vec!["y".to_string()]);
    // `_` is a word char, so a whole identifier is one token.
    let (del, _) = line_emphasis("a.full_name", "a.display_name");
    assert_eq!(pick("a.full_name", &del), vec!["full_name".to_string()]);
}

#[test]
fn changed_tokens_edge_cases() {
    assert_eq!(changed_tokens(&["a", "b"], &["a", "b"]), (vec![], vec![])); // identical
    assert_eq!(changed_tokens(&["a", "c"], &["a", "b", "c"]), (vec![], vec![1])); // insert
    assert_eq!(changed_tokens(&["a", "b", "c"], &["a", "c"]), (vec![1], vec![])); // delete
    assert_eq!(changed_tokens(&[], &["a"]), (vec![], vec![0])); // empty → all inserted
    assert_eq!(changed_tokens(&["a"], &[]), (vec![0], vec![])); // all deleted
    assert_eq!(changed_tokens(&[], &[]), (vec![], vec![])); // both empty
}

#[test]
fn merge_token_ranges_merges_only_contiguous() {
    let toks: Vec<(Range<usize>, &str)> =
        vec![(0..1, "a"), (1..2, "b"), (2..3, "c"), (3..4, "d")];
    assert_eq!(merge_token_ranges(&toks, &[0, 1]), vec![0..2]); // adjacent → merged
    assert_eq!(merge_token_ranges(&toks, &[0, 2]), vec![0..1, 2..3]); // gap → separate
    assert!(merge_token_ranges(&toks, &[]).is_empty());
}

#[test]
fn tokens_tile_the_line() {
    let line = "let_x = é+b1;";
    let tokens = word_tokens(line);
    let texts: Vec<&str> = tokens.iter().map(|(_, t)| *t).collect();
    assert_eq!(texts, vec!["let_x", " ", "=", " ", "é", "+", "b1", ";"]);
    let mut at = 0;
    for (range, text) in &tokens {
        assert_eq!(range.start, at);
        assert_eq!(&line[range.clone()], *text);
        at = range.end;
    }
    assert_eq!(at, line.len());
}

#[test]
fn the_empty_line_has_no_tokens() {
    assert!(word_tokens("").is_empty());
    assert_eq!(line_emphasis("", ""), (vec![], vec![]));
}

#[test]
fn kept_tokens_are_common_and_as_many_as_can_be() {
    let del = ["a", "b", "c", "b", "d", "a", "b"];
    let add = ["b", "d", "c", "a", "b", "a"];
    let (gone, new) = changed_tokens(&del, &add);
    let kept_del: Vec<&str> = (0..del.len())
        .filter(|i| !gone.contains(i))
        .map(|i| del[i])
        .collect();
    let kept_add: Vec<&str> = (0..add.len())
        .filter(|i| !new.contains(i))
        .map(|i| add[i])
        .collect();
    assert_eq!(kept_del, kept_add);
    assert_eq!(kept_del.len(), 4);
}

#[test]
fn the_same_line_is_unmarked() {
    let line = "fn f(x: u8) -> u8 { x + 1 }";
    assert_eq!(line_emphasis(line, line), (vec![], vec![]));
}

#[test]
fn marked_ranges_lie_on_character_boundaries() {
    let (del, add) = line_emphasis("naïve café", "naïve thé");
    assert_eq!(del, vec![7..10]); // each other byte sequence is a token of its own
    assert_eq!(add, vec![7..9]);
}
