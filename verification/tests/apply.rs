use gitkay::apply::fit::{hunk_fit, HunkFit};
use gitkay::apply::request::{ApplyAction, ApplyError, GitCode, GitError};
use gitkay::diff::hunk::HunkRange;
use gitkay::diff::row::{oid_staged, oid_uncommitted};
use gitkay::oid::Oid;

fn hr(old_start: u32, old_lines: u32, new_start: u32, new_lines: u32) -> HunkRange {
    HunkRange {
        old_start,
        old_lines,
        new_start,
        new_lines,
    }
}

#[test]
fn action_follows_the_row_kind() {
    assert_eq!(ApplyAction::of(oid_uncommitted()), ApplyAction::Stage);
    assert_eq!(ApplyAction::of(oid_staged()), ApplyAction::Unstage);
    let real = Oid::from_bytes([1u8; 20]);
    assert_eq!(ApplyAction::of(real), ApplyAction::Revert);
}

#[test]
fn forward_matching_compares_old_to_old() {
    // The generated hunk's two sides are deliberately disjoint, so a matcher
    // that consulted the wrong one would answer the opposite of every
    // assertion here.
    let generated = hr(8, 6, 100, 9);
    assert_eq!(
        hunk_fit(&hr(8, 6, 8, 7), &generated, false),
        HunkFit::Within
    );
    assert_eq!(
        hunk_fit(&hr(100, 5, 100, 5), &generated, false),
        HunkFit::Disjoint
    );
    assert_eq!(
        hunk_fit(&hr(40, 5, 40, 5), &generated, false),
        HunkFit::Disjoint
    );
}

#[test]
fn reversed_matching_compares_clicked_old_to_generated_new() {
    // reverse(true) swaps the header's sides: forward `@@ -8,6 +8,9 @@` comes
    // back as `@@ -8,9 +8,6 @@`, so the display's OLD side is the generated
    // diff's NEW side. Disjoint sides again, so reading the wrong one is
    // detectable rather than coincidentally right.
    let generated = hr(100, 5, 8, 6);
    assert_eq!(
        hunk_fit(&hr(8, 6, 200, 6), &generated, true),
        HunkFit::Within
    );
    assert_eq!(
        hunk_fit(&hr(100, 5, 300, 5), &generated, true),
        HunkFit::Disjoint
    );
}

#[test]
fn zero_length_sides_still_match_their_position() {
    // A pure insertion has old_lines == 0 on both sides of the comparison; it
    // must still match the hunk it sits in rather than reading as empty.
    assert_eq!(
        hunk_fit(&hr(12, 0, 12, 3), &hr(12, 0, 500, 9), false),
        HunkFit::Within
    );
}

/// The whole point of containment: a generated hunk that starts where the
/// click did but runs past it carries changes the display never showed (see
/// `hunk_fit`), and a hunk cannot be trimmed, so it must be refused — with a
/// verdict distinct from "nothing matched at all".
#[test]
fn a_generated_hunk_wider_than_the_click_is_refused_not_applied() {
    // Displayed `@@ -7,7 @@`, generated `@@ -7,19 @@`: the shapes that ignored
    // whitespace gives.
    assert_eq!(
        hunk_fit(&hr(7, 7, 7, 7), &hr(7, 19, 7, 19), false),
        HunkFit::Exceeds
    );
    // Reaching past only on the far end still counts.
    assert_eq!(
        hunk_fit(&hr(10, 5, 10, 5), &hr(10, 6, 10, 6), false),
        HunkFit::Exceeds
    );
    // Equal ranges are the ordinary (whitespace off) case.
    assert_eq!(
        hunk_fit(&hr(10, 5, 10, 5), &hr(10, 5, 10, 5), false),
        HunkFit::Within
    );
}

#[test]
fn user_message_phrases_recognised_causes_in_plain_language() {
    for e in [
        ApplyError::Stale,
        ApplyError::ChangedSinceCommit,
        ApplyError::Unsupported,
        ApplyError::HiddenByWhitespace,
        ApplyError::RenameNeedsWholeFile,
    ] {
        let msg = e.user_message(ApplyAction::Revert, "src/main.rs");
        assert!(msg.starts_with("Revert failed"), "{msg}");
        assert!(msg.contains("src/main.rs"), "{msg}");
    }
    assert!(
        ApplyError::Stale
            .user_message(ApplyAction::Revert, "src/main.rs")
            .contains("changed")
    );
    // This one has to be actionable, not just descriptive: it names the
    // setting to change and the verb to retry.
    let ws = ApplyError::HiddenByWhitespace.user_message(ApplyAction::Stage, "f.rs");
    assert!(ws.contains("ignore whitespace"), "{ws}");
    assert!(ws.contains("turn it off to stage it"), "{ws}");
}

#[test]
fn user_message_passes_the_underlying_git_error_through() {
    // The catch-all deliberately keeps git's wording: an unexpected
    // failure is more useful named than hidden behind "see the log".
    let e = ApplyError::Git(GitError {
        code: GitCode::Other,
        message: "index contains conflicts".to_owned(),
    });
    let msg = e.user_message(ApplyAction::Stage, "src/main.rs");
    assert!(msg.contains("Stage failed"), "{msg}");
    assert!(msg.contains("index contains conflicts"), "{msg}");
    assert!(e.detail().is_some());
}
