use gitkay::cli::{
    classify, combined_range, normalize_rel, parse_flags, range_tokens, rev_token_kind,
    scope_title_suffix, token_to_pathspec, validate, version_text, RevTokenKind, Scope, HELP,
};

fn v(xs: &[&str]) -> Vec<String> {
    xs.iter().map(std::string::ToString::to_string).collect()
}

#[test]
fn normalize_rel_resolves_dot_and_dotdot() {
    assert_eq!(normalize_rel("src/./foo"), "src/foo");
    assert_eq!(normalize_rel("src/../foo"), "foo");
    assert_eq!(normalize_rel("a//b"), "a/b");
    assert_eq!(normalize_rel("src/.."), "");
    assert_eq!(normalize_rel("./."), "");
    assert_eq!(normalize_rel("/foo"), "foo"); // leading slash from an empty prefix
}

#[test]
fn token_to_pathspec_anchors_relative_to_prefix() {
    let wd = "/repo"; // only consulted for absolute tokens
    // In <repo>/src, `.` is the whole src dir.
    assert_eq!(token_to_pathspec(".", "src", wd), "src");
    assert_eq!(token_to_pathspec("foo.rs", "src", wd), "src/foo.rs");
    assert_eq!(token_to_pathspec("../README", "src", wd), "README");
    // At the repo root `.` is the whole repo → "" (dropped by the caller).
    assert_eq!(token_to_pathspec(".", "", wd), "");
    assert_eq!(token_to_pathspec("a/b", "", wd), "a/b");
    // Absolute token under the worktree → made repo-root-relative.
    assert_eq!(
        token_to_pathspec("/repo/src/foo.rs", "src", wd),
        "src/foo.rs"
    );
}

#[test]
fn scope_title_suffix_formats() {
    let s = |all: bool, revs: &[&str], paths: &[&str]| Scope {
        all,
        revs: revs.iter().map(std::string::ToString::to_string).collect(),
        paths: paths.iter().map(std::string::ToString::to_string).collect(),
        ..Default::default()
    };
    assert_eq!(scope_title_suffix(&s(false, &[], &[])), "");
    assert_eq!(scope_title_suffix(&s(true, &[], &[])), "--all");
    assert_eq!(scope_title_suffix(&s(false, &["main"], &[])), "main");
    assert_eq!(scope_title_suffix(&s(false, &[], &["src"])), "-- src");
    assert_eq!(
        scope_title_suffix(&s(false, &["a..b"], &["src", "x"])),
        "a..b -- src x"
    );
}

#[test]
fn parse_flags_extracts_c_all_and_dashdash() {
    let r = parse_flags(v(&["-C", "/repo", "--all", "main", "--", "a.rs", "b.rs"]))
        .unwrap();
    assert_eq!(r.repo_dir.as_deref(), Some("/repo"));
    assert!(r.all);
    assert_eq!(r.pre, v(&["main"]));
    assert_eq!(r.post, v(&["a.rs", "b.rs"]));
}

#[test]
fn parse_flags_c_attached_and_unknown_flag() {
    let r = parse_flags(v(&["-C/repo"])).unwrap();
    assert_eq!(r.repo_dir.as_deref(), Some("/repo"));
    assert!(parse_flags(v(&["--bogus"])).is_err());
    assert!(parse_flags(v(&["-C"])).is_err()); // missing dir
}

#[test]
fn classify_revs_then_paths() {
    let is_rev = |t: &str| t == "main" || t == "dev";
    let is_path = |t: &str| t == "src" || t == "x.rs";
    let (revs, paths) = classify(&v(&["main", "src", "x.rs"]), &[], is_rev, is_path).unwrap();
    assert_eq!(revs, v(&["main"]));
    assert_eq!(paths, v(&["src", "x.rs"]));
}

#[test]
fn classify_ambiguous_and_unknown_errors() {
    let is_rev = |t: &str| t == "main";
    let is_path = |t: &str| t == "main" || t == "x.rs";
    assert!(classify(&v(&["main"]), &[], is_rev, is_path).is_err()); // both → ambiguous
    assert!(classify(&v(&["nope"]), &[], |_| false, |_| false).is_err()); // neither
}

#[test]
fn classify_post_dashdash_are_paths_verbatim() {
    // even a deleted path (is_path=false) is accepted after `--`
    let (revs, paths) = classify(&[], &v(&["gone.rs"]), |_| false, |_| false).unwrap();
    assert!(revs.is_empty());
    assert_eq!(paths, v(&["gone.rs"]));
}

#[test]
fn nothing_is_asked_of_words_behind_two_hyphens() {
    let asked = std::cell::RefCell::new(Vec::new());
    let is_rev = |t: &str| {
        asked.borrow_mut().push(t.to_owned());
        t == "main" || t == "dev"
    };
    let is_path = |t: &str| {
        asked.borrow_mut().push(t.to_owned());
        t == "src" || t == "x.rs"
    };
    let got = classify(&v(&["main", "src", "x.rs"]), &v(&["gone.rs"]), is_rev, is_path);
    assert_eq!(got, Ok((v(&["main"]), v(&["src", "x.rs", "gone.rs"]))));
    assert!(!asked.borrow().contains(&"gone.rs".to_owned()));
}

#[test]
fn an_absolute_word_below_the_tree_is_as_good_as_the_relative_one() {
    for t in ["", ".", "a/b", "a/../b", "../x", "a//./b/"] {
        let absolute = format!("/repo/dir/{t}");
        assert_eq!(
            token_to_pathspec(&absolute, "some/where", "/repo/dir"),
            token_to_pathspec(t, "", "/repo/dir")
        );
    }
}

#[test]
fn parse_flags_help_and_version() {
    assert!(parse_flags(v(&["--help"])).unwrap().help);
    assert!(parse_flags(v(&["-h"])).unwrap().help);
    assert!(parse_flags(v(&["--version"])).unwrap().version);
    assert!(parse_flags(v(&["-V"])).unwrap().version);
    // help wins even alongside an arg that would otherwise error
    assert!(
        parse_flags(v(&["--help", "--bogus"]))
            .unwrap()
            .help
    );
    // after `--`, `--help` is a path, not the flag
    let r = parse_flags(v(&["--", "--help"])).unwrap();
    assert!(!r.help);
    assert_eq!(r.post, v(&["--help"]));
}

#[test]
fn parse_flags_reflog() {
    let r = parse_flags(v(&["--reflog"])).unwrap();
    assert!(r.reflog);
    assert!(r.pre.is_empty());
    // A ref after --reflog stays a positional, classified as a rev downstream.
    let r = parse_flags(v(&["--reflog", "main"])).unwrap();
    assert!(r.reflog);
    assert_eq!(r.pre, v(&["main"]));
    // Not set without the flag.
    assert!(!parse_flags(v(&["main"])).unwrap().reflog);
}

#[test]
fn parse_flags_follow() {
    let r = parse_flags(v(&["--follow", "src/foo.rs"])).unwrap();
    assert!(r.follow);
    assert_eq!(r.pre, v(&["src/foo.rs"]));
    assert!(!parse_flags(v(&["src/foo.rs"])).unwrap().follow);
}

fn range_scope(revs: &[&str]) -> Scope {
    Scope {
        revs: revs.iter().map(std::string::ToString::to_string).collect(),
        ..Default::default()
    }
}

#[test]
fn range_tokens_accepts_a_lone_range() {
    let t = range_tokens(&v(&["a..b"])).unwrap();
    assert_eq!(
        (t.base.as_str(), t.head.as_str(), t.symmetric),
        ("a", "b", false)
    );

    let t = range_tokens(&v(&["a...b"])).unwrap();
    assert_eq!(
        (t.base.as_str(), t.head.as_str(), t.symmetric),
        ("a", "b", true)
    );

    // rev_token_kind fills open-ended forms with HEAD, like git.
    let t = range_tokens(&v(&["main.."])).unwrap();
    assert_eq!((t.base.as_str(), t.head.as_str()), ("main", "HEAD"));

    let t = range_tokens(&v(&["..main"])).unwrap();
    assert_eq!((t.base.as_str(), t.head.as_str()), ("HEAD", "main"));
}

#[test]
fn range_tokens_rejects_everything_that_is_not_a_lone_range() {
    assert!(range_tokens(&[]).is_none());
    assert!(range_tokens(&v(&["main"])).is_none());
    assert!(range_tokens(&v(&["^main"])).is_none());
    assert!(range_tokens(&v(&["a..b", "c..d"])).is_none());
    assert!(range_tokens(&v(&["a..b", "^side"])).is_none());
}

/// `rev_token_kind("..")` yields `Range("", "")` on purpose, so a bare `..`
/// can still classify as the parent directory. `range_tokens` must answer for
/// itself rather than trusting `classify` to have caught it first.
#[test]
fn range_tokens_rejects_a_bare_dotdot() {
    assert!(range_tokens(&v(&[".."])).is_none());
}

#[test]
fn combined_range_is_offered_only_for_a_plain_lone_range() {
    assert!(combined_range(&range_scope(&["a..b"])).is_some());
    assert!(combined_range(&range_scope(&["main"])).is_none());

    let with_all = Scope {
        all: true,
        ..range_scope(&["a..b"])
    };
    assert!(
        combined_range(&with_all).is_none(),
        "--all overrides the walk"
    );

    let with_reflog = Scope {
        reflog: true,
        ..range_scope(&["a..b"])
    };
    assert!(combined_range(&with_reflog).is_none());

    let with_follow = Scope {
        follow: true,
        paths: v(&["f.rs"]),
        ..range_scope(&["a..b"])
    };
    assert!(
        combined_range(&with_follow).is_none(),
        "--follow has no single path for a range"
    );
}

#[test]
fn validate_combined_requires_a_lone_range() {
    let ok = Scope {
        combined: true,
        ..range_scope(&["a..b"])
    };
    assert!(validate(&ok).is_ok());

    let with_paths = Scope {
        paths: v(&["src"]),
        ..ok.clone()
    };
    assert!(
        validate(&with_paths).is_ok(),
        "a pathspec is fine alongside --combined"
    );

    let bare_rev = Scope {
        combined: true,
        ..range_scope(&["main"])
    };
    assert!(validate(&bare_rev).is_err());

    let no_revs = Scope {
        combined: true,
        ..Default::default()
    };
    assert!(validate(&no_revs).is_err());

    let with_all = Scope {
        all: true,
        ..ok.clone()
    };
    assert!(validate(&with_all).is_err());

    let with_reflog = Scope {
        reflog: true,
        revs: v(&["a..b"]),
        combined: true,
        ..Default::default()
    };
    assert!(validate(&with_reflog).is_err());

    let with_follow = Scope {
        follow: true,
        paths: v(&["f.rs"]),
        ..ok
    };
    assert!(validate(&with_follow).is_err());
}

#[test]
fn validate_still_enforces_the_existing_rules() {
    assert!(
        validate(&Scope {
            revs: v(&["main"]),
            paths: v(&["a", "b"]),
            ..Default::default()
        })
        .is_ok()
    );
    assert!(
        validate(&Scope {
            follow: true,
            paths: v(&["a"]),
            ..Default::default()
        })
        .is_ok()
    );
    assert!(
        validate(&Scope {
            follow: true,
            ..Default::default()
        })
        .is_err()
    );
    assert!(
        validate(&Scope {
            follow: true,
            paths: v(&["a", "b"]),
            ..Default::default()
        })
        .is_err()
    );
    assert!(
        validate(&Scope {
            follow: true,
            reflog: true,
            paths: v(&["a"]),
            ..Default::default()
        })
        .is_err()
    );
    assert!(
        validate(&Scope {
            reflog: true,
            ..Default::default()
        })
        .is_ok()
    );
    assert!(
        validate(&Scope {
            reflog: true,
            revs: v(&["main"]),
            ..Default::default()
        })
        .is_ok()
    );
    assert!(
        validate(&Scope {
            reflog: true,
            revs: v(&["a", "b"]),
            ..Default::default()
        })
        .is_err()
    );
    assert!(
        validate(&Scope {
            reflog: true,
            paths: v(&["a"]),
            ..Default::default()
        })
        .is_err()
    );
}

#[test]
fn parse_flags_combined() {
    let r = parse_flags(v(&["--combined", "a..b"])).unwrap();
    assert!(r.combined);
    assert_eq!(r.pre, v(&["a..b"]));
    assert!(!parse_flags(v(&["a..b"])).unwrap().combined);
}

#[test]
fn scope_title_suffix_marks_combined() {
    let s = Scope {
        combined: true,
        ..range_scope(&["a..b"])
    };
    assert_eq!(scope_title_suffix(&s), "combined a..b");
}

#[test]
fn parse_flags_first_parent() {
    let r = parse_flags(v(&["--first-parent", "main"])).unwrap();
    assert!(r.first_parent);
    assert_eq!(r.pre, v(&["main"]));
    assert!(!parse_flags(v(&["main"])).unwrap().first_parent);
}

#[test]
fn scope_title_suffix_marks_first_parent() {
    let s = Scope {
        all: true,
        first_parent: true,
        revs: v(&["main"]),
        ..Default::default()
    };
    assert_eq!(scope_title_suffix(&s), "--all --first-parent main");
}

/// A reflog is no walk, so the flag would be silently
/// inert. It is named rather than ignored.
#[test]
fn validate_rejects_first_parent_with_reflog() {
    assert!(
        validate(&Scope {
            first_parent: true,
            reflog: true,
            ..Default::default()
        })
        .is_err()
    );
}

/// Everything else composes: the walk simplification is orthogonal to the
/// range row, the path filter and rename tracing.
#[test]
fn validate_accepts_first_parent_with_everything_else() {
    assert!(
        validate(&Scope {
            first_parent: true,
            all: true,
            ..Default::default()
        })
        .is_ok()
    );
    assert!(
        validate(&Scope {
            first_parent: true,
            follow: true,
            paths: v(&["f.rs"]),
            ..Default::default()
        })
        .is_ok()
    );
    assert!(
        validate(&Scope {
            first_parent: true,
            combined: true,
            revs: v(&["a..b"]),
            paths: v(&["src"]),
            ..Default::default()
        })
        .is_ok()
    );
}

#[test]
fn rev_token_kind_shapes() {
    assert_eq!(rev_token_kind("main"), RevTokenKind::Single("main".into()));
    assert_eq!(
        rev_token_kind("^main"),
        RevTokenKind::Exclude("main".into())
    );
    assert_eq!(
        rev_token_kind("a..b"),
        RevTokenKind::Range("a".into(), "b".into())
    );
    assert_eq!(
        rev_token_kind("a...b"),
        RevTokenKind::Symmetric("a".into(), "b".into())
    );
}

#[test]
fn rev_token_kind_open_ranges_default_to_head() {
    // git accepts `main..` / `..main` as `main..HEAD` / `HEAD..main`.
    assert_eq!(
        rev_token_kind("main.."),
        RevTokenKind::Range("main".into(), "HEAD".into())
    );
    assert_eq!(
        rev_token_kind("..main"),
        RevTokenKind::Range("HEAD".into(), "main".into())
    );
    assert_eq!(
        rev_token_kind("main..."),
        RevTokenKind::Symmetric("main".into(), "HEAD".into())
    );
    // A bare `..` stays empty-endpointed so classify() can still treat the
    // token as the parent-directory path.
    assert_eq!(
        rev_token_kind(".."),
        RevTokenKind::Range(String::new(), String::new())
    );
}

fn text_of<T>(r: Result<T, String>) -> String {
    match r {
        Ok(_) => String::new(),
        Err(e) => e,
    }
}

#[test]
fn each_fault_of_the_command_line_has_its_own_words() {
    assert_eq!(text_of(parse_flags(v(&["--bogus"]))), "unknown flag: --bogus");
    assert_eq!(text_of(parse_flags(v(&["-C"]))), "-C requires a directory argument");
    // A lone hyphen is a word.
    assert_eq!(parse_flags(v(&["-"])).unwrap().pre, v(&["-"]));
    let both = |_: &str| true;
    let none = |_: &str| false;
    assert_eq!(
        text_of(classify(&v(&["main"]), &[], both, both)),
        "ambiguous argument 'main': both a revision and a path — use '--' to separate"
    );
    assert_eq!(
        text_of(classify(&v(&["x"]), &[], none, none)),
        "unknown revision or path not in the working tree: x"
    );
    let is_path = |t: &str| t == "src";
    assert_eq!(
        text_of(classify(&v(&["src", "gone"]), &[], none, is_path)),
        "path does not exist: gone"
    );
    // Behind the first path, a word that is also a revision is a path.
    let (revs, paths) =
        classify(&v(&["src", "src"]), &v(&["more"]), |t: &str| t != "src", is_path).unwrap();
    assert!(revs.is_empty());
    assert_eq!(paths, v(&["src", "src", "more"]));
}

#[test]
fn each_fault_of_a_scope_has_its_own_words() {
    let fault = |scope: Scope| text_of(validate(&scope));
    assert_eq!(
        fault(Scope { follow: true, reflog: true, ..Default::default() }),
        "--follow and --reflog cannot be combined"
    );
    assert_eq!(
        fault(Scope { first_parent: true, reflog: true, ..Default::default() }),
        "--first-parent and --reflog cannot be combined"
    );
    assert_eq!(
        fault(Scope { follow: true, ..Default::default() }),
        "--follow requires exactly one path"
    );
    assert_eq!(
        fault(Scope { reflog: true, paths: v(&["a"]), ..Default::default() }),
        "--reflog takes at most one ref and no paths"
    );
    assert_eq!(
        fault(Scope { combined: true, all: true, ..range_scope(&["a..b"]) }),
        "--combined and --all cannot be combined"
    );
    assert_eq!(
        fault(Scope { combined: true, ..range_scope(&["main"]) }),
        "--combined requires a single <a>..<b> or <a>...<b> revision range"
    );
}

#[test]
fn a_scope_that_opens_on_the_combined_row_has_one() {
    for revs in [&["a..b"][..], &["a...b"], &["main.."], &["..main"]] {
        let scope = Scope { combined: true, ..range_scope(revs) };
        assert!(validate(&scope).is_ok());
        let range = combined_range(&scope).expect("the row is there");
        assert!(!range.base.is_empty() && !range.head.is_empty());
        assert_eq!(range.token, revs[0]);
    }
}

#[test]
fn a_path_in_its_shortest_form_stays() {
    for path in ["a/b", "..", "../../x", "", "a.b/.c"] {
        assert_eq!(normalize_rel(path), path);
    }
    for path in ["a/../../b//./c", "../a/..", "x/y/../../.."] {
        let once = normalize_rel(path);
        assert_eq!(normalize_rel(&once), once);
    }
    assert_eq!(normalize_rel("a/../../b//./c"), "../b/c");
}

#[test]
fn an_absolute_path_outside_the_repository_stays() {
    assert_eq!(token_to_pathspec("/else/x", "src", "/repo"), "/else/x");
    assert_eq!(token_to_pathspec("/repository/x", "src", "/repo"), "/repository/x");
    assert_eq!(token_to_pathspec("/repo", "src", "/repo/"), "");
    assert_eq!(token_to_pathspec("/repo/a/../b", "", "/repo"), "b");
}

#[test]
fn titles_tell_of_reflogs_and_followed_paths() {
    let scope = Scope { reflog: true, ..Default::default() };
    assert_eq!(scope_title_suffix(&scope), "reflog");
    let scope = Scope { reflog: true, revs: v(&["main"]), ..Default::default() };
    assert_eq!(scope_title_suffix(&scope), "reflog main");
    let scope = Scope { follow: true, paths: v(&["a.rs"]), ..range_scope(&["main"]) };
    assert_eq!(scope_title_suffix(&scope), "main follow a.rs");
    assert_eq!(version_text("1.2.3"), "gitkay 1.2.3");
    assert!(HELP.starts_with("gitkay — a git history viewer\n"));
    assert!(HELP.contains("--first-parent"));
}
