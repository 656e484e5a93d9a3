//! The command line: which part of the history is asked for, and where.

use vstd::prelude::*;
use vstd::slice::slice_subrange;
use vstd::string::*;

use crate::chars::{
    find, first_at, has_prefix, joined, law_first_place_is_the_first,
    law_parts_lie_between_separators, law_texts_are_joined_in_order, lemma_split_free, same_chars,
    split, split_char,
};
use crate::text::{append_chars, chars_of, same_text, string_of};

verus! {

/// The part of the history that is asked for.
#[derive(Default, Clone)]
pub struct Scope {
    pub all: bool,
    pub revs: Vec<String>,
    pub paths: Vec<String>,
    /// Show the log of a ref in place of its history.
    pub reflog: bool,
    /// Follow one path across renames.
    pub follow: bool,
    /// Open on the combined row of a range.
    pub combined: bool,
    /// Follow only the first parent of each merge.
    pub first_parent: bool,
}

/// The flags, and the words that are revisions or paths.
#[derive(Default)]
pub struct RawArgs {
    pub repo_dir: Option<String>,
    pub all: bool,
    pub reflog: bool,
    pub follow: bool,
    pub combined: bool,
    pub first_parent: bool,
    pub help: bool,
    pub version: bool,
    /// The words before `--`.
    pub pre: Vec<String>,
    /// The words behind `--`, which are paths.
    pub post: Vec<String>,
}

/// The texts of strings.
pub open spec fn texts(v: Seq<String>) -> Seq<Seq<char>> {
    v.map_values(|s: String| s@)
}

/// What the flags and words hold.
pub struct RawView {
    pub repo_dir: Option<Seq<char>>,
    pub all: bool,
    pub reflog: bool,
    pub follow: bool,
    pub combined: bool,
    pub first_parent: bool,
    pub help: bool,
    pub version: bool,
    pub pre: Seq<Seq<char>>,
    pub post: Seq<Seq<char>>,
}

impl View for RawArgs {
    type V = RawView;

    open spec fn view(&self) -> RawView {
        RawView {
            repo_dir: match self.repo_dir {
                Some(dir) => Some(dir@),
                None => None,
            },
            all: self.all,
            reflog: self.reflog,
            follow: self.follow,
            combined: self.combined,
            first_parent: self.first_parent,
            help: self.help,
            version: self.version,
            pre: texts(self.pre@),
            post: texts(self.post@),
        }
    }
}

/// No flags and no words.
pub open spec fn no_args() -> RawView {
    RawView {
        repo_dir: None,
        all: false,
        reflog: false,
        follow: false,
        combined: false,
        first_parent: false,
        help: false,
        version: false,
        pre: Seq::empty(),
        post: Seq::empty(),
    }
}

/// The flags and words from the argument `i` on, added to those before; or what is wrong with them.
/// Help and the version go before everything else.
pub open spec fn flags_from(args: Seq<Seq<char>>, i: int, before: RawView) -> Result<
    RawView,
    Seq<char>,
>
    decreases args.len() - i,
{
    if !(0 <= i < args.len()) {
        Ok(before)
    } else {
        let a = args[i];
        if a == "--"@ {
            Ok(RawView { post: before.post + args.skip(i + 1), ..before })
        } else if a == "--help"@ || a == "-h"@ {
            Ok(RawView { help: true, ..no_args() })
        } else if a == "--version"@ || a == "-V"@ {
            Ok(RawView { version: true, ..no_args() })
        } else if a == "--all"@ {
            flags_from(args, i + 1, RawView { all: true, ..before })
        } else if a == "--reflog"@ {
            flags_from(args, i + 1, RawView { reflog: true, ..before })
        } else if a == "--follow"@ {
            flags_from(args, i + 1, RawView { follow: true, ..before })
        } else if a == "--combined"@ {
            flags_from(args, i + 1, RawView { combined: true, ..before })
        } else if a == "--first-parent"@ {
            flags_from(args, i + 1, RawView { first_parent: true, ..before })
        } else if a == "-C"@ {
            if i + 1 < args.len() {
                flags_from(args, i + 2, RawView { repo_dir: Some(args[i + 1]), ..before })
            } else {
                Err("-C requires a directory argument"@)
            }
        } else if "-C"@.is_prefix_of(a) {
            flags_from(
                args,
                i + 1,
                RawView { repo_dir: Some(a.skip("-C"@.len() as int)), ..before },
            )
        } else if "-"@.is_prefix_of(a) && a != "-"@ {
            Err("unknown flag: "@ + a)
        } else {
            flags_from(args, i + 1, RawView { pre: before.pre.push(a), ..before })
        }
    }
}

/// Whether a result holds what is said: the value, or what is wrong.
pub open spec fn same_args(r: Result<RawArgs, String>, s: Result<RawView, Seq<char>>) -> bool {
    match (r, s) {
        (Ok(args), Ok(view)) => args@ == view,
        (Err(e), Err(text)) => e@ == text,
        _ => false,
    }
}

fn empty_args() -> (args: RawArgs)
    ensures
        args@ == no_args(),
{
    let args = RawArgs {
        repo_dir: None,
        all: false,
        reflog: false,
        follow: false,
        combined: false,
        first_parent: false,
        help: false,
        version: false,
        pre: Vec::new(),
        post: Vec::new(),
    };
    assert(args@.pre =~= Seq::<Seq<char>>::empty());
    assert(args@.post =~= Seq::<Seq<char>>::empty());
    args
}

/// The flags and words of the command line, without the name of the program; or what is wrong with
/// them.
pub fn parse_flags(args: Vec<String>) -> (r: Result<RawArgs, String>)
    ensures
        same_args(r, flags_from(texts(args@), 0, no_args())),
{
    let ghost all = texts(args@);
    let mut out = empty_args();
    let mut i: usize = 0;
    while i < args.len()
        invariant
            i <= args@.len(),
            all == texts(args@),
            flags_from(all, i as int, out@) == flags_from(all, 0, no_args()),
            out.post@.len() == 0,
        decreases args.len() - i,
    {
        let arg: &str = args[i].as_str();
        let ghost before = out@;
        assert(all[i as int] == arg@);
        if same_text(arg, "--") {
            let mut k: usize = i + 1;
            assert(texts(out.post@) + all.subrange(i + 1, i + 1) =~= texts(out.post@));
            while k < args.len()
                invariant
                    i < k <= args@.len(),
                    all == texts(args@),
                    texts(out.post@) == before.post + all.subrange(i + 1, k as int),
                    out@ == (RawView { post: texts(out.post@), ..before }),
                decreases args.len() - k,
            {
                let ghost here = texts(out.post@);
                out.post.push(args[k].clone());
                assert(texts(out.post@) =~= here.push(all[k as int]));
                assert(all.subrange(i + 1, k + 1) =~= all.subrange(i + 1, k as int).push(
                    all[k as int],
                ));
                assert(texts(out.post@) =~= before.post + all.subrange(i + 1, k + 1));
                k += 1;
            }
            assert(all.subrange(i + 1, k as int) =~= all.skip(i + 1));
            return Ok(out);
        } else if same_text(arg, "--help") || same_text(arg, "-h") {
            let mut only = empty_args();
            only.help = true;
            return Ok(only);
        } else if same_text(arg, "--version") || same_text(arg, "-V") {
            let mut only = empty_args();
            only.version = true;
            return Ok(only);
        } else if same_text(arg, "--all") {
            out.all = true;
        } else if same_text(arg, "--reflog") {
            out.reflog = true;
        } else if same_text(arg, "--follow") {
            out.follow = true;
        } else if same_text(arg, "--combined") {
            out.combined = true;
        } else if same_text(arg, "--first-parent") {
            out.first_parent = true;
        } else if same_text(arg, "-C") {
            if i + 1 >= args.len() {
                return Err(String::from_str("-C requires a directory argument"));
            }
            i += 1;
            out.repo_dir = Some(args[i].clone());
            assert(args@[i as int]@ == all[i as int]);
        } else {
            let chars = chars_of(arg);
            let dir_flag = chars_of("-C");
            let dash = chars_of("-");
            if has_prefix(&chars, &dir_flag) {
                assert(chars@.skip(dir_flag@.len() as int) =~= chars@.subrange(
                    dir_flag@.len() as int,
                    chars@.len() as int,
                ));
                out.repo_dir = Some(
                    string_of(slice_subrange(chars.as_slice(), dir_flag.len(), chars.len())),
                );
            } else if has_prefix(&chars, &dash) && !same_text(arg, "-") {
                let mut e = String::from_str("unknown flag: ");
                e.append(arg);
                return Err(e);
            } else {
                out.pre.push(args[i].clone());
                assert(texts(out.pre@) =~= before.pre.push(arg@));
            }
        }
        i += 1;
    }
    Ok(out)
}

/// Whether the predicate answers as `is` says.
pub open spec fn answers_as<F: Fn(&str) -> bool>(f: F, is: spec_fn(Seq<char>) -> bool) -> bool {
    forall|s: &str, r: bool| #[trigger] call_ensures(f, (s,), r) ==> r == is(s@)
}

/// The words from `i` on as revisions and paths, added to those before: the first word that is no
/// revision is a path, and so are all behind it.
pub open spec fn classified(
    pre: Seq<Seq<char>>,
    i: int,
    is_rev: spec_fn(Seq<char>) -> bool,
    is_path: spec_fn(Seq<char>) -> bool,
    revs: Seq<Seq<char>>,
    paths: Seq<Seq<char>>,
) -> Result<(Seq<Seq<char>>, Seq<Seq<char>>), Seq<char>>
    decreases pre.len() - i,
{
    if !(0 <= i < pre.len()) {
        Ok((revs, paths))
    } else {
        let tok = pre[i];
        if paths.len() > 0 {
            if is_path(tok) {
                classified(pre, i + 1, is_rev, is_path, revs, paths.push(tok))
            } else {
                Err("path does not exist: "@ + tok)
            }
        } else if is_rev(tok) && is_path(tok) {
            Err(
                "ambiguous argument '"@ + tok
                    + "': both a revision and a path — use '--' to separate"@,
            )
        } else if is_rev(tok) {
            classified(pre, i + 1, is_rev, is_path, revs.push(tok), paths)
        } else if is_path(tok) {
            classified(pre, i + 1, is_rev, is_path, revs, paths.push(tok))
        } else {
            Err("unknown revision or path not in the working tree: "@ + tok)
        }
    }
}

/// Whether a result holds what is said.
pub open spec fn same_words(
    r: Result<(Vec<String>, Vec<String>), String>,
    s: Result<(Seq<Seq<char>>, Seq<Seq<char>>), Seq<char>>,
) -> bool {
    match (r, s) {
        (Ok((revs, paths)), Ok((a, b))) => texts(revs@) == a && texts(paths@) == b,
        (Err(e), Err(text)) => e@ == text,
        _ => false,
    }
}

/// Whether the predicate may answer `r` for the word.
pub open spec fn may_say<F: Fn(&str) -> bool>(f: F, word: Seq<char>, r: bool) -> bool {
    exists|s: &str| s@ == word && #[trigger] call_ensures(f, (s,), r)
}

/// Whether `out` may come of telling apart the words from `i` on by the answers of the predicates,
/// added to the revisions and paths before.
pub open spec fn may_sort<R: Fn(&str) -> bool, P: Fn(&str) -> bool>(
    is_rev: R,
    is_path: P,
    pre: Seq<Seq<char>>,
    i: int,
    revs: Seq<Seq<char>>,
    paths: Seq<Seq<char>>,
    out: Result<(Seq<Seq<char>>, Seq<Seq<char>>), Seq<char>>,
) -> bool
    decreases pre.len() - i,
{
    if !(0 <= i < pre.len()) {
        out == Ok::<(Seq<Seq<char>>, Seq<Seq<char>>), Seq<char>>((revs, paths))
    } else if paths.len() > 0 {
        ||| may_say(is_path, pre[i], true) && may_sort(
            is_rev,
            is_path,
            pre,
            i + 1,
            revs,
            paths.push(pre[i]),
            out,
        )
        ||| may_say(is_path, pre[i], false) && out == Err::<
            (Seq<Seq<char>>, Seq<Seq<char>>),
            Seq<char>,
        >("path does not exist: "@ + pre[i])
    } else {
        ||| may_say(is_rev, pre[i], true) && may_say(is_path, pre[i], true) && out == Err::<
            (Seq<Seq<char>>, Seq<Seq<char>>),
            Seq<char>,
        >(
            "ambiguous argument '"@ + pre[i]
                + "': both a revision and a path — use '--' to separate"@,
        )
        ||| may_say(is_rev, pre[i], true) && may_say(is_path, pre[i], false) && may_sort(
            is_rev,
            is_path,
            pre,
            i + 1,
            revs.push(pre[i]),
            paths,
            out,
        )
        ||| may_say(is_rev, pre[i], false) && may_say(is_path, pre[i], true) && may_sort(
            is_rev,
            is_path,
            pre,
            i + 1,
            revs,
            paths.push(pre[i]),
            out,
        )
        ||| may_say(is_rev, pre[i], false) && may_say(is_path, pre[i], false) && out == Err::<
            (Seq<Seq<char>>, Seq<Seq<char>>),
            Seq<char>,
        >("unknown revision or path not in the working tree: "@ + pre[i])
    }
}

/// The revisions and paths with more paths behind them.
pub open spec fn with_paths(
    out: Result<(Seq<Seq<char>>, Seq<Seq<char>>), Seq<char>>,
    post: Seq<Seq<char>>,
) -> Result<(Seq<Seq<char>>, Seq<Seq<char>>), Seq<char>> {
    match out {
        Ok((revs, paths)) => Ok((revs, paths + post)),
        Err(e) => Err(e),
    }
}

/// The words as revisions and paths: those in `pre` are told apart by what the predicates answer, and
/// of those in `post`, which are paths, nothing is asked.
pub fn classify<R: Fn(&str) -> bool, P: Fn(&str) -> bool>(
    pre: &[String],
    post: &[String],
    is_rev: R,
    is_path: P,
) -> (r: Result<(Vec<String>, Vec<String>), String>)
    requires
        forall|s: &str| texts(pre@).contains(s@) ==> #[trigger] call_requires(is_rev, (s,)),
        forall|s: &str| texts(pre@).contains(s@) ==> #[trigger] call_requires(is_path, (s,)),
    ensures
        exists|out: Result<(Seq<Seq<char>>, Seq<Seq<char>>), Seq<char>>| #[trigger]
            may_sort(is_rev, is_path, texts(pre@), 0, Seq::empty(), Seq::empty(), out) && same_words(
                r,
                with_paths(out, texts(post@)),
            ),
{
    let ghost all = texts(pre@);
    let ghost none = Seq::<Seq<char>>::empty();
    let mut revs: Vec<String> = Vec::new();
    let mut paths: Vec<String> = Vec::new();
    let mut i: usize = 0;
    assert(texts(revs@) =~= none);
    assert(texts(paths@) =~= none);
    while i < pre.len()
        invariant
            i <= pre@.len(),
            all == texts(pre@),
            none == Seq::<Seq<char>>::empty(),
            forall|s: &str| all.contains(s@) ==> #[trigger] call_requires(is_rev, (s,)),
            forall|s: &str| all.contains(s@) ==> #[trigger] call_requires(is_path, (s,)),
            forall|out: Result<(Seq<Seq<char>>, Seq<Seq<char>>), Seq<char>>|
                #![trigger may_sort(is_rev, is_path, all, 0, none, none, out)]
                may_sort(is_rev, is_path, all, i as int, texts(revs@), texts(paths@), out)
                    ==> may_sort(is_rev, is_path, all, 0, none, none, out),
        decreases pre.len() - i,
    {
        let tok: &str = pre[i].as_str();
        let ghost r0 = texts(revs@);
        let ghost p0 = texts(paths@);
        let ghost k = i as int;
        assert(all[i as int] == tok@);
        assert(all.contains(tok@));
        assert(p0.len() == paths@.len());
        let path = is_path(tok);
        assert(may_say(is_path, tok@, path));
        if paths.len() > 0 {
            if !path {
                let mut e = String::from_str("path does not exist: ");
                e.append(tok);
                assert(may_sort(is_rev, is_path, all, k, r0, p0, Err(e@)));
                assert(may_sort(is_rev, is_path, all, 0, none, none, Err(e@)));
                return Err(e);
            }
            paths.push(pre[i].clone());
            assert(texts(paths@) =~= p0.push(tok@));
        } else {
            let rev = is_rev(tok);
            assert(may_say(is_rev, tok@, rev));
            if rev && path {
                let mut e = String::from_str("ambiguous argument '");
                e.append(tok);
                e.append("': both a revision and a path — use '--' to separate");
                assert(may_sort(is_rev, is_path, all, k, r0, p0, Err(e@)));
                assert(may_sort(is_rev, is_path, all, 0, none, none, Err(e@)));
                return Err(e);
            } else if rev {
                revs.push(pre[i].clone());
                assert(texts(revs@) =~= r0.push(tok@));
            } else if path {
                paths.push(pre[i].clone());
                assert(texts(paths@) =~= p0.push(tok@));
            } else {
                let mut e = String::from_str("unknown revision or path not in the working tree: ");
                e.append(tok);
                assert(may_sort(is_rev, is_path, all, k, r0, p0, Err(e@)));
                assert(may_sort(is_rev, is_path, all, 0, none, none, Err(e@)));
                return Err(e);
            }
        }
        i += 1;
        assert forall|out: Result<(Seq<Seq<char>>, Seq<Seq<char>>), Seq<char>>|
            #![trigger may_sort(is_rev, is_path, all, 0, none, none, out)]
            may_sort(is_rev, is_path, all, i as int, texts(revs@), texts(paths@), out) implies may_sort(
            is_rev,
            is_path,
            all,
            0,
            none,
            none,
            out,
        ) by {
            assert(may_sort(is_rev, is_path, all, k, r0, p0, out));
        }
    }
    let ghost out: Result<(Seq<Seq<char>>, Seq<Seq<char>>), Seq<char>> = Ok(
        (texts(revs@), texts(paths@)),
    );
    assert(may_sort(is_rev, is_path, all, i as int, texts(revs@), texts(paths@), out));
    assert(may_sort(is_rev, is_path, all, 0, none, none, out));
    extend_texts(&mut paths, post);
    Ok((revs, paths))
}

/// Where the predicates answer the same for the same word each time, it is settled which words are
/// revisions and which are paths.
pub proof fn law_steady_answers_settle_the_words<R: Fn(&str) -> bool, P: Fn(&str) -> bool>(
    is_rev: R,
    is_path: P,
    rev: spec_fn(Seq<char>) -> bool,
    path: spec_fn(Seq<char>) -> bool,
    pre: Seq<Seq<char>>,
    i: int,
    revs: Seq<Seq<char>>,
    paths: Seq<Seq<char>>,
    out: Result<(Seq<Seq<char>>, Seq<Seq<char>>), Seq<char>>,
)
    requires
        answers_as(is_rev, rev),
        answers_as(is_path, path),
        may_sort(is_rev, is_path, pre, i, revs, paths, out),
    ensures
        out == classified(pre, i, rev, path, revs, paths),
    decreases pre.len() - i,
{
    if 0 <= i < pre.len() {
        let tok = pre[i];
        if paths.len() > 0 {
            if path(tok) {
                law_steady_answers_settle_the_words(
                    is_rev,
                    is_path,
                    rev,
                    path,
                    pre,
                    i + 1,
                    revs,
                    paths.push(tok),
                    out,
                );
            }
        } else if rev(tok) && !path(tok) {
            law_steady_answers_settle_the_words(
                is_rev,
                is_path,
                rev,
                path,
                pre,
                i + 1,
                revs.push(tok),
                paths,
                out,
            );
        } else if !rev(tok) && path(tok) {
            law_steady_answers_settle_the_words(
                is_rev,
                is_path,
                rev,
                path,
                pre,
                i + 1,
                revs,
                paths.push(tok),
                out,
            );
        }
    }
}

/// Appends copies of the strings.
fn extend_texts(out: &mut Vec<String>, more: &[String])
    ensures
        texts(final(out)@) == texts(old(out)@) + texts(more@),
{
    let ghost before = texts(out@);
    let ghost all = texts(more@);
    let mut i: usize = 0;
    assert(before + all.take(0) =~= before);
    while i < more.len()
        invariant
            i <= more@.len(),
            all == texts(more@),
            texts(out@) == before + all.take(i as int),
        decreases more.len() - i,
    {
        let ghost here = texts(out@);
        out.push(more[i].clone());
        assert(texts(out@) =~= here.push(all[i as int]));
        assert(before + all.take(i + 1) =~= (before + all.take(i as int)).push(all[i as int]));
        i += 1;
    }
    assert(all.take(i as int) =~= all);
}

/// What a word for revisions means.
#[derive(Debug, PartialEq, Eq)]
pub enum RevTokenKind {
    /// One revision.
    Single(String),
    /// All but what a revision reaches: `^X`.
    Exclude(String),
    /// What `B` reaches and `A` does not: `A..B`.
    Range(String, String),
    /// What either reaches, and not both: `A...B`.
    Symmetric(String, String),
}

/// What a word for revisions means.
pub enum RevView {
    Single(Seq<char>),
    Exclude(Seq<char>),
    Range(Seq<char>, Seq<char>),
    Symmetric(Seq<char>, Seq<char>),
}

impl View for RevTokenKind {
    type V = RevView;

    open spec fn view(&self) -> RevView {
        match *self {
            RevTokenKind::Single(s) => RevView::Single(s@),
            RevTokenKind::Exclude(s) => RevView::Exclude(s@),
            RevTokenKind::Range(a, b) => RevView::Range(a@, b@),
            RevTokenKind::Symmetric(a, b) => RevView::Symmetric(a@, b@),
        }
    }
}

/// An end of a range: the last commit stands in for one that is left out, unless both are.
pub open spec fn range_end(own: Seq<char>, other: Seq<char>) -> Seq<char> {
    if own.len() == 0 && other.len() > 0 {
        "HEAD"@
    } else {
        own
    }
}

/// What a word for revisions means.
pub open spec fn rev_kind(tok: Seq<char>) -> RevView {
    if tok.len() > 0 && tok[0] == '^' {
        RevView::Exclude(tok.skip(1))
    } else {
        match first_at(tok, "..."@, 0) {
            Some(k) => {
                let a = tok.take(k);
                let b = tok.skip(k + "..."@.len());
                RevView::Symmetric(range_end(a, b), range_end(b, a))
            },
            None => match first_at(tok, ".."@, 0) {
                Some(k) => {
                    let a = tok.take(k);
                    let b = tok.skip(k + ".."@.len());
                    RevView::Range(range_end(a, b), range_end(b, a))
                },
                None => RevView::Single(tok),
            },
        }
    }
}

fn end_text(own: &[char], other: &[char]) -> (s: String)
    ensures
        s@ == range_end(own@, other@),
{
    if own.len() == 0 && other.len() > 0 {
        String::from_str("HEAD")
    } else {
        string_of(own)
    }
}

/// The two parts of the text around the first `sep`.
fn split_once<'a>(s: &'a [char], sep: &[char]) -> (r: Option<(&'a [char], &'a [char])>)
    ensures
        match r {
            Some((a, b)) => first_at(s@, sep@, 0) matches Some(k) && a@ == s@.take(k) && b@ == s@.skip(
                k + sep@.len(),
            ),
            None => first_at(s@, sep@, 0) is None,
        },
{
    match find(s, sep) {
        Some(k) => {
            assert(s@.take(k as int) =~= s@.subrange(0, k as int));
            assert(s@.skip(k + sep@.len()) =~= s@.subrange(k + sep@.len(), s@.len() as int));
            let end: usize = s.len();
            Some((slice_subrange(s, 0, k), slice_subrange(s, k + sep.len(), end)))
        },
        None => None,
    }
}

/// What a word for revisions means.
pub fn rev_token_kind(tok: &str) -> (kind: RevTokenKind)
    ensures
        kind@ == rev_kind(tok@),
{
    let chars = chars_of(tok);
    if chars.len() > 0 && chars[0] == '^' {
        assert(chars@.skip(1) =~= chars@.subrange(1, chars@.len() as int));
        return RevTokenKind::Exclude(string_of(slice_subrange(chars.as_slice(), 1, chars.len())));
    }
    let three = chars_of("...");
    let two = chars_of("..");
    if let Some((a, b)) = split_once(&chars, &three) {
        return RevTokenKind::Symmetric(end_text(a, b), end_text(b, a));
    }
    if let Some((a, b)) = split_once(&chars, &two) {
        return RevTokenKind::Range(end_text(a, b), end_text(b, a));
    }
    RevTokenKind::Single(string_of(&chars))
}

/// The two ends of a range, before they are looked up.
#[derive(Debug, PartialEq, Eq, Clone)]
pub struct RangeTokens {
    /// The word as it was given.
    pub token: String,
    pub base: String,
    pub head: String,
    /// Whether the range starts where the two ends parted: `A...B`.
    pub symmetric: bool,
}

/// The two ends of a range.
pub struct RangeView {
    pub token: Seq<char>,
    pub base: Seq<char>,
    pub head: Seq<char>,
    pub symmetric: bool,
}

impl View for RangeTokens {
    type V = RangeView;

    open spec fn view(&self) -> RangeView {
        RangeView {
            token: self.token@,
            base: self.base@,
            head: self.head@,
            symmetric: self.symmetric,
        }
    }
}

/// The ends of the range, where one range with two ends is all that is asked for.
pub open spec fn lone_range(revs: Seq<Seq<char>>) -> Option<RangeView> {
    if revs.len() != 1 {
        None
    } else {
        match rev_kind(revs[0]) {
            RevView::Range(base, head) => if base.len() > 0 && head.len() > 0 {
                Some(RangeView { token: revs[0], base, head, symmetric: false })
            } else {
                None
            },
            RevView::Symmetric(base, head) => if base.len() > 0 && head.len() > 0 {
                Some(RangeView { token: revs[0], base, head, symmetric: true })
            } else {
                None
            },
            _ => None,
        }
    }
}

/// Whether a range is the one that is said.
pub open spec fn same_range(r: Option<RangeTokens>, s: Option<RangeView>) -> bool {
    match (r, s) {
        (Some(r), Some(v)) => r@ == v,
        (None, None) => true,
        _ => false,
    }
}

/// The ends of the range, where one range with two ends is all that is asked for.
pub fn range_tokens(revs: &[String]) -> (r: Option<RangeTokens>)
    ensures
        same_range(r, lone_range(texts(revs@))),
{
    if revs.len() != 1 {
        return None;
    }
    assert(texts(revs@)[0] == revs@[0]@);
    let (base, head, symmetric) = match rev_token_kind(&revs[0]) {
        RevTokenKind::Range(a, b) => (a, b, false),
        RevTokenKind::Symmetric(a, b) => (a, b, true),
        RevTokenKind::Single(_) | RevTokenKind::Exclude(_) => return None,
    };
    if base.as_str().is_empty() || head.as_str().is_empty() {
        return None;
    }
    Some(RangeTokens { token: revs[0].clone(), base, head, symmetric })
}

/// The flag that stands in the way of a combined row.
pub open spec fn conflict_of(scope: Scope) -> Option<Seq<char>> {
    if scope.all {
        Some("--all"@)
    } else if scope.reflog {
        Some("--reflog"@)
    } else if scope.follow {
        Some("--follow"@)
    } else {
        None
    }
}

fn combined_conflict(scope: &Scope) -> (flag: Option<&'static str>)
    ensures
        match flag {
            Some(flag) => conflict_of(*scope) == Some(flag@),
            None => conflict_of(*scope) is None,
        },
{
    if scope.all {
        Some("--all")
    } else if scope.reflog {
        Some("--reflog")
    } else if scope.follow {
        Some("--follow")
    } else {
        None
    }
}

/// The ends of the range that has a combined row.
pub open spec fn combined_of(scope: Scope) -> Option<RangeView> {
    if conflict_of(scope) is Some {
        None
    } else {
        lone_range(texts(scope.revs@))
    }
}

/// The ends of the range that has a combined row; `None` where there is no such row.
pub fn combined_range(scope: &Scope) -> (r: Option<RangeTokens>)
    ensures
        same_range(r, combined_of(*scope)),
{
    if combined_conflict(scope).is_some() {
        return None;
    }
    range_tokens(&scope.revs)
}

/// What is wrong with what is asked for.
pub open spec fn fault_of(scope: Scope) -> Option<Seq<char>> {
    if scope.follow && scope.reflog {
        Some("--follow and --reflog cannot be combined"@)
    } else if scope.first_parent && scope.reflog {
        Some("--first-parent and --reflog cannot be combined"@)
    } else if scope.follow && scope.paths@.len() != 1 {
        Some("--follow requires exactly one path"@)
    } else if scope.reflog && (scope.paths@.len() > 0 || scope.revs@.len() > 1) {
        Some("--reflog takes at most one ref and no paths"@)
    } else if !scope.combined {
        None
    } else {
        match conflict_of(scope) {
            Some(flag) => Some("--combined and "@ + flag + " cannot be combined"@),
            None => if combined_of(scope) is None {
                Some("--combined requires a single <a>..<b> or <a>...<b> revision range"@)
            } else {
                None
            },
        }
    }
}

/// Whether what is asked for can be shown, and otherwise what is wrong with it.
pub fn validate(scope: &Scope) -> (r: Result<(), String>)
    ensures
        match r {
            Ok(_) => fault_of(*scope) is None,
            Err(e) => fault_of(*scope) == Some(e@),
        },
{
    if scope.follow && scope.reflog {
        return Err(String::from_str("--follow and --reflog cannot be combined"));
    }
    if scope.first_parent && scope.reflog {
        return Err(String::from_str("--first-parent and --reflog cannot be combined"));
    }
    if scope.follow && scope.paths.len() != 1 {
        return Err(String::from_str("--follow requires exactly one path"));
    }
    if scope.reflog && (scope.paths.len() > 0 || scope.revs.len() > 1) {
        return Err(String::from_str("--reflog takes at most one ref and no paths"));
    }
    if scope.combined {
        if let Some(flag) = combined_conflict(scope) {
            let mut e = String::from_str("--combined and ");
            e.append(flag);
            e.append(" cannot be combined");
            return Err(e);
        }
        if combined_range(scope).is_none() {
            return Err(
                String::from_str(
                    "--combined requires a single <a>..<b> or <a>...<b> revision range",
                ),
            );
        }
    }
    Ok(())
}

/// Where the combined row is asked for and nothing is wrong, there is one.
pub proof fn law_combined_row_is_there(scope: Scope)
    requires
        scope.combined,
        fault_of(scope) is None,
    ensures
        combined_of(scope) is Some,
{
}

/// A range that has a combined row has two ends that are not empty, and is the only word for
/// revisions.
pub proof fn law_combined_range_has_two_ends(scope: Scope)
    requires
        combined_of(scope) is Some,
    ensures
        scope.revs@.len() == 1,
        combined_of(scope)->0.base.len() > 0,
        combined_of(scope)->0.head.len() > 0,
        combined_of(scope)->0.token == scope.revs@[0]@,
        !scope.all && !scope.reflog && !scope.follow,
{
}

/// The segments of a path, with `.` and empty ones left out and `..` taken together with the segment
/// before it, where there is one to take.
pub open spec fn normal(segs: Seq<Seq<char>>) -> Seq<Seq<char>>
    decreases segs.len(),
{
    if segs.len() == 0 {
        Seq::empty()
    } else {
        let out = normal(segs.drop_last());
        let seg = segs.last();
        if seg.len() == 0 || seg == "."@ {
            out
        } else if seg == ".."@ && out.len() > 0 && out.last() != ".."@ {
            out.drop_last()
        } else {
            out.push(seg)
        }
    }
}

/// The path in its shortest form.
pub open spec fn normal_path(path: Seq<char>) -> Seq<char> {
    joined(normal(split(path, '/')), "/"@)
}

/// The views of slices.
pub open spec fn parts_of(v: Seq<&[char]>) -> Seq<Seq<char>> {
    v.map_values(|s: &[char]| s@)
}

/// The segments in their shortest form.
fn normalize<'a>(segs: &[&'a [char]]) -> (out: Vec<&'a [char]>)
    ensures
        parts_of(out@) == normal(parts_of(segs@)),
{
    let dot = chars_of(".");
    let dots = chars_of("..");
    let ghost all = parts_of(segs@);
    let mut out: Vec<&'a [char]> = Vec::new();
    let mut i: usize = 0;
    assert(all.take(0) =~= Seq::<Seq<char>>::empty());
    assert(parts_of(out@) =~= Seq::<Seq<char>>::empty());
    while i < segs.len()
        invariant
            i <= segs@.len(),
            all == parts_of(segs@),
            dot@ == "."@,
            dots@ == ".."@,
            parts_of(out@) == normal(all.take(i as int)),
        decreases segs.len() - i,
    {
        let seg = segs[i];
        let ghost here = parts_of(out@);
        let n: usize = out.len();
        proof {
            assert(all.take(i + 1).drop_last() =~= all.take(i as int));
            assert(all.take(i + 1).last() == seg@);
        }
        if seg.len() == 0 || same_chars(seg, &dot) {
        } else if same_chars(seg, &dots) && n > 0 && !same_chars(out[n - 1], &dots) {
            let _ = out.pop();
            assert(parts_of(out@) =~= here.drop_last());
        } else {
            out.push(seg);
            assert(parts_of(out@) =~= here.push(seg@));
        }
        i += 1;
    }
    assert(all.take(i as int) =~= all);
    out
}

/// The segments with a slash between them.
fn join_segments(segs: &[&[char]]) -> (s: String)
    ensures
        s@ == joined(parts_of(segs@), "/"@),
{
    let ghost all = parts_of(segs@);
    let mut s = String::new();
    let mut i: usize = 0;
    assert(all.take(0) =~= Seq::<Seq<char>>::empty());
    while i < segs.len()
        invariant
            i <= segs@.len(),
            all == parts_of(segs@),
            s@ == joined(all.take(i as int), "/"@),
        decreases segs.len() - i,
    {
        proof {
            assert(all.take(i + 1).drop_last() =~= all.take(i as int));
            assert(all.take(i + 1).last() == segs@[i as int]@);
        }
        if i > 0 {
            s.append("/");
        } else {
            assert(s@ + segs@[0]@ =~= segs@[0]@);
        }
        append_chars(&mut s, segs[i]);
        i += 1;
    }
    assert(all.take(i as int) =~= all);
    s
}

/// The path in its shortest form. Nothing is looked up, so that the files need not exist.
pub fn normalize_rel(path: &str) -> (s: String)
    ensures
        s@ == normal_path(path@),
{
    let chars = chars_of(path);
    let segs = split_char(&chars, '/');
    assert(parts_of(segs@) =~= split(path@, '/'));
    let out = normalize(&segs);
    join_segments(&out)
}

/// The segments of a path that count: not the empty ones, nor `.`.
pub open spec fn components(path: Seq<char>) -> Seq<Seq<char>> {
    split(path, '/').filter(|s: Seq<char>| s.len() > 0 && s != "."@)
}

/// The path below the directory of the repository that a word stands for. A relative word starts at
/// `prefix`; an absolute one outside of `workdir` stays as it is.
pub open spec fn pathspec_of(token: Seq<char>, prefix: Seq<char>, workdir: Seq<char>) -> Seq<char> {
    if token.len() > 0 && token[0] == '/' {
        if workdir.len() == 0 {
            normal_path(token)
        } else if workdir[0] == '/' && components(workdir).is_prefix_of(components(token)) {
            joined(
                normal(components(token).skip(components(workdir).len() as int)),
                "/"@,
            )
        } else {
            token
        }
    } else {
        normal_path(prefix + "/"@ + token)
    }
}

/// The segments that count.
pub fn counting<'a>(segs: &[&'a [char]]) -> (out: Vec<&'a [char]>)
    ensures
        parts_of(out@) == parts_of(segs@).filter(|s: Seq<char>| s.len() > 0 && s != "."@),
{
    let dot = chars_of(".");
    let ghost all = parts_of(segs@);
    let ghost counts = |s: Seq<char>| s.len() > 0 && s != "."@;
    let mut out: Vec<&'a [char]> = Vec::new();
    let mut i: usize = 0;
    proof {
        assert(all.take(0) =~= Seq::<Seq<char>>::empty());
        reveal(Seq::filter);
        assert(parts_of(out@) =~= all.take(0).filter(counts));
    }
    while i < segs.len()
        invariant
            i <= segs@.len(),
            all == parts_of(segs@),
            dot@ == "."@,
            counts == (|s: Seq<char>| s.len() > 0 && s != "."@),
            parts_of(out@) == all.take(i as int).filter(counts),
        decreases segs.len() - i,
    {
        let seg = segs[i];
        let ghost here = parts_of(out@);
        proof {
            reveal(Seq::filter);
            assert(all.take(i + 1).drop_last() =~= all.take(i as int));
            assert(all.take(i + 1).last() == seg@);
        }
        if seg.len() > 0 && !same_chars(seg, &dot) {
            out.push(seg);
            assert(parts_of(out@) =~= here.push(seg@));
        }
        i += 1;
    }
    assert(all.take(i as int) =~= all);
    out
}

/// The path below the directory of the repository that a word stands for: empty for that directory
/// itself.
pub fn token_to_pathspec(token: &str, prefix: &str, workdir: &str) -> (s: String)
    ensures
        s@ == pathspec_of(token@, prefix@, workdir@),
{
    let chars = chars_of(token);
    let dir = chars_of(workdir);
    if chars.len() > 0 && chars[0] == '/' {
        if dir.len() == 0 {
            return normalize_rel(token);
        }
        if dir[0] != '/' {
            return string_of(&chars);
        }
        let split_token = split_char(&chars, '/');
        let split_dir = split_char(&dir, '/');
        assert(parts_of(split_token@) =~= split(token@, '/'));
        assert(parts_of(split_dir@) =~= split(workdir@, '/'));
        let segs = counting(&split_token);
        let base = counting(&split_dir);
        let ghost t = components(token@);
        let ghost w = components(workdir@);
        assert(parts_of(segs@) == t && parts_of(base@) == w);
        assert(segs@.len() == t.len() && base@.len() == w.len());
        if base.len() > segs.len() {
            return string_of(&chars);
        }
        let mut i: usize = 0;
        while i < base.len()
            invariant
                i <= base@.len() <= segs@.len(),
                chars@ == token@,
                token@.len() > 0 && token@[0] == '/',
                workdir@.len() > 0,
                t == components(token@),
                w == components(workdir@),
                parts_of(segs@) == t,
                parts_of(base@) == w,
                forall|k: int| 0 <= k < i ==> #[trigger] w[k] == t[k],
            decreases base.len() - i,
        {
            assert(t[i as int] == segs@[i as int]@);
            assert(w[i as int] == base@[i as int]@);
            if !same_chars(base[i], segs[i]) {
                assert(t.subrange(0, w.len() as int)[i as int] == t[i as int]);
                return string_of(&chars);
            }
            i += 1;
        }
        assert(w =~= t.subrange(0, w.len() as int));
        let rest = slice_subrange(segs.as_slice(), base.len(), segs.len());
        assert(parts_of(rest@) =~= t.skip(w.len() as int));
        let out = normalize(rest);
        join_segments(&out)
    } else {
        let mut path = String::from_str(prefix);
        path.append("/");
        path.append(token);
        normalize_rel(&path)
    }
}

/// The words that stand before the paths in the title.
pub open spec fn title_words(scope: Scope) -> Seq<Seq<char>> {
    (if scope.combined {
        seq!["combined"@]
    } else {
        Seq::empty()
    }) + (if scope.all {
        seq!["--all"@]
    } else {
        Seq::empty()
    }) + (if scope.first_parent {
        seq!["--first-parent"@]
    } else {
        Seq::empty()
    }) + texts(scope.revs@)
}

/// What the title of the window says of what is asked for.
pub open spec fn title_of(scope: Scope) -> Seq<char> {
    if scope.reflog {
        if scope.revs@.len() == 0 {
            "reflog"@
        } else {
            "reflog "@ + scope.revs@[0]@
        }
    } else {
        let head = joined(title_words(scope), " "@);
        if scope.paths@.len() == 0 {
            head
        } else {
            head + (if head.len() > 0 {
                " "@
            } else {
                Seq::empty()
            }) + (if scope.follow {
                "follow "@
            } else {
                "-- "@
            }) + joined(texts(scope.paths@), " "@)
        }
    }
}

/// The strings with a space between them.
fn join_texts(parts: &[String]) -> (s: String)
    ensures
        s@ == joined(texts(parts@), " "@),
{
    let ghost all = texts(parts@);
    let mut s = String::new();
    let mut i: usize = 0;
    assert(all.take(0) =~= Seq::<Seq<char>>::empty());
    while i < parts.len()
        invariant
            i <= parts@.len(),
            all == texts(parts@),
            s@ == joined(all.take(i as int), " "@),
        decreases parts.len() - i,
    {
        proof {
            assert(all.take(i + 1).drop_last() =~= all.take(i as int));
            assert(all.take(i + 1).last() == parts@[i as int]@);
        }
        if i > 0 {
            s.append(" ");
        } else {
            assert(s@ + parts@[0]@ =~= parts@[0]@);
        }
        s.append(&parts[i]);
        i += 1;
    }
    assert(all.take(i as int) =~= all);
    s
}

/// What the title of the window says of what is asked for; nothing for the whole history of the
/// current branch.
pub fn scope_title_suffix(scope: &Scope) -> (s: String)
    ensures
        s@ == title_of(*scope),
{
    if scope.reflog {
        if scope.revs.len() == 0 {
            return String::from_str("reflog");
        }
        let mut s = String::from_str("reflog ");
        s.append(&scope.revs[0]);
        return s;
    }
    let mut head: Vec<String> = Vec::new();
    if scope.combined {
        head.push(String::from_str("combined"));
    }
    if scope.all {
        head.push(String::from_str("--all"));
    }
    if scope.first_parent {
        head.push(String::from_str("--first-parent"));
    }
    extend_texts(&mut head, &scope.revs);
    assert(texts(head@) =~= title_words(*scope));
    let mut s = join_texts(&head);
    if scope.paths.len() > 0 {
        if !s.as_str().is_empty() {
            s.append(" ");
        }
        if scope.follow {
            s.append("follow ");
        } else {
            s.append("-- ");
        }
        s.append(&join_texts(&scope.paths));
        assert(s@ =~= title_of(*scope));
    }
    s
}

/// The help text.
pub const HELP: &'static str = "gitkay — a git history viewer

USAGE:
    gitkay [-C <dir>] [--all] [--combined] [--first-parent] [<rev>...] [-- <path>...]
    gitkay [-C <dir>] --reflog [<ref>]
    gitkay [-C <dir>] --follow [<rev>...] <path>

OPTIONS:
    -C <dir>        Run as if started in <dir>
    --all           Show all refs (branches, remotes, tags), not just the current branch
    --combined      Open on the combined diff of a single <a>..<b> range
                    (the row is always present for a range; this selects it)
    --first-parent  Follow only the first parent of each merge: show the mainline,
                    hiding the commits merged in from topic branches
    --reflog        Show <ref>'s reflog (default HEAD) instead of its history
    --follow        Follow a single <path> across renames (exactly one path)
    -h, --help      Print this help and exit
    -V, --version   Print version and exit

ARGS:
    <rev>...        Revisions to show: <rev>, <a>..<b>, <a>...<b>, ^<rev>
                    (default: the current branch)
    <path>...       Limit history and diffs to commits touching these paths
                    (relative to the current directory, like git)
";

/// What is printed for `--version`.
pub fn version_text(version: &str) -> (s: String)
    ensures
        s@ == "gitkay "@ + version@,
{
    let mut s = String::from_str("gitkay ");
    s.append(version);
    s
}

/// A segment that stays in the shortest form.
pub open spec fn is_segment(s: Seq<char>) -> bool {
    s.len() > 0 && s != "."@ && !s.contains('/')
}

/// Whether the segments are those of a path in its shortest form: none is empty or `.`, and `..`
/// stands only at the front.
pub open spec fn is_normal(segs: Seq<Seq<char>>) -> bool {
    &&& forall|k: int| 0 <= k < segs.len() ==> is_segment(#[trigger] segs[k])
    &&& forall|k: int, l: int| #![trigger segs[k], segs[l]]
        0 <= k < l < segs.len() && segs[l] == ".."@ ==> segs[k] == ".."@
}

proof fn lemma_normal_is_normal(segs: Seq<Seq<char>>)
    requires
        forall|k: int| 0 <= k < segs.len() ==> !(#[trigger] segs[k]).contains('/'),
    ensures
        is_normal(normal(segs)),
    decreases segs.len(),
{
    if segs.len() > 0 {
        let fore = segs.drop_last();
        assert forall|k: int| 0 <= k < fore.len() implies !(#[trigger] fore[k]).contains('/') by {
            assert(fore[k] == segs[k]);
        }
        lemma_normal_is_normal(fore);
        let out = normal(fore);
        assert(!segs[segs.len() - 1].contains('/'));
        let now = normal(segs);
        assert forall|k: int, l: int| #![trigger now[k], now[l]]
            0 <= k < l < now.len() && now[l] == ".."@ implies now[k] == ".."@ by {
            if l < out.len() {
                assert(now[k] == out[k] && now[l] == out[l]);
            } else {
                assert(out.last() == out[out.len() - 1]);
                if k < out.len() - 1 {
                    assert(out[k] == ".."@);
                }
            }
        }
        assert forall|k: int| 0 <= k < now.len() implies is_segment(#[trigger] now[k]) by {
            if k < out.len() {
                assert(now[k] == out[k]);
            }
        }
    }
}

proof fn lemma_normal_stays(segs: Seq<Seq<char>>)
    requires
        is_normal(segs),
    ensures
        normal(segs) == segs,
    decreases segs.len(),
{
    if segs.len() > 0 {
        let fore = segs.drop_last();
        assert forall|k: int| 0 <= k < fore.len() implies is_segment(#[trigger] fore[k]) by {
            assert(fore[k] == segs[k]);
        }
        assert forall|k: int, l: int| #![trigger fore[k], fore[l]]
            0 <= k < l < fore.len() && fore[l] == ".."@ implies fore[k] == ".."@ by {
            assert(fore[k] == segs[k] && fore[l] == segs[l]);
        }
        lemma_normal_stays(fore);
        let n = segs.len() - 1;
        assert(is_segment(segs[n]));
        if segs[n] == ".."@ && n > 0 {
            assert(segs[n - 1] == ".."@);
            assert(fore.last() == segs[n - 1]);
        }
        assert(normal(segs) =~= segs);
    } else {
        assert(normal(segs) =~= segs);
    }
}

/// Where no segment holds a slash, splitting undoes joining.
proof fn lemma_split_joined(segs: Seq<Seq<char>>)
    requires
        segs.len() > 0,
        forall|k: int| 0 <= k < segs.len() ==> !(#[trigger] segs[k]).contains('/'),
    ensures
        split(joined(segs, "/"@), '/') == segs,
    decreases segs.len(),
{
    reveal_strlit("/");
    let fore = segs.drop_last();
    if segs.len() == 1 {
        assert(split(segs[0], '/') =~= segs);
    } else {
        assert forall|k: int| 0 <= k < fore.len() implies !(#[trigger] fore[k]).contains('/') by {
            assert(fore[k] == segs[k]);
        }
        lemma_split_joined(fore);
        let last = segs[segs.len() - 1];
        assert("/"@ =~= seq!['/']);
        lemma_split_around(joined(fore, "/"@), last, '/');
        assert(split(last, '/') =~= seq![last]);
        assert(joined(segs, "/"@) =~= joined(fore, "/"@).push('/') + last);
        assert(split(joined(segs, "/"@), '/') =~= segs);
    }
}

/// The shortest form of a path has no empty segment and no `.`, and `..` only at its front; and it is
/// its own shortest form.
pub proof fn law_normal_path_stays(path: Seq<char>)
    ensures
        is_normal(normal(split(path, '/'))),
        normal_path(normal_path(path)) == normal_path(path),
{
    lemma_split_free(path, '/');
    let segs = normal(split(path, '/'));
    lemma_normal_is_normal(split(path, '/'));
    if segs.len() == 0 {
        let empty = Seq::<char>::empty();
        assert(joined(segs, "/"@) =~= empty);
        assert(split(empty, '/') =~= seq![empty]);
        assert(split(empty, '/').drop_last() =~= Seq::<Seq<char>>::empty());
        reveal_with_fuel(normal, 2);
        assert(normal(split(empty, '/')) =~= segs);
    } else {
        assert forall|k: int| 0 <= k < segs.len() implies !(#[trigger] segs[k]).contains('/') by {
            assert(is_segment(segs[k]));
        }
        lemma_split_joined(segs);
        lemma_normal_stays(segs);
    }
}

proof fn lemma_split_around(s: Seq<char>, t: Seq<char>, c: char)
    ensures
        split(s.push(c) + t, c) == split(s, c) + split(t, c),
{
    law_parts_lie_between_separators(s, t, c);
}

/// The segments that do not count make no difference to the shortest form.
proof fn lemma_normal_of_counting(segs: Seq<Seq<char>>)
    ensures
        normal(segs.filter(|s: Seq<char>| s.len() > 0 && s != "."@)) == normal(segs),
    decreases segs.len(),
{
    reveal(Seq::filter);
    let counts = |s: Seq<char>| s.len() > 0 && s != "."@;
    if segs.len() > 0 {
        let fore = segs.drop_last();
        lemma_normal_of_counting(fore);
        let kept = segs.filter(counts);
        if counts(segs.last()) {
            assert(kept == fore.filter(counts).push(segs.last()));
            assert(kept.drop_last() =~= fore.filter(counts));
        }
    }
}

/// The segments of a path below a directory that count are those of the directory and those of the
/// rest.
pub proof fn lemma_components_below(dir: Seq<char>, t: Seq<char>)
    ensures
        components(dir + "/"@ + t) == components(dir) + components(t),
{
    reveal_strlit("/");
    let counts = |s: Seq<char>| s.len() > 0 && s != "."@;
    assert(dir + "/"@ + t =~= dir.push('/') + t);
    lemma_split_around(dir, t, '/');
    Seq::filter_distributes_over_add(split(dir, '/'), split(t, '/'), counts);
}

/// An absolute word below the working tree stands for the same path as the word relative to it, from
/// whatever directory it is given; one that does not lie below the working tree stays as it is.
pub proof fn law_absolute_word_is_relative_to_the_tree(
    workdir: Seq<char>,
    t: Seq<char>,
    prefix: Seq<char>,
    token: Seq<char>,
)
    requires
        workdir.len() > 0 && workdir[0] == '/',
        t.len() == 0 || t[0] != '/',
    ensures
        pathspec_of(workdir + "/"@ + t, prefix, workdir) == pathspec_of(t, Seq::empty(), workdir),
        token.len() > 0 && token[0] == '/' && !components(workdir).is_prefix_of(components(token))
            ==> pathspec_of(token, prefix, workdir) == token,
{
    let empty = Seq::<char>::empty();
    let below = workdir + "/"@ + t;
    assert(below[0] == '/');
    lemma_components_below(workdir, t);
    let w = components(workdir);
    assert(components(below).skip(w.len() as int) =~= components(t));
    assert(w =~= components(below).subrange(0, w.len() as int));
    lemma_components_below(empty, t);
    assert(components(empty) =~= Seq::<Seq<char>>::empty()) by {
        reveal_with_fuel(Seq::filter, 2);
        assert(split(empty, '/') =~= seq![empty]);
        assert(seq![empty].drop_last() =~= Seq::<Seq<char>>::empty());
    }
    assert(components(empty + "/"@ + t) =~= components(t));
    lemma_normal_of_counting(split(t, '/'));
    lemma_normal_of_counting(split(empty + "/"@ + t, '/'));
    lemma_normal_of_counting(components(t));
}

proof fn lemma_flags_go_on(args: Seq<Seq<char>>, more: Seq<Seq<char>>, i: int, before: RawView, v: RawView)
    requires
        0 <= i <= args.len(),
        forall|k: int| i <= k < args.len() ==> #[trigger] args[k] != "--"@,
        flags_from(args, i, before) == Ok::<RawView, Seq<char>>(v),
        !v.help && !v.version,
    ensures
        flags_from(args + more, i, before) == flags_from(args + more, args.len() as int, v),
        v.post == before.post,
    decreases args.len() - i,
{
    let all = args + more;
    if i < args.len() {
        let a = args[i];
        assert(all[i] == a);
        if a == "--help"@ || a == "-h"@ || a == "--version"@ || a == "-V"@ {
        } else if a == "--all"@ {
            lemma_flags_go_on(args, more, i + 1, RawView { all: true, ..before }, v);
        } else if a == "--reflog"@ {
            lemma_flags_go_on(args, more, i + 1, RawView { reflog: true, ..before }, v);
        } else if a == "--follow"@ {
            lemma_flags_go_on(args, more, i + 1, RawView { follow: true, ..before }, v);
        } else if a == "--combined"@ {
            lemma_flags_go_on(args, more, i + 1, RawView { combined: true, ..before }, v);
        } else if a == "--first-parent"@ {
            lemma_flags_go_on(args, more, i + 1, RawView { first_parent: true, ..before }, v);
        } else if a == "-C"@ {
            assert(all[i + 1] == args[i + 1]);
            lemma_flags_go_on(
                args,
                more,
                i + 2,
                RawView { repo_dir: Some(args[i + 1]), ..before },
                v,
            );
        } else if "-C"@.is_prefix_of(a) {
            lemma_flags_go_on(
                args,
                more,
                i + 1,
                RawView { repo_dir: Some(a.skip("-C"@.len() as int)), ..before },
                v,
            );
        } else {
            lemma_flags_go_on(args, more, i + 1, RawView { pre: before.pre.push(a), ..before }, v);
        }
    }
}

proof fn lemma_flag_texts()
    ensures
        "--"@ == seq!['-', '-'],
        "--help"@ == seq!['-', '-', 'h', 'e', 'l', 'p'],
        "-h"@ == seq!['-', 'h'],
        "--version"@ == seq!['-', '-', 'v', 'e', 'r', 's', 'i', 'o', 'n'],
        "-V"@ == seq!['-', 'V'],
        "--all"@ == seq!['-', '-', 'a', 'l', 'l'],
        "--reflog"@ == seq!['-', '-', 'r', 'e', 'f', 'l', 'o', 'g'],
        "--follow"@ == seq!['-', '-', 'f', 'o', 'l', 'l', 'o', 'w'],
        "--combined"@ == seq!['-', '-', 'c', 'o', 'm', 'b', 'i', 'n', 'e', 'd'],
        "--first-parent"@ == seq![
            '-',
            '-',
            'f',
            'i',
            'r',
            's',
            't',
            '-',
            'p',
            'a',
            'r',
            'e',
            'n',
            't',
        ],
        "-C"@ == seq!['-', 'C'],
        "-"@ == seq!['-'],
{
    reveal_strlit("--");
    reveal_strlit("--help");
    reveal_strlit("-h");
    reveal_strlit("--version");
    reveal_strlit("-V");
    reveal_strlit("--all");
    reveal_strlit("--reflog");
    reveal_strlit("--follow");
    reveal_strlit("--combined");
    reveal_strlit("--first-parent");
    reveal_strlit("-C");
    reveal_strlit("-");
    assert("--"@ =~= seq!['-', '-']);
    assert("--help"@ =~= seq!['-', '-', 'h', 'e', 'l', 'p']);
    assert("-h"@ =~= seq!['-', 'h']);
    assert("--version"@ =~= seq!['-', '-', 'v', 'e', 'r', 's', 'i', 'o', 'n']);
    assert("-V"@ =~= seq!['-', 'V']);
    assert("--all"@ =~= seq!['-', '-', 'a', 'l', 'l']);
    assert("--reflog"@ =~= seq!['-', '-', 'r', 'e', 'f', 'l', 'o', 'g']);
    assert("--follow"@ =~= seq!['-', '-', 'f', 'o', 'l', 'l', 'o', 'w']);
    assert("--combined"@ =~= seq!['-', '-', 'c', 'o', 'm', 'b', 'i', 'n', 'e', 'd']);
    assert("--first-parent"@ =~= seq![
        '-',
        '-',
        'f',
        'i',
        'r',
        's',
        't',
        '-',
        'p',
        'a',
        'r',
        'e',
        'n',
        't',
    ]);
    assert("-C"@ =~= seq!['-', 'C']);
    assert("-"@ =~= seq!['-']);
}

/// Whether an argument is a word, and no flag: it does not start with a hyphen, or is one.
pub open spec fn is_word_argument(a: Seq<char>) -> bool {
    a.len() == 0 || a[0] != '-' || a == seq!['-']
}

/// The command line is read argument by argument, and each adds what it stands for to what the ones
/// before it gave: a word comes behind the words before it, a flag is set, and `-C` gives the
/// directory, in the same argument or in the next one. No word is lost, and the order is kept.
pub proof fn law_each_argument_adds_to_those_before(
    args: Seq<Seq<char>>,
    v: RawView,
    w: Seq<char>,
    dir: Seq<char>,
)
    requires
        !args.contains("--"@),
        flags_from(args, 0, no_args()) == Ok::<RawView, Seq<char>>(v),
        !v.help && !v.version,
    ensures
        is_word_argument(w) ==> flags_from(args.push(w), 0, no_args()) == Ok::<RawView, Seq<char>>(
            RawView { pre: v.pre.push(w), ..v },
        ),
        flags_from(args.push("--all"@), 0, no_args()) == Ok::<RawView, Seq<char>>(
            RawView { all: true, ..v },
        ),
        flags_from(args.push("--reflog"@), 0, no_args()) == Ok::<RawView, Seq<char>>(
            RawView { reflog: true, ..v },
        ),
        flags_from(args.push("--follow"@), 0, no_args()) == Ok::<RawView, Seq<char>>(
            RawView { follow: true, ..v },
        ),
        flags_from(args.push("--combined"@), 0, no_args()) == Ok::<RawView, Seq<char>>(
            RawView { combined: true, ..v },
        ),
        flags_from(args.push("--first-parent"@), 0, no_args()) == Ok::<RawView, Seq<char>>(
            RawView { first_parent: true, ..v },
        ),
        dir.len() > 0 ==> flags_from(args.push("-C"@ + dir), 0, no_args()) == Ok::<
            RawView,
            Seq<char>,
        >(RawView { repo_dir: Some(dir), ..v }),
        flags_from(args.push("-C"@).push(dir), 0, no_args()) == Ok::<RawView, Seq<char>>(
            RawView { repo_dir: Some(dir), ..v },
        ),
        flags_from(args.push("-C"@), 0, no_args()) == Err::<RawView, Seq<char>>(
            "-C requires a directory argument"@,
        ),
{
    lemma_flag_texts();
    assert forall|k: int| 0 <= k < args.len() implies #[trigger] args[k] != "--"@ by {
        assert(args.contains(args[k]));
    }
    lemma_one_more(args, v, w);
    lemma_one_more(args, v, "--all"@);
    lemma_one_more(args, v, "--reflog"@);
    lemma_one_more(args, v, "--follow"@);
    lemma_one_more(args, v, "--combined"@);
    lemma_one_more(args, v, "--first-parent"@);
    lemma_one_more(args, v, "-C"@);
    lemma_one_more(args, v, "-C"@ + dir);
    let joint = "-C"@ + dir;
    assert(joint[0] == '-' && joint[1] == 'C');
    assert(joint.subrange(0, 2) =~= "-C"@);
    assert(joint.skip(2) =~= dir);
    let two = args.push("-C"@).push(dir);
    lemma_flags_go_on(args, seq!["-C"@, dir], 0, no_args(), v);
    assert(args + seq!["-C"@, dir] =~= two);
    assert(two[args.len() as int] == "-C"@);
    reveal_with_fuel(flags_from, 3);
    if is_word_argument(w) {
        if "-C"@.is_prefix_of(w) {
            assert(w.subrange(0, 2)[0] == '-');
            assert(w[0] == '-');
        }
        if "-"@.is_prefix_of(w) && w != "-"@ {
            assert(w.subrange(0, 1)[0] == '-');
            assert(w[0] == '-');
        }
    }
}

proof fn lemma_one_more(args: Seq<Seq<char>>, v: RawView, w: Seq<char>)
    requires
        forall|k: int| 0 <= k < args.len() ==> #[trigger] args[k] != "--"@,
        flags_from(args, 0, no_args()) == Ok::<RawView, Seq<char>>(v),
        !v.help && !v.version,
    ensures
        flags_from(args.push(w), 0, no_args()) == flags_from(args.push(w), args.len() as int, v),
        args.push(w)[args.len() as int] == w,
        v.post.len() == 0,
{
    lemma_flags_go_on(args, seq![w], 0, no_args(), v);
    assert(args + seq![w] =~= args.push(w));
}

/// Behind two hyphens every argument is a path, in its order, whatever it looks like; an argument that
/// asks for help or the version makes that all that is asked for, whatever comes behind it; and one
/// that starts with a hyphen and is no flag is an error that names it, as is a missing directory.
pub proof fn law_hyphens_help_and_errors_end_the_reading(
    args: Seq<Seq<char>>,
    v: RawView,
    rest: Seq<Seq<char>>,
    w: Seq<char>,
)
    requires
        !args.contains("--"@),
        flags_from(args, 0, no_args()) == Ok::<RawView, Seq<char>>(v),
        !v.help && !v.version,
    ensures
        flags_from(args.push("--"@) + rest, 0, no_args()) == Ok::<RawView, Seq<char>>(
            RawView { post: rest, ..v },
        ),
        w == "--help"@ || w == "-h"@ ==> flags_from(args.push(w) + rest, 0, no_args()) == Ok::<
            RawView,
            Seq<char>,
        >(
            RawView {
                repo_dir: None,
                all: false,
                reflog: false,
                follow: false,
                combined: false,
                first_parent: false,
                help: true,
                version: false,
                pre: Seq::empty(),
                post: Seq::empty(),
            },
        ),
        w == "--version"@ || w == "-V"@ ==> flags_from(args.push(w) + rest, 0, no_args()) == Ok::<
            RawView,
            Seq<char>,
        >(
            RawView {
                repo_dir: None,
                all: false,
                reflog: false,
                follow: false,
                combined: false,
                first_parent: false,
                help: false,
                version: true,
                pre: Seq::empty(),
                post: Seq::empty(),
            },
        ),
        w.len() >= 2 && w[0] == '-' && w[1] != 'C' && w != "--"@ && w != "--help"@ && w != "-h"@ && w
            != "--version"@ && w != "-V"@ && w != "--all"@ && w != "--reflog"@ && w != "--follow"@ && w
            != "--combined"@ && w != "--first-parent"@ ==> flags_from(
            args.push(w) + rest,
            0,
            no_args(),
        ) == Err::<RawView, Seq<char>>("unknown flag: "@ + w),
{
    lemma_flag_texts();
    let n = args.len() as int;
    assert forall|k: int| 0 <= k < args.len() implies #[trigger] args[k] != "--"@ by {
        assert(args.contains(args[k]));
    }
    let dashes = seq!["--"@] + rest;
    lemma_flags_go_on(args, dashes, 0, no_args(), v);
    assert(args + dashes =~= args.push("--"@) + rest);
    assert((args.push("--"@) + rest)[n] == "--"@);
    assert((args.push("--"@) + rest).skip(n + 1) =~= rest);
    assert(v.post + rest =~= rest);
    let other = seq![w] + rest;
    lemma_flags_go_on(args, other, 0, no_args(), v);
    assert(args + other =~= args.push(w) + rest);
    assert((args.push(w) + rest)[n] == w);
    if w.len() >= 2 && w[0] == '-' && w[1] != 'C' {
        assert(!"-C"@.is_prefix_of(w)) by {
            if "-C"@.is_prefix_of(w) {
                assert(w.subrange(0, 2)[1] == 'C');
            }
        }
        assert(w.subrange(0, 1) =~= "-"@);
    }
}

/// An empty command line asks for nothing, and one of words alone gives those words, all of them and in
/// their order.
pub proof fn law_words_alone_are_kept(args: Seq<Seq<char>>)
    requires
        forall|i: int| 0 <= i < args.len() ==> is_word_argument(#[trigger] args[i]),
    ensures
        flags_from(args, 0, no_args()) == Ok::<RawView, Seq<char>>(
            RawView {
                repo_dir: None,
                all: false,
                reflog: false,
                follow: false,
                combined: false,
                first_parent: false,
                help: false,
                version: false,
                pre: args,
                post: Seq::empty(),
            },
        ),
    decreases args.len(),
{
    if args.len() == 0 {
        assert(args =~= Seq::<Seq<char>>::empty());
    } else {
        let fore = args.drop_last();
        assert forall|i: int| 0 <= i < fore.len() implies is_word_argument(#[trigger] fore[i]) by {
            assert(fore[i] == args[i]);
        }
        law_words_alone_are_kept(fore);
        lemma_flag_texts();
        assert(!fore.contains("--"@)) by {
            if fore.contains("--"@) {
                let k = choose|k: int| 0 <= k < fore.len() && fore[k] == "--"@;
                assert(is_word_argument(fore[k]));
            }
        }
        let v = flags_from(fore, 0, no_args())->Ok_0;
        assert(is_word_argument(args[args.len() - 1]));
        law_each_argument_adds_to_those_before(fore, v, args.last(), Seq::empty());
        assert(fore.push(args.last()) =~= args);
    }
}

/// The words are told apart without losing one: they are the revisions, then the paths. A revision is
/// one that is no path, a path is one that exists, and the first path is no revision. Where the words
/// cannot be cut that way, they are an error.
pub proof fn law_words_are_revisions_then_paths(
    pre: Seq<Seq<char>>,
    is_rev: spec_fn(Seq<char>) -> bool,
    is_path: spec_fn(Seq<char>) -> bool,
    r: Seq<Seq<char>>,
    p: Seq<Seq<char>>,
)
    ensures
        classified(pre, 0, is_rev, is_path, Seq::empty(), Seq::empty()) == Ok::<
            (Seq<Seq<char>>, Seq<Seq<char>>),
            Seq<char>,
        >((r, p)) <==> {
            &&& pre == r + p
            &&& forall|i: int|
                0 <= i < r.len() ==> is_rev(#[trigger] r[i]) && !is_path(r[i])
            &&& forall|i: int| 0 <= i < p.len() ==> is_path(#[trigger] p[i])
            &&& p.len() > 0 ==> !is_rev(p[0])
        },
{
    let none = Seq::<Seq<char>>::empty();
    let out = classified(pre, 0, is_rev, is_path, none, none);
    if out == Ok::<(Seq<Seq<char>>, Seq<Seq<char>>), Seq<char>>((r, p)) {
        assert(pre.take(0) =~= none + none);
        lemma_classified_sound(pre, 0, is_rev, is_path, none, none, r, p);
    }
    if pre == r + p && (forall|i: int|
        0 <= i < r.len() ==> is_rev(#[trigger] r[i]) && !is_path(r[i])) && (forall|i: int|
        0 <= i < p.len() ==> is_path(#[trigger] p[i])) && (p.len() > 0 ==> !is_rev(p[0])) {
        assert(r.take(0) =~= none && p.take(0) =~= none);
        lemma_classified_complete(pre, 0, is_rev, is_path, r, p);
    }
}

proof fn lemma_classified_sound(
    pre: Seq<Seq<char>>,
    i: int,
    is_rev: spec_fn(Seq<char>) -> bool,
    is_path: spec_fn(Seq<char>) -> bool,
    revs: Seq<Seq<char>>,
    paths: Seq<Seq<char>>,
    r: Seq<Seq<char>>,
    p: Seq<Seq<char>>,
)
    requires
        0 <= i <= pre.len(),
        pre.take(i) == revs + paths,
        forall|k: int| 0 <= k < revs.len() ==> is_rev(#[trigger] revs[k]) && !is_path(revs[k]),
        forall|k: int| 0 <= k < paths.len() ==> is_path(#[trigger] paths[k]),
        paths.len() > 0 ==> !is_rev(paths[0]),
        classified(pre, i, is_rev, is_path, revs, paths) == Ok::<
            (Seq<Seq<char>>, Seq<Seq<char>>),
            Seq<char>,
        >((r, p)),
    ensures
        pre == r + p,
        forall|k: int| 0 <= k < r.len() ==> is_rev(#[trigger] r[k]) && !is_path(r[k]),
        forall|k: int| 0 <= k < p.len() ==> is_path(#[trigger] p[k]),
        p.len() > 0 ==> !is_rev(p[0]),
    decreases pre.len() - i,
{
    if i < pre.len() {
        let tok = pre[i];
        assert(pre.take(i + 1) =~= pre.take(i).push(tok));
        if paths.len() > 0 || !is_rev(tok) {
            let more = paths.push(tok);
            assert(pre.take(i + 1) =~= revs + more);
            assert forall|k: int| 0 <= k < more.len() implies is_path(#[trigger] more[k]) by {
                if k < paths.len() {
                    assert(more[k] == paths[k]);
                }
            }
            lemma_classified_sound(pre, i + 1, is_rev, is_path, revs, more, r, p);
        } else {
            let more = revs.push(tok);
            assert(pre.take(i + 1) =~= more + paths);
            assert forall|k: int| 0 <= k < more.len() implies is_rev(#[trigger] more[k]) && !is_path(
                more[k],
            ) by {
                if k < revs.len() {
                    assert(more[k] == revs[k]);
                }
            }
            lemma_classified_sound(pre, i + 1, is_rev, is_path, more, paths, r, p);
        }
    } else {
        assert(pre.take(i) =~= pre);
    }
}

proof fn lemma_classified_complete(
    pre: Seq<Seq<char>>,
    i: int,
    is_rev: spec_fn(Seq<char>) -> bool,
    is_path: spec_fn(Seq<char>) -> bool,
    r: Seq<Seq<char>>,
    p: Seq<Seq<char>>,
)
    requires
        0 <= i <= pre.len(),
        pre == r + p,
        forall|k: int| 0 <= k < r.len() ==> is_rev(#[trigger] r[k]) && !is_path(r[k]),
        forall|k: int| 0 <= k < p.len() ==> is_path(#[trigger] p[k]),
        p.len() > 0 ==> !is_rev(p[0]),
    ensures
        ({
            let a = if i < r.len() {
                i
            } else {
                r.len() as int
            };
            classified(pre, i, is_rev, is_path, r.take(a), p.take(i - a)) == Ok::<
                (Seq<Seq<char>>, Seq<Seq<char>>),
                Seq<char>,
            >((r, p))
        }),
    decreases pre.len() - i,
{
    let n = r.len() as int;
    if i < pre.len() {
        lemma_classified_complete(pre, i + 1, is_rev, is_path, r, p);
        if i < n {
            assert(pre[i] == r[i]);
            assert(r.take(i + 1) =~= r.take(i).push(r[i]));
            assert(p.take(i - i).len() == 0);
            assert(p.take(i - i) =~= p.take(0));
            if i + 1 <= n {
                assert(p.take(0) =~= p.take((i + 1) - (if i + 1 < n {
                    i + 1
                } else {
                    n
                })));
            }
        } else {
            assert(pre[i] == p[i - n]);
            assert(p.take(i - n + 1) =~= p.take(i - n).push(p[i - n]));
            if i == n {
                assert(p.take(0).len() == 0);
            }
        }
    } else {
        assert(r.take(n) =~= r);
        assert(p.take(p.len() as int) =~= p);
    }
}

proof fn lemma_classified_goes_on(
    front: Seq<Seq<char>>,
    more: Seq<Seq<char>>,
    i: int,
    is_rev: spec_fn(Seq<char>) -> bool,
    is_path: spec_fn(Seq<char>) -> bool,
    revs: Seq<Seq<char>>,
    paths: Seq<Seq<char>>,
    r: Seq<Seq<char>>,
    p: Seq<Seq<char>>,
)
    requires
        0 <= i <= front.len(),
        classified(front, i, is_rev, is_path, revs, paths) == Ok::<
            (Seq<Seq<char>>, Seq<Seq<char>>),
            Seq<char>,
        >((r, p)),
    ensures
        classified(front + more, i, is_rev, is_path, revs, paths) == classified(
            front + more,
            front.len() as int,
            is_rev,
            is_path,
            r,
            p,
        ),
    decreases front.len() - i,
{
    if i < front.len() {
        let tok = front[i];
        assert((front + more)[i] == tok);
        if paths.len() > 0 || !is_rev(tok) {
            lemma_classified_goes_on(
                front,
                more,
                i + 1,
                is_rev,
                is_path,
                revs,
                paths.push(tok),
                r,
                p,
            );
        } else {
            lemma_classified_goes_on(
                front,
                more,
                i + 1,
                is_rev,
                is_path,
                revs.push(tok),
                paths,
                r,
                p,
            );
        }
    }
}

/// The first word that cannot be told is named in the error, with what is wrong with it: behind a path
/// that it does not exist, and before all paths that it is both a revision and a path, or neither.
pub proof fn law_first_wrong_word_is_named(
    front: Seq<Seq<char>>,
    word: Seq<char>,
    rest: Seq<Seq<char>>,
    is_rev: spec_fn(Seq<char>) -> bool,
    is_path: spec_fn(Seq<char>) -> bool,
    r: Seq<Seq<char>>,
    p: Seq<Seq<char>>,
)
    requires
        classified(front, 0, is_rev, is_path, Seq::empty(), Seq::empty()) == Ok::<
            (Seq<Seq<char>>, Seq<Seq<char>>),
            Seq<char>,
        >((r, p)),
    ensures
        ({
            let out = classified(
                front.push(word) + rest,
                0,
                is_rev,
                is_path,
                Seq::empty(),
                Seq::empty(),
            );
            let err = |text: Seq<char>|
                out == Err::<(Seq<Seq<char>>, Seq<Seq<char>>), Seq<char>>(text);
            &&& p.len() > 0 && !is_path(word) ==> err("path does not exist: "@ + word)
            &&& p.len() == 0 && is_rev(word) && is_path(word) ==> err(
                "ambiguous argument '"@ + word
                    + "': both a revision and a path — use '--' to separate"@,
            )
            &&& p.len() == 0 && !is_rev(word) && !is_path(word) ==> err(
                "unknown revision or path not in the working tree: "@ + word,
            )
        }),
{
    let more = seq![word] + rest;
    assert(front + more =~= front.push(word) + rest);
    assert((front.push(word) + rest)[front.len() as int] == word);
    lemma_classified_goes_on(front, more, 0, is_rev, is_path, Seq::empty(), Seq::empty(), r, p);
}

/// Whether two full stops stand side by side.
pub open spec fn has_two_stops(s: Seq<char>) -> bool {
    exists|i: int| 0 <= i && i + 1 < s.len() && #[trigger] s[i] == '.' && s[i + 1] == '.'
}

proof fn lemma_stops()
    ensures
        ".."@ == seq!['.', '.'],
        "..."@ == seq!['.', '.', '.'],
{
    reveal_strlit("..");
    reveal_strlit("...");
    assert(".."@ =~= seq!['.', '.']);
    assert("..."@ =~= seq!['.', '.', '.']);
}

/// A word for revisions is cut at its full stops. One that starts with a circumflex leaves out what
/// follows; one without two full stops side by side is a revision, whatever else is in it; and two or
/// three of them stand between the ends of a range, of which one that is left out is the last commit.
pub proof fn law_full_stops_make_a_range(a: Seq<char>, b: Seq<char>)
    requires
        !has_two_stops(a),
        !has_two_stops(b),
        a.len() > 0 ==> a.last() != '.',
        b.len() > 0 ==> b[0] != '.',
    ensures
        rev_kind(seq!['^'] + a) == RevView::Exclude(a),
        a.len() == 0 || a[0] != '^' ==> {
            let base = if a.len() == 0 && b.len() > 0 {
                "HEAD"@
            } else {
                a
            };
            let head = if b.len() == 0 && a.len() > 0 {
                "HEAD"@
            } else {
                b
            };
            &&& rev_kind(a) == RevView::Single(a)
            &&& rev_kind(a + ".."@ + b) == RevView::Range(base, head)
            &&& rev_kind(a + "..."@ + b) == RevView::Symmetric(base, head)
        },
{
    lemma_stops();
    let n = a.len() as int;
    assert((seq!['^'] + a).skip(1) =~= a);
    if n == 0 || a[0] != '^' {
        lemma_no_stops_found(a, ".."@);
        lemma_no_stops_found(a, "..."@);
        lemma_two_stops_found(a, b);
        lemma_three_stops_found(a, b);
    }
}

/// A text without two full stops side by side has no place at which two or three stand.
proof fn lemma_no_stops_found(s: Seq<char>, pat: Seq<char>)
    requires
        !has_two_stops(s),
        pat.len() >= 2,
        pat[0] == '.' && pat[1] == '.',
    ensures
        first_at(s, pat, 0) is None,
{
    law_first_place_is_the_first(s, pat, 0);
    if first_at(s, pat, 0) is Some {
        let k = first_at(s, pat, 0)->0;
        let t = s.subrange(k, k + pat.len());
        assert(t[0] == s[k] && t[1] == s[k + 1]);
        assert(s[k] == '.');
    }
}

/// A place at which full stops stand, with none side by side before it, is the first.
proof fn lemma_stops_found(s: Seq<char>, pat: Seq<char>, n: int)
    requires
        pat.len() >= 2,
        pat[0] == '.' && pat[1] == '.',
        0 <= n,
        n + pat.len() <= s.len(),
        s.subrange(n, n + pat.len()) == pat,
        forall|k: int| 0 <= k < n ==> !(#[trigger] s[k] == '.' && s[k + 1] == '.'),
    ensures
        first_at(s, pat, 0) == Some(n),
{
    law_first_place_is_the_first(s, pat, 0);
    if first_at(s, pat, 0) is None {
        assert(s.subrange(n, n + pat.len()) != pat);
    } else {
        let k = first_at(s, pat, 0)->0;
        if k < n {
            let t = s.subrange(k, k + pat.len());
            assert(t[0] == s[k] && t[1] == s[k + 1]);
            assert(s[k] == '.');
        } else if k > n {
            assert(s.subrange(n, n + pat.len()) != pat);
        }
    }
}

proof fn lemma_two_stops_found(a: Seq<char>, b: Seq<char>)
    requires
        !has_two_stops(a),
        !has_two_stops(b),
        a.len() > 0 ==> a.last() != '.' && a[0] != '^',
        b.len() > 0 ==> b[0] != '.',
    ensures
        rev_kind(a + ".."@ + b) == RevView::Range(range_end(a, b), range_end(b, a)),
{
    lemma_stops();
    let n = a.len() as int;
    let x = a + ".."@ + b;
    assert(x.subrange(n, n + 2) =~= ".."@);
    assert forall|k: int| 0 <= k < n implies !(#[trigger] x[k] == '.' && x[k + 1] == '.') by {
        assert(x[k] == a[k]);
        if k + 1 < n {
            assert(x[k + 1] == a[k + 1]);
        }
    }
    lemma_stops_found(x, ".."@, n);
    assert(x.take(n) =~= a);
    assert(x.skip(n + 2) =~= b);
    law_first_place_is_the_first(x, "..."@, 0);
    if first_at(x, "..."@, 0) is Some {
        let k = first_at(x, "..."@, 0)->0;
        let t = x.subrange(k, k + 3);
        assert(t[0] == x[k] && t[1] == x[k + 1] && t[2] == x[k + 2]);
        if k < n {
            assert(!(x[k] == '.' && x[k + 1] == '.'));
        } else if k == n || k == n + 1 {
            assert(x[n + 2] == b[0]);
        } else {
            assert(x[k] == b[k - n - 2] && x[k + 1] == b[k - n - 1]);
        }
    }
    if n > 0 {
        assert(x[0] == a[0]);
    } else {
        assert(x[0] == '.');
    }
}

proof fn lemma_three_stops_found(a: Seq<char>, b: Seq<char>)
    requires
        !has_two_stops(a),
        a.len() > 0 ==> a.last() != '.' && a[0] != '^',
    ensures
        rev_kind(a + "..."@ + b) == RevView::Symmetric(range_end(a, b), range_end(b, a)),
{
    lemma_stops();
    let n = a.len() as int;
    let x = a + "..."@ + b;
    assert(x.subrange(n, n + 3) =~= "..."@);
    assert forall|k: int| 0 <= k < n implies !(#[trigger] x[k] == '.' && x[k + 1] == '.') by {
        assert(x[k] == a[k]);
        if k + 1 < n {
            assert(x[k + 1] == a[k + 1]);
        }
    }
    lemma_stops_found(x, "..."@, n);
    assert(x.take(n) =~= a);
    assert(x.skip(n + 3) =~= b);
    if n > 0 {
        assert(x[0] == a[0]);
    } else {
        assert(x[0] == '.');
    }
}

/// A range has a row of its own where it is the only word for revisions, both its ends are there, and
/// neither all branches, nor a reflog, nor one followed file is asked for.
pub proof fn law_lone_range_has_a_row(scope: Scope, base: Seq<char>, head: Seq<char>)
    ensures
        ({
            let alone = scope.revs@.len() == 1 && !scope.all && !scope.reflog && !scope.follow;
            let kind = rev_kind(scope.revs@[0]@);
            &&& !alone ==> combined_of(scope) is None
            &&& alone && kind == RevView::Range(base, head) && base.len() > 0 && head.len() > 0
                ==> combined_of(scope) == Some(
                RangeView { token: scope.revs@[0]@, base, head, symmetric: false },
            )
            &&& alone && kind == RevView::Symmetric(base, head) && base.len() > 0 && head.len() > 0
                ==> combined_of(scope) == Some(
                RangeView { token: scope.revs@[0]@, base, head, symmetric: true },
            )
            &&& (kind == RevView::Range(base, head) || kind == RevView::Symmetric(base, head)) && (
            base.len() == 0 || head.len() == 0) ==> combined_of(scope) is None
            &&& kind is Single || kind is Exclude ==> combined_of(scope) is None
        }),
{
}

/// What is asked for can be shown exactly where following has one path and no reflog, the reflog has
/// at most one ref, no path and no first parents, and a combined row that is asked for exists.
pub proof fn law_scope_is_valid_where_flags_agree(scope: Scope)
    ensures
        fault_of(scope) is None <==> {
            &&& scope.follow ==> !scope.reflog && scope.paths@.len() == 1
            &&& scope.reflog ==> !scope.first_parent && scope.paths@.len() == 0 && scope.revs@.len()
                <= 1
            &&& scope.combined ==> combined_of(scope) is Some
        },
{
}

/// What is wrong is named, the first that applies: following with a reflog, first parents with a
/// reflog, following without exactly one path, a reflog with more than one ref or with paths, a
/// combined row with a flag that rules it out, and one without a range.
pub proof fn law_faults_are_named_in_order(scope: Scope)
    ensures
        ({
            let both = scope.follow && scope.reflog;
            let mainline = scope.first_parent && scope.reflog;
            let paths = scope.follow && scope.paths@.len() != 1;
            let refs = scope.reflog && (scope.paths@.len() > 0 || scope.revs@.len() > 1);
            let fine = !both && !mainline && !paths && !refs;
            &&& both ==> fault_of(scope) == Some("--follow and --reflog cannot be combined"@)
            &&& !both && mainline ==> fault_of(scope) == Some(
                "--first-parent and --reflog cannot be combined"@,
            )
            &&& !both && !mainline && paths ==> fault_of(scope) == Some(
                "--follow requires exactly one path"@,
            )
            &&& !both && !mainline && !paths && refs ==> fault_of(scope) == Some(
                "--reflog takes at most one ref and no paths"@,
            )
            &&& fine && scope.combined && scope.all ==> fault_of(scope) == Some(
                "--combined and "@ + "--all"@ + " cannot be combined"@,
            )
            &&& fine && scope.combined && !scope.all && scope.reflog ==> fault_of(scope) == Some(
                "--combined and "@ + "--reflog"@ + " cannot be combined"@,
            )
            &&& fine && scope.combined && !scope.all && !scope.reflog && scope.follow ==> fault_of(
                scope,
            ) == Some("--combined and "@ + "--follow"@ + " cannot be combined"@)
            &&& fine && scope.combined && !scope.all && !scope.reflog && !scope.follow
                && combined_of(scope) is None ==> fault_of(scope) == Some(
                "--combined requires a single <a>..<b> or <a>...<b> revision range"@,
            )
        }),
{
}

/// A path is shortened step by step: an empty segment and `.` are left out wherever they stand, a
/// segment and the `..` behind it fall away together, and nothing else does.
pub proof fn law_path_is_shortened_step_by_step(
    a: Seq<Seq<char>>,
    b: Seq<Seq<char>>,
    x: Seq<char>,
)
    requires
        x.len() > 0,
        x != "."@,
        x != ".."@,
    ensures
        normal(a + seq![Seq::<char>::empty()] + b) == normal(a + b),
        normal(a + seq!["."@] + b) == normal(a + b),
        normal(a + seq![x, ".."@] + b) == normal(a + b),
        normal(a.push(x)) == normal(a).push(x),
        normal(Seq::empty()) == Seq::<Seq<char>>::empty(),
        normal(seq![".."@]) == seq![".."@],
        normal(a).len() > 0 && normal(a).last() == ".."@ ==> normal(a.push(".."@)) == normal(a).push(
            ".."@,
        ),
    decreases b.len(),
{
    reveal_strlit(".");
    reveal_strlit("..");
    let empty = Seq::<char>::empty();
    assert(a.push(x).drop_last() =~= a);
    assert(a.push(".."@).drop_last() =~= a);
    let up = seq![".."@];
    assert(up.drop_last() =~= Seq::<Seq<char>>::empty());
    assert(up.last() == ".."@ && ".."@.len() == 2);
    assert(normal(up.drop_last()).len() == 0);
    assert(normal(up) =~= up);
    if b.len() == 0 {
        assert(a + b =~= a);
        let p = a + seq![empty] + b;
        let q = a + seq!["."@] + b;
        let r = a + seq![x, ".."@] + b;
        assert(p.drop_last() =~= a && p.last() == empty);
        assert(q.drop_last() =~= a && q.last() == "."@);
        assert(r.last() == ".."@);
        assert(r.drop_last() =~= a.push(x));
        assert(normal(a.push(x)).drop_last() =~= normal(a));
    } else {
        let c = b.drop_last();
        law_path_is_shortened_step_by_step(a, c, x);
        let p = a + seq![empty] + b;
        let q = a + seq!["."@] + b;
        let r = a + seq![x, ".."@] + b;
        assert(p.drop_last() =~= a + seq![empty] + c && p.last() == b.last());
        assert(q.drop_last() =~= a + seq!["."@] + c && q.last() == b.last());
        assert(r.drop_last() =~= a + seq![x, ".."@] + c && r.last() == b.last());
        assert((a + b).drop_last() =~= a + c && (a + b).last() == b.last());
    }
}

/// A relative word starts in the directory in which it is given: its path is that of the directory and
/// the word behind it, in the shortest form; and a path in that form stays as it is there.
pub proof fn law_relative_word_starts_at_its_directory(
    token: Seq<char>,
    prefix: Seq<char>,
    workdir: Seq<char>,
    segs: Seq<Seq<char>>,
)
    requires
        token.len() == 0 || token[0] != '/',
        segs.len() > 0,
        is_normal(segs),
    ensures
        pathspec_of(token, prefix, workdir) == joined(
            normal(split(prefix, '/') + split(token, '/')),
            "/"@,
        ),
        normal_path(joined(segs, "/"@)) == joined(segs, "/"@),
{
    reveal_strlit("/");
    assert(prefix + "/"@ + token =~= prefix.push('/') + token);
    law_parts_lie_between_separators(prefix, token, '/');
    assert forall|k: int| 0 <= k < segs.len() implies !(#[trigger] segs[k]).contains('/') by {
        assert(is_segment(segs[k]));
    }
    lemma_split_joined(segs);
    lemma_normal_stays(segs);
}

/// The title tells of a reflog, or else of the flags, the revisions and the paths, in that order.
pub proof fn law_title_tells_of_flags_revisions_and_paths(scope: Scope)
    ensures
        scope.reflog && scope.revs@.len() == 0 ==> title_of(scope) == "reflog"@,
        scope.reflog && scope.revs@.len() > 0 ==> title_of(scope) == "reflog "@ + scope.revs@[0]@,
        !scope.reflog && !scope.combined && !scope.all && !scope.first_parent ==> {
            let revs = joined(texts(scope.revs@), " "@);
            let paths = joined(texts(scope.paths@), " "@);
            &&& scope.paths@.len() == 0 ==> title_of(scope) == revs
            &&& scope.paths@.len() > 0 && scope.revs@.len() == 0 ==> title_of(scope) == if scope.follow {
                "follow "@ + paths
            } else {
                "-- "@ + paths
            }
            &&& scope.paths@.len() > 0 && revs.len() > 0 ==> title_of(scope) == revs + " "@ + (
            if scope.follow {
                "follow "@
            } else {
                "-- "@
            }) + paths
        },
        !scope.reflog && scope.paths@.len() == 0 && scope.revs@.len() == 0 && scope.combined
            && scope.all && scope.first_parent ==> title_of(scope)
            == "combined"@ + " "@ + "--all"@ + " "@ + "--first-parent"@,
        !scope.reflog && scope.paths@.len() == 0 && scope.revs@.len() > 0 ==> title_of(scope) == {
            let flags = title_flags(scope);
            if flags.len() == 0 {
                joined(texts(scope.revs@), " "@)
            } else {
                joined(flags, " "@) + " "@ + joined(texts(scope.revs@), " "@)
            }
        },
{
    let revs = texts(scope.revs@);
    let none = Seq::<Seq<char>>::empty();
    if !scope.reflog && !scope.combined && !scope.all && !scope.first_parent {
        assert(title_words(scope) =~= revs);
        let paths = joined(texts(scope.paths@), " "@);
        if scope.paths@.len() > 0 && scope.revs@.len() == 0 {
            assert(joined(revs, " "@) =~= Seq::<char>::empty());
            assert(title_of(scope) =~= (if scope.follow {
                "follow "@
            } else {
                "-- "@
            }) + paths);
        }
    }
    if scope.revs@.len() == 0 && scope.combined && scope.all && scope.first_parent {
        let words = seq!["combined"@, "--all"@, "--first-parent"@];
        assert(title_words(scope) =~= words);
        reveal_with_fuel(joined, 4);
        assert(words.drop_last() =~= seq!["combined"@, "--all"@]);
        assert(seq!["combined"@, "--all"@].drop_last() =~= seq!["combined"@]);
    }
    let flags = title_flags(scope);
    assert(title_words(scope) =~= flags + revs);
    if flags.len() > 0 && revs.len() > 0 {
        law_texts_are_joined_in_order(flags, revs, Seq::empty(), " "@);
    }
    if flags.len() == 0 {
        assert(title_words(scope) =~= revs);
    }
}

/// The flags that the title tells of.
pub open spec fn title_flags(scope: Scope) -> Seq<Seq<char>> {
    let a = if scope.combined {
        seq!["combined"@]
    } else {
        Seq::empty()
    };
    let b = if scope.all {
        a.push("--all"@)
    } else {
        a
    };
    if scope.first_parent {
        b.push("--first-parent"@)
    } else {
        b
    }
}

} // verus!
