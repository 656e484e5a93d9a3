//! What git is asked for when it makes a diff.

use vstd::prelude::*;

use crate::bytes::copy_bytes;
use crate::diff::data::DiffSettings;

verus! {

/// What git is asked for when it makes a diff.
pub struct DiffOptions {
    /// The lines of context; `None` leaves git's own number.
    pub context_lines: Option<u32>,
    pub ignore_whitespace: bool,
    /// Whether the two sides change places.
    pub reverse: bool,
    /// Whether the paths are taken as they are, and not as patterns.
    pub literal_paths: bool,
    /// The paths to which the diff is restricted; none restrict nothing.
    pub pathspecs: Vec<Vec<u8>>,
}

/// The views of the paths.
pub open spec fn specs_of(paths: Seq<Vec<u8>>) -> Seq<Seq<u8>> {
    paths.map_values(|p: Vec<u8>| p@)
}

/// The UTF-8 bytes of the texts.
pub open spec fn utf8_of(paths: Seq<String>) -> Seq<Seq<u8>> {
    paths.map_values(|p: String| vstd::utf8::encode_utf8(p@))
}

impl DiffOptions {
    /// Git's own options.
    pub fn new() -> (opts: DiffOptions)
        ensures
            opts.context_lines is None,
            !opts.ignore_whitespace,
            !opts.reverse,
            !opts.literal_paths,
            opts.pathspecs@.len() == 0,
    {
        DiffOptions {
            context_lines: None,
            ignore_whitespace: false,
            reverse: false,
            literal_paths: false,
            pathspecs: Vec::new(),
        }
    }
}

/// Restricts the diff to the paths.
pub fn apply_pathspec(opts: &mut DiffOptions, paths: &[String])
    ensures
        specs_of(final(opts).pathspecs@) == specs_of(old(opts).pathspecs@) + utf8_of(paths@),
        *final(opts) == (DiffOptions { pathspecs: final(opts).pathspecs, ..*old(opts) }),
{
    let ghost before = specs_of(opts.pathspecs@);
    let ghost all = utf8_of(paths@);
    let mut i: usize = 0;
    assert(before + all.take(0) =~= before);
    while i < paths.len()
        invariant
            i <= paths@.len(),
            all == utf8_of(paths@),
            specs_of(opts.pathspecs@) == before + all.take(i as int),
            *opts == (DiffOptions { pathspecs: opts.pathspecs, ..*old(opts) }),
        decreases paths.len() - i,
    {
        let ghost here = specs_of(opts.pathspecs@);
        opts.pathspecs.push(copy_bytes(paths[i].as_str().as_bytes()));
        assert(specs_of(opts.pathspecs@) =~= here.push(all[i as int]));
        assert(before + all.take(i + 1) =~= (before + all.take(i as int)).push(all[i as int]));
        i += 1;
    }
    assert(all.take(i as int) =~= all);
}

/// Git's own options, restricted to the paths.
pub fn pathspec_opts(paths: &[String]) -> (opts: DiffOptions)
    ensures
        opts.context_lines is None,
        !opts.ignore_whitespace,
        !opts.reverse,
        !opts.literal_paths,
        specs_of(opts.pathspecs@) == utf8_of(paths@),
{
    let mut opts = DiffOptions::new();
    apply_pathspec(&mut opts, paths);
    assert(specs_of(opts.pathspecs@) =~= utf8_of(paths@));
    opts
}

/// The options for the settings.
pub fn diff_opts(settings: DiffSettings) -> (opts: DiffOptions)
    ensures
        opts.context_lines == Some(settings.context),
        opts.ignore_whitespace == settings.ignore_ws,
        !opts.reverse,
        !opts.literal_paths,
        opts.pathspecs@.len() == 0,
{
    let mut opts = DiffOptions::new();
    opts.context_lines = Some(settings.context);
    opts.ignore_whitespace = settings.ignore_ws;
    opts
}

/// The options for the settings, restricted to the paths.
pub fn scoped_diff_opts(settings: DiffSettings, paths: &[String]) -> (opts: DiffOptions)
    ensures
        opts.context_lines == Some(settings.context),
        opts.ignore_whitespace == settings.ignore_ws,
        !opts.reverse,
        !opts.literal_paths,
        specs_of(opts.pathspecs@) == utf8_of(paths@),
{
    let mut opts = diff_opts(settings);
    apply_pathspec(&mut opts, paths);
    assert(specs_of(opts.pathspecs@) =~= utf8_of(paths@));
    opts
}

/// What is looked for among the changed files.
#[derive(Clone, Copy, PartialEq, Eq, Structural, Debug)]
pub struct FindOptions {
    pub renames: bool,
    pub copies: bool,
}

/// What is looked for among the changed files; `None` for nothing.
pub fn detect_similar(settings: DiffSettings) -> (find: Option<FindOptions>)
    ensures
        find == if settings.detect_renames || settings.detect_copies {
            Some(
                FindOptions { renames: settings.detect_renames, copies: settings.detect_copies },
            )
        } else {
            None
        },
{
    if !settings.detect_renames && !settings.detect_copies {
        return None;
    }
    Some(FindOptions { renames: settings.detect_renames, copies: settings.detect_copies })
}

} // verus!
