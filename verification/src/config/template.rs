//! The configuration file that is written where there is none.

use vstd::prelude::*;
use vstd::string::*;

use crate::config::{default_size, role_default, Role};
use crate::text::{decimal, decimal_of};

verus! {

/// What stands before the sizes of texts.
pub const HEAD: &'static str = "\
# gitkay configuration — ~/.config/gitkay/config.toml
# This file is optional. Every line below is commented out and shows its
# default value. Uncomment and edit to override. Changes apply live on save.
# Unknown keys are reported as an error rather than silently ignored.

[fonts]
# The two font sources every text role draws from. Named families resolve
# from installed system fonts (the resolved path is cached in
# ~/.cache/gitkay/fonts.toml); leave unset to use gitkay's bundled fonts.
# monospace = \"JetBrains Mono\"
# proportional = \"Inter\"
# Explicit file paths skip the named-family lookup and cache entirely:
# monospace_path = \"/usr/share/fonts/TTF/JetBrainsMono-Regular.ttf\"
# proportional_path = \"/usr/share/fonts/TTF/Inter-Regular.ttf\"

[text]
# Each text role's size (px) and font (\"monospace\" or \"proportional\").
# Omit either key in a role to keep that role's default.
";

/// What stands after the sizes of texts.
pub const TAIL: &'static str = "
[diff]
# Show the diffstat block (per-file change list + summary) between the
# commit message and the patch. false = hide it; the file-list sidebar
# still lists every changed file.
# show_stats = true
# Detect renamed files (git -M): a rename shows as one entry \"old → new\"
# instead of a separate delete + add. Cheap; on by default.
# detect_renames = true
# Detect copied files (git -C): a new file copied from another shows as
# \"source → copy\". Only files modified in the same commit are copy sources.
# More expensive than renames; off by default.
# detect_copies = false
# File-list sidebar layout. \"grouped\" (default) groups files under
# directory headers with basenames indented; \"full\" shows each file's
# full repo-relative path; \"name\" shows just basenames.
# file_list = \"grouped\"
# Syntax-highlight diffs. false = the original flat per-role coloring.
# syntax = true
# Diff syntax-highlighting theme. Any of:
# catppuccin-mocha (default), catppuccin-macchiato, catppuccin-frappe,
# catppuccin-latte, dracula, nord, gruvbox-dark, gruvbox-light, github,
# solarized-dark, solarized-light, one-half-dark, two-dark, zenburn,
# monokai-extended, sublime-snazzy, dark-neon, and more (see docs).
# theme = \"catppuccin-mocha\"

[diff.bands]
# Add/remove row band colours (syntax-on diffs). source \"fixed\" (default)
# uses the colours below (dark, or light pastels on light themes); \"theme\"
# derives them from the active theme's own diff colours.
# source = \"fixed\"
# added = \"#0a300a\"
# deleted = \"#400c0e\"
";

/// The line for a kind of text: its key, its size where none is set, and a remark.
pub open spec fn role_line(key: Seq<char>, role: Role, remark: Seq<char>) -> Seq<char> {
    "# "@ + key + " = { size = "@ + decimal_of(default_size(role)) + ", font = \"monospace\" }"@
        + remark + "\n"@
}

fn put_role_line(out: &mut String, key: &str, role: Role, remark: &str)
    ensures
        final(out)@ == old(out)@ + role_line(key@, role, remark@),
{
    let size = decimal(role_default(role).0 as u64);
    out.append("# ");
    out.append(key);
    out.append(" = { size = ");
    out.append(&size);
    out.append(", font = \"monospace\" }");
    out.append(remark);
    out.append("\n");
    assert(out@ =~= old(out)@ + role_line(key@, role, remark@));
}

/// The configuration file in which every value stands in a comment, as it is where none is set.
pub open spec fn template_text() -> Seq<char> {
    HEAD@ + role_line("diff          "@, Role::Diff, ""@) + role_line(
        "commit_summary"@,
        Role::CommitSummary,
        ""@,
    ) + role_line("commit_meta   "@, Role::CommitMeta, "   # date / SHA / author"@) + role_line(
        "refs          "@,
        Role::Refs,
        ""@,
    ) + role_line(
        "file_list     "@,
        Role::FileList,
        "   # +/- stats render 2px smaller"@,
    ) + role_line("ui            "@, Role::Ui, "   # search bar + diff toolbar"@) + TAIL@
}

/// The configuration file in which every value stands in a comment, as it is where none is set.
pub fn default_template() -> (t: String)
    ensures
        t@ == template_text(),
{
    let mut t = String::from_str(HEAD);
    put_role_line(&mut t, "diff          ", Role::Diff, "");
    put_role_line(&mut t, "commit_summary", Role::CommitSummary, "");
    put_role_line(&mut t, "commit_meta   ", Role::CommitMeta, "   # date / SHA / author");
    put_role_line(&mut t, "refs          ", Role::Refs, "");
    put_role_line(&mut t, "file_list     ", Role::FileList, "   # +/- stats render 2px smaller");
    put_role_line(&mut t, "ui            ", Role::Ui, "   # search bar + diff toolbar");
    t.append(TAIL);
    t
}

/// The key of a kind of text, filled up with spaces to the longest one.
pub open spec fn padded_key(role: Role) -> Seq<char> {
    match role {
        Role::Diff => "diff          "@,
        Role::CommitSummary => "commit_summary"@,
        Role::CommitMeta => "commit_meta   "@,
        Role::Refs => "refs          "@,
        Role::FileList => "file_list     "@,
        Role::Ui => "ui            "@,
    }
}

/// Whether a text holds another.
pub open spec fn holds(text: Seq<char>, part: Seq<char>) -> bool {
    exists|before: Seq<char>, after: Seq<char>| text == #[trigger] (before + part + after)
}

/// The configuration file that is written begins and ends with its remarks, and shows for every kind of
/// text, in a comment, the size and the font that it has where none is set.
pub proof fn law_template_shows_every_default(role: Role)
    ensures
        HEAD@.is_prefix_of(template_text()),
        TAIL@.is_suffix_of(template_text()),
        holds(
            template_text(),
            "# "@ + padded_key(role) + " = { size = "@ + decimal_of(default_size(role))
                + ", font = \"monospace\" }"@,
        ),
{
    let t1 = HEAD@ + role_line("diff          "@, Role::Diff, ""@);
    let t2 = t1 + role_line("commit_summary"@, Role::CommitSummary, ""@);
    let l3 = role_line("commit_meta   "@, Role::CommitMeta, "   # date / SHA / author"@);
    let t3 = t2 + l3;
    let t4 = t3 + role_line("refs          "@, Role::Refs, ""@);
    let l5 = role_line("file_list     "@, Role::FileList, "   # +/- stats render 2px smaller"@);
    let t5 = t4 + l5;
    let l6 = role_line("ui            "@, Role::Ui, "   # search bar + diff toolbar"@);
    let t6 = t5 + l6;
    let line = "# "@ + padded_key(role) + " = { size = "@ + decimal_of(default_size(role))
        + ", font = \"monospace\" }"@;
    assert(template_text() == t6 + TAIL@);
    match role {
        Role::Diff => lemma_line_held(HEAD@, line, ""@),
        Role::CommitSummary => lemma_line_held(t1, line, ""@),
        Role::CommitMeta => lemma_line_held(t2, line, "   # date / SHA / author"@),
        Role::Refs => lemma_line_held(t3, line, ""@),
        Role::FileList => lemma_line_held(t4, line, "   # +/- stats render 2px smaller"@),
        Role::Ui => lemma_line_held(t5, line, "   # search bar + diff toolbar"@),
    }
    lemma_grown(HEAD@, t1, line);
    lemma_grown(t1, t2, line);
    lemma_grown(t2, t3, line);
    lemma_grown(t3, t4, line);
    lemma_grown(t4, t5, line);
    lemma_grown(t5, t6, line);
    lemma_grown(t6, template_text(), line);
    assert(TAIL@.is_suffix_of(t6 + TAIL@)) by {
        assert((t6 + TAIL@).skip(t6.len() as int) =~= TAIL@);
    }
}

proof fn lemma_line_held(before: Seq<char>, line: Seq<char>, remark: Seq<char>)
    ensures
        holds(before + (line + remark + "\n"@), line),
{
    assert(before + (line + remark + "\n"@) =~= before + line + (remark + "\n"@));
}

proof fn lemma_grown(a: Seq<char>, b: Seq<char>, line: Seq<char>)
    requires
        a.is_prefix_of(b),
    ensures
        holds(a, line) ==> holds(b, line),
        HEAD@.is_prefix_of(a) ==> HEAD@.is_prefix_of(b),
{
    if holds(a, line) {
        let (before, after) = choose|before: Seq<char>, after: Seq<char>|
            a == #[trigger] (before + line + after);
        let rest = b.skip(a.len() as int);
        assert(b =~= a + rest);
        assert(b =~= before + line + (after + rest));
    }
}

} // verus!
