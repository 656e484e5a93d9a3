//! What a stored diff is found by: the commit, the paths, the settings, and everything of the
//! repository that shapes a diff without changing a commit.

use vstd::prelude::*;
use vstd::utf8::encode_utf8;

use crate::bytes::{
    copy_bytes, law_le_round_trip, le, lemma_le_len, lemma_widths, opt_bytes, push_le,
};
use crate::diff::data::DiffSettings;
use crate::diff::options::utf8_of;
use crate::diff::row::DiffSource;
use crate::diff_store::codec::{
    law_runs_are_told_apart, lemma_cat, opt_run_bytes, put_bytes, put_opt_bytes, run_bytes,
};
use crate::oid::Oid;
use crate::text::lemma_encode_injective;

verus! {

/// An error of git.
#[verifier::external_type_specification]
#[verifier::external_body]
pub struct ExGitError(git2::Error);

/// The name that git gives to a file with these bytes; `None` where it refuses to name it.
pub uninterp spec fn blob_name(bytes: Seq<u8>) -> Option<Seq<u8>>;

/// `git2::Oid::hash_object` gives the name that git gives to a file with these bytes, and stores
/// nothing. The libgit2 that comes with the crate computes SHA-1 with collision detection: it refuses
/// bytes in which it detects a collision, and no others, so that the bytes alone decide. Which bytes
/// these are, and which name the others have, is left unsaid.
#[verifier::external_body]
fn hash_blob(bytes: &[u8]) -> (oid: Result<Oid, git2::Error>)
    ensures
        match oid {
            Ok(oid) => blob_name(bytes@) == Some(oid.bytes@),
            Err(_) => blob_name(bytes@) is None,
        },
{
    let oid = git2::Oid::hash_object(git2::ObjectType::Blob, bytes)?;
    let mut raw: [u8; 20] = [0; 20];
    raw.copy_from_slice(oid.as_bytes());
    Ok(Oid { bytes: raw })
}

/// A fingerprint of everything of the repository that shapes a diff without changing a commit.
pub struct StoreContext {
    pub digest: [u8; 20],
}

/// What of a repository shapes a diff: the path of its directory, the attributes, the settings, and
/// the version of this program.
pub open spec fn context_bytes(
    repo_path: Seq<u8>,
    attrs: Seq<u8>,
    config: Seq<u8>,
    version: Seq<char>,
) -> Seq<u8> {
    run_bytes(repo_path) + (run_bytes(attrs) + (run_bytes(config) + run_bytes(
        encode_utf8(version),
    )))
}

impl StoreContext {
    /// The fingerprint of a repository; `None` where git refuses to hash what shapes its diffs.
    pub fn of(repo_path: &[u8], attrs: &[u8], config: &[u8], version: &str) -> (ctx: Option<
        StoreContext,
    >)
        ensures
            match ctx {
                Some(ctx) => blob_name(context_bytes(repo_path@, attrs@, config@, version@)) == Some(
                    ctx.digest@,
                ),
                None => blob_name(context_bytes(repo_path@, attrs@, config@, version@)) is None,
            },
    {
        match context_digest(repo_path, attrs, config, version) {
            Some(digest) => Some(StoreContext { digest }),
            None => None,
        }
    }
}

/// What is hashed for the fingerprint of a repository.
pub fn context_preimage(repo_path: &[u8], attrs: &[u8], config: &[u8], version: &str) -> (b: Vec<u8>)
    ensures
        b@ == context_bytes(repo_path@, attrs@, config@, version@),
{
    let mut b: Vec<u8> = Vec::new();
    put_bytes(&mut b, repo_path);
    put_bytes(&mut b, attrs);
    put_bytes(&mut b, config);
    put_bytes(&mut b, version.as_bytes());
    assert(b@ =~= context_bytes(repo_path@, attrs@, config@, version@));
    b
}

/// The fingerprint of a repository; `None` where git refuses to hash what shapes its diffs.
pub fn context_digest(repo_path: &[u8], attrs: &[u8], config: &[u8], version: &str) -> (digest: Option<
    [u8; 20],
>)
    ensures
        match digest {
            Some(digest) => blob_name(context_bytes(repo_path@, attrs@, config@, version@)) == Some(
                digest@,
            ),
            None => blob_name(context_bytes(repo_path@, attrs@, config@, version@)) is None,
        },
{
    let b = context_preimage(repo_path, attrs, config, version);
    let hash = |bytes: &[u8]| -> (oid: Result<Oid, git2::Error>)
        ensures
            match oid {
                Ok(oid) => blob_name(bytes@) == Some(oid.bytes@),
                Err(_) => blob_name(bytes@) is None,
            },
        { hash_blob(bytes) };
    context_digest_from(&b, hash)
}

/// The fingerprint that `hash` gives for the bytes; `None` where it fails, so that no two
/// repositories share a fingerprint.
pub fn context_digest_from<F: Fn(&[u8]) -> Result<Oid, git2::Error>>(bytes: &[u8], hash: F) -> (digest:
    Option<[u8; 20]>)
    requires
        call_requires(hash, (bytes,)),
    ensures
        match digest {
            Some(digest) => exists|oid: Oid| #[trigger]
                call_ensures(hash, (bytes,), Ok::<Oid, git2::Error>(oid)) && digest == oid.bytes,
            None => exists|e: git2::Error| #[trigger]
                call_ensures(hash, (bytes,), Err::<Oid, git2::Error>(e)),
        },
{
    let hashed = hash(bytes);
    match hashed {
        Ok(oid) => {
            assert(call_ensures(hash, (bytes,), Ok::<Oid, git2::Error>(oid)));
            Some(oid.bytes)
        },
        Err(e) => {
            assert(call_ensures(hash, (bytes,), Err::<Oid, git2::Error>(e)));
            None
        },
    }
}

/// The contents of the attribute files, one behind the other; a missing one counts as empty.
pub fn attrs_id(worktree: &[u8], info: &[u8], global: &[u8]) -> (b: Vec<u8>)
    ensures
        b@ == run_bytes(worktree@) + (run_bytes(info@) + run_bytes(global@)),
{
    let mut b: Vec<u8> = Vec::new();
    put_bytes(&mut b, worktree);
    put_bytes(&mut b, info);
    put_bytes(&mut b, global);
    assert(b@ =~= run_bytes(worktree@) + (run_bytes(info@) + run_bytes(global@)));
    b
}

/// The path `name` below `dir`.
pub open spec fn joined_path(dir: Seq<u8>, name: Seq<u8>) -> Seq<u8> {
    if dir.len() == 0 || dir.last() == 0x2f {
        dir + name
    } else {
        dir.push(0x2f) + name
    }
}

/// The path `name` below `dir`.
pub fn join_path(dir: &[u8], name: &str) -> (p: Vec<u8>)
    ensures
        p@ == joined_path(dir@, encode_utf8(name@)),
{
    let mut p = copy_bytes(dir);
    if dir.len() > 0 && dir[dir.len() - 1] != 0x2f {
        p.push(0x2f);
    }
    p.extend_from_slice(name.as_bytes());
    assert(p@ =~= joined_path(dir@, encode_utf8(name@)));
    p
}

/// The one file with attributes outside of the repository: the one that is set, or else the one in
/// the directory for settings.
pub open spec fn attr_file(configured: Option<Seq<u8>>, xdg: Option<Seq<u8>>) -> Option<Seq<u8>> {
    match (configured, xdg) {
        (Some(path), _) => Some(path),
        (None, Some(dir)) => Some(
            joined_path(joined_path(dir, encode_utf8("git"@)), encode_utf8("attributes"@)),
        ),
        (None, None) => None,
    }
}

/// The one file with attributes outside of the repository.
pub fn global_attr_file(configured: Option<Vec<u8>>, xdg: Option<&[u8]>) -> (path: Option<Vec<u8>>)
    ensures
        match path {
            Some(path) => attr_file(opt_bytes(configured), slice_view(xdg)) == Some(path@),
            None => attr_file(opt_bytes(configured), slice_view(xdg)) is None,
        },
{
    match configured {
        Some(path) => Some(path),
        None => match xdg {
            Some(dir) => {
                let git = join_path(dir, "git");
                Some(join_path(&git, "attributes"))
            },
            None => None,
        },
    }
}

/// The view of optional borrowed bytes.
pub open spec fn slice_view(b: Option<&[u8]>) -> Option<Seq<u8>> {
    match b {
        Some(b) => Some(b@),
        None => None,
    }
}

/// The directory for settings: the one that is set, where it is an absolute path, or else the one
/// below the home directory.
pub open spec fn config_home(xdg: Option<Seq<u8>>, home: Option<Seq<u8>>) -> Option<Seq<u8>> {
    if xdg matches Some(dir) && dir.len() > 0 && dir[0] == 0x2f {
        xdg
    } else {
        match home {
            Some(home) => Some(joined_path(home, encode_utf8(".config"@))),
            None => None,
        }
    }
}

/// The directory for settings.
pub fn xdg_config_home(xdg: Option<Vec<u8>>, home: Option<Vec<u8>>) -> (dir: Option<Vec<u8>>)
    ensures
        match dir {
            Some(dir) => config_home(opt_bytes(xdg), opt_bytes(home)) == Some(dir@),
            None => config_home(opt_bytes(xdg), opt_bytes(home)) is None,
        },
{
    if let Some(dir) = xdg {
        if dir.len() > 0 && dir[0] == 0x2f {
            return Some(dir);
        }
    }
    match home {
        Some(home) => Some(join_path(&home, ".config")),
        None => None,
    }
}

/// The settings of git that shape a diff.
pub open spec fn diff_key_names() -> Seq<Seq<char>> {
    seq![
        "diff.renames"@,
        "diff.renamelimit"@,
        "diff.algorithm"@,
        "diff.context"@,
        "diff.indentheuristic"@,
        "diff.ignoresubmodules"@,
        "core.ignorecase"@,
        "core.autocrlf"@,
        "core.eol"@,
        "core.safecrlf"@,
    ]
}

/// The settings of git that shape a diff.
pub fn diff_keys() -> (keys: Vec<&'static str>)
    ensures
        keys@.len() == diff_key_names().len(),
        forall|i: int| #![trigger keys@[i]]
            0 <= i < keys@.len() ==> keys@[i]@ == diff_key_names()[i],
{
    let keys: Vec<&'static str> = vec![
        "diff.renames",
        "diff.renamelimit",
        "diff.algorithm",
        "diff.context",
        "diff.indentheuristic",
        "diff.ignoresubmodules",
        "core.ignorecase",
        "core.autocrlf",
        "core.eol",
        "core.safecrlf",
    ];
    keys
}

/// The values of settings.
pub open spec fn value_views(values: Seq<Option<String>>) -> Seq<Option<Seq<char>>> {
    values.map_values(
        |v: Option<String>|
            match v {
                Some(s) => Some(s@),
                None => None,
            },
    )
}

/// The bytes of the first `n` settings: the name of each, and its value where it has one.
pub open spec fn config_bytes(values: Seq<Option<Seq<char>>>, n: int) -> Seq<u8>
    decreases n,
{
    if n <= 0 {
        Seq::empty()
    } else {
        config_bytes(values, n - 1) + (run_bytes(encode_utf8(diff_key_names()[n - 1]))
            + opt_run_bytes(
            match values[n - 1] {
                Some(s) => Some(encode_utf8(s)),
                None => None,
            },
        ))
    }
}

/// The bytes that stand for settings which cannot be read.
pub open spec fn unreadable_config() -> Seq<u8> {
    run_bytes(encode_utf8("<unreadable>"@))
}

/// The bytes of the settings that shape a diff: `values` holds one value for each of `diff_keys`, or
/// is `None` where the settings cannot be read.
pub fn config_id(values: Option<&[Option<String>]>) -> (b: Vec<u8>)
    requires
        values matches Some(values) ==> values@.len() == diff_key_names().len(),
    ensures
        b@ == match values {
            Some(values) => config_bytes(
                value_views(values@),
                diff_key_names().len() as int,
            ),
            None => unreadable_config(),
        },
{
    let mut b: Vec<u8> = Vec::new();
    let values = match values {
        Some(values) => values,
        None => {
            put_bytes(&mut b, "<unreadable>".as_bytes());
            assert(b@ =~= unreadable_config());
            return b;
        },
    };
    let keys = diff_keys();
    let mut i: usize = 0;
    while i < keys.len()
        invariant
            i <= keys@.len() == diff_key_names().len() == values@.len(),
            forall|k: int| #![trigger keys@[k]]
                0 <= k < keys@.len() ==> keys@[k]@ == diff_key_names()[k],
            b@ == config_bytes(value_views(values@), i as int),
        decreases keys.len() - i,
    {
        let ghost here = b@;
        put_bytes(&mut b, keys[i].as_bytes());
        match &values[i] {
            Some(s) => put_opt_bytes(&mut b, Some(s.as_str().as_bytes())),
            None => put_opt_bytes(&mut b, None),
        }
        proof {
            let name = run_bytes(encode_utf8(diff_key_names()[i as int]));
            let value = opt_run_bytes(
                match value_views(values@)[i as int] {
                    Some(s) => Some(encode_utf8(s)),
                    None => None,
                },
            );
            assert(b@ =~= here + (name + value));
        }
        i += 1;
    }
    b
}

/// The bytes of the paths, each behind its length.
pub open spec fn runs(paths: Seq<Seq<u8>>) -> Seq<u8>
    decreases paths.len(),
{
    if paths.len() == 0 {
        Seq::empty()
    } else {
        runs(paths.drop_last()) + run_bytes(paths.last())
    }
}

/// One for true, and zero for false.
pub open spec fn bit(b: bool) -> u8 {
    if b {
        1
    } else {
        0
    }
}

/// What is hashed for the key of a commit's diff: the fingerprint of the repository, the commit, the
/// paths, and every setting.
pub open spec fn key_bytes(
    ctx: Seq<u8>,
    oid: Seq<u8>,
    paths: Seq<Seq<u8>>,
    s: DiffSettings,
) -> Seq<u8> {
    ctx + (oid + (le(paths.len(), 8) + (runs(paths) + settings_bytes(s))))
}

/// The bytes of the settings.
pub open spec fn settings_bytes(s: DiffSettings) -> Seq<u8> {
    le(s.context as nat, 4) + seq![
        bit(s.ignore_ws),
        bit(s.show_stats),
        bit(s.detect_renames),
        bit(s.detect_copies),
    ]
}

/// What is hashed for the key of a row; `None` for a row that is not stored.
pub fn key_preimage(ctx: &StoreContext, source: DiffSource, paths: &[String], settings: DiffSettings) -> (b:
    Option<Vec<u8>>)
    ensures
        match b {
            Some(b) => source matches DiffSource::Commit(oid) && b@ == key_bytes(
                ctx.digest@,
                oid.bytes@,
                utf8_of(paths@),
                settings,
            ),
            None => source !is Commit,
        },
{
    let oid = match source {
        DiffSource::Commit(oid) => oid,
        DiffSource::Uncommitted | DiffSource::Staged | DiffSource::Range(_) => return None,
    };
    let ghost all = utf8_of(paths@);
    let mut b: Vec<u8> = Vec::new();
    b.extend_from_slice(&ctx.digest);
    b.extend_from_slice(&oid.bytes);
    push_le(&mut b, paths.len() as u64, 8);
    let ghost front = b@;
    assert(front =~= ctx.digest@ + (oid.bytes@ + le(all.len(), 8)));
    let mut i: usize = 0;
    assert(all.take(0) =~= Seq::<Seq<u8>>::empty());
    assert(front + runs(all.take(0)) =~= front);
    while i < paths.len()
        invariant
            i <= paths@.len(),
            all == utf8_of(paths@),
            b@ == front + runs(all.take(i as int)),
        decreases paths.len() - i,
    {
        put_bytes(&mut b, paths[i].as_str().as_bytes());
        proof {
            assert(all.take(i + 1).drop_last() =~= all.take(i as int));
            assert(all.take(i + 1).last() == encode_utf8(paths@[i as int]@));
            assert(b@ =~= front + runs(all.take(i + 1)));
        }
        i += 1;
    }
    assert(all.take(i as int) =~= all);
    put_settings(&mut b, settings);
    proof {
        let tail = settings_bytes(settings);
        lemma_cat(front, runs(all), tail);
        lemma_cat(ctx.digest@, oid.bytes@ + le(all.len(), 8), runs(all) + tail);
        lemma_cat(oid.bytes@, le(all.len(), 8), runs(all) + tail);
    }
    Some(b)
}

/// Appends the settings.
fn put_settings(b: &mut Vec<u8>, s: DiffSettings)
    ensures
        final(b)@ == old(b)@ + settings_bytes(s),
{
    let ghost before = b@;
    push_le(b, s.context as u64, 4);
    push_bit(b, s.ignore_ws);
    push_bit(b, s.show_stats);
    push_bit(b, s.detect_renames);
    push_bit(b, s.detect_copies);
    assert(b@ =~= before + settings_bytes(s));
}

fn push_bit(b: &mut Vec<u8>, v: bool)
    ensures
        final(b)@ == old(b)@.push(bit(v)),
{
    if v {
        b.push(1);
    } else {
        b.push(0);
    }
}

/// The key of a row: the name that git gives to everything that shapes its diff. `None` for a row that
/// is not a commit, which is not stored, and where git refuses to give the name.
pub open spec fn row_key(
    ctx: Seq<u8>,
    source: DiffSource,
    paths: Seq<Seq<u8>>,
    settings: DiffSettings,
) -> Option<Seq<u8>> {
    match source {
        DiffSource::Commit(oid) => blob_name(key_bytes(ctx, oid.bytes@, paths, settings)),
        _ => None,
    }
}

/// The key of a row; `None` for a row that is not stored, and where git refuses to give one.
pub fn entry_key(ctx: &StoreContext, source: DiffSource, paths: &[String], settings: DiffSettings) -> (key:
    Option<Oid>)
    ensures
        match key {
            Some(key) => row_key(ctx.digest@, source, utf8_of(paths@), settings) == Some(key.bytes@),
            None => row_key(ctx.digest@, source, utf8_of(paths@), settings) is None,
        },
{
    match key_preimage(ctx, source, paths, settings) {
        Some(b) => match hash_blob(&b) {
            Ok(key) => Some(key),
            Err(_) => None,
        },
        None => None,
    }
}

/// What is hashed tells apart everything that shapes a stored diff: the repository, the commit, the
/// paths, and every setting.
pub proof fn law_keys_are_told_apart(
    ctx: Seq<u8>,
    oid: Seq<u8>,
    paths: Seq<Seq<u8>>,
    s: DiffSettings,
    ctx2: Seq<u8>,
    oid2: Seq<u8>,
    paths2: Seq<Seq<u8>>,
    s2: DiffSettings,
)
    requires
        ctx.len() == 20,
        ctx2.len() == 20,
        oid.len() == 20,
        oid2.len() == 20,
        paths.len() <= u64::MAX,
        paths2.len() <= u64::MAX,
        forall|i: int| 0 <= i < paths.len() ==> (#[trigger] paths[i]).len() <= u64::MAX,
        forall|i: int| 0 <= i < paths2.len() ==> (#[trigger] paths2[i]).len() <= u64::MAX,
        key_bytes(ctx, oid, paths, s) == key_bytes(ctx2, oid2, paths2, s2),
    ensures
        ctx == ctx2,
        oid == oid2,
        paths == paths2,
        s == s2,
{
    let k = key_bytes(ctx, oid, paths, s);
    let k2 = key_bytes(ctx2, oid2, paths2, s2);
    lemma_le_len(paths.len(), 8);
    lemma_le_len(paths2.len(), 8);
    lemma_le_len(s.context as nat, 4);
    lemma_le_len(s2.context as nat, 4);
    assert(k.subrange(0, 20) =~= ctx);
    assert(k2.subrange(0, 20) =~= ctx2);
    assert(k.subrange(20, 40) =~= oid);
    assert(k2.subrange(20, 40) =~= oid2);
    assert(k.subrange(40, 48) =~= le(paths.len(), 8));
    assert(k2.subrange(40, 48) =~= le(paths2.len(), 8));
    lemma_widths();
    law_le_round_trip(paths.len(), 8);
    law_le_round_trip(paths2.len(), 8);
    let tail = settings_bytes(s);
    let tail2 = settings_bytes(s2);
    assert(k.skip(48) =~= runs(paths) + tail);
    assert(k2.skip(48) =~= runs(paths2) + tail2);
    lemma_runs_apart(paths, paths2, tail, tail2);
    assert(tail.take(4) =~= le(s.context as nat, 4));
    assert(tail2.take(4) =~= le(s2.context as nat, 4));
    law_le_round_trip(s.context as nat, 4);
    law_le_round_trip(s2.context as nat, 4);
    assert(tail[4] == bit(s.ignore_ws) && tail2[4] == bit(s2.ignore_ws));
    assert(tail[5] == bit(s.show_stats) && tail2[5] == bit(s2.show_stats));
    assert(tail[6] == bit(s.detect_renames) && tail2[6] == bit(s2.detect_renames));
    assert(tail[7] == bit(s.detect_copies) && tail2[7] == bit(s2.detect_copies));
}

proof fn lemma_runs_front(paths: Seq<Seq<u8>>)
    requires
        paths.len() > 0,
    ensures
        runs(paths) == run_bytes(paths[0]) + runs(paths.drop_first()),
    decreases paths.len(),
{
    reveal_with_fuel(runs, 2);
    if paths.len() == 1 {
        assert(paths.drop_last() =~= Seq::<Seq<u8>>::empty());
        assert(paths.drop_first() =~= Seq::<Seq<u8>>::empty());
        assert(runs(paths) =~= run_bytes(paths[0]) + runs(paths.drop_first()));
    } else {
        let fore = paths.drop_last();
        lemma_runs_front(fore);
        assert(fore.drop_first() =~= paths.drop_first().drop_last());
        assert(runs(paths) =~= run_bytes(paths[0]) + runs(paths.drop_first()));
    }
}

/// As many paths with the same bytes behind one another are the same paths, and so is the rest.
proof fn lemma_runs_apart(a: Seq<Seq<u8>>, b: Seq<Seq<u8>>, x: Seq<u8>, y: Seq<u8>)
    requires
        a.len() == b.len(),
        forall|i: int| 0 <= i < a.len() ==> (#[trigger] a[i]).len() <= u64::MAX,
        forall|i: int| 0 <= i < b.len() ==> (#[trigger] b[i]).len() <= u64::MAX,
        runs(a) + x == runs(b) + y,
    ensures
        a == b,
        x == y,
    decreases a.len(),
{
    if a.len() == 0 {
        assert(runs(a) + x =~= x);
        assert(runs(b) + y =~= y);
        assert(a =~= b);
    } else {
        lemma_runs_front(a);
        lemma_runs_front(b);
        let ra = runs(a.drop_first()) + x;
        let rb = runs(b.drop_first()) + y;
        assert(runs(a) + x =~= run_bytes(a[0]) + ra);
        assert(runs(b) + y =~= run_bytes(b[0]) + rb);
        law_runs_are_told_apart(a[0], b[0], ra, rb);
        assert forall|i: int| 0 <= i < a.len() - 1 implies (#[trigger] a.drop_first()[i]).len()
            <= u64::MAX by {
            assert(a.drop_first()[i] == a[i + 1]);
        }
        assert forall|i: int| 0 <= i < b.len() - 1 implies (#[trigger] b.drop_first()[i]).len()
            <= u64::MAX by {
            assert(b.drop_first()[i] == b[i + 1]);
        }
        lemma_runs_apart(a.drop_first(), b.drop_first(), x, y);
        assert(a =~= seq![a[0]] + a.drop_first());
        assert(b =~= seq![b[0]] + b.drop_first());
    }
}

/// The fingerprint of a repository tells apart its directory, its attributes, its settings and the
/// version of this program.
pub proof fn law_contexts_are_told_apart(
    path: Seq<u8>,
    attrs: Seq<u8>,
    config: Seq<u8>,
    version: Seq<char>,
    path2: Seq<u8>,
    attrs2: Seq<u8>,
    config2: Seq<u8>,
    version2: Seq<char>,
)
    requires
        path.len() <= u64::MAX,
        attrs.len() <= u64::MAX,
        config.len() <= u64::MAX,
        encode_utf8(version).len() <= u64::MAX,
        path2.len() <= u64::MAX,
        attrs2.len() <= u64::MAX,
        config2.len() <= u64::MAX,
        encode_utf8(version2).len() <= u64::MAX,
        context_bytes(path, attrs, config, version) == context_bytes(
            path2,
            attrs2,
            config2,
            version2,
        ),
    ensures
        path == path2,
        attrs == attrs2,
        config == config2,
        version == version2,
{
    let v = run_bytes(encode_utf8(version));
    let v2 = run_bytes(encode_utf8(version2));
    let c = run_bytes(config) + v;
    let c2 = run_bytes(config2) + v2;
    let a = run_bytes(attrs) + c;
    let a2 = run_bytes(attrs2) + c2;
    law_runs_are_told_apart(path, path2, a, a2);
    law_runs_are_told_apart(attrs, attrs2, c, c2);
    law_runs_are_told_apart(config, config2, v, v2);
    let none = Seq::<u8>::empty();
    assert(v + none =~= v);
    assert(v2 + none =~= v2);
    law_runs_are_told_apart(encode_utf8(version), encode_utf8(version2), none, none);
    lemma_encode_injective(version, version2);
}

/// Only a commit has a key: the name that git gives to the bytes of what shapes its diff.
pub proof fn law_only_commits_have_a_key(
    ctx: Seq<u8>,
    source: DiffSource,
    paths: Seq<Seq<u8>>,
    s: DiffSettings,
)
    ensures
        source !is Commit ==> row_key(ctx, source, paths, s) is None,
        source matches DiffSource::Commit(oid) ==> row_key(ctx, source, paths, s) == blob_name(
            key_bytes(ctx, oid.bytes@, paths, s),
        ),
{
}

/// A path is joined to a directory with one slash between them.
pub proof fn law_paths_are_joined_with_one_slash(dir: Seq<u8>, name: Seq<u8>)
    ensures
        joined_path(Seq::empty(), name) == name,
        joined_path(dir.push(0x2f), name) == dir.push(0x2f) + name,
        dir.len() > 0 && dir.last() != 0x2f ==> joined_path(dir, name) == joined_path(
            dir.push(0x2f),
            name,
        ),
{
    assert(Seq::<u8>::empty() + name =~= name);
}

/// The attributes outside of the repository are in the file that is set, and otherwise in that of git's
/// directory for settings. The directory for settings is the one that is set where it is an absolute
/// path, and otherwise the one below the home directory.
pub proof fn law_settings_win_over_places(set: Seq<u8>, dir: Seq<u8>, home: Option<Seq<u8>>)
    ensures
        attr_file(Some(set), Some(dir)) == Some(set),
        attr_file(Some(set), None) == Some(set),
        attr_file(None, Some(dir)) == Some(
            joined_path(joined_path(dir, encode_utf8("git"@)), encode_utf8("attributes"@)),
        ),
        attr_file(None, None) is None,
        config_home(Some(seq![0x2fu8] + set), home) == Some(seq![0x2fu8] + set),
        set.len() == 0 || set[0] != 0x2f ==> config_home(Some(set), home) == config_home(None, home),
        config_home(None, Some(dir)) == Some(joined_path(dir, encode_utf8(".config"@))),
        config_home(None, None) is None,
{
    assert((seq![0x2fu8] + set)[0] == 0x2f);
}

/// The settings of git that shape a diff are told apart by their values, each of them.
pub proof fn law_settings_are_told_apart(
    a: Seq<Option<Seq<char>>>,
    b: Seq<Option<Seq<char>>>,
    n: int,
)
    requires
        0 <= n <= 10,
        a.len() == 10 && b.len() == 10,
        config_bytes(a, n) == config_bytes(b, n),
        forall|i: int| 0 <= i < 10 ==> (#[trigger] a[i] matches Some(s) ==> encode_utf8(s).len()
            <= u64::MAX),
        forall|i: int| 0 <= i < 10 ==> (#[trigger] b[i] matches Some(s) ==> encode_utf8(s).len()
            <= u64::MAX),
    ensures
        forall|i: int| 0 <= i < n ==> #[trigger] a[i] == b[i],
    decreases n,
{
    let none = Seq::<u8>::empty();
    assert(config_bytes(a, n) + none =~= config_bytes(a, n));
    assert(config_bytes(b, n) + none =~= config_bytes(b, n));
    lemma_settings_apart(a, b, n, none, none);
}

/// The bytes of the settings from `i` up to `n`.
spec fn settings_from(values: Seq<Option<Seq<char>>>, i: int, n: int) -> Seq<u8>
    decreases n - i,
{
    if i >= n {
        Seq::empty()
    } else {
        run_bytes(encode_utf8(diff_key_names()[i])) + (opt_run_bytes(
            match values[i] {
                Some(s) => Some(encode_utf8(s)),
                None => None,
            },
        ) + settings_from(values, i + 1, n))
    }
}

proof fn lemma_settings_from(values: Seq<Option<Seq<char>>>, i: int, n: int)
    requires
        0 <= i <= n,
    ensures
        config_bytes(values, n) == config_bytes(values, i) + settings_from(values, i, n),
    decreases n - i,
{
    if i < n {
        lemma_settings_from(values, i + 1, n);
        assert(config_bytes(values, n) =~= config_bytes(values, i) + settings_from(values, i, n));
    } else {
        assert(config_bytes(values, n) =~= config_bytes(values, i) + settings_from(values, i, n));
    }
}

proof fn lemma_settings_apart(
    a: Seq<Option<Seq<char>>>,
    b: Seq<Option<Seq<char>>>,
    n: int,
    x: Seq<u8>,
    y: Seq<u8>,
)
    requires
        0 <= n <= 10,
        a.len() == 10 && b.len() == 10,
        config_bytes(a, n) + x == config_bytes(b, n) + y,
        forall|i: int| 0 <= i < 10 ==> (#[trigger] a[i] matches Some(s) ==> encode_utf8(s).len()
            <= u64::MAX),
        forall|i: int| 0 <= i < 10 ==> (#[trigger] b[i] matches Some(s) ==> encode_utf8(s).len()
            <= u64::MAX),
    ensures
        forall|i: int| 0 <= i < n ==> #[trigger] a[i] == b[i],
{
    lemma_settings_from(a, 0, n);
    lemma_settings_from(b, 0, n);
    assert(config_bytes(a, 0) + settings_from(a, 0, n) =~= settings_from(a, 0, n));
    assert(config_bytes(b, 0) + settings_from(b, 0, n) =~= settings_from(b, 0, n));
    lemma_from_apart(a, b, 0, n, x, y);
}

proof fn lemma_from_apart(
    a: Seq<Option<Seq<char>>>,
    b: Seq<Option<Seq<char>>>,
    i: int,
    n: int,
    x: Seq<u8>,
    y: Seq<u8>,
)
    requires
        0 <= i <= n <= 10,
        a.len() == 10 && b.len() == 10,
        settings_from(a, i, n) + x == settings_from(b, i, n) + y,
        forall|k: int| 0 <= k < 10 ==> (#[trigger] a[k] matches Some(s) ==> encode_utf8(s).len()
            <= u64::MAX),
        forall|k: int| 0 <= k < 10 ==> (#[trigger] b[k] matches Some(s) ==> encode_utf8(s).len()
            <= u64::MAX),
    ensures
        forall|k: int| i <= k < n ==> #[trigger] a[k] == b[k],
    decreases n - i,
{
    if i < n {
        let name = run_bytes(encode_utf8(diff_key_names()[i]));
        let oa = match a[i] {
            Some(s) => Some(encode_utf8(s)),
            None => None,
        };
        let ob = match b[i] {
            Some(s) => Some(encode_utf8(s)),
            None => None,
        };
        let ra = settings_from(a, i + 1, n) + x;
        let rb = settings_from(b, i + 1, n) + y;
        let va = opt_run_bytes(oa) + ra;
        let vb = opt_run_bytes(ob) + rb;
        assert(settings_from(a, i, n) + x =~= name + va);
        assert(settings_from(b, i, n) + y =~= name + vb);
        let m = name.len() as int;
        assert((name + va).skip(m) =~= va);
        assert((name + vb).skip(m) =~= vb);
        assert(va[0] == opt_run_bytes(oa)[0] && vb[0] == opt_run_bytes(ob)[0]);
        if oa is Some {
            let p = run_bytes(oa->0) + ra;
            let q = run_bytes(ob->0) + rb;
            assert(va.skip(1) =~= p);
            assert(vb.skip(1) =~= q);
            law_runs_are_told_apart(oa->0, ob->0, ra, rb);
            lemma_encode_injective(a[i]->0, b[i]->0);
        } else {
            assert(va.skip(1) =~= ra);
            assert(vb.skip(1) =~= rb);
        }
        lemma_from_apart(a, b, i + 1, n, x, y);
    }
}

/// The settings of git that shape a diff are all among those that count: how files are compared, what
/// becomes of renames and submodules, and how line ends and names are taken.
pub proof fn law_every_setting_counts()
    ensures
        diff_key_names().len() == 10,
        diff_key_names().contains("diff.renames"@),
        diff_key_names().contains("diff.renamelimit"@),
        diff_key_names().contains("diff.algorithm"@),
        diff_key_names().contains("diff.context"@),
        diff_key_names().contains("diff.indentheuristic"@),
        diff_key_names().contains("diff.ignoresubmodules"@),
        diff_key_names().contains("core.ignorecase"@),
        diff_key_names().contains("core.autocrlf"@),
        diff_key_names().contains("core.eol"@),
        diff_key_names().contains("core.safecrlf"@),
{
    let names = diff_key_names();
    assert(names[0] == "diff.renames"@ && names[1] == "diff.renamelimit"@);
    assert(names[2] == "diff.algorithm"@ && names[3] == "diff.context"@);
    assert(names[4] == "diff.indentheuristic"@ && names[5] == "diff.ignoresubmodules"@);
    assert(names[6] == "core.ignorecase"@ && names[7] == "core.autocrlf"@);
    assert(names[8] == "core.eol"@ && names[9] == "core.safecrlf"@);
}

} // verus!
