//! Finding the files of the configured fonts.

use std::collections::BTreeMap;
use vstd::prelude::*;
use vstd::string::*;
use vstd::utf8::encode_utf8;

use crate::bytes::{copy_bytes, opt_bytes};
use crate::config::{Family, FontsSection};
use crate::text::{lossy_text, opt_text, same_text, text_lossy};

verus! {

/// The files that were found for fonts, by the name of the font. Each name stands once.
pub struct FontCache {
    entries: Vec<(String, String)>,
}

impl View for FontCache {
    type V = Map<Seq<char>, Seq<char>>;

    closed spec fn view(&self) -> Map<Seq<char>, Seq<char>> {
        cache_map(self.entries@)
    }
}

/// The map that the entries make up.
pub closed spec fn cache_map(entries: Seq<(String, String)>) -> Map<Seq<char>, Seq<char>>
    decreases entries.len(),
{
    if entries.len() == 0 {
        Map::empty()
    } else {
        cache_map(entries.drop_last()).insert(entries.last().0@, entries.last().1@)
    }
}

/// Whether no name stands twice.
pub closed spec fn names_differ(entries: Seq<(String, String)>) -> bool {
    forall|i: int, j: int| #![trigger entries[i], entries[j]]
        0 <= i < j < entries.len() ==> entries[i].0@ != entries[j].0@
}

proof fn lemma_cache_has(entries: Seq<(String, String)>, i: int)
    requires
        names_differ(entries),
        0 <= i < entries.len(),
    ensures
        cache_map(entries).contains_key(entries[i].0@),
        cache_map(entries)[entries[i].0@] == entries[i].1@,
    decreases entries.len(),
{
    let fore = entries.drop_last();
    if i < fore.len() {
        assert forall|a: int, b: int| #![trigger fore[a], fore[b]]
            0 <= a < b < fore.len() implies fore[a].0@ != fore[b].0@ by {
            assert(entries[a].0@ != entries[b].0@);
        }
        lemma_cache_has(fore, i);
        assert(entries[i].0@ != entries[entries.len() - 1].0@);
    }
}

proof fn lemma_cache_lacks(entries: Seq<(String, String)>, name: Seq<char>)
    requires
        forall|i: int| 0 <= i < entries.len() ==> (#[trigger] entries[i]).0@ != name,
    ensures
        !cache_map(entries).contains_key(name),
    decreases entries.len(),
{
    if entries.len() > 0 {
        let fore = entries.drop_last();
        assert forall|i: int| 0 <= i < fore.len() implies (#[trigger] fore[i]).0@ != name by {
            assert(fore[i] == entries[i]);
        }
        lemma_cache_lacks(fore, name);
        assert(entries[entries.len() - 1].0@ != name);
    }
}

/// Taking an entry out of the list takes its name out of the map.
proof fn lemma_cache_remove(entries: Seq<(String, String)>, i: int)
    requires
        names_differ(entries),
        0 <= i < entries.len(),
    ensures
        names_differ(entries.remove(i)),
        cache_map(entries.remove(i)) == cache_map(entries).remove(entries[i].0@),
    decreases entries.len(),
{
    let name = entries[i].0@;
    let rest = entries.remove(i);
    assert forall|a: int, b: int| #![trigger rest[a], rest[b]]
        0 <= a < b < rest.len() implies rest[a].0@ != rest[b].0@ by {
        let x = if a < i {
            a
        } else {
            a + 1
        };
        let y = if b < i {
            b
        } else {
            b + 1
        };
        assert(entries[x].0@ != entries[y].0@);
    }
    let fore = entries.drop_last();
    if i == entries.len() - 1 {
        assert(rest =~= fore);
        assert forall|k: int| 0 <= k < fore.len() implies (#[trigger] fore[k]).0@ != name by {
            assert(entries[k].0@ != entries[i].0@);
        }
        lemma_cache_lacks(fore, name);
        assert(cache_map(rest) =~= cache_map(entries).remove(name));
    } else {
        assert forall|a: int, b: int| #![trigger fore[a], fore[b]]
            0 <= a < b < fore.len() implies fore[a].0@ != fore[b].0@ by {
            assert(entries[a].0@ != entries[b].0@);
        }
        lemma_cache_remove(fore, i);
        assert(rest.drop_last() =~= fore.remove(i));
        assert(rest.last() == entries.last());
        assert(entries[i].0@ != entries[entries.len() - 1].0@);
        assert(cache_map(rest) =~= cache_map(entries).remove(name));
    }
}

impl FontCache {
    /// Whether no name stands twice.
    pub closed spec fn wf(self) -> bool {
        names_differ(self.entries@)
    }

    /// The empty cache.
    pub fn new() -> (c: FontCache)
        ensures
            c.wf(),
            c@ == Map::<Seq<char>, Seq<char>>::empty(),
    {
        FontCache { entries: Vec::new() }
    }

    fn place(&self, name: &str) -> (i: Option<usize>)
        requires
            self.wf(),
        ensures
            match i {
                Some(i) => i < self.entries@.len() && self.entries@[i as int].0@ == name@
                    && self@.contains_key(name@) && self@[name@] == self.entries@[i as int].1@,
                None => !self@.contains_key(name@) && forall|k: int|
                    0 <= k < self.entries@.len() ==> (#[trigger] self.entries@[k]).0@ != name@,
            },
    {
        let mut i: usize = 0;
        while i < self.entries.len()
            invariant
                i <= self.entries@.len(),
                self.wf(),
                forall|k: int| 0 <= k < i ==> (#[trigger] self.entries@[k]).0@ != name@,
            decreases self.entries.len() - i,
        {
            if same_text(&self.entries[i].0, name) {
                proof {
                    lemma_cache_has(self.entries@, i as int);
                }
                return Some(i);
            }
            i += 1;
        }
        proof {
            lemma_cache_lacks(self.entries@, name@);
        }
        None
    }

    /// The file for the font.
    pub fn get(&self, name: &str) -> (file: Option<&String>)
        requires
            self.wf(),
        ensures
            match file {
                Some(file) => self@.contains_key(name@) && self@[name@] == file@,
                None => !self@.contains_key(name@),
            },
    {
        match self.place(name) {
            Some(i) => Some(&self.entries[i].1),
            None => None,
        }
    }

    /// Takes the font out.
    pub fn remove(&mut self, name: &str)
        requires
            old(self).wf(),
        ensures
            final(self).wf(),
            final(self)@ == old(self)@.remove(name@),
    {
        match self.place(name) {
            Some(i) => {
                proof {
                    lemma_cache_remove(self.entries@, i as int);
                }
                let _ = self.entries.remove(i);
            },
            None => {
                assert(self@.remove(name@) =~= self@);
            },
        }
    }

    /// Puts the file for the font in.
    pub fn insert(&mut self, name: &str, file: &str)
        requires
            old(self).wf(),
        ensures
            final(self).wf(),
            final(self)@ == old(self)@.insert(name@, file@),
    {
        let ghost before = self@;
        self.remove(name);
        let ghost entries = self.entries@;
        proof {
            assert forall|k: int| 0 <= k < entries.len() implies (#[trigger] entries[k]).0@
                != name@ by {
                if entries[k].0@ == name@ {
                    lemma_cache_has(entries, k);
                }
            }
        }
        self.entries.push((name.to_owned(), file.to_owned()));
        proof {
            let now = self.entries@;
            assert forall|a: int, b: int| #![trigger now[a], now[b]]
                0 <= a < b < now.len() implies now[a].0@ != now[b].0@ by {
                if b < entries.len() {
                    assert(entries[a].0@ != entries[b].0@);
                } else {
                    assert(entries[a].0@ != name@);
                }
            }
            assert(now.drop_last() =~= entries);
            assert(self@ =~= before.insert(name@, file@));
        }
    }

    /// Whether nothing was found yet.
    pub fn is_empty(&self) -> (r: bool)
        requires
            self.wf(),
        ensures
            r == (self@ == Map::<Seq<char>, Seq<char>>::empty()),
    {
        let r = self.entries.len() == 0;
        proof {
            if !r {
                lemma_cache_has(self.entries@, 0);
            }
        }
        r
    }
}

/// The names and texts that a TOML document holds; `None` where it is none, or holds anything else.
pub uninterp spec fn cache_in(text: Seq<char>) -> Option<Map<Seq<char>, Seq<char>>>;

/// The TOML document that holds the names and texts; `None` where there is none.
pub uninterp spec fn cache_text(cache: Map<Seq<char>, Seq<char>>) -> Option<Seq<char>>;

/// `toml::from_str` reads the document as a map of texts, in which each name stands once, and fails
/// for any other document. Which documents these are, and what they hold, is left unsaid.
#[verifier::external_body]
fn read_map(text: &str) -> (entries: Option<Vec<(String, String)>>)
    ensures
        match entries {
            Some(entries) => names_differ(entries@) && cache_in(text@) == Some(cache_map(entries@)),
            None => cache_in(text@) is None,
        },
{
    let map = toml::from_str::<BTreeMap<String, String>>(text).ok()?;
    Some(map.into_iter().collect())
}

/// `toml::to_string` writes a map of texts as a document, which `toml::from_str` reads as that map:
/// the writer quotes and escapes what a name or a text may not hold as it is. What the document looks
/// like, and when there is none, is left unsaid.
#[verifier::external_body]
fn write_map(entries: &Vec<(String, String)>) -> (text: Option<String>)
    requires
        names_differ(entries@),
    ensures
        match text {
            Some(text) => cache_text(cache_map(entries@)) == Some(text@) && cache_in(text@) == Some(
                cache_map(entries@),
            ),
            None => cache_text(cache_map(entries@)) is None,
        },
{
    let map: BTreeMap<&String, &String> = entries.iter().map(|e| (&e.0, &e.1)).collect();
    toml::to_string(&map).ok()
}

/// The cache that a document holds: empty where there is no document, or it holds no cache.
pub open spec fn loaded(text: Option<Seq<char>>) -> Map<Seq<char>, Seq<char>> {
    match text {
        Some(text) => match cache_in(text) {
            Some(cache) => cache,
            None => Map::empty(),
        },
        None => Map::empty(),
    }
}

/// The cache that the text of its file holds; `None` stands for a file that cannot be read.
pub fn load_cache(text: Option<&str>) -> (cache: FontCache)
    ensures
        cache.wf(),
        cache@ == loaded(
            match text {
                Some(text) => Some(text@),
                None => None,
            },
        ),
{
    if let Some(text) = text {
        if let Some(entries) = read_map(text) {
            return FontCache { entries };
        }
    }
    FontCache::new()
}

/// The text of the file that keeps the cache, from which it is loaded again; `None` where it cannot
/// be written.
pub fn save_cache(cache: &FontCache) -> (text: Option<String>)
    requires
        cache.wf(),
    ensures
        match text {
            Some(text) => cache_text(cache@) == Some(text@) && loaded(Some(text@)) == cache@,
            None => cache_text(cache@) is None,
        },
{
    write_map(&cache.entries)
}

/// Whether the function answers whether a file is there as `here` says.
pub open spec fn tells_files<E: Fn(&str) -> bool>(f: E, here: spec_fn(Seq<char>) -> bool) -> bool {
    forall|s: &str, r: bool| #[trigger] call_ensures(f, (s,), r) ==> r == here(s@)
}

/// Whether the search finds what `finds` says: the bytes of a path.
pub open spec fn searches<S: Fn(&str) -> Option<Vec<u8>>>(
    f: S,
    finds: spec_fn(Seq<char>) -> Option<Seq<u8>>,
) -> bool {
    forall|s: &str, r: Option<Vec<u8>>| #[trigger]
        call_ensures(f, (s,), r) ==> opt_bytes(r) == finds(s@)
}

/// The file for a font, and the cache thereafter: the file that was found before, where it is still
/// there; or else what the search finds, whose text replaces it.
pub open spec fn resolved(
    cache: Map<Seq<char>, Seq<char>>,
    name: Seq<char>,
    here: spec_fn(Seq<char>) -> bool,
    finds: spec_fn(Seq<char>) -> Option<Seq<u8>>,
) -> (Option<Seq<u8>>, Map<Seq<char>, Seq<char>>) {
    if cache.contains_key(name) && here(cache[name]) {
        (Some(encode_utf8(cache[name])), cache)
    } else {
        match finds(name) {
            Some(file) => (Some(file), cache.insert(name, lossy_text(file))),
            None => (None, cache.remove(name)),
        }
    }
}

/// Whether the function may answer `r` when it is asked whether a file of that text is there.
pub open spec fn may_answer<E: Fn(&str) -> bool>(f: E, text: Seq<char>, r: bool) -> bool {
    exists|s: &str| s@ == text && #[trigger] call_ensures(f, (s,), r)
}

/// Whether the search may find `file` for a font of that name.
pub open spec fn may_find<S: FnOnce(&str) -> Option<Vec<u8>>>(
    f: S,
    name: Seq<char>,
    file: Option<Seq<u8>>,
) -> bool {
    exists|s: &str, r: Option<Vec<u8>>|
        s@ == name && opt_bytes(r) == file && #[trigger] call_ensures(f, (s,), r)
}

/// Whether a font has to be searched for: no file was found before, or it may be said to be gone.
pub open spec fn search_due<E: Fn(&str) -> bool>(
    f: E,
    cache: Map<Seq<char>, Seq<char>>,
    name: Seq<char>,
) -> bool {
    cache.contains_key(name) ==> may_answer(f, cache[name], false)
}

/// Whether the functions can be called as far as that is due: the one for the file that was found
/// before, and the other for the font, where it has to be searched for.
pub open spec fn calls_ready<E: Fn(&str) -> bool, S: FnOnce(&str) -> Option<Vec<u8>>>(
    exists_: E,
    scan: S,
    cache: Map<Seq<char>, Seq<char>>,
    name: Seq<char>,
) -> bool {
    &&& forall|s: &str|
        cache.contains_key(name) && s@ == cache[name] ==> #[trigger] call_requires(exists_, (s,))
    &&& forall|s: &str|
        search_due(exists_, cache, name) && s@ == name ==> #[trigger] call_requires(scan, (s,))
}

/// Whether `file` and `after` are what comes of looking for a font: the file that was found before,
/// where it is said to be still there, and the same cache; or else what the search finds, whose text
/// replaces it in the cache.
pub open spec fn resolves<E: Fn(&str) -> bool, S: FnOnce(&str) -> Option<Vec<u8>>>(
    exists_: E,
    scan: S,
    cache: Map<Seq<char>, Seq<char>>,
    name: Seq<char>,
    file: Option<Seq<u8>>,
    after: Map<Seq<char>, Seq<char>>,
) -> bool {
    ||| {
        &&& cache.contains_key(name)
        &&& may_answer(exists_, cache[name], true)
        &&& file == Some(encode_utf8(cache[name]))
        &&& after == cache
    }
    ||| {
        &&& search_due(exists_, cache, name)
        &&& may_find(scan, name, file)
        &&& after == match file {
            Some(f) => cache.insert(name, lossy_text(f)),
            None => cache.remove(name),
        }
    }
}

/// The file for a font. The search is made where it is due, and at most once.
pub fn resolve_font_path<E: Fn(&str) -> bool, S: FnOnce(&str) -> Option<Vec<u8>>>(
    name: &str,
    cache: &mut FontCache,
    exists_: &E,
    scan: S,
) -> (file: Option<Vec<u8>>)
    requires
        old(cache).wf(),
        calls_ready(*exists_, scan, old(cache)@, name@),
    ensures
        final(cache).wf(),
        resolves(*exists_, scan, old(cache)@, name@, opt_bytes(file), final(cache)@),
{
    let ghost before = cache@;
    let mut stale = false;
    if let Some(cached) = cache.get(name) {
        let text: &str = cached.as_str();
        if exists_(text) {
            assert(may_answer(*exists_, text@, true));
            return Some(copy_bytes(text.as_bytes()));
        }
        assert(may_answer(*exists_, text@, false));
        stale = true;
    }
    if stale {
        // A search that fails must not leave the entry behind.
        cache.remove(name);
    } else {
        assert(before.remove(name@) =~= before);
    }
    let found = scan(name);
    assert(may_find(scan, name@, opt_bytes(found)));
    match found {
        Some(file) => {
            let text = text_lossy(&file);
            cache.insert(name, &text);
            assert(before.remove(name@).insert(name@, text@) =~= before.insert(name@, text@));
            Some(file)
        },
        None => None,
    }
}

/// Where the functions answer the same for the same name each time, what comes of looking for a font
/// is settled.
pub proof fn law_steady_answers_settle_the_font<
    E: Fn(&str) -> bool,
    S: Fn(&str) -> Option<Vec<u8>>,
>(
    exists_: E,
    scan: S,
    here: spec_fn(Seq<char>) -> bool,
    finds: spec_fn(Seq<char>) -> Option<Seq<u8>>,
    cache: Map<Seq<char>, Seq<char>>,
    name: Seq<char>,
    file: Option<Seq<u8>>,
    after: Map<Seq<char>, Seq<char>>,
)
    requires
        tells_files(exists_, here),
        searches(scan, finds),
        resolves(exists_, scan, cache, name, file, after),
    ensures
        (file, after) == resolved(cache, name, here, finds),
{
}

/// Whether the functions can be called as far as that is due for one of the two families.
pub open spec fn source_ready<E: Fn(&str) -> bool, S: FnOnce(&str) -> Option<Vec<u8>>>(
    exists_: E,
    scan: S,
    name: Option<Seq<char>>,
    path: Option<Seq<char>>,
    cache: Map<Seq<char>, Seq<char>>,
) -> bool {
    path is None && name is Some ==> calls_ready(exists_, scan, cache, name->0)
}

/// Whether `file` and `after` are what comes of looking for the file of one of the two families: the
/// file that is set, or else the one for the font that is set.
pub open spec fn sources<E: Fn(&str) -> bool, S: FnOnce(&str) -> Option<Vec<u8>>>(
    exists_: E,
    scan: S,
    name: Option<Seq<char>>,
    path: Option<Seq<char>>,
    cache: Map<Seq<char>, Seq<char>>,
    file: Option<Seq<u8>>,
    after: Map<Seq<char>, Seq<char>>,
) -> bool {
    match (path, name) {
        (Some(p), _) => file == Some(encode_utf8(p)) && after == cache,
        (None, Some(n)) => resolves(exists_, scan, cache, n, file, after),
        (None, None) => file is None && after == cache,
    }
}

/// The file for one of the two families.
pub fn family_source<E: Fn(&str) -> bool, S: FnOnce(&str) -> Option<Vec<u8>>>(
    name: &Option<String>,
    path: &Option<String>,
    cache: &mut FontCache,
    exists_: &E,
    scan: S,
) -> (file: Option<Vec<u8>>)
    requires
        old(cache).wf(),
        source_ready(*exists_, scan, opt_text(*name), opt_text(*path), old(cache)@),
    ensures
        final(cache).wf(),
        sources(
            *exists_,
            scan,
            opt_text(*name),
            opt_text(*path),
            old(cache)@,
            opt_bytes(file),
            final(cache)@,
        ),
{
    if let Some(p) = path {
        return Some(copy_bytes(p.as_str().as_bytes()));
    }
    match name {
        Some(n) => resolve_font_path(n, cache, exists_, scan),
        None => None,
    }
}

/// A file whose font goes before all others of its family, and the key for it.
pub struct FontLoad {
    pub family: Family,
    pub key: &'static str,
    pub file: Vec<u8>,
}

/// The key for the user's font of a family.
pub open spec fn user_key(family: Family) -> Seq<char> {
    match family {
        Family::Monospace => "user_monospace"@,
        Family::Proportional => "user_proportional"@,
    }
}

/// What is to be loaded for a family, where a file was found for it.
pub open spec fn load_of(family: Family, file: Option<Seq<u8>>) -> Seq<(Family, Seq<u8>)> {
    match file {
        Some(file) => seq![(family, file)],
        None => Seq::empty(),
    }
}

/// Whether `file` and `after` are what comes of looking for the file of a family.
pub open spec fn family_sources<E: Fn(&str) -> bool, S: FnOnce(&str) -> Option<Vec<u8>>>(
    exists_: E,
    scan: S,
    fonts: FontsSection,
    family: Family,
    cache: Map<Seq<char>, Seq<char>>,
    file: Option<Seq<u8>>,
    after: Map<Seq<char>, Seq<char>>,
) -> bool {
    match family {
        Family::Monospace => sources(
            exists_,
            scan,
            opt_text(fonts.monospace),
            opt_text(fonts.monospace_path),
            cache,
            file,
            after,
        ),
        Family::Proportional => sources(
            exists_,
            scan,
            opt_text(fonts.proportional),
            opt_text(fonts.proportional_path),
            cache,
            file,
            after,
        ),
    }
}

/// What is to be loaded.
pub open spec fn load_views(loads: Seq<FontLoad>) -> Seq<(Family, Seq<u8>)> {
    loads.map_values(|l: FontLoad| (l.family, l.file@))
}

/// What is to be loaded for the two families, the monospace one first.
pub fn build_fonts<E: Fn(&str) -> bool, S: Fn(&str) -> Option<Vec<u8>>>(
    fonts: &FontsSection,
    cache: &mut FontCache,
    exists_: &E,
    scan: &S,
) -> (loads: Vec<FontLoad>)
    requires
        old(cache).wf(),
        source_ready(
            *exists_,
            *scan,
            opt_text(fonts.monospace),
            opt_text(fonts.monospace_path),
            old(cache)@,
        ),
        forall|file: Option<Seq<u8>>, between: Map<Seq<char>, Seq<char>>| #[trigger]
            family_sources(
                *exists_,
                *scan,
                *fonts,
                Family::Monospace,
                old(cache)@,
                file,
                between,
            ) ==> source_ready(
                *exists_,
                *scan,
                opt_text(fonts.proportional),
                opt_text(fonts.proportional_path),
                between,
            ),
    ensures
        final(cache).wf(),
        forall|k: int| 0 <= k < loads@.len() ==> (#[trigger] loads@[k]).key@ == user_key(
            loads@[k].family,
        ),
        exists|
            first: Option<Seq<u8>>,
            between: Map<Seq<char>, Seq<char>>,
            second: Option<Seq<u8>>,
        |
            #![trigger family_sources(
                *exists_,
                *scan,
                *fonts,
                Family::Monospace,
                old(cache)@,
                first,
                between,
            ), family_sources(
                *exists_,
                *scan,
                *fonts,
                Family::Proportional,
                between,
                second,
                final(cache)@,
            )]
            {
                &&& family_sources(
                    *exists_,
                    *scan,
                    *fonts,
                    Family::Monospace,
                    old(cache)@,
                    first,
                    between,
                )
                &&& family_sources(
                    *exists_,
                    *scan,
                    *fonts,
                    Family::Proportional,
                    between,
                    second,
                    final(cache)@,
                )
                &&& load_views(loads@) == load_of(Family::Monospace, first) + load_of(
                    Family::Proportional,
                    second,
                )
            },
{
    let mut loads: Vec<FontLoad> = Vec::new();
    let ghost before = cache@;
    let search = |name: &str| -> (r: Option<Vec<u8>>)
        requires
            call_requires(*scan, (name,)),
        ensures
            call_ensures(*scan, (name,), r),
        { scan(name) };
    let monospace = family_source(&fonts.monospace, &fonts.monospace_path, cache, exists_, search);
    let ghost between = cache@;
    assert(family_sources(
        *exists_,
        *scan,
        *fonts,
        Family::Monospace,
        before,
        opt_bytes(monospace),
        between,
    ));
    let search = |name: &str| -> (r: Option<Vec<u8>>)
        requires
            call_requires(*scan, (name,)),
        ensures
            call_ensures(*scan, (name,), r),
        { scan(name) };
    let proportional = family_source(
        &fonts.proportional,
        &fonts.proportional_path,
        cache,
        exists_,
        search,
    );
    assert(family_sources(
        *exists_,
        *scan,
        *fonts,
        Family::Proportional,
        between,
        opt_bytes(proportional),
        cache@,
    ));
    let ghost first = load_of(Family::Monospace, opt_bytes(monospace));
    let ghost second = load_of(Family::Proportional, opt_bytes(proportional));
    if let Some(file) = monospace {
        loads.push(FontLoad { family: Family::Monospace, key: "user_monospace", file });
    }
    assert(load_views(loads@) =~= first);
    if let Some(file) = proportional {
        loads.push(FontLoad { family: Family::Proportional, key: "user_proportional", file });
    }
    assert(load_views(loads@) =~= first + second);
    loads
}

/// Whether a font is set by its name, so that the cache is needed.
pub fn needs_cache(fonts: &FontsSection) -> (r: bool)
    ensures
        r == (fonts.monospace is Some || fonts.proportional is Some),
{
    fonts.monospace.is_some() || fonts.proportional.is_some()
}

/// Puts the font before all others of its family.
pub fn apply_family(order: &mut Vec<String>, key: &str)
    ensures
        final(order)@.len() == old(order)@.len() + 1,
        final(order)@[0]@ == key@,
        forall|i: int| 0 <= i < old(order)@.len() ==> final(order)@[i + 1] == #[trigger] old(
            order,
        )@[i],
{
    order.insert(0, key.to_owned());
}

/// A font that was found once and is still there is not searched for again: the result and the cache
/// do not depend on what a search would find.
pub proof fn law_found_font_is_not_searched(
    cache: Map<Seq<char>, Seq<char>>,
    name: Seq<char>,
    here: spec_fn(Seq<char>) -> bool,
    finds: spec_fn(Seq<char>) -> Option<Seq<u8>>,
)
    requires
        cache.contains_key(name),
        here(cache[name]),
    ensures
        resolved(cache, name, here, finds) == (Some(encode_utf8(cache[name])), cache),
{
}

/// What a search found is remembered: as long as a file of that text is there, the font is found
/// without another search, and the cache stays. A search that failed leaves nothing in the cache.
pub proof fn law_search_is_remembered(
    cache: Map<Seq<char>, Seq<char>>,
    name: Seq<char>,
    here: spec_fn(Seq<char>) -> bool,
    finds: spec_fn(Seq<char>) -> Option<Seq<u8>>,
    later: spec_fn(Seq<char>) -> Option<Seq<u8>>,
)
    requires
        !(cache.contains_key(name) && here(cache[name])),
    ensures
        ({
            let (file, after) = resolved(cache, name, here, finds);
            match file {
                Some(f) => here(lossy_text(f)) ==> resolved(after, name, here, later) == (
                    Some(encode_utf8(lossy_text(f))),
                    after,
                ),
                None => !after.contains_key(name),
            }
        }),
{
}

/// A font that was not found before, or whose file is gone, is what the search finds, as it finds it,
/// and nothing where it finds nothing; and what is remembered of other fonts stays.
pub proof fn law_font_is_what_the_search_finds(
    cache: Map<Seq<char>, Seq<char>>,
    name: Seq<char>,
    other: Seq<char>,
    here: spec_fn(Seq<char>) -> bool,
    finds: spec_fn(Seq<char>) -> Option<Seq<u8>>,
)
    requires
        other != name,
    ensures
        ({
            let (file, after) = resolved(cache, name, here, finds);
            &&& !cache.contains_key(name) || !here(cache[name]) ==> file == finds(name)
            &&& !cache.contains_key(name) || !here(cache[name]) ==> (finds(name) is Some
                ==> after.contains_key(name) && after[name] == lossy_text(finds(name)->0))
            &&& !cache.contains_key(name) || !here(cache[name]) ==> (finds(name) is None
                ==> !after.contains_key(name))
            &&& cache.contains_key(name) && here(cache[name]) ==> file == Some(
                encode_utf8(cache[name]),
            ) && after == cache
            &&& after.contains_key(other) == cache.contains_key(other)
            &&& cache.contains_key(other) ==> after[other] == cache[other]
        }),
{
}

/// The file of a family is the one that is set, before anything that is known of a font; then that of
/// the font that is set; and there is none where neither is. Only looking for a font changes what is
/// remembered.
pub proof fn law_set_file_goes_before_the_font<
    E: Fn(&str) -> bool,
    S: FnOnce(&str) -> Option<Vec<u8>>,
>(
    exists_: E,
    scan: S,
    name: Option<Seq<char>>,
    path: Option<Seq<char>>,
    cache: Map<Seq<char>, Seq<char>>,
    file: Option<Seq<u8>>,
    after: Map<Seq<char>, Seq<char>>,
)
    requires
        sources(exists_, scan, name, path, cache, file, after),
    ensures
        path is Some ==> file == Some(encode_utf8(path->0)) && after == cache,
        path is None && name is None ==> file is None && after == cache,
        path is None && name is Some ==> resolves(exists_, scan, cache, name->0, file, after),
{
}

/// A font is loaded for each family for which a file was found, once, and under a name of its own.
pub proof fn law_found_files_are_loaded(a: Family, b: Family, file: Seq<u8>)
    ensures
        load_of(a, Some(file)).len() == 1,
        load_of(a, Some(file))[0].0 == a && load_of(a, Some(file))[0].1 == file,
        load_of(a, None).len() == 0,
        user_key(a) == user_key(b) ==> a == b,
{
    reveal_strlit("user_monospace");
    reveal_strlit("user_proportional");
    assert("user_monospace"@.len() == 14);
    assert("user_proportional"@.len() == 17);
}

} // verus!
