//! How much memory may be used, from what the system says of it.

use vstd::prelude::*;
use vstd::slice::slice_subrange;
use vstd::string::*;

use crate::chars::{
    find_char, is_white, law_trimming_keeps_what_stands_between, law_written_number_is_read, lines,
    lines_from, number_of, parse_number, same_chars, split, split_char, strip_prefix, trim, trimmed,
};
use crate::text::{chars_of, decimal_of, string_of};

verus! {

/// The memory of the system, in bytes.
#[derive(Clone, Copy, PartialEq, Eq, Structural, Debug)]
pub struct MemInfo {
    pub total: u64,
    /// What can be had without swapping.
    pub available: u64,
}

/// The share of all memory that is left alone, in percent.
pub const RESERVE_PERCENT: u64 = 10;

/// The limit from which on a number means that there is none.
pub const NO_LIMIT: u64 = 1_125_899_906_842_624;

/// What stands between the name of a field and `kB` in the line.
pub open spec fn field_text(line: Seq<char>, name: Seq<char>) -> Option<Seq<char>> {
    if name.is_prefix_of(line) {
        let rest = trimmed(line.skip(name.len() as int));
        if rest.len() >= 2 && rest.skip(rest.len() - 2) == "kB"@ {
            Some(trimmed(rest.take(rest.len() - 2)))
        } else {
            None
        }
    } else {
        None
    }
}

/// The text of the field in the first line from `i` on that has it.
pub open spec fn field_in(rows: Seq<Seq<char>>, name: Seq<char>, i: int) -> Option<Seq<char>>
    decreases rows.len() - i,
{
    if !(0 <= i < rows.len()) {
        None
    } else if field_text(rows[i], name) is Some {
        field_text(rows[i], name)
    } else {
        field_in(rows, name, i + 1)
    }
}

/// The value of the field in bytes; `None` where it is no number, or too large for one.
pub open spec fn field_bytes(text: Seq<char>, name: Seq<char>) -> Option<nat> {
    match field_in(lines_from(text, 0), name, 0) {
        Some(kb) => match number_of(kb, u64::MAX as nat) {
            Some(n) => if n * 1024 <= u64::MAX {
                Some(n * 1024)
            } else {
                None
            },
            None => None,
        },
        None => None,
    }
}

fn field_of<'a>(line: &'a [char], name: &[char]) -> (r: Option<&'a [char]>)
    ensures
        match r {
            Some(kb) => field_text(line@, name@) == Some(kb@),
            None => field_text(line@, name@) is None,
        },
{
    let rest = match strip_prefix(line, name) {
        Some(rest) => trim(rest),
        None => return None,
    };
    let n: usize = rest.len();
    if n < 2 {
        return None;
    }
    let unit = chars_of("kB");
    assert(rest@.skip(n - 2) =~= rest@.subrange(n - 2, n as int));
    if !same_chars(slice_subrange(rest, n - 2, n), &unit) {
        return None;
    }
    assert(rest@.take(n - 2) =~= rest@.subrange(0, n - 2));
    Some(trim(slice_subrange(rest, 0, n - 2)))
}

fn field(rows: &[&[char]], name: &str, Ghost(text): Ghost<Seq<char>>) -> (r: Option<u64>)
    requires
        rows@.len() == lines_from(text, 0).len(),
        forall|k: int| #![trigger rows@[k]]
            0 <= k < rows@.len() ==> rows@[k]@ == lines_from(text, 0)[k],
    ensures
        match r {
            Some(n) => field_bytes(text, name@) == Some(n as nat),
            None => field_bytes(text, name@) is None,
        },
{
    let ghost all = lines_from(text, 0);
    let name_chars = chars_of(name);
    let mut i: usize = 0;
    while i < rows.len()
        invariant
            i <= rows@.len() == all.len(),
            all == lines_from(text, 0),
            name_chars@ == name@,
            forall|k: int| #![trigger rows@[k]] 0 <= k < rows@.len() ==> rows@[k]@ == all[k],
            field_in(all, name@, i as int) == field_in(all, name@, 0),
        decreases rows.len() - i,
    {
        if let Some(kb) = field_of(rows[i], &name_chars) {
            return match parse_number(kb, u64::MAX) {
                Some(n) => n.checked_mul(1024),
                None => None,
            };
        }
        i += 1;
    }
    None
}

/// The memory that the text of `/proc/meminfo` tells of; `None` unless it tells of both numbers.
pub fn parse_meminfo(text: &str) -> (info: Option<MemInfo>)
    ensures
        match info {
            Some(info) => field_bytes(text@, "MemTotal:"@) == Some(info.total as nat)
                && field_bytes(text@, "MemAvailable:"@) == Some(info.available as nat),
            None => field_bytes(text@, "MemTotal:"@) is None || field_bytes(
                text@,
                "MemAvailable:"@,
            ) is None,
        },
{
    let chars = chars_of(text);
    let rows = lines(&chars);
    let total: u64 = match field(&rows, "MemTotal:", Ghost(text@)) {
        Some(n) => n,
        None => return None,
    };
    let available: u64 = match field(&rows, "MemAvailable:", Ghost(text@)) {
        Some(n) => n,
        None => return None,
    };
    Some(MemInfo { total, available })
}

/// The memory within the limit of a group of processes that already use some of it.
pub fn within_limit(info: MemInfo, limit: u64, used: u64) -> (r: MemInfo)
    ensures
        r.total == if limit < info.total {
            limit
        } else {
            info.total
        },
        ({
            let left: int = if used < limit {
                limit - used
            } else {
                0
            };
            r.available == if left < info.available {
                left
            } else {
                info.available as int
            }
        }),
{
    let left: u64 = limit.saturating_sub(used);
    MemInfo {
        total: if limit < info.total {
            limit
        } else {
            info.total
        },
        available: if left < info.available {
            left
        } else {
            info.available
        },
    }
}

/// The memory of the system, within the limit of the group of processes where there is one.
pub fn read(host: Option<MemInfo>, group: Option<(u64, u64)>) -> (info: Option<MemInfo>)
    ensures
        match (host, group, info) {
            (None, _, None) => true,
            (Some(h), None, Some(r)) => r == h,
            (Some(h), Some((limit, used)), Some(r)) => {
                &&& r.total == if limit < h.total {
                    limit
                } else {
                    h.total
                }
                &&& {
                    let left: int = if used < limit {
                        limit - used
                    } else {
                        0
                    };
                    r.available == if left < h.available {
                        left
                    } else {
                        h.available as int
                    }
                }
            },
            _ => false,
        },
{
    match host {
        Some(h) => match group {
            Some((limit, used)) => Some(within_limit(h, limit, used)),
            None => Some(h),
        },
        None => None,
    }
}

/// The bytes that may be used: what is available, less the share of all memory that is left alone.
pub open spec fn usable(info: MemInfo) -> int {
    let reserve = info.total as int / 100 * RESERVE_PERCENT;
    if reserve < info.available {
        info.available - reserve
    } else {
        0
    }
}

/// The bytes that may be used; `None` where the memory is not known.
pub fn usable_bytes(info: Option<MemInfo>) -> (n: Option<u64>)
    ensures
        match (info, n) {
            (Some(info), Some(n)) => n == usable(info),
            (None, None) => true,
            _ => false,
        },
{
    match info {
        Some(m) => Some(m.available.saturating_sub(m.total / 100 * RESERVE_PERCENT)),
        None => None,
    }
}

/// At most what is available may be used, and a tenth of all memory, rounded down to full hundreds of
/// bytes, is left alone.
pub proof fn law_reserve_is_left_alone(info: MemInfo)
    ensures
        0 <= usable(info) <= info.available,
        usable(info) > 0 ==> usable(info) + info.total as int / 100 * 10 == info.available,
{
}

/// What the line of the second version of control groups says of the path.
pub open spec fn v2_path(line: Seq<char>) -> Option<Seq<char>> {
    if "0::"@.is_prefix_of(line) {
        Some(line.skip("0::"@.len() as int))
    } else {
        None
    }
}

/// The place of the first colon from `i` on, or the length.
pub open spec fn colon_from(s: Seq<char>, i: int) -> int
    decreases s.len() - i,
{
    if 0 <= i < s.len() && s[i] != ':' {
        colon_from(s, i + 1)
    } else {
        i
    }
}

/// What a line of the first version of control groups says of the path: a number, the controllers and
/// the path, with colons between them; only the line of the memory controller counts.
pub open spec fn v1_path(line: Seq<char>) -> Option<Seq<char>> {
    let first = colon_from(line, 0);
    let second = colon_from(line, first + 1);
    if first < line.len() && second < line.len() && split(
        line.subrange(first + 1, second),
        ',',
    ).contains("memory"@) {
        Some(line.skip(second + 1))
    } else {
        None
    }
}

/// The path in the first line from `i` on that has one.
pub open spec fn path_in(rows: Seq<Seq<char>>, v2: bool, i: int) -> Option<Seq<char>>
    decreases rows.len() - i,
{
    if !(0 <= i < rows.len()) {
        None
    } else {
        let p = if v2 {
            v2_path(rows[i])
        } else {
            v1_path(rows[i])
        };
        if p is Some {
            p
        } else {
            path_in(rows, v2, i + 1)
        }
    }
}

/// The path of the control group: a line of the second version goes before those of the first, and
/// the topmost group has the empty path.
pub open spec fn group_path(text: Seq<char>) -> Option<Seq<char>> {
    let rows = lines_from(text, 0);
    let found = match path_in(rows, true, 0) {
        Some(p) => Some(p),
        None => path_in(rows, false, 0),
    };
    match found {
        Some(p) => if trimmed(p) == "/"@ {
            Some(Seq::empty())
        } else {
            Some(trimmed(p))
        },
        None => None,
    }
}

fn v1_path_of<'a>(line: &'a [char]) -> (r: Option<&'a [char]>)
    ensures
        match r {
            Some(p) => v1_path(line@) == Some(p@),
            None => v1_path(line@) is None,
        },
{
    let first: usize = find_char(line, 0, ':');
    proof {
        lemma_colon_from(line@, 0, first as int);
    }
    if first == line.len() {
        return None;
    }
    let second: usize = find_char(line, first + 1, ':');
    proof {
        lemma_colon_from(line@, first + 1, second as int);
    }
    if second == line.len() {
        return None;
    }
    let memory = chars_of("memory");
    let controllers = split_char(slice_subrange(line, first + 1, second), ',');
    let ghost all = split(line@.subrange(first + 1, second as int), ',');
    let mut i: usize = 0;
    while i < controllers.len()
        invariant
            i <= controllers@.len() == all.len(),
            memory@ == "memory"@,
            forall|k: int| #![trigger controllers@[k]]
                0 <= k < controllers@.len() ==> controllers@[k]@ == all[k],
            forall|k: int| 0 <= k < i ==> #[trigger] all[k] != "memory"@,
            first < second < line@.len(),
            first == colon_from(line@, 0),
            second == colon_from(line@, first + 1),
            all == split(line@.subrange(first + 1, second as int), ','),
        decreases controllers.len() - i,
    {
        if same_chars(controllers[i], &memory) {
            assert(all[i as int] == "memory"@);
            assert(line@.skip(second + 1) =~= line@.subrange(second + 1, line@.len() as int));
            let end: usize = line.len();
            return Some(slice_subrange(line, second + 1, end));
        }
        i += 1;
    }
    None
}

proof fn lemma_colon_from(s: Seq<char>, i: int, k: int)
    requires
        0 <= i <= k <= s.len(),
        forall|j: int| i <= j < k ==> s[j] != ':',
        k < s.len() ==> s[k] == ':',
    ensures
        colon_from(s, i) == k,
    decreases k - i,
{
    if i < k {
        lemma_colon_from(s, i + 1, k);
    }
}

fn find_path<'a>(rows: &[&'a [char]], v2: bool, Ghost(all): Ghost<Seq<Seq<char>>>) -> (r: Option<
    &'a [char],
>)
    requires
        rows@.len() == all.len(),
        forall|k: int| #![trigger rows@[k]] 0 <= k < rows@.len() ==> rows@[k]@ == all[k],
    ensures
        match r {
            Some(p) => path_in(all, v2, 0) == Some(p@),
            None => path_in(all, v2, 0) is None,
        },
{
    let mark = chars_of("0::");
    let mut i: usize = 0;
    while i < rows.len()
        invariant
            i <= rows@.len() == all.len(),
            mark@ == "0::"@,
            forall|k: int| #![trigger rows@[k]] 0 <= k < rows@.len() ==> rows@[k]@ == all[k],
            path_in(all, v2, i as int) == path_in(all, v2, 0),
        decreases rows.len() - i,
    {
        let found = if v2 {
            strip_prefix(rows[i], &mark)
        } else {
            v1_path_of(rows[i])
        };
        if found.is_some() {
            return found;
        }
        i += 1;
    }
    None
}

/// The path of the control group, from the text of `/proc/self/cgroup`; empty for the topmost group,
/// and `None` where the text tells of none.
pub fn cgroup_relative_path(text: &str) -> (path: Option<String>)
    ensures
        match path {
            Some(path) => group_path(text@) == Some(path@),
            None => group_path(text@) is None,
        },
{
    let chars = chars_of(text);
    let rows = lines(&chars);
    let ghost all = lines_from(text@, 0);
    let found = match find_path(&rows, true, Ghost(all)) {
        Some(p) => Some(p),
        None => find_path(&rows, false, Ghost(all)),
    };
    match found {
        Some(p) => {
            let path = trim(p);
            let top = chars_of("/");
            if same_chars(path, &top) {
                Some(String::new())
            } else {
                Some(string_of(path))
            }
        },
        None => None,
    }
}

/// The limit that a file of a control group tells of: none for `max`, and none for a number that no
/// machine reaches.
pub open spec fn limit_of(text: Seq<char>) -> Option<nat> {
    if trimmed(text) == "max"@ {
        None
    } else {
        match number_of(trimmed(text), u64::MAX as nat) {
            Some(n) => if n < NO_LIMIT {
                Some(n)
            } else {
                None
            },
            None => None,
        }
    }
}

/// The limit that a file of a control group tells of.
pub fn parse_cgroup_limit(text: &str) -> (limit: Option<u64>)
    ensures
        match limit {
            Some(n) => limit_of(text@) == Some(n as nat),
            None => limit_of(text@) is None,
        },
{
    let chars = chars_of(text);
    let inner = trim(&chars);
    let max = chars_of("max");
    if same_chars(inner, &max) {
        return None;
    }
    match parse_number(inner, u64::MAX) {
        Some(n) => if n < NO_LIMIT {
            Some(n)
        } else {
            None
        },
        None => None,
    }
}

/// The memory that a file of a control group says is used; none where it cannot be read.
pub open spec fn usage_of(text: Option<Seq<char>>) -> nat {
    match text {
        Some(text) => match number_of(trimmed(text), u64::MAX as nat) {
            Some(n) => n,
            None => 0,
        },
        None => 0,
    }
}

/// The limit of a control group and what of it is used, from the texts of its two files; `None`
/// where there is no limit.
pub fn cgroup_memory(limit: Option<&str>, usage: Option<&str>) -> (r: Option<(u64, u64)>)
    ensures
        match r {
            Some((l, u)) => (limit matches Some(text) && limit_of(text@) == Some(l as nat)) && u
                == usage_of(
                match usage {
                    Some(text) => Some(text@),
                    None => None,
                },
            ),
            None => limit matches Some(text) ==> limit_of(text@) is None,
        },
{
    let limit: u64 = match limit {
        Some(text) => match parse_cgroup_limit(text) {
            Some(n) => n,
            None => return None,
        },
        None => return None,
    };
    let used: u64 = match usage {
        Some(text) => {
            let chars = chars_of(text);
            match parse_number(trim(&chars), u64::MAX) {
                Some(n) => n,
                None => 0,
            }
        },
        None => 0,
    };
    Some((limit, used))
}

/// The files in which a control group tells of its limit and of what is used, for the given version.
pub fn cgroup_files(rel: &str, v2: bool) -> (r: (String, String))
    ensures
        v2 ==> r.0@ == "/sys/fs/cgroup"@ + rel@ + "/memory.max"@ && r.1@ == "/sys/fs/cgroup"@ + rel@
            + "/memory.current"@,
        !v2 ==> r.0@ == "/sys/fs/cgroup/memory"@ + rel@ + "/memory.limit_in_bytes"@ && r.1@
            == "/sys/fs/cgroup/memory"@ + rel@ + "/memory.usage_in_bytes"@,
{
    let base = if v2 {
        "/sys/fs/cgroup"
    } else {
        "/sys/fs/cgroup/memory"
    };
    let mut limit = String::from_str(base);
    limit.append(rel);
    let mut usage = limit.clone();
    if v2 {
        limit.append("/memory.max");
        usage.append("/memory.current");
    } else {
        limit.append("/memory.limit_in_bytes");
        usage.append("/memory.usage_in_bytes");
    }
    (limit, usage)
}

proof fn lemma_field_text(name: Seq<char>, pad: Seq<char>, n: nat)
    requires
        forall|i: int| 0 <= i < pad.len() ==> #[trigger] pad[i] == ' ',
        n <= u64::MAX,
    ensures
        field_text(name + (pad + decimal_of(n) + " kB"@), name) == Some(decimal_of(n)),
{
    reveal_strlit(" kB");
    reveal_strlit("kB");
    let digits = decimal_of(n);
    law_written_number_is_read(n, u64::MAX as nat);
    assert('0' <= digits[0] <= '9' && '0' <= digits[digits.len() - 1] <= '9');
    let none = Seq::<char>::empty();
    let value = digits + " kB"@;
    let line = name + (pad + digits + " kB"@);
    assert(line.subrange(0, name.len() as int) =~= name);
    assert(line.skip(name.len() as int) =~= pad + value + none);
    assert(value.last() == 'B');
    law_trimming_keeps_what_stands_between(pad, value, none);
    assert(value.skip(value.len() - 2) =~= "kB"@);
    assert(value.take(value.len() - 2) =~= none + digits + seq![' ']);
    law_trimming_keeps_what_stands_between(none, digits, seq![' ']);
}

proof fn lemma_field_in(rows: Seq<Seq<char>>, name: Seq<char>, i: int, k: int)
    requires
        0 <= i <= k < rows.len(),
        forall|j: int| i <= j < k ==> !name.is_prefix_of(#[trigger] rows[j]),
        field_text(rows[k], name) is Some,
    ensures
        field_in(rows, name, i) == field_text(rows[k], name),
    decreases k - i,
{
    if i < k {
        assert(!name.is_prefix_of(rows[i]));
        lemma_field_in(rows, name, i + 1, k);
    }
}

proof fn lemma_field_not_in(rows: Seq<Seq<char>>, name: Seq<char>, i: int)
    requires
        0 <= i,
        forall|j: int| i <= j < rows.len() ==> !name.is_prefix_of(#[trigger] rows[j]),
    ensures
        field_in(rows, name, i) is None,
    decreases rows.len() - i,
{
    if i < rows.len() {
        assert(!name.is_prefix_of(rows[i]));
        lemma_field_not_in(rows, name, i + 1);
    }
}

/// A field of memory is read where its line stands: the name, spaces, a number and `kB`, in whatever
/// line comes first, give that number times one thousand and twenty-four; and without such a line
/// there is no field.
pub proof fn law_memory_field_is_read(
    text: Seq<char>,
    name: Seq<char>,
    pad: Seq<char>,
    n: nat,
    k: int,
)
    requires
        forall|i: int| 0 <= i < pad.len() ==> #[trigger] pad[i] == ' ',
        n * 1024 <= u64::MAX,
    ensures
        0 <= k < lines_from(text, 0).len() && lines_from(text, 0)[k] == name + (pad + decimal_of(n)
            + " kB"@) && (forall|j: int|
            0 <= j < k ==> !name.is_prefix_of(#[trigger] lines_from(text, 0)[j])) ==> field_bytes(
            text,
            name,
        ) == Some(n * 1024),
        (forall|j: int|
            0 <= j < lines_from(text, 0).len() ==> !name.is_prefix_of(
                #[trigger] lines_from(text, 0)[j],
            )) ==> field_bytes(text, name) is None,
{
    let rows = lines_from(text, 0);
    lemma_field_text(name, pad, n);
    law_written_number_is_read(n, u64::MAX as nat);
    if 0 <= k < rows.len() && rows[k] == name + (pad + decimal_of(n) + " kB"@) && (forall|j: int|
        0 <= j < k ==> !name.is_prefix_of(#[trigger] rows[j])) {
        lemma_field_in(rows, name, 0, k);
    }
    if forall|j: int| 0 <= j < rows.len() ==> !name.is_prefix_of(#[trigger] rows[j]) {
        lemma_field_not_in(rows, name, 0);
    }
}

/// A limit is the number that its file holds, up to what a machine can have, which is less than two to
/// the power of fifty bytes; `max` and greater numbers are none. What is used is the number in its
/// file, and nothing where there is none.
pub proof fn law_limits_are_read(n: nat, behind: Seq<char>)
    requires
        forall|i: int| 0 <= i < behind.len() ==> #[trigger] behind[i] == '\n',
        n <= u64::MAX,
    ensures
        limit_of(decimal_of(n) + behind) == if n < 1_125_899_906_842_624 {
            Some(n)
        } else {
            None
        },
        limit_of("max"@ + behind) is None,
        usage_of(Some(decimal_of(n) + behind)) == n,
        usage_of(None) == 0,
{
    reveal_strlit("max");
    let none = Seq::<char>::empty();
    let digits = decimal_of(n);
    law_written_number_is_read(n, u64::MAX as nat);
    assert('0' <= digits[0] <= '9' && '0' <= digits[digits.len() - 1] <= '9');
    assert(none + digits + behind =~= digits + behind);
    assert(none + "max"@ + behind =~= "max"@ + behind);
    law_trimming_keeps_what_stands_between(none, digits, behind);
    law_trimming_keeps_what_stands_between(none, "max"@, behind);
    assert(digits != "max"@) by {
        if digits == "max"@ {
            assert(digits[0] == 'm');
        }
    }
}

proof fn lemma_path_in(rows: Seq<Seq<char>>, v2: bool, i: int, k: int)
    requires
        0 <= i <= k < rows.len(),
        forall|j: int|
            i <= j < k ==> (if v2 {
                v2_path(#[trigger] rows[j])
            } else {
                v1_path(rows[j])
            }) is None,
        (if v2 {
            v2_path(rows[k])
        } else {
            v1_path(rows[k])
        }) is Some,
    ensures
        path_in(rows, v2, i) == if v2 {
            v2_path(rows[k])
        } else {
            v1_path(rows[k])
        },
    decreases k - i,
{
    if i < k {
        let here = rows[i];
        lemma_path_in(rows, v2, i + 1, k);
    }
}

proof fn lemma_no_path_in(rows: Seq<Seq<char>>, i: int)
    requires
        0 <= i,
        forall|j: int| i <= j < rows.len() ==> v2_path(#[trigger] rows[j]) is None,
    ensures
        path_in(rows, true, i) is None,
    decreases rows.len() - i,
{
    if i < rows.len() {
        let here = rows[i];
        lemma_no_path_in(rows, i + 1);
    }
}

/// The control group is the one of the line that starts with `0::`, and where there is none, of the
/// first line whose controllers, between the first two colons, hold `memory`; the path is what follows.
/// That of the topmost group is empty.
pub proof fn law_control_group_is_read(
    text: Seq<char>,
    path: Seq<char>,
    id: Seq<char>,
    controllers: Seq<char>,
    k: int,
)
    requires
        0 <= k < lines_from(text, 0).len(),
        path.len() > 0 ==> !is_white(path[0]) && !is_white(path.last()),
        !id.contains(':'),
        !controllers.contains(':'),
    ensures
        ({
            let rows = lines_from(text, 0);
            let told = if path == "/"@ {
                Seq::empty()
            } else {
                path
            };
            &&& rows[k] == "0::"@ + path && (forall|j: int|
                0 <= j < k ==> !"0::"@.is_prefix_of(#[trigger] rows[j])) ==> group_path(text) == Some(
                told,
            )
            &&& rows[k] == id + ":"@ + controllers + ":"@ + path && split(controllers, ',').contains(
                "memory"@,
            ) && (forall|j: int|
                0 <= j < rows.len() ==> !"0::"@.is_prefix_of(#[trigger] rows[j])) && (forall|j: int|
                0 <= j < k ==> v1_path(#[trigger] rows[j]) is None) ==> group_path(text) == Some(told)
        }),
{
    let rows = lines_from(text, 0);
    reveal_strlit("0::");
    reveal_strlit(":");
    let none = Seq::<char>::empty();
    assert(none + path + none =~= path);
    law_trimming_keeps_what_stands_between(none, path, none);
    if rows[k] == "0::"@ + path && (forall|j: int|
        0 <= j < k ==> !"0::"@.is_prefix_of(#[trigger] rows[j])) {
        assert(rows[k].subrange(0, 3) =~= "0::"@);
        assert(rows[k].skip(3) =~= path);
        assert forall|j: int| 0 <= j < k implies v2_path(#[trigger] rows[j]) is None by {}
        lemma_path_in(rows, true, 0, k);
    }
    if rows[k] == id + ":"@ + controllers + ":"@ + path && split(controllers, ',').contains(
        "memory"@,
    ) && (forall|j: int| 0 <= j < rows.len() ==> !"0::"@.is_prefix_of(#[trigger] rows[j])) && (
    forall|j: int| 0 <= j < k ==> v1_path(#[trigger] rows[j]) is None) {
        let line = rows[k];
        let a = id.len() as int;
        let b = a + 1 + controllers.len();
        assert(line[a] == ':' && line[b] == ':');
        assert forall|j: int| 0 <= j < a implies line[j] != ':' by {
            assert(line[j] == id[j]);
            assert(id.contains(id[j]));
        }
        assert forall|j: int| a + 1 <= j < b implies line[j] != ':' by {
            assert(line[j] == controllers[j - a - 1]);
            assert(controllers.contains(controllers[j - a - 1]));
        }
        lemma_colon_from(line, 0, a);
        lemma_colon_from(line, a + 1, b);
        assert(line.subrange(a + 1, b) =~= controllers);
        assert(line.skip(b + 1) =~= path);
        assert forall|j: int| 0 <= j < rows.len() implies v2_path(#[trigger] rows[j]) is None by {}
        lemma_no_path_in(rows, 0);
        lemma_path_in(rows, false, 0, k);
    }
}

/// What may be used is what is available less a tenth of all memory, counted in whole hundredths, and
/// nothing where that is more.
pub proof fn law_a_tenth_is_left_alone(info: MemInfo)
    ensures
        ({
            let tenth = 10 * (info.total as int / 100);
            &&& info.available >= tenth ==> usable(info) == info.available - tenth
            &&& info.available < tenth ==> usable(info) == 0
        }),
{
}

/// Whether a line gives the path of a control group: a number, the controllers with `memory` among
/// them, and the path, with a colon between each two.
pub open spec fn is_memory_line(line: Seq<char>) -> bool {
    exists|first: int, second: int|
        0 <= first < second < line.len() && line[first] == ':' && line[second] == ':' && #[trigger] split(
            line.subrange(first + 1, second),
            ',',
        ).contains("memory"@)
}

/// Where no line starts with `0::`, and none has `memory` between two of its colons, there is no
/// control group.
pub proof fn law_other_lines_give_no_control_group(text: Seq<char>)
    requires
        forall|j: int|
            0 <= j < lines_from(text, 0).len() ==> !"0::"@.is_prefix_of(
                #[trigger] lines_from(text, 0)[j],
            ) && !is_memory_line(lines_from(text, 0)[j]),
    ensures
        group_path(text) is None,
{
    let rows = lines_from(text, 0);
    assert forall|j: int| 0 <= j < rows.len() implies v2_path(#[trigger] rows[j]) is None && v1_path(
        rows[j],
    ) is None by {
        let line = rows[j];
        let first = colon_from(line, 0);
        let second = colon_from(line, first + 1);
        lemma_colon_is(line, 0);
        if first < line.len() {
            lemma_colon_is(line, first + 1);
            if second < line.len() && split(line.subrange(first + 1, second), ',').contains(
                "memory"@,
            ) {
                assert(is_memory_line(line));
            }
        }
    }
    lemma_no_path_in(rows, 0);
    lemma_no_first_path_in(rows, 0);
}

proof fn lemma_colon_is(s: Seq<char>, i: int)
    requires
        0 <= i <= s.len(),
    ensures
        i <= colon_from(s, i) <= s.len(),
        colon_from(s, i) < s.len() ==> s[colon_from(s, i)] == ':',
    decreases s.len() - i,
{
    if i < s.len() && s[i] != ':' {
        lemma_colon_is(s, i + 1);
    }
}

proof fn lemma_no_first_path_in(rows: Seq<Seq<char>>, i: int)
    requires
        0 <= i,
        forall|j: int| i <= j < rows.len() ==> v1_path(#[trigger] rows[j]) is None,
    ensures
        path_in(rows, false, i) is None,
    decreases rows.len() - i,
{
    if i < rows.len() {
        let here = rows[i];
        lemma_no_first_path_in(rows, i + 1);
    }
}

} // verus!
