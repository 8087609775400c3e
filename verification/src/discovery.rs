//! Pure parts of the discovery provider.
//!
//! Real discovery runs two external commands: one that enumerates
//! application-bundle paths (one per output line) and one that looks up a
//! display name per path.  Those calls, and the decoding of their raw output
//! to bytes, belong to the surrounding application.  What is verified here is
//! everything in between: splitting the listing into lines, keeping only the
//! paths under the three application directories, trimming the looked-up
//! names, and substituting the fallback name when a single metadata lookup
//! fails — a single entry's failure must never fail the whole discovery.

use vstd::prelude::*;

use crate::model::AppEntry;
use crate::model::copy_bytes;

verus! {

pub const NEWLINE: u8 = 10;

/// Splits `s` at every newline, keeping empty segments; `cur` is the segment
/// under construction and `acc` the segments already complete.
pub open spec fn split_from(s: Seq<u8>, i: int, cur: Seq<u8>, acc: Seq<Seq<u8>>) -> Seq<Seq<u8>>
    decreases s.len() - i,
{
    if i < 0 || i >= s.len() {
        acc.push(cur)
    } else if s[i] == NEWLINE {
        split_from(s, i + 1, Seq::empty(), acc.push(cur))
    } else {
        split_from(s, i + 1, cur.push(s[i]), acc)
    }
}

/// The lines of `s`: the segments between newlines, in order.
pub open spec fn spec_lines(s: Seq<u8>) -> Seq<Seq<u8>> {
    split_from(s, 0, Seq::empty(), Seq::empty())
}

/// Whether `p` is a prefix of `s`.
pub open spec fn is_prefix_of(p: Seq<u8>, s: Seq<u8>) -> bool {
    p.len() <= s.len() && s.take(p.len() as int) == p
}

/// The bytes of `/Applications/`.
pub open spec fn apps_prefix() -> Seq<u8> {
    seq![47u8, 65u8, 112u8, 112u8, 108u8, 105u8, 99u8, 97u8, 116u8, 105u8, 111u8, 110u8, 115u8, 47u8]
}

/// The bytes of `/System/Applications/`.
pub open spec fn system_apps_prefix() -> Seq<u8> {
    seq![47u8, 83u8, 121u8, 115u8, 116u8, 101u8, 109u8] + apps_prefix()
}

/// Whether a listing line names an application the launcher should offer:
/// non-empty and under the system-wide, OS or per-user application
/// directory.  `home` is the user's home directory without a trailing slash.
pub open spec fn spec_is_app_path(line: Seq<u8>, home: Seq<u8>) -> bool {
    line.len() > 0 && (is_prefix_of(apps_prefix(), line) || is_prefix_of(
        system_apps_prefix(),
        line,
    ) || is_prefix_of(home + apps_prefix(), line))
}

/// The lines of a listing that name applications, in listing order; `i` and
/// `acc` walk the lines as [`split_from`] walks the bytes.
pub open spec fn filter_from(
    lines: Seq<Seq<u8>>,
    home: Seq<u8>,
    i: int,
    acc: Seq<Seq<u8>>,
) -> Seq<Seq<u8>>
    decreases lines.len() - i,
{
    if i < 0 || i >= lines.len() {
        acc
    } else if spec_is_app_path(lines[i], home) {
        filter_from(lines, home, i + 1, acc.push(lines[i]))
    } else {
        filter_from(lines, home, i + 1, acc)
    }
}

/// The application paths a raw listing yields.
pub open spec fn spec_app_paths(raw: Seq<u8>, home: Seq<u8>) -> Seq<Seq<u8>> {
    filter_from(spec_lines(raw), home, 0, Seq::empty())
}

/// The views of a sequence of byte strings.
pub open spec fn line_views(l: Seq<Vec<u8>>) -> Seq<Seq<u8>> {
    l.map_values(|v: Vec<u8>| v@)
}

/// Whether `b` is an ASCII whitespace byte (tab, newline, vertical tab,
/// form feed, carriage return or space).
pub open spec fn is_ws(b: u8) -> bool {
    b == 9 || b == 10 || b == 11 || b == 12 || b == 13 || b == 32
}

/// `s` without leading whitespace.
pub open spec fn ltrim(s: Seq<u8>) -> Seq<u8>
    decreases s.len(),
{
    if s.len() > 0 && is_ws(s[0]) {
        ltrim(s.drop_first())
    } else {
        s
    }
}

/// `s` without trailing whitespace.
pub open spec fn rtrim(s: Seq<u8>) -> Seq<u8>
    decreases s.len(),
{
    if s.len() > 0 && is_ws(s.last()) {
        rtrim(s.drop_last())
    } else {
        s
    }
}

/// `s` without leading and trailing whitespace.
pub open spec fn spec_trim(s: Seq<u8>) -> Seq<u8> {
    rtrim(ltrim(s))
}

/// The bytes of `Unknown`, the name given to an application whose metadata
/// lookup failed.
pub open spec fn fallback_name() -> Seq<u8> {
    seq![85u8, 110u8, 107u8, 110u8, 111u8, 119u8, 110u8]
}

/// The display name an entry gets: the looked-up name trimmed, or the
/// fallback when the lookup failed or its output was not text.
pub open spec fn spec_resolve_name(raw: Option<Seq<u8>>) -> Seq<u8> {
    match raw {
        Some(s) => spec_trim(s),
        None => fallback_name(),
    }
}

/// Splits a raw listing at newlines, keeping empty segments.
pub fn split_lines(raw: &Vec<u8>) -> (r: Vec<Vec<u8>>)
    ensures
        line_views(r@) == spec_lines(raw@),
{
    let mut acc: Vec<Vec<u8>> = Vec::new();
    let mut cur: Vec<u8> = Vec::new();
    let mut i: usize = 0;
    proof {
        assert(line_views(acc@) =~= Seq::<Seq<u8>>::empty());
    }
    while i < raw.len()
        invariant
            i <= raw.len(),
            spec_lines(raw@) == split_from(raw@, i as int, cur@, line_views(acc@)),
        decreases raw.len() - i,
    {
        if raw[i] == NEWLINE {
            let ghost old_acc = acc@;
            let ghost old_cur = cur@;
            acc.push(cur);
            cur = Vec::new();
            proof {
                assert(line_views(acc@) =~= line_views(old_acc).push(old_cur));
            }
        } else {
            cur.push(raw[i]);
        }
        i = i + 1;
    }
    let ghost old_acc = acc@;
    let ghost old_cur = cur@;
    acc.push(cur);
    proof {
        assert(line_views(acc@) =~= line_views(old_acc).push(old_cur));
    }
    acc
}

/// Whether `p` is a prefix of `s`, executable.
pub fn starts_with(s: &Vec<u8>, p: &Vec<u8>) -> (r: bool)
    ensures
        r == is_prefix_of(p@, s@),
{
    if p.len() > s.len() {
        return false;
    }
    let mut i: usize = 0;
    while i < p.len()
        invariant
            i <= p.len(),
            p@.len() <= s@.len(),
            forall|k: int| 0 <= k < i ==> s@[k] == p@[k],
        decreases p.len() - i,
    {
        if s[i] != p[i] {
            proof {
                assert(s@.take(p@.len() as int)[i as int] == s@[i as int]);
            }
            return false;
        }
        i = i + 1;
    }
    proof {
        assert(s@.take(p@.len() as int) =~= p@);
    }
    true
}

/// The `/Applications/` prefix as a vector.
fn apps_prefix_vec() -> (r: Vec<u8>)
    ensures
        r@ == apps_prefix(),
{
    let mut r: Vec<u8> = Vec::new();
    r.push(47);
    r.push(65);
    r.push(112);
    r.push(112);
    r.push(108);
    r.push(105);
    r.push(99);
    r.push(97);
    r.push(116);
    r.push(105);
    r.push(111);
    r.push(110);
    r.push(115);
    r.push(47);
    proof {
        assert(r@ =~= apps_prefix());
    }
    r
}

/// The `/System/Applications/` prefix as a vector.
fn system_apps_prefix_vec() -> (r: Vec<u8>)
    ensures
        r@ == system_apps_prefix(),
{
    let mut r: Vec<u8> = Vec::new();
    r.push(47);
    r.push(83);
    r.push(121);
    r.push(115);
    r.push(116);
    r.push(101);
    r.push(109);
    let mut tail = apps_prefix_vec();
    let mut k: usize = 0;
    while k < tail.len()
        invariant
            k <= tail.len(),
            tail@ == apps_prefix(),
            r@ == seq![47u8, 83u8, 121u8, 115u8, 116u8, 101u8, 109u8] + apps_prefix().take(
                k as int,
            ),
        decreases tail.len() - k,
    {
        r.push(tail[k]);
        k = k + 1;
        proof {
            assert(r@ =~= seq![47u8, 83u8, 121u8, 115u8, 116u8, 101u8, 109u8]
                + apps_prefix().take(k as int));
        }
    }
    proof {
        assert(apps_prefix().take(apps_prefix().len() as int) =~= apps_prefix());
    }
    r
}

/// Whether one listing line names an application, executable.
pub fn is_app_path(line: &Vec<u8>, home: &Vec<u8>) -> (r: bool)
    ensures
        r == spec_is_app_path(line@, home@),
{
    if line.len() == 0 {
        return false;
    }
    let apps = apps_prefix_vec();
    if starts_with(line, &apps) {
        return true;
    }
    let system = system_apps_prefix_vec();
    if starts_with(line, &system) {
        return true;
    }
    let mut user = copy_bytes(home);
    let mut k: usize = 0;
    while k < apps.len()
        invariant
            k <= apps.len(),
            apps@ == apps_prefix(),
            user@ == home@ + apps_prefix().take(k as int),
        decreases apps.len() - k,
    {
        user.push(apps[k]);
        k = k + 1;
        proof {
            assert(user@ =~= home@ + apps_prefix().take(k as int));
        }
    }
    proof {
        assert(home@ + apps_prefix().take(apps_prefix().len() as int) =~= home@ + apps_prefix());
    }
    starts_with(line, &user)
}

/// Keeps the lines of a raw listing that name applications, in order.
pub fn filter_app_paths(raw: &Vec<u8>, home: &Vec<u8>) -> (r: Vec<Vec<u8>>)
    ensures
        line_views(r@) == spec_app_paths(raw@, home@),
{
    let lines = split_lines(raw);
    let mut acc: Vec<Vec<u8>> = Vec::new();
    let mut i: usize = 0;
    proof {
        assert(line_views(acc@) =~= Seq::<Seq<u8>>::empty());
    }
    while i < lines.len()
        invariant
            i <= lines.len(),
            line_views(lines@) == spec_lines(raw@),
            spec_app_paths(raw@, home@) == filter_from(
                line_views(lines@),
                home@,
                i as int,
                line_views(acc@),
            ),
        decreases lines.len() - i,
    {
        proof {
            assert(line_views(lines@)[i as int] == lines@[i as int]@);
        }
        if is_app_path(&lines[i], home) {
            let ghost old_acc = acc@;
            let kept = copy_bytes(&lines[i]);
            acc.push(kept);
            proof {
                assert(line_views(acc@) =~= line_views(old_acc).push(lines@[i as int]@));
            }
        }
        i = i + 1;
    }
    acc
}


/// Whether a byte is ASCII whitespace, executable.
fn is_ws_byte(b: u8) -> (r: bool)
    ensures
        r == is_ws(b),
{
    b == 9 || b == 10 || b == 11 || b == 12 || b == 13 || b == 32
}

/// Trims ASCII whitespace from both ends.
pub fn trim_bytes(s: &Vec<u8>) -> (r: Vec<u8>)
    ensures
        r@ == spec_trim(s@),
{
    let mut start: usize = 0;
    while start < s.len() && is_ws_byte(s[start])
        invariant
            start <= s.len(),
            forall|k: int| 0 <= k < start ==> is_ws(s@[k]),
        decreases s.len() - start,
    {
        start = start + 1;
    }
    proof {
        lemma_ltrim_skip(s@, start as int);
    }
    let mut end: usize = s.len();
    while end > start && is_ws_byte(s[end - 1])
        invariant
            start <= end <= s.len(),
            forall|k: int| end <= k < s.len() ==> is_ws(s@[k]),
        decreases end,
    {
        end = end - 1;
    }
    proof {
        lemma_rtrim_take(s@.skip(start as int), end - start);
        assert(s@.skip(start as int).take(end - start) =~= s@.subrange(
            start as int,
            end as int,
        ));
    }
    let mut r: Vec<u8> = Vec::new();
    let mut i: usize = start;
    while i < end
        invariant
            start <= i <= end <= s.len(),
            r@ == s@.subrange(start as int, i as int),
        decreases end - i,
    {
        r.push(s[i]);
        i = i + 1;
        proof {
            assert(r@ =~= s@.subrange(start as int, i as int));
        }
    }
    proof {
        assert(s@.subrange(start as int, start as int) =~= Seq::<u8>::empty());
    }
    r
}

/// Dropping each leading whitespace byte in turn computes `ltrim`.
proof fn lemma_ltrim_skip(s: Seq<u8>, i: int)
    requires
        0 <= i <= s.len(),
        forall|k: int| 0 <= k < i ==> is_ws(s[k]),
        i == s.len() || !is_ws(s[i]),
    ensures
        ltrim(s) == s.skip(i),
    decreases i,
{
    if i == 0 {
        assert(s.skip(0) =~= s);
    } else {
        assert(is_ws(s[0]));
        let t = s.drop_first();
        assert forall|k: int| 0 <= k < i - 1 implies is_ws(t[k]) by {
            assert(t[k] == s[k + 1]);
        }
        lemma_ltrim_skip(t, i - 1);
        assert(t.skip(i - 1) =~= s.skip(i));
    }
}

/// Dropping each trailing whitespace byte in turn computes `rtrim`.
proof fn lemma_rtrim_take(s: Seq<u8>, m: int)
    requires
        0 <= m <= s.len(),
        forall|k: int| m <= k < s.len() ==> is_ws(s[k]),
        m == 0 || !is_ws(s[m - 1]),
    ensures
        rtrim(s) == s.take(m),
    decreases s.len() - m,
{
    if m == s.len() {
        assert(s.take(m) =~= s);
    } else {
        assert(is_ws(s.last()));
        let t = s.drop_last();
        lemma_rtrim_take(t, m);
        assert(t.take(m) =~= s.take(m));
    }
}

/// The display name for one discovered path: the raw lookup output trimmed,
/// or `Unknown` when the lookup failed (`None`).
pub fn resolve_name(raw: Option<&Vec<u8>>) -> (r: Vec<u8>)
    ensures
        match raw {
            Some(s) => r@ == spec_resolve_name(Some(s@)),
            None => r@ == spec_resolve_name(None),
        },
{
    match raw {
        Some(s) => trim_bytes(s),
        None => {
            let mut r: Vec<u8> = Vec::new();
            r.push(85);
            r.push(110);
            r.push(107);
            r.push(110);
            r.push(111);
            r.push(119);
            r.push(110);
            proof {
                assert(r@ =~= fallback_name());
            }
            r
        },
    }
}

/// Builds the entry for one discovered path and its name-lookup outcome.
pub fn make_entry(path: Vec<u8>, raw_name: Option<&Vec<u8>>) -> (e: AppEntry)
    ensures
        e@.path == path@,
        match raw_name {
            Some(s) => e@.name == spec_resolve_name(Some(s@)),
            None => e@.name == spec_resolve_name(None),
        },
{
    let name = resolve_name(raw_name);
    AppEntry { name, path }
}

} // verus!
