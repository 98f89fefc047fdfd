//! Paths as texts: how they are written on a platform, what folder a path is in,
//! and where a path leads from a folder.
use crate::layout;
use crate::layout::{join_path, Platform};
use crate::seqs;
use crate::text;
use crate::text::{
    cat, join, replace, same_chars, split_at_each, starts_with, to_chars, to_text,
};
use vstd::prelude::*;
use vstd::slice::{slice_subrange, slice_to_vec};

verus! {

// ---------------------------------------------------------------------------
// How a path is written
// ---------------------------------------------------------------------------

/// How a path is written.
#[derive(Clone, Copy, PartialEq, Eq, Structural)]
pub enum Style {
    /// With `/` between parts.
    Unix,
    /// With `\` or `/` between parts, and perhaps with a drive or a share in
    /// front.
    Windows,
    /// With `\\?\` in front: `\` stands between parts, and every part, `.` and
    /// `/` too, is taken as it is.
    Verbatim,
}

/// What a verbatim path begins with.
pub open spec fn verbatim_mark() -> Seq<char> {
    seq!['\\', '\\', '?', '\\']
}

/// How a path is written on a platform.
pub open spec fn style_of(platform: Platform, path: Seq<char>) -> Style {
    match platform {
        Platform::Unix => Style::Unix,
        Platform::Windows => if text::begins_with(path, verbatim_mark()) {
            Style::Verbatim
        } else {
            Style::Windows
        },
    }
}

/// Whether a character stands between parts.
pub open spec fn divides(style: Style, c: char) -> bool {
    match style {
        Style::Unix => c == '/',
        Style::Windows => c == '\\' || c == '/',
        Style::Verbatim => c == '\\',
    }
}

/// Where the part that goes through `i` ends.
pub open spec fn part_end(style: Style, path: Seq<char>, i: int) -> int
    decreases path.len() - i,
{
    if i >= path.len() {
        path.len() as int
    } else if divides(style, path[i]) {
        i
    } else {
        part_end(style, path, i + 1)
    }
}

/// Whether a path begins with a drive.
pub open spec fn drive(path: Seq<char>) -> bool {
    path.len() >= 2 && path[1] == ':' && ('a' <= path[0] <= 'z' || 'A' <= path[0] <= 'Z')
}

/// How much of a path is in front of its folders: a drive, a share, a device or
/// what else a verbatim path names first.
pub open spec fn prefix_len(style: Style, path: Seq<char>) -> int {
    match style {
        Style::Unix => 0,
        Style::Verbatim => {
            let first = part_end(style, path, 4);
            let server = part_end(style, path, first + 1);
            let share = part_end(style, path, server + 1);
            if first >= path.len() || path.subrange(4, first) != seq!['U', 'N', 'C'] {
                first
            } else if server + 1 < share {
                share
            } else {
                server
            }
        },
        Style::Windows => if path.len() >= 2 && divides(style, path[0]) && divides(style, path[1]) {
            let server = part_end(style, path, 2);
            let share = part_end(style, path, server + 1);
            if server < path.len() && (path.subrange(2, server) == seq!['.'] || (2 < server
                && server + 1 < share)) {
                share
            } else {
                0
            }
        } else if drive(path) {
            2
        } else {
            0
        },
    }
}

/// Whether the folders of a path begin at the root: a separator comes first.
pub open spec fn rooted(style: Style, path: Seq<char>) -> bool {
    prefix_len(style, path) < path.len() && divides(style, path[prefix_len(style, path)])
}

/// Whether the folders of a path begin at the root though no separator says so:
/// there is no other place in a share or a device.
pub open spec fn rooted_anyway(style: Style, path: Seq<char>) -> bool {
    prefix_len(style, path) > 0 && !(style is Windows && drive(path))
}

/// Whether a path that begins at no root begins with the part `.`.
pub open spec fn dotted(style: Style, path: Seq<char>) -> bool {
    let n = prefix_len(style, path);
    &&& !rooted(style, path) && !rooted_anyway(style, path)
    &&& n < path.len() && path[n] == '.'
    &&& n + 1 >= path.len() || divides(style, path[n + 1])
}

/// How much of a path comes before the parts that can be left off.
pub open spec fn base_len(style: Style, path: Seq<char>) -> int {
    prefix_len(style, path) + if rooted(style, path) || dotted(style, path) {
        1int
    } else {
        0int
    }
}

/// A part ends in the path, at a separator or at the path's end.
proof fn part_end_divides(style: Style, path: Seq<char>, i: int)
    requires
        0 <= i <= path.len(),
    ensures
        i <= part_end(style, path, i) <= path.len(),
        part_end(style, path, i) == path.len() || divides(
            style,
            path[part_end(style, path, i)],
        ),
    decreases path.len() - i,
{
    if i < path.len() && !divides(style, path[i]) {
        part_end_divides(style, path, i + 1);
    }
}

/// What comes before the parts of a path is part of it.
proof fn lengths_are_in_range(style: Style, path: Seq<char>)
    requires
        style is Verbatim ==> text::begins_with(path, verbatim_mark()),
    ensures
        0 <= prefix_len(style, path) <= base_len(style, path) <= path.len(),
{
    match style {
        Style::Unix => {},
        Style::Verbatim => {
            part_end_divides(style, path, 4);
            let first = part_end(style, path, 4);
            if first < path.len() {
                part_end_divides(style, path, first + 1);
                let server = part_end(style, path, first + 1);
                if server < path.len() {
                    part_end_divides(style, path, server + 1);
                }
            }
        },
        Style::Windows => if path.len() >= 2 {
            part_end_divides(style, path, 2);
            let server = part_end(style, path, 2);
            if server < path.len() {
                part_end_divides(style, path, server + 1);
            }
        },
    }
}

/// How a path is written on a platform.
pub(crate) fn find_style(platform: Platform, path: &[char]) -> (r: Style)
    ensures
        r == style_of(platform, path@),
{
    match platform {
        Platform::Unix => Style::Unix,
        Platform::Windows => {
            let mark: [char; 4] = ['\\', '\\', '?', '\\'];
            assert(mark@ == verbatim_mark());
            if starts_with(path, &mark) {
                Style::Verbatim
            } else {
                Style::Windows
            }
        },
    }
}

/// Whether a character stands between parts.
pub(crate) fn is_divider(style: Style, c: char) -> (r: bool)
    ensures
        r == divides(style, c),
{
    match style {
        Style::Unix => c == '/',
        Style::Windows => c == '\\' || c == '/',
        Style::Verbatim => c == '\\',
    }
}

/// Where the part that goes through `i` ends.
fn find_part_end(style: Style, path: &[char], i: usize) -> (r: usize)
    requires
        i <= path@.len(),
    ensures
        r == part_end(style, path@, i as int),
        i <= r <= path@.len(),
{
    let mut n: usize = i;
    while n < path.len() && !is_divider(style, path[n])
        invariant
            i <= n <= path@.len(),
            part_end(style, path@, i as int) == part_end(style, path@, n as int),
        decreases path@.len() - n,
    {
        n = n + 1;
    }
    n
}

/// Where the part behind a separator ends; `i` is where the separator is, or the
/// path's end.
fn find_next_end(style: Style, path: &[char], i: usize) -> (r: usize)
    requires
        i <= path@.len(),
    ensures
        r == part_end(style, path@, i + 1),
        i <= r <= path@.len(),
{
    if i < path.len() {
        find_part_end(style, path, i + 1)
    } else {
        path.len()
    }
}

/// Whether a path begins with a drive.
pub(crate) fn has_drive(path: &[char]) -> (r: bool)
    ensures
        r == drive(path@),
{
    path.len() >= 2 && path[1] == ':' && (('a' <= path[0] && path[0] <= 'z') || ('A' <= path[0]
        && path[0] <= 'Z'))
}

/// How much of a path is in front of its folders.
fn find_prefix(style: Style, path: &[char]) -> (r: usize)
    requires
        style is Verbatim ==> text::begins_with(path@, verbatim_mark()),
    ensures
        r == prefix_len(style, path@),
        r <= path@.len(),
{
    match style {
        Style::Unix => 0,
        Style::Verbatim => {
            let first = find_part_end(style, path, 4);
            let unc: [char; 3] = ['U', 'N', 'C'];
            assert(unc@ == seq!['U', 'N', 'C']);
            if first >= path.len() || !same_chars(slice_subrange(path, 4, first), &unc) {
                return first;
            }
            let server = find_next_end(style, path, first);
            let share = find_next_end(style, path, server);
            if server < path.len() && server + 1 < share {
                share
            } else {
                server
            }
        },
        Style::Windows => {
            if path.len() >= 2 && is_divider(style, path[0]) && is_divider(style, path[1]) {
                let server = find_part_end(style, path, 2);
                let share = find_next_end(style, path, server);
                let dot: [char; 1] = ['.'];
                assert(dot@ == seq!['.']);
                if server < path.len() && (same_chars(slice_subrange(path, 2, server), &dot) || (2
                    < server && server + 1 < share)) {
                    share
                } else {
                    0
                }
            } else if has_drive(path) {
                2
            } else {
                0
            }
        },
    }
}

// ---------------------------------------------------------------------------
// The folder a path is in
// ---------------------------------------------------------------------------

/// The first `n` characters of a path without what says nothing at their end:
/// separators, and `.` as a part, as far as `base` allows.
pub open spec fn trimmed(style: Style, path: Seq<char>, base: int, n: int) -> int
    decreases n,
{
    if n <= base || n <= 0 {
        base
    } else if divides(style, path[n - 1]) {
        trimmed(style, path, base, n - 1)
    } else if !(style is Verbatim) && path[n - 1] == '.' && (n - 1 == base || divides(
        style,
        path[n - 2],
    )) {
        trimmed(style, path, base, n - 1)
    } else {
        n
    }
}

/// Where the last part of the first `n` characters begins.
pub open spec fn part_start(style: Style, path: Seq<char>, base: int, n: int) -> int
    decreases n,
{
    if n <= base || n <= 0 {
        base
    } else if divides(style, path[n - 1]) {
        n
    } else {
        part_start(style, path, base, n - 1)
    }
}

/// The folder a path is in: the path without its last part. A path that ends at
/// the root, a drive or a share is in none, and the empty path is not either.
pub open spec fn parent(platform: Platform, path: Seq<char>) -> Option<Seq<char>> {
    let style = style_of(platform, path);
    let base = base_len(style, path);
    let n = trimmed(style, path, base, path.len() as int);
    if n > base {
        let start = part_start(style, path, base, n);
        Some(path.take(trimmed(style, path, base, start)))
    } else if dotted(style, path) {
        Some(path.take(base - 1))
    } else {
        None
    }
}

/// Leaves off what says nothing at the end.
fn find_trimmed(style: Style, path: &[char], base: usize, n: usize) -> (r: usize)
    requires
        base <= n <= path@.len(),
    ensures
        r == trimmed(style, path@, base as int, n as int),
        base <= r <= n,
{
    let mut m: usize = n;
    while m > base && (is_divider(style, path[m - 1]) || (!(style == Style::Verbatim) && path[m - 1]
        == '.' && (m - 1 == base || is_divider(style, path[m - 2]))))
        invariant
            base <= m <= n <= path@.len(),
            trimmed(style, path@, base as int, n as int) == trimmed(
                style,
                path@,
                base as int,
                m as int,
            ),
        decreases m,
    {
        m = m - 1;
    }
    m
}

/// The folder a path is in.
pub fn folder_of(platform: Platform, path: &str) -> (r: Option<String>)
    ensures
        text::opt_string(r) == parent(platform, path@),
{
    let chars = to_chars(path);
    let len: usize = chars.len();
    let style = find_style(platform, &chars);
    let prefix = find_prefix(style, &chars);
    let root = prefix < len && is_divider(style, chars[prefix]);
    let anyway = prefix > 0 && !(style == Style::Windows && has_drive(&chars));
    let dot = !root && !anyway && prefix < len && chars[prefix] == '.' && (prefix + 1 >= len
        || is_divider(style, chars[prefix + 1]));
    assert(dot == dotted(style, chars@));
    let base: usize = if root || dot {
        prefix + 1
    } else {
        prefix
    };
    assert(base == base_len(style, chars@));
    let n = find_trimmed(style, &chars, base, len);
    if n > base {
        let mut start: usize = n;
        while start > base && !is_divider(style, chars[start - 1])
            invariant
                base <= start <= n <= chars@.len(),
                part_start(style, chars@, base as int, n as int) == part_start(
                    style,
                    chars@,
                    base as int,
                    start as int,
                ),
            decreases start,
        {
            start = start - 1;
        }
        let end = find_trimmed(style, &chars, base, start);
        let folder = slice_subrange(&chars, 0, end);
        assert(folder@ == chars@.take(end as int));
        Some(to_text(folder))
    } else if dot {
        let folder = slice_subrange(&chars, 0, base - 1);
        assert(folder@ == chars@.take(base - 1));
        Some(to_text(folder))
    } else {
        None
    }
}

/// What trimming leaves lies in the path, and says something at its end.
proof fn trimmed_bounds(style: Style, path: Seq<char>, base: int, n: int)
    requires
        0 <= base <= n <= path.len(),
    ensures
        ({
            let m = trimmed(style, path, base, n);
            &&& base <= m <= n
            &&& trimmed(style, path, base, m) == m
            &&& m > base ==> !divides(style, path[m - 1])
            &&& base < m < n ==> divides(style, path[m])
        }),
    decreases n,
{
    if n > base {
        trimmed_bounds(style, path, base, n - 1);
        if n - 1 > base && divides(style, path[n - 2]) {
            assert(trimmed(style, path, base, n - 1) == trimmed(style, path, base, n - 2));
            trimmed_bounds(style, path, base, n - 2);
        }
    }
}

/// A last part begins behind a separator, and has none in it.
proof fn part_start_bounds(style: Style, path: Seq<char>, base: int, n: int)
    requires
        0 <= base <= n <= path.len(),
    ensures
        ({
            let m = part_start(style, path, base, n);
            &&& base <= m <= n
            &&& m > base ==> divides(style, path[m - 1])
            &&& forall|i: int| m <= i < n ==> !divides(style, #[trigger] path[i])
        }),
    decreases n,
{
    if n > base && !divides(style, path[n - 1]) {
        part_start_bounds(style, path, base, n - 1);
    }
}

/// Trimming goes by the characters in front alone.
proof fn trimmed_agrees(style: Style, a: Seq<char>, b: Seq<char>, base: int, n: int)
    requires
        0 <= base <= n <= a.len(),
        n <= b.len(),
        forall|i: int| 0 <= i < n ==> a[i] == b[i],
    ensures
        trimmed(style, a, base, n) == trimmed(style, b, base, n),
    decreases n,
{
    if n > base {
        assert(a[n - 1] == b[n - 1]);
        if n - 1 > base {
            assert(a[n - 2] == b[n - 2]);
        }
        trimmed_agrees(style, a, b, base, n - 1);
    }
}

/// A part of ordinary characters begins where the others end.
proof fn part_start_is(style: Style, path: Seq<char>, base: int, start: int, n: int)
    requires
        0 <= base <= start <= n <= path.len(),
        start == base || divides(style, path[start - 1]),
        forall|i: int| start <= i < n ==> !divides(style, #[trigger] path[i]),
    ensures
        part_start(style, path, base, n) == start,
    decreases n,
{
    if n > start {
        assert(!divides(style, path[n - 1]));
        part_start_is(style, path, base, start, n - 1);
    }
}

/// What is in front of a path's folders ends where a part does, but for a drive.
proof fn prefix_ends_a_part(style: Style, path: Seq<char>)
    requires
        style is Verbatim ==> text::begins_with(path, verbatim_mark()),
        rooted_anyway(style, path),
    ensures
        prefix_len(style, path) == path.len() || rooted(style, path),
{
    lengths_are_in_range(style, path);
    match style {
        Style::Unix => {},
        Style::Verbatim => {
            let first = part_end(style, path, 4);
            part_end_divides(style, path, 4);
            if first < path.len() {
                let server = part_end(style, path, first + 1);
                part_end_divides(style, path, first + 1);
                if server < path.len() {
                    part_end_divides(style, path, server + 1);
                }
            }
        },
        Style::Windows => if path.len() >= 2 {
            let server = part_end(style, path, 2);
            part_end_divides(style, path, 2);
            if server < path.len() {
                part_end_divides(style, path, server + 1);
            }
        },
    }
}

/// What is put into a folder that a path is in, is in that folder too. On Windows
/// the name must not come to be read as that of a share.
pub proof fn a_name_is_in_its_folder(platform: Platform, path: Seq<char>, name: Seq<char>)
    requires
        parent(platform, path) is Some,
        name.len() > 0,
        !name.contains('/') && !name.contains('\\') && name[0] != '.' && name.last() != '.',
        ({
            let other = layout::inside(platform, parent(platform, path)->Some_0, name);
            let style = style_of(platform, path);
            &&& style_of(platform, other) == style
            &&& prefix_len(style, other) == prefix_len(style, path)
        }),
    ensures
        parent(platform, layout::inside(platform, parent(platform, path)->Some_0, name)) == parent(
            platform,
            path,
        ),
{
    let style = style_of(platform, path);
    let p = prefix_len(style, path);
    let base = base_len(style, path);
    let n = trimmed(style, path, base, path.len() as int);
    let folder = parent(platform, path)->Some_0;
    let h = folder.len() as int;
    let other = layout::inside(platform, folder, name);
    let start = part_start(style, path, base, n);
    lengths_are_in_range(style, path);
    trimmed_bounds(style, path, base, path.len() as int);
    if n > base {
        part_start_bounds(style, path, base, n);
        trimmed_bounds(style, path, base, start);
    }
    if rooted_anyway(style, path) {
        prefix_ends_a_part(style, path);
    }
    assert forall|i: int| 0 <= i < name.len() implies !divides(style, #[trigger] name[i]) by {
        assert(name.contains(name[i]));
    }
    assert forall|i: int| 0 <= i < h implies other[i] == path[i] by {}
    assert(style_of(platform, folder) == style) by {
        if style is Verbatim {
            part_end_divides(style, path, 4);
            let first = part_end(style, path, 4);
            if first < path.len() {
                part_end_divides(style, path, first + 1);
                let server = part_end(style, path, first + 1);
                if server < path.len() {
                    part_end_divides(style, path, server + 1);
                }
            }
            assert(4 <= p);
        }
        if folder.len() >= 4 {
            assert(folder.take(4) == path.take(4));
        }
    }
    let sep = layout::separator(platform);
    assert(divides(style, sep));
    let at = other.len() - name.len();
    assert forall|i: int| at <= i < other.len() implies !divides(style, #[trigger] other[i]) by {
        assert(other[i] == name[i - at]);
    }
    assert(other.last() == name.last());
    if h > base {
        assert(folder.last() == path[h - 1]);
        assert(!layout::open_ended(platform, folder)) by {
            if folder.len() == 2 && drive(folder) {
                assert(path[0] == folder[0] && path[1] == folder[1]);
            }
        }
        assert(at == h + 1 && other[h] == sep);
        assert(divides(style, path[h]));
        assert(base_len(style, other) == base);
        trimmed_agrees(style, path, other, base, h);
        part_start_is(style, other, base, at, other.len() as int);
        assert(trimmed(style, other, base, at) == trimmed(style, other, base, h));
        assert(other.take(h) == folder);
        assert(parent(platform, other) == Some(folder));
    } else if n > base && rooted(style, path) {
        assert(folder.last() == path[p]);
        assert(layout::open_ended(platform, folder));
        assert(base_len(style, other) == base);
        part_start_is(style, other, base, at, other.len() as int);
        assert(other.take(base) == folder);
        assert(parent(platform, other) == Some(folder));
    } else if n > base && dotted(style, path) {
        assert(folder.last() == '.');
        assert(!layout::open_ended(platform, folder)) by {
            if folder.len() == 2 && drive(folder) {
                assert(folder[1] == ':');
            }
        }
        assert(at == h + 1 && other[h] == sep);
        assert(base_len(style, other) == base);
        part_start_is(style, other, base, at, other.len() as int);
        assert(trimmed(style, other, base, at) == trimmed(style, other, base, h));
        assert(other.take(base) == folder);
        assert(parent(platform, other) == Some(folder));
    } else {
        assert(h == p);
        assert(layout::open_ended(platform, folder));
        assert(at == h && other[p] == name[0]);
        assert(base_len(style, other) == p);
        part_start_is(style, other, p, at, other.len() as int);
        assert(other.take(p) == folder);
        assert(parent(platform, other) == Some(folder));
    }
}

// ---------------------------------------------------------------------------
// Where a path leads
// ---------------------------------------------------------------------------

/// Whether a part says something.
pub open spec fn nonempty() -> spec_fn(Seq<char>) -> bool {
    |part: Seq<char>| part.len() > 0
}

/// The folders of a verbatim path.
pub open spec fn folders(path: Seq<char>) -> Seq<Seq<char>> {
    text::split(path.skip(prefix_len(Style::Verbatim, path)), '\\').filter(nonempty())
}

/// Where parts lead from folders, one after the other: `.` leads nowhere, and
/// `..` leads up, but not beyond the root.
pub open spec fn walked(from: Seq<Seq<char>>, parts: Seq<Seq<char>>) -> Seq<Seq<char>>
    decreases parts.len(),
{
    if parts.len() == 0 {
        from
    } else {
        let at = walked(from, parts.drop_last());
        let part = parts.last();
        if part.len() == 0 || part == seq!['.'] {
            at
        } else if part != seq!['.', '.'] {
            at.push(part)
        } else if at.len() > 0 {
            at.drop_last()
        } else {
            at
        }
    }
}

/// The parts of a path on Windows, where both kinds of separator count.
pub open spec fn windows_parts(path: Seq<char>) -> Seq<Seq<char>> {
    text::split(text::replaced(path, '/', '\\'), '\\')
}

/// Whether a path leads to the same place from every folder.
pub open spec fn absolute(platform: Platform, path: Seq<char>) -> bool {
    match platform {
        Platform::Unix => rooted(Style::Unix, path),
        Platform::Windows => prefix_len(style_of(platform, path), path) > 0,
    }
}

/// Where a path leads from a folder. An absolute path does not mind the folder,
/// and one that begins at the root of a drive or share keeps only that. Where
/// the folder's path is verbatim, so is this one: `.` and `..` in it are followed
/// here, for nobody else would.
pub open spec fn led_to(platform: Platform, dir: Seq<char>, path: Seq<char>) -> Seq<char> {
    let style = style_of(platform, dir);
    let prefix = dir.take(prefix_len(style, dir));
    let from_the_root = rooted(style_of(platform, path), path);
    if absolute(platform, path) {
        path
    } else if style is Verbatim && path.len() > 0 {
        let from = if from_the_root {
            seq![]
        } else {
            folders(dir)
        };
        prefix.push('\\') + text::joined(walked(from, windows_parts(path)), '\\')
    } else if from_the_root {
        prefix + path
    } else {
        layout::inside(platform, dir, path)
    }
}

/// The parts that say something.
pub(crate) fn with_something(pieces: Vec<Vec<char>>) -> (r: Vec<Vec<char>>)
    ensures
        text::char_texts(r@) == text::char_texts(pieces@).filter(nonempty()),
{
    let ghost all = text::char_texts(pieces@);
    let mut kept: Vec<Vec<char>> = Vec::new();
    proof {
        reveal(Seq::filter);
        assert(all.take(0) == Seq::<Seq<char>>::empty());
        assert(text::char_texts(kept@) == Seq::<Seq<char>>::empty());
    }
    for i in 0..pieces.len()
        invariant
            all == text::char_texts(pieces@),
            text::char_texts(kept@) == all.take(i as int).filter(nonempty()),
    {
        proof {
            seqs::filter_step(all, nonempty(), i as int);
            assert(all[i as int] == pieces@[i as int]@);
        }
        if pieces[i].len() > 0 {
            let piece = slice_to_vec(&pieces[i]);
            assert(text::char_texts(kept@.push(piece)) == text::char_texts(kept@).push(piece@));
            kept.push(piece);
        }
    }
    assert(all.take(all.len() as int) == all);
    kept
}

/// Goes where parts lead.
fn walk(from: Vec<Vec<char>>, parts: &Vec<Vec<char>>) -> (r: Vec<Vec<char>>)
    ensures
        text::char_texts(r@) == walked(text::char_texts(from@), text::char_texts(parts@)),
{
    let ghost all = text::char_texts(parts@);
    let ghost start = text::char_texts(from@);
    let mut at = from;
    let dot: [char; 1] = ['.'];
    let dots: [char; 2] = ['.', '.'];
    assert(all.take(0) == Seq::<Seq<char>>::empty());
    for i in 0..parts.len()
        invariant
            all == text::char_texts(parts@),
            dot@ == seq!['.'],
            dots@ == seq!['.', '.'],
            text::char_texts(at@) == walked(start, all.take(i as int)),
    {
        let ghost before = at@;
        proof {
            assert(all.take(i + 1).drop_last() == all.take(i as int));
            assert(all.take(i + 1).last() == parts@[i as int]@);
        }
        let part = &parts[i];
        if part.len() == 0 || same_chars(part, &dot) {
        } else if !same_chars(part, &dots) {
            let piece = slice_to_vec(part);
            at.push(piece);
            assert(text::char_texts(at@) == text::char_texts(before).push(part@));
        } else if at.len() > 0 {
            let _ = at.pop();
            assert(text::char_texts(at@) == text::char_texts(before).drop_last());
        }
    }
    assert(all.take(all.len() as int) == all);
    at
}

/// Where a path leads from a folder.
pub fn lead_to(platform: Platform, dir: &str, path: &str) -> (r: String)
    ensures
        r@ == led_to(platform, dir@, path@),
{
    let chars = to_chars(path);
    let style = find_style(platform, &chars);
    let prefix = find_prefix(style, &chars);
    let root = prefix < chars.len() && is_divider(style, chars[prefix]);
    if (platform == Platform::Unix && root) || (platform == Platform::Windows && prefix > 0) {
        return path.to_owned();
    }
    let dir_chars = to_chars(dir);
    let dir_style = find_style(platform, &dir_chars);
    let dir_prefix = find_prefix(dir_style, &dir_chars);
    let front = slice_subrange(&dir_chars, 0, dir_prefix);
    assert(front@ == dir@.take(dir_prefix as int));
    if dir_style == Style::Verbatim && chars.len() > 0 {
        let from = if root {
            let nowhere: Vec<Vec<char>> = Vec::new();
            assert(text::char_texts(nowhere@) == Seq::<Seq<char>>::empty());
            nowhere
        } else {
            let behind = slice_subrange(&dir_chars, dir_prefix, dir_chars.len());
            assert(behind@ == dir@.skip(dir_prefix as int));
            with_something(split_at_each(behind, '\\'))
        };
        let slashed = to_chars(replace(&chars, '/', '\\').as_str());
        let there = walk(from, &split_at_each(&slashed, '\\'));
        let mut r = to_text(front);
        r.push('\\');
        r.append(join(&there, '\\').as_str());
        r
    } else if root {
        cat(to_text(front).as_str(), path)
    } else {
        join_path(platform, dir, path)
    }
}

// ---------------------------------------------------------------------------
// What holds of paths
// ---------------------------------------------------------------------------

/// A part ends at the first separator behind its beginning, or with the path.
pub proof fn a_part_ends_where_a_separator_is(style: Style, path: Seq<char>, i: int, k: int)
    requires
        0 <= i <= k <= path.len(),
        forall|j: int| i <= j < k ==> !divides(style, #[trigger] path[j]),
        k < path.len() ==> divides(style, path[k]),
    ensures
        part_end(style, path, i) == k,
    decreases k - i,
{
    if i < k {
        assert(!divides(style, path[i]));
        a_part_ends_where_a_separator_is(style, path, i + 1, k);
    }
}

/// Parts have a slash between them, on Windows a backslash too, and in a verbatim
/// path a backslash alone. Only Windows has verbatim paths, and they say so at once.
pub proof fn separators_go_by_the_platform(path: Seq<char>, c: char)
    ensures
        style_of(Platform::Unix, path) is Unix,
        style_of(Platform::Windows, path) is Verbatim <==> path.len() >= 4 && path[0] == '\\'
            && path[1] == '\\' && path[2] == '?' && path[3] == '\\',
        style_of(Platform::Windows, path) is Windows || style_of(Platform::Windows, path)
            is Verbatim,
        divides(Style::Unix, c) <==> c == '/',
        divides(Style::Windows, c) <==> c == '/' || c == '\\',
        divides(Style::Verbatim, c) <==> c == '\\',
        prefix_len(Style::Unix, path) == 0,
{
    if path.len() >= 4 && path[0] == '\\' && path[1] == '\\' && path[2] == '?' && path[3] == '\\' {
        assert(path.take(4) == verbatim_mark());
    }
    if text::begins_with(path, verbatim_mark()) {
        assert(path.take(4)[0] == '\\' && path.take(4)[1] == '\\' && path.take(4)[2] == '?'
            && path.take(4)[3] == '\\');
    }
}

/// What is in front of a Windows path's folders: a letter and a colon, or two
/// separators, a server, a separator and a share. Where neither is there, nothing is.
pub proof fn drives_and_shares_come_first(
    path: Seq<char>,
    letter: char,
    rest: Seq<char>,
    server: Seq<char>,
    share: Seq<char>,
)
    requires
        'a' <= letter <= 'z' || 'A' <= letter <= 'Z',
        server.len() > 0 && share.len() > 0,
        !server.contains('\\') && !server.contains('/') && !share.contains('\\')
            && !share.contains('/'),
        rest.len() > 0 ==> rest[0] == '\\' || rest[0] == '/',
    ensures
        prefix_len(Style::Windows, seq![letter, ':'] + rest) == 2,
        prefix_len(Style::Windows, seq!['\\', '\\'] + server + seq!['\\'] + share + rest)
            == 3 + server.len() + share.len(),
        path.len() > 0 && path[0] != '\\' && path[0] != '/' && !(path.len() > 1 && path[1] == ':')
            ==> prefix_len(Style::Windows, path) == 0,
        path.len() == 0 ==> prefix_len(Style::Windows, path) == 0,
{
    let style = Style::Windows;
    let unc = seq!['\\', '\\'] + server + seq!['\\'] + share + rest;
    let s = 2 + server.len() as int;
    let e = s + 1 + share.len();
    assert forall|j: int| 2 <= j < s implies !divides(style, #[trigger] unc[j]) by {
        assert(unc[j] == server[j - 2]);
        assert(server.contains(server[j - 2]));
    }
    assert forall|j: int| s + 1 <= j < e implies !divides(style, #[trigger] unc[j]) by {
        assert(unc[j] == share[j - s - 1]);
        assert(share.contains(share[j - s - 1]));
    }
    assert(unc[s] == '\\');
    if rest.len() > 0 {
        assert(unc[e] == rest[0]);
    }
    a_part_ends_where_a_separator_is(style, unc, 2, s);
    a_part_ends_where_a_separator_is(style, unc, s + 1, e);
    let on_drive = seq![letter, ':'] + rest;
    assert(on_drive[0] == letter && on_drive[1] == ':');
}

/// A verbatim path has its first part in front of its folders, a drive mostly; where
/// that says that a server and a share follow, these too.
pub proof fn verbatim_paths_say_first_where_they_are(
    first: Seq<char>,
    rest: Seq<char>,
    server: Seq<char>,
    share: Seq<char>,
)
    requires
        first.len() > 0 && server.len() > 0 && share.len() > 0,
        !first.contains('\\') && !server.contains('\\') && !share.contains('\\'),
        rest.len() > 0 ==> rest[0] == '\\',
        first != seq!['U', 'N', 'C'],
    ensures
        prefix_len(Style::Verbatim, seq!['\\', '\\', '?', '\\'] + first + rest) == 4 + first.len(),
        prefix_len(
            Style::Verbatim,
            seq!['\\', '\\', '?', '\\', 'U', 'N', 'C', '\\'] + server + seq!['\\'] + share + rest,
        ) == 9 + server.len() + share.len(),
{
    let style = Style::Verbatim;
    let plain = seq!['\\', '\\', '?', '\\'] + first + rest;
    let n = 4 + first.len() as int;
    assert forall|j: int| 4 <= j < n implies !divides(style, #[trigger] plain[j]) by {
        assert(plain[j] == first[j - 4]);
        assert(first.contains(first[j - 4]));
    }
    if rest.len() > 0 {
        assert(plain[n] == rest[0]);
    }
    a_part_ends_where_a_separator_is(style, plain, 4, n);
    assert(plain.subrange(4, n) == first);
    let unc = seq!['\\', '\\', '?', '\\', 'U', 'N', 'C', '\\'] + server + seq!['\\'] + share + rest;
    let s = 8 + server.len() as int;
    let e = s + 1 + share.len();
    assert(unc[4] == 'U' && unc[5] == 'N' && unc[6] == 'C' && unc[7] == '\\');
    a_part_ends_where_a_separator_is(style, unc, 4, 7);
    assert(unc.subrange(4, 7) == seq!['U', 'N', 'C']);
    assert forall|j: int| 8 <= j < s implies !divides(style, #[trigger] unc[j]) by {
        assert(unc[j] == server[j - 8]);
        assert(server.contains(server[j - 8]));
    }
    assert forall|j: int| s + 1 <= j < e implies !divides(style, #[trigger] unc[j]) by {
        assert(unc[j] == share[j - s - 1]);
        assert(share.contains(share[j - s - 1]));
    }
    assert(unc[s] == '\\');
    if rest.len() > 0 {
        assert(unc[e] == rest[0]);
    }
    a_part_ends_where_a_separator_is(style, unc, 8, s);
    a_part_ends_where_a_separator_is(style, unc, s + 1, e);
}

/// A name in a folder is in that folder: where a path that ends with a part is
/// followed by a separator and a name, the folder of the whole is that path. A name at
/// the root is in the root, and a name alone in the folder without a name. Neither the
/// root nor the empty path is in any.
pub proof fn a_name_is_in_the_folder_before_it(dir: Seq<char>, name: Seq<char>)
    requires
        name.len() > 0,
        !name.contains('/') && name != seq!['.'],
        dir.len() > 0,
        dir.last() != '/',
        dir.len() > 1 && dir.last() == '.' ==> dir[dir.len() - 2] != '/',
    ensures
        parent(Platform::Unix, dir.push('/') + name) == Some(dir),
        parent(Platform::Unix, seq!['/'] + name) == Some(seq!['/']),
        parent(Platform::Unix, name) == Some(Seq::<char>::empty()),
        parent(Platform::Unix, seq!['/']) is None,
        parent(Platform::Unix, Seq::<char>::empty()) is None,
{
    let style = Style::Unix;
    a_last_name(style, dir.push('/'), name, base_len(style, dir.push('/') + name));
    a_last_name(style, seq!['/'], name, 1);
    a_last_name(style, Seq::<char>::empty(), name, 0);
    let path = dir.push('/') + name;
    let n = dir.len() as int;
    assert(path[0] == dir[0] && path[n] == '/' && path[n - 1] == dir.last());
    if n > 1 {
        assert(path[n - 2] == dir[n - 2] && path[1] == dir[1]);
    }
    assert(trimmed(style, path, base_len(style, path), n) == n);
    assert(trimmed(style, path, base_len(style, path), n + 1) == n);
    assert(path.take(n) == dir);
    let at_root = seq!['/'] + name;
    assert(at_root[0] == '/');
    assert(at_root.take(1) == seq!['/']);
    assert(Seq::<char>::empty() + name == name);
    assert(name.contains(name[0]));
    if name.len() == 1 {
        assert(name == seq![name[0]]);
    } else {
        assert(name.contains(name[1]));
    }
    assert(name.take(0) == Seq::<char>::empty());
    assert(seq!['/'][0] == '/');
    assert(base_len(style, seq!['/']) == 1);
}

/// The last part of a path that ends with a name is that name.
proof fn a_last_name(style: Style, before: Seq<char>, name: Seq<char>, base: int)
    requires
        style is Unix,
        name.len() > 0,
        !name.contains('/') && name != seq!['.'],
        0 <= base <= before.len(),
        before.len() == base || before.last() == '/',
    ensures
        trimmed(style, before + name, base, (before + name).len() as int) == (before + name).len(),
        part_start(style, before + name, base, (before + name).len() as int) == before.len(),
{
    let path = before + name;
    let n = path.len() as int;
    assert forall|i: int| before.len() <= i < n implies !divides(style, #[trigger] path[i]) by {
        assert(path[i] == name[i - before.len()]);
        assert(name.contains(name[i - before.len()]));
    }
    if before.len() > base {
        assert(path[before.len() - 1] == before.last());
    }
    assert(path[n - 1] == name.last());
    if name.len() == 1 {
        assert(name == seq![name[0]]);
    } else {
        assert(path[n - 2] == name[name.len() - 2]);
    }
    part_start_is(style, path, base, before.len() as int, n);
}

/// The folder of a path is the beginning of that path.
pub proof fn a_folder_is_a_beginning(platform: Platform, path: Seq<char>)
    ensures
        parent(platform, path) matches Some(folder) ==> text::begins_with(path, folder)
            && folder.len() < path.len(),
{
    let style = style_of(platform, path);
    let base = base_len(style, path);
    lengths_are_in_range(style, path);
    trimmed_bounds(style, path, base, path.len() as int);
    let n = trimmed(style, path, base, path.len() as int);
    if n > base {
        part_start_bounds(style, path, base, n);
        let start = part_start(style, path, base, n);
        trimmed_bounds(style, path, base, start);
        if start == n {
            assert(divides(style, path[n - 1]));
        }
        let end = trimmed(style, path, base, start);
        assert(path.take(end).len() == end);
        assert(path.take(path.take(end).len() as int) == path.take(end));
    } else if dotted(style, path) {
        assert(path.take(path.take(base - 1).len() as int) == path.take(base - 1));
    }
}

/// On Unix a path leads on from a folder, behind a slash, unless it begins with one:
/// then it leads where it says.
pub proof fn unix_paths_lead_on(dir: Seq<char>, path: Seq<char>)
    ensures
        path.len() > 0 && path[0] == '/' ==> led_to(Platform::Unix, dir, path) == path,
        (path.len() == 0 || path[0] != '/') && dir.len() > 0 && dir.last() != '/' ==> led_to(
            Platform::Unix,
            dir,
            path,
        ) == dir.push('/') + path,
        (path.len() == 0 || path[0] != '/') && (dir.len() == 0 || dir.last() == '/') ==> led_to(
            Platform::Unix,
            dir,
            path,
        ) == dir + path,
{
}

/// On Windows a path with a drive or a share of its own leads where it says; one that
/// begins with a separator keeps the folder's drive or share; and any other leads on
/// from the folder, behind a backslash.
pub proof fn windows_paths_lead_on(dir: Seq<char>, path: Seq<char>)
    requires
        path.len() > 0,
        style_of(Platform::Windows, dir) is Windows,
    ensures
        ({
            let own = prefix_len(style_of(Platform::Windows, path), path);
            let front = dir.take(prefix_len(Style::Windows, dir));
            &&& own > 0 ==> led_to(Platform::Windows, dir, path) == path
            &&& own == 0 && (path[0] == '\\' || path[0] == '/') ==> led_to(
                Platform::Windows,
                dir,
                path,
            ) == front + path
            &&& own == 0 && path[0] != '\\' && path[0] != '/' && dir.len() > 2 && dir.last() != '\\'
                && dir.last() != '/' ==> led_to(Platform::Windows, dir, path) == dir.push('\\')
                + path
        }),
{
    separators_go_by_the_platform(path, path[0]);
    if style_of(Platform::Windows, path) is Verbatim {
        lengths_are_in_range(Style::Verbatim, path);
        part_end_divides(Style::Verbatim, path, 4);
        let first = part_end(Style::Verbatim, path, 4);
        if first < path.len() {
            part_end_divides(Style::Verbatim, path, first + 1);
        }
    }
}

/// From a verbatim folder a path leads part by part, whichever separators it has, and
/// the whole is written with backslashes behind what the folder has in front.
pub proof fn verbatim_paths_lead_part_by_part(dir: Seq<char>, path: Seq<char>)
    requires
        path.len() > 0,
        style_of(Platform::Windows, dir) is Verbatim,
        prefix_len(style_of(Platform::Windows, path), path) == 0,
    ensures
        ({
            let front = dir.take(prefix_len(Style::Verbatim, dir));
            let here = text::split(dir.skip(prefix_len(Style::Verbatim, dir)), '\\').filter(
                |part: Seq<char>| part.len() > 0,
            );
            let steps = text::split(text::replaced(path, '/', '\\'), '\\');
            led_to(Platform::Windows, dir, path) == front.push('\\') + text::joined(
                if path[0] == '\\' || path[0] == '/' {
                    walked(Seq::<Seq<char>>::empty(), steps)
                } else {
                    walked(here, steps)
                },
                '\\',
            )
        }),
{
    let behind = text::split(dir.skip(prefix_len(Style::Verbatim, dir)), '\\');
    seqs::filter_agrees(behind, nonempty(), |part: Seq<char>| part.len() > 0);
    separators_go_by_the_platform(path, path[0]);
    if style_of(Platform::Windows, path) is Verbatim {
        part_end_divides(Style::Verbatim, path, 4);
        let first = part_end(Style::Verbatim, path, 4);
        if first < path.len() {
            part_end_divides(Style::Verbatim, path, first + 1);
        }
    }
}

/// Parts are followed one by one: a name leads into it, `..` leads back out, if there
/// is anywhere to go, and `.` or nothing leads nowhere.
pub proof fn parts_are_followed_one_by_one(
    from: Seq<Seq<char>>,
    first: Seq<Seq<char>>,
    second: Seq<Seq<char>>,
    part: Seq<char>,
)
    ensures
        walked(from, first + second) == walked(walked(from, first), second),
        walked(from, seq![seq!['.']]) == from,
        walked(from, seq![Seq::<char>::empty()]) == from,
        from.len() > 0 ==> walked(from, seq![seq!['.', '.']]) == from.drop_last(),
        from.len() == 0 ==> walked(from, seq![seq!['.', '.']]) == from,
        part.len() > 0 && part != seq!['.'] && part != seq!['.', '.'] ==> walked(from, seq![part])
            == from.push(part),
    decreases second.len(),
{
    assert(walked(from, Seq::<Seq<char>>::empty()) == from);
    assert(seq![part].drop_last() == Seq::<Seq<char>>::empty());
    assert(seq![seq!['.']].drop_last() == Seq::<Seq<char>>::empty());
    assert(seq![Seq::<char>::empty()].drop_last() == Seq::<Seq<char>>::empty());
    assert(seq![seq!['.', '.']].drop_last() == Seq::<Seq<char>>::empty());
    assert(seq!['.', '.'].len() == 2 && seq!['.'].len() == 1);
    if second.len() == 0 {
        assert(first + second == first);
    } else {
        parts_are_followed_one_by_one(from, first, second.drop_last(), part);
        assert((first + second).drop_last() == first + second.drop_last());
        assert((first + second).last() == second.last());
    }
}

} // verus!
