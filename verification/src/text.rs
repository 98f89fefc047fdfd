//! Text handling: the character-level vocabulary that the rest of the library
//! is specified in. A text is modelled as a `Seq<char>`.
use vstd::prelude::*;
use vstd::slice::slice_subrange;

verus! {

/// Appends one character (`String::push`).
pub assume_specification[ String::push ](s: &mut String, c: char)
    ensures
        final(s)@ == old(s)@.push(c),
;

/// The texts a sequence of strings holds.
pub open spec fn texts(strings: Seq<String>) -> Seq<Seq<char>> {
    strings.map_values(|s: String| s@)
}

/// The texts a sequence of character vectors holds.
pub open spec fn char_texts(pieces: Seq<Vec<char>>) -> Seq<Seq<char>> {
    pieces.map_values(|p: Vec<char>| p@)
}

/// The text in an optional string slice.
pub open spec fn opt_text(text: Option<&str>) -> Option<Seq<char>> {
    match text {
        Some(t) => Some(t@),
        None => None,
    }
}

/// The text in an optional string.
pub open spec fn opt_string(text: Option<String>) -> Option<Seq<char>> {
    match text {
        Some(t) => Some(t@),
        None => None,
    }
}

/// The text of an answer: what was asked for, or what went wrong.
pub open spec fn answer(r: Result<String, String>) -> Result<Seq<char>, Seq<char>> {
    match r {
        Ok(text) => Ok(text@),
        Err(e) => Err(e@),
    }
}

/// The characters of a text, in order.
pub fn to_chars(text: &str) -> (chars: Vec<char>)
    ensures
        chars@ == text@,
{
    let mut chars: Vec<char> = Vec::new();
    for c in it: text.chars()
        invariant
            it.seq() == text@,
            chars@ == text@.take(it.index() as int),
    {
        chars.push(c);
    }
    assert(text@.take(text@.len() as int) == text@);
    chars
}

/// The text made of these characters, in order.
pub fn to_text(chars: &[char]) -> (text: String)
    ensures
        text@ == chars@,
{
    let mut text = String::new();
    for i in 0..chars.len()
        invariant
            text@ == chars@.take(i as int),
    {
        text.push(chars[i]);
    }
    assert(chars@.take(chars@.len() as int) == chars@);
    text
}

/// Whether two character slices hold the same text.
pub fn same_chars(a: &[char], b: &[char]) -> (same: bool)
    ensures
        same == (a@ == b@),
{
    if a.len() != b.len() {
        return false;
    }
    for i in 0..a.len()
        invariant
            a@.len() == b@.len(),
            a@.take(i as int) == b@.take(i as int),
    {
        if a[i] != b[i] {
            assert(a@[i as int] != b@[i as int]);
            return false;
        }
        assert(a@.take(i + 1) == a@.take(i as int).push(a@[i as int]));
        assert(b@.take(i + 1) == b@.take(i as int).push(b@[i as int]));
    }
    assert(a@.take(a@.len() as int) == a@);
    assert(b@.take(b@.len() as int) == b@);
    true
}

/// Whether two texts are the same.
pub fn same_text(a: &str, b: &str) -> (same: bool)
    ensures
        same == (a@ == b@),
{
    let a = to_chars(a);
    let b = to_chars(b);
    same_chars(&a, &b)
}

/// Two texts, one after the other.
pub fn cat(a: &str, b: &str) -> (r: String)
    ensures
        r@ == a@ + b@,
{
    let mut r = a.to_owned();
    r.append(b);
    r
}

/// Three texts, one after the other.
pub fn cat3(a: &str, b: &str, c: &str) -> (r: String)
    ensures
        r@ == a@ + b@ + c@,
{
    let mut r = cat(a, b);
    r.append(c);
    r
}

/// Whether a sequence of strings holds a text.
pub fn has_text(strings: &[String], text: &str) -> (r: bool)
    ensures
        r == texts(strings@).contains(text@),
{
    for i in 0..strings.len()
        invariant
            forall|j: int| 0 <= j < i ==> texts(strings@)[j] != text@,
    {
        if same_text(strings[i].as_str(), text) {
            assert(texts(strings@)[i as int] == text@);
            return true;
        }
    }
    false
}

// ---------------------------------------------------------------------------
// Whitespace
// ---------------------------------------------------------------------------

/// The characters with Unicode's `White_Space` property.
pub open spec fn is_white(c: char) -> bool {
    let u = c as u32;
    ||| 0x9 <= u <= 0xd
    ||| u == 0x20
    ||| u == 0x85
    ||| u == 0xa0
    ||| u == 0x1680
    ||| 0x2000 <= u <= 0x200a
    ||| u == 0x2028
    ||| u == 0x2029
    ||| u == 0x202f
    ||| u == 0x205f
    ||| u == 0x3000
}

/// A text without its leading whitespace.
pub open spec fn trim_start(s: Seq<char>) -> Seq<char>
    decreases s.len(),
{
    if s.len() > 0 && is_white(s.first()) {
        trim_start(s.drop_first())
    } else {
        s
    }
}

/// A text without its trailing whitespace.
pub open spec fn trim_end(s: Seq<char>) -> Seq<char>
    decreases s.len(),
{
    if s.len() > 0 && is_white(s.last()) {
        trim_end(s.drop_last())
    } else {
        s
    }
}

/// A text without the whitespace around it.
pub open spec fn trimmed(s: Seq<char>) -> Seq<char> {
    trim_end(trim_start(s))
}

/// Whether a character is whitespace.
pub fn white(c: char) -> (r: bool)
    ensures
        r == is_white(c),
{
    let u: u32 = c as u32;
    (0x9 <= u && u <= 0xd) || u == 0x20 || u == 0x85 || u == 0xa0 || u == 0x1680 || (0x2000 <= u
        && u <= 0x200a) || u == 0x2028 || u == 0x2029 || u == 0x202f || u == 0x205f || u == 0x3000
}

/// The slice without the whitespace around it.
pub fn trim(chars: &[char]) -> (r: &[char])
    ensures
        r@ == trimmed(chars@),
{
    let mut start: usize = 0;
    assert(chars@.skip(0) == chars@);
    while start < chars.len() && white(chars[start])
        invariant
            start <= chars.len(),
            trim_start(chars@) == trim_start(chars@.skip(start as int)),
        decreases chars.len() - start,
    {
        assert(chars@.skip(start as int).drop_first() == chars@.skip(start + 1));
        start = start + 1;
    }
    let ghost rest = chars@.skip(start as int);
    assert(trim_start(chars@) == rest);
    let mut end: usize = chars.len();
    assert(rest.take(end - start) == rest);
    while start < end && white(chars[end - 1])
        invariant
            start <= end <= chars.len(),
            rest == chars@.skip(start as int),
            trim_end(rest) == trim_end(rest.take(end - start)),
        decreases end - start,
    {
        assert(rest.take(end - start).drop_last() == rest.take(end - 1 - start));
        assert(rest.take(end - start).last() == chars@[end - 1]);
        end = end - 1;
    }
    assert(rest.take(end - start) == chars@.subrange(start as int, end as int));
    slice_subrange(chars, start, end)
}

/// The text without the whitespace around it.
pub fn trim_text(text: &str) -> (r: String)
    ensures
        r@ == trimmed(text@),
{
    let chars = to_chars(text);
    to_text(trim(&chars))
}

// ---------------------------------------------------------------------------
// Searching and splitting
// ---------------------------------------------------------------------------

/// The position of the first `c` in `s`; the length of `s` where there is
/// none.
pub open spec fn find(s: Seq<char>, c: char) -> int
    decreases s.len(),
{
    if s.len() == 0 || s.first() == c {
        0
    } else {
        1 + find(s.drop_first(), c)
    }
}

/// `find` is the least position that holds `c`.
pub proof fn find_is_first(s: Seq<char>, c: char)
    ensures
        0 <= find(s, c) <= s.len(),
        find(s, c) < s.len() ==> s[find(s, c)] == c,
        forall|i: int| 0 <= i < find(s, c) ==> s[i] != c,
        s.contains(c) <==> find(s, c) < s.len(),
    decreases s.len(),
{
    if s.len() == 0 || s.first() == c {
    } else {
        let rest = s.drop_first();
        find_is_first(rest, c);
        assert forall|i: int| 0 <= i < find(s, c) implies s[i] != c by {
            if i > 0 {
                assert(rest[i - 1] == s[i]);
            }
        }
        if s.contains(c) {
            let i = choose|i: int| 0 <= i < s.len() && s[i] == c;
            assert(rest[i - 1] == c);
        }
    }
}

/// A position that holds `c` with none before it is the one `find` gives.
pub proof fn first_is_find(s: Seq<char>, c: char, i: int)
    requires
        0 <= i <= s.len(),
        i < s.len() ==> s[i] == c,
        forall|j: int| 0 <= j < i ==> s[j] != c,
    ensures
        find(s, c) == i,
{
    find_is_first(s, c);
}

/// The pieces of `s` between occurrences of `c`: always at least one.
pub open spec fn split(s: Seq<char>, c: char) -> Seq<Seq<char>>
    decreases s.len(),
{
    if find(s, c) >= s.len() {
        seq![s]
    } else {
        proof {
            find_is_first(s, c);
        }
        seq![s.take(find(s, c))] + split(s.skip(find(s, c) + 1), c)
    }
}

/// What stands before and after the first `c`, where there is one.
pub open spec fn split_once(s: Seq<char>, c: char) -> Option<(Seq<char>, Seq<char>)> {
    if s.contains(c) {
        Some((s.take(find(s, c)), s.skip(find(s, c) + 1)))
    } else {
        None
    }
}

/// The position of the first `c`, or the length of the slice.
pub fn position_of(chars: &[char], c: char) -> (i: usize)
    ensures
        i as int == find(chars@, c),
        i <= chars@.len(),
{
    let mut i: usize = 0;
    while i < chars.len() && chars[i] != c
        invariant
            i <= chars.len(),
            forall|j: int| 0 <= j < i ==> chars@[j] != c,
        decreases chars.len() - i,
    {
        i = i + 1;
    }
    proof {
        first_is_find(chars@, c, i as int);
    }
    i
}

/// Splits at every `c`.
pub fn split_at_each(chars: &[char], c: char) -> (pieces: Vec<Vec<char>>)
    ensures
        char_texts(pieces@) == split(chars@, c),
{
    let mut pieces: Vec<Vec<char>> = Vec::new();
    let mut start: usize = 0;
    assert(chars@.skip(0) == chars@);
    assert(char_texts(pieces@) + split(chars@, c) == split(chars@, c));
    loop
        invariant_except_break
            start <= chars.len(),
            char_texts(pieces@) + split(chars@.skip(start as int), c) == split(chars@, c),
        ensures
            char_texts(pieces@) == split(chars@, c),
        decreases chars.len() - start,
    {
        let ghost before = pieces@;
        let ghost rest = chars@.skip(start as int);
        let tail = slice_subrange(chars, start, chars.len());
        assert(tail@ == rest);
        let len = position_of(tail, c);
        proof {
            find_is_first(rest, c);
        }
        let piece = vstd::slice::slice_to_vec(slice_subrange(tail, 0, len));
        assert(piece@ == rest.take(len as int));
        pieces.push(piece);
        assert(char_texts(pieces@) == char_texts(before).push(piece@));
        if len == tail.len() {
            assert(rest.take(len as int) == rest);
            assert(char_texts(before) + seq![rest] == char_texts(before).push(rest));
            break;
        }
        assert(rest.skip(len + 1) == chars@.skip(start + len + 1));
        assert(char_texts(before) + (seq![piece@] + split(rest.skip(len + 1), c)) == char_texts(
            before,
        ).push(piece@) + split(rest.skip(len + 1), c));
        start = start + len + 1;
    }
    pieces
}

/// Splits at the first `c`.
pub fn split_at_first(chars: &[char], c: char) -> (r: Option<(&[char], &[char])>)
    ensures
        r is Some <==> split_once(chars@, c) is Some,
        r matches Some((before, after)) ==> split_once(chars@, c) == Some((before@, after@)),
{
    let i = position_of(chars, c);
    proof {
        find_is_first(chars@, c);
    }
    if i == chars.len() {
        None
    } else {
        let before = slice_subrange(chars, 0, i);
        let after = slice_subrange(chars, i + 1, chars.len());
        assert(before@ == chars@.take(i as int));
        assert(after@ == chars@.skip(i + 1));
        Some((before, after))
    }
}

/// `s` with every `from` turned into `to`.
pub open spec fn replaced(s: Seq<char>, from: char, to: char) -> Seq<char> {
    s.map_values(|c: char| if c == from { to } else { c })
}

/// Turns every `from` into `to`.
pub fn replace(chars: &[char], from: char, to: char) -> (r: String)
    ensures
        r@ == replaced(chars@, from, to),
{
    let mut r = String::new();
    for i in 0..chars.len()
        invariant
            r@ == replaced(chars@, from, to).take(i as int),
    {
        r.push(if chars[i] == from { to } else { chars[i] });
        assert(replaced(chars@, from, to).take(i + 1) == replaced(chars@, from, to).take(
            i as int,
        ).push(replaced(chars@, from, to)[i as int]));
    }
    assert(replaced(chars@, from, to).take(chars@.len() as int) == replaced(chars@, from, to));
    r
}

/// Whether `s` begins with `prefix`.
pub open spec fn begins_with(s: Seq<char>, prefix: Seq<char>) -> bool {
    prefix.len() <= s.len() && s.take(prefix.len() as int) == prefix
}

/// Whether `s` ends with `suffix`.
pub open spec fn finishes_with(s: Seq<char>, suffix: Seq<char>) -> bool {
    suffix.len() <= s.len() && s.skip(s.len() - suffix.len()) == suffix
}

/// Whether the slice begins with `prefix`.
pub fn starts_with(chars: &[char], prefix: &[char]) -> (r: bool)
    ensures
        r == begins_with(chars@, prefix@),
{
    if prefix.len() > chars.len() {
        return false;
    }
    let head = slice_subrange(chars, 0, prefix.len());
    assert(head@ == chars@.take(prefix@.len() as int));
    same_chars(head, prefix)
}

/// Whether the slice ends with `suffix`.
pub fn ends_with(chars: &[char], suffix: &[char]) -> (r: bool)
    ensures
        r == finishes_with(chars@, suffix@),
{
    if suffix.len() > chars.len() {
        return false;
    }
    let tail = slice_subrange(chars, chars.len() - suffix.len(), chars.len());
    assert(tail@ == chars@.skip(chars@.len() - suffix@.len()));
    same_chars(tail, suffix)
}

/// The pieces put together again, with `sep` between neighbours.
pub open spec fn joined(pieces: Seq<Seq<char>>, sep: char) -> Seq<char>
    decreases pieces.len(),
{
    if pieces.len() == 0 {
        seq![]
    } else if pieces.len() == 1 {
        pieces[0]
    } else {
        joined(pieces.drop_last(), sep).push(sep) + pieces.last()
    }
}

/// Pieces put together are the first of them put together and the others, with
/// `sep` between.
pub proof fn joined_apart(pieces: Seq<Seq<char>>, sep: char, n: int)
    requires
        0 < n < pieces.len(),
    ensures
        joined(pieces, sep) == joined(pieces.take(n), sep).push(sep) + joined(pieces.skip(n), sep),
    decreases pieces.len(),
{
    let rest = pieces.drop_last();
    let last = pieces.last();
    let head = joined(pieces.take(n), sep).push(sep);
    let tail = pieces.skip(n);
    if n == pieces.len() - 1 {
        assert(pieces.take(n) == rest);
        assert(tail[0] == last);
    } else {
        joined_apart(rest, sep, n);
        assert(rest.take(n) == pieces.take(n));
        assert(rest.skip(n) == tail.drop_last());
        assert(tail.last() == last);
        let middle = joined(tail.drop_last(), sep);
        assert((head + middle).push(sep) + last == head + (middle.push(sep) + last));
    }
}

/// Puts `pieces` together with `sep` between neighbours.
pub fn join(pieces: &[Vec<char>], sep: char) -> (r: String)
    ensures
        r@ == joined(char_texts(pieces@), sep),
{
    let mut r = String::new();
    let ghost all = char_texts(pieces@);
    assert(joined(all.take(0), sep) == Seq::<char>::empty());
    for i in 0..pieces.len()
        invariant
            all == char_texts(pieces@),
            r@ == joined(all.take(i as int), sep),
    {
        if i > 0 {
            r.push(sep);
        }
        r.append(to_text(&pieces[i]).as_str());
        proof {
            let next = all.take(i + 1);
            assert(next.drop_last() == all.take(i as int));
            assert(next.last() == pieces@[i as int]@);
            if i == 0 {
                assert(r@ == pieces@[0]@);
            }
        }
    }
    assert(all.take(pieces@.len() as int) == all);
    r
}

// ---------------------------------------------------------------------------
// ASCII case
// ---------------------------------------------------------------------------

/// The ASCII lower-case form of a character; any other character is itself.
pub open spec fn ascii_lower(c: char) -> char {
    if 'A' <= c && c <= 'Z' {
        ((c as u8) + 32) as u8 as char
    } else {
        c
    }
}

/// Whether two texts are the same but for ASCII case.
pub open spec fn same_ignoring_ascii_case(a: Seq<char>, b: Seq<char>) -> bool {
    a.map_values(|c: char| ascii_lower(c)) == b.map_values(|c: char| ascii_lower(c))
}

/// The ASCII lower-case form of a character.
pub fn lower(c: char) -> (r: char)
    ensures
        r == ascii_lower(c),
{
    if 'A' <= c && c <= 'Z' {
        (c as u8 + 32) as char
    } else {
        c
    }
}

/// Whether two texts are the same but for ASCII case.
pub fn eq_ignore_ascii_case(a: &[char], b: &[char]) -> (r: bool)
    ensures
        r == same_ignoring_ascii_case(a@, b@),
{
    let ghost la = a@.map_values(|c: char| ascii_lower(c));
    let ghost lb = b@.map_values(|c: char| ascii_lower(c));
    assert(la.len() == a@.len() && lb.len() == b@.len());
    if a.len() != b.len() {
        return false;
    }
    for i in 0..a.len()
        invariant
            a@.len() == b@.len(),
            la == a@.map_values(|c: char| ascii_lower(c)),
            lb == b@.map_values(|c: char| ascii_lower(c)),
            forall|j: int| 0 <= j < i ==> la[j] == lb[j],
    {
        if lower(a[i]) != lower(b[i]) {
            assert(la[i as int] != lb[i as int]);
            return false;
        }
    }
    assert(la == lb);
    true
}

// ---------------------------------------------------------------------------
// What holds of texts
// ---------------------------------------------------------------------------

/// What is trimmed is whitespace, on either side, and all of it: what is left
/// stands in the text between two places, has only whitespace around it there,
/// and neither begins nor ends with any.
pub proof fn trimming_takes_whitespace_alone(s: Seq<char>)
    ensures
        exists|a: int, b: int|
            0 <= a <= b <= s.len() && trimmed(s) == #[trigger] s.subrange(a, b) && (forall|i: int|
                0 <= i < a || b <= i < s.len() ==> is_white(#[trigger] s[i])) && (a < b
                ==> !is_white(s[a]) && !is_white(s[b - 1])),
{
    trim_start_skips(s);
    let a = choose|a: int|
        0 <= a <= s.len() && trim_start(s) == #[trigger] s.skip(a) && (forall|i: int|
            0 <= i < a ==> is_white(#[trigger] s[i])) && (a < s.len() ==> !is_white(s[a]));
    let tail = s.skip(a);
    trim_end_takes(tail);
    let n = choose|n: int|
        0 <= n <= tail.len() && trim_end(tail) == #[trigger] tail.take(n) && (forall|i: int|
            n <= i < tail.len() ==> is_white(#[trigger] tail[i])) && (n > 0 ==> !is_white(
            tail[n - 1],
        ));
    let b = a + n;
    assert(s.subrange(a, b) == tail.take(n));
    assert forall|i: int| 0 <= i < a || b <= i < s.len() implies is_white(#[trigger] s[i]) by {
        if i >= b {
            assert(tail[i - a] == s[i]);
        }
    }
    if a < b {
        assert(tail[n - 1] == s[b - 1]);
    }
}

proof fn trim_start_skips(s: Seq<char>)
    ensures
        exists|a: int|
            0 <= a <= s.len() && trim_start(s) == #[trigger] s.skip(a) && (forall|i: int|
                0 <= i < a ==> is_white(#[trigger] s[i])) && (a < s.len() ==> !is_white(s[a])),
    decreases s.len(),
{
    if s.len() > 0 && is_white(s.first()) {
        let rest = s.drop_first();
        trim_start_skips(rest);
        let a = choose|a: int|
            0 <= a <= rest.len() && trim_start(rest) == #[trigger] rest.skip(a) && (forall|i: int|
                0 <= i < a ==> is_white(#[trigger] rest[i])) && (a < rest.len() ==> !is_white(
                rest[a],
            ));
        assert(s.skip(a + 1) == rest.skip(a));
        assert forall|i: int| 0 <= i < a + 1 implies is_white(#[trigger] s[i]) by {
            if i > 0 {
                assert(rest[i - 1] == s[i]);
            }
        }
    } else {
        assert(s.skip(0) == s);
    }
}

proof fn trim_end_takes(s: Seq<char>)
    ensures
        exists|n: int|
            0 <= n <= s.len() && trim_end(s) == #[trigger] s.take(n) && (forall|i: int|
                n <= i < s.len() ==> is_white(#[trigger] s[i])) && (n > 0 ==> !is_white(s[n - 1])),
    decreases s.len(),
{
    if s.len() > 0 && is_white(s.last()) {
        let rest = s.drop_last();
        trim_end_takes(rest);
        let n = choose|n: int|
            0 <= n <= rest.len() && trim_end(rest) == #[trigger] rest.take(n) && (forall|i: int|
                n <= i < rest.len() ==> is_white(#[trigger] rest[i])) && (n > 0 ==> !is_white(
                rest[n - 1],
            ));
        assert(s.take(n) == rest.take(n));
        assert forall|i: int| n <= i < s.len() implies is_white(#[trigger] s[i]) by {
            if i < rest.len() {
                assert(rest[i] == s[i]);
            }
        }
    } else {
        assert(s.take(s.len() as int) == s);
    }
}

/// Of ASCII characters the space, the tab, the ends of lines and of pages are
/// whitespace.
pub proof fn ascii_whitespace(c: char)
    requires
        (c as u32) < 0x80,
    ensures
        is_white(c) <==> c == ' ' || c == '\t' || c == '\n' || c == '\r' || c == '\x0b' || c
            == '\x0c',
{
}

/// Splitting loses nothing and finds every separator: put together again, the
/// pieces are the text, and none of them has a separator in it.
pub proof fn split_pieces_are_the_text(s: Seq<char>, c: char)
    ensures
        split(s, c).len() > 0,
        joined(split(s, c), c) == s,
        forall|i: int| 0 <= i < split(s, c).len() ==> !(#[trigger] split(s, c)[i]).contains(c),
    decreases s.len(),
{
    find_is_first(s, c);
    let n = find(s, c);
    if n < s.len() {
        let head = s.take(n);
        let tail = s.skip(n + 1);
        let later = split(tail, c);
        split_pieces_are_the_text(tail, c);
        assert forall|i: int| 0 <= i < split(s, c).len() implies !(#[trigger] split(
            s,
            c,
        )[i]).contains(c) by {
            if i > 0 {
                assert(split(s, c)[i] == later[i - 1]);
            } else {
                assert(split(s, c)[0] == head);
                if head.contains(c) {
                    let j = choose|j: int| 0 <= j < head.len() && head[j] == c;
                    assert(s[j] == c);
                }
            }
        }
        joined_apart(split(s, c), c, 1);
        assert(split(s, c).take(1) == seq![head]);
        assert(split(s, c).skip(1) == later);
        assert(joined(seq![head], c) == head);
        assert(head.push(c) + tail == s);
    }
}

/// A text is divided at the first separator, and only where there is one.
pub proof fn split_once_divides(s: Seq<char>, c: char, before: Seq<char>, after: Seq<char>)
    ensures
        split_once(s, c) == Some((before, after)) <==> s == before.push(c) + after
            && !before.contains(c),
        split_once(s, c) is None <==> !s.contains(c),
{
    find_is_first(s, c);
    let n = find(s, c);
    if s == before.push(c) + after && !before.contains(c) {
        let m = before.len() as int;
        assert(s[m] == c);
        assert forall|j: int| 0 <= j < m implies s[j] != c by {
            assert(s[j] == before[j]);
            assert(before.contains(before[j]));
        }
        first_is_find(s, c, m);
        assert(s.take(m) == before);
        assert(s.skip(m + 1) == after);
    }
    if split_once(s, c) == Some((before, after)) {
        assert(s == before.push(c) + after);
        if before.contains(c) {
            let j = choose|j: int| 0 <= j < before.len() && before[j] == c;
            assert(s[j] == c);
        }
    }
}

/// A piece is put together as it is, and one more comes behind a separator.
pub proof fn pieces_are_joined_one_by_one(pieces: Seq<Seq<char>>, piece: Seq<char>, sep: char)
    ensures
        joined(seq![piece], sep) == piece,
        pieces.len() > 0 ==> joined(pieces.push(piece), sep) == joined(pieces, sep) + seq![sep]
            + piece,
{
    if pieces.len() > 0 {
        assert(pieces.push(piece).drop_last() == pieces);
        assert(joined(pieces, sep).push(sep) + piece == joined(pieces, sep) + seq![sep] + piece);
    }
}

/// Replacing a character leaves every other one where it is.
pub proof fn replacing_changes_one_character(s: Seq<char>, from: char, to: char, i: int)
    requires
        0 <= i < s.len(),
    ensures
        replaced(s, from, to).len() == s.len(),
        s[i] == from ==> replaced(s, from, to)[i] == to,
        s[i] != from ==> replaced(s, from, to)[i] == s[i],
{
}

/// A text begins with another exactly where it is that and something behind it,
/// and ends with one likewise.
pub proof fn beginnings_and_ends(s: Seq<char>, part: Seq<char>)
    ensures
        begins_with(s, part) <==> exists|rest: Seq<char>| s == #[trigger] (part + rest),
        finishes_with(s, part) <==> exists|rest: Seq<char>| s == #[trigger] (rest + part),
{
    if begins_with(s, part) {
        assert(s == part + s.skip(part.len() as int));
    }
    if exists|rest: Seq<char>| s == #[trigger] (part + rest) {
        let rest = choose|rest: Seq<char>| s == #[trigger] (part + rest);
        assert(s.take(part.len() as int) == part);
    }
    if finishes_with(s, part) {
        assert(s == s.take(s.len() - part.len()) + part);
    }
    if exists|rest: Seq<char>| s == #[trigger] (rest + part) {
        let rest = choose|rest: Seq<char>| s == #[trigger] (rest + part);
        assert(s.skip(s.len() - part.len()) == part);
    }
}

/// Whether two characters are the same, or a capital and its small letter.
pub open spec fn same_letter(a: char, b: char) -> bool {
    ||| a == b
    ||| 'A' <= a <= 'Z' && b as u32 == a as u32 + 32
    ||| 'A' <= b <= 'Z' && a as u32 == b as u32 + 32
}

/// Texts are the same but for case exactly where they are as long as each other
/// and have the same letters at the same places.
pub proof fn case_is_all_that_may_differ(a: Seq<char>, b: Seq<char>)
    ensures
        same_ignoring_ascii_case(a, b) <==> a.len() == b.len() && forall|i: int|
            0 <= i < a.len() ==> same_letter(#[trigger] a[i], b[i]),
{
    let la = a.map_values(|c: char| ascii_lower(c));
    let lb = b.map_values(|c: char| ascii_lower(c));
    if same_ignoring_ascii_case(a, b) {
        assert(la.len() == lb.len());
        assert forall|i: int| 0 <= i < a.len() implies same_letter(#[trigger] a[i], b[i]) by {
            assert(la[i] == lb[i]);
        }
    }
    if a.len() == b.len() && forall|i: int|
        0 <= i < a.len() ==> same_letter(#[trigger] a[i], b[i]) {
        assert forall|i: int| 0 <= i < la.len() implies la[i] == lb[i] by {
            assert(same_letter(a[i], b[i]));
        }
        assert(la == lb);
    }
}

/// What is split in two is split in each: the pieces of a text with a separator in
/// it are those of what stands before, and those of what stands behind.
pub proof fn splitting_goes_on(first: Seq<char>, c: char, second: Seq<char>)
    ensures
        split(first.push(c) + second, c) == split(first, c) + split(second, c),
    decreases first.len(),
{
    let s = first.push(c) + second;
    find_is_first(first, c);
    let n = find(first, c);
    assert forall|j: int| 0 <= j < n implies s[j] != c by {
        assert(s[j] == first[j]);
    }
    assert(s[n] == c) by {
        if n < first.len() {
            assert(s[n] == first[n]);
        }
    }
    first_is_find(s, c, n);
    assert(s.take(n) == first.take(n));
    if n < first.len() {
        let rest = first.skip(n + 1);
        splitting_goes_on(rest, c, second);
        assert(s.skip(n + 1) == rest.push(c) + second);
        assert(seq![s.take(n)] + (split(rest, c) + split(second, c)) == (seq![first.take(n)]
            + split(rest, c)) + split(second, c));
    } else {
        assert(first.take(n) == first);
        assert(s.skip(n + 1) == second);
    }
}

/// Texts are held as they are: every one of a list, in its place, the one that may be
/// there, and the one that is answered with or says what went wrong.
pub proof fn texts_are_held_as_they_are(
    strings: Seq<String>,
    pieces: Seq<Vec<char>>,
    slice: &str,
    string: String,
    i: int,
)
    ensures
        texts(strings).len() == strings.len(),
        0 <= i < strings.len() ==> texts(strings)[i] == strings[i]@,
        char_texts(pieces).len() == pieces.len(),
        0 <= i < pieces.len() ==> char_texts(pieces)[i] == pieces[i]@,
        opt_text(Some(slice)) == Some(slice@),
        opt_text(None) is None,
        opt_string(Some(string)) == Some(string@),
        opt_string(None) is None,
        answer(Ok(string)) == Ok::<Seq<char>, Seq<char>>(string@),
        answer(Err(string)) == Err::<Seq<char>, Seq<char>>(string@),
{
}

} // verus!
