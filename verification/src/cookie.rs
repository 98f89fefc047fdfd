//! The Cookie header, as far as whether a cookie is there. A cookie's value is
//! never read.
use crate::text;
use crate::text::{same_chars, split_at_each, split_at_first, to_chars, trim};
use vstd::prelude::*;

verus! {

/// Whether a `name=value` pair has that name.
pub open spec fn pair_named(pair: Seq<char>, name: Seq<char>) -> bool {
    match text::split_once(pair, '=') {
        Some((key, _)) => text::trimmed(key) == name,
        None => false,
    }
}

/// Whether one of the pairs has that name.
pub open spec fn some_pair_named(pairs: Seq<Seq<char>>, name: Seq<char>) -> bool {
    exists|i: int| 0 <= i < pairs.len() && pair_named(#[trigger] pairs[i], name)
}

/// Whether a Cookie header has a cookie of that name.
pub open spec fn present(header: Option<Seq<char>>, name: Seq<char>) -> bool {
    match header {
        Some(header) => some_pair_named(text::split(header, ';'), name),
        None => false,
    }
}

/// Whether the Cookie header has a cookie of that name; without a header there
/// is none.
pub fn has_cookie(header_value: Option<&str>, name: &str) -> (r: bool)
    ensures
        r == present(text::opt_text(header_value), name@),
{
    let header = match header_value {
        Some(header) => header,
        None => {
            return false;
        },
    };
    let chars = to_chars(header);
    let name_chars = to_chars(name);
    let pairs = split_at_each(&chars, ';');
    let ghost all = text::split(header@, ';');
    for i in 0..pairs.len()
        invariant
            header_value == Some(header),
            all == text::split(header@, ';'),
            all == text::char_texts(pairs@),
            name_chars@ == name@,
            forall|j: int| 0 <= j < i ==> !pair_named(#[trigger] all[j], name@),
    {
        assert(all[i as int] == pairs@[i as int]@);
        match split_at_first(&pairs[i], '=') {
            Some((key, _)) => {
                if same_chars(trim(key), &name_chars) {
                    assert(pair_named(all[i as int], name@));
                    return true;
                }
            },
            None => {},
        }
    }
    false
}

/// The value does not matter: a cookie is there whatever it is set to.
pub proof fn value_does_not_matter(name: Seq<char>, value: Seq<char>)
    requires
        text::trimmed(name) == name,
        !name.contains(';'),
        !name.contains('='),
        !value.contains(';'),
    ensures
        present(Some(name + "="@ + value), name),
{
    reveal_strlit("=");
    let header = name + "="@ + value;
    assert(header[name.len() as int] == '=');
    assert forall|i: int| 0 <= i < header.len() implies header[i] != ';' by {
        if i < name.len() {
            assert(name.contains(name[i]));
        } else if i > name.len() {
            assert(value.contains(value[i - name.len() - 1]));
            assert(header[i] == value[i - name.len() - 1]);
        }
    }
    text::first_is_find(header, ';', header.len() as int);
    assert(text::split(header, ';') == seq![header]);
    assert forall|j: int| 0 <= j < name.len() implies header[j] != '=' by {
        assert(name.contains(name[j]));
    }
    text::first_is_find(header, '=', name.len() as int);
    assert(header.contains('='));
    assert(header.take(name.len() as int) == name);
    let pairs = text::split(header, ';');
    assert(pair_named(pairs[0], name));
    assert(some_pair_named(pairs, name));
}

/// A cookie is there exactly where one of the header's pairs has it: something
/// that comes to its name, whatever whitespace is around it, then `=`, then
/// anything.
pub proof fn a_cookie_is_a_pair(header: Seq<char>, name: Seq<char>)
    ensures
        present(Some(header), name) <==> exists|i: int, key: Seq<char>, value: Seq<char>|
            0 <= i < text::split(header, ';').len() && text::split(header, ';')[i]
                == #[trigger] (key.push('=') + value) && !key.contains('=') && text::trimmed(key)
                == name && #[trigger] is_piece(header, i),
        !present(None, name),
{
    let pairs = text::split(header, ';');
    if present(Some(header), name) {
        let i = choose|i: int| 0 <= i < pairs.len() && pair_named(#[trigger] pairs[i], name);
        let (key, value) = text::split_once(pairs[i], '=')->Some_0;
        text::split_once_divides(pairs[i], '=', key, value);
        assert(is_piece(header, i));
        assert(pairs[i] == key.push('=') + value);
    }
    if exists|i: int, key: Seq<char>, value: Seq<char>|
        0 <= i < pairs.len() && pairs[i] == #[trigger] (key.push('=') + value) && !key.contains(
            '=',
        ) && text::trimmed(key) == name && #[trigger] is_piece(header, i) {
        let (i, key, value) = choose|i: int, key: Seq<char>, value: Seq<char>|
            0 <= i < pairs.len() && pairs[i] == #[trigger] (key.push('=') + value)
                && !key.contains('=') && text::trimmed(key) == name && #[trigger] is_piece(
                header,
                i,
            );
        text::split_once_divides(pairs[i], '=', key, value);
        assert(pair_named(pairs[i], name));
    }
}

/// Whether a header has a piece of that number.
pub open spec fn is_piece(header: Seq<char>, i: int) -> bool {
    0 <= i < text::split(header, ';').len()
}

/// A cookie is there wherever it stands: a header made of two has the cookies of
/// both.
pub proof fn cookies_add_up(first: Seq<char>, second: Seq<char>, name: Seq<char>)
    ensures
        present(Some(first.push(';') + second), name) <==> present(Some(first), name) || present(
            Some(second),
            name,
        ),
{
    text::splitting_goes_on(first, ';', second);
    let a = text::split(first, ';');
    let b = text::split(second, ';');
    let all = a + b;
    if some_pair_named(all, name) {
        let i = choose|i: int| 0 <= i < all.len() && pair_named(#[trigger] all[i], name);
        if i < a.len() {
            assert(pair_named(a[i], name));
        } else {
            assert(pair_named(b[i - a.len()], name));
        }
    }
    if some_pair_named(a, name) {
        let i = choose|i: int| 0 <= i < a.len() && pair_named(#[trigger] a[i], name);
        assert(pair_named(all[i], name));
    }
    if some_pair_named(b, name) {
        let i = choose|i: int| 0 <= i < b.len() && pair_named(#[trigger] b[i], name);
        assert(pair_named(all[a.len() + i], name));
    }
}

} // verus!
