//! Headers: what `http` accepts as header names and values, and the
//! `http::HeaderMap` seen as its lines, each a (name, value) pair. A name may
//! have several values; the lines of one name stay together, in the order
//! they were added, and the names come in the order they first arrived.

use vstd::prelude::*;
use vstd::utf8::encode_utf8;
use http::{HeaderMap, HeaderValue};

verus! {

/// A byte that `http` allows in a header value.
pub open spec fn header_value_byte(b: u8) -> bool {
    (b >= 32 && b != 127) || b == 9
}

/// Bytes that `http` accepts as a header value.
pub open spec fn valid_header_value(bytes: Seq<u8>) -> bool {
    forall|i: int| 0 <= i < bytes.len() ==> header_value_byte(#[trigger] bytes[i])
}

/// A byte that `http` accepts in a header name: the token characters of
/// HTTP/1 (`!#$%&'*+-.^_`|~`, digits and letters).
pub open spec fn header_name_byte(b: u8) -> bool {
    ||| b == 33
    ||| 35 <= b <= 39
    ||| b == 42
    ||| b == 43
    ||| b == 45
    ||| b == 46
    ||| 48 <= b <= 57
    ||| 65 <= b <= 90
    ||| 94 <= b <= 122
    ||| b == 124
    ||| b == 126
}

/// `b` in ASCII lower case.
pub open spec fn ascii_lower(b: u8) -> u8 {
    if 65 <= b <= 90 {
        (b + 32) as u8
    } else {
        b
    }
}

/// The name `http::HeaderName::from_bytes` makes of `src`: its bytes in
/// lower case, if there are 1 to 65535 of them and each is a token
/// character; otherwise none.
pub open spec fn canonical_header_name(src: Seq<u8>) -> Option<Seq<char>> {
    if 1 <= src.len() <= 65535 && forall|i: int| 0 <= i < src.len() ==> header_name_byte(
        #[trigger] src[i],
    ) {
        Some(Seq::new(src.len(), |i: int| ascii_lower(src[i]) as char))
    } else {
        None
    }
}

/// Text made of lower-case token characters is its own canonical name.
pub proof fn lemma_lower_token_is_canonical(s: Seq<char>)
    requires
        1 <= s.len() <= 65535,
        forall|i: int|
            0 <= i < s.len() ==> (#[trigger] s[i] as u32) < 128 && header_name_byte(s[i] as u8) && !(
            65 <= (s[i] as u32) <= 90),
    ensures
        canonical_header_name(encode_utf8(s)) == Some(s),
{
    assert forall|i| 0 <= i < s.len() implies '\0' <= #[trigger] s[i] <= '\u{7f}' by {
        vstd::utf8::char_u32_cast(s[i], s[i] as u32);
        assert(('\u{7f}' as u32) == 127);
    }
    assert(vstd::utf8::is_ascii_chars(s));
    vstd::utf8::is_ascii_chars_encode_utf8(s);
    let b = encode_utf8(s);
    assert forall|i: int| 0 <= i < b.len() implies header_name_byte(#[trigger] b[i]) by {
        assert(s[i] as u8 == b[i]);
    }
    assert(Seq::new(b.len(), |i: int| ascii_lower(b[i]) as char) =~= s) by {
        assert forall|i: int| 0 <= i < b.len() implies ascii_lower(b[i]) as char == s[i] by {
            assert(s[i] as u8 == b[i]);
            vstd::utf8::char_u32_cast(s[i], s[i] as u32);
        }
    }
}

/// The canonical name `http` makes is made of lower-case token characters,
/// so it is its own canonical name.
pub proof fn lemma_canonical_is_canonical(src: Seq<u8>)
    requires
        canonical_header_name(src) is Some,
    ensures
        canonical_header_name(encode_utf8(canonical_header_name(src)->0)) == canonical_header_name(src),
{
    let c = canonical_header_name(src)->0;
    assert forall|i: int| 0 <= i < c.len() implies (#[trigger] c[i] as u32) < 128 && header_name_byte(
        c[i] as u8,
    ) && !(65 <= (c[i] as u32) <= 90) by {
        assert(header_name_byte(src[i]));
        assert(c[i] == ascii_lower(src[i]) as char);
    }
    lemma_lower_token_is_canonical(c);
}

/// Calls `http::HeaderName::from_bytes` and gives back the name it makes
/// (`HeaderName::as_str`). As the `http` source shows (`parse_hdr` and its
/// `HEADER_CHARS` table), it accepts 1 to 65535 token characters and lowers
/// their case, standard names included.
#[verifier::external_body]
pub(crate) fn http_header_name_of(src: &[u8]) -> (res: Option<String>)
    ensures
        match res {
            Some(name) => canonical_header_name(src@) == Some(name@),
            None => canonical_header_name(src@) is None,
        },
{
    match http::HeaderName::from_bytes(src) {
        Ok(name) => Some(name.as_str().to_owned()),
        Err(_) => None,
    }
}

/// The (name, value) views of a list of lines.
pub open spec fn line_views(ls: Seq<(String, Vec<u8>)>) -> Seq<(Seq<char>, Seq<u8>)> {
    ls.map_values(|l: (String, Vec<u8>)| (l.0@, l.1@))
}

/// The position of the last line named `name`, or -1 if there is none.
pub open spec fn last_line_of<V>(ls: Seq<(Seq<char>, V)>, name: Seq<char>) -> int
    decreases ls.len(),
{
    if ls.len() == 0 {
        -1
    } else if ls.last().0 == name {
        ls.len() - 1
    } else {
        last_line_of(ls.drop_last(), name)
    }
}

/// `ls` with the line (`name`, `value`) added: right after the last line of
/// that name, or at the end if there is none.
pub open spec fn appended<V>(ls: Seq<(Seq<char>, V)>, name: Seq<char>, value: V) -> Seq<(Seq<char>, V)> {
    let p = last_line_of(ls, name);
    if p < 0 {
        ls.push((name, value))
    } else {
        ls.insert(p + 1, (name, value))
    }
}

/// The values of the lines named `name`, in order.
pub open spec fn values_of<V>(ls: Seq<(Seq<char>, V)>, name: Seq<char>) -> Seq<V>
    decreases ls.len(),
{
    if ls.len() == 0 {
        Seq::empty()
    } else {
        let prev = values_of(ls.drop_last(), name);
        if ls.last().0 == name {
            prev.push(ls.last().1)
        } else {
            prev
        }
    }
}

pub(crate) proof fn lemma_last_line_of<V>(ls: Seq<(Seq<char>, V)>, name: Seq<char>)
    ensures
        -1 <= last_line_of(ls, name) < ls.len(),
        last_line_of(ls, name) >= 0 ==> ls[last_line_of(ls, name)].0 == name,
        forall|q: int| last_line_of(ls, name) < q < ls.len() ==> #[trigger] ls[q].0 != name,
    decreases ls.len(),
{
    if ls.len() > 0 && ls.last().0 != name {
        lemma_last_line_of(ls.drop_last(), name);
        assert forall|q: int| last_line_of(ls, name) < q < ls.len() implies #[trigger] ls[q].0 != name by {
            if q < ls.len() - 1 {
                assert(ls.drop_last()[q] == ls[q]);
            }
        }
    }
}

/// An append adds exactly one line.
pub proof fn lemma_appended_len<V>(ls: Seq<(Seq<char>, V)>, name: Seq<char>, value: V)
    ensures
        appended(ls, name, value).len() == ls.len() + 1,
{
    lemma_last_line_of(ls, name);
}

proof fn lemma_values_of_concat<V>(a: Seq<(Seq<char>, V)>, b: Seq<(Seq<char>, V)>, name: Seq<char>)
    ensures
        values_of(a + b, name) == values_of(a, name) + values_of(b, name),
    decreases b.len(),
{
    if b.len() == 0 {
        assert(a + b =~= a);
        assert(values_of(a, name) + values_of(b, name) =~= values_of(a, name));
    } else {
        lemma_values_of_concat(a, b.drop_last(), name);
        assert((a + b).drop_last() =~= a + b.drop_last());
        assert((a + b).last() == b.last());
        if b.last().0 == name {
            assert(values_of(a, name) + values_of(b, name) =~= (values_of(a, name) + values_of(
                b.drop_last(),
                name,
            )).push(b.last().1));
        }
    }
}

proof fn lemma_values_of_none<V>(ls: Seq<(Seq<char>, V)>, name: Seq<char>)
    requires
        forall|q: int| 0 <= q < ls.len() ==> #[trigger] ls[q].0 != name,
    ensures
        values_of(ls, name) == Seq::<V>::empty(),
    decreases ls.len(),
{
    if ls.len() > 0 {
        assert forall|q: int| 0 <= q < ls.drop_last().len() implies #[trigger] ls.drop_last()[q].0
            != name by {
            assert(ls.drop_last()[q] == ls[q]);
        }
        lemma_values_of_none(ls.drop_last(), name);
        assert(ls[ls.len() - 1].0 != name);
    }
}

/// Adding a line keeps the values of each name in order: the new value comes
/// after those its name had, and every other name keeps its values.
pub proof fn law_append_keeps_order<V>(
    ls: Seq<(Seq<char>, V)>,
    name: Seq<char>,
    value: V,
    other: Seq<char>,
)
    ensures
        values_of(appended(ls, name, value), other) == if other == name {
            values_of(ls, name).push(value)
        } else {
            values_of(ls, other)
        },
{
    lemma_last_line_of(ls, name);
    let p = last_line_of(ls, name);
    let e = seq![(name, value)];
    if p >= 0 {
        let head = ls.take(p + 1);
        let tail = ls.skip(p + 1);
        assert(ls =~= head + tail);
        assert(appended(ls, name, value) =~= head + e + tail);
        lemma_values_of_concat(head + e, tail, other);
        lemma_values_of_concat(head, e, other);
        lemma_values_of_concat(head, tail, other);
        assert(e.drop_last() =~= Seq::<(Seq<char>, V)>::empty());
        assert(values_of(e.drop_last(), other) =~= Seq::<V>::empty());
        assert(e.last() == (name, value));
        if other == name {
            assert(values_of(e, other) =~= seq![value]);
        } else {
            assert(values_of(e, other) =~= Seq::<V>::empty());
        }
        assert(head + e + tail =~= (head + e) + tail);
        if other == name {
            assert forall|q: int| 0 <= q < tail.len() implies #[trigger] tail[q].0 != name by {
                assert(tail[q] == ls[p + 1 + q]);
            }
            lemma_values_of_none(tail, name);
            assert(values_of(ls, name) =~= values_of(head, name));
            assert(values_of(appended(ls, name, value), other) =~= values_of(head, name).push(value));
        } else {
            assert(values_of(e, other) =~= Seq::<V>::empty());
            assert(values_of(appended(ls, name, value), other) =~= values_of(ls, other));
        }
    } else {
        assert(appended(ls, name, value).drop_last() =~= ls);
    }
}

// ---------------------------------------------------------------------------
// `http::HeaderMap`, as the library uses it
// ---------------------------------------------------------------------------

/// `http::HeaderValue`, carried as an opaque value.
#[verifier::external_type_specification]
#[verifier::external_body]
pub struct ExHeaderValue(HeaderValue);

/// `http::HeaderMap`, carried as an opaque value; what the library knows of
/// one is its lines, named below.
#[verifier::external_type_specification]
#[verifier::external_body]
#[verifier::reject_recursive_types(T)]
pub struct ExHeaderMap<T>(HeaderMap<T>);

/// The lines of a header map in the order its `iter` yields them: each
/// name (`as_str`) with one of its values (`as_bytes`). The documentation
/// calls that order arbitrary but fixed for a version; in the source of the
/// version used, `iter` walks the names in the order they first came, each
/// with its values in the order they were added.
pub uninterp spec fn header_lines(m: HeaderMap) -> Seq<(Seq<char>, Seq<u8>)>;

/// The fewest distinct names with which `HeaderMap::append` can run out of
/// room: it panics when its table would grow past 2^15 slots, and (as
/// `try_reserve_one` shows) that takes a table of 2^15 slots already holding
/// at least 2^15 / 5 names.
pub const HEADER_MAP_ROOM: usize = 6554;

/// [`HEADER_MAP_ROOM`] as a number.
pub open spec fn header_map_room() -> nat {
    HEADER_MAP_ROOM as nat
}

/// Calls `HeaderMap::new`: a map with no lines.
#[verifier::external_body]
pub(crate) fn header_map_new() -> (m: HeaderMap)
    ensures
        header_lines(m) == Seq::<(Seq<char>, Seq<u8>)>::empty(),
{
    HeaderMap::new()
}

/// Calls `HeaderMap::append` with the name and value that `HeaderName::from_bytes`
/// and `HeaderValue::from_str` make of `name` and `value`. As the `http`
/// source shows, the value goes after the values the name has (the map
/// keeps each name's values in a list, in order, and the names in the order
/// they first came), or as a new last name. The `requires` has the name
/// already canonical and the value acceptable, so that both conversions
/// succeed, and keeps the map well below the size at which `append` panics
/// (a map has no more names than lines).
#[verifier::external_body]
pub(crate) fn header_map_append(m: &mut HeaderMap, name: &str, value: &str)
    requires
        canonical_header_name(encode_utf8(name@)) == Some(name@),
        valid_header_value(encode_utf8(value@)),
        header_lines(*old(m)).len() < header_map_room(),
    ensures
        header_lines(*final(m)) == appended(header_lines(*old(m)), name@, encode_utf8(value@)),
{
    let name = http::HeaderName::from_bytes(name.as_bytes()).expect("a canonical header name");
    let value = HeaderValue::from_str(value).expect("a valid header value");
    m.append(name, value);
}

/// Calls `HeaderMap::iter` and hands out its lines in order: each name
/// (`HeaderName::as_str`) with one of its values (`HeaderValue::as_bytes`).
#[verifier::external_body]
pub(crate) fn header_map_lines(m: &HeaderMap) -> (res: Vec<(String, Vec<u8>)>)
    ensures
        line_views(res@) == header_lines(*m),
{
    m.iter().map(|(k, v)| (k.as_str().to_owned(), v.as_bytes().to_vec())).collect()
}

} // verus!
