//! The request handed to a handler, and the parsing of query strings.
//!
//! A query string is cut at every `&`; each non-empty piece is cut at its
//! first `=` into a key and a value (a piece without `=` has an empty value);
//! both are percent-decoded, `+` standing for a space, and read as UTF-8 with
//! invalid sequences replaced. A key that comes back gets its values joined
//! by `,` in order of arrival.

use vstd::prelude::*;
use vstd::string::StringExecFns;
use vstd::utf8::{decode_utf8, encode_utf8, valid_utf8};
use http::HeaderMap;
use crate::params::Params;
use crate::text::{
    lemma_split_on_nonempty, lemma_split_on_step, lossy_string, split_on, string_from_utf8, utf8_lossy,
};

verus! {

/// The value of a hexadecimal digit, in either case.
pub open spec fn hex_digit(b: u8) -> Option<u8> {
    if 0x30 <= b && b <= 0x39 {
        Some((b - 0x30) as u8)
    } else if 0x61 <= b && b <= 0x66 {
        Some((b - 0x61 + 10) as u8)
    } else if 0x41 <= b && b <= 0x46 {
        Some((b - 0x41 + 10) as u8)
    } else {
        None
    }
}

/// The bytes that percent-decoding makes of `b`: `+` becomes a space, `%`
/// followed by two hexadecimal digits becomes the byte they spell, and any
/// other byte, a lone `%` included, stays as it is.
pub open spec fn percent_decode(b: Seq<u8>) -> Seq<u8>
    decreases b.len(),
{
    if b.len() == 0 {
        Seq::empty()
    } else if b[0] == 0x2b {
        seq![0x20u8] + percent_decode(b.skip(1))
    } else if b[0] == 0x25 && 2 < b.len() && hex_digit(b[1]) is Some && hex_digit(b[2]) is Some {
        seq![(hex_digit(b[1])->0 * 16 + hex_digit(b[2])->0) as u8] + percent_decode(b.skip(3))
    } else {
        seq![b[0]] + percent_decode(b.skip(1))
    }
}

/// The text that a percent-encoded component stands for: the decoded bytes
/// read as UTF-8, or, where they are not valid UTF-8, the text that
/// `String::from_utf8_lossy` makes of them.
pub open spec fn url_decoded(b: Seq<u8>) -> Seq<char> {
    let bytes = percent_decode(b);
    if valid_utf8(bytes) {
        decode_utf8(bytes)
    } else {
        utf8_lossy(bytes)
    }
}

/// The index of the first `b` in `s`, or the length of `s` when there is none.
pub open spec fn first_index_of(s: Seq<u8>, b: u8) -> int
    decreases s.len(),
{
    if s.len() == 0 {
        0
    } else if s[0] == b {
        0
    } else {
        1 + first_index_of(s.skip(1), b)
    }
}

/// The raw key of a query piece: what comes before its first `=`.
pub open spec fn piece_key(piece: Seq<u8>) -> Seq<u8> {
    piece.take(first_index_of(piece, 0x3d))
}

/// The raw value of a query piece: what comes after its first `=`, or nothing.
pub open spec fn piece_value(piece: Seq<u8>) -> Seq<u8> {
    let i = first_index_of(piece, 0x3d);
    if i < piece.len() {
        piece.skip(i + 1)
    } else {
        Seq::empty()
    }
}

/// `m` after one piece of a query string has been read into it.
pub open spec fn add_query_piece(m: Map<Seq<char>, Seq<char>>, piece: Seq<u8>) -> Map<
    Seq<char>,
    Seq<char>,
> {
    if piece.len() == 0 {
        m
    } else {
        merged_query(m, url_decoded(piece_key(piece)), url_decoded(piece_value(piece)))
    }
}

/// The map read from a sequence of query pieces, left to right.
pub open spec fn read_pieces(pieces: Seq<Seq<u8>>) -> Map<Seq<char>, Seq<char>>
    decreases pieces.len(),
{
    if pieces.len() == 0 {
        Map::empty()
    } else {
        add_query_piece(read_pieces(pieces.drop_last()), pieces.last())
    }
}

/// The parameters that a query string (given as its bytes) stands for.
pub open spec fn query_map(qs: Seq<u8>) -> Map<Seq<char>, Seq<char>> {
    read_pieces(split_on(qs, 0x26))
}

/// The value of a hexadecimal digit, if `b` is one.
pub fn hex(b: u8) -> (res: Option<u8>)
    ensures
        res == hex_digit(b),
{
    if b >= 0x30 && b <= 0x39 {
        Some(b - 0x30)
    } else if b >= 0x61 && b <= 0x66 {
        Some(b - 0x61 + 10)
    } else if b >= 0x41 && b <= 0x46 {
        Some(b - 0x41 + 10)
    } else {
        None
    }
}

/// Percent-decodes `s` and reads the result as UTF-8; where it is not valid
/// UTF-8, invalid sequences are replaced.
fn urldecode(s: &[u8]) -> (res: String)
    ensures
        res@ == url_decoded(s@),
        valid_utf8(percent_decode(s@)) ==> encode_utf8(res@) == percent_decode(s@),
{
    let mut out: Vec<u8> = Vec::with_capacity(s.len());
    let mut i: usize = 0;
    assert(s@.skip(0) =~= s@);
    while i < s.len()
        invariant
            i <= s@.len(),
            percent_decode(s@) == out@ + percent_decode(s@.skip(i as int)),
        decreases s@.len() - i,
    {
        let ghost rest = s@.skip(i as int);
        if s[i] == 0x2b {
            out.push(0x20);
            i += 1;
            assert(rest.skip(1) =~= s@.skip(i as int));
        } else if s[i] == 0x25 && s.len() - i > 2 {
            let h = hex(s[i + 1]);
            let l = hex(s[i + 2]);
            if h.is_some() && l.is_some() {
                let hv = h.unwrap();
                let lv = l.unwrap();
                out.push(hv * 16 + lv);
                i += 3;
                assert(rest.skip(3) =~= s@.skip(i as int));
            } else {
                out.push(s[i]);
                i += 1;
                assert(rest.skip(1) =~= s@.skip(i as int));
            }
        } else {
            out.push(s[i]);
            i += 1;
            assert(rest.skip(1) =~= s@.skip(i as int));
        }
        assert(percent_decode(s@) =~= out@ + percent_decode(s@.skip(i as int)));
    }
    assert(percent_decode(s@.skip(i as int)) =~= Seq::<u8>::empty());
    assert(out@ =~= percent_decode(s@));
    proof {
        if valid_utf8(out@) {
            vstd::utf8::decode_utf8_encode_utf8(out@);
        }
    }
    let copy = out.clone();
    assert(copy@ == out@);
    match string_from_utf8(copy) {
        Ok(text) => text,
        Err(_) => lossy_string(out.as_slice()),
    }
}

proof fn lemma_first_index_of(s: Seq<u8>, b: u8, j: int)
    requires
        0 <= j <= s.len(),
        forall|k: int| 0 <= k < j ==> s[k] != b,
        j == s.len() || s[j] == b,
    ensures
        first_index_of(s, b) == j,
    decreases j,
{
    if j > 0 {
        lemma_first_index_of(s.skip(1), b, j - 1);
    }
}

/// Reads one non-empty or empty query piece into `out`.
fn add_query_pair(out: &mut Params, piece: &[u8])
    ensures
        final(out)@ == add_query_piece(old(out)@, piece@),
{
    if piece.len() == 0 {
        return;
    }
    let mut j: usize = 0;
    while j < piece.len() && piece[j] != 0x3d
        invariant
            j <= piece@.len(),
            forall|k: int| 0 <= k < j ==> piece@[k] != 0x3d,
        decreases piece@.len() - j,
    {
        j += 1;
    }
    proof {
        lemma_first_index_of(piece@, 0x3d, j as int);
    }
    let key = urldecode(&piece[0..j]);
    let value = if j < piece.len() {
        urldecode(&piece[j + 1..piece.len()])
    } else {
        urldecode(&piece[j..j])
    };
    proof {
        assert(piece@.subrange(0, j as int) =~= piece_key(piece@));
        if j < piece.len() {
            assert(piece@.subrange(j + 1, piece@.len() as int) =~= piece_value(piece@));
        } else {
            assert(piece@.subrange(j as int, j as int) =~= piece_value(piece@));
        }
    }
    merge_query_value(out, key, value);
}

/// The query map after a decoded key and value have been read into it.
pub open spec fn merged_query(m: Map<Seq<char>, Seq<char>>, k: Seq<char>, v: Seq<char>) -> Map<
    Seq<char>,
    Seq<char>,
> {
    if m.contains_key(k) {
        m.insert(k, m[k] + seq![','] + v)
    } else {
        m.insert(k, v)
    }
}

/// Reads one decoded key and value into a query map: a new key gets the
/// value, a key already there gets `,` and the value appended.
pub fn merge_query_value(out: &mut Params, key: String, value: String)
    ensures
        final(out)@ == merged_query(old(out)@, key@, value@),
{
    let merged = match out.get(key.as_str()) {
        Some(existing) => {
            let mut merged = existing.clone();
            proof {
                reveal_strlit(",");
                assert(","@ =~= seq![',']);
            }
            merged.append(",");
            merged.append(value.as_str());
            merged
        },
        None => value,
    };
    out.insert(key, merged);
}

/// A parsed HTTP request, as the engine hands it to a handler.
#[derive(Debug)]
pub struct Request {
    pub method: String,
    pub path: String,
    pub query_string: String,
    /// Parsed query parameters: `?a=1&b=2` gives `{"a": "1", "b": "2"}`; the
    /// values of a key that comes back are joined by `,`.
    pub query_params: Params,
    /// The header lines as received: lower-case name and raw value.
    pub headers: HeaderMap,
    /// Path parameters extracted by the router, e.g. `/users/{id}` gives `{"id": "42"}`.
    pub path_params: Params,
    pub body: Vec<u8>,
    /// The peer's socket address, written out.
    pub remote_addr: Option<String>,
}

impl Request {
    /// Parses a query string into a flat map; the values of a key that comes
    /// back are joined by `,`.
    pub fn parse_query(qs: &str) -> (out: Params)
        ensures
            out@ == query_map(encode_utf8(qs@)),
    {
        let mut out = Params::new();
        if qs.is_empty() {
            proof {
                assert(encode_utf8(qs@) =~= Seq::<u8>::empty());
                let pieces = split_on(encode_utf8(qs@), 0x26);
                assert(pieces.drop_last() =~= Seq::<Seq<u8>>::empty());
                assert(read_pieces(pieces.drop_last()) == Map::<Seq<char>, Seq<char>>::empty());
            }
            return out;
        }
        let bytes = qs.as_bytes();
        let mut start: usize = 0;
        let mut i: usize = 0;
        while i < bytes.len()
            invariant
                start <= i <= bytes@.len(),
                split_on(bytes@.take(i as int), 0x26).len() >= 1,
                split_on(bytes@.take(i as int), 0x26).last() == bytes@.subrange(
                    start as int,
                    i as int,
                ),
                out@ == read_pieces(split_on(bytes@.take(i as int), 0x26).drop_last()),
            decreases bytes@.len() - i,
        {
            proof {
                lemma_split_on_step(bytes@, 0x26, i as int);
                lemma_split_on_nonempty(bytes@.take(i + 1), 0x26);
            }
            let ghost prev = split_on(bytes@.take(i as int), 0x26);
            if bytes[i] == 0x26 {
                add_query_pair(&mut out, &bytes[start..i]);
                start = i + 1;
                proof {
                    let next = split_on(bytes@.take(i + 1), 0x26);
                    assert(next.drop_last() =~= prev);
                    assert(bytes@.subrange(start as int, i + 1) =~= Seq::<u8>::empty());
                }
            } else {
                proof {
                    let next = split_on(bytes@.take(i + 1), 0x26);
                    assert(next.drop_last() =~= prev.drop_last());
                    assert(bytes@.subrange(start as int, i + 1) =~= bytes@.subrange(
                        start as int,
                        i as int,
                    ).push(bytes@[i as int]));
                }
            }
            i += 1;
        }
        add_query_pair(&mut out, &bytes[start..i]);
        proof {
            assert(bytes@.take(i as int) =~= bytes@);
        }
        out
    }
}

// ---------------------------------------------------------------------------
// Laws of query parsing
// ---------------------------------------------------------------------------

/// Every `%` followed by two hexadecimal digits decodes to the byte they
/// spell, whatever that byte is (`%26` to `&`, `%25` to `%`, `%00` to 0),
/// and decoding goes on after the three bytes.
pub proof fn law_percent_escape_decodes(h: u8, l: u8, rest: Seq<u8>)
    requires
        hex_digit(h) is Some,
        hex_digit(l) is Some,
    ensures
        percent_decode(seq![0x25u8, h, l] + rest) == seq![(hex_digit(h)->0 * 16 + hex_digit(l)->0) as u8]
            + percent_decode(rest),
{
    let b = seq![0x25u8, h, l] + rest;
    assert(b[0] == 0x25 && b[1] == h && b[2] == l);
    assert(b.skip(3) =~= rest);
}

/// A `+` decodes to a space, and decoding goes on after it.
pub proof fn law_plus_decodes_to_space(rest: Seq<u8>)
    ensures
        percent_decode(seq![0x2bu8] + rest) == seq![0x20u8] + percent_decode(rest),
{
    let b = seq![0x2bu8] + rest;
    assert(b[0] == 0x2b);
    assert(b.skip(1) =~= rest);
}

/// The hexadecimal digits are `0`-`9`, `a`-`f` and `A`-`F`, worth 0 to 15.
pub proof fn law_hex_digit_values(b: u8)
    ensures
        48 <= b <= 57 ==> hex_digit(b) == Some((b - 48) as u8),
        97 <= b <= 102 ==> hex_digit(b) == Some((b - 87) as u8),
        65 <= b <= 70 ==> hex_digit(b) == Some((b - 55) as u8),
        !(48 <= b <= 57 || 97 <= b <= 102 || 65 <= b <= 70) ==> hex_digit(b) is None,
{
}

/// Bytes without `%` or `+` percent-decode to themselves.
pub proof fn law_plain_bytes_decode_to_themselves(b: Seq<u8>)
    requires
        forall|i: int| 0 <= i < b.len() ==> #[trigger] b[i] != 0x25 && b[i] != 0x2b,
    ensures
        percent_decode(b) == b,
    decreases b.len(),
{
    if b.len() > 0 {
        let rest = b.skip(1);
        assert forall|i: int| 0 <= i < rest.len() implies #[trigger] rest[i] != 0x25 && rest[i] != 0x2b by {
            assert(rest[i] == b[i + 1]);
        }
        law_plain_bytes_decode_to_themselves(rest);
        assert(seq![b[0]] + rest =~= b);
    }
}

/// The keys of a parsed query are exactly the decoded keys of its non-empty
/// pieces.
pub proof fn law_query_keys(pieces: Seq<Seq<u8>>, k: Seq<char>)
    ensures
        read_pieces(pieces).contains_key(k) <==> exists|i: int|
            0 <= i < pieces.len() && pieces[i].len() > 0 && url_decoded(piece_key(#[trigger] pieces[i]))
                == k,
    decreases pieces.len(),
{
    if pieces.len() > 0 {
        let prefix = pieces.drop_last();
        law_query_keys(prefix, k);
        if read_pieces(pieces).contains_key(k) {
            let last = pieces.last();
            if last.len() > 0 && url_decoded(piece_key(last)) == k {
                assert(pieces[pieces.len() - 1] == last);
            } else {
                let i = choose|i: int|
                    0 <= i < prefix.len() && prefix[i].len() > 0 && url_decoded(piece_key(#[trigger] prefix[i])) == k;
                assert(pieces[i] == prefix[i]);
            }
        }
        if exists|i: int|
            0 <= i < pieces.len() && pieces[i].len() > 0 && url_decoded(piece_key(#[trigger] pieces[i])) == k {
            let i = choose|i: int|
                0 <= i < pieces.len() && pieces[i].len() > 0 && url_decoded(piece_key(#[trigger] pieces[i])) == k;
            if i < pieces.len() - 1 {
                assert(prefix[i] == pieces[i]);
            }
        }
    }
}

/// Appending a piece whose key is new adds exactly that key with its value;
/// appending one whose key is present appends `,` and the value to it.
pub proof fn law_query_merge(pieces: Seq<Seq<u8>>, piece: Seq<u8>)
    requires
        piece.len() > 0,
    ensures
        ({
            let before = read_pieces(pieces);
            let after = read_pieces(pieces.push(piece));
            let k = url_decoded(piece_key(piece));
            let v = url_decoded(piece_value(piece));
            &&& before.contains_key(k) ==> after == before.insert(k, before[k] + seq![','] + v)
            &&& !before.contains_key(k) ==> after == before.insert(k, v)
        }),
{
    assert(pieces.push(piece).drop_last() =~= pieces);
}

} // verus!
