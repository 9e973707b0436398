//! HTTP/1.1 request-head parser: request line and header fields.

use vstd::prelude::*;
use vstd::hash_map::StringHashMap;
use vstd::utf8::{decode_utf8, valid_utf8};
use crate::text::{
    chars_of, find_char, position, split, string_of, text_of_bytes, trim, trim_end,
    trim_end_window, trim_window,
};

verus! {

/// A parsed request head. `properties` maps each field name to the value of
/// its last occurrence.
pub struct Http {
    pub location: String,
    pub method: String,
    pub properties: StringHashMap<String>,
}

/// An `Http` as plain values.
pub struct HttpView {
    pub location: Seq<char>,
    pub method: Seq<char>,
    pub properties: Map<Seq<char>, Seq<char>>,
}

impl View for Http {
    type V = HttpView;

    open spec fn view(&self) -> HttpView {
        HttpView {
            location: self.location@,
            method: self.method@,
            properties: self.properties@.map_values(|v: String| v@),
        }
    }
}

impl Default for Http {
    fn default() -> (r: Self)
        ensures
            r@ == empty_head(),
    {
        let r = Http {
            location: String::new(),
            method: String::new(),
            properties: StringHashMap::new(),
        };
        assert(r@.properties =~= Map::empty());
        r
    }
}

/// Why a request head was rejected.
#[derive(Debug, Clone, Copy, PartialEq, Eq, Structural)]
pub enum ParseError {
    /// Not UTF-8, a request line of fewer than three parts, or a header line
    /// without a colon.
    MalformedRequest,
    /// The third part of the request line is not `HTTP/1.1`.
    UnsupportedVersion,
}

/// The head with no method, no location and no fields.
pub open spec fn empty_head() -> HttpView {
    HttpView { location: Seq::empty(), method: Seq::empty(), properties: Map::empty() }
}

/// The only protocol version that is accepted.
pub open spec fn http_version() -> Seq<char> {
    seq!['H', 'T', 'T', 'P', '/', '1', '.', '1']
}

/// Method and location of a request line: the text before the first space
/// and the text between the first and the second; what follows the second
/// space must be the version. A line with fewer than two spaces is malformed.
pub open spec fn request_line(line: Seq<char>) -> Result<(Seq<char>, Seq<char>), ParseError> {
    let i = position(line, ' ');
    let rest = line.subrange(i + 1, line.len() as int);
    let j = position(rest, ' ');
    if i >= line.len() || j >= rest.len() {
        Err(ParseError::MalformedRequest)
    } else if rest.subrange(j + 1, rest.len() as int) == http_version() {
        Ok((line.subrange(0, i), rest.subrange(0, j)))
    } else {
        Err(ParseError::UnsupportedVersion)
    }
}

/// Name and value of a header line: the text before its first colon and the
/// text behind it, both trimmed; `None` for a line without a colon.
pub open spec fn header_field(line: Seq<char>) -> Option<(Seq<char>, Seq<char>)> {
    let i = position(line, ':');
    if i >= line.len() {
        None
    } else {
        Some((trim(line.subrange(0, i)), trim(line.subrange(i + 1, line.len() as int))))
    }
}

/// The fields of the given header lines; a later line overrides an earlier
/// one of the same name.
pub open spec fn header_fields(lines: Seq<Seq<char>>) -> Map<Seq<char>, Seq<char>>
    decreases lines.len(),
{
    if lines.len() == 0 {
        Map::empty()
    } else {
        let f = header_field(trim_end(lines.last())).unwrap();
        header_fields(lines.drop_last()).insert(f.0, f.1)
    }
}

/// The lines of `text`: the pieces between line feeds. An empty piece behind
/// the last line feed is no line, so that empty text has no lines.
pub open spec fn lines(text: Seq<char>) -> Seq<Seq<char>> {
    let pieces = split(text, '\n');
    if pieces.last().len() == 0 {
        pieces.drop_last()
    } else {
        pieces
    }
}

/// What a request head given as text parses to. The text is cut into lines
/// and each line is trimmed at its end; the first is the request line, the
/// others are header lines. A failure of the request line comes before one of
/// a header line. Text without lines is the empty head.
pub open spec fn parse_text(text: Seq<char>) -> Result<HttpView, ParseError> {
    let lines = lines(text);
    if lines.len() == 0 {
        Ok(empty_head())
    } else {
        match request_line(trim_end(lines[0])) {
            Err(e) => Err(e),
            Ok((method, location)) => {
                if forall|i: int| 1 <= i < lines.len() ==> (#[trigger] header_field(
                    trim_end(lines[i]),
                )) is Some {
                    Ok(
                        HttpView {
                            location,
                            method,
                            properties: header_fields(lines.subrange(1, lines.len() as int)),
                        },
                    )
                } else {
                    Err(ParseError::MalformedRequest)
                }
            },
        }
    }
}

/// What a request head given as bytes parses to.
pub open spec fn parse_head(block: Seq<u8>) -> Result<HttpView, ParseError> {
    if valid_utf8(block) {
        parse_text(decode_utf8(block))
    } else {
        Err(ParseError::MalformedRequest)
    }
}

/// Whether `v[from..to]` spells the accepted version.
fn is_http_version(v: &Vec<char>, from: usize, to: usize) -> (b: bool)
    requires
        from <= to <= v.len(),
    ensures
        b == (v@.subrange(from as int, to as int) == http_version()),
{
    let ghost w = v@.subrange(from as int, to as int);
    if to - from != 8 {
        assert(http_version().len() == 8);
        return false;
    }
    let b = v[from] == 'H' && v[from + 1] == 'T' && v[from + 2] == 'T' && v[from + 3] == 'P'
        && v[from + 4] == '/' && v[from + 5] == '1' && v[from + 6] == '.' && v[from + 7] == '1';
    proof {
        if b {
            assert(w =~= http_version());
        }
    }
    b
}

/// Method and location of the request line `v[from..to]`.
fn parse_request_line(v: &Vec<char>, from: usize, to: usize) -> (res: Result<
    (String, String),
    ParseError,
>)
    requires
        from <= to <= v.len(),
    ensures
        match res {
            Ok(pair) => request_line(v@.subrange(from as int, to as int)) == Ok::<
                (Seq<char>, Seq<char>),
                ParseError,
            >((pair.0@, pair.1@)),
            Err(e) => request_line(v@.subrange(from as int, to as int)) == Err::<
                (Seq<char>, Seq<char>),
                ParseError,
            >(e),
        },
{
    let ghost line = v@.subrange(from as int, to as int);
    let s1 = find_char(v, from, to, ' ');
    if s1 == to {
        return Err(ParseError::MalformedRequest);
    }
    let ghost rest = line.subrange(s1 - from + 1, line.len() as int);
    assert(rest =~= v@.subrange(s1 as int + 1, to as int));
    let s2 = find_char(v, s1 + 1, to, ' ');
    if s2 == to {
        return Err(ParseError::MalformedRequest);
    }
    assert(rest.subrange(s2 - s1, rest.len() as int) =~= v@.subrange(s2 as int + 1, to as int));
    if !is_http_version(v, s2 + 1, to) {
        return Err(ParseError::UnsupportedVersion);
    }
    let method = string_of(v, from, s1);
    let location = string_of(v, s1 + 1, s2);
    assert(method@ =~= line.subrange(0, s1 - from));
    assert(location@ =~= rest.subrange(0, s2 - s1 - 1));
    Ok((method, location))
}

/// Name and value of the header line `v[from..to]`.
fn parse_header_line(v: &Vec<char>, from: usize, to: usize) -> (res: Option<(String, String)>)
    requires
        from <= to <= v.len(),
    ensures
        match res {
            Some(pair) => header_field(v@.subrange(from as int, to as int)) == Some(
                (pair.0@, pair.1@),
            ),
            None => header_field(v@.subrange(from as int, to as int)) is None,
        },
{
    let ghost line = v@.subrange(from as int, to as int);
    let c = find_char(v, from, to, ':');
    if c == to {
        return None;
    }
    assert(line.subrange(0, c - from) =~= v@.subrange(from as int, c as int));
    assert(line.subrange(c - from + 1, line.len() as int) =~= v@.subrange(
        c as int + 1,
        to as int,
    ));
    let (na, nb) = trim_window(v, from, c);
    let (va, vb) = trim_window(v, c + 1, to);
    Some((string_of(v, na, nb), string_of(v, va, vb)))
}

/// The end of the piece that starts at `from` in `v[..to]`: the index of its
/// line feed, or `to` for the last piece.
fn line_end(v: &Vec<char>, from: usize, to: usize) -> (q: usize)
    requires
        from <= to <= v.len(),
    ensures
        from <= q <= to,
        split(v@.subrange(from as int, to as int), '\n') == seq![
            v@.subrange(from as int, q as int),
        ] + pieces_behind(v@, q as int, to as int),
{
    let ghost w = v@.subrange(from as int, to as int);
    let q = find_char(v, from, to, '\n');
    proof {
        assert(w.subrange(0, q - from) =~= v@.subrange(from as int, q as int));
        if q < to {
            assert(w.subrange(q - from + 1, w.len() as int) =~= v@.subrange(
                q as int + 1,
                to as int,
            ));
        }
    }
    q
}

/// The pieces of `s[..to]` behind the line feed at `q`; none if `q` is the
/// end.
pub open spec fn pieces_behind(s: Seq<char>, q: int, to: int) -> Seq<Seq<char>> {
    if q < to {
        split(s.subrange(q + 1, to), '\n')
    } else {
        Seq::empty()
    }
}

/// Parses a request head: the bytes from the request line through the last
/// header line, without the blank line that ends the head.
///
/// The block must be UTF-8. Its lines end in a line feed, and whitespace at
/// the end of a line, a carriage return for one, does not count. The first
/// line holds method, location and version between single spaces; each other
/// line holds a name, a colon and a value, both trimmed. Of two fields with
/// one name the later one stays. A block without lines gives the empty head.
pub fn parse(block: Vec<u8>) -> (res: Result<Http, ParseError>)
    ensures
        match res {
            Ok(http) => parse_head(block@) == Ok::<HttpView, ParseError>(http@),
            Err(e) => parse_head(block@) == Err::<HttpView, ParseError>(e),
        },
{
    let text = match text_of_bytes(block) {
        Some(text) => text,
        None => {
            return Err(ParseError::MalformedRequest);
        },
    };
    let chars = chars_of(text.as_str());
    let n = chars.len();
    assert(chars@.subrange(0, n as int) =~= chars@);
    let ghost pieces = split(chars@, '\n');
    let mut properties: StringHashMap<String> = StringHashMap::new();
    assert(properties@.map_values(|v: String| v@) =~= Map::empty());
    if n == 0 {
        return Ok(Http { location: String::new(), method: String::new(), properties });
    }
    let mut q = line_end(&chars, 0, n);
    let end = trim_end_window(&chars, 0, q);
    let (method, location) = match parse_request_line(&chars, 0, end) {
        Ok(pair) => pair,
        Err(e) => {
            return Err(e);
        },
    };
    let ghost mut done: Seq<Seq<char>> = seq![pieces[0]];
    while q < n && n - q > 1
        invariant
            q <= n == chars.len(),
            done.len() >= 1,
            pieces == done + pieces_behind(chars@, q as int, n as int),
            q == n ==> done.last().len() > 0,
            forall|i: int|
                1 <= i < done.len() ==> (#[trigger] header_field(trim_end(done[i]))) is Some,
            properties@.map_values(|v: String| v@) == header_fields(
                done.subrange(1, done.len() as int),
            ),
            parse_head(block@) == parse_text(chars@),
            pieces == split(chars@, '\n'),
            request_line(trim_end(pieces[0])) == Ok::<(Seq<char>, Seq<char>), ParseError>(
                (method@, location@),
            ),
        decreases n - q,
    {
        let p = q + 1;
        q = line_end(&chars, p, n);
        let ghost line = chars@.subrange(p as int, q as int);
        let end = trim_end_window(&chars, p, q);
        let (name, value) = match parse_header_line(&chars, p, end) {
            Some(pair) => pair,
            None => {
                assert(lines(chars@)[done.len() as int] == line);
                return Err(ParseError::MalformedRequest);
            },
        };
        properties.insert(name, value);
        proof {
            let grown = done.push(line);
            let fields = grown.subrange(1, grown.len() as int);
            assert(fields.drop_last() =~= done.subrange(1, done.len() as int));
            done = grown;
        }
    }
    proof {
        assert(lines(chars@) == done);
    }
    Ok(Http { location, method, properties })
}

} // verus!
