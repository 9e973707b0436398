//! Formatting a request head, and the proof that parsing gives back what was
//! formatted.

use vstd::prelude::*;
use vstd::utf8::{encode_utf8, encode_utf8_decode_utf8, encode_utf8_valid_utf8};
use crate::http1::{
    header_field, header_fields, http_version, lines, parse_head, parse_text, request_line,
    HttpView, ParseError,
};
use crate::text::{
    is_whitespace, lemma_position_is, lemma_split_one, lemma_split_push, lemma_trim_end,
    lemma_trim_end_is, lemma_trim_of_trim_end, lemma_trim_padded, split, trim, trim_end,
};

verus! {

/// A header field: its name and its value.
pub type Field = (Seq<char>, Seq<char>);

/// The request line for `method` and `location`.
pub open spec fn request_text(method: Seq<char>, location: Seq<char>) -> Seq<char> {
    method + seq![' '] + location + seq![' '] + http_version()
}

/// The header line of a field: name, colon, space, value.
pub open spec fn field_text(field: Field) -> Seq<char> {
    field.0 + seq![':', ' '] + field.1
}

/// The head made of the request line and one header line for each field, in
/// order, each line but the first led in by a carriage return and a line
/// feed.
pub open spec fn format_head(method: Seq<char>, location: Seq<char>, fields: Seq<Field>) -> Seq<
    char,
>
    decreases fields.len(),
{
    if fields.len() == 0 {
        request_text(method, location)
    } else {
        format_head(method, location, fields.drop_last()) + seq!['\r', '\n'] + field_text(
            fields.last(),
        )
    }
}

/// The fields as a parser keeps them: names and values trimmed, a later
/// field overriding an earlier one of the same name.
pub open spec fn field_map(fields: Seq<Field>) -> Map<Seq<char>, Seq<char>>
    decreases fields.len(),
{
    if fields.len() == 0 {
        Map::empty()
    } else {
        field_map(fields.drop_last()).insert(trim(fields.last().0), trim(fields.last().1))
    }
}

/// Whether `s` can stand as one part of a request line: no space and no
/// line feed in it.
pub open spec fn plain(s: Seq<char>) -> bool {
    !s.contains(' ') && !s.contains('\n')
}

/// Whether a field can stand on one header line: no line feed in it, and no
/// colon in its name.
pub open spec fn one_line(field: Field) -> bool {
    !field.0.contains(':') && !field.0.contains('\n') && !field.1.contains('\n')
}

/// What a head can be formatted from: a method and a location that can each
/// stand as one part of the request line, and fields that fit on a line each.
pub open spec fn formattable(method: Seq<char>, location: Seq<char>, fields: Seq<Field>) -> bool {
    &&& plain(method)
    &&& plain(location)
    &&& forall|i: int| 0 <= i < fields.len() ==> one_line(#[trigger] fields[i])
}

/// The lines of a formatted head that is followed by one more line: each
/// ends in a carriage return.
pub open spec fn inner_lines(method: Seq<char>, location: Seq<char>, fields: Seq<Field>) -> Seq<
    Seq<char>,
>
    decreases fields.len(),
{
    if fields.len() == 0 {
        seq![request_text(method, location) + seq!['\r']]
    } else {
        inner_lines(method, location, fields.drop_last()).push(
            field_text(fields.last()) + seq!['\r'],
        )
    }
}

/// A header line parses to the trimmed name and the trimmed rest.
proof fn lemma_header_line(name: Seq<char>, rest: Seq<char>)
    requires
        !name.contains(':'),
    ensures
        header_field(trim_end(name + seq![':'] + rest)) == Some((trim(name), trim(rest))),
{
    let line = name + seq![':'] + rest;
    let n = name.len() as int;
    lemma_trim_end(rest);
    let kept = trim_end(rest);
    let b = n + 1 + kept.len();
    lemma_trim_end_is(line, b);
    let t = line.subrange(0, b);
    lemma_position_is(t, ':', n);
    assert(t.subrange(0, n) =~= name);
    assert(t.subrange(n + 1, t.len() as int) =~= kept);
    lemma_trim_of_trim_end(rest);
}

/// A request line parses to its method and location, whatever whitespace
/// follows it.
proof fn lemma_request_line(method: Seq<char>, location: Seq<char>, pad: Seq<char>)
    requires
        plain(method),
        plain(location),
        forall|j: int| 0 <= j < pad.len() ==> is_whitespace(#[trigger] pad[j]),
    ensures
        request_line(trim_end(request_text(method, location) + pad)) == Ok::<
            (Seq<char>, Seq<char>),
            ParseError,
        >((method, location)),
{
    let r = request_text(method, location);
    let line = r + pad;
    let m = method.len() as int;
    let l = location.len() as int;
    lemma_trim_end_is(line, r.len() as int);
    assert(line.subrange(0, r.len() as int) =~= r);
    lemma_position_is(r, ' ', m);
    let rest = r.subrange(m + 1, r.len() as int);
    lemma_position_is(rest, ' ', l);
    assert(rest.subrange(l + 1, rest.len() as int) =~= http_version());
    assert(r.subrange(0, m) =~= method);
    assert(rest.subrange(0, l) =~= location);
}

/// A formatted head with a carriage return behind it splits into its
/// lines, each ending in a carriage return.
proof fn lemma_format_head(method: Seq<char>, location: Seq<char>, fields: Seq<Field>)
    requires
        formattable(method, location, fields),
    ensures
        inner_lines(method, location, fields).len() == fields.len() + 1,
        inner_lines(method, location, fields)[0] == request_text(method, location) + seq!['\r'],
        forall|i: int|
            1 <= i <= fields.len() ==> (#[trigger] inner_lines(method, location, fields)[i])
                == field_text(fields[i - 1]) + seq!['\r'],
        split(format_head(method, location, fields) + seq!['\r'], '\n') == inner_lines(
            method,
            location,
            fields,
        ),
    decreases fields.len(),
{
    let head = format_head(method, location, fields);
    if fields.len() == 0 {
        let r = request_text(method, location);
        lemma_split_one(r + seq!['\r'], '\n');
    } else {
        let before = fields.drop_last();
        lemma_format_head(method, location, before);
        let shorter = format_head(method, location, before);
        let last = field_text(fields.last()) + seq!['\r'];
        lemma_split_push(shorter + seq!['\r'], '\n', last);
        assert(head + seq!['\r'] =~= shorter + seq!['\r'] + seq!['\n'] + last);
    }
}

/// Lines that parse to the given fields, one for one, hold the map of those
/// fields.
proof fn lemma_header_fields(lines: Seq<Seq<char>>, fields: Seq<Field>)
    requires
        lines.len() == fields.len(),
        forall|i: int|
            0 <= i < lines.len() ==> (#[trigger] header_field(trim_end(lines[i]))) == Some(
                (trim(fields[i].0), trim(fields[i].1)),
            ),
    ensures
        header_fields(lines) == field_map(fields),
    decreases lines.len(),
{
    if lines.len() > 0 {
        lemma_header_fields(lines.drop_last(), fields.drop_last());
    }
}

/// A header line of a formatted head, with whitespace behind it or without,
/// parses to the trimmed name and value.
proof fn lemma_field_line(field: Field, pad: Seq<char>)
    requires
        one_line(field),
        forall|j: int| 0 <= j < pad.len() ==> is_whitespace(#[trigger] pad[j]),
    ensures
        header_field(trim_end(field_text(field) + pad)) == Some((trim(field.0), trim(field.1))),
{
    let padded = seq![' '] + field.1 + pad;
    assert(field_text(field) + pad =~= field.0 + seq![':'] + padded);
    lemma_header_line(field.0, padded);
    lemma_trim_padded(seq![' '], field.1, pad);
}

/// The lines of a formatted head: those of the head without its last field,
/// each ending in a carriage return, and the line of the last field.
proof fn lemma_lines_of_head(method: Seq<char>, location: Seq<char>, fields: Seq<Field>)
    requires
        formattable(method, location, fields),
    ensures
        lines(format_head(method, location, fields)) == (if fields.len() == 0 {
            seq![request_text(method, location)]
        } else {
            inner_lines(method, location, fields.drop_last()).push(field_text(fields.last()))
        }),
{
    let head = format_head(method, location, fields);
    if fields.len() == 0 {
        let r = request_text(method, location);
        lemma_split_one(r, '\n');
    } else {
        let before = fields.drop_last();
        lemma_format_head(method, location, before);
        let shorter = format_head(method, location, before);
        let last = field_text(fields.last());
        lemma_split_push(shorter + seq!['\r'], '\n', last);
        assert(head =~= shorter + seq!['\r'] + seq!['\n'] + last);
    }
}

/// Round trip on text: a formatted head parses to the method, the location
/// and the fields that it was formatted from, names and values trimmed.
pub proof fn lemma_parse_formatted_text(
    method: Seq<char>,
    location: Seq<char>,
    fields: Seq<Field>,
)
    requires
        formattable(method, location, fields),
    ensures
        parse_text(format_head(method, location, fields)) == Ok::<HttpView, ParseError>(
            HttpView { location, method, properties: field_map(fields) },
        ),
{
    let head = format_head(method, location, fields);
    let n = fields.len() as int;
    let lines = lines(head);
    lemma_lines_of_head(method, location, fields);
    let field_lines = lines.subrange(1, lines.len() as int);
    if n == 0 {
        lemma_request_line(method, location, Seq::empty());
    } else {
        let before = fields.drop_last();
        lemma_format_head(method, location, before);
        lemma_request_line(method, location, seq!['\r']);
        assert forall|i: int| 0 <= i < field_lines.len() implies (#[trigger] header_field(
            trim_end(field_lines[i]),
        )) == Some((trim(fields[i].0), trim(fields[i].1))) by {
            if i < n - 1 {
                lemma_field_line(fields[i], seq!['\r']);
            } else {
                lemma_field_line(fields[i], Seq::empty());
            }
        }
        lemma_header_fields(field_lines, fields);
        assert forall|i: int| 1 <= i < lines.len() implies (#[trigger] header_field(
            trim_end(lines[i]),
        )) is Some by {
            assert(header_field(trim_end(field_lines[i - 1])) is Some);
        }
    }
}

/// Parser round trip: the bytes of a formatted head parse to the method, the
/// location and the fields that it was formatted from, names and values
/// trimmed.
pub proof fn lemma_parse_formatted(method: Seq<char>, location: Seq<char>, fields: Seq<Field>)
    requires
        formattable(method, location, fields),
    ensures
        parse_head(encode_utf8(format_head(method, location, fields))) == Ok::<
            HttpView,
            ParseError,
        >(HttpView { location, method, properties: field_map(fields) }),
{
    let head = format_head(method, location, fields);
    encode_utf8_valid_utf8(head);
    encode_utf8_decode_utf8(head);
    lemma_parse_formatted_text(method, location, fields);
}

} // verus!
