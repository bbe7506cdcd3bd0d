//! The entry file format: how one entry is laid out as text.
//!
//! An entry file is a small TOML document: one quoted line per scalar
//! field, then one short section per author and per tag. The layout is
//! fixed, so serializing an entry is an exact function of its fields,
//! and the writer below is verified against that function character by
//! character.

use vstd::prelude::*;
use crate::paper::{Author, Paper, Tag};
use crate::store::hex_digit;

verus! {

/// The escape sequence a character becomes inside a quoted value:
/// quotes and backslashes are escaped, the common control characters
/// take their short forms, the remaining control characters take the
/// four-digit form, and every other character stands as itself.
pub open spec fn escape_char(c: char) -> Seq<char> {
    if c == '"' {
        seq!['\\', '"']
    } else if c == '\\' {
        seq!['\\', '\\']
    } else if c == '\n' {
        seq!['\\', 'n']
    } else if c == '\t' {
        seq!['\\', 't']
    } else if c == '\r' {
        seq!['\\', 'r']
    } else if c == '\u{8}' {
        seq!['\\', 'b']
    } else if c == '\u{c}' {
        seq!['\\', 'f']
    } else if (c as u32) < 0x20 || c == '\u{7f}' {
        seq!['\\', 'u', '0', '0', hex_digit((c as u32) as int / 16), hex_digit(
            (c as u32) as int % 16,
        )]
    } else {
        seq![c]
    }
}

/// A character sequence with every character escaped.
#[verifier::opaque]
pub open spec fn escaped(s: Seq<char>) -> Seq<char>
    decreases s.len(),
{
    if s.len() == 0 {
        Seq::empty()
    } else {
        escaped(s.drop_last()) + escape_char(s.last())
    }
}

/// A value in quotes, escaped.
pub open spec fn quoted(s: Seq<char>) -> Seq<char> {
    seq!['"'] + escaped(s) + seq!['"']
}

/// The decimal digits of a non-negative number, most significant first.
pub open spec fn dec_digits(n: int) -> Seq<char>
    decreases n,
{
    if n < 10 {
        seq![hex_digit(n)]
    } else {
        dec_digits(n / 10) + seq![hex_digit(n % 10)]
    }
}

/// A number in decimal, with a leading minus for a negative one.
pub open spec fn int_chars(v: int) -> Seq<char> {
    if v < 0 {
        seq!['-'] + dec_digits(-v)
    } else {
        dec_digits(v)
    }
}

/// The sections of the entry's authors, one per author, in order.
pub open spec fn author_sections(authors: Seq<Author>) -> Seq<char>
    decreases authors.len(),
{
    if authors.len() == 0 {
        Seq::empty()
    } else {
        author_sections(authors.drop_last()) + "\n[[authors]]\nname = "@ + quoted(
            authors.last().name@,
        ) + "\n"@
    }
}

/// The sections of the entry's tags, one per tag, in order.
pub open spec fn tag_sections(tags: Seq<Tag>) -> Seq<char>
    decreases tags.len(),
{
    if tags.len() == 0 {
        Seq::empty()
    } else {
        tag_sections(tags.drop_last()) + "\n[[tags]]\nlabel = "@ + quoted(tags.last().label@)
            + "\n"@
    }
}

/// One `key = "value"` line, newline included.
pub open spec fn kv_line(key: Seq<char>, v: Seq<char>) -> Seq<char> {
    key + quoted(v) + "\n"@
}

/// The year line: the one field written as a plain number.
pub open spec fn year_line(v: int) -> Seq<char> {
    "year = "@ + int_chars(v) + "\n"@
}

/// One entry as text: the six scalar fields as quoted or plain lines,
/// then the author sections, then the tag sections.
pub open spec fn serialized_paper(p: Paper) -> Seq<char> {
    kv_line("title = "@, p.title@) + (year_line(p.year as int) + (kv_line(
        "journal = "@,
        p.journal@,
    ) + (kv_line("description = "@, p.description@) + (kv_line("bibtex = "@, p.bibtex@) + (kv_line(
        "docname = "@,
        p.docname@,
    ) + (author_sections(p.authors@) + tag_sections(p.tags@)))))))
}

/// The mathematical view of one entry: each field's content.
pub ghost struct PaperV {
    pub title: Seq<char>,
    pub year: int,
    pub journal: Seq<char>,
    pub description: Seq<char>,
    pub bibtex: Seq<char>,
    pub docname: Seq<char>,
    pub authors: Seq<Seq<char>>,
    pub tags: Seq<Seq<char>>,
}

/// One entry's fields as mathematical values.
pub open spec fn paper_view(p: Paper) -> PaperV {
    PaperV {
        title: p.title@,
        year: p.year as int,
        journal: p.journal@,
        description: p.description@,
        bibtex: p.bibtex@,
        docname: p.docname@,
        authors: p.authors@.map_values(|a: Author| a.name@),
        tags: p.tags@.map_values(|t: Tag| t.label@),
    }
}

/// A decimal digit.
pub open spec fn is_digit(c: char) -> bool {
    '0' <= c && c <= '9'
}

/// A lowercase hexadecimal digit.
pub open spec fn is_lower_hex(c: char) -> bool {
    is_digit(c) || ('a' <= c && c <= 'f')
}

/// The value of a decimal digit.
pub open spec fn digit_val(c: char) -> int {
    c as u32 - '0' as u32
}

/// The value of a lowercase hexadecimal digit.
pub open spec fn hex_val(c: char) -> int {
    if is_digit(c) {
        digit_val(c)
    } else {
        c as u32 - 'a' as u32 + 10
    }
}

/// The characters that may follow a backslash as a short escape.
pub open spec fn is_short_escape(c: char) -> bool {
    c == '"' || c == '\\' || c == 'n' || c == 't' || c == 'r' || c == 'b' || c == 'f'
}

/// The character a short escape stands for.
pub open spec fn unescape_short(c: char) -> char {
    if c == 'n' {
        '\n'
    } else if c == 't' {
        '\t'
    } else if c == 'r' {
        '\r'
    } else if c == 'b' {
        '\u{8}'
    } else if c == 'f' {
        '\u{c}'
    } else {
        c
    }
}

/// Read the literal `lit` at `pos`: the position just past it, when the
/// input holds it there.
pub open spec fn parse_lit_at(input: Seq<char>, pos: int, lit: Seq<char>) -> Option<int> {
    if 0 <= pos && pos + lit.len() <= input.len() && input.subrange(pos, pos + lit.len()) == lit {
        Some(pos + lit.len())
    } else {
        None
    }
}

/// Read the remainder of a quoted value from `pos` up to and including
/// its closing quote, undoing the escapes.
#[verifier::opaque]
pub open spec fn parse_string_body(input: Seq<char>, pos: int) -> Option<(Seq<char>, int)>
    decreases input.len() - pos,
{
    if pos < 0 || pos >= input.len() {
        None
    } else if input[pos] == '"' {
        Some((Seq::empty(), pos + 1))
    } else if input[pos] == '\\' {
        if pos + 1 < input.len() {
            let e = input[pos + 1];
            if e == 'u' {
                if pos + 6 <= input.len() && input[pos + 2] == '0' && input[pos + 3] == '0'
                    && is_lower_hex(input[pos + 4]) && is_lower_hex(input[pos + 5]) {
                    let code = 16 * hex_val(input[pos + 4]) + hex_val(input[pos + 5]);
                    match parse_string_body(input, pos + 6) {
                        Some(r) => Some((seq![(code as u32) as char] + r.0, r.1)),
                        None => None,
                    }
                } else {
                    None
                }
            } else if is_short_escape(e) {
                match parse_string_body(input, pos + 2) {
                    Some(r) => Some((seq![unescape_short(e)] + r.0, r.1)),
                    None => None,
                }
            } else {
                None
            }
        } else {
            None
        }
    } else {
        match parse_string_body(input, pos + 1) {
            Some(r) => Some((seq![input[pos]] + r.0, r.1)),
            None => None,
        }
    }
}

/// Read a quoted value at `pos`, opening quote included.
pub open spec fn parse_quoted_at(input: Seq<char>, pos: int) -> Option<(Seq<char>, int)> {
    if 0 <= pos < input.len() && input[pos] == '"' {
        parse_string_body(input, pos + 1)
    } else {
        None
    }
}

/// The position just past the run of decimal digits starting at `pos`.
pub open spec fn digit_run_end(input: Seq<char>, pos: int) -> int
    decreases input.len() - pos,
{
    if 0 <= pos < input.len() && is_digit(input[pos]) {
        digit_run_end(input, pos + 1)
    } else {
        pos
    }
}

/// The number a run of decimal digits denotes.
pub open spec fn digits_value(s: Seq<char>) -> int
    decreases s.len(),
{
    if s.len() == 0 {
        0
    } else {
        digits_value(s.drop_last()) * 10 + digit_val(s.last())
    }
}

/// Read a decimal number at `pos`, with an optional leading minus.
pub open spec fn parse_int_at(input: Seq<char>, pos: int) -> Option<(int, int)> {
    if 0 <= pos < input.len() && input[pos] == '-' {
        let e = digit_run_end(input, pos + 1);
        if e > pos + 1 {
            Some((-digits_value(input.subrange(pos + 1, e)), e))
        } else {
            None
        }
    } else {
        let e = digit_run_end(input, pos);
        if 0 <= pos && e > pos {
            Some((digits_value(input.subrange(pos, e)), e))
        } else {
            None
        }
    }
}

/// Read one `key = "value"` line at `pos`, newline included.
pub open spec fn parse_kv_quoted(input: Seq<char>, pos: int, key: Seq<char>) -> Option<
    (Seq<char>, int),
> {
    match parse_lit_at(input, pos, key) {
        None => None,
        Some(p1) => match parse_quoted_at(input, p1) {
            None => None,
            Some(r) => match parse_lit_at(input, r.1, "\n"@) {
                None => None,
                Some(p3) => Some((r.0, p3)),
            },
        },
    }
}

/// Read zero or more sections at `pos`: each is the section header
/// followed by a quoted value and a newline.
pub open spec fn parse_sections(input: Seq<char>, pos: int, header: Seq<char>) -> Option<
    (Seq<Seq<char>>, int),
>
    decreases input.len() - pos,
{
    match parse_lit_at(input, pos, header) {
        None => Some((Seq::empty(), pos)),
        Some(p1) => match parse_quoted_at(input, p1) {
            None => None,
            Some(r) => match parse_lit_at(input, r.1, "\n"@) {
                None => None,
                Some(p3) => if pos < p3 <= input.len() {
                    match parse_sections(input, p3, header) {
                        None => None,
                        Some(rest) => Some((seq![r.0] + rest.0, rest.1)),
                    }
                } else {
                    None
                },
            },
        },
    }
}

/// Read one whole entry: the six scalar lines in their fixed order,
/// then the author sections, then the tag sections, with nothing left
/// over and the year within range.
pub open spec fn spec_parse_paper(input: Seq<char>) -> Option<PaperV> {
    match parse_kv_quoted(input, 0, "title = "@) {
        None => None,
        Some(t) => match parse_lit_at(input, t.1, "year = "@) {
            None => None,
            Some(py) => match parse_int_at(input, py) {
                None => None,
                Some(y) => match parse_lit_at(input, y.1, "\n"@) {
                    None => None,
                    Some(p2) => match parse_kv_quoted(input, p2, "journal = "@) {
                        None => None,
                        Some(j) => match parse_kv_quoted(input, j.1, "description = "@) {
                            None => None,
                            Some(d) => match parse_kv_quoted(input, d.1, "bibtex = "@) {
                                None => None,
                                Some(b) => match parse_kv_quoted(input, b.1, "docname = "@) {
                                    None => None,
                                    Some(dn) => match parse_sections(
                                        input,
                                        dn.1,
                                        "\n[[authors]]\nname = "@,
                                    ) {
                                        None => None,
                                        Some(au) => match parse_sections(
                                            input,
                                            au.1,
                                            "\n[[tags]]\nlabel = "@,
                                        ) {
                                            None => None,
                                            Some(tg) => if tg.1 == input.len()
                                                && i32::MIN <= y.0 <= i32::MAX {
                                                Some(
                                                    PaperV {
                                                        title: t.0,
                                                        year: y.0,
                                                        journal: j.0,
                                                        description: d.0,
                                                        bibtex: b.0,
                                                        docname: dn.0,
                                                        authors: au.0,
                                                        tags: tg.0,
                                                    },
                                                )
                                            } else {
                                                None
                                            },
                                        },
                                    },
                                },
                            },
                        },
                    },
                },
            },
        },
    }
}

/// Escaping distributes over concatenation.
proof fn lemma_escaped_app(a: Seq<char>, b: Seq<char>)
    ensures
        escaped(a + b) == escaped(a) + escaped(b),
    decreases b.len(),
{
    reveal_with_fuel(escaped, 2);
    if b.len() == 0 {
        assert(a + b =~= a);
        assert(escaped(a) + escaped(b) =~= escaped(a));
    } else {
        lemma_escaped_app(a, b.drop_last());
        assert((a + b).drop_last() =~= a + b.drop_last());
        assert((a + b).last() == b.last());
        assert(escaped(a) + escaped(b) =~= escaped(a) + escaped(b.drop_last()) + escape_char(
            b.last(),
        ));
    }
}

/// A lowercase hexadecimal digit names its value.
proof fn lemma_hex_digit_inverse(d: int)
    requires
        0 <= d < 16,
    ensures
        is_lower_hex(hex_digit(d)),
        hex_val(hex_digit(d)) == d,
        0 <= d < 10 ==> is_digit(hex_digit(d)) && digit_val(hex_digit(d)) == d,
{
}

/// Reading a quoted body undoes the escaping: where the input holds the
/// escaped value and then the closing quote, the body parse yields the
/// value and stops just past that quote.
proof fn lemma_body_round_trip(s: Seq<char>, input: Seq<char>, pos: int)
    requires
        0 <= pos,
        pos + escaped(s).len() + 1 <= input.len(),
        input.subrange(pos, pos + escaped(s).len()) == escaped(s),
        input[pos + escaped(s).len()] == '"',
    ensures
        parse_string_body(input, pos) == Some((s, pos + escaped(s).len() + 1)),
    decreases s.len(),
{
    reveal_with_fuel(escaped, 2);
    reveal_with_fuel(parse_string_body, 2);
    if s.len() == 0 {
        assert(escaped(s).len() == 0);
    } else {
        let c = s[0];
        let rest = s.drop_first();
        assert(s =~= seq![c] + rest);
        lemma_escaped_app(seq![c], rest);
        assert(escaped(seq![c]) =~= escape_char(c)) by {
            assert(seq![c].drop_last() =~= Seq::<char>::empty());
            assert(escaped(Seq::<char>::empty()) =~= Seq::<char>::empty());
            assert(seq![c].last() == c);
        }
        assert(escaped(s) == escape_char(c) + escaped(rest));
        let k = escape_char(c).len();
        assert forall|i: int| 0 <= i < k implies input[pos + i] == escape_char(c)[i] by {
            assert(input.subrange(pos, pos + escaped(s).len())[i] == input[pos + i]);
            assert(escaped(s)[i] == escape_char(c)[i]);
        }
        assert(input.subrange(pos + k, pos + k + escaped(rest).len()) =~= escaped(rest)) by {
            assert forall|i: int| 0 <= i < escaped(rest).len() implies input[pos + k + i]
                == escaped(rest)[i] by {
                assert(input.subrange(pos, pos + escaped(s).len())[k + i] == input[pos + k + i]);
                assert(escaped(s)[k + i] == escaped(rest)[i]);
            }
        }
        lemma_body_round_trip(rest, input, pos + k);
        let u = c as u32;
        if c == '"' || c == '\\' {
            assert(input[pos] == '\\');
            assert(input[pos + 1] == c);
            assert(is_short_escape(c));
            assert(unescape_short(c) == c);
        } else if c == '\n' {
            assert(input[pos] == '\\' && input[pos + 1] == 'n');
        } else if c == '\t' {
            assert(input[pos] == '\\' && input[pos + 1] == 't');
        } else if c == '\r' {
            assert(input[pos] == '\\' && input[pos + 1] == 'r');
        } else if c == '\u{8}' {
            assert(input[pos] == '\\' && input[pos + 1] == 'b');
        } else if c == '\u{c}' {
            assert(input[pos] == '\\' && input[pos + 1] == 'f');
        } else if u < 0x20 || c == '\u{7f}' {
            assert(input[pos] == '\\' && input[pos + 1] == 'u');
            assert(input[pos + 2] == '0' && input[pos + 3] == '0');
            lemma_hex_digit_inverse(u as int / 16);
            lemma_hex_digit_inverse(u as int % 16);
            assert(input[pos + 4] == hex_digit(u as int / 16));
            assert(input[pos + 5] == hex_digit(u as int % 16));
            let code = 16 * hex_val(input[pos + 4]) + hex_val(input[pos + 5]);
            assert(code == u as int);
            vstd::utf8::char_u32_cast(c, u);
            assert((code as u32) as char == c);
        } else {
            assert(input[pos] == c);
            assert(c != '"' && c != '\\');
        }
        assert(parse_string_body(input, pos) == Some((s, pos + escaped(s).len() + 1)));
    }
}

/// The decimal form of a non-negative number is non-empty and all
/// digits.
proof fn lemma_dec_digits_are_digits(n: int)
    requires
        n >= 0,
    ensures
        dec_digits(n).len() >= 1,
        forall|i: int| 0 <= i < dec_digits(n).len() ==> is_digit(#[trigger] dec_digits(n)[i]),
    decreases n,
{
    if n < 10 {
        assert(is_digit(hex_digit(n)));
    } else {
        lemma_dec_digits_are_digits(n / 10);
        assert forall|i: int| 0 <= i < dec_digits(n).len() implies is_digit(
            #[trigger] dec_digits(n)[i],
        ) by {
            if i < dec_digits(n / 10).len() {
                assert(dec_digits(n)[i] == dec_digits(n / 10)[i]);
            } else {
                assert(dec_digits(n)[i] == hex_digit(n % 10));
            }
        }
    }
}

/// Reading back the decimal form of a non-negative number yields the
/// number.
proof fn lemma_digits_value_inverse(n: int)
    requires
        n >= 0,
    ensures
        digits_value(dec_digits(n)) == n,
    decreases n,
{
    if n < 10 {
        assert(dec_digits(n).drop_last() =~= Seq::<char>::empty());
        assert(digits_value(Seq::<char>::empty()) == 0);
        lemma_hex_digit_inverse(n);
    } else {
        lemma_digits_value_inverse(n / 10);
        lemma_hex_digit_inverse(n % 10);
        assert(dec_digits(n).drop_last() =~= dec_digits(n / 10));
        assert(dec_digits(n).last() == hex_digit(n % 10));
    }
}

/// The digit run starting at `pos` ends exactly at the first non-digit.
proof fn lemma_digit_run(input: Seq<char>, pos: int, e: int)
    requires
        0 <= pos <= e <= input.len(),
        forall|k: int| pos <= k < e ==> is_digit(#[trigger] input[k]),
        e == input.len() || !is_digit(input[e]),
    ensures
        digit_run_end(input, pos) == e,
    decreases e - pos,
{
    if pos < e {
        lemma_digit_run(input, pos + 1, e);
    }
}

/// Reading a number back from its decimal form, with a non-digit
/// following, yields the number and stops at that non-digit.
proof fn lemma_int_round_trip(v: int, input: Seq<char>, pos: int)
    requires
        0 <= pos,
        pos + int_chars(v).len() < input.len(),
        input.subrange(pos, pos + int_chars(v).len()) == int_chars(v),
        !is_digit(input[pos + int_chars(v).len()]),
        input[pos + int_chars(v).len()] != '-',
    ensures
        parse_int_at(input, pos) == Some((v, pos + int_chars(v).len())),
{
    let n = int_chars(v).len() as int;
    assert forall|i: int| 0 <= i < n implies #[trigger] input[pos + i] == int_chars(v)[i] by {
        assert(input.subrange(pos, pos + n)[i] == input[pos + i]);
    }
    if v < 0 {
        lemma_dec_digits_are_digits(-v);
        assert(input[pos] == '-') by {
            assert(input[pos + 0] == int_chars(v)[0]);
        }
        assert(input.subrange(pos + 1, pos + n) =~= dec_digits(-v)) by {
            assert forall|i: int| 0 <= i < n - 1 implies input.subrange(pos + 1, pos + n)[i]
                == #[trigger] dec_digits(-v)[i] by {
                assert(int_chars(v)[1 + i] == dec_digits(-v)[i]);
                assert(input[pos + (1 + i)] == int_chars(v)[1 + i]);
            }
        }
        assert forall|k: int| pos + 1 <= k < pos + n implies is_digit(#[trigger] input[k]) by {
            assert(input[pos + (k - pos)] == int_chars(v)[k - pos]);
            assert(int_chars(v)[k - pos] == dec_digits(-v)[k - pos - 1]);
        }
        lemma_digit_run(input, pos + 1, pos + n);
        lemma_digits_value_inverse(-v);
    } else {
        lemma_dec_digits_are_digits(v);
        assert(int_chars(v) =~= dec_digits(v));
        assert(is_digit(input[pos])) by {
            assert(input[pos + 0] == int_chars(v)[0]);
        }
        assert(input[pos] != '-');
        assert(input.subrange(pos, pos + n) =~= dec_digits(v));
        assert forall|k: int| pos <= k < pos + n implies is_digit(#[trigger] input[k]) by {
            assert(input[pos + (k - pos)] == int_chars(v)[k - pos]);
        }
        lemma_digit_run(input, pos, pos + n);
        lemma_digits_value_inverse(v);
    }
}

/// The text of a row of sections, each the header, a quoted value and a
/// newline, in order.
pub open spec fn sections_text(header: Seq<char>, values: Seq<Seq<char>>) -> Seq<char>
    decreases values.len(),
{
    if values.len() == 0 {
        Seq::empty()
    } else {
        sections_text(header, values.drop_last()) + header + quoted(values.last()) + "\n"@
    }
}

/// Section text distributes over concatenation of the value rows.
proof fn lemma_sections_text_app(header: Seq<char>, a: Seq<Seq<char>>, b: Seq<Seq<char>>)
    ensures
        sections_text(header, a + b) == sections_text(header, a) + sections_text(header, b),
    decreases b.len(),
{
    if b.len() == 0 {
        assert(a + b =~= a);
        assert(sections_text(header, a) + sections_text(header, b) =~= sections_text(header, a));
    } else {
        lemma_sections_text_app(header, a, b.drop_last());
        assert((a + b).drop_last() =~= a + b.drop_last());
        assert((a + b).last() == b.last());
        assert(sections_text(header, a) + sections_text(header, b) =~= sections_text(header, a)
            + sections_text(header, b.drop_last()) + header + quoted(b.last()) + "\n"@);
    }
}

/// The author sections are the section text of the author names.
proof fn lemma_author_sections_text(authors: Seq<Author>)
    ensures
        author_sections(authors) == sections_text(
            "\n[[authors]]\nname = "@,
            authors.map_values(|a: Author| a.name@),
        ),
    decreases authors.len(),
{
    let m = authors.map_values(|a: Author| a.name@);
    if authors.len() == 0 {
        assert(m.len() == 0);
    } else {
        lemma_author_sections_text(authors.drop_last());
        assert(m.drop_last() =~= authors.drop_last().map_values(|a: Author| a.name@));
        assert(m.last() == authors.last().name@);
    }
}

/// The tag sections are the section text of the tag labels.
proof fn lemma_tag_sections_text(tags: Seq<Tag>)
    ensures
        tag_sections(tags) == sections_text(
            "\n[[tags]]\nlabel = "@,
            tags.map_values(|t: Tag| t.label@),
        ),
    decreases tags.len(),
{
    let m = tags.map_values(|t: Tag| t.label@);
    if tags.len() == 0 {
        assert(m.len() == 0);
    } else {
        lemma_tag_sections_text(tags.drop_last());
        assert(m.drop_last() =~= tags.drop_last().map_values(|t: Tag| t.label@));
        assert(m.last() == tags.last().label@);
    }
}

/// Reading back one `key = "value"` line yields the value and stops
/// just past the newline.
proof fn lemma_kv_round_trip(key: Seq<char>, v: Seq<char>, input: Seq<char>, pos: int)
    requires
        0 <= pos,
        pos + kv_line(key, v).len() <= input.len(),
        input.subrange(pos, pos + kv_line(key, v).len()) == kv_line(key, v),
    ensures
        parse_kv_quoted(input, pos, key) == Some((v, pos + kv_line(key, v).len())),
{
    let seg = key + quoted(v) + "\n"@;
    let n = seg.len() as int;
    reveal_strlit("\n");
    assert forall|i: int| 0 <= i < n implies input[pos + i] == seg[i] by {
        assert(input.subrange(pos, pos + n)[i] == input[pos + i]);
    }
    let p1 = pos + key.len();
    assert(input.subrange(pos, p1) =~= key) by {
        assert forall|i: int| 0 <= i < key.len() implies input[pos + i] == key[i] by {
            assert(seg[i] == key[i]);
        }
    }
    assert(parse_lit_at(input, pos, key) == Some(p1));
    assert(input[p1] == '"') by {
        assert(seg[key.len() as int] == quoted(v)[0]);
    }
    assert(input.subrange(p1 + 1, p1 + 1 + escaped(v).len()) =~= escaped(v)) by {
        assert forall|i: int| 0 <= i < escaped(v).len() implies input[p1 + 1 + i]
            == escaped(v)[i] by {
            assert(seg[key.len() + 1 + i] == quoted(v)[1 + i]);
            assert(quoted(v)[1 + i] == escaped(v)[i]);
        }
    }
    assert(input[p1 + 1 + escaped(v).len()] == '"') by {
        assert(seg[key.len() + quoted(v).len() - 1] == quoted(v)[quoted(v).len() - 1]);
    }
    lemma_body_round_trip(v, input, p1 + 1);
    let p2 = p1 + quoted(v).len();
    assert(parse_quoted_at(input, p1) == Some((v, p2)));
    assert(input[p2] == '\n') by {
        assert(seg[n - 1] == "\n"@[0]);
    }
    assert(input.subrange(p2, p2 + 1) =~= "\n"@);
    assert(parse_lit_at(input, p2, "\n"@) == Some(p2 + 1));
}

/// Reading back a row of sections yields the values in order and stops
/// where the section text ends, provided no further header follows.
proof fn lemma_sections_round_trip(
    header: Seq<char>,
    values: Seq<Seq<char>>,
    input: Seq<char>,
    pos: int,
)
    requires
        header.len() > 0,
        0 <= pos,
        pos + sections_text(header, values).len() <= input.len(),
        input.subrange(pos, pos + sections_text(header, values).len()) == sections_text(
            header,
            values,
        ),
        parse_lit_at(input, pos + sections_text(header, values).len(), header) is None,
    ensures
        parse_sections(input, pos, header) == Some(
            (values, pos + sections_text(header, values).len()),
        ),
    decreases values.len(),
{
    reveal_strlit("\n");
    let text = sections_text(header, values);
    let n = text.len() as int;
    assert forall|i: int| 0 <= i < n implies #[trigger] input[pos + i] == text[i] by {
        assert(input.subrange(pos, pos + n)[i] == input[pos + i]);
    }
    if values.len() == 0 {
        assert(values =~= Seq::<Seq<char>>::empty());
        assert(text.len() == 0);
        assert(parse_lit_at(input, pos, header) is None);
    } else {
        let v0 = values[0];
        let rest = values.drop_first();
        assert(values =~= seq![v0] + rest);
        lemma_sections_text_app(header, seq![v0], rest);
        assert(sections_text(header, seq![v0]) =~= header + quoted(v0) + "\n"@) by {
            assert(seq![v0].drop_last() =~= Seq::<Seq<char>>::empty());
            assert(sections_text(header, Seq::<Seq<char>>::empty()) =~= Seq::<char>::empty());
            assert(seq![v0].last() == v0);
        }
        let seg = header + quoted(v0) + "\n"@;
        assert(text == seg + sections_text(header, rest));
        let k = seg.len() as int;
        assert(k == header.len() + quoted(v0).len() + 1);
        assert(input.subrange(pos, pos + k) =~= seg) by {
            assert forall|i: int| 0 <= i < k implies input.subrange(pos, pos + k)[i]
                == #[trigger] seg[i] by {
                assert(input[pos + i] == text[i]);
                assert(text[i] == seg[i]);
            }
        }
        lemma_kv_round_trip(header, v0, input, pos);
        let p3 = pos + k;
        assert(parse_lit_at(input, pos, header) == Some(pos + header.len()));
        assert(input.subrange(p3, p3 + sections_text(header, rest).len()) =~= sections_text(
            header,
            rest,
        )) by {
            assert forall|i: int| 0 <= i < sections_text(header, rest).len() implies input[p3 + i]
                == sections_text(header, rest)[i] by {
                assert(text[k + i] == sections_text(header, rest)[i]);
            }
        }
        lemma_sections_round_trip(header, rest, input, p3);
        assert(parse_sections(input, p3, header) == Some((rest, pos + n)));
        assert(seq![v0] + rest =~= values);
    }
}

/// Splitting a matched region: where the input holds `a + b` at `pos`,
/// it holds `a` at `pos` and `b` just after.
proof fn lemma_subrange_split(input: Seq<char>, pos: int, a: Seq<char>, b: Seq<char>)
    requires
        0 <= pos,
        pos + a.len() + b.len() <= input.len(),
        input.subrange(pos, pos + a.len() + b.len()) == a + b,
    ensures
        input.subrange(pos, pos + a.len()) == a,
        input.subrange(pos + a.len(), pos + a.len() + b.len()) == b,
{
    let s = a + b;
    let n = s.len() as int;
    assert forall|i: int| 0 <= i < n implies #[trigger] input[pos + i] == s[i] by {
        assert(input.subrange(pos, pos + n)[i] == input[pos + i]);
    }
    assert(input.subrange(pos, pos + a.len()) =~= a) by {
        assert forall|i: int| 0 <= i < a.len() implies input.subrange(pos, pos + a.len() as int)[i]
            == #[trigger] a[i] by {
            assert(input[pos + i] == s[i]);
        }
    }
    assert(input.subrange(pos + a.len(), pos + n) =~= b) by {
        assert forall|i: int| 0 <= i < b.len() implies input.subrange(
            pos + a.len() as int,
            pos + n,
        )[i] == #[trigger] b[i] by {
            assert(input[pos + (a.len() + i)] == s[a.len() + i]);
        }
    }
}

/// Reading back the year line yields the year and stops just past its
/// newline.
proof fn lemma_year_line_round_trip(v: int, input: Seq<char>, pos: int)
    requires
        0 <= pos,
        pos + year_line(v).len() <= input.len(),
        input.subrange(pos, pos + year_line(v).len()) == year_line(v),
    ensures
        parse_lit_at(input, pos, "year = "@) == Some(pos + "year = "@.len()),
        parse_int_at(input, pos + "year = "@.len()) == Some(
            (v, pos + "year = "@.len() + int_chars(v).len()),
        ),
        parse_lit_at(input, pos + "year = "@.len() + int_chars(v).len(), "\n"@) == Some(
            pos + year_line(v).len(),
        ),
{
    reveal_strlit("\n");
    assert(year_line(v) =~= "year = "@ + (int_chars(v) + "\n"@));
    lemma_subrange_split(input, pos, "year = "@, int_chars(v) + "\n"@);
    let py = pos + "year = "@.len();
    lemma_subrange_split(input, py, int_chars(v), "\n"@);
    let pe = py + int_chars(v).len();
    assert(input[pe] == '\n') by {
        assert(input.subrange(pe, pe + 1)[0] == "\n"@[0]);
    }
    assert(!is_digit('\n') && '\n' != '-');
    lemma_int_round_trip(v, input, py);
}

/// Reading back the six scalar lines yields the six fields in order.
#[verifier::rlimit(100)]
proof fn lemma_scalar_round_trip(p: Paper, input: Seq<char>)
    requires
        input == serialized_paper(p),
    ensures
        ({
            let p1 = kv_line("title = "@, p.title@).len() as int;
            let p2 = p1 + year_line(p.year as int).len();
            let p3 = p2 + kv_line("journal = "@, p.journal@).len();
            let p4 = p3 + kv_line("description = "@, p.description@).len();
            let p5 = p4 + kv_line("bibtex = "@, p.bibtex@).len();
            let p6 = p5 + kv_line("docname = "@, p.docname@).len();
            &&& parse_kv_quoted(input, 0, "title = "@) == Some((p.title@, p1))
            &&& parse_lit_at(input, p1, "year = "@) == Some(p1 + "year = "@.len())
            &&& parse_int_at(input, p1 + "year = "@.len()) == Some(
                (p.year as int, p1 + "year = "@.len() + int_chars(p.year as int).len()),
            )
            &&& parse_lit_at(
                input,
                p1 + "year = "@.len() + int_chars(p.year as int).len(),
                "\n"@,
            ) == Some(p2)
            &&& parse_kv_quoted(input, p2, "journal = "@) == Some((p.journal@, p3))
            &&& parse_kv_quoted(input, p3, "description = "@) == Some((p.description@, p4))
            &&& parse_kv_quoted(input, p4, "bibtex = "@) == Some((p.bibtex@, p5))
            &&& parse_kv_quoted(input, p5, "docname = "@) == Some((p.docname@, p6))
            &&& p6 + author_sections(p.authors@).len() + tag_sections(p.tags@).len()
                == input.len()
            &&& input.subrange(p6, input.len() as int) == author_sections(p.authors@)
                + tag_sections(p.tags@)
        }),
{
    reveal_strlit("\n");
    let s1 = kv_line("title = "@, p.title@);
    let s2 = year_line(p.year as int);
    let s3 = kv_line("journal = "@, p.journal@);
    let s4 = kv_line("description = "@, p.description@);
    let s5 = kv_line("bibtex = "@, p.bibtex@);
    let s6 = kv_line("docname = "@, p.docname@);
    let rest = author_sections(p.authors@) + tag_sections(p.tags@);
    assert(input.subrange(0, input.len() as int) =~= input);
    lemma_subrange_split(input, 0, s1, s2 + (s3 + (s4 + (s5 + (s6 + rest)))));
    let p1 = s1.len() as int;
    lemma_subrange_split(input, p1, s2, s3 + (s4 + (s5 + (s6 + rest))));
    let p2 = p1 + s2.len();
    lemma_subrange_split(input, p2, s3, s4 + (s5 + (s6 + rest)));
    let p3 = p2 + s3.len();
    lemma_subrange_split(input, p3, s4, s5 + (s6 + rest));
    let p4 = p3 + s4.len();
    lemma_subrange_split(input, p4, s5, s6 + rest);
    let p5 = p4 + s5.len();
    lemma_subrange_split(input, p5, s6, rest);
    let p6 = p5 + s6.len();
    lemma_kv_round_trip("title = "@, p.title@, input, 0);
    lemma_year_line_round_trip(p.year as int, input, p1);
    lemma_kv_round_trip("journal = "@, p.journal@, input, p2);
    lemma_kv_round_trip("description = "@, p.description@, input, p3);
    lemma_kv_round_trip("bibtex = "@, p.bibtex@, input, p4);
    lemma_kv_round_trip("docname = "@, p.docname@, input, p5);
}

/// Writing an entry and reading the text back yields the entry's exact
/// field contents: the entry file format round-trips structurally.
#[verifier::rlimit(100)]
pub proof fn lemma_entry_round_trip(p: Paper)
    ensures
        spec_parse_paper(serialized_paper(p)) == Some(paper_view(p)),
{
    reveal_strlit("\n");
    let input = serialized_paper(p);
    let ha = "\n[[authors]]\nname = "@;
    let ht = "\n[[tags]]\nlabel = "@;
    let names = p.authors@.map_values(|a: Author| a.name@);
    let labels = p.tags@.map_values(|t: Tag| t.label@);
    lemma_author_sections_text(p.authors@);
    lemma_tag_sections_text(p.tags@);
    lemma_scalar_round_trip(p, input);
    let s7 = sections_text(ha, names);
    let s8 = sections_text(ht, labels);
    let p6 = kv_line("title = "@, p.title@).len() as int + year_line(p.year as int).len() + kv_line(
        "journal = "@,
        p.journal@,
    ).len() + kv_line("description = "@, p.description@).len() + kv_line(
        "bibtex = "@,
        p.bibtex@,
    ).len() + kv_line("docname = "@, p.docname@).len();
    lemma_subrange_split(input, p6, s7, s8);
    let p7 = p6 + s7.len();
    let p8 = p7 + s8.len();
    assert(p8 == input.len());

    reveal_strlit("\n[[authors]]\nname = ");
    reveal_strlit("\n[[tags]]\nlabel = ");
    assert(ha.len() == 20 && ht.len() == 18);
    assert(parse_lit_at(input, p7, ha) is None) by {
        if labels.len() == 0 {
            assert(s8.len() == 0);
            assert(p7 + ha.len() > input.len());
        } else {
            let l0 = labels[0];
            let lrest = labels.drop_first();
            assert(labels =~= seq![l0] + lrest);
            lemma_sections_text_app(ht, seq![l0], lrest);
            assert(sections_text(ht, seq![l0]) =~= ht + quoted(l0) + "\n"@) by {
                assert(seq![l0].drop_last() =~= Seq::<Seq<char>>::empty());
                assert(sections_text(ht, Seq::<Seq<char>>::empty()) =~= Seq::<char>::empty());
                assert(seq![l0].last() == l0);
            }
            assert(s8[3] == ht[3]);
            assert(input[p7 + 3] == s8[3]) by {
                assert(input.subrange(p7, p8)[3] == input[p7 + 3]);
            }
            assert(ha[3] == 'a' && ht[3] == 't');
            if parse_lit_at(input, p7, ha) is Some {
                assert(input.subrange(p7, p7 + 20)[3] == ha[3]);
                assert(input[p7 + 3] == 'a');
            }
        }
    }
    lemma_sections_round_trip(ha, names, input, p6);
    assert(parse_lit_at(input, p8, ht) is None) by {
        assert(p8 + ht.len() > input.len());
    }
    lemma_sections_round_trip(ht, labels, input, p7);

    assert(i32::MIN <= p.year as int <= i32::MAX);
    assert(spec_parse_paper(input) == Some(paper_view(p)));
}
/// Append the characters of a literal.
fn push_literal(out: &mut Vec<char>, s: &str)
    ensures
        final(out)@ == old(out)@ + s@,
{
    let n = s.unicode_len();
    let mut i: usize = 0;
    proof {
        assert(out@ =~= old(out)@ + s@.take(0));
    }
    while i < n
        invariant
            0 <= i <= n == s@.len(),
            out@ == old(out)@ + s@.take(i as int),
        decreases n - i,
    {
        out.push(s.get_char(i));
        proof {
            assert(out@ =~= old(out)@ + s@.take(i + 1));
        }
        i = i + 1;
    }
    proof {
        assert(s@.take(n as int) =~= s@);
    }
}

/// One lowercase hexadecimal digit as a character.
fn hex_digit_char(v: u32) -> (c: char)
    requires
        v < 16,
    ensures
        c == hex_digit(v as int),
{
    if v == 0 {
        '0'
    } else if v == 1 {
        '1'
    } else if v == 2 {
        '2'
    } else if v == 3 {
        '3'
    } else if v == 4 {
        '4'
    } else if v == 5 {
        '5'
    } else if v == 6 {
        '6'
    } else if v == 7 {
        '7'
    } else if v == 8 {
        '8'
    } else if v == 9 {
        '9'
    } else if v == 10 {
        'a'
    } else if v == 11 {
        'b'
    } else if v == 12 {
        'c'
    } else if v == 13 {
        'd'
    } else if v == 14 {
        'e'
    } else {
        'f'
    }
}

/// Append the escape sequence of one character.
fn push_escape_char(out: &mut Vec<char>, c: char)
    ensures
        final(out)@ == old(out)@ + escape_char(c),
{
    let u = c as u32;
    if c == '"' {
        out.push('\\');
        out.push('"');
    } else if c == '\\' {
        out.push('\\');
        out.push('\\');
    } else if c == '\n' {
        out.push('\\');
        out.push('n');
    } else if c == '\t' {
        out.push('\\');
        out.push('t');
    } else if c == '\r' {
        out.push('\\');
        out.push('r');
    } else if c == '\u{8}' {
        out.push('\\');
        out.push('b');
    } else if c == '\u{c}' {
        out.push('\\');
        out.push('f');
    } else if u < 0x20 || c == '\u{7f}' {
        out.push('\\');
        out.push('u');
        out.push('0');
        out.push('0');
        out.push(hex_digit_char(u / 16));
        out.push(hex_digit_char(u % 16));
    } else {
        out.push(c);
    }
    proof {
        assert(out@ =~= old(out)@ + escape_char(c));
    }
}

/// Append a value in quotes, escaped.
fn push_quoted(out: &mut Vec<char>, s: &str)
    ensures
        final(out)@ == old(out)@ + quoted(s@),
{
    out.push('"');
    let n = s.unicode_len();
    let mut i: usize = 0;
    proof {
        reveal_with_fuel(escaped, 2);
        assert(escaped(s@.take(0)) =~= Seq::<char>::empty());
        assert(out@ =~= old(out)@ + seq!['"'] + escaped(s@.take(0)));
    }
    while i < n
        invariant
            0 <= i <= n == s@.len(),
            out@ == old(out)@ + seq!['"'] + escaped(s@.take(i as int)),
        decreases n - i,
    {
        proof {
            reveal_with_fuel(escaped, 2);
            assert(s@.take(i + 1).drop_last() =~= s@.take(i as int));
            assert(s@.take(i + 1).last() == s@[i as int]);
        }
        push_escape_char(out, s.get_char(i));
        i = i + 1;
    }
    out.push('"');
    proof {
        assert(s@.take(n as int) =~= s@);
        assert(out@ =~= old(out)@ + quoted(s@));
    }
}

/// Append the decimal digits of a non-negative number.
fn push_dec(out: &mut Vec<char>, n: u32)
    ensures
        final(out)@ == old(out)@ + dec_digits(n as int),
    decreases n,
{
    if n < 10 {
        out.push(hex_digit_char(n));
    } else {
        push_dec(out, n / 10);
        out.push(hex_digit_char(n % 10));
    }
}

/// Append a number in decimal, minus sign first for a negative one.
fn push_int(out: &mut Vec<char>, v: i32)
    ensures
        final(out)@ == old(out)@ + int_chars(v as int),
{
    if v < 0 {
        out.push('-');
        let mag = (-(v as i64)) as u32;
        proof {
            assert(mag as int == -(v as int));
        }
        push_dec(out, mag);
        proof {
            assert(out@ =~= old(out)@ + int_chars(v as int));
        }
    } else {
        push_dec(out, v as u32);
    }
}

/// Lay one entry out as text, exactly as [`serialized_paper`] says.
#[verifier::rlimit(100)]
pub fn serialize_paper(p: &Paper) -> (r: Vec<char>)
    ensures
        r@ == serialized_paper(*p),
{
    let mut out: Vec<char> = Vec::new();
    push_literal(&mut out, "title = ");
    push_quoted(&mut out, p.title.as_str());
    push_literal(&mut out, "\n");
    push_literal(&mut out, "year = ");
    push_int(&mut out, p.year);
    push_literal(&mut out, "\n");
    push_literal(&mut out, "journal = ");
    push_quoted(&mut out, p.journal.as_str());
    push_literal(&mut out, "\n");
    push_literal(&mut out, "description = ");
    push_quoted(&mut out, p.description.as_str());
    push_literal(&mut out, "\n");
    push_literal(&mut out, "bibtex = ");
    push_quoted(&mut out, p.bibtex.as_str());
    push_literal(&mut out, "\n");
    push_literal(&mut out, "docname = ");
    push_quoted(&mut out, p.docname.as_str());
    push_literal(&mut out, "\n");
    let ghost head = out@;
    let mut i: usize = 0;
    proof {
        assert(author_sections(p.authors@.take(0)) =~= Seq::<char>::empty());
        assert(out@ =~= head + author_sections(p.authors@.take(0)));
    }
    while i < p.authors.len()
        invariant
            0 <= i <= p.authors@.len(),
            out@ == head + author_sections(p.authors@.take(i as int)),
        decreases p.authors@.len() - i,
    {
        proof {
            assert(p.authors@.take(i + 1).drop_last() =~= p.authors@.take(i as int));
            assert(p.authors@.take(i + 1).last() == p.authors@[i as int]);
        }
        push_literal(&mut out, "\n[[authors]]\nname = ");
        push_quoted(&mut out, p.authors[i].name.as_str());
        push_literal(&mut out, "\n");
        proof {
            assert(out@ =~= head + author_sections(p.authors@.take(i + 1)));
        }
        i = i + 1;
    }
    proof {
        assert(p.authors@.take(p.authors@.len() as int) =~= p.authors@);
    }
    let ghost mid = out@;
    let mut j: usize = 0;
    proof {
        assert(tag_sections(p.tags@.take(0)) =~= Seq::<char>::empty());
        assert(out@ =~= mid + tag_sections(p.tags@.take(0)));
    }
    while j < p.tags.len()
        invariant
            0 <= j <= p.tags@.len(),
            out@ == mid + tag_sections(p.tags@.take(j as int)),
        decreases p.tags@.len() - j,
    {
        proof {
            assert(p.tags@.take(j + 1).drop_last() =~= p.tags@.take(j as int));
            assert(p.tags@.take(j + 1).last() == p.tags@[j as int]);
        }
        push_literal(&mut out, "\n[[tags]]\nlabel = ");
        push_quoted(&mut out, p.tags[j].label.as_str());
        push_literal(&mut out, "\n");
        proof {
            assert(out@ =~= mid + tag_sections(p.tags@.take(j + 1)));
        }
        j = j + 1;
    }
    proof {
        assert(p.tags@.take(p.tags@.len() as int) =~= p.tags@);
        assert(out@ =~= serialized_paper(*p));
    }
    out
}

/// Relies on String::from_iter: builds the string holding exactly the
/// given characters in order.
#[verifier::external_body]
fn chars_to_string(v: Vec<char>) -> (s: String)
    ensures
        s@ == v@,
{
    v.into_iter().collect()
}

/// Whether the character is a lowercase hexadecimal digit.
fn exec_is_lower_hex(c: char) -> (r: bool)
    ensures
        r == is_lower_hex(c),
{
    let u = c as u32;
    (48 <= u && u <= 57) || (97 <= u && u <= 102)
}

/// The value of a lowercase hexadecimal digit.
fn exec_hex_val(c: char) -> (r: u32)
    requires
        is_lower_hex(c),
    ensures
        r as int == hex_val(c),
        r < 16,
{
    let u = c as u32;
    if u <= 57 {
        u - 48
    } else {
        u - 87
    }
}

/// The character a short escape stands for.
fn exec_unescape_short(c: char) -> (r: char)
    ensures
        r == unescape_short(c),
{
    if c == 'n' {
        '\n'
    } else if c == 't' {
        '\t'
    } else if c == 'r' {
        '\r'
    } else if c == 'b' {
        '\u{8}'
    } else if c == 'f' {
        '\u{c}'
    } else {
        c
    }
}

/// Read the literal `lit` at `pos`.
fn exec_parse_lit(input: &Vec<char>, pos: usize, lit: &str) -> (r: Option<usize>)
    ensures
        r is Some <==> parse_lit_at(input@, pos as int, lit@) is Some,
        r is Some ==> r->0 as int == parse_lit_at(input@, pos as int, lit@)->0,
{
    let m = lit.unicode_len();
    if pos > input.len() || m > input.len() - pos {
        return None;
    }
    let mut i: usize = 0;
    while i < m
        invariant
            0 <= i <= m == lit@.len(),
            pos + m <= input@.len() <= usize::MAX,
            forall|j: int| 0 <= j < i ==> input@[pos + j] == lit@[j],
        decreases m - i,
    {
        if input[pos + i] != lit.get_char(i) {
            proof {
                if parse_lit_at(input@, pos as int, lit@) is Some {
                    assert(input@.subrange(pos as int, pos + m)[i as int] == lit@[i as int]);
                }
            }
            return None;
        }
        i = i + 1;
    }
    proof {
        assert(input@.subrange(pos as int, pos + m) =~= lit@);
    }
    Some(pos + m)
}

/// Read the remainder of a quoted value, undoing the escapes.
fn exec_parse_string_body(input: &Vec<char>, pos: usize) -> (r: Option<(Vec<char>, usize)>)
    ensures
        r is Some <==> parse_string_body(input@, pos as int) is Some,
        r matches Some(rr) ==> parse_string_body(input@, pos as int) == Some(
            (rr.0@, rr.1 as int),
        ),
{
    let mut acc: Vec<char> = Vec::new();
    let mut p: usize = pos;
    loop
        invariant
            pos <= p <= usize::MAX,
            (parse_string_body(input@, pos as int) is Some <==> parse_string_body(
                input@,
                p as int,
            ) is Some),
            parse_string_body(input@, p as int) matches Some(r2) ==> parse_string_body(
                input@,
                pos as int,
            ) == Some((acc@ + r2.0, r2.1)),
        decreases input@.len() - p,
    {
        proof {
            reveal_with_fuel(parse_string_body, 2);
        }
        if p >= input.len() {
            return None;
        }
        let c = input[p];
        if c == '"' {
            proof {
                assert(acc@ + Seq::<char>::empty() =~= acc@);
            }
            return Some((acc, p + 1));
        }
        if c == '\\' {
            if p + 1 >= input.len() {
                return None;
            }
            let e = input[p + 1];
            if e == 'u' {
                if input.len() - p < 6 || input[p + 2] != '0' || input[p + 3] != '0'
                    || !exec_is_lower_hex(input[p + 4]) || !exec_is_lower_hex(input[p + 5]) {
                    return None;
                }
                let code: u32 = 16 * exec_hex_val(input[p + 4]) + exec_hex_val(input[p + 5]);
                let decoded = (code as u8) as char;
                proof {
                    vstd::utf8::char_u32_cast(decoded, code);
                    assert((code as u32) as char == decoded);
                }
                let ghost pre = acc@;
                acc.push(decoded);
                proof {
                    if parse_string_body(input@, p + 6) is Some {
                        let r2 = parse_string_body(input@, p + 6)->0;
                        assert(pre + (seq![decoded] + r2.0) =~= acc@ + r2.0);
                    }
                }
                p = p + 6;
            } else {
                let is_short = e == '"' || e == '\\' || e == 'n' || e == 't' || e == 'r' || e
                    == 'b' || e == 'f';
                if !is_short {
                    return None;
                }
                let decoded = exec_unescape_short(e);
                let ghost pre = acc@;
                acc.push(decoded);
                proof {
                    if parse_string_body(input@, p + 2) is Some {
                        let r2 = parse_string_body(input@, p + 2)->0;
                        assert(pre + (seq![decoded] + r2.0) =~= acc@ + r2.0);
                    }
                }
                p = p + 2;
            }
        } else {
            let ghost pre = acc@;
            acc.push(c);
            proof {
                if parse_string_body(input@, p + 1) is Some {
                    let r2 = parse_string_body(input@, p + 1)->0;
                    assert(pre + (seq![c] + r2.0) =~= acc@ + r2.0);
                }
            }
            p = p + 1;
        }
    }
}

/// Read a quoted value at `pos`, opening quote included.
fn exec_parse_quoted(input: &Vec<char>, pos: usize) -> (r: Option<(Vec<char>, usize)>)
    ensures
        r is Some <==> parse_quoted_at(input@, pos as int) is Some,
        r matches Some(rr) ==> parse_quoted_at(input@, pos as int) == Some((rr.0@, rr.1 as int)),
{
    if pos < input.len() && input[pos] == '"' {
        exec_parse_string_body(input, pos + 1)
    } else {
        None
    }
}

/// Read one `key = "value"` line at `pos`, newline included.
fn exec_parse_kv(input: &Vec<char>, pos: usize, key: &str) -> (r: Option<(Vec<char>, usize)>)
    ensures
        r is Some <==> parse_kv_quoted(input@, pos as int, key@) is Some,
        r matches Some(rr) ==> parse_kv_quoted(input@, pos as int, key@) == Some(
            (rr.0@, rr.1 as int),
        ),
{
    match exec_parse_lit(input, pos, key) {
        None => None,
        Some(p1) => match exec_parse_quoted(input, p1) {
            None => None,
            Some((v, p2)) => match exec_parse_lit(input, p2, "\n") {
                None => None,
                Some(p3) => Some((v, p3)),
            },
        },
    }
}

/// The value of a digit row is never negative.
proof fn lemma_digits_value_nonneg(s: Seq<char>)
    requires
        forall|k: int| 0 <= k < s.len() ==> is_digit(#[trigger] s[k]),
    ensures
        digits_value(s) >= 0,
    decreases s.len(),
{
    if s.len() > 0 {
        lemma_digits_value_nonneg(s.drop_last());
    }
}

/// A digit row is worth at least any of its prefixes.
proof fn lemma_digits_value_prefix_le(s: Seq<char>, i: int)
    requires
        0 <= i <= s.len(),
        forall|k: int| 0 <= k < s.len() ==> is_digit(#[trigger] s[k]),
    ensures
        digits_value(s.take(i)) <= digits_value(s),
    decreases s.len(),
{
    if i < s.len() {
        assert(s.drop_last().take(i) =~= s.take(i));
        lemma_digits_value_prefix_le(s.drop_last(), i);
        lemma_digits_value_nonneg(s.drop_last());
        assert(digit_val(s.last()) >= 0);
    } else {
        assert(s.take(i) =~= s);
    }
}

/// The position just past the run of decimal digits starting at `pos`.
fn exec_digit_run_end(input: &Vec<char>, pos: usize) -> (r: usize)
    requires
        pos <= input@.len(),
    ensures
        r as int == digit_run_end(input@, pos as int),
        pos <= r <= input@.len(),
{
    let mut p = pos;
    while p < input.len() && '0' <= input[p] && input[p] <= '9'
        invariant
            pos <= p <= input@.len(),
            digit_run_end(input@, pos as int) == digit_run_end(input@, p as int),
        decreases input@.len() - p,
    {
        p = p + 1;
    }
    proof {
        assert(p == input@.len() || !is_digit(input@[p as int]));
    }
    p
}

/// The value of the digit run `[lo, hi)`, when it fits a magnitude of
/// at most 2^31; a larger run is reported as out of range.
fn exec_digits_mag(input: &Vec<char>, lo: usize, hi: usize) -> (r: Option<u32>)
    requires
        lo <= hi <= input@.len(),
        forall|k: int| lo <= k < hi ==> is_digit(#[trigger] input@[k]),
    ensures
        r is Some <==> digits_value(input@.subrange(lo as int, hi as int)) <= 0x8000_0000,
        r matches Some(m) ==> m as int == digits_value(input@.subrange(lo as int, hi as int)),
{
    let ghost whole = input@.subrange(lo as int, hi as int);
    proof {
        assert forall|k: int| 0 <= k < whole.len() implies is_digit(#[trigger] whole[k]) by {
            assert(whole[k] == input@[lo + k]);
        }
        assert(whole.take(0) =~= Seq::<char>::empty());
    }
    let mut acc: u64 = 0;
    let mut k = lo;
    while k < hi
        invariant
            lo <= k <= hi <= input@.len(),
            whole == input@.subrange(lo as int, hi as int),
            forall|j: int| 0 <= j < whole.len() ==> is_digit(#[trigger] whole[j]),
            acc as int == digits_value(whole.take(k - lo)),
            acc <= 0x8000_0000,
        decreases hi - k,
    {
        let c = input[k];
        proof {
            assert(whole[k - lo] == input@[k as int]);
        }
        let d: u32 = (c as u32) - 48;
        let next: u64 = acc * 10 + (d as u64);
        proof {
            assert(whole.take(k - lo + 1).drop_last() =~= whole.take(k - lo));
            assert(whole.take(k - lo + 1).last() == whole[k - lo]);
            assert(d as int == digit_val(whole[k - lo]));
        }
        if next > 0x8000_0000 {
            proof {
                lemma_digits_value_prefix_le(whole, k - lo + 1);
                assert(whole.take(whole.len() as int) =~= whole);
            }
            return None;
        }
        acc = next;
        k = k + 1;
    }
    proof {
        assert(whole.take(k - lo) =~= whole);
    }
    Some(acc as u32)
}

/// Read a decimal number at `pos`, with an optional leading minus. A
/// number outside the 32-bit signed range is reported as out of range,
/// but still consumed.
fn exec_parse_int(input: &Vec<char>, pos: usize) -> (r: Option<(Option<i32>, usize)>)
    requires
        pos <= input@.len(),
    ensures
        r is Some <==> parse_int_at(input@, pos as int) is Some,
        r matches Some(rr) ==> ({
            let sv = parse_int_at(input@, pos as int)->0;
            &&& rr.1 as int == sv.1
            &&& (rr.0 is Some <==> i32::MIN <= sv.0 <= i32::MAX)
            &&& (rr.0 matches Some(x) ==> x as int == sv.0)
        }),
{
    if pos < input.len() && input[pos] == '-' {
        let e = exec_digit_run_end(input, pos + 1);
        proof {
            lemma_digit_run_digits(input@, pos + 1);
        }
        if e == pos + 1 {
            return None;
        }
        match exec_digits_mag(input, pos + 1, e) {
            None => {
                proof {
                    lemma_digits_value_nonneg(input@.subrange(pos + 1, e as int));
                }
                Some((None, e))
            },
            Some(m) => if m > 0x8000_0000u32 {
                Some((None, e))
            } else if m == 0x8000_0000u32 {
                Some((Some(i32::MIN), e))
            } else {
                Some((Some(-(m as i32)), e))
            },
        }
    } else {
        let e = exec_digit_run_end(input, pos);
        proof {
            lemma_digit_run_digits(input@, pos as int);
        }
        if e == pos {
            return None;
        }
        match exec_digits_mag(input, pos, e) {
            None => {
                proof {
                    lemma_digits_value_nonneg(input@.subrange(pos as int, e as int));
                }
                Some((None, e))
            },
            Some(m) => if m > 0x7fff_ffffu32 {
                Some((None, e))
            } else {
                Some((Some(m as i32), e))
            },
        }
    }
}

/// Every character before the end of a digit run is a digit.
proof fn lemma_digit_run_digits(input: Seq<char>, pos: int)
    requires
        0 <= pos <= input.len(),
    ensures
        pos <= digit_run_end(input, pos) <= input.len(),
        forall|k: int|
            pos <= k < digit_run_end(input, pos) ==> is_digit(#[trigger] input[k]),
    decreases input.len() - pos,
{
    if 0 <= pos < input.len() && is_digit(input[pos]) {
        lemma_digit_run_digits(input, pos + 1);
    }
}

/// Read zero or more sections at `pos`.
fn exec_parse_sections(input: &Vec<char>, pos: usize, header: &str) -> (r: Option<
    (Vec<String>, usize),
>)
    ensures
        r is Some <==> parse_sections(input@, pos as int, header@) is Some,
        r matches Some(rr) ==> ({
            let sv = parse_sections(input@, pos as int, header@)->0;
            &&& rr.1 as int == sv.1
            &&& rr.0@.map_values(|s: String| s@) == sv.0
        }),
{
    let mut values: Vec<String> = Vec::new();
    let mut p = pos;
    let ghost zero = values@.map_values(|s: String| s@);
    loop
        invariant
            pos <= p <= usize::MAX,
            (parse_sections(input@, pos as int, header@) is Some <==> parse_sections(
                input@,
                p as int,
                header@,
            ) is Some),
            parse_sections(input@, p as int, header@) matches Some(r2) ==> parse_sections(
                input@,
                pos as int,
                header@,
            ) == Some((values@.map_values(|s: String| s@) + r2.0, r2.1)),
        decreases 2 * input@.len() + 1 - p + pos,
    {
        match exec_parse_lit(input, p, header) {
            None => {
                proof {
                    assert(values@.map_values(|s: String| s@) + Seq::<Seq<char>>::empty()
                        =~= values@.map_values(|s: String| s@));
                }
                return Some((values, p));
            },
            Some(p1) => {
                match exec_parse_quoted(input, p1) {
                    None => {
                        return None;
                    },
                    Some((v, p2)) => {
                        match exec_parse_lit(input, p2, "\n") {
                            None => {
                                return None;
                            },
                            Some(p3) => {
                                if !(p < p3 && p3 <= input.len()) {
                                    return None;
                                }
                                let ghost prev = values@.map_values(|s: String| s@);
                                let ghost vv = v@;
                                values.push(chars_to_string(v));
                                proof {
                                    assert(values@.map_values(|s: String| s@) =~= prev.push(vv));
                                    if parse_sections(input@, p3 as int, header@) is Some {
                                        let r2 = parse_sections(input@, p3 as int, header@)->0;
                                        assert(prev + (seq![vv] + r2.0) =~= prev.push(vv) + r2.0);
                                    }
                                }
                                p = p3;
                            },
                        }
                    },
                }
            },
        }
    }
}

/// Read one whole entry back from its text, exactly as
/// [`spec_parse_paper`] says: the fixed layout with nothing left over.
pub fn parse_paper(input: &Vec<char>) -> (r: Option<Paper>)
    ensures
        r is Some <==> spec_parse_paper(input@) is Some,
        r matches Some(p) ==> spec_parse_paper(input@) == Some(paper_view(p)),
{
    let t = match exec_parse_kv(input, 0, "title = ") {
        None => {
            return None;
        },
        Some(x) => x,
    };
    let py = match exec_parse_lit(input, t.1, "year = ") {
        None => {
            return None;
        },
        Some(x) => x,
    };
    let y = match exec_parse_int(input, py) {
        None => {
            return None;
        },
        Some(x) => x,
    };
    let p2 = match exec_parse_lit(input, y.1, "\n") {
        None => {
            return None;
        },
        Some(x) => x,
    };
    let j = match exec_parse_kv(input, p2, "journal = ") {
        None => {
            return None;
        },
        Some(x) => x,
    };
    let d = match exec_parse_kv(input, j.1, "description = ") {
        None => {
            return None;
        },
        Some(x) => x,
    };
    let b = match exec_parse_kv(input, d.1, "bibtex = ") {
        None => {
            return None;
        },
        Some(x) => x,
    };
    let dn = match exec_parse_kv(input, b.1, "docname = ") {
        None => {
            return None;
        },
        Some(x) => x,
    };
    let au = match exec_parse_sections(input, dn.1, "\n[[authors]]\nname = ") {
        None => {
            return None;
        },
        Some(x) => x,
    };
    let tg = match exec_parse_sections(input, au.1, "\n[[tags]]\nlabel = ") {
        None => {
            return None;
        },
        Some(x) => x,
    };
    if tg.1 != input.len() {
        return None;
    }
    let year = match y.0 {
        None => {
            return None;
        },
        Some(v) => v,
    };
    let ghost au_view = au.0@.map_values(|s: String| s@);
    let ghost tg_view = tg.0@.map_values(|s: String| s@);
    let mut authors: Vec<Author> = Vec::new();
    let mut i: usize = 0;
    let au_names = au.0;
    while i < au_names.len()
        invariant
            0 <= i <= au_names@.len(),
            au_view == au_names@.map_values(|s: String| s@),
            authors@.len() == i,
            forall|k: int| 0 <= k < i ==> (#[trigger] authors@[k]).name@ == au_view[k],
        decreases au_names@.len() - i,
    {
        authors.push(Author { name: au_names[i].clone() });
        proof {
            assert(au_view[i as int] == au_names@[i as int]@);
        }
        i = i + 1;
    }
    let mut tags: Vec<Tag> = Vec::new();
    let mut k: usize = 0;
    let tg_labels = tg.0;
    while k < tg_labels.len()
        invariant
            0 <= k <= tg_labels@.len(),
            tg_view == tg_labels@.map_values(|s: String| s@),
            tags@.len() == k,
            forall|q: int| 0 <= q < k ==> (#[trigger] tags@[q]).label@ == tg_view[q],
        decreases tg_labels@.len() - k,
    {
        tags.push(Tag { label: tg_labels[k].clone() });
        proof {
            assert(tg_view[k as int] == tg_labels@[k as int]@);
        }
        k = k + 1;
    }
    let paper = Paper {
        title: chars_to_string(t.0),
        year,
        journal: chars_to_string(j.0),
        description: chars_to_string(d.0),
        bibtex: chars_to_string(b.0),
        docname: chars_to_string(dn.0),
        authors,
        tags,
    };
    proof {
        assert(paper_view(paper).authors =~= au_view);
        assert(paper_view(paper).tags =~= tg_view);
        assert(spec_parse_paper(input@) == Some(paper_view(paper)));
    }
    Some(paper)
}

} // verus!