//! The persistence format of the metadata list: a pretty-printed JSON array of
//! records, one object of three string fields per record. The serializer is
//! exact — its output is pinned down character by character. The parser reads
//! back any record-array text of that shape: this serializer's own output, an
//! ordinary pretty or compact JSON writer's, or hand edits that keep the
//! member order — whitespace between tokens is free and strings may use the
//! common escapes. That it recovers exactly what the serializer wrote is
//! [`lemma_parse_serialize`].

use vstd::prelude::*;
use crate::record::ImageMeta;
use crate::record::ImageMetaView;
use crate::text::chars_of;
use crate::text::chars_to_string;
use crate::text::push_str_chars;

verus! {

/// The lower-case hexadecimal digit for `n`.
pub open spec fn hex_digit(n: int) -> char {
    if n == 0 { '0' }
    else if n == 1 { '1' }
    else if n == 2 { '2' }
    else if n == 3 { '3' }
    else if n == 4 { '4' }
    else if n == 5 { '5' }
    else if n == 6 { '6' }
    else if n == 7 { '7' }
    else if n == 8 { '8' }
    else if n == 9 { '9' }
    else if n == 10 { 'a' }
    else if n == 11 { 'b' }
    else if n == 12 { 'c' }
    else if n == 13 { 'd' }
    else if n == 14 { 'e' }
    else { 'f' }
}

/// The value of a lower-case hexadecimal digit, `-1` if `c` is none.
pub open spec fn hex_val(c: char) -> int {
    if c == '0' { 0 }
    else if c == '1' { 1 }
    else if c == '2' { 2 }
    else if c == '3' { 3 }
    else if c == '4' { 4 }
    else if c == '5' { 5 }
    else if c == '6' { 6 }
    else if c == '7' { 7 }
    else if c == '8' { 8 }
    else if c == '9' { 9 }
    else if c == 'a' { 10 }
    else if c == 'b' { 11 }
    else if c == 'c' { 12 }
    else if c == 'd' { 13 }
    else if c == 'e' { 14 }
    else if c == 'f' { 15 }
    else { -1 }
}

/// How one character appears inside a JSON string literal: quote and backslash
/// are escaped, control characters become `\u00XX`, everything else stands as
/// itself.
pub open spec fn escaped_char(c: char) -> Seq<char> {
    if c == '"' {
        seq!['\\', '"']
    } else if c == '\\' {
        seq!['\\', '\\']
    } else if (c as u32) < 32 {
        seq!['\\', 'u', '0', '0', hex_digit((c as u32) as int / 16), hex_digit((c as u32) as int % 16)]
    } else {
        seq![c]
    }
}

/// The body of the JSON string literal holding `s`.
pub open spec fn escape_str(s: Seq<char>) -> Seq<char>
    decreases s.len(),
{
    if s.len() == 0 {
        Seq::empty()
    } else {
        escaped_char(s[0]) + escape_str(s.skip(1))
    }
}

/// The JSON object for one record, indented for a two-space pretty-printed
/// array.
pub open spec fn record_json(r: ImageMetaView) -> Seq<char> {
    "{\n    \"path\": \""@ + escape_str(r.path) + "\",\n    \"title\": \""@ + escape_str(r.title)
        + "\",\n    \"description\": \""@ + escape_str(r.description) + "\"\n  }"@
}

/// The records' objects joined by the array separator.
pub open spec fn join_records(l: Seq<ImageMetaView>) -> Seq<char>
    decreases l.len(),
{
    if l.len() == 0 {
        Seq::empty()
    } else if l.len() == 1 {
        record_json(l[0])
    } else {
        record_json(l[0]) + ",\n  "@ + join_records(l.skip(1))
    }
}

/// The serialized form of the whole list: `[]` when empty, else a
/// pretty-printed JSON array.
pub open spec fn serialize_spec(l: Seq<ImageMetaView>) -> Seq<char> {
    if l.len() == 0 {
        "[]"@
    } else {
        "[\n  "@ + join_records(l) + "\n]"@
    }
}

/// Escaping distributes over concatenation.
pub proof fn lemma_escape_append(a: Seq<char>, b: Seq<char>)
    ensures
        escape_str(a + b) == escape_str(a) + escape_str(b),
    decreases a.len(),
{
    if a.len() == 0 {
        assert(a + b =~= b);
        assert(escape_str(a) + escape_str(b) =~= escape_str(b));
    } else {
        lemma_escape_append(a.skip(1), b);
        assert((a + b).skip(1) =~= a.skip(1) + b);
        assert(escape_str(a) + escape_str(b) =~= escaped_char(a[0]) + (escape_str(a.skip(1))
            + escape_str(b)));
    }
}

/// Escaping one more character appends that character's escape.
pub proof fn lemma_escape_snoc(s: Seq<char>, i: int)
    requires
        0 <= i < s.len(),
    ensures
        escape_str(s.take(i + 1)) == escape_str(s.take(i)) + escaped_char(s[i]),
{
    lemma_escape_append(s.take(i), seq![s[i]]);
    assert(s.take(i + 1) =~= s.take(i) + seq![s[i]]);
    assert(escape_str(seq![s[i]]) =~= escaped_char(s[i])) by {
        let u = seq![s[i]];
        assert(u.len() == 1 && u[0] == s[i]);
        assert(u.skip(1) =~= Seq::<char>::empty());
        assert(escape_str(u) == escaped_char(s[i]) + escape_str(u.skip(1)));
        assert(escape_str(Seq::<char>::empty()) == Seq::<char>::empty());
        assert(escaped_char(s[i]) + Seq::<char>::empty() =~= escaped_char(s[i]));
    }
}

/// Joining one more record appends a separator and that record's object.
pub proof fn lemma_join_snoc(l: Seq<ImageMetaView>, i: int)
    requires
        1 <= i < l.len(),
    ensures
        join_records(l.take(i + 1)) == join_records(l.take(i)) + ",\n  "@ + record_json(l[i]),
    decreases i,
{
    if i == 1 {
        assert(l.take(2)[0] == l[0]);
        assert(l.take(2).skip(1) =~= seq![l[1]]);
        assert(join_records(seq![l[1]]) == record_json(l[1]));
        assert(join_records(l.take(1)) == record_json(l[0]));
        assert(join_records(l.take(2)) =~= record_json(l[0]) + ",\n  "@ + record_json(l[1]));
    } else {
        lemma_join_snoc(l.skip(1), i - 1);
        assert(l.take(i + 1).skip(1) =~= l.skip(1).take(i));
        assert(l.take(i).skip(1) =~= l.skip(1).take(i - 1));
        assert(l.take(i + 1)[0] == l[0]);
        assert(l.take(i)[0] == l[0]);
        assert(l.skip(1)[i - 1] == l[i]);
        assert(join_records(l.take(i + 1)) == record_json(l[0]) + ",\n  "@ + join_records(l.skip(1).take(i)));
        assert(join_records(l.take(i)) == record_json(l[0]) + ",\n  "@ + join_records(l.skip(1).take(i - 1)));
        assert(record_json(l[0]) + ",\n  "@ + (join_records(l.skip(1).take(i - 1)) + ",\n  "@
            + record_json(l[i])) =~= (record_json(l[0]) + ",\n  "@ + join_records(l.skip(1).take(i
            - 1))) + ",\n  "@ + record_json(l[i]));
    }
}

/// The hexadecimal digit for `n` (exec mirror of [`hex_digit`]).
fn hex_digit_x(n: u32) -> (c: char)
    requires
        n < 16,
    ensures
        c == hex_digit(n as int),
{
    if n == 0 { '0' }
    else if n == 1 { '1' }
    else if n == 2 { '2' }
    else if n == 3 { '3' }
    else if n == 4 { '4' }
    else if n == 5 { '5' }
    else if n == 6 { '6' }
    else if n == 7 { '7' }
    else if n == 8 { '8' }
    else if n == 9 { '9' }
    else if n == 10 { 'a' }
    else if n == 11 { 'b' }
    else if n == 12 { 'c' }
    else if n == 13 { 'd' }
    else if n == 14 { 'e' }
    else { 'f' }
}

/// Append the escaped form of `s` to `out`.
fn push_escaped(out: &mut Vec<char>, s: &String)
    ensures
        final(out)@ == old(out)@ + escape_str(s@),
{
    let st = s.as_str();
    let n = st.unicode_len();
    let mut i: usize = 0;
    while i < n
        invariant
            st@ == s@,
            n == s@.len(),
            i <= n,
            out@ == old(out)@ + escape_str(s@.take(i as int)),
        decreases n - i,
    {
        let c = st.get_char(i);
        let ghost before = out@;
        if c == '"' {
            out.push('\\');
            out.push('"');
        } else if c == '\\' {
            out.push('\\');
            out.push('\\');
        } else {
            let code = c as u32;
            if code < 32 {
                out.push('\\');
                out.push('u');
                out.push('0');
                out.push('0');
                out.push(hex_digit_x(code / 16));
                out.push(hex_digit_x(code % 16));
            } else {
                out.push(c);
            }
        }
        proof {
            assert(out@ =~= before + escaped_char(s@[i as int]));
            lemma_escape_snoc(s@, i as int);
            assert(out@ =~= old(out)@ + escape_str(s@.take(i + 1 as int)));
        }
        i = i + 1;
    }
    assert(s@.take(n as int) =~= s@);
}

/// Append one record's JSON object to `out`.
fn push_record(out: &mut Vec<char>, r: &ImageMeta)
    ensures
        final(out)@ == old(out)@ + record_json(r@),
{
    push_str_chars(out, "{\n    \"path\": \"");
    push_escaped(out, &r.path);
    push_str_chars(out, "\",\n    \"title\": \"");
    push_escaped(out, &r.title);
    push_str_chars(out, "\",\n    \"description\": \"");
    push_escaped(out, &r.description);
    push_str_chars(out, "\"\n  }");
    assert(out@ =~= old(out)@ + record_json(r@));
}

/// Serialize the whole list as pretty-printed JSON.
pub fn serialize_images(list: &Vec<ImageMeta>) -> (r: String)
    ensures
        r@ == serialize_spec(list.deep_view()),
{
    if list.len() == 0 {
        assert(list.deep_view().len() == 0);
        let r = String::from_str("[]");
        return r;
    }
    let ghost l = list.deep_view();
    let mut out: Vec<char> = Vec::new();
    push_str_chars(&mut out, "[\n  ");
    let mut i: usize = 0;
    while i < list.len()
        invariant
            l == list.deep_view(),
            l.len() == list@.len(),
            1 <= list@.len(),
            i <= list@.len(),
            forall|k: int| 0 <= k < l.len() ==> l[k] == list@[k]@,
            out@ == "[\n  "@ + join_records(l.take(i as int)),
        decreases list@.len() - i,
    {
        let ghost before = out@;
        if i > 0 {
            push_str_chars(&mut out, ",\n  ");
        }
        push_record(&mut out, &list[i]);
        proof {
            if i == 0 {
                assert(l.take(1) =~= seq![l[0]]);
                assert(join_records(seq![l[0]]) == record_json(l[0]));
                assert(out@ =~= "[\n  "@ + join_records(l.take(1)));
            } else {
                lemma_join_snoc(l, i as int);
                assert(out@ =~= "[\n  "@ + (join_records(l.take(i as int)) + ",\n  "@
                    + record_json(l[i as int])));
                assert(out@ =~= "[\n  "@ + join_records(l.take(i + 1 as int)));
            }
        }
        i = i + 1;
    }
    push_str_chars(&mut out, "\n]");
    proof {
        assert(l.take(l.len() as int) =~= l);
        assert(out@ =~= "[\n  "@ + join_records(l) + "\n]"@);
    }
    chars_to_string(&out)
}


/// `lit` occurs in `s` at position `i`.
pub open spec fn expect(s: Seq<char>, i: int, lit: Seq<char>) -> bool {
    0 <= i && i + lit.len() <= s.len() && s.subrange(i, i + lit.len()) == lit
}

/// JSON whitespace.
pub open spec fn is_ws(c: char) -> bool {
    c == ' ' || c == '\n' || c == '\r' || c == '\t'
}

/// The first position at or behind `i` that holds no whitespace (or the end
/// of the text).
pub open spec fn skip_ws(s: Seq<char>, i: int) -> int
    decreases s.len() - i,
{
    if 0 <= i < s.len() && is_ws(s[i]) {
        skip_ws(s, i + 1)
    } else {
        i
    }
}

/// Skip whitespace, then require `lit`; the position right behind it.
pub open spec fn tok(s: Seq<char>, i: int, lit: Seq<char>) -> Option<int> {
    let j = skip_ws(s, i);
    if expect(s, j, lit) {
        Some(j + lit.len())
    } else {
        None
    }
}

/// What a one-character backslash escape abbreviates.
pub open spec fn short_escape(c: char) -> Option<char> {
    if c == '"' { Some('"') }
    else if c == '\\' { Some('\\') }
    else if c == '/' { Some('/') }
    else if c == 'b' { Some('\u{08}') }
    else if c == 'f' { Some('\u{0c}') }
    else if c == 'n' { Some('\n') }
    else if c == 'r' { Some('\r') }
    else if c == 't' { Some('\t') }
    else { None }
}

/// Scan a JSON string body beginning at `i`, undoing escapes, up to — not
/// past — the closing quote. Both the one-character escapes and the `\u00XX`
/// control escapes are accepted, so the texts this crate's serializer and an
/// ordinary JSON writer produce all read back; a raw control character, or an
/// escape form neither writer produces, is refused.
pub open spec fn scan_string(s: Seq<char>, i: int) -> Option<(Seq<char>, int)>
    decreases s.len() - i,
{
    if i < 0 || i >= s.len() {
        None
    } else if s[i] == '"' {
        Some((Seq::empty(), i))
    } else if s[i] == '\\' {
        if i + 1 < s.len() && short_escape(s[i + 1]) is Some {
            match scan_string(s, i + 2) {
                Some((t, j)) => Some((seq![short_escape(s[i + 1]).unwrap()] + t, j)),
                None => None,
            }
        } else if i + 5 < s.len() && s[i + 1] == 'u' && s[i + 2] == '0' && s[i + 3] == '0' && 0
            <= hex_val(s[i + 4]) < 2 && 0 <= hex_val(s[i + 5]) {
            match scan_string(s, i + 6) {
                Some((t, j)) => Some(
                    (seq![((16 * hex_val(s[i + 4]) + hex_val(s[i + 5])) as char)] + t, j),
                ),
                None => None,
            }
        } else {
            None
        }
    } else if (s[i] as u32) < 32 {
        None
    } else {
        match scan_string(s, i + 1) {
            Some((t, j)) => Some((seq![s[i]] + t, j)),
            None => None,
        }
    }
}

/// One `"key": "value"` object member: the key, a colon, and a quoted string,
/// any whitespace between the tokens.
pub open spec fn scan_member(s: Seq<char>, i: int, key: Seq<char>) -> Option<(Seq<char>, int)> {
    match tok(s, i, key) {
        None => None,
        Some(a) => match tok(s, a, ":"@) {
            None => None,
            Some(b) => match tok(s, b, "\""@) {
                None => None,
                Some(c) => match scan_string(s, c) {
                    None => None,
                    Some((t, j)) => if j < s.len() && s[j] == '"' {
                        Some((t, j + 1))
                    } else {
                        None
                    },
                },
            },
        },
    }
}

/// Scan one record's JSON object beginning at `i`: the three members in
/// their fixed order, any whitespace between the tokens.
pub open spec fn scan_record(s: Seq<char>, i: int) -> Option<(ImageMetaView, int)> {
    match tok(s, i, "{"@) {
        None => None,
        Some(a) => match scan_member(s, a, "\"path\""@) {
            None => None,
            Some((path, b)) => match tok(s, b, ","@) {
                None => None,
                Some(c) => match scan_member(s, c, "\"title\""@) {
                    None => None,
                    Some((title, d)) => match tok(s, d, ","@) {
                        None => None,
                        Some(e) => match scan_member(s, e, "\"description\""@) {
                            None => None,
                            Some((description, g)) => match tok(s, g, "}"@) {
                                None => None,
                                Some(h) => Some((ImageMetaView { path, title, description }, h)),
                            },
                        },
                    },
                },
            },
        },
    }
}

/// Scan comma-separated records beginning at `i`.
pub open spec fn scan_records(s: Seq<char>, i: int) -> Option<(Seq<ImageMetaView>, int)>
    decreases s.len() - i,
{
    match scan_record(s, i) {
        None => None,
        Some((r, j)) => if !(i < j && j <= s.len()) {
            None
        } else {
            match tok(s, j, ","@) {
                Some(k) => if !(j < k && k <= s.len()) {
                    None
                } else {
                    match scan_records(s, k) {
                        Some((rest, m)) => Some((seq![r] + rest, m)),
                        None => None,
                    }
                },
                None => Some((seq![r], j)),
            }
        },
    }
}

/// What the parser accepts: a JSON array of records with the members in
/// their fixed order — the output of [`serialize_spec`], of an ordinary
/// pretty or compact JSON writer, or of hand edits that keep that shape.
/// Whitespace between tokens is free; strings may use the one-character
/// escapes or `\u00XX` for control characters.
pub open spec fn spec_parse(s: Seq<char>) -> Option<Seq<ImageMetaView>> {
    match tok(s, 0, "["@) {
        None => None,
        Some(a) => match tok(s, a, "]"@) {
            Some(b) => if skip_ws(s, b) == s.len() {
                Some(Seq::empty())
            } else {
                None
            },
            None => match scan_records(s, a) {
                None => None,
                Some((l, j)) => match tok(s, j, "]"@) {
                    None => None,
                    Some(b) => if skip_ws(s, b) == s.len() {
                        Some(l)
                    } else {
                        None
                    },
                },
            },
        },
    }
}

/// Parse failure, or anything else outside the canonical shape, yields `None`;
/// the loader treats that as an empty list.
pub open spec fn spec_load(contents: Option<Seq<char>>) -> Seq<ImageMetaView> {
    match contents {
        None => Seq::empty(),
        Some(s) => match spec_parse(s) {
            Some(l) => l,
            None => Seq::empty(),
        },
    }
}

/// The value of a hexadecimal digit (exec mirror of [`hex_val`]).
fn hex_val_x(c: char) -> (r: i32)
    ensures
        r as int == hex_val(c),
{
    if c == '0' { 0 }
    else if c == '1' { 1 }
    else if c == '2' { 2 }
    else if c == '3' { 3 }
    else if c == '4' { 4 }
    else if c == '5' { 5 }
    else if c == '6' { 6 }
    else if c == '7' { 7 }
    else if c == '8' { 8 }
    else if c == '9' { 9 }
    else if c == 'a' { 10 }
    else if c == 'b' { 11 }
    else if c == 'c' { 12 }
    else if c == 'd' { 13 }
    else if c == 'e' { 14 }
    else if c == 'f' { 15 }
    else { -1 }
}

/// The control character with code `n` (exec form of the cast in
/// [`scan_string`]).
fn ctrl_char_x(n: u32) -> (c: char)
    requires
        n < 32,
    ensures
        c == ((n as int) as char),
{
    if n == 0 { '\u{00}' }
    else if n == 1 { '\u{01}' }
    else if n == 2 { '\u{02}' }
    else if n == 3 { '\u{03}' }
    else if n == 4 { '\u{04}' }
    else if n == 5 { '\u{05}' }
    else if n == 6 { '\u{06}' }
    else if n == 7 { '\u{07}' }
    else if n == 8 { '\u{08}' }
    else if n == 9 { '\u{09}' }
    else if n == 10 { '\u{0a}' }
    else if n == 11 { '\u{0b}' }
    else if n == 12 { '\u{0c}' }
    else if n == 13 { '\u{0d}' }
    else if n == 14 { '\u{0e}' }
    else if n == 15 { '\u{0f}' }
    else if n == 16 { '\u{10}' }
    else if n == 17 { '\u{11}' }
    else if n == 18 { '\u{12}' }
    else if n == 19 { '\u{13}' }
    else if n == 20 { '\u{14}' }
    else if n == 21 { '\u{15}' }
    else if n == 22 { '\u{16}' }
    else if n == 23 { '\u{17}' }
    else if n == 24 { '\u{18}' }
    else if n == 25 { '\u{19}' }
    else if n == 26 { '\u{1a}' }
    else if n == 27 { '\u{1b}' }
    else if n == 28 { '\u{1c}' }
    else if n == 29 { '\u{1d}' }
    else if n == 30 { '\u{1e}' }
    else { '\u{1f}' }
}

/// `lit` occurs in `s` at position `i` (exec mirror of [`expect`]).
fn expect_x(s: &Vec<char>, i: usize, lit: &str) -> (r: bool)
    ensures
        r == expect(s@, i as int, lit@),
{
    let n = lit.unicode_len();
    let sn = s.len();
    if i > sn || n > sn - i {
        return false;
    }
    let mut k: usize = 0;
    while k < n
        invariant
            n == lit@.len(),
            sn == s@.len(),
            i + n <= sn,
            k <= n,
            s@.subrange(i as int, i + k as int) == lit@.take(k as int),
        decreases n - k,
    {
        if s[i + k] != lit.get_char(k) {
            assert(s@.subrange(i as int, i + n as int)[k as int] != lit@[k as int]);
            return false;
        }
        assert(s@.subrange(i as int, i + k + 1 as int) =~= lit@.take(k + 1 as int));
        k = k + 1;
    }
    assert(s@.subrange(i as int, i + n as int) =~= lit@);
    true
}

/// Exec mirror of [`skip_ws`].
fn skip_ws_x(s: &Vec<char>, i: usize) -> (r: usize)
    ensures
        r as int == skip_ws(s@, i as int),
        i <= r,
{
    let mut j = i;
    while j < s.len() && (s[j] == ' ' || s[j] == '\n' || s[j] == '\r' || s[j] == '\t')
        invariant
            i <= j,
            j <= s@.len() || j == i,
            skip_ws(s@, i as int) == skip_ws(s@, j as int),
        decreases s@.len() - j,
    {
        j = j + 1;
    }
    j
}

/// Exec mirror of [`tok`].
fn tok_x(s: &Vec<char>, i: usize, lit: &str) -> (r: Option<usize>)
    ensures
        (match r {
            Some(k) => tok(s@, i as int, lit@) == Some(k as int) && k <= s@.len(),
            None => tok(s@, i as int, lit@) is None,
        }),
{
    let j = skip_ws_x(s, i);
    if expect_x(s, j, lit) {
        let n = lit.unicode_len();
        let sn = s.len();
        assert(j + n <= sn);
        Some(j + n)
    } else {
        None
    }
}

/// Exec mirror of [`short_escape`].
fn short_escape_x(c: char) -> (r: Option<char>)
    ensures
        r == short_escape(c),
{
    if c == '"' { Some('"') }
    else if c == '\\' { Some('\\') }
    else if c == '/' { Some('/') }
    else if c == 'b' { Some('\u{08}') }
    else if c == 'f' { Some('\u{0c}') }
    else if c == 'n' { Some('\n') }
    else if c == 'r' { Some('\r') }
    else if c == 't' { Some('\t') }
    else { None }
}

/// Exec mirror of [`scan_string`].
fn scan_string_x(s: &Vec<char>, i: usize) -> (r: Option<(Vec<char>, usize)>)
    ensures
        (match r {
            Some(p) => scan_string(s@, i as int) == Some((p.0@, p.1 as int)),
            None => scan_string(s@, i as int) is None,
        }),
    decreases s@.len() - i,
{
    if i >= s.len() {
        return None;
    }
    let c = s[i];
    if c == '"' {
        Some((Vec::new(), i))
    } else if c == '\\' {
        if i + 1 < s.len() && short_escape_x(s[i + 1]).is_some() {
            let ch = short_escape_x(s[i + 1]).unwrap();
            match scan_string_x(s, i + 2) {
                Some((mut t, j)) => {
                    let ghost before = t@;
                    t.insert(0, ch);
                    assert(t@ =~= seq![short_escape(s@[i + 1]).unwrap()] + before);
                    Some((t, j))
                },
                None => None,
            }
        } else if s.len() - i > 5 && s[i + 1] == 'u' && s[i + 2] == '0' && s[i + 3] == '0' {
            let h = hex_val_x(s[i + 4]);
            let lo = hex_val_x(s[i + 5]);
            if 0 <= h && h < 2 && 0 <= lo {
                match scan_string_x(s, i + 6) {
                    Some((mut t, j)) => {
                        let code: u32 = (16 * h + lo) as u32;
                        let ghost before = t@;
                        t.insert(0, ctrl_char_x(code));
                        assert(t@ =~= seq![((code as int) as char)] + before);
                        Some((t, j))
                    },
                    None => None,
                }
            } else {
                None
            }
        } else {
            None
        }
    } else if (c as u32) < 32 {
        None
    } else {
        match scan_string_x(s, i + 1) {
            Some((mut t, j)) => {
                let ghost before = t@;
                t.insert(0, c);
                assert(t@ =~= seq![c] + before);
                Some((t, j))
            },
            None => None,
        }
    }
}

/// Exec mirror of [`scan_member`].
fn scan_member_x(s: &Vec<char>, i: usize, key: &str) -> (r: Option<(String, usize)>)
    ensures
        (match r {
            Some(p) => scan_member(s@, i as int, key@) == Some((p.0@, p.1 as int)) && p.1
                <= s@.len(),
            None => scan_member(s@, i as int, key@) is None,
        }),
{
    match tok_x(s, i, key) {
        None => None,
        Some(a) => match tok_x(s, a, ":") {
            None => None,
            Some(b) => match tok_x(s, b, "\"") {
                None => None,
                Some(c) => match scan_string_x(s, c) {
                    None => None,
                    Some((t, j)) => {
                        if j < s.len() && s[j] == '"' {
                            Some((chars_to_string(&t), j + 1))
                        } else {
                            None
                        }
                    },
                },
            },
        },
    }
}

/// Exec mirror of [`scan_record`].
fn scan_record_x(s: &Vec<char>, i: usize) -> (r: Option<(ImageMeta, usize)>)
    ensures
        (match r {
            Some(p) => scan_record(s@, i as int) == Some((p.0@, p.1 as int)) && p.1 <= s@.len(),
            None => scan_record(s@, i as int) is None,
        }),
{
    match tok_x(s, i, "{") {
        None => None,
        Some(a) => match scan_member_x(s, a, "\"path\"") {
            None => None,
            Some((path, b)) => match tok_x(s, b, ",") {
                None => None,
                Some(c) => match scan_member_x(s, c, "\"title\"") {
                    None => None,
                    Some((title, d)) => match tok_x(s, d, ",") {
                        None => None,
                        Some(e) => match scan_member_x(s, e, "\"description\"") {
                            None => None,
                            Some((description, g)) => match tok_x(s, g, "}") {
                                None => None,
                                Some(h) => Some((ImageMeta::new(path, title, description), h)),
                            },
                        },
                    },
                },
            },
        },
    }
}

/// Exec mirror of [`scan_records`].
fn scan_records_x(s: &Vec<char>, i: usize) -> (r: Option<(Vec<ImageMeta>, usize)>)
    ensures
        (match r {
            Some(p) => scan_records(s@, i as int) == Some((p.0.deep_view(), p.1 as int)) && p.1
                <= s@.len(),
            None => scan_records(s@, i as int) is None,
        }),
    decreases s@.len() - i,
{
    match scan_record_x(s, i) {
        None => None,
        Some((m, j)) => {
            if !(i < j && j <= s.len()) {
                return None;
            }
            if let Some(j2) = tok_x(s, j, ",") {
                if !(j < j2) {
                    return None;
                }
                match scan_records_x(s, j2) {
                    Some((mut rest, k)) => {
                        let ghost before = rest.deep_view();
                        rest.insert(0, m);
                        proof {
                            assert(rest.deep_view() =~= seq![m@] + before) by {
                                assert(forall|q: int|
                                    0 <= q < rest@.len() ==> rest.deep_view()[q]
                                        == #[trigger] rest@[q].deep_view());
                            }
                        }
                        Some((rest, k))
                    },
                    None => None,
                }
            } else {
                let mut v: Vec<ImageMeta> = Vec::new();
                v.push(m);
                assert(v.deep_view() =~= seq![m@]);
                Some((v, j))
            }
        },
    }
}

/// Parse a backing file's text into records: `Some` on any record-array text
/// that [`spec_parse`] accepts — this serializer's own output and ordinary
/// JSON formattings of the same data — `None` on anything else.
pub fn parse_images(s: &str) -> (r: Option<Vec<ImageMeta>>)
    ensures
        (match r {
            Some(l) => spec_parse(s@) == Some(l.deep_view()),
            None => spec_parse(s@) is None,
        }),
{
    let cs = chars_of(s);
    match tok_x(&cs, 0, "[") {
        None => None,
        Some(a) => match tok_x(&cs, a, "]") {
            Some(b) => {
                if skip_ws_x(&cs, b) == cs.len() {
                    let v: Vec<ImageMeta> = Vec::new();
                    assert(v.deep_view() =~= Seq::<ImageMetaView>::empty());
                    Some(v)
                } else {
                    None
                }
            },
            None => match scan_records_x(&cs, a) {
                None => None,
                Some((l, j)) => match tok_x(&cs, j, "]") {
                    None => None,
                    Some(b) => {
                        if skip_ws_x(&cs, b) == cs.len() {
                            Some(l)
                        } else {
                            None
                        }
                    },
                },
            },
        },
    }
}


/// Hexadecimal digits read back to their values.
proof fn lemma_hex_roundtrip()
    ensures
        forall|n: int| 0 <= n < 16 ==> #[trigger] hex_val(hex_digit(n)) == n,
{
}

/// Whitespace skipping lands exactly behind a whitespace run.
proof fn lemma_skip_ws_run(s: Seq<char>, i: int, j: int)
    requires
        0 <= i <= j <= s.len(),
        forall|k: int| i <= k < j ==> is_ws(#[trigger] s[k]),
        j == s.len() || !is_ws(s[j]),
    ensures
        skip_ws(s, i) == j,
    decreases j - i,
{
    if i < j {
        lemma_skip_ws_run(s, i + 1, j);
    }
}

/// A token preceded by a whitespace run is found right where the run ends.
proof fn lemma_tok_at(s: Seq<char>, i: int, j: int, lit: Seq<char>)
    requires
        0 <= i <= j <= s.len(),
        forall|k: int| i <= k < j ==> is_ws(#[trigger] s[k]),
        j == s.len() || !is_ws(s[j]),
        expect(s, j, lit),
    ensures
        tok(s, i, lit) == Some(j + lit.len()),
{
    lemma_skip_ws_run(s, i, j);
}

/// Scanning from the serializer's escape of `t`, with the closing quote right
/// behind it, recovers exactly `t` and stops at that quote.
proof fn lemma_scan_escape(t: Seq<char>, s: Seq<char>, i: int)
    requires
        0 <= i,
        i + escape_str(t).len() < s.len(),
        s.subrange(i, i + escape_str(t).len()) == escape_str(t),
        s[i + escape_str(t).len()] == '"',
    ensures
        scan_string(s, i) == Some((t, i + escape_str(t).len())),
    decreases t.len(),
{
    lemma_hex_roundtrip();
    let er = escape_str(t);
    let ee = i + er.len();
    if t.len() == 0 {
        assert(s[i] == '"');
    } else {
        let c = t[0];
        let e = escaped_char(c);
        let rest = escape_str(t.skip(1));
        assert(er == e + rest);
        assert(er.len() == e.len() + rest.len());
        assert forall|k: int| 0 <= k < er.len() implies s[i + k] == #[trigger] er[k] by {
            assert(s.subrange(i, ee)[k] == s[i + k]);
        }
        assert(s.subrange(i + e.len(), ee) =~= rest) by {
            assert forall|k: int|
                0 <= k < rest.len() implies #[trigger] s.subrange(i + e.len(), ee)[k] == rest[k] by {
                assert(s.subrange(i + e.len(), ee)[k] == s[i + e.len() + k]);
                assert(er[e.len() + k] == rest[k]);
                assert(s[i + e.len() + k] == er[e.len() + k]);
            }
        }
        assert(s[ee] == '"');
        if c == '"' {
            assert(e =~= seq!['\\', '"']);
            assert(s[i] == '\\') by { assert(er[0] == e[0]); }
            assert(s[i + 1] == '"') by { assert(er[1] == e[1]); }
            assert(short_escape(s[i + 1]) == Some('"'));
            lemma_scan_escape(t.skip(1), s, i + 2);
            assert(scan_string(s, i) == Some((seq![c] + t.skip(1), ee)));
            assert(seq![c] + t.skip(1) =~= t);
        } else if c == '\\' {
            assert(e =~= seq!['\\', '\\']);
            assert(s[i] == '\\') by { assert(er[0] == e[0]); }
            assert(s[i + 1] == '\\') by { assert(er[1] == e[1]); }
            assert(short_escape(s[i + 1]) == Some('\\'));
            lemma_scan_escape(t.skip(1), s, i + 2);
            assert(scan_string(s, i) == Some((seq![c] + t.skip(1), ee)));
            assert(seq![c] + t.skip(1) =~= t);
        } else if (c as u32) < 32 {
            let code = (c as u32) as int;
            assert(e =~= seq!['\\', 'u', '0', '0', hex_digit(code / 16), hex_digit(code % 16)]);
            assert(s[i] == '\\') by { assert(er[0] == e[0]); }
            assert(s[i + 1] == 'u') by { assert(er[1] == e[1]); }
            assert(s[i + 2] == '0') by { assert(er[2] == e[2]); }
            assert(s[i + 3] == '0') by { assert(er[3] == e[3]); }
            assert(s[i + 4] == hex_digit(code / 16)) by { assert(er[4] == e[4]); }
            assert(s[i + 5] == hex_digit(code % 16)) by { assert(er[5] == e[5]); }
            assert(short_escape(s[i + 1]) is None);
            assert(0 <= code / 16 < 2 && 0 <= code % 16 < 16);
            assert(hex_val(s[i + 4]) == code / 16 && hex_val(s[i + 5]) == code % 16);
            lemma_scan_escape(t.skip(1), s, i + 6);
            assert(16 * (code / 16) + code % 16 == code);
            let u: u32 = c as u32;
            vstd::utf8::char_u32_cast(c, u);
            assert((u as char) == c);
            assert(16 * hex_val(s[i + 4]) + hex_val(s[i + 5]) == u as int);
            assert(((16 * hex_val(s[i + 4]) + hex_val(s[i + 5])) as char) == c);
            assert(scan_string(s, i) == Some((seq![c] + t.skip(1), ee)));
            assert(seq![c] + t.skip(1) =~= t);
        } else {
            assert(e =~= seq![c]);
            assert(s[i] == c) by { assert(er[0] == e[0]); }
            lemma_scan_escape(t.skip(1), s, i + 1);
            assert(scan_string(s, i) == Some((seq![c] + t.skip(1), ee)));
            assert(seq![c] + t.skip(1) =~= t);
        }
    }
}

/// A member laid out as the serializer writes it — whitespace, the key, a
/// colon, one space, the quoted escape of `t` — scans to exactly `t`.
proof fn lemma_scan_member_at(s: Seq<char>, i: int, j: int, key: Seq<char>, t: Seq<char>)
    requires
        0 <= i <= j,
        forall|k: int| i <= k < j ==> is_ws(#[trigger] s[k]),
        key.len() > 0,
        !is_ws(key[0]),
        j + key.len() + 3 + escape_str(t).len() < s.len(),
        s.subrange(j, j + key.len()) == key,
        s[j + key.len()] == ':',
        s[j + key.len() + 1] == ' ',
        s[j + key.len() + 2] == '"',
        s.subrange(j + key.len() + 3, j + key.len() + 3 + escape_str(t).len()) == escape_str(t),
        s[j + key.len() + 3 + escape_str(t).len()] == '"',
    ensures
        scan_member(s, i, key) == Some((t, j + key.len() + 3 + escape_str(t).len() + 1)),
{
    reveal_strlit(":");
    reveal_strlit("\"");
    let a = j + key.len() as int;
    assert(s[j] == key[0]) by {
        assert(s.subrange(j, j + key.len())[0] == s[j]);
    }
    lemma_tok_at(s, i, j, key);
    assert(s.subrange(a, a + 1) =~= ":"@);
    lemma_tok_at(s, a, a, ":"@);
    assert(s.subrange(a + 2, a + 3) =~= "\""@);
    assert(is_ws(s[a + 1]));
    lemma_tok_at(s, a + 1, a + 2, "\""@);
    lemma_scan_escape(t, s, a + 3);
    assert(scan_member(s, i, key) == Some((t, a + 3 + escape_str(t).len() + 1)));
}


/// Scanning from a record's serialized object (any whitespace run before it)
/// recovers exactly that record and stops right behind it.
#[verifier::rlimit(100)]
proof fn lemma_scan_record_of(r: ImageMetaView, s: Seq<char>, i: int, m: int)
    requires
        0 <= i <= m,
        forall|k: int| i <= k < m ==> is_ws(#[trigger] s[k]),
        m + record_json(r).len() <= s.len(),
        s.subrange(m, m + record_json(r).len()) == record_json(r),
    ensures
        scan_record(s, i) == Some((r, m + record_json(r).len())),
{
    reveal_strlit("{\n    \"path\": \"");
    reveal_strlit("\",\n    \"title\": \"");
    reveal_strlit("\",\n    \"description\": \"");
    reveal_strlit("\"\n  }");
    reveal_strlit("\"path\"");
    reveal_strlit("\"title\"");
    reveal_strlit("\"description\"");
    reveal_strlit("{");
    reveal_strlit("}");
    reveal_strlit(",");
    let l1 = "{\n    \"path\": \""@;
    let l2 = "\",\n    \"title\": \""@;
    let l3 = "\",\n    \"description\": \""@;
    let l4 = "\"\n  }"@;
    let e1 = escape_str(r.path);
    let e2 = escape_str(r.title);
    let e3 = escape_str(r.description);
    let rj = record_json(r);
    let o1 = m + l1.len();
    let o2 = o1 + e1.len();
    let o3 = o2 + l2.len();
    let o4 = o3 + e2.len();
    let o5 = o4 + l3.len();
    let o6 = o5 + e3.len();
    let o7 = o6 + l4.len();
    assert(rj == l1 + e1 + l2 + e2 + l3 + e3 + l4);
    assert(rj.len() == l1.len() + e1.len() + l2.len() + e2.len() + l3.len() + e3.len() + l4.len());
    assert forall|k: int| 0 <= k < rj.len() implies s[m + k] == #[trigger] rj[k] by {
        assert(s.subrange(m, m + rj.len())[k] == s[m + k]);
    }
    assert(s.subrange(o1, o2) =~= e1) by {
        assert forall|k: int| 0 <= k < e1.len() implies #[trigger] s.subrange(o1, o2)[k] == e1[k] by {
            assert(s.subrange(o1, o2)[k] == s[o1 + k]);
            assert(rj[l1.len() + k] == e1[k]);
        }
    }
    assert(s.subrange(o3, o4) =~= e2) by {
        assert forall|k: int| 0 <= k < e2.len() implies #[trigger] s.subrange(o3, o4)[k] == e2[k] by {
            assert(s.subrange(o3, o4)[k] == s[o3 + k]);
            assert(rj[l1.len() + e1.len() + l2.len() + k] == e2[k]);
        }
    }
    assert(s.subrange(o5, o6) =~= e3) by {
        assert forall|k: int| 0 <= k < e3.len() implies #[trigger] s.subrange(o5, o6)[k] == e3[k] by {
            assert(s.subrange(o5, o6)[k] == s[o5 + k]);
            assert(rj[l1.len() + e1.len() + l2.len() + e2.len() + l3.len() + k] == e3[k]);
        }
    }
    // the opening brace
    assert(s[m] == '{') by {
        assert(rj[0] == l1[0]);
    }
    assert(s.subrange(m, m + 1) =~= "{"@);
    lemma_tok_at(s, i, m, "{"@);
    // the path member
    assert forall|k: int| m + 1 <= k < m + 6 implies is_ws(#[trigger] s[k]) by {
        assert(s[k] == s[m + (k - m)]);
        assert(rj[k - m] == l1[k - m]);
    }
    assert(s.subrange(m + 6, m + 12) =~= "\"path\""@) by {
        assert forall|k: int|
            0 <= k < 6 implies #[trigger] s.subrange(m + 6, m + 12)[k] == "\"path\""@[k] by {
            assert(s.subrange(m + 6, m + 12)[k] == s[m + 6 + k]);
            assert(rj[6 + k] == l1[6 + k]);
        }
    }
    assert(s[m + 12] == ':' && s[m + 13] == ' ' && s[m + 14] == '"') by {
        assert(rj[12] == l1[12] && rj[13] == l1[13] && rj[14] == l1[14]);
    }
    assert(s[o2] == '"') by {
        assert(rj[(l1.len() + e1.len()) as int] == l2[0]);
    }
    lemma_scan_member_at(s, m + 1, m + 6, "\"path\""@, r.path);
    // the comma and the title member
    assert(s[o2 + 1] == ',') by {
        assert(rj[(l1.len() + e1.len()) as int + 1] == l2[1]);
    }
    assert(s.subrange(o2 + 1, o2 + 2) =~= ","@);
    lemma_tok_at(s, o2 + 1, o2 + 1, ","@);
    assert forall|k: int| o2 + 2 <= k < o2 + 7 implies is_ws(#[trigger] s[k]) by {
        assert(s[k] == s[o2 + (k - o2)]);
        assert(rj[(l1.len() + e1.len()) as int + (k - o2)] == l2[k - o2]);
    }
    assert(s.subrange(o2 + 7, o2 + 14) =~= "\"title\""@) by {
        assert forall|k: int|
            0 <= k < 7 implies #[trigger] s.subrange(o2 + 7, o2 + 14)[k] == "\"title\""@[k] by {
            assert(s.subrange(o2 + 7, o2 + 14)[k] == s[o2 + 7 + k]);
            assert(rj[(l1.len() + e1.len()) as int + 7 + k] == l2[7 + k]);
        }
    }
    assert(s[o2 + 14] == ':' && s[o2 + 15] == ' ' && s[o2 + 16] == '"') by {
        assert(rj[(l1.len() + e1.len()) as int + 14] == l2[14]);
        assert(rj[(l1.len() + e1.len()) as int + 15] == l2[15]);
        assert(rj[(l1.len() + e1.len()) as int + 16] == l2[16]);
    }
    assert(s[o4] == '"') by {
        assert(rj[(l1.len() + e1.len() + l2.len() + e2.len()) as int] == l3[0]);
    }
    lemma_scan_member_at(s, o2 + 2, o2 + 7, "\"title\""@, r.title);
    // the comma and the description member
    let b3 = (l1.len() + e1.len() + l2.len() + e2.len()) as int;
    assert(s[o4 + 1] == ',') by {
        assert(rj[b3 + 1] == l3[1]);
    }
    assert(s.subrange(o4 + 1, o4 + 2) =~= ","@);
    lemma_tok_at(s, o4 + 1, o4 + 1, ","@);
    assert forall|k: int| o4 + 2 <= k < o4 + 7 implies is_ws(#[trigger] s[k]) by {
        assert(s[k] == s[o4 + (k - o4)]);
        assert(rj[b3 + (k - o4)] == l3[k - o4]);
    }
    assert(s.subrange(o4 + 7, o4 + 20) =~= "\"description\""@) by {
        assert forall|k: int|
            0 <= k < 13 implies #[trigger] s.subrange(o4 + 7, o4 + 20)[k] == "\"description\""@[k]
            by {
            assert(s.subrange(o4 + 7, o4 + 20)[k] == s[o4 + 7 + k]);
            assert(rj[b3 + 7 + k] == l3[7 + k]);
        }
    }
    assert(s[o4 + 20] == ':' && s[o4 + 21] == ' ' && s[o4 + 22] == '"') by {
        assert(rj[b3 + 20] == l3[20]);
        assert(rj[b3 + 21] == l3[21]);
        assert(rj[b3 + 22] == l3[22]);
    }
    let b4 = (l1.len() + e1.len() + l2.len() + e2.len() + l3.len() + e3.len()) as int;
    assert(s[o6] == '"') by {
        assert(rj[b4] == l4[0]);
    }
    lemma_scan_member_at(s, o4 + 2, o4 + 7, "\"description\""@, r.description);
    // the closing brace
    assert forall|k: int| o6 + 1 <= k < o6 + 4 implies is_ws(#[trigger] s[k]) by {
        assert(s[k] == s[o6 + (k - o6)]);
        assert(rj[b4 + (k - o6)] == l4[k - o6]);
    }
    assert(s[o6 + 4] == '}') by {
        assert(rj[b4 + 4] == l4[4]);
    }
    assert(s.subrange(o6 + 4, o6 + 5) =~= "}"@);
    lemma_tok_at(s, o6 + 1, o6 + 4, "}"@);
    assert((ImageMetaView { path: r.path, title: r.title, description: r.description }) == r);
    assert(scan_record(s, i) == Some((r, o7)));
}


/// Scanning from the joined records (any whitespace run before them)
/// recovers them all and stops at the array terminator that follows.
#[verifier::rlimit(100)]
proof fn lemma_scan_records_of(l: Seq<ImageMetaView>, s: Seq<char>, i: int, m: int)
    requires
        l.len() >= 1,
        0 <= i <= m,
        forall|k: int| i <= k < m ==> is_ws(#[trigger] s[k]),
        m + join_records(l).len() + 2 <= s.len(),
        s.subrange(m, m + join_records(l).len()) == join_records(l),
        s[m + join_records(l).len()] == '\n',
        s[m + join_records(l).len() + 1] == ']',
    ensures
        scan_records(s, i) == Some((l, m + join_records(l).len())),
    decreases l.len(),
{
    reveal_strlit("{\n    \"path\": \"");
    reveal_strlit(",\n  ");
    reveal_strlit(",");
    reveal_strlit("]");
    let jn = join_records(l);
    let r0 = record_json(l[0]);
    assert(r0.len() >= "{\n    \"path\": \""@.len());
    assert forall|k: int| 0 <= k < jn.len() implies s[m + k] == #[trigger] jn[k] by {
        assert(s.subrange(m, m + jn.len())[k] == s[m + k]);
    }
    if l.len() == 1 {
        assert(jn == r0);
        lemma_scan_record_of(l[0], s, i, m);
        let j = m + r0.len() as int;
        assert(s[j] == '\n' && s[j + 1] == ']');
        lemma_skip_ws_run(s, j, j + 1);
        assert(!expect(s, j + 1, ","@)) by {
            if expect(s, j + 1, ","@) {
                assert(s.subrange(j + 1, j + 1 + ","@.len())[0] == s[j + 1]);
            }
        }
        assert(tok(s, j, ","@) is None);
        assert(seq![l[0]] =~= l);
        assert(scan_records(s, i) == Some((l, j)));
    } else {
        let sep = ",\n  "@;
        let jn2 = join_records(l.skip(1));
        assert(jn == r0 + sep + jn2);
        assert(jn.len() == r0.len() + sep.len() + jn2.len());
        let p = m + r0.len() as int;
        assert(s.subrange(m, p) =~= r0) by {
            assert forall|k: int| 0 <= k < r0.len() implies #[trigger] s.subrange(m, p)[k]
                == r0[k] by {
                assert(s.subrange(m, p)[k] == s[m + k]);
                assert(jn[k] == r0[k]);
            }
        }
        lemma_scan_record_of(l[0], s, i, m);
        assert(s[p] == ',') by {
            assert(jn[r0.len() as int] == sep[0]);
        }
        assert(s.subrange(p, p + 1) =~= ","@);
        lemma_tok_at(s, p, p, ","@);
        assert forall|k: int| p + 1 <= k < p + 4 implies is_ws(#[trigger] s[k]) by {
            assert(s[k] == s[m + (k - m)]);
            assert(jn[k - m] == sep[k - p]);
        }
        assert(s.subrange(p + 4, p + 4 + jn2.len()) =~= jn2) by {
            assert forall|k: int|
                0 <= k < jn2.len() implies #[trigger] s.subrange(p + 4, p + 4 + jn2.len())[k]
                == jn2[k] by {
                assert(s.subrange(p + 4, p + 4 + jn2.len())[k] == s[p + 4 + k]);
                assert(jn[r0.len() + sep.len() + k] == jn2[k]);
            }
        }
        assert(l.skip(1).len() >= 1);
        assert(p + 4 + jn2.len() == m + jn.len());
        lemma_scan_records_of(l.skip(1), s, p + 1, p + 4);
        assert(seq![l[0]] + l.skip(1) =~= l);
        assert(scan_records(s, i) == Some((l, m + jn.len())));
    }
}

/// The nonempty half of the round trip, from the serialized array text.
#[verifier::rlimit(100)]
proof fn lemma_parse_serialize_nonempty(l: Seq<ImageMetaView>)
    requires
        l.len() >= 1,
    ensures
        spec_parse(serialize_spec(l)) == Some(l),
{
    reveal_strlit("[");
    reveal_strlit("]");
    reveal_strlit("[\n  ");
    reveal_strlit("\n]");
    reveal_strlit("{\n    \"path\": \"");
    let s = serialize_spec(l);
    let hd = "[\n  "@;
    let tl = "\n]"@;
    let jn = join_records(l);
    let r0 = record_json(l[0]);
    assert(s == hd + jn + tl);
    assert(s.len() == 4 + jn.len() + 2);
    assert(r0.len() >= "{\n    \"path\": \""@.len());
    assert(jn.len() >= r0.len());
    let j = 4 + jn.len() as int;
    assert(s[0] == '[' && s[1] == '\n' && s[2] == ' ' && s[3] == ' ') by {
        assert((hd + jn + tl)[0] == hd[0]);
        assert((hd + jn + tl)[1] == hd[1]);
        assert((hd + jn + tl)[2] == hd[2]);
        assert((hd + jn + tl)[3] == hd[3]);
    }
    assert(s[4] == '{') by {
        assert((hd + jn + tl)[4] == jn[0]);
        assert(jn[0] == r0[0]);
    }
    assert(s[j] == '\n' && s[j + 1] == ']') by {
        assert((hd + jn + tl)[j] == tl[0]);
        assert((hd + jn + tl)[j + 1] == tl[1]);
    }
    assert(s.subrange(0, 1) =~= "["@);
    lemma_tok_at(s, 0, 0, "["@);
    assert(forall|k: int| 1 <= k < 4 ==> is_ws(#[trigger] s[k]));
    lemma_skip_ws_run(s, 1, 4);
    assert(tok(s, 1, "]"@) is None) by {
        if expect(s, 4, "]"@) {
            assert(s.subrange(4, 4 + "]"@.len() as int)[0] == s[4]);
        }
    }
    assert(s.subrange(4, j) =~= jn) by {
        assert forall|k: int| 0 <= k < jn.len() implies #[trigger] s.subrange(4, j)[k] == jn[k] by {
            assert(s.subrange(4, j)[k] == s[4 + k]);
            assert((hd + jn + tl)[4 + k] == jn[k]);
        }
    }
    lemma_scan_records_of(l, s, 1, 4);
    lemma_skip_ws_run(s, j, j + 1);
    assert(s.subrange(j + 1, j + 2) =~= "]"@);
    lemma_tok_at(s, j, j + 1, "]"@);
    assert(skip_ws(s, j + 2) == j + 2);
    assert(j + 2 == s.len());
    assert(spec_parse(s) == Some(l));
}

/// Round-trip through the backing file: parsing what the serializer wrote
/// recovers exactly the records that were written — after a restart, the
/// loaded list is the list last persisted.
pub proof fn lemma_parse_serialize(l: Seq<ImageMetaView>)
    ensures
        spec_parse(serialize_spec(l)) == Some(l),
{
    if l.len() == 0 {
        reveal_strlit("[]");
        reveal_strlit("[");
        reveal_strlit("]");
        let s = serialize_spec(l);
        assert(s == "[]"@);
        assert(s[0] == '[' && s[1] == ']' && s.len() == 2);
        assert(s.subrange(0, 1) =~= "["@);
        lemma_tok_at(s, 0, 0, "["@);
        assert(s.subrange(1, 2) =~= "]"@);
        lemma_tok_at(s, 1, 1, "]"@);
        assert(skip_ws(s, 2) == 2);
        assert(Seq::<ImageMetaView>::empty() =~= l);
        assert(spec_parse(s) == Some(l));
    } else {
        lemma_parse_serialize_nonempty(l);
    }
}

} // verus!
