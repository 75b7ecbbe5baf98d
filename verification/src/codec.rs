//! The wire codec: a request is a path followed by CRLF; a menu response is
//! a run of CRLF-terminated lines closed by a line holding a single `.`;
//! each line is a tag character followed by four tab-separated fields.

use vstd::prelude::*;

use crate::text::{all_digits, digits_val, is_digit};
use crate::types::{item_views, Item, ItemV, Referer, RefererV};

verus! {

/// Why a response failed to decode as a menu.
///
/// * `NotText` — the bytes are not well-formed UTF-8.
/// * `Incomplete` — the text lacks the `.`-terminator line.
/// * `MalformedPort` — a recognized line's port field does not parse as an
///   unsigned 16-bit integer; this aborts the whole decode.
#[derive(Clone, Copy, PartialEq, Eq, Structural, Debug)]
pub enum DecodeError {
    NotText,
    Incomplete,
    MalformedPort,
}

/// The position of the first CRLF pair at or after `j`, or -1 when there is
/// none.
pub open spec fn first_crlf_from(s: Seq<char>, j: int) -> int
    decreases s.len() - j,
{
    if j < 0 || j + 2 > s.len() {
        -1
    } else if s[j] == '\r' && s[j + 1] == '\n' {
        j
    } else {
        first_crlf_from(s, j + 1)
    }
}

/// The position of the first tab at or after `j`, or -1 when there is none.
pub open spec fn first_tab_from(s: Seq<char>, j: int) -> int
    decreases s.len() - j,
{
    if j < 0 || j + 1 > s.len() {
        -1
    } else if s[j] == '\t' {
        j
    } else {
        first_tab_from(s, j + 1)
    }
}

/// The text split at every tab: one more segment than there are tabs.
pub open spec fn split_tabs(s: Seq<char>) -> Seq<Seq<char>>
    decreases s.len(),
{
    let i = first_tab_from(s, 0);
    if i < 0 || i + 1 > s.len() {
        seq![s]
    } else {
        seq![s.take(i)] + split_tabs(s.skip(i + 1))
    }
}

/// The CRLF-terminated lines before the first `.`-terminator line, or
/// nothing when no terminator line exists; whatever follows the terminator
/// is ignored.
pub open spec fn menu_lines(s: Seq<char>) -> Option<Seq<Seq<char>>>
    decreases s.len(),
{
    let i = first_crlf_from(s, 0);
    if i < 0 || i + 2 > s.len() {
        None
    } else if i == 1 && s[0] == '.' {
        Some(seq![])
    } else {
        match menu_lines(s.skip(i + 2)) {
            None => None,
            Some(ls) => Some(seq![s.take(i)] + ls),
        }
    }
}

/// Whether the tag marks an annotation line.
pub open spec fn is_info_tag(c: char) -> bool {
    c == 'i' || c == '3'
}

/// Whether the tag marks a fetchable resource line.
pub open spec fn is_data_tag(c: char) -> bool {
    c == '0' || c == '1' || c == '4' || c == '5' || c == '7' || c == '9' || c == 'g' || c == 'I'
        || c == 's'
}

/// Whether `s` holds a `/`.
pub open spec fn has_slash(s: Seq<char>) -> bool {
    exists|i: int| 0 <= i < s.len() && s[i] == '/'
}

/// The port field's value: the field must be a non-empty run of digits whose
/// value fits in an unsigned 16-bit integer.
pub open spec fn port_of(s: Seq<char>) -> Option<u16> {
    if s.len() > 0 && all_digits(s) && digits_val(s) <= 65535 {
        Some(digits_val(s) as u16)
    } else {
        None
    }
}

/// Whether the rest of a line (after the tag) fits the schema: exactly four
/// tab-separated fields — caption, location, domain, port — with no `/` in
/// the domain and only digits in the port.
pub open spec fn schema_ok(fields: Seq<Seq<char>>) -> bool {
    fields.len() == 4 && !has_slash(fields[2]) && all_digits(fields[3])
}

/// The decode of one menu line read from the menu `from`.
///
/// An empty line, a line failing the schema, and a line with an
/// unrecognized tag all decode to `Unknown` — never an error. A recognized
/// tag whose port field has no parse as an unsigned 16-bit integer aborts
/// the decode with `MalformedPort`.
pub open spec fn decode_line(from: RefererV, line: Seq<char>) -> Result<ItemV, DecodeError> {
    if line.len() == 0 {
        Ok(ItemV::Unknown { from, unparsed: line })
    } else {
        let tag = line[0];
        let fields = split_tabs(line.skip(1));
        if !schema_ok(fields) {
            Ok(ItemV::Unknown { from, unparsed: line })
        } else if is_info_tag(tag) {
            match port_of(fields[3]) {
                Some(p) => Ok(
                    ItemV::Info {
                        tag,
                        from,
                        message: fields[0],
                        domain: fields[2],
                        port: p,
                    },
                ),
                None => Err(DecodeError::MalformedPort),
            }
        } else if is_data_tag(tag) {
            match port_of(fields[3]) {
                Some(p) => Ok(
                    ItemV::Data {
                        tag,
                        size: 0,
                        caption: fields[0],
                        referer: from,
                        location: fields[1],
                        domain: fields[2],
                        port: p,
                    },
                ),
                None => Err(DecodeError::MalformedPort),
            }
        } else {
            Ok(ItemV::Unknown { from, unparsed: line })
        }
    }
}

/// The decode of a run of menu lines, in order; the first malformed port
/// aborts the run.
pub open spec fn decode_lines(from: RefererV, lines: Seq<Seq<char>>) -> Result<
    Seq<ItemV>,
    DecodeError,
>
    decreases lines.len(),
{
    if lines.len() == 0 {
        Ok(seq![])
    } else {
        match decode_line(from, lines[0]) {
            Err(e) => Err(e),
            Ok(it) => match decode_lines(from, lines.skip(1)) {
                Err(e) => Err(e),
                Ok(rest) => Ok(seq![it] + rest),
            },
        }
    }
}

/// The decode of a whole menu text read from the menu `from`: the lines up
/// to the terminator, each classified in order. A text without the
/// terminator line is `Incomplete`, whatever its lines hold.
pub open spec fn menu_items(from: RefererV, s: Seq<char>) -> Result<Seq<ItemV>, DecodeError> {
    match menu_lines(s) {
        None => Err(DecodeError::Incomplete),
        Some(ls) => decode_lines(from, ls),
    }
}

/// The views of a sequence of strings.
pub open spec fn string_views(s: Seq<String>) -> Seq<Seq<char>> {
    s.map_values(|x: String| x@)
}

/// Whether an executable line decode returned exactly the specified result.
pub open spec fn line_result_matches(
    r: Result<Item, DecodeError>,
    v: Result<ItemV, DecodeError>,
) -> bool {
    match (r, v) {
        (Ok(it), Ok(iv)) => it@ == iv,
        (Err(a), Err(b)) => a == b,
        _ => false,
    }
}

/// Whether an executable menu decode returned exactly the specified result.
pub open spec fn menu_result_matches(
    r: Result<Vec<Item>, DecodeError>,
    v: Result<Seq<ItemV>, DecodeError>,
) -> bool {
    match (r, v) {
        (Ok(items), Ok(ivs)) => item_views(items@) == ivs,
        (Err(a), Err(b)) => a == b,
        _ => false,
    }
}

/// Whether no CRLF pair stands inside `s`.
pub open spec fn crlf_free(s: Seq<char>) -> bool {
    forall|j: int| 0 <= j < s.len() - 1 ==> !((#[trigger] s[j]) == '\r' && s[j + 1] == '\n')
}

/// Whether no tab stands in `s`.
pub open spec fn tab_free(s: Seq<char>) -> bool {
    forall|j: int| 0 <= j < s.len() ==> s[j] != '\t'
}

proof fn lemma_first_crlf_at(s: Seq<char>, j: int, t: int)
    requires
        0 <= j <= t,
        t + 2 <= s.len(),
        s[t] == '\r',
        s[t + 1] == '\n',
        forall|k: int| j <= k < t ==> !((#[trigger] s[k]) == '\r' && s[k + 1] == '\n'),
    ensures
        first_crlf_from(s, j) == t,
    decreases t - j,
{
    if j < t {
        lemma_first_crlf_at(s, j + 1, t);
    }
}

proof fn lemma_first_tab_at(s: Seq<char>, j: int, t: int)
    requires
        0 <= j <= t,
        t + 1 <= s.len(),
        s[t] == '\t',
        forall|k: int| j <= k < t ==> s[k] != '\t',
    ensures
        first_tab_from(s, j) == t,
    decreases t - j,
{
    if j < t {
        lemma_first_tab_at(s, j + 1, t);
    }
}

proof fn lemma_first_tab_none(s: Seq<char>, j: int)
    requires
        0 <= j,
        forall|k: int| j <= k < s.len() ==> s[k] != '\t',
    ensures
        first_tab_from(s, j) == -1,
    decreases s.len() - j,
{
    if j < s.len() {
        lemma_first_tab_none(s, j + 1);
    }
}

/// Terminator detection, base form: a text that opens with the
/// `.`-terminator line decodes to no lines at all, whatever follows the
/// terminator's CRLF.
pub proof fn lemma_menu_terminator(junk: Seq<char>)
    ensures
        menu_lines(seq!['.', '\r', '\n'] + junk) == Some(Seq::<Seq<char>>::empty()),
{
    let s = seq!['.', '\r', '\n'] + junk;
    assert(s[0] == '.' && s[1] == '\r' && s[2] == '\n');
    lemma_first_crlf_at(s, 0, 1);
    assert(menu_lines(s) == Some(Seq::<Seq<char>>::empty()));
}

/// One well-formed menu line, its CRLF, then the rest of a response: the
/// decode sees that line, then whatever the rest holds.
pub proof fn lemma_menu_line_step(line: Seq<char>, rest: Seq<char>)
    requires
        crlf_free(line),
        line != seq!['.'],
    ensures
        menu_lines(line + seq!['\r', '\n'] + rest) == match menu_lines(rest) {
            None => None::<Seq<Seq<char>>>,
            Some(ls) => Some(seq![line] + ls),
        },
{
    let s = line + seq!['\r', '\n'] + rest;
    let t = line.len() as int;
    assert(s[t] == '\r' && s[t + 1] == '\n');
    assert forall|k: int| 0 <= k < t implies !((#[trigger] s[k]) == '\r' && s[k + 1] == '\n') by {
        assert(s[k] == line[k]);
        if k < t - 1 {
            assert(s[k + 1] == line[k + 1]);
        } else {
            assert(s[k + 1] == '\r');
        }
    }
    lemma_first_crlf_at(s, 0, t);
    if t == 1 {
        assert(line =~= seq![line[0]]);
        assert(s[0] == line[0]);
        assert(line[0] != '.');
    }
    assert(s.take(t) =~= line);
    assert(s.skip(t + 2) =~= rest);
}

/// The whole menu encoding of a run of lines: each line with its CRLF,
/// then the `.`-terminator line.
pub open spec fn menu_text(lines: Seq<Seq<char>>) -> Seq<char>
    decreases lines.len(),
{
    if lines.len() == 0 {
        seq!['.', '\r', '\n']
    } else {
        lines[0] + seq!['\r', '\n'] + menu_text(lines.skip(1))
    }
}

/// Decode round-trip, line level: decoding the menu encoding of any run of
/// well-formed lines — no CRLF inside a line, no line a bare `.` — returns
/// exactly those lines in order, whatever trails the terminator's CRLF.
pub proof fn lemma_menu_round_trip(lines: Seq<Seq<char>>, junk: Seq<char>)
    requires
        forall|i: int| 0 <= i < lines.len() ==> crlf_free(#[trigger] lines[i]),
        forall|i: int| 0 <= i < lines.len() ==> #[trigger] lines[i] != seq!['.'],
    ensures
        menu_lines(menu_text(lines) + junk) == Some(lines),
    decreases lines.len(),
{
    if lines.len() == 0 {
        lemma_menu_terminator(junk);
        assert(menu_text(lines) + junk =~= seq!['.', '\r', '\n'] + junk);
        assert(lines =~= Seq::<Seq<char>>::empty());
    } else {
        assert(forall|i: int|
            0 <= i < lines.skip(1).len() ==> #[trigger] lines.skip(1)[i] == lines[i + 1]);
        lemma_menu_round_trip(lines.skip(1), junk);
        lemma_menu_line_step(lines[0], menu_text(lines.skip(1)) + junk);
        assert(menu_text(lines) + junk =~= lines[0] + seq!['\r', '\n'] + (menu_text(lines.skip(1))
            + junk));
        assert(seq![lines[0]] + lines.skip(1) =~= lines);
    }
}

proof fn lemma_split_tabs_single(a: Seq<char>)
    requires
        tab_free(a),
    ensures
        split_tabs(a) == seq![a],
{
    lemma_first_tab_none(a, 0);
}

proof fn lemma_split_tabs_step(a: Seq<char>, rest: Seq<char>)
    requires
        tab_free(a),
    ensures
        split_tabs(a + seq!['\t'] + rest) == seq![a] + split_tabs(rest),
{
    let s = a + seq!['\t'] + rest;
    let t = a.len() as int;
    assert(s[t] == '\t');
    assert forall|k: int| 0 <= k < t implies s[k] != '\t' by {
        assert(s[k] == a[k]);
    }
    lemma_first_tab_at(s, 0, t);
    assert(s.take(t) =~= a);
    assert(s.skip(t + 1) =~= rest);
}

/// The four tab-separated fields of a well-formed line body split back
/// into themselves.
proof fn lemma_line_fields(
    caption: Seq<char>,
    location: Seq<char>,
    domain: Seq<char>,
    portstr: Seq<char>,
)
    requires
        tab_free(caption),
        tab_free(location),
        tab_free(domain),
        tab_free(portstr),
    ensures
        split_tabs(caption + seq!['\t'] + location + seq!['\t'] + domain + seq!['\t'] + portstr)
            == seq![caption, location, domain, portstr],
{
    let body = caption + seq!['\t'] + location + seq!['\t'] + domain + seq!['\t'] + portstr;
    let after_caption = location + seq!['\t'] + domain + seq!['\t'] + portstr;
    let after_location = domain + seq!['\t'] + portstr;
    assert(body =~= caption + seq!['\t'] + after_caption);
    lemma_split_tabs_step(caption, after_caption);
    assert(after_caption =~= location + seq!['\t'] + after_location);
    lemma_split_tabs_step(location, after_location);
    lemma_split_tabs_step(domain, portstr);
    lemma_split_tabs_single(portstr);
    assert(seq![caption] + (seq![location] + (seq![domain] + seq![portstr])) =~= seq![
        caption,
        location,
        domain,
        portstr,
    ]);
}

/// Decode round-trip, entry level: a fetchable line built from a recognized
/// tag and four well-formed fields decodes back to exactly that `Data`
/// entry — size zero, referer the menu it was read from.
pub proof fn lemma_data_line_round_trip(
    from: RefererV,
    tag: char,
    caption: Seq<char>,
    location: Seq<char>,
    domain: Seq<char>,
    portstr: Seq<char>,
)
    requires
        is_data_tag(tag),
        tab_free(caption),
        tab_free(location),
        tab_free(domain),
        !has_slash(domain),
        all_digits(portstr),
        portstr.len() > 0,
        digits_val(portstr) <= 65535,
    ensures
        decode_line(
            from,
            seq![tag] + caption + seq!['\t'] + location + seq!['\t'] + domain + seq!['\t']
                + portstr,
        ) == Ok::<ItemV, DecodeError>(
            ItemV::Data {
                tag,
                size: 0,
                caption,
                referer: from,
                location,
                domain,
                port: digits_val(portstr) as u16,
            },
        ),
{
    let line = seq![tag] + caption + seq!['\t'] + location + seq!['\t'] + domain + seq!['\t']
        + portstr;
    assert(line[0] == tag);
    assert(tab_free(portstr)) by {
        assert(forall|j: int| 0 <= j < portstr.len() ==> is_digit(portstr[j]));
    }
    assert(line.skip(1) =~= caption + seq!['\t'] + location + seq!['\t'] + domain + seq!['\t']
        + portstr);
    lemma_line_fields(caption, location, domain, portstr);
    let fields = split_tabs(line.skip(1));
    assert(fields[0] == caption && fields[1] == location && fields[2] == domain && fields[3]
        == portstr);
    assert(schema_ok(fields));
    assert(!is_info_tag(tag));
    assert(port_of(portstr) == Some(digits_val(portstr) as u16));
}

/// Decode round-trip, annotation level: an annotation line built from an
/// annotation tag and four well-formed fields decodes back to exactly that
/// `Info` entry.
pub proof fn lemma_info_line_round_trip(
    from: RefererV,
    tag: char,
    caption: Seq<char>,
    location: Seq<char>,
    domain: Seq<char>,
    portstr: Seq<char>,
)
    requires
        is_info_tag(tag),
        tab_free(caption),
        tab_free(location),
        tab_free(domain),
        !has_slash(domain),
        all_digits(portstr),
        portstr.len() > 0,
        digits_val(portstr) <= 65535,
    ensures
        decode_line(
            from,
            seq![tag] + caption + seq!['\t'] + location + seq!['\t'] + domain + seq!['\t']
                + portstr,
        ) == Ok::<ItemV, DecodeError>(
            ItemV::Info {
                tag,
                from,
                message: caption,
                domain,
                port: digits_val(portstr) as u16,
            },
        ),
{
    let line = seq![tag] + caption + seq!['\t'] + location + seq!['\t'] + domain + seq!['\t']
        + portstr;
    assert(line[0] == tag);
    assert(tab_free(portstr)) by {
        assert(forall|j: int| 0 <= j < portstr.len() ==> is_digit(portstr[j]));
    }
    assert(line.skip(1) =~= caption + seq!['\t'] + location + seq!['\t'] + domain + seq!['\t']
        + portstr);
    lemma_line_fields(caption, location, domain, portstr);
    let fields = split_tabs(line.skip(1));
    assert(fields[0] == caption && fields[1] == location && fields[2] == domain && fields[3]
        == portstr);
    assert(schema_ok(fields));
    assert(port_of(portstr) == Some(digits_val(portstr) as u16));
}

/// A plain-text response with its terminator stripped: the bytes without
/// the final `.`-line and its CRLF when that suffix is present, the bytes
/// unmodified otherwise — resources other than menus need not follow the
/// terminator convention.
pub open spec fn text_payload(b: Seq<u8>) -> Seq<u8> {
    if b.len() >= 3 && b[b.len() - 3] == 46 && b[b.len() - 2] == 13 && b[b.len() - 1] == 10 {
        b.take(b.len() - 3)
    } else {
        b
    }
}

/// The bytes of a plain-text response with the `.`-terminator line and its
/// CRLF stripped when present; see [`text_payload`].
pub fn decode_text(raw: &Vec<u8>) -> (r: Vec<u8>)
    ensures
        r@ == text_payload(raw@),
{
    let n = raw.len();
    let limit: usize = if n >= 3 && raw[n - 3] == 46 && raw[n - 2] == 13 && raw[n - 1] == 10 {
        n - 3
    } else {
        n
    };
    let mut out: Vec<u8> = Vec::new();
    let mut i: usize = 0;
    while i < limit
        invariant
            limit <= raw@.len(),
            i <= limit,
            out@ =~= raw@.take(i as int),
        decreases limit - i,
    {
        out.push(raw[i]);
        i = i + 1;
    }
    proof {
        if limit == raw@.len() {
            assert(raw@.take(limit as int) =~= raw@);
        }
    }
    out
}

/// The request line for a path: the path followed by CRLF, with no other
/// framing.
pub fn encode_request(path: &str) -> (r: String)
    ensures
        r@ == path@ + seq!['\r', '\n'],
{
    let s = path.to_owned();
    let r = s.concat("\r\n");
    proof {
        reveal_strlit("\r\n");
        assert(r@ =~= path@ + seq!['\r', '\n']);
    }
    r
}

/// The position of the first CRLF pair of `s`, if any.
fn find_crlf(s: &str) -> (r: Option<usize>)
    ensures
        match r {
            Some(j) => first_crlf_from(s@, 0) == j as int && j + 2 <= s@.len(),
            None => first_crlf_from(s@, 0) == -1,
        },
{
    let n = s.unicode_len();
    let mut j: usize = 0;
    loop
        invariant
            n == s@.len(),
            j <= n,
            first_crlf_from(s@, 0) == first_crlf_from(s@, j as int),
        decreases n - j,
    {
        if n - j < 2 {
            proof {
                assert(first_crlf_from(s@, j as int) == -1);
            }
            return None;
        }
        let c0 = s.get_char(j);
        let c1 = s.get_char(j + 1);
        if c0 as u32 == 13 && c1 as u32 == 10 {
            return Some(j);
        }
        proof {
            assert(first_crlf_from(s@, j as int) == first_crlf_from(s@, j as int + 1));
        }
        j = j + 1;
    }
}

/// Whether every character of `s` is a decimal digit.
fn check_digits(s: &str) -> (r: bool)
    ensures
        r == all_digits(s@),
{
    let n = s.unicode_len();
    let mut j: usize = 0;
    while j < n
        invariant
            n == s@.len(),
            j <= n,
            forall|i: int| 0 <= i < j ==> is_digit(s@[i]),
        decreases n - j,
    {
        let u = s.get_char(j) as u32;
        if u < 48 || u > 57 {
            return false;
        }
        j = j + 1;
    }
    true
}

/// Whether `s` holds a `/`.
fn check_slash(s: &str) -> (r: bool)
    ensures
        r == has_slash(s@),
{
    let n = s.unicode_len();
    let mut j: usize = 0;
    while j < n
        invariant
            n == s@.len(),
            j <= n,
            forall|i: int| 0 <= i < j ==> s@[i] != '/',
        decreases n - j,
    {
        if s.get_char(j) as u32 == 47 {
            return true;
        }
        j = j + 1;
    }
    false
}

/// The port field's value, when it parses as an unsigned 16-bit integer.
pub(crate) fn parse_port(s: &str) -> (r: Option<u16>)
    ensures
        r == port_of(s@),
{
    let n = s.unicode_len();
    if n == 0 {
        return None;
    }
    if !check_digits(s) {
        return None;
    }
    let mut acc: u32 = 0;
    let mut j: usize = 0;
    while j < n
        invariant
            n == s@.len(),
            j <= n,
            all_digits(s@),
            acc <= 65535,
            acc == digits_val(s@.take(j as int)),
        decreases n - j,
    {
        let d = s.get_char(j) as u32 - 48;
        proof {
            assert(is_digit(s@[j as int]));
            assert(s@.take(j as int + 1).drop_last() =~= s@.take(j as int));
            assert(s@.take(j as int + 1).last() == s@[j as int]);
        }
        let next = acc * 10 + d;
        if next > 65535 {
            proof {
                crate::text::lemma_digits_val_prefix(s@, j as int + 1);
                assert(s@.take(n as int) =~= s@);
                assert(digits_val(s@) > 65535);
            }
            return None;
        }
        acc = next;
        j = j + 1;
    }
    proof {
        assert(s@.take(n as int) =~= s@);
        crate::text::lemma_digits_val_nonneg(s@);
    }
    Some(acc as u16)
}

/// The text split at every tab.
fn split_tabs_exec(s: &str) -> (r: Vec<String>)
    ensures
        string_views(r@) == split_tabs(s@),
{
    let mut fields: Vec<String> = Vec::new();
    let mut rest: String = s.to_owned();
    loop
        invariant_except_break
            split_tabs(s@) =~= string_views(fields@) + split_tabs(rest@),
        ensures
            string_views(fields@) =~= split_tabs(s@),
        decreases rest@.len(),
    {
        let ghost prev_fields = fields@;
        let ghost prev_rest = rest@;
        match find_tab(rest.as_str()) {
            None => {
                proof {
                    assert(split_tabs(prev_rest) == seq![prev_rest]);
                }
                fields.push(rest);
                proof {
                    assert(string_views(fields@) =~= string_views(prev_fields) + seq![prev_rest]);
                    assert(string_views(fields@) =~= split_tabs(s@));
                }
                break;
            },
            Some(k) => {
                let n = rest.as_str().unicode_len();
                let field = rest.as_str().substring_char(0, k).to_owned();
                let new_rest = rest.as_str().substring_char(k + 1, n).to_owned();
                proof {
                    assert(field@ =~= prev_rest.take(k as int));
                    assert(new_rest@ =~= prev_rest.skip(k as int + 1));
                    assert(split_tabs(prev_rest) == seq![prev_rest.take(k as int)] + split_tabs(
                        prev_rest.skip(k as int + 1),
                    ));
                }
                fields.push(field);
                rest = new_rest;
                proof {
                    assert(string_views(fields@) =~= string_views(prev_fields) + seq![
                        prev_rest.take(k as int),
                    ]);
                    assert(split_tabs(s@) =~= string_views(fields@) + split_tabs(rest@));
                }
            },
        }
    }
    fields
}

/// Whether the tag marks an annotation line.
fn tag_is_info(c: char) -> (r: bool)
    ensures
        r == is_info_tag(c),
{
    let u = c as u32;
    u == 105 || u == 51
}

/// Whether the tag marks a fetchable resource line.
fn tag_is_data(c: char) -> (r: bool)
    ensures
        r == is_data_tag(c),
{
    let u = c as u32;
    u == 48 || u == 49 || u == 52 || u == 53 || u == 55 || u == 57 || u == 103 || u == 73 || u
        == 115
}

impl Item {
    /// The decode of one menu line read from the menu `from`; see
    /// [`decode_line`] for the schema and the error rule.
    pub fn from_str(from: &Referer, unparsed: &str) -> (r: Result<Item, DecodeError>)
        ensures
            line_result_matches(r, decode_line(from@, unparsed@)),
    {
        let n = unparsed.unicode_len();
        if n == 0 {
            return Ok(Item::UNKNOWN { from: from.duplicate(), unparsed: unparsed.to_owned() });
        }
        let tag = unparsed.get_char(0);
        let rest = unparsed.substring_char(1, n);
        proof {
            assert(rest@ =~= unparsed@.skip(1));
        }
        let fields = split_tabs_exec(rest);
        proof {
            assert(string_views(fields@) == split_tabs(unparsed@.skip(1)));
        }
        let schema = fields.len() == 4 && !check_slash(fields[2].as_str()) && check_digits(
            fields[3].as_str(),
        );
        if !schema {
            return Ok(Item::UNKNOWN { from: from.duplicate(), unparsed: unparsed.to_owned() });
        }
        if tag_is_info(tag) {
            match parse_port(fields[3].as_str()) {
                Some(p) => Ok(
                    Item::INFO {
                        tag,
                        from: from.duplicate(),
                        message: fields[0].clone(),
                        domain: fields[2].clone(),
                        port: p,
                    },
                ),
                None => Err(DecodeError::MalformedPort),
            }
        } else if tag_is_data(tag) {
            match parse_port(fields[3].as_str()) {
                Some(p) => Ok(
                    Item::DATA {
                        tag,
                        size: 0,
                        caption: fields[0].clone(),
                        referer: from.duplicate(),
                        location: fields[1].clone(),
                        domain: fields[2].clone(),
                        port: p,
                    },
                ),
                None => Err(DecodeError::MalformedPort),
            }
        } else {
            Ok(Item::UNKNOWN { from: from.duplicate(), unparsed: unparsed.to_owned() })
        }
    }
}

/// The position of the first tab of `s`, if any.
fn find_tab(s: &str) -> (r: Option<usize>)
    ensures
        match r {
            Some(j) => first_tab_from(s@, 0) == j as int && j + 1 <= s@.len(),
            None => first_tab_from(s@, 0) == -1,
        },
{
    let n = s.unicode_len();
    let mut j: usize = 0;
    loop
        invariant
            n == s@.len(),
            j <= n,
            first_tab_from(s@, 0) == first_tab_from(s@, j as int),
        decreases n - j,
    {
        if j >= n {
            proof {
                assert(first_tab_from(s@, j as int) == -1);
            }
            return None;
        }
        let c0 = s.get_char(j);
        if c0 as u32 == 9 {
            return Some(j);
        }
        proof {
            assert(first_tab_from(s@, j as int) == first_tab_from(s@, j as int + 1));
        }
        j = j + 1;
    }
}

/// The CRLF-terminated lines before the `.`-terminator line, or nothing
/// when no terminator line exists.
fn split_menu(s: &str) -> (r: Option<Vec<String>>)
    ensures
        match (r, menu_lines(s@)) {
            (Some(v), Some(ls)) => string_views(v@) == ls,
            (None, None) => true,
            _ => false,
        },
{
    let mut lines: Vec<String> = Vec::new();
    let mut rest: String = s.to_owned();
    loop
        invariant
            menu_lines(s@) == match menu_lines(rest@) {
                None => None::<Seq<Seq<char>>>,
                Some(ls) => Some(string_views(lines@) + ls),
            },
        decreases rest@.len(),
    {
        let ghost prev_lines = lines@;
        let ghost prev_rest = rest@;
        match find_crlf(rest.as_str()) {
            None => {
                proof {
                    assert(menu_lines(prev_rest) is None);
                }
                return None;
            },
            Some(k) => {
                let n = rest.as_str().unicode_len();
                if k == 1 && rest.as_str().get_char(0) as u32 == 46 {
                    proof {
                        assert(menu_lines(prev_rest) == Some(Seq::<Seq<char>>::empty()));
                        assert(string_views(lines@) + Seq::<Seq<char>>::empty() =~= string_views(
                            lines@,
                        ));
                    }
                    return Some(lines);
                }
                let line = rest.as_str().substring_char(0, k).to_owned();
                let new_rest = rest.as_str().substring_char(k + 2, n).to_owned();
                proof {
                    assert(line@ =~= prev_rest.take(k as int));
                    assert(new_rest@ =~= prev_rest.skip(k as int + 2));
                    assert(menu_lines(prev_rest) == match menu_lines(prev_rest.skip(k as int + 2)) {
                        None => None::<Seq<Seq<char>>>,
                        Some(ls) => Some(seq![prev_rest.take(k as int)] + ls),
                    });
                }
                lines.push(line);
                rest = new_rest;
                proof {
                    assert(string_views(lines@) =~= string_views(prev_lines) + seq![
                        prev_rest.take(k as int),
                    ]);
                    if menu_lines(rest@) is Some {
                        let ls = menu_lines(rest@)->Some_0;
                        assert(string_views(prev_lines) + (seq![prev_rest.take(k as int)] + ls)
                            =~= string_views(lines@) + ls);
                    }
                }
            },
        }
    }
}

/// The decode of a whole menu text read from the menu `from`: the lines up
/// to the `.`-terminator, each classified in order. Lacking the terminator
/// the text is `Incomplete`; a recognized line whose port field has no
/// unsigned 16-bit parse aborts with `MalformedPort`.
pub fn decode_menu(from: &Referer, text: &str) -> (r: Result<Vec<Item>, DecodeError>)
    ensures
        menu_result_matches(r, menu_items(from@, text@)),
{
    let lines = match split_menu(text) {
        None => {
            return Err(DecodeError::Incomplete);
        },
        Some(v) => v,
    };
    let ghost line_seq = menu_lines(text@)->Some_0;
    let mut items: Vec<Item> = Vec::new();
    let mut j: usize = 0;
    let count = lines.len();
    proof {
        assert(line_seq.skip(0) =~= line_seq);
        if decode_lines(from@, line_seq) is Ok {
            let t = decode_lines(from@, line_seq)->Ok_0;
            assert(item_views(items@) + t =~= t);
        }
    }
    while j < count
        invariant
            count == lines@.len(),
            j <= count,
            string_views(lines@) == line_seq,
            menu_items(from@, text@) == decode_lines(from@, line_seq),
            decode_lines(from@, line_seq) == match decode_lines(from@, line_seq.skip(j as int)) {
                Err(e) => Err::<Seq<ItemV>, DecodeError>(e),
                Ok(s) => Ok::<Seq<ItemV>, DecodeError>(item_views(items@) + s),
            },
        decreases count - j,
    {
        let ghost prev_items = items@;
        match Item::from_str(from, lines[j].as_str()) {
            Err(e) => {
                proof {
                    assert(line_seq.skip(j as int)[0] == line_seq[j as int]);
                    assert(decode_lines(from@, line_seq.skip(j as int)) == Err::<
                        Seq<ItemV>,
                        DecodeError,
                    >(e));
                }
                return Err(e);
            },
            Ok(item) => {
                proof {
                    assert(line_seq.skip(j as int)[0] == line_seq[j as int]);
                    assert(line_seq.skip(j as int).skip(1) =~= line_seq.skip(j as int + 1));
                }
                items.push(item);
                proof {
                    assert(item_views(items@) =~= item_views(prev_items).push(item@));
                    if decode_lines(from@, line_seq.skip(j as int + 1)) is Ok {
                        let s = decode_lines(from@, line_seq.skip(j as int + 1))->Ok_0;
                        assert(item_views(prev_items) + (seq![item@] + s) =~= item_views(items@)
                            + s);
                    }
                }
                j = j + 1;
            },
        }
    }
    proof {
        assert(line_seq.skip(count as int) =~= Seq::<Seq<char>>::empty());
        assert(decode_lines(from@, line_seq.skip(count as int)) == Ok::<Seq<ItemV>, DecodeError>(
            Seq::<ItemV>::empty(),
        ));
        assert(item_views(items@) + Seq::<ItemV>::empty() =~= item_views(items@));
    }
    Ok(items)
}

} // verus!

