//! Request shaping and response handling around one exchange: a request
//! names a (domain, port, path) target with a normalized path, and a
//! response builder pairs the raw bytes with the referer that produced
//! them and decodes them as a menu or as plain text.
//!
//! Opening the socket and moving the bytes is the shell's work; everything
//! here is computation on the values the shell hands over.

use vstd::prelude::*;
use vstd::utf8::{decode_utf8, valid_utf8};

use crate::codec::{decode_menu, menu_items, menu_result_matches, DecodeError};
use crate::types::{Item, ItemV, Referer, RefererV};

verus! {

/// What `path_clean::clean` returns for a path: its lexical cleaning. The
/// cleaning rules take pages to state, but the result depends on the
/// characters of the path alone, so it is only named here; contracts that
/// involve it speak of this name.
pub uninterp spec fn cleaned_of(s: Seq<char>) -> Seq<char>;

/// Relies on `path_clean::clean`: a pure lexical cleaning of the path —
/// fewer slashes, no `.` elements, `..` elements resolved — computed from
/// the characters alone, without touching the filesystem.
#[verifier::external_body]
fn clean_path(s: &str) -> (r: String)
    ensures
        r@ == cleaned_of(s@),
{
    path_clean::clean(s).to_string_lossy().into_owned()
}

/// Relies on `core::str::from_utf8`: it returns `Ok` exactly on well-formed
/// UTF-8, and the returned text reads those bytes as characters.
#[verifier::external_body]
fn utf8_decode(v: &[u8]) -> (r: Option<&str>)
    ensures
        r is Some <==> valid_utf8(v@),
        r is Some ==> r->0@ == decode_utf8(v@),
{
    core::str::from_utf8(v).ok()
}

/// `s` with every backslash replaced by a slash.
pub open spec fn replace_backslashes(s: Seq<char>) -> Seq<char> {
    s.map_values(
        |c: char|
            if c == '\\' {
                '/'
            } else {
                c
            },
    )
}

/// A path as a request carries it: cleaned, slashes only, and never empty —
/// an empty cleaning is read as the root path.
pub open spec fn normalized(s: Seq<char>) -> Seq<char> {
    let t = replace_backslashes(cleaned_of(s));
    if t.len() == 0 {
        seq!['/']
    } else {
        t
    }
}

/// The position of the first backslash at or after `j`, or -1 when there is
/// none.
pub open spec fn first_backslash_from(s: Seq<char>, j: int) -> int
    decreases s.len() - j,
{
    if j < 0 || j + 1 > s.len() {
        -1
    } else if s[j] == '\\' {
        j
    } else {
        first_backslash_from(s, j + 1)
    }
}

/// The position of the first backslash of `s`, if any.
fn find_backslash(s: &str) -> (r: Option<usize>)
    ensures
        match r {
            Some(j) => first_backslash_from(s@, 0) == j as int && j + 1 <= s@.len(),
            None => first_backslash_from(s@, 0) == -1,
        },
{
    let n = s.unicode_len();
    let mut j: usize = 0;
    loop
        invariant
            n == s@.len(),
            j <= n,
            first_backslash_from(s@, 0) == first_backslash_from(s@, j as int),
        decreases n - j,
    {
        if j >= n {
            proof {
                assert(first_backslash_from(s@, j as int) == -1);
            }
            return None;
        }
        if s.get_char(j) as u32 == 92 {
            return Some(j);
        }
        proof {
            assert(first_backslash_from(s@, j as int) == first_backslash_from(s@, j as int + 1));
        }
        j = j + 1;
    }
}

/// A backslash stands at the found position.
proof fn lemma_first_backslash_at(s: Seq<char>, j: int)
    requires
        0 <= j,
        first_backslash_from(s, j) >= 0,
    ensures
        first_backslash_from(s, j) < s.len(),
        s[first_backslash_from(s, j)] == '\\',
    decreases s.len() - j,
{
    if j + 1 <= s.len() && s[j] != '\\' {
        lemma_first_backslash_at(s, j + 1);
    }
}

/// No backslash stands before the first one.
proof fn lemma_first_backslash_least(s: Seq<char>, j: int, i: int)
    requires
        0 <= j <= i,
        first_backslash_from(s, j) == -1 || i < first_backslash_from(s, j),
        i < s.len(),
    ensures
        s[i] != '\\',
    decreases i - j,
{
    if j < i {
        lemma_first_backslash_least(s, j + 1, i);
    }
}

/// `s` with every backslash replaced by a slash.
fn replace_backslashes_exec(s: &str) -> (r: String)
    ensures
        r@ == replace_backslashes(s@),
{
    let mut out = String::new();
    let mut rest: String = s.to_owned();
    loop
        invariant
            replace_backslashes(s@) =~= out@ + replace_backslashes(rest@),
        decreases rest@.len(),
    {
        let ghost prev_out = out@;
        let ghost prev_rest = rest@;
        let n = rest.as_str().unicode_len();
        match find_backslash(rest.as_str()) {
            None => {
                proof {
                    assert forall|i: int| 0 <= i < prev_rest.len() implies prev_rest[i] != '\\' by {
                        lemma_first_backslash_least(prev_rest, 0, i);
                    }
                    assert(replace_backslashes(prev_rest) =~= prev_rest);
                }
                out.append(rest.as_str());
                proof {
                    assert(out@ =~= replace_backslashes(s@));
                }
                return out;
            },
            Some(k) => {
                let before = rest.as_str().substring_char(0, k);
                let new_rest = rest.as_str().substring_char(k + 1, n).to_owned();
                out.append(before);
                out.append("/");
                proof {
                    reveal_strlit("/");
                    assert forall|i: int| 0 <= i < k implies prev_rest[i] != '\\' by {
                        lemma_first_backslash_least(prev_rest, 0, i);
                    }
                    lemma_first_backslash_at(prev_rest, 0);
                    assert(prev_rest[k as int] == '\\');
                    assert(new_rest@ =~= prev_rest.skip(k as int + 1));
                    assert(out@ =~= prev_out + replace_backslashes(prev_rest).take(k as int + 1));
                    assert(replace_backslashes(prev_rest) =~= replace_backslashes(prev_rest).take(
                        k as int + 1,
                    ) + replace_backslashes(new_rest@));
                    assert(replace_backslashes(s@) =~= out@ + replace_backslashes(new_rest@));
                }
                rest = new_rest;
            },
        }
    }
}

/// The path `rest` joined under `prefix` with a slash and cleaned, as the
/// filesystem targets are derived.
pub fn join_clean(prefix: &str, rest: &str) -> (r: String)
    ensures
        r@ == cleaned_of(prefix@ + seq!['/'] + rest@),
{
    let joined = prefix.to_owned().concat("/").concat(rest);
    proof {
        reveal_strlit("/");
        assert(joined@ =~= prefix@ + seq!['/'] + rest@);
    }
    clean_path(joined.as_str())
}

/// One request to make: a (domain, port) target and the normalized path to
/// ask it for. The shell owns the socket and the timeouts; the request owns
/// the naming.
#[derive(Clone)]
pub struct Request {
    pub port: u16,
    pub path: String,
    pub domain: String,
}

// A request names the same (domain, port, path) triple as a referer, so the
// two share one mathematical value.
impl View for Request {
    type V = RefererV;

    open spec fn view(&self) -> RefererV {
        RefererV { port: self.port, path: self.path@, domain: self.domain@ }
    }
}

impl Request {
    /// A request for the root path of (domain, port).
    pub fn new(domain: &str, port: u16) -> (r: Self)
        ensures
            r@.domain == domain@,
            r@.port == port,
            r@.path == seq!['/'],
    {
        proof {
            reveal_strlit("/");
        }
        Self { port, path: "/".to_owned(), domain: domain.to_owned() }
    }

    /// Points the request at a new path, normalized.
    pub fn update_path(&mut self, new_path: &str)
        ensures
            final(self)@.path == normalized(new_path@),
            final(self)@.domain == old(self)@.domain,
            final(self)@.port == old(self)@.port,
    {
        let cleaned = clean_path(new_path);
        let replaced = replace_backslashes_exec(cleaned.as_str());
        if replaced.as_str().unicode_len() == 0 {
            proof {
                reveal_strlit("/");
            }
            self.path = "/".to_owned();
        } else {
            self.path = replaced;
        }
    }

    /// The request naming a `Data` entry's own (domain, port, location);
    /// any other entry is refused.
    pub fn from_item(item: &Item) -> (r: Result<Self, String>)
        ensures
            match (r, item@) {
                (Ok(req), ItemV::Data { domain, port, location, .. }) => req@.domain == domain
                    && req@.port == port && req@.path == normalized(location),
                (Err(_), v) => !(v is Data),
                _ => false,
            },
    {
        if let Item::DATA { location, domain, port, .. } = item {
            let mut req = Request { port: *port, path: String::new(), domain: domain.clone() };
            req.update_path(location.as_str());
            Ok(req)
        } else {
            Err("request initiation error: not a fetchable entry".to_owned())
        }
    }

    /// The request line to send on the wire: the path followed by CRLF.
    pub fn request_line(&self) -> (r: String)
        ensures
            r@ == self@.path + seq!['\r', '\n'],
    {
        crate::codec::encode_request(self.path.as_str())
    }
}

/// A raw response paired with the referer that produced it.
pub struct ResponseBuilder {
    pub raw: Vec<u8>,
    pub referer: Referer,
}

impl ResponseBuilder {
    /// The response decoded as a menu: the lines before the terminator,
    /// classified in order. Bytes that are not well-formed UTF-8 are
    /// `NotText`; a missing terminator is `Incomplete`; a recognized line
    /// with an unparseable port aborts with `MalformedPort`.
    pub fn as_items(&self) -> (r: Result<Vec<Item>, DecodeError>)
        ensures
            valid_utf8(self.raw@) ==> menu_result_matches(
                r,
                menu_items(self.referer@, decode_utf8(self.raw@)),
            ),
            !valid_utf8(self.raw@) ==> r == Err::<Vec<Item>, DecodeError>(DecodeError::NotText),
    {
        match utf8_decode(self.raw.as_slice()) {
            None => Err(DecodeError::NotText),
            Some(text) => decode_menu(&self.referer, text),
        }
    }

    /// The response read as text, when its bytes are well-formed UTF-8.
    pub fn as_utf8_str(&self) -> (r: Result<String, DecodeError>)
        ensures
            valid_utf8(self.raw@) ==> r is Ok && r->Ok_0@ == decode_utf8(self.raw@),
            !valid_utf8(self.raw@) ==> r == Err::<String, DecodeError>(DecodeError::NotText),
    {
        match utf8_decode(self.raw.as_slice()) {
            None => Err(DecodeError::NotText),
            Some(text) => Ok(text.to_owned()),
        }
    }

    /// The filesystem target for this response under `dest_prefix`: the
    /// referer's own path joined under the prefix and cleaned.
    pub fn target_path(&self, dest_prefix: &str) -> (r: String)
        ensures
            r@ == cleaned_of(dest_prefix@ + seq!['/'] + self.referer@.path),
    {
        join_clean(dest_prefix, self.referer.path.as_str())
    }
}

} // verus!
