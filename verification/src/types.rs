//! The entry model: the menu context a line was read from (`Referer`) and the
//! typed menu entries (`Item`), with the identity rule that drives
//! deduplication and the size rule that drives ranking.

use core::cmp::Ordering;
use vstd::prelude::*;

use crate::text::{dec_str, u64_to_string};

verus! {

/// Relies on `char::to_string`: the string of the one character.
#[verifier::external_body]
fn char_to_string(c: char) -> (r: String)
    ensures
        r@ == seq![c],
{
    c.to_string()
}

/// The menu context a line was read from: a server, a port and the path of
/// the menu on that server.
#[derive(Clone, Debug)]
pub struct Referer {
    pub port: u16,
    pub path: String,
    pub domain: String,
}

/// The mathematical value of a [`Referer`]: its fields as sequences of
/// characters.
pub struct RefererV {
    pub port: u16,
    pub path: Seq<char>,
    pub domain: Seq<char>,
}

impl View for Referer {
    type V = RefererV;

    open spec fn view(&self) -> RefererV {
        RefererV { port: self.port, path: self.path@, domain: self.domain@ }
    }
}

impl Referer {
    pub fn new(domain: &str, port: u16, path: &str) -> (r: Self)
        ensures
            r@.domain == domain@,
            r@.port == port,
            r@.path == path@,
    {
        Self { port, path: path.to_owned(), domain: domain.to_owned() }
    }
}

impl Referer {
    /// A copy with the same value. (The derived `Clone` carries no
    /// specification, so verified callers copy through this method.)
    pub fn duplicate(&self) -> (r: Self)
        ensures
            r@ == self@,
    {
        Referer { port: self.port, path: self.path.clone(), domain: self.domain.clone() }
    }
}

/// Two referers are the same when all three fields agree.
pub open spec fn referer_eq(a: RefererV, b: RefererV) -> bool {
    a.domain == b.domain && a.port == b.port && a.path == b.path
}

impl PartialEq for Referer {
    fn eq(&self, other: &Self) -> (r: bool) {
        self.port == other.port && self.path == other.path && self.domain == other.domain
    }
}

impl vstd::std_specs::cmp::PartialEqSpecImpl for Referer {
    open spec fn obeys_eq_spec() -> bool {
        true
    }

    open spec fn eq_spec(&self, other: &Referer) -> bool {
        referer_eq(self@, other@)
    }
}

/// A decoded menu line.
///
/// * `INFO` — an annotation (tags `i` and `3`); never fetched or traversed.
/// * `DATA` — a fetchable resource; `size` stays 0 until the entry's own
///   retrieval succeeds.
/// * `UNKNOWN` — a line that fails the schema; kept for diagnostics only.
#[derive(Clone, Debug)]
pub enum Item {
    INFO { tag: char, from: Referer, message: String, domain: String, port: u16 },
    DATA {
        tag: char,
        size: u64,
        caption: String,
        referer: Referer,
        location: String,
        domain: String,
        port: u16,
    },
    UNKNOWN { from: Referer, unparsed: String },
}

/// The mathematical value of an [`Item`]: the same variants over sequences
/// of characters.
pub enum ItemV {
    Info { tag: char, from: RefererV, message: Seq<char>, domain: Seq<char>, port: u16 },
    Data {
        tag: char,
        size: u64,
        caption: Seq<char>,
        referer: RefererV,
        location: Seq<char>,
        domain: Seq<char>,
        port: u16,
    },
    Unknown { from: RefererV, unparsed: Seq<char> },
}

impl View for Item {
    type V = ItemV;

    open spec fn view(&self) -> ItemV {
        match self {
            Item::INFO { tag, from, message, domain, port } => ItemV::Info {
                tag: *tag,
                from: from@,
                message: message@,
                domain: domain@,
                port: *port,
            },
            Item::DATA { tag, size, caption, referer, location, domain, port } => ItemV::Data {
                tag: *tag,
                size: *size,
                caption: caption@,
                referer: referer@,
                location: location@,
                domain: domain@,
                port: *port,
            },
            Item::UNKNOWN { from, unparsed } => ItemV::Unknown {
                from: from@,
                unparsed: unparsed@,
            },
        }
    }
}

/// The views of a sequence of items.
pub open spec fn item_views(s: Seq<Item>) -> Seq<ItemV> {
    s.map_values(|x: Item| x@)
}

/// The size of an entry: the fetched byte count of a `Data` entry, nothing
/// for the other variants.
pub open spec fn item_size(v: ItemV) -> Option<u64> {
    match v {
        ItemV::Data { size, .. } => Some(size),
        _ => None,
    }
}

/// The identity rule that drives deduplication.
///
/// Two `Data` entries are the same entry exactly when they name the same
/// server path — (domain, port, location) — however they were captioned and
/// wherever they were first seen, and whatever has been fetched of them.
/// `Info` and `Unknown` entries use full structural equality, and entries of
/// different variants are never the same.
pub open spec fn same_identity(a: ItemV, b: ItemV) -> bool {
    match (a, b) {
        (
            ItemV::Info { tag: t1, from: f1, message: m1, domain: d1, port: p1 },
            ItemV::Info { tag: t2, from: f2, message: m2, domain: d2, port: p2 },
        ) => t1 == t2 && referer_eq(f1, f2) && m1 == m2 && d1 == d2 && p1 == p2,
        (
            ItemV::Data { domain: d1, port: p1, location: l1, .. },
            ItemV::Data { domain: d2, port: p2, location: l2, .. },
        ) => d1 == d2 && p1 == p2 && l1 == l2,
        (
            ItemV::Unknown { from: f1, unparsed: u1 },
            ItemV::Unknown { from: f2, unparsed: u2 },
        ) => referer_eq(f1, f2) && u1 == u2,
        _ => false,
    }
}

impl Item {
    /// A copy with the same value. (The derived `Clone` carries no
    /// specification, so verified callers copy through this method.)
    pub fn duplicate(&self) -> (r: Self)
        ensures
            r@ == self@,
    {
        match self {
            Item::INFO { tag, from, message, domain, port } => Item::INFO {
                tag: *tag,
                from: from.duplicate(),
                message: message.clone(),
                domain: domain.clone(),
                port: *port,
            },
            Item::DATA { tag, size, caption, referer, location, domain, port } => Item::DATA {
                tag: *tag,
                size: *size,
                caption: caption.clone(),
                referer: referer.duplicate(),
                location: location.clone(),
                domain: domain.clone(),
                port: *port,
            },
            Item::UNKNOWN { from, unparsed } => Item::UNKNOWN {
                from: from.duplicate(),
                unparsed: unparsed.clone(),
            },
        }
    }

    /// The fetched byte count of a `Data` entry; `None` for the other
    /// variants.
    pub fn get_size(&self) -> (r: Option<u64>)
        ensures
            r == item_size(self@),
    {
        if let Item::DATA { size, .. } = self {
            Some(*size)
        } else {
            None
        }
    }

    /// Writes the fetched byte count of a `Data` entry; leaves the other
    /// variants unchanged.
    pub fn update_size(&mut self, new_size: u64)
        ensures
            final(self)@ == with_size(old(self)@, new_size),
    {
        if let Item::DATA { ref mut size, .. } = self {
            *size = new_size;
        }
    }
}

/// The entry with its size replaced, if it is a `Data` entry.
pub open spec fn with_size(v: ItemV, new_size: u64) -> ItemV {
    match v {
        ItemV::Data { tag, size, caption, referer, location, domain, port } => ItemV::Data {
            tag,
            size: new_size,
            caption,
            referer,
            location,
            domain,
            port,
        },
        _ => v,
    }
}

impl PartialEq for Item {
    fn eq(&self, other: &Self) -> (r: bool) {
        match (self, other) {
            (
                Item::INFO { tag: t1, from: f1, message: m1, domain: d1, port: p1 },
                Item::INFO { tag: t2, from: f2, message: m2, domain: d2, port: p2 },
            ) => (*t1 as u32) == (*t2 as u32) && f1 == f2 && *m1 == *m2 && *d1 == *d2 && p1 == p2,
            (
                Item::DATA { domain: d1, port: p1, location: l1, .. },
                Item::DATA { domain: d2, port: p2, location: l2, .. },
            ) => *d1 == *d2 && p1 == p2 && *l1 == *l2,
            (
                Item::UNKNOWN { from: f1, unparsed: u1 },
                Item::UNKNOWN { from: f2, unparsed: u2 },
            ) => f1 == f2 && *u1 == *u2,
            _ => false,
        }
    }
}

impl vstd::std_specs::cmp::PartialEqSpecImpl for Item {
    open spec fn obeys_eq_spec() -> bool {
        true
    }

    open spec fn eq_spec(&self, other: &Item) -> bool {
        same_identity(self@, other@)
    }
}

/// A referer's one-line rendering: domain, a colon, the port in decimal,
/// then the path.
pub open spec fn referer_text(r: RefererV) -> Seq<char> {
    r.domain + seq![':'] + dec_str(r.port as int) + r.path
}

/// An entry's report rendering: the variant, its tag where it has one, and
/// its fields, one per line.
pub open spec fn item_description(v: ItemV) -> Seq<char> {
    match v {
        ItemV::Info { tag, from, message, domain, port } => "==INFO: type "@ + seq![tag]
            + "==\nFrom: "@ + referer_text(from) + "\nMessage: "@ + message + "\nDomain: "@
            + domain + "\nPort: "@ + dec_str(port as int) + "\n"@,
        ItemV::Data { tag, size, caption, location, domain, port, .. } => "==DATA: type "@ + seq![
            tag,
        ] + "==\nCaption: "@ + caption + "\nLocation: "@ + location + "\nSize: "@ + dec_str(
            size as int,
        ) + "\nDomain: "@ + domain + "\nPort: "@ + dec_str(port as int) + "\n"@,
        ItemV::Unknown { from, unparsed } => "==Unknown==\nFrom: "@ + referer_text(from)
            + "\nUnparsed content:\n"@ + unparsed + "\n"@,
    }
}

impl Referer {
    /// The one-line rendering for reports; see [`referer_text`].
    pub fn describe(&self) -> (r: String)
        ensures
            r@ == referer_text(self@),
    {
        let mut s = self.domain.clone();
        s.append(":");
        s.append(u64_to_string(self.port as u64).as_str());
        s.append(self.path.as_str());
        proof {
            reveal_strlit(":");
            assert(s@ =~= referer_text(self@));
        }
        s
    }
}

impl Item {
    /// The report rendering for logs; see [`item_description`].
    pub fn describe(&self) -> (r: String)
        ensures
            r@ == item_description(self@),
    {
        match self {
            Item::INFO { tag, from, message, domain, port } => {
                let mut s = "==INFO: type ".to_owned();
                s.append(char_to_string(*tag).as_str());
                s.append("==\nFrom: ");
                s.append(from.describe().as_str());
                s.append("\nMessage: ");
                s.append(message.as_str());
                s.append("\nDomain: ");
                s.append(domain.as_str());
                s.append("\nPort: ");
                s.append(u64_to_string(*port as u64).as_str());
                s.append("\n");
                proof {
                    assert(s@ =~= item_description(self@));
                }
                s
            },
            Item::DATA { tag, size, caption, location, domain, port, .. } => {
                let mut s = "==DATA: type ".to_owned();
                s.append(char_to_string(*tag).as_str());
                s.append("==\nCaption: ");
                s.append(caption.as_str());
                s.append("\nLocation: ");
                s.append(location.as_str());
                s.append("\nSize: ");
                s.append(u64_to_string(*size).as_str());
                s.append("\nDomain: ");
                s.append(domain.as_str());
                s.append("\nPort: ");
                s.append(u64_to_string(*port as u64).as_str());
                s.append("\n");
                proof {
                    assert(s@ =~= item_description(self@));
                }
                s
            },
            Item::UNKNOWN { from, unparsed } => {
                let mut s = "==Unknown==\nFrom: ".to_owned();
                s.append(from.describe().as_str());
                s.append("\nUnparsed content:\n");
                s.append(unparsed.as_str());
                s.append("\n");
                proof {
                    assert(s@ =~= item_description(self@));
                }
                s
            },
        }
    }
}

/// The ordering rule for ranking: two `Data` entries compare by size; a
/// comparison that involves a non-`Data` entry is undefined.
pub open spec fn size_order(a: ItemV, b: ItemV) -> Option<Ordering> {
    match (item_size(a), item_size(b)) {
        (Some(x), Some(y)) => if x < y {
            Some(Ordering::Less)
        } else if x > y {
            Some(Ordering::Greater)
        } else {
            Some(Ordering::Equal)
        },
        _ => None,
    }
}

impl PartialOrd for Item {
    fn partial_cmp(&self, other: &Self) -> (r: Option<Ordering>) {
        match (self.get_size(), other.get_size()) {
            (Some(x), Some(y)) => if x < y {
                Some(Ordering::Less)
            } else if x > y {
                Some(Ordering::Greater)
            } else {
                Some(Ordering::Equal)
            },
            _ => None,
        }
    }
}

impl vstd::std_specs::cmp::PartialOrdSpecImpl for Item {
    open spec fn obeys_partial_cmp_spec() -> bool {
        true
    }

    open spec fn partial_cmp_spec(&self, other: &Item) -> Option<Ordering> {
        size_order(self@, other@)
    }
}

/// The total ranking rule: two `Data` entries compare by size, a `Data`
/// entry ranks above any non-`Data` entry, and two non-`Data` entries rank
/// equal.
pub open spec fn rank_order(a: ItemV, b: ItemV) -> Ordering {
    match (item_size(a), item_size(b)) {
        (Some(x), Some(y)) => if x < y {
            Ordering::Less
        } else if x > y {
            Ordering::Greater
        } else {
            Ordering::Equal
        },
        (Some(_), None) => Ordering::Greater,
        (None, Some(_)) => Ordering::Less,
        (None, None) => Ordering::Equal,
    }
}

impl Item {
    /// The total ranking of two entries; see [`rank_order`].
    pub fn cmp(&self, other: &Item) -> (r: Ordering)
        ensures
            r == rank_order(self@, other@),
    {
        match (self.get_size(), other.get_size()) {
            (Some(x), Some(y)) => if x < y {
                Ordering::Less
            } else if x > y {
                Ordering::Greater
            } else {
                Ordering::Equal
            },
            (Some(_), None) => Ordering::Greater,
            (None, Some(_)) => Ordering::Less,
            (None, None) => Ordering::Equal,
        }
    }
}

} // verus!

