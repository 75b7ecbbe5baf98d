//! The traversal driver: a client owns the deduplicated discovered-entry
//! sequence, the visited-referer sequence and the worklist of pending
//! requests. The shell performs one exchange per pending request and hands
//! the response back to [`Client::scan_re`], which records the referer,
//! decodes, deduplicates, and queues the newly discovered directory entries
//! that the boundary policy lets it follow. Any transport or decode failure
//! leaves everything but the visited list unchanged: that branch is
//! abandoned silently.

use vstd::prelude::*;
use vstd::utf8::{decode_utf8, valid_utf8};

use crate::codec::menu_items;
use crate::io::{normalized, Request, ResponseBuilder};
use crate::types::{item_views, referer_eq, same_identity, Item, ItemV, Referer, RefererV};

verus! {

/// The views of a sequence of referers.
pub open spec fn referer_views(s: Seq<Referer>) -> Seq<RefererV> {
    s.map_values(|x: Referer| x@)
}

/// The views of a sequence of requests.
pub open spec fn request_views(s: Seq<Request>) -> Seq<RefererV> {
    s.map_values(|x: Request| x@)
}

/// Whether `s` already holds an entry with the identity of `x`.
pub open spec fn contains_identity(s: Seq<ItemV>, x: ItemV) -> bool {
    exists|i: int| 0 <= i < s.len() && same_identity(s[i], x)
}

/// No two positions hold entries of the same identity.
pub open spec fn pairwise_distinct(s: Seq<ItemV>) -> bool {
    forall|i: int, j: int| 0 <= i < j < s.len() ==> !same_identity(s[i], s[j])
}

/// The discovered sequence after absorbing `decoded` in order: each entry
/// already matching a discovered one by identity is dropped, the rest are
/// appended in decode order.
pub open spec fn insert_new(existing: Seq<ItemV>, decoded: Seq<ItemV>) -> Seq<ItemV>
    decreases decoded.len(),
{
    if decoded.len() == 0 {
        existing
    } else {
        let next = if contains_identity(existing, decoded[0]) {
            existing
        } else {
            existing.push(decoded[0])
        };
        insert_new(next, decoded.skip(1))
    }
}

/// Whether the tag marks a navigable entry (directory or search result).
pub open spec fn is_directory_tag(c: char) -> bool {
    c == '1' || c == '7'
}

/// Whether the entry is a navigable `Data` entry.
pub open spec fn is_directory_entry(v: ItemV) -> bool {
    match v {
        ItemV::Data { tag, .. } => is_directory_tag(tag),
        _ => false,
    }
}

/// The boundary policy: a newly discovered directory entry is followed
/// unless the policy is internal-only and the entry's (domain, port)
/// differs from the traversal root's.
pub open spec fn followable(
    v: ItemV,
    internal_only: bool,
    root_domain: Seq<char>,
    root_port: u16,
) -> bool {
    match v {
        ItemV::Data { tag, domain, port, .. } => is_directory_tag(tag) && (!internal_only || (
        domain == root_domain && port == root_port)),
        _ => false,
    }
}

/// The request a `Data` entry's own (domain, port, location) names; entries
/// of the other variants are never followed, and their target is read as
/// the menu they came from.
pub open spec fn target_of(v: ItemV) -> RefererV {
    match v {
        ItemV::Data { domain, port, location, .. } => RefererV {
            domain,
            port,
            path: normalized(location),
        },
        ItemV::Info { domain, port, .. } => RefererV { domain, port, path: seq!['/'] },
        ItemV::Unknown { from, .. } => from,
    }
}

/// The requests to follow out of the newly added entries, in decode order:
/// the targets of the directory entries that the boundary policy admits.
pub open spec fn follow_targets(
    added: Seq<ItemV>,
    internal_only: bool,
    root_domain: Seq<char>,
    root_port: u16,
) -> Seq<RefererV>
    decreases added.len(),
{
    if added.len() == 0 {
        seq![]
    } else {
        let rest = follow_targets(added.skip(1), internal_only, root_domain, root_port);
        if followable(added[0], internal_only, root_domain, root_port) {
            seq![target_of(added[0])] + rest
        } else {
            rest
        }
    }
}

/// Deduplication keeps the discovered sequence duplicate-free: absorbing
/// any decoded run into a sequence with no two entries of the same identity
/// leaves no two entries of the same identity.
pub proof fn lemma_dedup_preserved(existing: Seq<ItemV>, decoded: Seq<ItemV>)
    requires
        pairwise_distinct(existing),
    ensures
        pairwise_distinct(insert_new(existing, decoded)),
    decreases decoded.len(),
{
    if decoded.len() > 0 {
        let d0 = decoded[0];
        if contains_identity(existing, d0) {
            lemma_dedup_preserved(existing, decoded.skip(1));
        } else {
            let next = existing.push(d0);
            assert forall|i: int, j: int| 0 <= i < j < next.len() implies !same_identity(
                next[i],
                next[j],
            ) by {
                if j == next.len() - 1 {
                    assert(next[i] == existing[i]);
                    assert(!same_identity(existing[i], d0));
                } else {
                    assert(next[i] == existing[i] && next[j] == existing[j]);
                }
            }
            lemma_dedup_preserved(next, decoded.skip(1));
        }
    }
}

/// Dedup by identity: in a duplicate-free discovered sequence, two distinct
/// positions never hold `Data` entries naming the same
/// (domain, port, location), whatever their captions, referers and sizes.
pub proof fn lemma_dedup_by_identity(s: Seq<ItemV>, i: int, j: int)
    requires
        pairwise_distinct(s),
        0 <= i < s.len(),
        0 <= j < s.len(),
        i != j,
        s[i] is Data,
        s[j] is Data,
    ensures
        !(s[i]->Data_domain == s[j]->Data_domain && s[i]->Data_port == s[j]->Data_port
            && s[i]->Data_location == s[j]->Data_location),
{
    if i < j {
        assert(!same_identity(s[i], s[j]));
    } else {
        assert(!same_identity(s[j], s[i]));
    }
}

/// Boundary policy: under the internal-only policy every followed target
/// stays on the root (domain, port); with external tracing every newly
/// added directory entry is followed, wherever it points. Either way an
/// entry that is excluded is still in the discovered sequence — it is
/// merely not followed.
pub proof fn lemma_boundary_policy(added: Seq<ItemV>, root_domain: Seq<char>, root_port: u16)
    ensures
        ({
            let ft = follow_targets(added, true, root_domain, root_port);
            forall|k: int|
                0 <= k < ft.len() ==> (#[trigger] ft[k]).domain == root_domain && ft[k].port
                    == root_port
        }),
        forall|i: int|
            0 <= i < added.len() && is_directory_entry(#[trigger] added[i]) ==> follow_targets(
                added,
                false,
                root_domain,
                root_port,
            ).contains(target_of(added[i])),
    decreases added.len(),
{
    if added.len() > 0 {
        lemma_boundary_policy(added.skip(1), root_domain, root_port);
        let rest_t = follow_targets(added.skip(1), true, root_domain, root_port);
        let rest_f = follow_targets(added.skip(1), false, root_domain, root_port);
        let ft = follow_targets(added, true, root_domain, root_port);
        assert forall|k: int|
            0 <= k < ft.len() implies (#[trigger] ft[k]).domain == root_domain && ft[k].port
            == root_port by {
            if followable(added[0], true, root_domain, root_port) {
                if k > 0 {
                    assert(ft[k] == rest_t[k - 1]);
                }
            } else {
                assert(ft[k] == rest_t[k]);
            }
        }
        let ff = follow_targets(added, false, root_domain, root_port);
        assert forall|i: int|
            0 <= i < added.len() && is_directory_entry(#[trigger] added[i]) implies ff.contains(
            target_of(added[i]),
        ) by {
            if i == 0 {
                assert(followable(added[0], false, root_domain, root_port));
                assert(ff[0] == target_of(added[0]));
            } else {
                assert(added[i] == added.skip(1)[i - 1]);
                assert(rest_f.contains(target_of(added[i])));
                let k = choose|k: int|
                    0 <= k < rest_f.len() && rest_f[k] == target_of(added[i]);
                if followable(added[0], false, root_domain, root_port) {
                    assert(ff[k + 1] == rest_f[k]);
                } else {
                    assert(ff[k] == rest_f[k]);
                }
            }
        }
    }
}

/// What a response decodes to for the discovery step: the entries of a
/// menu that decoded cleanly, nothing when the bytes are not text, the
/// terminator is missing, or a port is malformed.
pub open spec fn response_entries(raw: Seq<u8>, referer: RefererV) -> Option<Seq<ItemV>> {
    if valid_utf8(raw) {
        match menu_items(referer, decode_utf8(raw)) {
            Ok(s) => Some(s),
            Err(_) => None,
        }
    } else {
        None
    }
}

/// Whether the entry is a `Data` entry carrying the error tag.
pub open spec fn is_error_entry(v: ItemV) -> bool {
    match v {
        ItemV::Data { tag, .. } => tag == '3',
        _ => false,
    }
}

/// Whether the entry is a `Data` entry pointing off the root
/// (domain, port).
pub open spec fn is_external_entry(v: ItemV, root_domain: Seq<char>, root_port: u16) -> bool {
    match v {
        ItemV::Data { domain, port, .. } => domain != root_domain || port != root_port,
        _ => false,
    }
}

/// The navigable entries of `s`, in order.
pub open spec fn directory_entries(s: Seq<ItemV>) -> Seq<ItemV>
    decreases s.len(),
{
    if s.len() == 0 {
        seq![]
    } else if is_directory_entry(s[0]) {
        seq![s[0]] + directory_entries(s.skip(1))
    } else {
        directory_entries(s.skip(1))
    }
}

/// The error-tagged `Data` entries of `s`, in order.
pub open spec fn error_entries(s: Seq<ItemV>) -> Seq<ItemV>
    decreases s.len(),
{
    if s.len() == 0 {
        seq![]
    } else if is_error_entry(s[0]) {
        seq![s[0]] + error_entries(s.skip(1))
    } else {
        error_entries(s.skip(1))
    }
}

/// The `Data` entries of `s` pointing off the root (domain, port), in
/// order.
pub open spec fn external_entries(s: Seq<ItemV>, root_domain: Seq<char>, root_port: u16) -> Seq<
    ItemV,
>
    decreases s.len(),
{
    if s.len() == 0 {
        seq![]
    } else if is_external_entry(s[0], root_domain, root_port) {
        seq![s[0]] + external_entries(s.skip(1), root_domain, root_port)
    } else {
        external_entries(s.skip(1), root_domain, root_port)
    }
}

/// The messages of the `Info` entries read from the menu `at`, in order.
pub open spec fn info_messages(s: Seq<ItemV>, at: RefererV) -> Seq<Seq<char>>
    decreases s.len(),
{
    if s.len() == 0 {
        seq![]
    } else {
        let rest = info_messages(s.skip(1), at);
        match s[0] {
            ItemV::Info { from, message, .. } => if referer_eq(from, at) {
                seq![message] + rest
            } else {
                rest
            },
            _ => rest,
        }
    }
}

/// The parts joined with a newline between each two.
pub open spec fn joined_lines(parts: Seq<Seq<char>>) -> Seq<char>
    decreases parts.len(),
{
    if parts.len() == 0 {
        seq![]
    } else if parts.len() == 1 {
        parts[0]
    } else {
        parts[0] + seq!['\n'] + joined_lines(parts.skip(1))
    }
}

/// Joining one more part appends a newline and the part.
proof fn lemma_joined_push(parts: Seq<Seq<char>>, m: Seq<char>)
    ensures
        joined_lines(parts.push(m)) == if parts.len() == 0 {
            m
        } else {
            joined_lines(parts) + seq!['\n'] + m
        },
    decreases parts.len(),
{
    if parts.len() == 0 {
        assert(parts.push(m) =~= seq![m]);
        assert(joined_lines(seq![m]) == m);
    } else if parts.len() == 1 {
        assert(parts.push(m).skip(1) =~= seq![m]);
        assert(parts.push(m)[0] == parts[0]);
        assert(joined_lines(seq![m]) == m);
        assert(joined_lines(parts.push(m)) == parts.push(m)[0] + seq!['\n'] + joined_lines(
            parts.push(m).skip(1),
        ));
    } else {
        assert(parts.push(m).skip(1) =~= parts.skip(1).push(m));
        lemma_joined_push(parts.skip(1), m);
        assert(parts.push(m)[0] == parts[0]);
        assert((parts[0] + seq!['\n'] + joined_lines(parts.skip(1))) + seq!['\n'] + m =~= parts[0]
            + seq!['\n'] + (joined_lines(parts.skip(1)) + seq!['\n'] + m));
    }
}

/// The crawler state: the traversal root, the deduplicated discovered
/// entries, the visited referers, and the worklist of requests still to
/// make, followed last-in-first-out.
pub struct Client {
    pub port: u16,
    pub domain: String,
    pub items: Vec<Item>,
    pub referers: Vec<Referer>,
    pub pending: Vec<Request>,
}

impl Client {
    /// A client for `domain` with the protocol's default port and nothing
    /// discovered.
    pub fn new(domain: &str) -> (r: Self)
        ensures
            r.domain@ == domain@,
            r.port == 70,
            r.items@.len() == 0,
            r.referers@.len() == 0,
            r.pending@.len() == 0,
    {
        Self {
            port: 70,
            domain: domain.to_owned(),
            items: Vec::new(),
            referers: Vec::new(),
            pending: Vec::new(),
        }
    }

    /// Retargets the client's port.
    pub fn update_port(&mut self, port: u16)
        ensures
            final(self).port == port,
            final(self).domain == old(self).domain,
            final(self).items == old(self).items,
            final(self).referers == old(self).referers,
            final(self).pending == old(self).pending,
    {
        self.port = port;
    }

    /// The probe request for the root path; the shell performs the
    /// exchange and discards the response.
    pub fn ping(&self) -> (r: Request)
        ensures
            r@.domain == self.domain@,
            r@.port == self.port,
            r@.path == seq!['/'],
    {
        Request::new(self.domain.as_str(), self.port)
    }

    /// Seeds the worklist with the root path of the traversal root.
    pub fn start_scan(&mut self)
        ensures
            final(self).port == old(self).port,
            final(self).domain == old(self).domain,
            final(self).items == old(self).items,
            final(self).referers == old(self).referers,
            request_views(final(self).pending@) == request_views(old(self).pending@).push(
                RefererV { domain: old(self).domain@, port: old(self).port, path: seq!['/'] },
            ),
    {
        let ghost prev = self.pending@;
        let req = Request::new(self.domain.as_str(), self.port);
        self.pending.push(req);
        proof {
            assert(request_views(self.pending@) =~= request_views(prev).push(
                RefererV { domain: self.domain@, port: self.port, path: seq!['/'] },
            ));
        }
    }

    /// The next request to make, newest first; nothing when the traversal
    /// is finished.
    pub fn next_request(&mut self) -> (r: Option<Request>)
        ensures
            final(self).port == old(self).port,
            final(self).domain == old(self).domain,
            final(self).items == old(self).items,
            final(self).referers == old(self).referers,
            match r {
                Some(req) => old(self).pending@.len() > 0 && req == old(self).pending@.last()
                    && final(self).pending@ == old(self).pending@.drop_last(),
                None => old(self).pending@.len() == 0 && final(self).pending@ == old(
                    self,
                ).pending@,
            },
    {
        self.pending.pop()
    }
}

impl Client {
    /// The discovered navigable entries (directories and search results),
    /// in discovery order.
    pub fn directory_items(&self) -> (r: Vec<Item>)
        ensures
            item_views(r@) == directory_entries(item_views(self.items@)),
    {
        let ghost whole = item_views(self.items@);
        let mut out: Vec<Item> = Vec::new();
        let count = self.items.len();
        let mut i: usize = 0;
        proof {
            assert(whole.skip(0) =~= whole);
            assert(item_views(out@) + directory_entries(whole) =~= directory_entries(whole));
        }
        while i < count
            invariant
                count == self.items@.len(),
                i <= count,
                whole == item_views(self.items@),
                directory_entries(whole) == item_views(out@) + directory_entries(
                    whole.skip(i as int),
                ),
            decreases count - i,
        {
            let ghost prev_out = out@;
            proof {
                assert(whole.skip(i as int)[0] == whole[i as int]);
                assert(whole.skip(i as int).skip(1) =~= whole.skip(i as int + 1));
            }
            let keep = match &self.items[i] {
                Item::DATA { tag, .. } => *tag as u32 == 49 || *tag as u32 == 55,
                _ => false,
            };
            proof {
                assert(whole[i as int] == self.items@[i as int]@);
                assert(keep == is_directory_entry(whole[i as int]));
            }
            if keep {
                out.push(self.items[i].duplicate());
                proof {
                    assert(item_views(out@) =~= item_views(prev_out).push(whole[i as int]));
                    assert(item_views(prev_out) + (seq![whole[i as int]] + directory_entries(
                        whole.skip(i as int + 1),
                    )) =~= item_views(out@) + directory_entries(whole.skip(i as int + 1)));
                }
            }
            i = i + 1;
        }
        proof {
            assert(whole.skip(count as int) =~= Seq::<ItemV>::empty());
            assert(item_views(out@) + directory_entries(whole.skip(count as int)) =~= item_views(
                out@,
            ));
        }
        out
    }

    /// The discovered `Data` entries carrying the error tag, in discovery
    /// order.
    pub fn error_items(&self) -> (r: Vec<Item>)
        ensures
            item_views(r@) == error_entries(item_views(self.items@)),
    {
        let ghost whole = item_views(self.items@);
        let mut out: Vec<Item> = Vec::new();
        let count = self.items.len();
        let mut i: usize = 0;
        proof {
            assert(whole.skip(0) =~= whole);
            assert(item_views(out@) + error_entries(whole) =~= error_entries(whole));
        }
        while i < count
            invariant
                count == self.items@.len(),
                i <= count,
                whole == item_views(self.items@),
                error_entries(whole) == item_views(out@) + error_entries(whole.skip(i as int)),
            decreases count - i,
        {
            let ghost prev_out = out@;
            proof {
                assert(whole.skip(i as int)[0] == whole[i as int]);
                assert(whole.skip(i as int).skip(1) =~= whole.skip(i as int + 1));
            }
            let keep = match &self.items[i] {
                Item::DATA { tag, .. } => *tag as u32 == 51,
                _ => false,
            };
            proof {
                assert(whole[i as int] == self.items@[i as int]@);
                assert(keep == is_error_entry(whole[i as int]));
            }
            if keep {
                out.push(self.items[i].duplicate());
                proof {
                    assert(item_views(out@) =~= item_views(prev_out).push(whole[i as int]));
                    assert(item_views(prev_out) + (seq![whole[i as int]] + error_entries(
                        whole.skip(i as int + 1),
                    )) =~= item_views(out@) + error_entries(whole.skip(i as int + 1)));
                }
            }
            i = i + 1;
        }
        proof {
            assert(whole.skip(count as int) =~= Seq::<ItemV>::empty());
            assert(item_views(out@) + error_entries(whole.skip(count as int)) =~= item_views(
                out@,
            ));
        }
        out
    }

    /// The discovered `Data` entries pointing off the root (domain, port),
    /// in discovery order.
    pub fn external_items(&self) -> (r: Vec<Item>)
        ensures
            item_views(r@) == external_entries(item_views(self.items@), self.domain@, self.port),
    {
        let ghost whole = item_views(self.items@);
        let ghost rd = self.domain@;
        let ghost rp = self.port;
        let mut out: Vec<Item> = Vec::new();
        let count = self.items.len();
        let mut i: usize = 0;
        proof {
            assert(whole.skip(0) =~= whole);
            assert(item_views(out@) + external_entries(whole, rd, rp) =~= external_entries(
                whole,
                rd,
                rp,
            ));
        }
        while i < count
            invariant
                count == self.items@.len(),
                i <= count,
                whole == item_views(self.items@),
                rd == self.domain@,
                rp == self.port,
                external_entries(whole, rd, rp) == item_views(out@) + external_entries(
                    whole.skip(i as int),
                    rd,
                    rp,
                ),
            decreases count - i,
        {
            let ghost prev_out = out@;
            proof {
                assert(whole.skip(i as int)[0] == whole[i as int]);
                assert(whole.skip(i as int).skip(1) =~= whole.skip(i as int + 1));
            }
            let keep = match &self.items[i] {
                Item::DATA { domain, port, .. } => !(*domain == self.domain) || *port != self.port,
                _ => false,
            };
            proof {
                assert(whole[i as int] == self.items@[i as int]@);
                assert(keep == is_external_entry(whole[i as int], rd, rp));
            }
            if keep {
                out.push(self.items[i].duplicate());
                proof {
                    assert(item_views(out@) =~= item_views(prev_out).push(whole[i as int]));
                    assert(item_views(prev_out) + (seq![whole[i as int]] + external_entries(
                        whole.skip(i as int + 1),
                        rd,
                        rp,
                    )) =~= item_views(out@) + external_entries(whole.skip(i as int + 1), rd, rp));
                }
            }
            i = i + 1;
        }
        proof {
            assert(whole.skip(count as int) =~= Seq::<ItemV>::empty());
            assert(item_views(out@) + external_entries(whole.skip(count as int), rd, rp)
                =~= item_views(out@));
        }
        out
    }

    /// The messages of the `Info` entries read from the menu `referer`,
    /// joined with a newline between each two.
    pub fn get_info_at(&self, referer: Referer) -> (r: String)
        ensures
            r@ == joined_lines(info_messages(item_views(self.items@), referer@)),
    {
        let ghost whole = item_views(self.items@);
        let mut msgs: Vec<String> = Vec::new();
        let count = self.items.len();
        let mut i: usize = 0;
        proof {
            assert(whole.skip(0) =~= whole);
            assert(crate::codec::string_views(msgs@) + info_messages(whole, referer@)
                =~= info_messages(whole, referer@));
        }
        while i < count
            invariant
                count == self.items@.len(),
                i <= count,
                whole == item_views(self.items@),
                info_messages(whole, referer@) == crate::codec::string_views(msgs@)
                    + info_messages(whole.skip(i as int), referer@),
            decreases count - i,
        {
            let ghost prev_msgs = msgs@;
            proof {
                assert(whole.skip(i as int)[0] == whole[i as int]);
                assert(whole.skip(i as int).skip(1) =~= whole.skip(i as int + 1));
            }
            if let Item::INFO { from, message, .. } = &self.items[i] {
                if from == &referer {
                    msgs.push(message.clone());
                    proof {
                        assert(crate::codec::string_views(msgs@) =~= crate::codec::string_views(
                            prev_msgs,
                        ).push(message@));
                        assert(crate::codec::string_views(prev_msgs) + (seq![message@]
                            + info_messages(whole.skip(i as int + 1), referer@))
                            =~= crate::codec::string_views(msgs@) + info_messages(
                            whole.skip(i as int + 1),
                            referer@,
                        ));
                    }
                }
            }
            i = i + 1;
        }
        proof {
            assert(whole.skip(count as int) =~= Seq::<ItemV>::empty());
            assert(crate::codec::string_views(msgs@) + info_messages(
                whole.skip(count as int),
                referer@,
            ) =~= crate::codec::string_views(msgs@));
        }
        let ghost parts = crate::codec::string_views(msgs@);
        let mut out = String::new();
        let total = msgs.len();
        let mut j: usize = 0;
        while j < total
            invariant
                total == msgs@.len(),
                parts == crate::codec::string_views(msgs@),
                j <= total,
                out@ == joined_lines(parts.take(j as int)),
            decreases total - j,
        {
            proof {
                assert(parts.take(j as int).push(parts[j as int]) =~= parts.take(j as int + 1));
                lemma_joined_push(parts.take(j as int), parts[j as int]);
            }
            if j > 0 {
                out.append("\n");
                proof {
                    reveal_strlit("\n");
                }
            }
            out.append(msgs[j].as_str());
            proof {
                if j == 0 {
                    assert(out@ =~= parts[0]);
                    assert(parts.take(1)[0] == parts[0]);
                    assert(joined_lines(parts.take(1)) == parts.take(1)[0]);
                } else {
                    assert(out@ =~= joined_lines(parts.take(j as int)) + seq!['\n']
                        + parts[j as int]);
                }
            }
            j = j + 1;
        }
        proof {
            assert(parts.take(total as int) =~= parts);
        }
        out
    }
}

/// Whether `items` already holds an entry with the identity of `x`.
fn contains_item(items: &Vec<Item>, x: &Item) -> (r: bool)
    ensures
        r == contains_identity(item_views(items@), x@),
{
    let count = items.len();
    let mut i: usize = 0;
    while i < count
        invariant
            count == items@.len(),
            i <= count,
            forall|k: int| 0 <= k < i ==> !same_identity(item_views(items@)[k], x@),
        decreases count - i,
    {
        if &items[i] == x {
            proof {
                assert(same_identity(item_views(items@)[i as int], x@));
            }
            return true;
        }
        i = i + 1;
    }
    false
}

impl Client {
    /// Absorbs one fetched response: records the responding referer; on a
    /// clean menu decode appends the entries that are new by identity, in
    /// decode order, and queues a request for each newly added directory
    /// entry that the boundary policy admits — queued so that the worklist,
    /// followed newest-first, visits them in decode order. On any decode
    /// failure only the referer is recorded.
    pub fn scan_re(&mut self, resp: &ResponseBuilder, internal_only: bool)
        ensures
            final(self).port == old(self).port,
            final(self).domain == old(self).domain,
            referer_views(final(self).referers@) == referer_views(old(self).referers@).push(
                resp.referer@,
            ),
            pairwise_distinct(item_views(old(self).items@)) ==> pairwise_distinct(
                item_views(final(self).items@),
            ),
            match response_entries(resp.raw@, resp.referer@) {
                None => final(self).items@ == old(self).items@ && final(self).pending@ == old(
                    self,
                ).pending@,
                Some(decoded) => {
                    let new_items = insert_new(item_views(old(self).items@), decoded);
                    let added = new_items.skip(old(self).items@.len() as int);
                    &&& item_views(final(self).items@) == new_items
                    &&& request_views(final(self).pending@) == request_views(old(self).pending@)
                        + follow_targets(
                        added,
                        internal_only,
                        old(self).domain@,
                        old(self).port,
                    ).reverse()
                },
            },
    {
        let ghost prev_referers = self.referers@;
        self.referers.push(resp.referer.duplicate());
        proof {
            assert(referer_views(self.referers@) =~= referer_views(prev_referers).push(
                resp.referer@,
            ));
        }
        let decoded = match resp.as_items() {
            Ok(v) => v,
            Err(_) => {
                return ;
            },
        };
        let ghost old_items = item_views(self.items@);
        let ghost decoded_seq = item_views(decoded@);
        let ghost referers_after = self.referers@;
        let ghost old_pending = self.pending@;
        proof {
            assert(response_entries(resp.raw@, resp.referer@) == Some(decoded_seq));
        }
        let start = self.items.len();
        let count = decoded.len();
        proof {
            assert(decoded_seq.skip(0) =~= decoded_seq);
            assert(item_views(self.items@).take(start as int) =~= old_items);
        }
        let mut idx: usize = 0;
        while idx < count
            invariant
                count == decoded@.len(),
                idx <= count,
                decoded_seq == item_views(decoded@),
                start <= self.items@.len(),
                insert_new(old_items, decoded_seq) == insert_new(
                    item_views(self.items@),
                    decoded_seq.skip(idx as int),
                ),
                item_views(self.items@).take(start as int) == old_items,
                self.port == old(self).port,
                self.domain == old(self).domain,
                self.referers@ == referers_after,
                self.pending@ == old_pending,
            decreases count - idx,
        {
            let ghost cur = item_views(self.items@);
            proof {
                assert(decoded_seq.skip(idx as int)[0] == decoded_seq[idx as int]);
                assert(decoded_seq.skip(idx as int).skip(1) =~= decoded_seq.skip(idx as int + 1));
            }
            if !contains_item(&self.items, &decoded[idx]) {
                self.items.push(decoded[idx].duplicate());
                proof {
                    assert(item_views(self.items@) =~= cur.push(decoded_seq[idx as int]));
                    assert(item_views(self.items@).take(start as int) =~= cur.take(start as int));
                }
            }
            idx = idx + 1;
        }
        proof {
            assert(decoded_seq.skip(count as int) =~= Seq::<ItemV>::empty());
            assert(insert_new(item_views(self.items@), decoded_seq.skip(count as int))
                == item_views(self.items@));
        }
        let ghost added = item_views(self.items@).skip(start as int);
        let ghost items_after = self.items@;
        proof {
            assert(follow_targets(
                added.skip(added.len() as int),
                internal_only,
                self.domain@,
                self.port,
            ).reverse() =~= Seq::<RefererV>::empty());
            assert(request_views(self.pending@) =~= request_views(old_pending)
                + Seq::<RefererV>::empty());
        }
        let total = self.items.len();
        let mut idx2: usize = total;
        while idx2 > start
            invariant
                start <= idx2 <= total,
                total == self.items@.len(),
                self.items@ == items_after,
                added == item_views(self.items@).skip(start as int),
                self.port == old(self).port,
                self.domain == old(self).domain,
                self.referers@ == referers_after,
                request_views(self.pending@) == request_views(old_pending) + follow_targets(
                    added.skip(idx2 as int - start as int),
                    internal_only,
                    self.domain@,
                    self.port,
                ).reverse(),
            decreases idx2,
        {
            idx2 = idx2 - 1;
            let ghost rel = idx2 as int - start as int;
            proof {
                assert(added.skip(rel)[0] == added[rel]);
                assert(added[rel] == item_views(self.items@)[idx2 as int]);
                assert(added.skip(rel).skip(1) =~= added.skip(rel + 1));
            }
            let follow = match &self.items[idx2] {
                Item::DATA { tag, domain, port, .. } => {
                    let is_dir = *tag as u32 == 49 || *tag as u32 == 55;
                    let in_bounds = !internal_only || (*domain == self.domain && *port
                        == self.port);
                    is_dir && in_bounds
                },
                _ => false,
            };
            proof {
                assert(follow == followable(added[rel], internal_only, self.domain@, self.port));
            }
            if follow {
                let ghost pend_before = self.pending@;
                match Request::from_item(&self.items[idx2]) {
                    Ok(req) => {
                        proof {
                            assert(req@ == target_of(added[rel]));
                        }
                        self.pending.push(req);
                        proof {
                            assert(request_views(self.pending@) =~= request_views(
                                pend_before,
                            ).push(target_of(added[rel])));
                            assert(follow_targets(
                                added.skip(rel),
                                internal_only,
                                self.domain@,
                                self.port,
                            ).reverse() =~= follow_targets(
                                added.skip(rel + 1),
                                internal_only,
                                self.domain@,
                                self.port,
                            ).reverse().push(target_of(added[rel])));
                            assert(request_views(self.pending@) =~= request_views(old_pending)
                                + follow_targets(
                                added.skip(rel),
                                internal_only,
                                self.domain@,
                                self.port,
                            ).reverse());
                        }
                    },
                    Err(_) => {
                        proof {
                            assert(false);
                        }
                    },
                }
            }
        }
        proof {
            assert(added.skip(0) =~= added);
            if pairwise_distinct(old_items) {
                lemma_dedup_preserved(old_items, decoded_seq);
            }
        }
    }
}

} // verus!
