//! The download planner: partitions discovered `Data` entries by content
//! class, numbers the quarantine files for content whose reported path
//! cannot be used, remembers where each entry's content landed, and ranks
//! entries by fetched size. The shell performs the fetches and the file
//! writes; every decision about names, numbers and sizes is made here.

use vstd::prelude::*;

use crate::io::{cleaned_of, join_clean};
use crate::text::{dec_str, u64_to_string};
use crate::types::{item_views, same_identity, with_size, Item, ItemV};

verus! {

/// Whether the entry is a plain-text `Data` entry.
pub open spec fn is_text_entry(v: ItemV) -> bool {
    match v {
        ItemV::Data { tag, .. } => tag == '0',
        _ => false,
    }
}

/// Whether the entry is a binary `Data` entry: fetchable, but neither plain
/// text nor purely navigational.
pub open spec fn is_binary_entry(v: ItemV) -> bool {
    match v {
        ItemV::Data { tag, .. } => tag != '0' && tag != '1' && tag != '7',
        _ => false,
    }
}

/// The plain-text entries of `s`, in order.
pub open spec fn text_entries(s: Seq<ItemV>) -> Seq<ItemV>
    decreases s.len(),
{
    if s.len() == 0 {
        seq![]
    } else if is_text_entry(s[0]) {
        seq![s[0]] + text_entries(s.skip(1))
    } else {
        text_entries(s.skip(1))
    }
}

/// The binary entries of `s`, in order.
pub open spec fn binary_entries(s: Seq<ItemV>) -> Seq<ItemV>
    decreases s.len(),
{
    if s.len() == 0 {
        seq![]
    } else if is_binary_entry(s[0]) {
        seq![s[0]] + binary_entries(s.skip(1))
    } else {
        binary_entries(s.skip(1))
    }
}

/// The plain-text entries, in order.
pub fn text_items(items: &Vec<Item>) -> (r: Vec<Item>)
    ensures
        item_views(r@) == text_entries(item_views(items@)),
{
    let ghost whole = item_views(items@);
    let mut out: Vec<Item> = Vec::new();
    let count = items.len();
    let mut i: usize = 0;
    proof {
        assert(whole.skip(0) =~= whole);
        assert(item_views(out@) + text_entries(whole) =~= text_entries(whole));
    }
    while i < count
        invariant
            count == items@.len(),
            i <= count,
            whole == item_views(items@),
            text_entries(whole) == item_views(out@) + text_entries(whole.skip(i as int)),
        decreases count - i,
    {
        let ghost prev_out = out@;
        proof {
            assert(whole.skip(i as int)[0] == whole[i as int]);
            assert(whole.skip(i as int).skip(1) =~= whole.skip(i as int + 1));
        }
        let keep = match &items[i] {
            Item::DATA { tag, .. } => *tag as u32 == 48,
            _ => false,
        };
        proof {
            assert(whole[i as int] == items@[i as int]@);
            assert(keep == is_text_entry(whole[i as int]));
        }
        if keep {
            out.push(items[i].duplicate());
            proof {
                assert(item_views(out@) =~= item_views(prev_out).push(whole[i as int]));
                assert(item_views(prev_out) + (seq![whole[i as int]] + text_entries(
                    whole.skip(i as int + 1),
                )) =~= item_views(out@) + text_entries(whole.skip(i as int + 1)));
            }
        }
        i = i + 1;
    }
    proof {
        assert(whole.skip(count as int) =~= Seq::<ItemV>::empty());
        assert(item_views(out@) + text_entries(whole.skip(count as int)) =~= item_views(out@));
    }
    out
}

/// The binary entries, in order.
pub fn binary_items(items: &Vec<Item>) -> (r: Vec<Item>)
    ensures
        item_views(r@) == binary_entries(item_views(items@)),
{
    let ghost whole = item_views(items@);
    let mut out: Vec<Item> = Vec::new();
    let count = items.len();
    let mut i: usize = 0;
    proof {
        assert(whole.skip(0) =~= whole);
        assert(item_views(out@) + binary_entries(whole) =~= binary_entries(whole));
    }
    while i < count
        invariant
            count == items@.len(),
            i <= count,
            whole == item_views(items@),
            binary_entries(whole) == item_views(out@) + binary_entries(whole.skip(i as int)),
        decreases count - i,
    {
        let ghost prev_out = out@;
        proof {
            assert(whole.skip(i as int)[0] == whole[i as int]);
            assert(whole.skip(i as int).skip(1) =~= whole.skip(i as int + 1));
        }
        let keep = match &items[i] {
            Item::DATA { tag, .. } => {
                let u = *tag as u32;
                u != 48 && u != 49 && u != 55
            },
            _ => false,
        };
        proof {
            assert(whole[i as int] == items@[i as int]@);
            assert(keep == is_binary_entry(whole[i as int]));
        }
        if keep {
            out.push(items[i].duplicate());
            proof {
                assert(item_views(out@) =~= item_views(prev_out).push(whole[i as int]));
                assert(item_views(prev_out) + (seq![whole[i as int]] + binary_entries(
                    whole.skip(i as int + 1),
                )) =~= item_views(out@) + binary_entries(whole.skip(i as int + 1)));
            }
        }
        i = i + 1;
    }
    proof {
        assert(whole.skip(count as int) =~= Seq::<ItemV>::empty());
        assert(item_views(out@) + binary_entries(whole.skip(count as int)) =~= item_views(out@));
    }
    out
}

/// The position of the first entry of `s` with the identity of `x` at or
/// after `j`, or -1 when there is none.
pub open spec fn identity_index_from(s: Seq<ItemV>, x: ItemV, j: int) -> int
    decreases s.len() - j,
{
    if j < 0 || j >= s.len() {
        -1
    } else if same_identity(s[j], x) {
        j
    } else {
        identity_index_from(s, x, j + 1)
    }
}

/// The download planner's state: the destination root, the quarantine
/// directory under it, and the entries relocated there so far, in
/// relocation order — the file of the `N`th is named `N.corrupted`.
pub struct Downloader {
    pub dest: String,
    pub corrupted_dest: String,
    pub corrupted: Vec<Item>,
}

impl Downloader {
    /// A planner writing under `dest_prefix`, with its quarantine directory
    /// at `corrupted` under that root and nothing relocated yet.
    pub fn new(dest_prefix: &str) -> (r: Self)
        ensures
            r.dest@ == dest_prefix@,
            r.corrupted_dest@ == cleaned_of(dest_prefix@ + seq!['/'] + "corrupted"@),
            r.corrupted@.len() == 0,
    {
        let corrupted_dest = join_clean(dest_prefix, "corrupted");
        Self { dest: dest_prefix.to_owned(), corrupted_dest, corrupted: Vec::new() }
    }

    /// The quarantine file the next unplaceable entry lands at: a file
    /// named by the count of entries already relocated, numbered from
    /// zero, under the quarantine directory.
    pub fn quarantine_path(&self) -> (r: String)
        ensures
            r@ == cleaned_of(
                self.corrupted_dest@ + seq!['/'] + dec_str(self.corrupted@.len() as int)
                    + ".corrupted"@,
            ),
    {
        let name = u64_to_string(self.corrupted.len() as u64).concat(".corrupted");
        let r = join_clean(self.corrupted_dest.as_str(), name.as_str());
        proof {
            assert(self.corrupted_dest@ + seq!['/'] + (dec_str(self.corrupted@.len() as int)
                + ".corrupted"@) =~= self.corrupted_dest@ + seq!['/'] + dec_str(
                self.corrupted@.len() as int,
            ) + ".corrupted"@);
        }
        r
    }

    /// Records a retrieval persisted at the entry's own reported location:
    /// the entry's size becomes the byte count actually persisted.
    pub fn record_placed(&mut self, item: &mut Item, size: u64)
        ensures
            final(item)@ == with_size(old(item)@, size),
            final(self).dest == old(self).dest,
            final(self).corrupted_dest == old(self).corrupted_dest,
            final(self).corrupted == old(self).corrupted,
    {
        item.update_size(size);
    }

    /// Records a retrieval relocated into quarantine: the entry's size
    /// becomes the byte count persisted, and the entry joins the
    /// relocation list, so the next quarantine file gets the next number.
    pub fn record_quarantined(&mut self, item: &mut Item, size: u64)
        ensures
            final(item)@ == with_size(old(item)@, size),
            final(self).dest == old(self).dest,
            final(self).corrupted_dest == old(self).corrupted_dest,
            item_views(final(self).corrupted@) == item_views(old(self).corrupted@).push(
                with_size(old(item)@, size),
            ),
    {
        let ghost prev = self.corrupted@;
        item.update_size(size);
        self.corrupted.push(item.duplicate());
        proof {
            assert(item_views(self.corrupted@) =~= item_views(prev).push(
                with_size(old(item)@, size),
            ));
        }
    }

    /// Where an entry's content landed: its quarantine file when an entry
    /// of its identity was relocated, else its own reported location under
    /// the destination root; nothing for an entry that is not fetchable
    /// and was never relocated.
    pub fn landed_path(&self, item: &Item) -> (r: Option<String>)
        ensures
            ({
                let q = identity_index_from(item_views(self.corrupted@), item@, 0);
                match r {
                    Some(path) => (q >= 0 && path@ == cleaned_of(
                        self.corrupted_dest@ + seq!['/'] + dec_str(q) + ".corrupted"@,
                    )) || (q < 0 && item@ is Data && path@ == cleaned_of(
                        self.dest@ + seq!['/'] + item@->Data_location,
                    )),
                    None => q < 0 && !(item@ is Data),
                }
            }),
    {
        let ghost cseq = item_views(self.corrupted@);
        let count = self.corrupted.len();
        let mut i: usize = 0;
        while i < count
            invariant
                count == self.corrupted@.len(),
                i <= count,
                cseq == item_views(self.corrupted@),
                identity_index_from(cseq, item@, 0) == identity_index_from(cseq, item@, i as int),
            decreases count - i,
        {
            if &self.corrupted[i] == item {
                proof {
                    assert(same_identity(cseq[i as int], item@));
                    assert(identity_index_from(cseq, item@, i as int) == i as int);
                }
                let name = u64_to_string(i as u64).concat(".corrupted");
                let path = join_clean(self.corrupted_dest.as_str(), name.as_str());
                proof {
                    assert(self.corrupted_dest@ + seq!['/'] + (dec_str(i as int)
                        + ".corrupted"@) =~= self.corrupted_dest@ + seq!['/'] + dec_str(i as int)
                        + ".corrupted"@);
                }
                return Some(path);
            }
            proof {
                assert(identity_index_from(cseq, item@, i as int) == identity_index_from(
                    cseq,
                    item@,
                    i as int + 1,
                ));
            }
            i = i + 1;
        }
        proof {
            assert(identity_index_from(cseq, item@, count as int) == -1);
        }
        if let Item::DATA { location, .. } = item {
            Some(join_clean(self.dest.as_str(), location.as_str()))
        } else {
            None
        }
    }
}

/// The size of a `Data` entry.
pub open spec fn data_size(v: ItemV) -> u64 {
    v->Data_size
}

/// The position of the first smallest entry of a `Data`-only run; ranking
/// is only ever exercised within `Data`-only runs. An empty run has no
/// extreme: the caller receives nothing.
pub fn min_by_size(items: &Vec<Item>) -> (r: Option<usize>)
    requires
        forall|i: int| 0 <= i < items@.len() ==> item_views(items@)[i] is Data,
    ensures
        r is None <==> items@.len() == 0,
        match r {
            Some(k) => k < items@.len() && (forall|i: int|
                0 <= i < items@.len() ==> data_size(item_views(items@)[k as int]) <= data_size(
                    #[trigger] item_views(items@)[i],
                )) && (forall|i: int|
                0 <= i < k ==> data_size(#[trigger] item_views(items@)[i]) > data_size(
                    item_views(items@)[k as int],
                )),
            None => true,
        },
{
    let ghost whole = item_views(items@);
    let count = items.len();
    if count == 0 {
        return None;
    }
    let mut best: usize = 0;
    let mut best_size: u64 = match &items[0] {
        Item::DATA { size, .. } => *size,
        _ => 0,
    };
    proof {
        assert(whole[0] is Data);
        assert(best_size == data_size(whole[0]));
    }
    let mut i: usize = 1;
    while i < count
        invariant
            count == items@.len(),
            whole == item_views(items@),
            forall|k: int| 0 <= k < count ==> whole[k] is Data,
            1 <= i <= count,
            best < i,
            best_size == data_size(whole[best as int]),
            forall|k: int| 0 <= k < i ==> best_size <= data_size(#[trigger] whole[k]),
            forall|k: int| 0 <= k < best ==> data_size(#[trigger] whole[k]) > best_size,
        decreases count - i,
    {
        let size = match &items[i] {
            Item::DATA { size, .. } => *size,
            _ => 0,
        };
        proof {
            assert(whole[i as int] is Data);
            assert(size == data_size(whole[i as int]));
        }
        if size < best_size {
            best = i;
            best_size = size;
        }
        i = i + 1;
    }
    Some(best)
}

/// The position of the last largest entry of a `Data`-only run; an empty
/// run has no extreme.
pub fn max_by_size(items: &Vec<Item>) -> (r: Option<usize>)
    requires
        forall|i: int| 0 <= i < items@.len() ==> item_views(items@)[i] is Data,
    ensures
        r is None <==> items@.len() == 0,
        match r {
            Some(k) => k < items@.len() && (forall|i: int|
                0 <= i < items@.len() ==> data_size(item_views(items@)[k as int]) >= data_size(
                    #[trigger] item_views(items@)[i],
                )) && (forall|i: int|
                k < i < items@.len() ==> data_size(#[trigger] item_views(items@)[i]) < data_size(
                    item_views(items@)[k as int],
                )),
            None => true,
        },
{
    let ghost whole = item_views(items@);
    let count = items.len();
    if count == 0 {
        return None;
    }
    let mut best: usize = 0;
    let mut best_size: u64 = match &items[0] {
        Item::DATA { size, .. } => *size,
        _ => 0,
    };
    proof {
        assert(whole[0] is Data);
        assert(best_size == data_size(whole[0]));
    }
    let mut i: usize = 1;
    while i < count
        invariant
            count == items@.len(),
            whole == item_views(items@),
            forall|k: int| 0 <= k < count ==> whole[k] is Data,
            1 <= i <= count,
            best < i,
            best_size == data_size(whole[best as int]),
            forall|k: int| 0 <= k < i ==> best_size >= data_size(#[trigger] whole[k]),
            forall|k: int| best < k < i ==> data_size(#[trigger] whole[k]) < best_size,
        decreases count - i,
    {
        let size = match &items[i] {
            Item::DATA { size, .. } => *size,
            _ => 0,
        };
        proof {
            assert(whole[i as int] is Data);
            assert(size == data_size(whole[i as int]));
        }
        if size >= best_size {
            best = i;
            best_size = size;
        }
        i = i + 1;
    }
    Some(best)
}

} // verus!
