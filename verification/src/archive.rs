//! What a well-formed archive is.
//!
//! The builder proves that every archive it writes satisfies `archive_wf`
//! against the map of the item data it was given; the extraction lemmas then
//! show that a well-formed archive restores that data exactly.

use vstd::prelude::*;
use crate::codec::decompress_of;
use crate::store::ItemRow;
use crate::store::SliceRow;
use crate::store::StoreModel;
use crate::store::items_sequential;
use crate::store::contents_sequential;

verus! {

/// The slices of item `i`, in insertion order.
pub open spec fn item_slices(ss: Seq<SliceRow>, i: int) -> Seq<SliceRow> {
    ss.filter(|s: SliceRow| s.item == i)
}

/// The slices of content bundle `c`, in insertion order.
pub open spec fn content_slices(ss: Seq<SliceRow>, c: int) -> Seq<SliceRow> {
    ss.filter(|s: SliceRow| s.content == c)
}

/// How `item_slices` treats an appended slice.
pub proof fn lemma_item_slices_push(ss: Seq<SliceRow>, x: SliceRow, i: int)
    ensures
        item_slices(ss.push(x), i) == if x.item == i {
            item_slices(ss, i).push(x)
        } else {
            item_slices(ss, i)
        },
{
    reveal(Seq::filter);
    assert(ss.push(x).drop_last() =~= ss);
}

/// How `content_slices` treats an appended slice.
pub proof fn lemma_content_slices_push(ss: Seq<SliceRow>, x: SliceRow, c: int)
    ensures
        content_slices(ss.push(x), c) == if x.content == c {
            content_slices(ss, c).push(x)
        } else {
            content_slices(ss, c)
        },
{
    reveal(Seq::filter);
    assert(ss.push(x).drop_last() =~= ss);
}

/// The decompressed form of content bundle `c` (1-based id, sequential ids).
pub open spec fn bundle_of(m: StoreModel, c: int) -> Seq<u8> {
    decompress_of(m.contents[c - 1].bytes)
}

/// The slices' `itempos` ranges are consecutive from 0 and end at `total`.
pub open spec fn itempos_consecutive(ss: Seq<SliceRow>, total: int) -> bool {
    &&& forall|k: int| 0 <= k < ss.len() ==> 0 <= (#[trigger] ss[k]).size
    &&& forall|k: int|
        1 <= k < ss.len() ==> (#[trigger] ss[k]).itempos == ss[k - 1].itempos + ss[k - 1].size
    &&& ss.len() > 0 ==> ss[0].itempos == 0
    &&& total == if ss.len() == 0 {
        0
    } else {
        ss.last().itempos + ss.last().size
    }
}

/// The slices' `contentpos` ranges are consecutive from 0 and end at `total`.
pub open spec fn contentpos_consecutive(ss: Seq<SliceRow>, total: int) -> bool {
    &&& forall|k: int| 0 <= k < ss.len() ==> 0 <= (#[trigger] ss[k]).size
    &&& forall|k: int|
        1 <= k < ss.len() ==> (#[trigger] ss[k]).contentpos == ss[k - 1].contentpos + ss[k
            - 1].size
    &&& ss.len() > 0 ==> ss[0].contentpos == 0
    &&& total == if ss.len() == 0 {
        0
    } else {
        ss.last().contentpos + ss.last().size
    }
}

/// One slice is sound: it points at an existing non-directory item and an
/// existing bundle, and the bundle's byte range carries exactly the item's
/// byte range.
pub open spec fn slice_matches(m: StoreModel, s: SliceRow, files: Map<int, Seq<u8>>) -> bool {
    &&& 1 <= s.item <= m.items.len()
    &&& m.items[s.item - 1].kind == crate::KIND_FILE as int || m.items[s.item - 1].kind
        == crate::KIND_SYMLINK as int
    &&& files.dom().contains(s.item)
    &&& 0 <= s.itempos
    &&& 0 <= s.size
    &&& s.itempos + s.size <= files[s.item].len()
    &&& 1 <= s.content <= m.contents.len()
    &&& 0 <= s.contentpos
    &&& s.contentpos + s.size <= bundle_of(m, s.content).len()
    &&& bundle_of(m, s.content).subrange(s.contentpos, s.contentpos + s.size) == files[
        s.item
    ].subrange(s.itempos, s.itempos + s.size)
}


/// A slice that records its item's tail: its range ends exactly at the
/// item's length. One that does not is a suffix slice: the head of a file
/// continued in the next bundle.
pub open spec fn slice_completes(s: SliceRow, files: Map<int, Seq<u8>>) -> bool {
    s.itempos + s.size == files[s.item].len()
}

/// At most one slice of the list, the last, may continue its file into the
/// next bundle; every other slice reaches its item's end.
pub open spec fn head_slices_complete(ss: Seq<SliceRow>, files: Map<int, Seq<u8>>) -> bool {
    forall|k: int| 0 <= k < ss.len() - 1 ==> slice_completes(#[trigger] ss[k], files)
}

/// The slice table is grouped by bundle in writing order: content ids never
/// decrease along it. Reading the table start to end therefore meets each
/// bundle exactly once, in ascending `contentpos` order within it.
pub open spec fn slices_grouped(ss: Seq<SliceRow>) -> bool {
    forall|j: int, k: int|
        #![trigger ss[j], ss[k]]
        0 <= j < k < ss.len() ==> ss[j].content <= ss[k].content
}

/// Every item is a root or sits under an earlier directory item: the tree is
/// well-founded and paths can be built in one pass over ascending ids.
pub open spec fn items_well_parented(m: StoreModel) -> bool {
    forall|k: int|
        0 <= k < m.items.len() ==> (#[trigger] m.items[k]).parent == 0 || (1 <= m.items[k].parent
            <= k && m.items[m.items[k].parent - 1].kind == crate::KIND_DIRECTORY as int)
}

/// A well-formed archive for the given item data: `files` maps the id of
/// every file and symbolic-link item to its full bytes (file contents or raw
/// link target), and the tables tie exactly those bytes into the bundles.
/// The slice table is grouped by bundle in writing order, and within a
/// bundle only the last slice may be a suffix slice of a file continued in
/// the next one.
pub open spec fn archive_wf(m: StoreModel, files: Map<int, Seq<u8>>) -> bool {
    &&& items_sequential(m)
    &&& contents_sequential(m)
    &&& items_well_parented(m)
    &&& slices_grouped(m.slices)
    &&& forall|k: int| 0 <= k < m.slices.len() ==> slice_matches(m, #[trigger] m.slices[k], files)
    &&& forall|c: int|
        1 <= c <= m.contents.len() ==> bundle_of(m, c).len() <= crate::BUNDLE_SIZE as int
    &&& forall|c: int|
        1 <= c <= m.contents.len() ==> contentpos_consecutive(
            #[trigger] content_slices(m.slices, c),
            bundle_of(m, c).len() as int,
        )
    &&& forall|c: int|
        1 <= c <= m.contents.len() ==> head_slices_complete(
            #[trigger] content_slices(m.slices, c),
            files,
        )
    &&& forall|i: int|
        1 <= i <= m.items.len() && (#[trigger] m.items[i - 1].kind) == crate::KIND_FILE as int
            ==> itempos_consecutive(item_slices(m.slices, i), files[i].len() as int)
    &&& forall|i: int|
        1 <= i <= m.items.len() && (#[trigger] m.items[i - 1].kind) == crate::KIND_SYMLINK as int
            ==> itempos_consecutive(item_slices(m.slices, i), files[i].len() as int)
            && item_slices(m.slices, i).len() == 1
    &&& forall|i: int|
        1 <= i <= m.items.len() && (#[trigger] m.items[i - 1].kind) == crate::KIND_DIRECTORY as int
            ==> item_slices(m.slices, i).len() == 0
    &&& forall|i: int|
        1 <= i <= m.items.len() ==> {
            let kd = (#[trigger] m.items[i - 1]).kind;
            kd == crate::KIND_FILE as int || kd == crate::KIND_DIRECTORY as int || kd
                == crate::KIND_SYMLINK as int
        }
    &&& forall|i: int|
        #[trigger] files.dom().contains(i) <==> 1 <= i <= m.items.len() && (m.items[i - 1].kind
            == crate::KIND_FILE as int || m.items[i - 1].kind == crate::KIND_SYMLINK as int)
}

/// The sum of the sizes of a list of slices.
pub open spec fn sum_sizes(ss: Seq<SliceRow>) -> int
    decreases ss.len(),
{
    if ss.len() == 0 {
        0
    } else {
        sum_sizes(ss.drop_last()) + ss.last().size
    }
}

/// Consecutive `contentpos` ranges ending at `total` sum to `total`.
pub proof fn lemma_consecutive_sum(ss: Seq<SliceRow>, total: int)
    requires
        contentpos_consecutive(ss, total),
    ensures
        sum_sizes(ss) == total,
    decreases ss.len(),
{
    if ss.len() == 0 {
    } else {
        let dl = ss.drop_last();
        assert(forall|k: int| 0 <= k < dl.len() ==> dl[k] == ss[k]);
        let total2 = if dl.len() == 0 {
            0
        } else {
            dl.last().contentpos + dl.last().size
        };
        assert(contentpos_consecutive(dl, total2));
        assert(total2 == ss.last().contentpos);
        lemma_consecutive_sum(dl, total2);
    }
}

/// Every element of a list of item slices is one of the archive's slices.
pub proof fn lemma_item_slices_matches(m: StoreModel, files: Map<int, Seq<u8>>, i: int)
    requires
        forall|k: int|
            0 <= k < m.slices.len() ==> slice_matches(m, #[trigger] m.slices[k], files),
    ensures
        forall|k: int|
            0 <= k < item_slices(m.slices, i).len() ==> slice_matches(
                m,
                #[trigger] item_slices(m.slices, i)[k],
                files,
            ),
{
    let ss = item_slices(m.slices, i);
    assert forall|k: int| 0 <= k < ss.len() implies slice_matches(m, #[trigger] ss[k], files) by {
        assert(ss.contains(ss[k]));
        m.slices.lemma_filter_contains_rev(|s: SliceRow| s.item == i, ss[k]);
        assert(m.slices.contains(ss[k]));
        let j = choose|j: int| 0 <= j < m.slices.len() && m.slices[j] == ss[k];
        assert(slice_matches(m, m.slices[j], files));
    }
}

/// Consecutive ranges whose sizes are each at most `cap` reach at most
/// `cap` times their number: a split file has at least `len / cap` rounded
/// up many slices.
pub proof fn lemma_consecutive_count(ss: Seq<SliceRow>, total: int, cap: int)
    requires
        itempos_consecutive(ss, total),
        forall|k: int| 0 <= k < ss.len() ==> (#[trigger] ss[k]).size <= cap,
        cap >= 0,
    ensures
        total <= ss.len() * cap,
    decreases ss.len(),
{
    if ss.len() == 0 {
    } else {
        let dl = ss.drop_last();
        assert(forall|k: int| 0 <= k < dl.len() ==> dl[k] == ss[k]);
        let total2 = if dl.len() == 0 {
            0
        } else {
            dl.last().itempos + dl.last().size
        };
        assert(itempos_consecutive(dl, total2));
        lemma_consecutive_count(dl, total2, cap);
        assert(total == total2 + ss.last().size);
        assert(ss.len() * cap == dl.len() * cap + cap) by (nonlinear_arith)
            requires ss.len() == dl.len() + 1;
    }
}

/// Bundle bound: in a well-formed archive the sizes of the slices of any
/// content row sum to its decompressed length, which is at most the bundle
/// capacity.
pub proof fn lemma_bundle_bound(m: StoreModel, files: Map<int, Seq<u8>>, c: int)
    requires
        archive_wf(m, files),
        1 <= c <= m.contents.len(),
    ensures
        sum_sizes(content_slices(m.slices, c)) == bundle_of(m, c).len(),
        sum_sizes(content_slices(m.slices, c)) <= crate::BUNDLE_SIZE,
{
    lemma_consecutive_sum(content_slices(m.slices, c), bundle_of(m, c).len() as int);
}


/// At most one slice of any content row is a suffix slice of a file
/// continued in the next bundle, and it is the one with the greatest
/// `contentpos`: every slice before the last reaches its item's end.
pub proof fn lemma_one_suffix_slice(m: StoreModel, files: Map<int, Seq<u8>>, c: int)
    requires
        archive_wf(m, files),
        1 <= c <= m.contents.len(),
    ensures
        forall|k: int|
            0 <= k < content_slices(m.slices, c).len() - 1 ==> slice_completes(
                #[trigger] content_slices(m.slices, c)[k],
                files,
            ),
{
    assert(head_slices_complete(content_slices(m.slices, c), files));
}

/// Splitting correctness: in a well-formed archive the slices of a file item
/// partition `[0, len)` in ascending `itempos` order, and there are at least
/// `len / BUNDLE_SIZE` rounded up many of them.
pub proof fn lemma_split_file_rows(m: StoreModel, files: Map<int, Seq<u8>>, i: int)
    requires
        archive_wf(m, files),
        1 <= i <= m.items.len(),
        m.items[i - 1].kind == crate::KIND_FILE as int,
    ensures
        itempos_consecutive(item_slices(m.slices, i), files[i].len() as int),
        files[i].len() <= item_slices(m.slices, i).len() * crate::BUNDLE_SIZE,
{
    let ss = item_slices(m.slices, i);
    lemma_item_slices_matches(m, files, i);
    assert(forall|k: int| 0 <= k < ss.len() ==> (#[trigger] ss[k]).size <= crate::BUNDLE_SIZE)
        by {
        assert(forall|k: int|
            0 <= k < ss.len() ==> {
                &&& 1 <= (#[trigger] ss[k]).content <= m.contents.len()
                &&& 0 <= ss[k].contentpos
                &&& ss[k].contentpos + ss[k].size <= bundle_of(m, ss[k].content).len()
            });
        assert(forall|k: int|
            0 <= k < ss.len() ==> bundle_of(m, (#[trigger] ss[k]).content).len()
                <= crate::BUNDLE_SIZE as int);
    }
    lemma_consecutive_count(ss, files[i].len() as int, crate::BUNDLE_SIZE as int);
}

/// The `(itempos, size)` ranges of a list of slices.
pub open spec fn ranges(ss: Seq<SliceRow>) -> Seq<(int, int)> {
    ss.map_values(|s: SliceRow| (s.itempos, s.size))
}

/// A list of `(position, size)` ranges is consecutive from 0 and ends at
/// `total`.
pub open spec fn ranges_consecutive(rs: Seq<(int, int)>, total: int) -> bool {
    &&& forall|k: int| 0 <= k < rs.len() ==> 0 <= (#[trigger] rs[k]).1
    &&& forall|k: int| 1 <= k < rs.len() ==> (#[trigger] rs[k]).0 == rs[k - 1].0 + rs[k - 1].1
    &&& rs.len() > 0 ==> rs[0].0 == 0
    &&& total == if rs.len() == 0 {
        0
    } else {
        rs.last().0 + rs.last().1
    }
}

/// `itempos_consecutive` is `ranges_consecutive` of the slices' ranges.
pub proof fn lemma_ranges_consecutive(ss: Seq<SliceRow>, total: int)
    ensures
        ranges_consecutive(ranges(ss), total) <==> itempos_consecutive(ss, total),
{
    let rs = ranges(ss);
    assert(rs.len() == ss.len());
    if ss.len() > 0 {
        assert(rs.last().0 == ss.last().itempos && rs.last().1 == ss.last().size);
    }
    if itempos_consecutive(ss, total) {
        assert forall|k: int| 0 <= k < rs.len() implies 0 <= (#[trigger] rs[k]).1 by {
            assert(ss[k].size >= 0);
        }
        assert forall|k: int| 1 <= k < rs.len() implies (#[trigger] rs[k]).0 == rs[k - 1].0 + rs[k
            - 1].1 by {
            assert(ss[k].itempos == ss[k - 1].itempos + ss[k - 1].size);
        }
        if ss.len() > 0 {
            assert(rs[0].0 == ss[0].itempos);
        }
        assert(ranges_consecutive(rs, total));
    }
    if ranges_consecutive(rs, total) {
        assert forall|k: int| 0 <= k < ss.len() implies 0 <= (#[trigger] ss[k]).size by {
            assert(rs[k].1 >= 0);
        }
        assert forall|k: int| 1 <= k < ss.len() implies (#[trigger] ss[k]).itempos == ss[k
            - 1].itempos + ss[k - 1].size by {
            assert(rs[k].0 == rs[k - 1].0 + rs[k - 1].1);
        }
        if ss.len() > 0 {
            assert(ss[0].itempos == rs[0].0);
        }
        assert(itempos_consecutive(ss, total));
    }
}

} // verus!
