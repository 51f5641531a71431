//! Building an archive.
//!
//! The builder keeps a pending bundle: an ordered list of slice descriptors
//! and the uncompressed bytes they cover. Adding a file appends slices,
//! splitting the file wherever the bundle would overflow; a full bundle is
//! compressed and flushed to the store. `finish` flushes what is pending and
//! snapshots the store to the destination file.

use vstd::prelude::*;
use crate::Error;
use crate::archive::archive_wf;
use crate::archive::bundle_of;
use crate::archive::content_slices;
use crate::archive::contentpos_consecutive;
use crate::archive::head_slices_complete;
use crate::archive::slice_completes;
use crate::archive::slices_grouped;
use crate::archive::item_slices;
use crate::archive::itempos_consecutive;
use crate::archive::items_well_parented;
use crate::archive::lemma_content_slices_push;
use crate::archive::lemma_item_slices_push;
use crate::archive::lemma_ranges_consecutive;
use crate::archive::ranges;
use crate::archive::ranges_consecutive;
use crate::archive::slice_matches;
use crate::codec::compress;
use crate::codec::compress_of;
use crate::path::get_file_name;
use crate::path::spec_file_name;
use crate::store::ItemRow;
use crate::store::SliceRow;
use crate::store::Store;
use crate::store::StoreModel;
use crate::store::contents_sequential;
use crate::store::items_sequential;

verus! {

/// A pending slice: the content of an item (or a part of one) and its
/// position within the content bundle under construction.
#[derive(Clone, Copy)]
pub struct IncomingContent {
    /// Kind of item: file or symlink.
    pub kind: i8,
    /// The id of the item row.
    pub item: i64,
    /// Offset within the item from which this slice starts.
    pub itempos: u64,
    /// Offset within the pending bundle where the slice's bytes sit.
    pub contentpos: u64,
    /// Number of bytes of the slice.
    pub size: u64,
}

/// The `itemcontent` row that a pending slice becomes in bundle `c`.
pub open spec fn pending_row(p: IncomingContent, c: int) -> SliceRow {
    SliceRow {
        item: p.item as int,
        itempos: p.itempos as int,
        content: c,
        contentpos: p.contentpos as int,
        size: p.size as int,
    }
}

/// The `(itempos, size)` ranges of the pending slices of item `i`.
pub open spec fn pending_ranges(ps: Seq<IncomingContent>, i: int) -> Seq<(int, int)> {
    ps.filter(|p: IncomingContent| p.item as int == i).map_values(
        |p: IncomingContent| (p.itempos as int, p.size as int),
    )
}

/// How `pending_ranges` treats an appended slice.
pub proof fn lemma_pending_ranges_push(ps: Seq<IncomingContent>, x: IncomingContent, i: int)
    ensures
        pending_ranges(ps.push(x), i) == if x.item as int == i {
            pending_ranges(ps, i).push((x.itempos as int, x.size as int))
        } else {
            pending_ranges(ps, i)
        },
{
    reveal(Seq::filter);
    assert(ps.push(x).drop_last() =~= ps);
    let pred = |p: IncomingContent| p.item as int == i;
    let f = |p: IncomingContent| (p.itempos as int, p.size as int);
    if pred(x) {
        assert(ps.push(x).filter(pred) == ps.filter(pred).push(x));
        assert(ps.filter(pred).push(x).map_values(f) =~= ps.filter(pred).map_values(f).push(f(x)));
    }
}

/// Items outside a slice list have no slices in it.
pub proof fn lemma_item_slices_outside(ss: Seq<SliceRow>, i: int)
    requires
        forall|k: int| 0 <= k < ss.len() ==> (#[trigger] ss[k]).item != i,
    ensures
        item_slices(ss, i) == Seq::<SliceRow>::empty(),
    decreases ss.len(),
{
    reveal(Seq::filter);
    if ss.len() > 0 {
        let dl = ss.drop_last();
        assert(forall|k: int| 0 <= k < dl.len() ==> dl[k] == ss[k]);
        lemma_item_slices_outside(dl, i);
    }
}

/// Items outside a pending list have no ranges in it.
pub proof fn lemma_pending_ranges_outside(ps: Seq<IncomingContent>, i: int)
    requires
        forall|k: int| 0 <= k < ps.len() ==> (#[trigger] ps[k]).item as int != i,
    ensures
        pending_ranges(ps, i) == Seq::<(int, int)>::empty(),
    decreases ps.len(),
{
    reveal(Seq::filter);
    if ps.len() > 0 {
        let dl = ps.drop_last();
        assert(forall|k: int| 0 <= k < dl.len() ==> dl[k] == ps[k]);
        lemma_pending_ranges_outside(dl, i);
    } else {
        let pred = |p: IncomingContent| p.item as int == i;
        assert(ps.filter(pred).len() == 0);
    }
}

/// The rows that a pending list becomes in bundle `c`.
pub open spec fn pending_rows_seq(ps: Seq<IncomingContent>, c: int) -> Seq<SliceRow> {
    ps.map_values(|p: IncomingContent| pending_row(p, c))
}

/// Bundles outside a slice list have no slices in it.
pub proof fn lemma_content_slices_outside(ss: Seq<SliceRow>, c: int)
    requires
        forall|k: int| 0 <= k < ss.len() ==> (#[trigger] ss[k]).content != c,
    ensures
        content_slices(ss, c) == Seq::<SliceRow>::empty(),
    decreases ss.len(),
{
    reveal(Seq::filter);
    if ss.len() > 0 {
        let dl = ss.drop_last();
        assert(forall|k: int| 0 <= k < dl.len() ==> dl[k] == ss[k]);
        lemma_content_slices_outside(dl, c);
    }
}

/// A slice list all of whose rows sit in bundle `c` is its own `c`-filter.
pub proof fn lemma_content_slices_all(ss: Seq<SliceRow>, c: int)
    requires
        forall|k: int| 0 <= k < ss.len() ==> (#[trigger] ss[k]).content == c,
    ensures
        content_slices(ss, c) == ss,
    decreases ss.len(),
{
    reveal(Seq::filter);
    if ss.len() > 0 {
        let dl = ss.drop_last();
        assert(forall|k: int| 0 <= k < dl.len() ==> dl[k] == ss[k]);
        lemma_content_slices_all(dl, c);
        assert(content_slices(ss, c) =~= ss);
    }
}

/// `item_slices` distributes over concatenation.
pub proof fn lemma_item_slices_add(a: Seq<SliceRow>, b: Seq<SliceRow>, i: int)
    ensures
        item_slices(a + b, i) == item_slices(a, i) + item_slices(b, i),
    decreases b.len(),
{
    if b.len() == 0 {
        assert(a + b =~= a);
        lemma_item_slices_outside(b, i);
        assert(item_slices(a, i) + item_slices(b, i) =~= item_slices(a, i));
    } else {
        let dl = b.drop_last();
        lemma_item_slices_add(a, dl, i);
        assert(a + b =~= (a + dl).push(b.last()));
        lemma_item_slices_push(a + dl, b.last(), i);
        assert(b =~= dl.push(b.last()));
        lemma_item_slices_push(dl, b.last(), i);
        if b.last().item == i {
            assert(item_slices(a, i) + item_slices(dl, i).push(b.last()) =~= (item_slices(a, i)
                + item_slices(dl, i)).push(b.last()));
        }
    }
}

/// `content_slices` distributes over concatenation.
pub proof fn lemma_content_slices_add(a: Seq<SliceRow>, b: Seq<SliceRow>, c: int)
    ensures
        content_slices(a + b, c) == content_slices(a, c) + content_slices(b, c),
    decreases b.len(),
{
    if b.len() == 0 {
        assert(a + b =~= a);
        lemma_content_slices_outside(b, c);
        assert(content_slices(a, c) + content_slices(b, c) =~= content_slices(a, c));
    } else {
        let dl = b.drop_last();
        lemma_content_slices_add(a, dl, c);
        assert(a + b =~= (a + dl).push(b.last()));
        lemma_content_slices_push(a + dl, b.last(), c);
        assert(b =~= dl.push(b.last()));
        lemma_content_slices_push(dl, b.last(), c);
        if b.last().content == c {
            assert(content_slices(a, c) + content_slices(dl, c).push(b.last()) =~= (content_slices(
                a,
                c,
            ) + content_slices(dl, c)).push(b.last()));
        }
    }
}

/// The `(itempos, size)` ranges of the rows a pending list becomes are the
/// pending ranges, whatever bundle id they are given.
pub proof fn lemma_pending_rows_ranges(ps: Seq<IncomingContent>, c: int, j: int)
    ensures
        ranges(item_slices(pending_rows_seq(ps, c), j)) == pending_ranges(ps, j),
    decreases ps.len(),
{
    if ps.len() == 0 {
        assert(pending_rows_seq(ps, c) =~= Seq::<SliceRow>::empty());
        lemma_item_slices_outside(pending_rows_seq(ps, c), j);
        lemma_pending_ranges_outside(ps, j);
        assert(ranges(Seq::<SliceRow>::empty()) =~= Seq::<(int, int)>::empty());
    } else {
        let dl = ps.drop_last();
        let x = ps.last();
        lemma_pending_rows_ranges(dl, c, j);
        assert(pending_rows_seq(ps, c) =~= pending_rows_seq(dl, c).push(pending_row(x, c)));
        lemma_item_slices_push(pending_rows_seq(dl, c), pending_row(x, c), j);
        assert(ps =~= dl.push(x));
        lemma_pending_ranges_push(dl, x, j);
        if x.item as int == j {
            assert(ranges(item_slices(pending_rows_seq(dl, c), j).push(pending_row(x, c))) =~=
            ranges(item_slices(pending_rows_seq(dl, c), j)).push((x.itempos as int, x.size as int)));
        }
    }
}

/// Appending a range that starts where the previous ones end extends a
/// consecutive tiling.
pub proof fn lemma_ranges_push(rs: Seq<(int, int)>, total: int, pos: int, sz: int)
    requires
        ranges_consecutive(rs, total),
        pos == total,
        sz >= 0,
    ensures
        ranges_consecutive(rs.push((pos, sz)), total + sz),
{
    let rs2 = rs.push((pos, sz));
    assert(forall|k: int| 0 <= k < rs.len() ==> rs2[k] == rs[k]);
    assert(rs2.last() == (pos, sz));
    if rs.len() > 0 {
        assert(rs2[rs2.len() - 2] == rs[rs.len() - 1]);
    }
}

/// Appends `data[from .. from + count]` to `bundle`.
fn append_bytes(bundle: &mut Vec<u8>, data: &[u8], from: usize, count: usize)
    requires
        from + count <= data@.len(),
    ensures
        final(bundle)@ == old(bundle)@ + data@.subrange(from as int, from as int + count as int),
{
    let ghost start = bundle@;
    let n = data.len();
    let mut j: usize = 0;
    while j < count
        invariant
            from + count <= n == data@.len(),
            j <= count,
            bundle@ == start + data@.subrange(from as int, from as int + j as int),
        decreases count - j,
    {
        let b = data[from + j];
        bundle.push(b);
        proof {
            assert(bundle@ =~= start + data@.subrange(from as int, from as int + j as int + 1));
        }
        j = j + 1;
    }
    proof {
        assert(bundle@ =~= start + data@.subrange(from as int, from as int + count as int));
    }
}

/// A pending slice list is sound against the given items, item data and
/// pending bundle bytes: the slices tile the bundle consecutively and each
/// carries exactly a range of its item's data.
pub open spec fn pending_list_wf(
    ps: Seq<IncomingContent>,
    items: Seq<ItemRow>,
    files: Map<int, Seq<u8>>,
    bundle: Seq<u8>,
) -> bool {
    &&& bundle.len() <= crate::BUNDLE_SIZE
    &&& forall|k: int|
        1 <= k < ps.len() ==> (#[trigger] ps[k]).contentpos == ps[k - 1].contentpos + ps[k - 1].size
    &&& ps.len() > 0 ==> ps[0].contentpos == 0
    &&& bundle.len() == if ps.len() == 0 {
        0int
    } else {
        ps.last().contentpos + ps.last().size
    }
    &&& forall|k: int|
        0 <= k < ps.len() ==> {
            let p = #[trigger] ps[k];
            &&& 1 <= p.item <= items.len()
            &&& p.kind as int == items[p.item - 1].kind
            &&& p.kind == crate::KIND_FILE || p.kind == crate::KIND_SYMLINK
            &&& files.dom().contains(p.item as int)
            &&& p.itempos + p.size <= files[p.item as int].len()
            &&& p.itempos + p.size <= i64::MAX
            &&& p.contentpos + p.size <= bundle.len()
            &&& bundle.subrange(p.contentpos as int, p.contentpos + p.size) == files[p.item
                as int].subrange(p.itempos as int, p.itempos + p.size)
        }
    &&& forall|k: int|
        0 <= k < ps.len() - 1 ==> (#[trigger] ps[k]).itempos + ps[k].size == files[ps[k].item
            as int].len()
}

/// After a flush, the extended slice table still matches the item data, and
/// every bundle, the new one included, is fully tiled and within capacity.
proof fn lemma_flush_store_wf(
    m0: StoreModel,
    m2: StoreModel,
    ps: Seq<IncomingContent>,
    files: Map<int, Seq<u8>>,
    bundle: Seq<u8>,
    c: int,
)
    requires
        items_sequential(m0),
        forall|k: int| 0 <= k < m0.slices.len() ==> slice_matches(m0, #[trigger] m0.slices[k], files),
        forall|cc: int|
            1 <= cc <= m0.contents.len() ==> bundle_of(m0, cc).len() <= crate::BUNDLE_SIZE as int,
        forall|cc: int|
            1 <= cc <= m0.contents.len() ==> contentpos_consecutive(
                #[trigger] content_slices(m0.slices, cc),
                bundle_of(m0, cc).len() as int,
            ),
        pending_list_wf(ps, m0.items, files, bundle),
        slices_grouped(m0.slices),
        forall|cc: int|
            1 <= cc <= m0.contents.len() ==> head_slices_complete(
                #[trigger] content_slices(m0.slices, cc),
                files,
            ),
        c == m0.contents.len() + 1,
        m2.items == m0.items,
        m2.slices == m0.slices + pending_rows_seq(ps, c),
        m2.contents.len() == c,
        forall|j: int| 0 <= j < m0.contents.len() ==> m2.contents[j] == m0.contents[j],
        bundle_of(m2, c) == bundle,
    ensures
        forall|k: int| 0 <= k < m2.slices.len() ==> slice_matches(m2, #[trigger] m2.slices[k], files),
        forall|cc: int|
            1 <= cc <= m2.contents.len() ==> bundle_of(m2, cc).len() <= crate::BUNDLE_SIZE as int,
        forall|cc: int|
            1 <= cc <= m2.contents.len() ==> contentpos_consecutive(
                #[trigger] content_slices(m2.slices, cc),
                bundle_of(m2, cc).len() as int,
            ),
        slices_grouped(m2.slices),
        forall|cc: int|
            1 <= cc <= m2.contents.len() ==> head_slices_complete(
                #[trigger] content_slices(m2.slices, cc),
                files,
            ),
{
    let newrows = pending_rows_seq(ps, c);
    assert(newrows.len() == ps.len());
    assert(forall|j: int| 0 <= j < ps.len() ==> #[trigger] newrows[j] == pending_row(ps[j], c));
    assert(forall|j: int| 0 <= j < newrows.len() ==> (#[trigger] newrows[j]).content == c);
    assert(forall|j: int|
        0 <= j < m0.slices.len() ==> 1 <= (#[trigger] m0.slices[j]).content <= m0.contents.len());
    assert forall|k: int|
        0 <= k < m2.slices.len() implies slice_matches(m2, #[trigger] m2.slices[k], files) by {
        if k < m0.slices.len() {
            assert(m2.slices[k] == m0.slices[k]);
            assert(slice_matches(m0, m0.slices[k], files));
            let ct = m0.slices[k].content;
            assert(m2.contents[ct - 1] == m0.contents[ct - 1]);
            assert(bundle_of(m2, ct) == bundle_of(m0, ct));
            assert(m2.items[m0.slices[k].item - 1] == m0.items[m0.slices[k].item - 1]);
        } else {
            let jj = k - m0.slices.len();
            assert(m2.slices[k] == newrows[jj]);
            let p = ps[jj];
            assert(newrows[jj] == pending_row(p, c));
            assert(1 <= p.item <= m0.items.len());
            assert(bundle.subrange(p.contentpos as int, p.contentpos + p.size) == files[p.item
                as int].subrange(p.itempos as int, p.itempos + p.size));
            assert(m2.items[p.item - 1] == m0.items[p.item - 1]);
            assert(p.kind as int == m0.items[p.item - 1].kind);
        }
    }
    assert forall|cc: int|
        1 <= cc <= m2.contents.len() implies bundle_of(m2, cc).len()
        <= crate::BUNDLE_SIZE as int by {
        if cc <= m0.contents.len() {
            assert(m2.contents[cc - 1] == m0.contents[cc - 1]);
            assert(bundle_of(m0, cc).len() <= crate::BUNDLE_SIZE as int);
        } else {
            assert(cc == c);
        }
    }
    assert forall|cc: int|
        1 <= cc <= m2.contents.len() implies contentpos_consecutive(
        #[trigger] content_slices(m2.slices, cc),
        bundle_of(m2, cc).len() as int,
    ) by {
        lemma_content_slices_add(m0.slices, newrows, cc);
        if cc <= m0.contents.len() {
            assert(m2.contents[cc - 1] == m0.contents[cc - 1]);
            lemma_content_slices_outside(newrows, cc);
            assert(content_slices(m2.slices, cc) =~= content_slices(m0.slices, cc));
            assert(contentpos_consecutive(
                content_slices(m0.slices, cc),
                bundle_of(m0, cc).len() as int,
            ));
        } else {
            assert(cc == c);
            assert(forall|j: int|
                0 <= j < m0.slices.len() ==> (#[trigger] m0.slices[j]).content != c);
            lemma_content_slices_outside(m0.slices, c);
            lemma_content_slices_all(newrows, c);
            assert(content_slices(m2.slices, c) =~= newrows);
            assert(contentpos_consecutive(newrows, bundle.len() as int)) by {
                assert(forall|j: int|
                    0 <= j < newrows.len() ==> (#[trigger] newrows[j]).contentpos == ps[j].contentpos
                        as int && newrows[j].size == ps[j].size as int);
            }
        }
    }
    assert(slices_grouped(m2.slices)) by {
        assert forall|j: int, k: int|
            #![trigger m2.slices[j], m2.slices[k]]
            0 <= j < k < m2.slices.len() implies m2.slices[j].content <= m2.slices[k].content by {
            if k < m0.slices.len() {
                assert(m2.slices[j] == m0.slices[j] && m2.slices[k] == m0.slices[k]);
            } else if j < m0.slices.len() {
                assert(m2.slices[j] == m0.slices[j]);
                assert(m2.slices[k] == newrows[k - m0.slices.len()]);
                assert(m0.slices[j].content <= m0.contents.len());
            } else {
                assert(m2.slices[j] == newrows[j - m0.slices.len()]);
                assert(m2.slices[k] == newrows[k - m0.slices.len()]);
            }
        }
    }
    assert forall|cc: int|
        1 <= cc <= m2.contents.len() implies head_slices_complete(
        #[trigger] content_slices(m2.slices, cc),
        files,
    ) by {
        lemma_content_slices_add(m0.slices, newrows, cc);
        if cc <= m0.contents.len() {
            lemma_content_slices_outside(newrows, cc);
            assert(content_slices(m2.slices, cc) =~= content_slices(m0.slices, cc));
            assert(head_slices_complete(content_slices(m0.slices, cc), files));
        } else {
            assert(cc == c);
            lemma_content_slices_outside(m0.slices, c);
            lemma_content_slices_all(newrows, c);
            assert(content_slices(m2.slices, c) =~= newrows);
            assert forall|k: int|
                0 <= k < newrows.len() - 1 implies slice_completes(
                #[trigger] newrows[k],
                files,
            ) by {
                assert(newrows[k] == pending_row(ps[k], c));
                assert(ps[k].itempos + ps[k].size == files[ps[k].item as int].len());
            }
        }
    }
}


/// The packer's layout, at the level of the slice rows it writes: the fill
/// of the pending bundle, how many bundles were flushed, the rows already in
/// the store, and the pending rows (already carrying the id of the bundle
/// they will be flushed into).
#[verifier::ext_equal]
pub struct PackLayout {
    pub cursor: int,
    pub bundles: int,
    pub flushed: Seq<SliceRow>,
    pub pending: Seq<SliceRow>,
}

/// The layout of a fresh builder.
pub open spec fn layout_empty() -> PackLayout {
    PackLayout {
        cursor: 0,
        bundles: 0,
        flushed: Seq::<SliceRow>::empty(),
        pending: Seq::<SliceRow>::empty(),
    }
}

/// One pending slice appended at the cursor.
pub open spec fn layout_push(st: PackLayout, i: int, itempos: int, size: int) -> PackLayout {
    PackLayout {
        cursor: st.cursor + size,
        pending: st.pending.push(
            SliceRow { item: i, itempos, content: st.bundles + 1, contentpos: st.cursor, size },
        ),
        ..st
    }
}

/// Flushing the pending bundle: its rows move to the store, the cursor
/// resets.
pub open spec fn layout_flush(st: PackLayout) -> PackLayout {
    PackLayout {
        cursor: 0,
        bundles: st.bundles + 1,
        flushed: st.flushed + st.pending,
        pending: Seq::<SliceRow>::empty(),
    }
}

/// What adding a file of `size` bytes, from item offset `itempos` on, does
/// to the layout: while the bytes overflow the bundle, a head slice of
/// exactly the remaining space is cut off and the bundle is flushed; the
/// rest (possibly zero bytes, for an empty file) becomes one pending slice
/// at the cursor.
pub open spec fn layout_add_file(st: PackLayout, i: int, itempos: int, size: int) -> PackLayout
    decreases size, st.cursor,
{
    let cap = crate::BUNDLE_SIZE as int;
    if size < 0 || st.cursor < 0 || st.cursor > cap {
        st
    } else if size > cap - st.cursor {
        let head = cap - st.cursor;
        layout_add_file(
            layout_flush(layout_push(st, i, itempos, head)),
            i,
            itempos + head,
            size - head,
        )
    } else {
        layout_push(st, i, itempos, size)
    }
}

/// What adding a symbolic link of `size` target bytes does: a link is never
/// split, so if it does not fit what is left of the bundle, the bundle is
/// flushed first. Targets longer than a whole bundle are refused by the
/// builder, so the layout is only meaningful below the capacity.
pub open spec fn layout_add_symlink(st: PackLayout, i: int, size: int) -> PackLayout {
    let cap = crate::BUNDLE_SIZE as int;
    if 0 <= size <= cap {
        if size > cap - st.cursor {
            layout_push(layout_flush(st), i, 0, size)
        } else {
            layout_push(st, i, 0, size)
        }
    } else {
        st
    }
}

/// Finishing the build: a non-empty pending bundle is flushed.
pub open spec fn layout_finish(st: PackLayout) -> PackLayout {
    if st.pending.len() > 0 {
        layout_flush(st)
    } else {
        st
    }
}

/// Creates or updates an archive.
pub struct PackBuilder {
    // connection to the store being built
    store: Store,
    // byte offset within the pending bundle to which new content is added
    current_pos: u64,
    // item content that will reside in the bundle under construction
    contents: Vec<IncomingContent>,
    // the uncompressed bytes of the bundle under construction
    bundle: Vec<u8>,
    // number of item rows in the store
    item_count: i64,
    // number of content rows in the store
    content_count: i64,
    // number of itemcontent rows in the store
    slice_count: i64,
    // the kind of every item, in id order (for validating parents)
    kinds: Vec<i8>,
    // set when a store or codec failure left the archive half-written;
    // every later operation is refused
    poisoned: bool,
    // the full bytes of every file and symlink item added so far
    files: Ghost<Map<int, Seq<u8>>>,
}

impl PackBuilder {
    /// The model of the store being built.
    pub closed spec fn model(&self) -> StoreModel {
        self.store@
    }

    /// The bytes of every file and symlink item added so far, by item id.
    pub closed spec fn data_map(&self) -> Map<int, Seq<u8>> {
        self.files@
    }

    /// Whether the builder is still usable: a store or codec failure leaves
    /// it refusing all further work.
    pub closed spec fn intact(&self) -> bool {
        !self.poisoned
    }

    /// The `(itempos, size)` ranges that item `i` has so far: those already
    /// flushed to the store followed by those still pending.
    pub closed spec fn combined_ranges(&self, i: int) -> Seq<(int, int)> {
        ranges(item_slices(self.store@.slices, i)) + pending_ranges(self.contents@, i)
    }

    /// The builder's layout: its cursor, its flushed bundles and slice rows,
    /// and its pending rows.
    pub closed spec fn layout(&self) -> PackLayout {
        PackLayout {
            cursor: self.current_pos as int,
            bundles: self.store@.contents.len() as int,
            flushed: self.store@.slices,
            pending: pending_rows_seq(self.contents@, self.store@.contents.len() as int + 1),
        }
    }

    /// The pending bundle is sound: its slices tile the pending bytes and
    /// carry exactly the ranges of the items' data they stand for.
    spec fn pending_wf(&self) -> bool {
        &&& self.current_pos == self.bundle@.len()
        &&& pending_list_wf(self.contents@, self.store@.items, self.files@, self.bundle@)
        &&& self.contents@.len() > 0 ==> self.contents@.last().itempos
            + self.contents@.last().size == self.files@[self.contents@.last().item as int].len()
    }

    /// The store side is sound: sequential ids, well-parented items, every
    /// flushed slice carries the right bytes, and every flushed bundle is
    /// fully tiled by its slices and within capacity.
    spec fn store_wf(&self) -> bool {
        let m = self.store@;
        &&& items_sequential(m)
        &&& contents_sequential(m)
        &&& items_well_parented(m)
        &&& self.store.is_fresh()
        &&& self.item_count == m.items.len()
        &&& self.content_count == m.contents.len()
        &&& self.slice_count == m.slices.len()
        &&& self.kinds@.len() == m.items.len()
        &&& forall|k: int|
            0 <= k < m.items.len() ==> (#[trigger] self.kinds@[k]) as int == m.items[k].kind
        &&& forall|k: int|
            0 <= k < m.items.len() ==> {
                let kd = (#[trigger] m.items[k]).kind;
                kd == crate::KIND_FILE as int || kd == crate::KIND_DIRECTORY as int || kd
                    == crate::KIND_SYMLINK as int
            }
        &&& forall|k: int|
            0 <= k < m.slices.len() ==> slice_matches(m, #[trigger] m.slices[k], self.files@)
        &&& forall|c: int|
            1 <= c <= m.contents.len() ==> bundle_of(m, c).len() <= crate::BUNDLE_SIZE as int
        &&& forall|c: int|
            1 <= c <= m.contents.len() ==> contentpos_consecutive(
                #[trigger] content_slices(m.slices, c),
                bundle_of(m, c).len() as int,
            )
        &&& slices_grouped(m.slices)
        &&& forall|c: int|
            1 <= c <= m.contents.len() ==> head_slices_complete(
                #[trigger] content_slices(m.slices, c),
                self.files@,
            )
        &&& forall|i: int|
            #[trigger] self.files@.dom().contains(i) <==> 1 <= i <= m.items.len() && (m.items[i
                - 1].kind == crate::KIND_FILE as int || m.items[i - 1].kind
                == crate::KIND_SYMLINK as int)
    }

    /// Item `i` is covered: a file's ranges tile `[0, len)`; a symlink has
    /// exactly one range tiling `[0, len)`; a directory has none.
    spec fn cov(&self, i: int) -> bool {
        let kd = self.store@.items[i - 1].kind;
        &&& kd == crate::KIND_FILE as int ==> ranges_consecutive(
            self.combined_ranges(i),
            self.files@[i].len() as int,
        )
        &&& kd == crate::KIND_SYMLINK as int ==> ranges_consecutive(
            self.combined_ranges(i),
            self.files@[i].len() as int,
        ) && self.combined_ranges(i).len() == 1
        &&& kd == crate::KIND_DIRECTORY as int ==> self.combined_ranges(i).len() == 0
    }

    /// The builder's invariant. A poisoned builder promises nothing; an
    /// intact one holds a sound store, a sound pending bundle, and full
    /// coverage of every item added so far.
    pub closed spec fn wf(&self) -> bool {
        self.poisoned || {
            &&& self.store_wf()
            &&& self.pending_wf()
            &&& forall|i: int| 1 <= i <= self.store@.items.len() ==> self.cov(i)
        }
    }

    /// Creates a content bundle based on the data collected so far, then
    /// compresses it, writing the blob to a new row in the `content` table.
    /// Then creates the necessary rows in the `itemcontent` table to map the
    /// item data to the content bundle. The pending state itself is left to
    /// `process_contents` to clear.
    #[verifier::rlimit(100)]
    fn insert_content(&mut self) -> (r: Result<(), Error>)
        requires
            old(self).intact(),
            old(self).store_wf(),
            old(self).current_pos == old(self).bundle@.len(),
            pending_list_wf(
                old(self).contents@,
                old(self).store@.items,
                old(self).files@,
                old(self).bundle@,
            ),
        ensures
            r is Ok ==> {
                &&& final(self).intact()
                &&& final(self).store_wf()
                &&& final(self).contents@ == old(self).contents@
                &&& final(self).bundle@ == old(self).bundle@
                &&& final(self).current_pos == old(self).current_pos
                &&& final(self).model().items == old(self).model().items
                &&& final(self).data_map() == old(self).data_map()
                &&& final(self).model().slices == old(self).model().slices + pending_rows_seq(
                    old(self).contents@,
                    old(self).model().contents.len() as int + 1,
                )
                &&& final(self).model().contents.len() == old(self).model().contents.len() + 1
            },
            r is Err ==> !final(self).intact(),
    {
        let ghost m0 = self.store@;
        let ghost ps = self.contents@;
        let ghost files = self.files@;
        let ghost c = m0.contents.len() as int + 1;
        if self.content_count == i64::MAX {
            self.poisoned = true;
            return Err(Error::Database);
        }
        let compressed = match compress(&self.bundle) {
            Ok(v) => v,
            Err(e) => {
                self.poisoned = true;
                return Err(e);
            },
        };
        if compressed.len() > 0x7fffffff {
            self.poisoned = true;
            return Err(Error::Database);
        }
        let (cid, written) = match self.store.write_content(&compressed) {
            Ok(p) => p,
            Err(e) => {
                self.poisoned = true;
                return Err(e);
            },
        };
        if written != compressed.len() {
            self.poisoned = true;
            return Err(Error::IncompleteBlobWrite);
        }
        self.content_count = self.content_count + 1;
        let ghost m1 = self.store@;
        proof {
            assert(m1.contents.last().bytes == compressed@);
            assert(bundle_of(m1, c) == self.bundle@) by {
                assert(m1.contents[c - 1].bytes == compress_of(self.bundle@));
            }
            assert(contents_sequential(m1)) by {
                assert forall|k: int|
                    0 <= k < m1.contents.len() implies (#[trigger] m1.contents[k]).id == k + 1 by {
                    if k < m0.contents.len() {
                        assert(m1.contents[k] == m0.contents[k]);
                    } else {
                        assert(m1.contents[k] == m1.contents.last());
                    }
                }
            }
        }
        let n = self.contents.len();
        let mut k: usize = 0;
        while k < n
            invariant
                !self.poisoned,
                n == self.contents@.len(),
                k <= n,
                self.contents@ == ps,
                ps == old(self).contents@,
                files == old(self).files@,
                m0 == old(self).store@,
                self.bundle@ == old(self).bundle@,
                self.current_pos == old(self).current_pos,
                self.kinds@ == old(self).kinds@,
                self.item_count == old(self).item_count,
                self.content_count as int == c,
                self.store.is_fresh(),
                self.slice_count as int == m0.slices.len() + k,
                m0.slices.len() + k <= i64::MAX,
                self.files@ == files,
                self.store@.items == m1.items,
                self.store@.contents == m1.contents,
                m1.items == m0.items,
                m1.slices == m0.slices,
                m1.contents.len() == m0.contents.len() + 1,
                forall|j: int| 0 <= j < m0.contents.len() ==> m1.contents[j] == m0.contents[j],
                cid as int == c,
                c == m0.contents.len() + 1,
                bundle_of(m1, c) == self.bundle@,
                pending_list_wf(ps, m0.items, files, old(self).bundle@),
                self.store@.slices == m0.slices + pending_rows_seq(ps.take(k as int), c),
            decreases n - k,
        {
            let p = self.contents[k];
            proof {
                assert(ps[k as int].itempos + ps[k as int].size <= i64::MAX);
                assert(ps[k as int].contentpos + ps[k as int].size <= old(self).bundle@.len());
            }
            if self.slice_count == i64::MAX {
                self.poisoned = true;
                return Err(Error::Database);
            }
            match self.store.insert_slice(p.item, p.itempos, cid, p.contentpos, p.size) {
                Ok(()) => {},
                Err(e) => {
                    self.poisoned = true;
                    return Err(e);
                },
            }
            self.slice_count = self.slice_count + 1;
            proof {
                assert(ps.take(k as int + 1) =~= ps.take(k as int).push(ps[k as int]));
                assert(pending_rows_seq(ps.take(k as int + 1), c) =~= pending_rows_seq(
                    ps.take(k as int),
                    c,
                ).push(pending_row(ps[k as int], c)));
                assert(self.store@.slices =~= m0.slices + pending_rows_seq(
                    ps.take(k as int + 1),
                    c,
                ));
            }
            k = k + 1;
        }
        let ghost m2 = self.store@;
        proof {
            assert(ps.take(n as int) =~= ps);
            assert(m2.slices == m0.slices + pending_rows_seq(ps, c));
            lemma_flush_store_wf(m0, m2, ps, files, old(self).bundle@, c);
            assert(items_sequential(m2) && items_well_parented(m2)) by {
                assert(m2.items == m0.items);
                assert(items_sequential(m0) && items_well_parented(m0));
            }
            assert forall|k: int|
                0 <= k < m2.items.len() implies (#[trigger] self.kinds@[k]) as int
                == m2.items[k].kind by {
                assert(old(self).kinds@[k] as int == m0.items[k].kind);
            }
            assert forall|k: int| 0 <= k < m2.items.len() implies {
                let kd = (#[trigger] m2.items[k]).kind;
                kd == crate::KIND_FILE as int || kd == crate::KIND_DIRECTORY as int || kd
                    == crate::KIND_SYMLINK as int
            } by {
                assert(m0.items[k].kind == crate::KIND_FILE as int || m0.items[k].kind
                    == crate::KIND_DIRECTORY as int || m0.items[k].kind
                    == crate::KIND_SYMLINK as int);
            }
            assert forall|i: int| #[trigger]
                files.dom().contains(i) <==> 1 <= i <= m2.items.len() && (m2.items[i - 1].kind
                == crate::KIND_FILE as int || m2.items[i - 1].kind
                == crate::KIND_SYMLINK as int) by {
                assert(files.dom().contains(i) <==> 1 <= i <= m0.items.len() && (m0.items[i
                    - 1].kind == crate::KIND_FILE as int || m0.items[i - 1].kind
                    == crate::KIND_SYMLINK as int));
                if 1 <= i <= m2.items.len() {
                    assert(m2.items[i - 1] == m0.items[i - 1]);
                }
            }
            assert(self.store_wf());
        }
        Ok(())
    }

    /// Process the current bundle of item content, clearing the collection
    /// and resetting the current content position. Which ranges of which
    /// items are recorded, between store and pending bundle together, does
    /// not change.
    fn process_contents(&mut self) -> (r: Result<(), Error>)
        requires
            old(self).intact(),
            old(self).store_wf(),
            old(self).current_pos == old(self).bundle@.len(),
            pending_list_wf(
                old(self).contents@,
                old(self).store@.items,
                old(self).files@,
                old(self).bundle@,
            ),
        ensures
            r is Ok ==> {
                &&& final(self).intact()
                &&& final(self).store_wf()
                &&& final(self).pending_wf()
                &&& final(self).model().items == old(self).model().items
                &&& final(self).data_map() == old(self).data_map()
                &&& final(self).current_pos == 0
                &&& final(self).contents@.len() == 0
                &&& final(self).bundle@.len() == 0
                &&& forall|j: int| final(self).combined_ranges(j) == old(self).combined_ranges(j)
                &&& final(self).layout() == layout_flush(old(self).layout())
            },
            r is Err ==> !final(self).intact(),
    {
        let ghost m0 = self.store@;
        let ghost ps = self.contents@;
        let ghost c = m0.contents.len() as int + 1;
        match self.insert_content() {
            Ok(()) => {},
            Err(e) => {
                return Err(e);
            },
        }
        self.contents = Vec::new();
        self.bundle = Vec::new();
        self.current_pos = 0;
        proof {
            let m2 = self.store@;
            assert(m2.slices == m0.slices + pending_rows_seq(ps, c));
            assert forall|j: int|
                self.combined_ranges(j) == old(self).combined_ranges(j) by {
                lemma_item_slices_add(m0.slices, pending_rows_seq(ps, c), j);
                lemma_pending_rows_ranges(ps, c, j);
                assert(ranges(item_slices(m2.slices, j)) =~= ranges(item_slices(m0.slices, j))
                    + ranges(item_slices(pending_rows_seq(ps, c), j)));
                lemma_pending_ranges_outside(self.contents@, j);
                assert(self.combined_ranges(j) =~= ranges(item_slices(m2.slices, j)));
                assert(old(self).combined_ranges(j) =~= ranges(item_slices(m0.slices, j))
                    + pending_ranges(ps, j));
            }
            assert(self.pending_wf());
            assert(pending_rows_seq(self.contents@, m2.contents.len() as int + 1)
                =~= Seq::<SliceRow>::empty());
            assert(self.layout() =~= layout_flush(old(self).layout()));
        }
        Ok(())
    }

    /// After one item row is inserted (and, for a file or symlink, its data
    /// recorded), the builder is sound again and the new item has no slices.
    proof fn lemma_after_insert_item(
        pre: PackBuilder,
        post: PackBuilder,
        parent: i64,
        kd: i8,
        nm: Seq<char>,
        data: Seq<u8>,
    )
        requires
            pre.wf(),
            pre.intact(),
            post.intact(),
            kd == crate::KIND_FILE || kd == crate::KIND_DIRECTORY || kd == crate::KIND_SYMLINK,
            parent == 0 || (1 <= parent <= pre.store@.items.len() && pre.store@.items[parent
                - 1].kind == crate::KIND_DIRECTORY as int),
            post.store@.items == pre.store@.items.push(
                ItemRow {
                    id: pre.store@.items.len() as int + 1,
                    parent: parent as int,
                    kind: kd as int,
                    name: nm,
                },
            ),
            post.store@.contents == pre.store@.contents,
            post.store@.slices == pre.store@.slices,
            post.kinds@ == pre.kinds@.push(kd),
            post.item_count == pre.item_count + 1,
            post.content_count == pre.content_count,
            post.slice_count == pre.slice_count,
            post.store.is_fresh() == pre.store.is_fresh(),
            post.contents@ == pre.contents@,
            post.bundle@ == pre.bundle@,
            post.current_pos == pre.current_pos,
            post.files@ == if kd == crate::KIND_DIRECTORY {
                pre.files@
            } else {
                pre.files@.insert(pre.store@.items.len() as int + 1, data)
            },
        ensures
            post.store_wf(),
            post.pending_wf(),
            post.layout() == pre.layout(),
            forall|i: int|
                1 <= i <= pre.store@.items.len() ==> #[trigger] post.combined_ranges(i)
                    == pre.combined_ranges(i) && post.cov(i),
            post.combined_ranges(pre.store@.items.len() as int + 1).len() == 0,
    {
        let m0 = pre.store@;
        let m = post.store@;
        let nid = m0.items.len() as int + 1;
        let files = post.files@;
        assert(items_sequential(m)) by {
            assert forall|k: int| 0 <= k < m.items.len() implies (#[trigger] m.items[k]).id == k
                + 1 by {
                if k < m0.items.len() {
                    assert(m0.items[k].id == k + 1);
                }
            }
        }
        assert(items_well_parented(m)) by {
            assert forall|k: int|
                0 <= k < m.items.len() implies (#[trigger] m.items[k]).parent == 0 || (1
                <= m.items[k].parent <= k && m.items[m.items[k].parent - 1].kind
                == crate::KIND_DIRECTORY as int) by {
                if k < m0.items.len() {
                    assert(m0.items[k].parent == 0 || (1 <= m0.items[k].parent <= k
                        && m0.items[m0.items[k].parent - 1].kind == crate::KIND_DIRECTORY as int));
                }
            }
        }
        assert forall|k: int|
            0 <= k < m.items.len() implies (#[trigger] post.kinds@[k]) as int
            == m.items[k].kind by {
            if k < m0.items.len() {
                assert(pre.kinds@[k] as int == m0.items[k].kind);
            }
        }
        assert forall|k: int| 0 <= k < m.items.len() implies {
            let kk = (#[trigger] m.items[k]).kind;
            kk == crate::KIND_FILE as int || kk == crate::KIND_DIRECTORY as int || kk
                == crate::KIND_SYMLINK as int
        } by {
            if k < m0.items.len() {
                assert(m0.items[k].kind == crate::KIND_FILE as int || m0.items[k].kind
                    == crate::KIND_DIRECTORY as int || m0.items[k].kind
                    == crate::KIND_SYMLINK as int);
            }
        }
        assert forall|k: int|
            0 <= k < m.slices.len() implies slice_matches(m, #[trigger] m.slices[k], files) by {
            assert(slice_matches(m0, m0.slices[k], pre.files@));
            assert(m.items[m0.slices[k].item - 1] == m0.items[m0.slices[k].item - 1]);
            assert(m0.slices[k].item != nid);
            assert(files[m0.slices[k].item] == pre.files@[m0.slices[k].item]);
            assert(m.contents[m0.slices[k].content - 1] == m0.contents[m0.slices[k].content - 1]);
            assert(bundle_of(m, m0.slices[k].content) == bundle_of(m0, m0.slices[k].content));
        }
        assert forall|cc: int|
            1 <= cc <= m.contents.len() implies bundle_of(m, cc).len()
            <= crate::BUNDLE_SIZE as int by {
            assert(bundle_of(m0, cc).len() <= crate::BUNDLE_SIZE as int);
            assert(m.contents[cc - 1] == m0.contents[cc - 1]);
        }
        assert forall|cc: int|
            1 <= cc <= m.contents.len() implies contentpos_consecutive(
            #[trigger] content_slices(m.slices, cc),
            bundle_of(m, cc).len() as int,
        ) by {
            assert(contentpos_consecutive(
                content_slices(m0.slices, cc),
                bundle_of(m0, cc).len() as int,
            ));
            assert(m.contents[cc - 1] == m0.contents[cc - 1]);
            assert(m.slices == m0.slices);
        }
        assert(slices_grouped(m.slices)) by {
            assert(m.slices == m0.slices);
            assert(slices_grouped(m0.slices));
        }
        assert forall|cc: int|
            1 <= cc <= m.contents.len() implies head_slices_complete(
            #[trigger] content_slices(m.slices, cc),
            files,
        ) by {
            let cs = content_slices(m0.slices, cc);
            assert(content_slices(m.slices, cc) == cs);
            assert(head_slices_complete(cs, pre.files@));
            assert forall|k: int| 0 <= k < cs.len() - 1 implies slice_completes(
                #[trigger] cs[k],
                files,
            ) by {
                assert(slice_completes(cs[k], pre.files@));
                assert(cs.contains(cs[k]));
                m0.slices.lemma_filter_contains_rev(|s: SliceRow| s.content == cc, cs[k]);
                let j = choose|j: int| 0 <= j < m0.slices.len() && m0.slices[j] == cs[k];
                assert(slice_matches(m0, m0.slices[j], pre.files@));
                assert(cs[k].item != nid);
                assert(files[cs[k].item] == pre.files@[cs[k].item]);
            }
        }
        assert forall|i: int| #[trigger]
            files.dom().contains(i) <==> 1 <= i <= m.items.len() && (m.items[i - 1].kind
            == crate::KIND_FILE as int || m.items[i - 1].kind == crate::KIND_SYMLINK as int) by {
            assert(pre.files@.dom().contains(i) <==> 1 <= i <= m0.items.len() && (m0.items[i
                - 1].kind == crate::KIND_FILE as int || m0.items[i - 1].kind
                == crate::KIND_SYMLINK as int));
            if 1 <= i <= m0.items.len() {
                assert(m.items[i - 1] == m0.items[i - 1]);
            }
        }
        assert(post.store_wf());
        assert(post.pending_wf()) by {
            if post.contents@.len() > 0 {
                let lastp = post.contents@.last();
                assert(lastp == pre.contents@.last());
                assert(1 <= lastp.item <= m0.items.len());
                assert(lastp.item != nid);
                assert(files[lastp.item as int] == pre.files@[lastp.item as int]);
            }
            assert forall|k: int| 0 <= k < post.contents@.len() implies {
                let p = #[trigger] post.contents@[k];
                &&& 1 <= p.item <= m.items.len()
                &&& p.kind as int == m.items[p.item - 1].kind
                &&& p.kind == crate::KIND_FILE || p.kind == crate::KIND_SYMLINK
                &&& files.dom().contains(p.item as int)
                &&& p.itempos + p.size <= files[p.item as int].len()
                &&& p.itempos + p.size <= i64::MAX
                &&& p.contentpos + p.size <= post.bundle@.len()
                &&& post.bundle@.subrange(p.contentpos as int, p.contentpos + p.size) == files[
                    p.item as int
                ].subrange(p.itempos as int, p.itempos + p.size)
            } by {
                let p = pre.contents@[k];
                assert(1 <= p.item <= m0.items.len());
                assert(m.items[p.item - 1] == m0.items[p.item - 1]);
                assert(p.item != nid);
                assert(files[p.item as int] == pre.files@[p.item as int]);
            }
        }
        assert forall|i: int|
            1 <= i <= pre.store@.items.len() implies #[trigger] post.combined_ranges(i)
            == pre.combined_ranges(i) && post.cov(i) by {
            assert(post.combined_ranges(i) == pre.combined_ranges(i));
            assert(pre.cov(i));
            assert(m.items[i - 1] == m0.items[i - 1]);
            assert(i != nid);
            assert(files[i] == pre.files@[i]);
        }
        assert(forall|k: int| 0 <= k < m.slices.len() ==> (#[trigger] m.slices[k]).item != nid);
        lemma_item_slices_outside(m.slices, nid);
        assert(forall|k: int|
            0 <= k < post.contents@.len() ==> (#[trigger] post.contents@[k]).item as int != nid);
        lemma_pending_ranges_outside(post.contents@, nid);
        assert(post.combined_ranges(nid).len() == 0);
        assert(post.layout() =~= pre.layout());
    }

    /// Appends one pending slice for `data[from .. from + count]`, whose
    /// `itempos` is `from`, and copies those bytes into the pending bundle.
    fn push_slice(&mut self, kind: i8, item: i64, data: &[u8], from: usize, count: usize) -> (r:
        ())
        requires
            old(self).intact(),
            old(self).store_wf(),
            old(self).current_pos == old(self).bundle@.len(),
            pending_list_wf(
                old(self).contents@,
                old(self).store@.items,
                old(self).files@,
                old(self).bundle@,
            ),
            forall|k: int|
                0 <= k < old(self).contents@.len() ==> (#[trigger] old(self).contents@[k]).itempos
                    + old(self).contents@[k].size == old(self).files@[old(self).contents@[k].item
                    as int].len(),
            1 <= item <= old(self).store@.items.len(),
            kind == crate::KIND_FILE || kind == crate::KIND_SYMLINK,
            kind as int == old(self).store@.items[item - 1].kind,
            old(self).files@.dom().contains(item as int),
            data@ == old(self).files@[item as int],
            from + count <= data@.len(),
            from + count <= i64::MAX,
            count as u64 <= crate::BUNDLE_SIZE - old(self).current_pos,
        ensures
            final(self).intact(),
            final(self).store_wf(),
            final(self).current_pos == final(self).bundle@.len(),
            pending_list_wf(
                final(self).contents@,
                final(self).store@.items,
                final(self).files@,
                final(self).bundle@,
            ),
            final(self).contents@ == old(self).contents@.push(
                IncomingContent {
                    kind,
                    item,
                    itempos: from as u64,
                    contentpos: old(self).current_pos,
                    size: count as u64,
                },
            ),
            final(self).store@ == old(self).store@,
            final(self).files@ == old(self).files@,
            final(self).kinds@ == old(self).kinds@,
            final(self).item_count == old(self).item_count,
            final(self).content_count == old(self).content_count,
            final(self).current_pos == old(self).current_pos + count,
            forall|j: int|
                j != item as int ==> #[trigger] final(self).combined_ranges(j) == old(
                    self,
                ).combined_ranges(j),
            final(self).combined_ranges(item as int) == old(self).combined_ranges(
                item as int,
            ).push((from as int, count as int)),
            final(self).layout() == layout_push(
                old(self).layout(),
                item as int,
                from as int,
                count as int,
            ),
    {
        let ghost ps0 = self.contents@;
        let ghost bundle0 = self.bundle@;
        let pos = self.current_pos;
        let x = IncomingContent {
            kind,
            item,
            itempos: from as u64,
            contentpos: pos,
            size: count as u64,
        };
        self.contents.push(x);
        append_bytes(&mut self.bundle, data, from, count);
        self.current_pos = pos + count as u64;
        proof {
            let ps = self.contents@;
            let bundle = self.bundle@;
            let files = self.files@;
            let m = self.store@;
            assert(ps == ps0.push(x));
            assert(bundle.len() == bundle0.len() + count);
            assert(pending_list_wf(ps, m.items, files, bundle)) by {
                assert forall|k: int| 0 <= k < ps.len() implies {
                    let p = #[trigger] ps[k];
                    &&& 1 <= p.item <= m.items.len()
                    &&& p.kind as int == m.items[p.item - 1].kind
                    &&& p.kind == crate::KIND_FILE || p.kind == crate::KIND_SYMLINK
                    &&& files.dom().contains(p.item as int)
                    &&& p.itempos + p.size <= files[p.item as int].len()
                    &&& p.itempos + p.size <= i64::MAX
                    &&& p.contentpos + p.size <= bundle.len()
                    &&& bundle.subrange(p.contentpos as int, p.contentpos + p.size) == files[p.item
                        as int].subrange(p.itempos as int, p.itempos + p.size)
                } by {
                    if k < ps0.len() {
                        let p = ps0[k];
                        assert(p.contentpos + p.size <= bundle0.len());
                        assert(bundle.subrange(p.contentpos as int, p.contentpos + p.size)
                            =~= bundle0.subrange(p.contentpos as int, p.contentpos + p.size));
                    } else {
                        assert(ps[k] == x);
                        assert(bundle.subrange(pos as int, pos + count) =~= data@.subrange(
                            from as int,
                            from as int + count,
                        ));
                    }
                }
                if ps0.len() > 0 {
                    assert(ps[ps.len() - 2] == ps0[ps0.len() - 1]);
                }
            }
            assert forall|j: int|
                j != item as int implies #[trigger] self.combined_ranges(j) == old(
                self,
            ).combined_ranges(j) by {
                lemma_pending_ranges_push(ps0, x, j);
            }
            lemma_pending_ranges_push(ps0, x, item as int);
            assert(self.combined_ranges(item as int) =~= old(self).combined_ranges(item as int).push(
                (from as int, count as int),
            ));
            let c = m.contents.len() as int + 1;
            assert(pending_rows_seq(ps, c) =~= pending_rows_seq(ps0, c).push(pending_row(x, c)));
            assert(self.layout() =~= layout_push(
                old(self).layout(),
                item as int,
                from as int,
                count as int,
            ));
        }
    }

    /// Adds a symbolic link to the archive, returning the item identifier.
    /// `target` holds the link target as raw bytes. A link never spans
    /// bundles: if it does not fit what is left of the pending bundle, the
    /// bundle is flushed first, and a target longer than a whole bundle is
    /// refused outright.
    pub fn add_symlink(&mut self, path: &str, parent: i64, target: &[u8]) -> (r: Result<
        i64,
        Error,
    >)
        requires
            old(self).wf(),
        ensures
            final(self).wf(),
            r matches Ok(id) ==> {
                &&& old(self).intact() && final(self).intact()
                &&& id as int == old(self).model().items.len() + 1
                &&& final(self).model().items == old(self).model().items.push(
                    ItemRow {
                        id: id as int,
                        parent: parent as int,
                        kind: crate::KIND_SYMLINK as int,
                        name: spec_file_name(path@),
                    },
                )
                &&& final(self).data_map() == old(self).data_map().insert(id as int, target@)
                &&& final(self).layout() == layout_add_symlink(
                    old(self).layout(),
                    id as int,
                    target@.len() as int,
                )
            },
            !old(self).intact() ==> r == Err::<i64, Error>(Error::Database) && *final(self) == *old(
                self,
            ),
            old(self).intact() && !(parent == 0 || (1 <= parent <= old(self).model().items.len()
                && old(self).model().items[parent - 1].kind == crate::KIND_DIRECTORY as int))
                ==> r == Err::<i64, Error>(Error::Database) && *final(self) == *old(self),
    {
        if self.poisoned {
            return Err(Error::Database);
        }
        if !self.parent_ok(parent) {
            return Err(Error::Database);
        }
        if self.item_count == i64::MAX {
            return Err(Error::Database);
        }
        let len = target.len();
        if len as u64 > crate::BUNDLE_SIZE {
            return Err(Error::Database);
        }
        let ghost l0 = self.layout();
        let ghost did_flush = len as u64 > crate::BUNDLE_SIZE - self.current_pos;
        if len as u64 > crate::BUNDLE_SIZE - self.current_pos {
            let ghost b0 = *self;
            match self.process_contents() {
                Ok(()) => {},
                Err(e) => {
                    return Err(e);
                },
            }
            proof {
                assert forall|i: int| 1 <= i <= self.store@.items.len() implies self.cov(i) by {
                    assert(b0.cov(i));
                    assert(self.store@.items[i - 1] == b0.store@.items[i - 1]);
                    assert(self.combined_ranges(i) == b0.combined_ranges(i));
                }
                assert(self.wf());
                assert(self.layout() == layout_flush(l0));
            }
        }
        let ghost pre = *self;
        let name = get_file_name(path);
        let id = match self.store.insert_item(parent, crate::KIND_SYMLINK, name.as_str()) {
            Ok(id) => id,
            Err(e) => {
                self.poisoned = true;
                return Err(e);
            },
        };
        self.item_count = self.item_count + 1;
        self.kinds.push(crate::KIND_SYMLINK);
        self.files = Ghost(self.files@.insert(id as int, target@));
        proof {
            Self::lemma_after_insert_item(
                pre,
                *self,
                parent,
                crate::KIND_SYMLINK,
                spec_file_name(path@),
                target@,
            );
        }
        let ghost mid = *self;
        self.push_slice(crate::KIND_SYMLINK, id, target, 0, len);
        proof {
            assert forall|i: int| 1 <= i <= self.store@.items.len() implies self.cov(i) by {
                if i < id as int {
                    assert(mid.cov(i));
                    assert(self.combined_ranges(i) == mid.combined_ranges(i));
                    assert(self.store@.items[i - 1] == mid.store@.items[i - 1]);
                } else {
                    assert(i == id as int);
                    assert(self.combined_ranges(i) == mid.combined_ranges(i).push((0, len as int)));
                    assert(self.combined_ranges(i).len() == 1);
                    assert(ranges_consecutive(self.combined_ranges(i), len as int)) by {
                        lemma_ranges_push(mid.combined_ranges(i), 0, 0, len as int);
                    }
                    assert(self.files@[i].len() == len);
                }
            }
            assert(self.layout() == layout_add_symlink(l0, id as int, len as int)) by {
                assert(mid.layout() == pre.layout());
                assert(self.layout() == layout_push(pre.layout(), id as int, 0, len as int));
                assert(l0.cursor == old(self).current_pos as int);
                if did_flush {
                    assert(pre.layout() == layout_flush(l0));
                    assert(len as int > crate::BUNDLE_SIZE as int - l0.cursor);
                } else {
                    assert(pre.layout() == l0);
                    assert(!(len as int > crate::BUNDLE_SIZE as int - l0.cursor));
                }
            }
        }
        Ok(id)
    }

    /// Adds a single file to the archive, returning the item identifier.
    /// `data` holds the file's bytes. Depending on the size of the file and
    /// the content bundle so far, this may result in writing one or more
    /// rows to the content and itemcontent tables: whenever the pending
    /// bundle would overflow, a head slice fills it exactly and the bundle
    /// is flushed, until the rest of the file fits. An empty file gets one
    /// slice of size zero.
    #[verifier::rlimit(100)]
    pub fn add_file(&mut self, path: &str, parent: i64, data: &[u8]) -> (r: Result<i64, Error>)
        requires
            old(self).wf(),
        ensures
            final(self).wf(),
            r matches Ok(id) ==> {
                &&& old(self).intact() && final(self).intact()
                &&& id as int == old(self).model().items.len() + 1
                &&& final(self).model().items == old(self).model().items.push(
                    ItemRow {
                        id: id as int,
                        parent: parent as int,
                        kind: crate::KIND_FILE as int,
                        name: spec_file_name(path@),
                    },
                )
                &&& final(self).data_map() == old(self).data_map().insert(id as int, data@)
                &&& final(self).layout() == layout_add_file(
                    old(self).layout(),
                    id as int,
                    0,
                    data@.len() as int,
                )
            },
            !old(self).intact() ==> r == Err::<i64, Error>(Error::Database) && *final(self) == *old(
                self,
            ),
            old(self).intact() && !(parent == 0 || (1 <= parent <= old(self).model().items.len()
                && old(self).model().items[parent - 1].kind == crate::KIND_DIRECTORY as int))
                ==> r == Err::<i64, Error>(Error::Database) && *final(self) == *old(self),
    {
        if self.poisoned {
            return Err(Error::Database);
        }
        if !self.parent_ok(parent) {
            return Err(Error::Database);
        }
        if self.item_count == i64::MAX {
            return Err(Error::Database);
        }
        let total = data.len();
        if total as u64 > i64::MAX as u64 {
            return Err(Error::Database);
        }
        let ghost pre = *self;
        let name = get_file_name(path);
        let id = match self.store.insert_item(parent, crate::KIND_FILE, name.as_str()) {
            Ok(id) => id,
            Err(e) => {
                self.poisoned = true;
                return Err(e);
            },
        };
        self.item_count = self.item_count + 1;
        self.kinds.push(crate::KIND_FILE);
        self.files = Ghost(self.files@.insert(id as int, data@));
        proof {
            Self::lemma_after_insert_item(
                pre,
                *self,
                parent,
                crate::KIND_FILE,
                spec_file_name(path@),
                data@,
            );
        }
        let ghost items1 = self.store@.items;
        let ghost files1 = self.files@;
        let ghost lay0 = self.layout();
        let mut consumed: usize = 0;
        let mut size: u64 = total as u64;
        loop
            invariant_except_break
                consumed + size == total,
                consumed <= total,
                ranges_consecutive(self.combined_ranges(id as int), consumed as int),
                layout_add_file(lay0, id as int, 0, total as int) == layout_add_file(
                    self.layout(),
                    id as int,
                    consumed as int,
                    size as int,
                ),
            invariant
                old(self).intact(),
                parent == 0 || (1 <= parent <= old(self).model().items.len() && old(
                    self,
                ).model().items[parent - 1].kind == crate::KIND_DIRECTORY as int),
                self.intact(),
                self.store_wf(),
                self.pending_wf(),
                self.store@.items == items1,
                self.files@ == files1,
                id as int == items1.len(),
                1 <= id,
                items1[id - 1].kind == crate::KIND_FILE as int,
                files1.dom().contains(id as int),
                files1[id as int] == data@,
                total == data@.len(),
                total <= i64::MAX,
                forall|i: int|
                    1 <= i < id as int ==> #[trigger] self.combined_ranges(i) == pre.combined_ranges(
                        i,
                    ) && self.cov(i),
            ensures
                self.intact(),
                self.store_wf(),
                self.pending_wf(),
                self.store@.items == items1,
                self.files@ == files1,
                ranges_consecutive(self.combined_ranges(id as int), total as int),
                self.layout() == layout_add_file(lay0, id as int, 0, total as int),
                forall|i: int|
                    1 <= i < id as int ==> #[trigger] self.combined_ranges(i) == pre.combined_ranges(
                        i,
                    ) && self.cov(i),
            decreases size, self.current_pos,
        {
            if size > crate::BUNDLE_SIZE - self.current_pos {
                let remainder = crate::BUNDLE_SIZE - self.current_pos;
                let ghost before = *self;
                self.push_slice(crate::KIND_FILE, id, data, consumed, remainder as usize);
                proof {
                    lemma_ranges_push(
                        before.combined_ranges(id as int),
                        consumed as int,
                        consumed as int,
                        remainder as int,
                    );
                }
                let ghost mid = *self;
                match self.process_contents() {
                    Ok(()) => {},
                    Err(e) => {
                        return Err(e);
                    },
                }
                proof {
                    assert(self.combined_ranges(id as int) == mid.combined_ranges(id as int));
                    assert forall|i: int|
                        1 <= i < id as int implies #[trigger] self.combined_ranges(i)
                        == pre.combined_ranges(i) && self.cov(i) by {
                        assert(self.combined_ranges(i) == mid.combined_ranges(i));
                        assert(mid.combined_ranges(i) == before.combined_ranges(i));
                        assert(self.store@.items[i - 1] == items1[i - 1]);
                        assert(mid.cov(i));
                    }
                    assert(layout_add_file(before.layout(), id as int, consumed as int, size as int)
                        == layout_add_file(self.layout(), id as int, consumed + remainder,
                    size - remainder)) by {
                        assert(0 <= before.layout().cursor <= crate::BUNDLE_SIZE as int);
                        assert(size as int > crate::BUNDLE_SIZE as int - before.layout().cursor);
                        assert(remainder as int == crate::BUNDLE_SIZE as int
                            - before.layout().cursor);
                        assert(mid.layout() == layout_push(
                            before.layout(),
                            id as int,
                            consumed as int,
                            remainder as int,
                        ));
                        assert(self.layout() == layout_flush(mid.layout()));
                    }
                }
                size = size - remainder;
                consumed = consumed + remainder as usize;
            } else {
                let ghost before = *self;
                self.push_slice(crate::KIND_FILE, id, data, consumed, size as usize);
                proof {
                    lemma_ranges_push(
                        before.combined_ranges(id as int),
                        consumed as int,
                        consumed as int,
                        size as int,
                    );
                    assert forall|i: int|
                        1 <= i < id as int implies #[trigger] self.combined_ranges(i)
                        == pre.combined_ranges(i) && self.cov(i) by {
                        assert(self.combined_ranges(i) == before.combined_ranges(i));
                        assert(self.store@.items[i - 1] == items1[i - 1]);
                        assert(before.cov(i));
                    }
                    assert(ranges_consecutive(self.combined_ranges(id as int), total as int));
                    assert(layout_add_file(before.layout(), id as int, consumed as int, size as int)
                        == layout_push(before.layout(), id as int, consumed as int, size as int))
                        by {
                        assert(0 <= before.layout().cursor <= crate::BUNDLE_SIZE as int);
                        assert(!(size as int > crate::BUNDLE_SIZE as int - before.layout().cursor));
                    }
                    assert(self.layout() == layout_add_file(lay0, id as int, 0, total as int));
                }
                break ;
            }
        }
        proof {
            assert forall|i: int| 1 <= i <= self.store@.items.len() implies self.cov(i) by {
                if i < id as int {
                } else {
                    assert(i == id as int);
                    assert(self.files@[i] == data@);
                    assert(ranges_consecutive(self.combined_ranges(i), data@.len() as int));
                }
            }
            assert(self.wf());
        }
        Ok(id)
    }

    /// Call `finish()` when all file content has been added to the builder.
    /// Any pending bundle is flushed, after which the store holds a
    /// well-formed archive of everything added; the store is then written to
    /// the given `path`.
    pub fn finish(&mut self, path: &str) -> (r: Result<(), Error>)
        requires
            old(self).wf(),
        ensures
            final(self).wf(),
            r is Ok ==> {
                &&& old(self).intact() && final(self).intact()
                &&& final(self).model().items == old(self).model().items
                &&& final(self).data_map() == old(self).data_map()
                &&& archive_wf(final(self).model(), final(self).data_map())
                &&& final(self).layout() == layout_finish(old(self).layout())
                &&& final(self).model().slices == layout_finish(old(self).layout()).flushed
                &&& final(self).model().contents.len() == layout_finish(old(self).layout()).bundles
            },
            !old(self).intact() ==> r == Err::<(), Error>(Error::Database) && *final(self) == *old(
                self,
            ),
    {
        if self.poisoned {
            return Err(Error::Database);
        }
        let ghost l0 = self.layout();
        proof {
            assert(l0.pending.len() == self.contents@.len());
        }
        if self.contents.len() > 0 {
            let ghost b0 = *self;
            match self.process_contents() {
                Ok(()) => {},
                Err(e) => {
                    return Err(e);
                },
            }
            proof {
                assert forall|i: int| 1 <= i <= self.store@.items.len() implies self.cov(i) by {
                    assert(b0.cov(i));
                    assert(self.store@.items[i - 1] == b0.store@.items[i - 1]);
                    assert(self.combined_ranges(i) == b0.combined_ranges(i));
                }
                assert(self.layout() == layout_flush(l0));
                assert(self.layout() == layout_finish(l0));
            }
        }
        proof {
            assert(self.layout() == layout_finish(l0));
            let m = self.store@;
            let files = self.files@;
            assert forall|i: int|
                1 <= i <= m.items.len() && (#[trigger] m.items[i - 1].kind)
                == crate::KIND_FILE as int implies itempos_consecutive(
                item_slices(m.slices, i),
                files[i].len() as int,
            ) by {
                assert(self.cov(i));
                lemma_pending_ranges_outside(self.contents@, i);
                assert(self.combined_ranges(i) =~= ranges(item_slices(m.slices, i)));
                lemma_ranges_consecutive(item_slices(m.slices, i), files[i].len() as int);
            }
            assert forall|i: int|
                1 <= i <= m.items.len() && (#[trigger] m.items[i - 1].kind)
                == crate::KIND_SYMLINK as int implies itempos_consecutive(
                item_slices(m.slices, i),
                files[i].len() as int,
            ) && item_slices(m.slices, i).len() == 1 by {
                assert(self.cov(i));
                lemma_pending_ranges_outside(self.contents@, i);
                assert(self.combined_ranges(i) =~= ranges(item_slices(m.slices, i)));
                lemma_ranges_consecutive(item_slices(m.slices, i), files[i].len() as int);
                assert(ranges(item_slices(m.slices, i)).len() == item_slices(m.slices, i).len());
            }
            assert forall|i: int|
                1 <= i <= m.items.len() && (#[trigger] m.items[i - 1].kind)
                == crate::KIND_DIRECTORY as int implies item_slices(m.slices, i).len() == 0 by {
                assert(self.cov(i));
                lemma_pending_ranges_outside(self.contents@, i);
                assert(self.combined_ranges(i) =~= ranges(item_slices(m.slices, i)));
                assert(ranges(item_slices(m.slices, i)).len() == item_slices(m.slices, i).len());
            }
            assert(archive_wf(self.store@, self.files@));
        }
        match self.store.backup_to(path) {
            Ok(()) => Ok(()),
            Err(e) => Err(e),
        }
    }

    /// Construct a new `PackBuilder` that will operate entirely in memory.
    pub fn new() -> (r: Result<PackBuilder, Error>)
        ensures
            r matches Ok(b) ==> {
                &&& b.wf()
                &&& b.intact()
                &&& b.model().items.len() == 0
                &&& b.model().contents.len() == 0
                &&& b.model().slices.len() == 0
                &&& b.data_map() == Map::<int, Seq<u8>>::empty()
                &&& b.layout() == layout_empty()
            },
    {
        let store = match Store::create() {
            Ok(s) => s,
            Err(e) => {
                return Err(e);
            },
        };
        let b = PackBuilder {
            store,
            current_pos: 0,
            contents: Vec::new(),
            bundle: Vec::new(),
            item_count: 0,
            content_count: 0,
            slice_count: 0,
            kinds: Vec::new(),
            poisoned: false,
            files: Ghost(Map::empty()),
        };
        proof {
            assert(b.store_wf());
            assert(b.pending_wf());
            assert(forall|i: int| 1 <= i <= b.store@.items.len() ==> b.cov(i));
            assert(pending_rows_seq(b.contents@, 1) =~= Seq::<SliceRow>::empty());
            assert(b.layout() =~= layout_empty());
        }
        Ok(b)
    }

    /// Whether `parent` may be given as the parent of a new item: the root,
    /// or an existing directory item.
    fn parent_ok(&self, parent: i64) -> (b: bool)
        requires
            self.wf(),
            self.intact(),
        ensures
            b == (parent == 0 || (1 <= parent <= self.model().items.len() && self.model().items[
                parent - 1
            ].kind == crate::KIND_DIRECTORY as int)),
    {
        if parent == 0 {
            return true;
        }
        if parent >= 1 && parent <= self.item_count {
            let n = self.kinds.len();
            proof {
                assert(n == self.store@.items.len());
                assert((parent - 1) as usize as int == parent - 1);
            }
            return self.kinds[(parent - 1) as usize] == crate::KIND_DIRECTORY;
        }
        false
    }

    /// Add a row to the `item` table that corresponds to this directory,
    /// returning the item identifier. Fails, changing nothing, if the
    /// builder is poisoned or `parent` is not the root or an existing
    /// directory item; fails poisoned on a store error.
    pub fn add_directory(&mut self, path: &str, parent: i64) -> (r: Result<i64, Error>)
        requires
            old(self).wf(),
        ensures
            final(self).wf(),
            r matches Ok(id) ==> {
                &&& old(self).intact() && final(self).intact()
                &&& id as int == old(self).model().items.len() + 1
                &&& final(self).model().items == old(self).model().items.push(
                    ItemRow {
                        id: id as int,
                        parent: parent as int,
                        kind: crate::KIND_DIRECTORY as int,
                        name: spec_file_name(path@),
                    },
                )
                &&& final(self).model().contents == old(self).model().contents
                &&& final(self).model().slices == old(self).model().slices
                &&& final(self).data_map() == old(self).data_map()
                &&& final(self).layout() == old(self).layout()
            },
            !old(self).intact() ==> r == Err::<i64, Error>(Error::Database) && *final(self) == *old(
                self,
            ),
            old(self).intact() && !(parent == 0 || (1 <= parent <= old(self).model().items.len()
                && old(self).model().items[parent - 1].kind == crate::KIND_DIRECTORY as int))
                ==> r == Err::<i64, Error>(Error::Database) && *final(self) == *old(self),
    {
        if self.poisoned {
            return Err(Error::Database);
        }
        if !self.parent_ok(parent) {
            return Err(Error::Database);
        }
        if self.item_count == i64::MAX {
            return Err(Error::Database);
        }
        let ghost pre = *self;
        let name = get_file_name(path);
        let id = match self.store.insert_item(parent, crate::KIND_DIRECTORY, name.as_str()) {
            Ok(id) => id,
            Err(e) => {
                self.poisoned = true;
                return Err(e);
            },
        };
        self.item_count = self.item_count + 1;
        self.kinds.push(crate::KIND_DIRECTORY);
        proof {
            Self::lemma_after_insert_item(
                pre,
                *self,
                parent,
                crate::KIND_DIRECTORY,
                spec_file_name(path@),
                Seq::<u8>::empty(),
            );
            assert forall|i: int| 1 <= i <= self.store@.items.len() implies self.cov(i) by {
                if i < id as int {
                } else {
                    assert(i == id as int);
                    assert(self.store@.items[i - 1].kind == crate::KIND_DIRECTORY as int);
                    assert(self.combined_ranges(i).len() == 0);
                }
            }
            assert(self.wf());
        }
        Ok(id)
    }
}

/// One entry of an input tree, in the order the builder should see them: a
/// directory, a file with its bytes, or a symbolic link with its raw target
/// bytes. `parent` is 0 for a root entry, else the item id of an earlier
/// directory entry (ids are assigned 1, 2, 3, ... in order).
pub struct SourceEntry {
    pub path: String,
    pub kind: i8,
    pub parent: i64,
    pub data: Vec<u8>,
}

/// How many file entries a list holds.
pub open spec fn count_files(es: Seq<SourceEntry>) -> int
    decreases es.len(),
{
    if es.len() == 0 {
        0
    } else {
        count_files(es.drop_last()) + if es.last().kind == crate::KIND_FILE {
            1int
        } else {
            0int
        }
    }
}


/// The item row that entry `k` of a list becomes: ids are handed out 1, 2,
/// 3, ... in order, so entry `k` (0-based) gets id `k + 1`.
pub open spec fn entry_item_row(e: SourceEntry, id: int) -> ItemRow {
    ItemRow { id, parent: e.parent as int, kind: e.kind as int, name: spec_file_name(e.path@) }
}

/// The item table that a list of entries builds.
pub open spec fn entry_items(es: Seq<SourceEntry>) -> Seq<ItemRow> {
    Seq::new(es.len(), |k: int| entry_item_row(es[k], k + 1))
}

/// The data of every file and symlink entry, by the item id it receives.
pub open spec fn entry_data(es: Seq<SourceEntry>) -> Map<int, Seq<u8>>
    decreases es.len(),
{
    if es.len() == 0 {
        Map::<int, Seq<u8>>::empty()
    } else {
        let m = entry_data(es.drop_last());
        if es.last().kind == crate::KIND_FILE || es.last().kind == crate::KIND_SYMLINK {
            m.insert(es.len() as int, es.last().data@)
        } else {
            m
        }
    }
}

/// The slice layout that a list of entries produces under the packer's fill
/// rule.
pub open spec fn layout_of_entries(es: Seq<SourceEntry>) -> PackLayout
    decreases es.len(),
{
    if es.len() == 0 {
        layout_empty()
    } else {
        let st = layout_of_entries(es.drop_last());
        let e = es.last();
        if e.kind == crate::KIND_FILE {
            layout_add_file(st, es.len() as int, 0, e.data@.len() as int)
        } else if e.kind == crate::KIND_SYMLINK {
            layout_add_symlink(st, es.len() as int, e.data@.len() as int)
        } else {
            st
        }
    }
}

/// A well-formed entry list: every kind one of the three, every parent the
/// root or an earlier directory entry.
pub open spec fn valid_entries(es: Seq<SourceEntry>) -> bool {
    forall|k: int|
        0 <= k < es.len() ==> {
            let e = #[trigger] es[k];
            &&& (e.kind == crate::KIND_FILE || e.kind == crate::KIND_DIRECTORY || e.kind
                == crate::KIND_SYMLINK)
            &&& (e.parent == 0 || (1 <= e.parent <= k && es[e.parent - 1].kind
                == crate::KIND_DIRECTORY))
        }
}

/// The archive that a list of entries builds: well-formed for the entries'
/// data, its item table the entries' rows, and its slice table exactly what
/// the packer's fill rule lays out.
pub open spec fn built_archive(
    es: Seq<SourceEntry>,
    m: StoreModel,
    files: Map<int, Seq<u8>>,
) -> bool {
    &&& archive_wf(m, files)
    &&& m.items == entry_items(es)
    &&& files == entry_data(es)
    &&& m.slices == layout_finish(layout_of_entries(es)).flushed
    &&& m.contents.len() == layout_finish(layout_of_entries(es)).bundles
}


/// Checks that a list of entries is well-formed before any of it is built:
/// every kind one of the three, every parent the root or an earlier
/// directory entry.
fn check_entries(entries: &Vec<SourceEntry>) -> (b: bool)
    ensures
        b == valid_entries(entries@),
{
    let n = entries.len();
    let mut idx: usize = 0;
    while idx < n
        invariant
            n == entries@.len(),
            idx <= n,
            valid_entries(entries@.take(idx as int)),
        decreases n - idx,
    {
        let ghost taken = entries@.take(idx as int);
        let ghost taken1 = entries@.take(idx as int + 1);
        proof {
            assert(taken1.drop_last() =~= taken);
            assert(taken1.last() == entries@[idx as int]);
        }
        let e = &entries[idx];
        let kind_ok = e.kind == crate::KIND_FILE || e.kind == crate::KIND_DIRECTORY || e.kind
            == crate::KIND_SYMLINK;
        let mut parent_ok = e.parent == 0;
        if !parent_ok && 1 <= e.parent && (e.parent as u64) <= (idx as u64) {
            parent_ok = entries[(e.parent - 1) as usize].kind == crate::KIND_DIRECTORY;
        }
        if !(kind_ok && parent_ok) {
            proof {
                let ev = entries@[idx as int];
                assert(!(ev.kind == crate::KIND_FILE || ev.kind == crate::KIND_DIRECTORY
                    || ev.kind == crate::KIND_SYMLINK) || !(ev.parent == 0 || (1 <= ev.parent
                    <= idx as int && entries@[ev.parent - 1].kind == crate::KIND_DIRECTORY)));
                assert(!valid_entries(entries@));
            }
            return false;
        }
        proof {
            let ev = entries@[idx as int];
            assert forall|k: int| 0 <= k < taken1.len() implies {
                let q = #[trigger] taken1[k];
                &&& (q.kind == crate::KIND_FILE || q.kind == crate::KIND_DIRECTORY || q.kind
                    == crate::KIND_SYMLINK)
                &&& (q.parent == 0 || (1 <= q.parent <= k && taken1[q.parent - 1].kind
                    == crate::KIND_DIRECTORY))
            } by {
                if k < idx as int {
                    assert(taken1[k] == taken[k]);
                    if taken[k].parent != 0 {
                        assert(taken1[taken[k].parent - 1] == taken[taken[k].parent - 1]);
                    }
                } else {
                    assert(taken1[k] == ev);
                    if ev.parent != 0 {
                        assert(taken1[ev.parent - 1] == entries@[ev.parent - 1]);
                    }
                }
            }
            assert(valid_entries(taken1));
        }
        idx = idx + 1;
    }
    proof {
        assert(entries@.take(n as int) =~= entries@);
    }
    true
}

/// Create an archive at `pack` holding all of the given entries, in order.
/// Returns the number of files added. An ill-formed list (an unknown kind,
/// or a parent that is not an earlier directory entry) is refused up front,
/// before anything is built; a well-formed one fails only on a store or
/// codec error.
#[verifier::rlimit(100)]
pub fn build_archive(pack: &str, entries: &Vec<SourceEntry>) -> (r: Result<u64, Error>)
    ensures
        r matches Ok(n) ==> {
            &&& n as int == count_files(entries@)
            &&& valid_entries(entries@)
            &&& exists|m: StoreModel, files: Map<int, Seq<u8>>| #[trigger] built_archive(
                entries@,
                m,
                files,
            )
        },
        !valid_entries(entries@) ==> r == Err::<u64, Error>(Error::Database),
{
    if !check_entries(entries) {
        return Err(Error::Database);
    }
    let mut builder = match PackBuilder::new() {
        Ok(b) => b,
        Err(e) => {
            return Err(e);
        },
    };
    let mut count: u64 = 0;
    let mut idx: usize = 0;
    while idx < entries.len()
        invariant
            valid_entries(entries@),
            builder.wf(),
            builder.intact(),
            idx <= entries@.len(),
            count as int == count_files(entries@.take(idx as int)),
            count <= idx,
            builder.model().items == entry_items(entries@.take(idx as int)),
            builder.data_map() == entry_data(entries@.take(idx as int)),
            builder.layout() == layout_of_entries(entries@.take(idx as int)),
            valid_entries(entries@.take(idx as int)),
        decreases entries@.len() - idx,
    {
        let ghost b0 = builder;
        let ghost taken = entries@.take(idx as int);
        let ghost taken1 = entries@.take(idx as int + 1);
        proof {
            assert(taken1.drop_last() =~= taken);
            assert(taken1.last() == entries@[idx as int]);
        }
        let e = &entries[idx];
        if e.kind == crate::KIND_DIRECTORY {
            match builder.add_directory(e.path.as_str(), e.parent) {
                Ok(_) => {},
                Err(err) => {
                    return Err(err);
                },
            }
        } else if e.kind == crate::KIND_FILE {
            match builder.add_file(e.path.as_str(), e.parent, e.data.as_slice()) {
                Ok(_) => {},
                Err(err) => {
                    return Err(err);
                },
            }
            count = count + 1;
        } else if e.kind == crate::KIND_SYMLINK {
            match builder.add_symlink(e.path.as_str(), e.parent, e.data.as_slice()) {
                Ok(_) => {},
                Err(err) => {
                    return Err(err);
                },
            }
        } else {
            return Err(Error::Database);
        }
        proof {
            let ev = entries@[idx as int];
            // the call was refused unless the parent was the root or an
            // earlier directory entry, so the accepted entry is valid
            assert(ev.parent == 0 || (1 <= ev.parent <= idx as int && b0.model().items[ev.parent
                - 1].kind == crate::KIND_DIRECTORY as int));
            assert(valid_entries(taken1)) by {
                assert forall|k: int| 0 <= k < taken1.len() implies {
                    let q = #[trigger] taken1[k];
                    &&& (q.kind == crate::KIND_FILE || q.kind == crate::KIND_DIRECTORY || q.kind
                        == crate::KIND_SYMLINK)
                    &&& (q.parent == 0 || (1 <= q.parent <= k && taken1[q.parent - 1].kind
                        == crate::KIND_DIRECTORY))
                } by {
                    if k < idx as int {
                        assert(taken1[k] == taken[k]);
                        if taken[k].parent != 0 {
                            assert(taken1[taken[k].parent - 1] == taken[taken[k].parent - 1]);
                        }
                    } else {
                        assert(taken1[k] == ev);
                        if ev.parent != 0 {
                            assert(b0.model().items[ev.parent - 1] == entry_items(taken)[ev.parent
                                - 1]);
                            assert(entry_items(taken)[ev.parent - 1] == entry_item_row(
                                taken[ev.parent - 1],
                                ev.parent as int,
                            ));
                            assert(taken1[ev.parent - 1] == taken[ev.parent - 1]);
                        }
                    }
                }
            }
            assert(builder.model().items =~= entry_items(taken1)) by {
                assert(builder.model().items == b0.model().items.push(
                    entry_item_row(ev, idx as int + 1),
                ));
                assert(forall|k: int|
                    0 <= k < taken.len() ==> #[trigger] entry_items(taken1)[k] == entry_item_row(
                        taken[k],
                        k + 1,
                    ));
            }
            assert(builder.data_map() =~= entry_data(taken1));
            assert(builder.layout() == layout_of_entries(taken1));
        }
        idx = idx + 1;
    }
    proof {
        assert(entries@.take(entries@.len() as int) =~= entries@);
    }
    match builder.finish(pack) {
        Ok(()) => {
            proof {
                assert(built_archive(entries@, builder.model(), builder.data_map()));
            }
            Ok(count)
        },
        Err(e) => Err(e),
    }
}

} // verus!
