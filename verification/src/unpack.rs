//! Reading an archive.
//!
//! The reader materializes every item's full path from the tree, then turns
//! the slice table into a scatter plan: an ordered list of write actions,
//! each carrying a sanitized path, an offset within the item, and the bytes
//! to put there. Slices arrive in insertion order; a bundle is decompressed
//! once per consecutive run of its slices. A well-formed archive's slice
//! table is grouped by bundle in ascending position (`archive_wf` states
//! it), so on every archive this library builds each bundle is decompressed
//! exactly once and the plan follows the bundle, position order.
//!
//! Items whose parent does not resolve to an earlier directory item are
//! treated as roots; slices of unknown or directory items are dropped, as a
//! recursive path index over the tree would drop them. Parents are resolved
//! by position: in an archive whose item ids are not exactly 1, 2, 3, ...
//! (this library only writes such archives) every item counts as a root and
//! keeps only its own name.

use vstd::prelude::*;
use crate::Error;
use crate::path::sanitize_path;
use crate::path::path_is_clean;
use crate::path::spec_sanitize;
use crate::store::Entry;
use crate::store::ItemRow;
use crate::store::SliceInfo;
use crate::store::SliceRow;
use crate::store::Store;
use crate::store::StoreModel;
use crate::store::items_sequential;
use crate::store::contents_sequential;
use crate::store::content_bytes_of;
use crate::archive::bundle_of;
use crate::archive::item_slices;
use crate::archive::lemma_item_slices_push;
use crate::codec::decompress;

verus! {

/// The full path of item `i` (1-based): the names along its parent chain,
/// each directory name followed by a separator. An item whose parent is not
/// an earlier directory item counts as a root.
pub open spec fn item_path(items: Seq<ItemRow>, i: int) -> Seq<char>
    decreases i,
{
    if 1 <= i <= items.len() {
        let it = items[i - 1];
        let base = it.name + if it.kind == crate::KIND_DIRECTORY as int {
            seq!['/']
        } else {
            Seq::<char>::empty()
        };
        if 1 <= it.parent < i && items[it.parent - 1].kind == crate::KIND_DIRECTORY as int {
            item_path(items, it.parent) + base
        } else {
            base
        }
    } else {
        Seq::<char>::empty()
    }
}

/// One write of the scatter plan: put `bytes` at offset `itempos` of the
/// file (or symbolic link) at the sanitized `path`.
pub struct WriteAction {
    /// Sanitized path of the item, relative to the working directory.
    pub path: String,
    /// Kind of the item: file or symlink.
    pub kind: i8,
    /// The id of the item row, for reference.
    pub item: i64,
    /// Offset within the item at which the bytes belong.
    pub itempos: u64,
    /// The bytes themselves.
    pub bytes: Vec<u8>,
}

/// Ghost form of a write action.
pub struct ActionModel {
    pub path: Seq<char>,
    pub kind: int,
    pub item: int,
    pub itempos: int,
    pub bytes: Seq<u8>,
}

impl View for WriteAction {
    type V = ActionModel;

    open spec fn view(&self) -> ActionModel {
        ActionModel {
            path: self.path@,
            kind: self.kind as int,
            item: self.item as int,
            itempos: self.itempos as int,
            bytes: self.bytes@,
        }
    }
}

/// A slice that extraction acts on: its item exists and is not a directory.
pub open spec fn slice_kept(items: Seq<ItemRow>, s: SliceRow) -> bool {
    1 <= s.item <= items.len() && items[s.item - 1].kind != crate::KIND_DIRECTORY as int
}

/// The slices extraction acts on, in insertion order.
pub open spec fn kept_slices(items: Seq<ItemRow>, ss: Seq<SliceRow>) -> Seq<SliceRow> {
    ss.filter(|s: SliceRow| slice_kept(items, s))
}

/// How `kept_slices` treats an appended slice.
pub proof fn lemma_kept_push(items: Seq<ItemRow>, ss: Seq<SliceRow>, x: SliceRow)
    ensures
        kept_slices(items, ss.push(x)) == if slice_kept(items, x) {
            kept_slices(items, ss).push(x)
        } else {
            kept_slices(items, ss)
        },
{
    reveal(Seq::filter);
    assert(ss.push(x).drop_last() =~= ss);
}

/// The action restores exactly the byte range that the slice maps: right
/// item, right offset, the bytes of the decompressed bundle range, and the
/// item's sanitized full path.
pub open spec fn act_matches_slice(m: StoreModel, a: ActionModel, s: SliceRow) -> bool {
    &&& a.item == s.item
    &&& a.itempos == s.itempos
    &&& a.bytes.len() == s.size
    &&& 1 <= s.item <= m.items.len()
    &&& a.kind == m.items[s.item - 1].kind
    &&& a.kind != crate::KIND_DIRECTORY as int
    &&& 1 <= s.content <= m.contents.len()
    &&& 0 <= s.contentpos
    &&& 0 <= s.itempos
    &&& s.contentpos + s.size <= bundle_of(m, s.content).len()
    &&& a.bytes == bundle_of(m, s.content).subrange(s.contentpos, s.contentpos + s.size)
    &&& a.path == spec_sanitize(item_path(m.items, s.item))
}

/// A creation action for a file item that has no slices: it writes nothing,
/// but makes extraction create the (empty) file.
pub open spec fn touch_act(m: StoreModel, a: ActionModel) -> bool {
    &&& 1 <= a.item <= m.items.len()
    &&& m.items[a.item - 1].kind == crate::KIND_FILE as int
    &&& a.kind == crate::KIND_FILE as int
    &&& a.itempos == 0
    &&& a.bytes.len() == 0
    &&& item_slices(m.slices, a.item).len() == 0
    &&& a.path == spec_sanitize(item_path(m.items, a.item))
}

/// The scatter plan mirrors the archive: first one action per kept slice,
/// in insertion order, then one creation action per file item without
/// slices, no item twice.
pub open spec fn extract_plan_matches(m: StoreModel, plan: Seq<ActionModel>) -> bool {
    let kept = kept_slices(m.items, m.slices);
    &&& plan.len() >= kept.len()
    &&& forall|k: int| 0 <= k < kept.len() ==> act_matches_slice(m, #[trigger] plan[k], kept[k])
    &&& forall|k: int| kept.len() <= k < plan.len() ==> touch_act(m, #[trigger] plan[k])
    &&& forall|k1: int, k2: int|
        kept.len() <= k1 < k2 < plan.len() ==> plan[k1].item != plan[k2].item
}

/// The ghost view of a list of write actions.
pub open spec fn plan_view(pv: Seq<WriteAction>) -> Seq<ActionModel> {
    pv.map_values(|a: WriteAction| a@)
}

/// The scan's invariant after the first `k` slice rows were handled: the
/// plan so far mirrors the kept slices among them (when the archive has
/// sequential ids), the seen marks say which file items have slices among
/// them, and every planned path is clean.
pub open spec fn scan_inv(m: StoreModel, plan: Seq<ActionModel>, seen: Seq<bool>, k: int) -> bool {
    &&& (items_sequential(m) && contents_sequential(m)) ==> {
        let kept = kept_slices(m.items, m.slices.take(k));
        &&& plan.len() == kept.len()
        &&& forall|j: int| 0 <= j < kept.len() ==> act_matches_slice(m, #[trigger] plan[j], kept[j])
        &&& forall|idx: int|
            0 <= idx < seen.len() ==> ((#[trigger] seen[idx]) <==> (m.items[idx].kind
                == crate::KIND_FILE as int && item_slices(m.slices.take(k), idx + 1).len() > 0))
    }
    &&& forall|j: int| 0 <= j < plan.len() ==> path_is_clean((#[trigger] plan[j]).path)
}

/// Copies `src[from .. from + count]` into a fresh vector.
fn copy_range(src: &Vec<u8>, from: usize, count: usize) -> (r: Vec<u8>)
    requires
        from + count <= src@.len(),
    ensures
        r@ == src@.subrange(from as int, from as int + count as int),
{
    let n = src.len();
    let mut out: Vec<u8> = Vec::new();
    let mut j: usize = 0;
    while j < count
        invariant
            from + count <= n == src@.len(),
            j <= count,
            out@ == src@.subrange(from as int, from as int + j as int),
        decreases count - j,
    {
        let b = src[from + j];
        out.push(b);
        proof {
            assert(out@ =~= src@.subrange(from as int, from as int + j as int + 1));
        }
        j = j + 1;
    }
    proof {
        assert(out@ =~= src@.subrange(from as int, from as int + count as int));
    }
    out
}

/// Reads the contents of an archive.
pub struct PackReader {
    store: Store,
}

impl PackReader {
    /// The model of the archive's tables.
    pub closed spec fn model(&self) -> StoreModel {
        self.store@
    }

    /// Construct a new `PackReader` that will read from the pack file at the
    /// given location.
    pub fn new(path: &str) -> (r: Result<PackReader, Error>)
    {
        let store = match Store::open(path) {
            Ok(s) => s,
            Err(e) => {
                return Err(e);
            },
        };
        Ok(PackReader { store })
    }

    /// The items of the archive with their full paths, in id order. For an
    /// archive with sequential ids and well-parented items (every archive
    /// this library builds), entry `k` carries the full path of item `k+1`.
    fn load_paths(&self) -> (r: Result<(Vec<Entry>, Vec<String>), Error>)
        ensures
            r matches Ok(p) ==> {
                &&& p.0@.map_values(|e: Entry| e@) == self.model().items
                &&& p.1@.len() == p.0@.len()
                &&& items_sequential(self.model()) ==> forall|k: int|
                    0 <= k < p.1@.len() ==> (#[trigger] p.1@[k])@ == item_path(
                        self.model().items,
                        k + 1,
                    )
            },
    {
        let ghost m = self.model();
        let items = match self.store.load_items() {
            Ok(v) => v,
            Err(e) => {
                return Err(e);
            },
        };
        let n = items.len();
        let mut paths: Vec<String> = Vec::new();
        let mut idx: usize = 0;
        while idx < n
            invariant
                items@.map_values(|e: Entry| e@) == m.items,
                n == items@.len(),
                idx <= n,
                paths@.len() == idx,
                items_sequential(m) ==> forall|k: int|
                    0 <= k < idx ==> (#[trigger] paths@[k])@ == item_path(m.items, k + 1),
            decreases n - idx,
        {
            let e = &items[idx];
            proof {
                assert(items@[idx as int]@ == m.items[idx as int]);
            }
            let mut full: String = String::new();
            let p = e.parent;
            if 1 <= p && p <= idx as i64 {
                let pi = (p - 1) as usize;
                proof {
                    assert(items@[pi as int]@ == m.items[pi as int]);
                }
                if items[pi].kind == crate::KIND_DIRECTORY && items[pi].id == p {
                    full = full.concat(paths[pi].as_str());
                }
            }
            full.append(e.name.as_str());
            if e.kind == crate::KIND_DIRECTORY {
                full.append("/");
            }
            proof {
                reveal_strlit("/");
                if items_sequential(m) {
                    let i = idx as int + 1;
                    let it = m.items[idx as int];
                    assert(it.id == i);
                    assert(e.parent as int == it.parent && e.kind as int == it.kind && e.name@
                        == it.name);
                    let base = it.name + if it.kind == crate::KIND_DIRECTORY as int {
                        seq!['/']
                    } else {
                        Seq::<char>::empty()
                    };
                    if 1 <= it.parent < i && m.items[it.parent - 1].kind
                        == crate::KIND_DIRECTORY as int {
                        assert(m.items[it.parent - 1].id == it.parent);
                        assert(full@ =~= item_path(m.items, it.parent) + base);
                    } else {
                        if 1 <= p && p <= idx as i64 {
                            assert(m.items[p - 1].id == p as int);
                        }
                        assert(full@ =~= base);
                    }
                    assert(full@ == item_path(m.items, i));
                }
            }
            paths.push(full);
            idx = idx + 1;
        }
        Ok((items, paths))
    }

    /// Process a single content bundle: starting at row `start`, whose
    /// bundle the run is about, decompress that bundle once and emit one
    /// write action per kept row of the consecutive run sharing it. Returns
    /// the index of the first row past the run.
    fn process_content(
        &self,
        items: &Vec<Entry>,
        paths: &Vec<String>,
        slices: &Vec<SliceInfo>,
        start: usize,
        plan: &mut Vec<WriteAction>,
        seen: &mut Vec<bool>,
    ) -> (r: Result<usize, Error>)
        requires
            items@.map_values(|e: Entry| e@) == self.model().items,
            slices@.map_values(|s: SliceInfo| s@) == self.model().slices,
            paths@.len() == items@.len(),
            items_sequential(self.model()) ==> forall|k: int|
                0 <= k < paths@.len() ==> (#[trigger] paths@[k])@ == item_path(
                    self.model().items,
                    k + 1,
                ),
            old(seen)@.len() == items@.len(),
            start < slices@.len(),
            scan_inv(self.model(), plan_view(old(plan)@), old(seen)@, start as int),
        ensures
            final(seen)@.len() == items@.len(),
            r matches Ok(e) ==> {
                &&& start < e <= slices@.len()
                &&& scan_inv(self.model(), plan_view(final(plan)@), final(seen)@, e as int)
            },
    {
        let ghost m = self.model();
        let nitems = items.len();
        let c = slices[start].content;
        let raw = match self.store.read_content(c) {
            Ok(v) => v,
            Err(e) => {
                return Err(e);
            },
        };
        let buf = match decompress(&raw) {
            Ok(v) => v,
            Err(e) => {
                return Err(e);
            },
        };
        proof {
            if contents_sequential(m) {
                assert(content_bytes_of(m, c as int) == Some(raw@));
                let kk = choose|kk: int|
                    0 <= kk < m.contents.len() && (#[trigger] m.contents[kk]).id == c as int;
                assert(m.contents[kk].id == kk + 1);
                assert(1 <= c as int <= m.contents.len());
                assert(raw@ == m.contents[c - 1].bytes);
                assert(buf@ == bundle_of(m, c as int));
            }
        }
        let ns = slices.len();
        let mut k = start;
        while k < ns && slices[k].content == c
            invariant
                items@.map_values(|e: Entry| e@) == m.items,
                slices@.map_values(|s: SliceInfo| s@) == m.slices,
                m == self.model(),
                paths@.len() == items@.len(),
                nitems == items@.len(),
                items_sequential(m) ==> forall|j: int|
                    0 <= j < paths@.len() ==> (#[trigger] paths@[j])@ == item_path(m.items, j + 1),
                seen@.len() == items@.len(),
                ns == slices@.len(),
                start <= k <= ns,
                start < ns,
                k == start ==> (k < ns && slices@[k as int].content == c),
                slices@[start as int].content == c,
                contents_sequential(m) ==> (1 <= c as int <= m.contents.len() && buf@ == bundle_of(
                    m,
                    c as int,
                )),
                scan_inv(m, plan_view(plan@), seen@, k as int),
            decreases ns - k,
        {
            let s = slices[k];
            let ghost sv = m.slices[k as int];
            let ghost pv0 = plan_view(plan@);
            let ghost seen0 = seen@;
            let ghost cond = items_sequential(m) && contents_sequential(m);
            proof {
                assert(slices@[k as int]@ == m.slices[k as int]);
                assert(m.slices.take(k as int + 1) =~= m.slices.take(k as int).push(sv));
                lemma_kept_push(m.items, m.slices.take(k as int), sv);
            }
            let mut dropped = true;
            if s.item >= 1 && (s.item as u64) <= (nitems as u64) {
                let idx = (s.item - 1) as usize;
                proof {
                    assert(items@[idx as int]@ == m.items[idx as int]);
                }
                if items[idx].id == s.item && items[idx].kind != crate::KIND_DIRECTORY {
                    dropped = false;
                    if s.itempos < 0 || s.contentpos < 0 || s.size < 0 {
                        return Err(Error::Database);
                    }
                    let blen = buf.len() as u64;
                    if (s.contentpos as u64) > blen || (s.size as u64) > blen - (s.contentpos
                        as u64) {
                        return Err(Error::Database);
                    }
                    let cp = s.contentpos as usize;
                    let sz = s.size as usize;
                    let bytes = copy_range(&buf, cp, sz);
                    let clean = match sanitize_path(paths[idx].as_str()) {
                        Ok(p) => p,
                        Err(e) => {
                            return Err(e);
                        },
                    };
                    let act = WriteAction {
                        path: clean,
                        kind: items[idx].kind,
                        item: s.item,
                        itempos: s.itempos as u64,
                        bytes,
                    };
                    let ghost av = act@;
                    if items[idx].kind == crate::KIND_FILE {
                        seen.set(idx, true);
                    }
                    plan.push(act);
                    proof {
                        assert(plan_view(plan@) =~= pv0.push(av));
                        assert(slice_kept(m.items, sv));
                        if cond {
                            assert(act_matches_slice(m, av, sv)) by {
                                assert(av.bytes == buf@.subrange(
                                    sv.contentpos,
                                    sv.contentpos + sv.size,
                                ));
                                assert(av.path == spec_sanitize(item_path(m.items, sv.item)));
                            }
                            let keptk = kept_slices(m.items, m.slices.take(k as int));
                            let keptk1 = kept_slices(m.items, m.slices.take(k as int + 1));
                            assert(keptk1 == keptk.push(sv));
                            assert forall|j: int|
                                0 <= j < keptk1.len() implies act_matches_slice(
                                m,
                                #[trigger] plan_view(plan@)[j],
                                keptk1[j],
                            ) by {
                                if j < keptk.len() {
                                    assert(plan_view(plan@)[j] == pv0[j]);
                                    assert(keptk1[j] == keptk[j]);
                                }
                            }
                            assert forall|ii: int|
                                0 <= ii < seen@.len() implies ((#[trigger] seen@[ii]) <==> (
                            m.items[ii].kind == crate::KIND_FILE as int && item_slices(
                                m.slices.take(k as int + 1),
                                ii + 1,
                            ).len() > 0)) by {
                                lemma_item_slices_push(m.slices.take(k as int), sv, ii + 1);
                                if ii == idx as int {
                                    if m.items[ii].kind == crate::KIND_FILE as int {
                                        assert(seen@[ii]);
                                    } else {
                                        assert(seen@ == seen0);
                                        assert(!seen0[ii]);
                                    }
                                } else {
                                    assert(seen@[ii] == seen0[ii]);
                                    assert(sv.item != ii + 1);
                                }
                            }
                        }
                    }
                } else {
                    proof {
                        if cond {
                            assert(m.items[idx as int].id == idx as int + 1);
                            assert(items@[idx as int].id == s.item);
                            assert(m.items[sv.item - 1].kind == crate::KIND_DIRECTORY as int);
                            assert(!slice_kept(m.items, sv));
                        }
                    }
                }
            } else {
                proof {
                    assert(!(1 <= sv.item <= m.items.len()));
                    assert(!slice_kept(m.items, sv));
                }
            }
            proof {
                if dropped && cond {
                    assert(!slice_kept(m.items, sv));
                    assert(kept_slices(m.items, m.slices.take(k as int + 1)) == kept_slices(
                        m.items,
                        m.slices.take(k as int),
                    ));
                    assert forall|ii: int|
                        0 <= ii < seen@.len() implies ((#[trigger] seen@[ii]) <==> (m.items[ii].kind
                        == crate::KIND_FILE as int && item_slices(
                        m.slices.take(k as int + 1),
                        ii + 1,
                    ).len() > 0)) by {
                        lemma_item_slices_push(m.slices.take(k as int), sv, ii + 1);
                        if sv.item == ii + 1 {
                            assert(m.items[ii].kind != crate::KIND_FILE as int);
                            assert(!seen@[ii]);
                        }
                    }
                }
            }
            k = k + 1;
        }
        Ok(k)
    }

    /// Build the scatter plan for the whole archive: one action per slice of
    /// every existing non-directory item, bundles decompressed once per
    /// consecutive run, then one creation action per file item that has no
    /// slices, so that extraction also creates such empty files. Every
    /// action's path is sanitized. Applying the actions in order under the
    /// working directory restores every item's bytes. As in `entries`, an
    /// item whose parent does not resolve is deliberately kept as a root
    /// rather than dropped.
    pub fn extract_all(&self) -> (r: Result<Vec<WriteAction>, Error>)
        ensures
            r matches Ok(plan) ==> {
                &&& forall|k: int|
                    0 <= k < plan@.len() ==> path_is_clean((#[trigger] plan@[k])@.path)
                &&& items_sequential(self.model()) && contents_sequential(self.model())
                    ==> extract_plan_matches(self.model(), plan_view(plan@))
            },
    {
        let ghost m = self.model();
        let (items, paths) = match self.load_paths() {
            Ok(p) => p,
            Err(e) => {
                return Err(e);
            },
        };
        let slices = match self.store.load_slices() {
            Ok(v) => v,
            Err(e) => {
                return Err(e);
            },
        };
        let nitems = items.len();
        let mut seen: Vec<bool> = Vec::new();
        let mut t: usize = 0;
        while t < nitems
            invariant
                seen@.len() == t,
                t <= nitems,
                forall|j: int| 0 <= j < t ==> !(#[trigger] seen@[j]),
            decreases nitems - t,
        {
            seen.push(false);
            t = t + 1;
        }
        let mut plan: Vec<WriteAction> = Vec::new();
        let ns = slices.len();
        let mut k: usize = 0;
        proof {
            assert(m.slices.take(0) =~= Seq::<SliceRow>::empty());
            reveal(Seq::filter);
            assert(kept_slices(m.items, m.slices.take(0)).len() == 0);
            assert(plan_view(plan@).len() == 0);
            assert forall|ii: int|
                0 <= ii < seen@.len() implies ((#[trigger] seen@[ii]) <==> (m.items[ii].kind
                == crate::KIND_FILE as int && item_slices(m.slices.take(0), ii + 1).len() > 0)) by {
                assert(item_slices(m.slices.take(0), ii + 1).len() == 0);
                assert(!seen@[ii]);
            }
        }
        while k < ns
            invariant
                items@.map_values(|e: Entry| e@) == m.items,
                slices@.map_values(|s: SliceInfo| s@) == m.slices,
                m == self.model(),
                paths@.len() == items@.len(),
                nitems == items@.len(),
                items_sequential(m) ==> forall|j: int|
                    0 <= j < paths@.len() ==> (#[trigger] paths@[j])@ == item_path(m.items, j + 1),
                seen@.len() == items@.len(),
                ns == slices@.len(),
                k <= ns,
                scan_inv(m, plan_view(plan@), seen@, k as int),
            decreases ns - k,
        {
            let next = match self.process_content(&items, &paths, &slices, k, &mut plan, &mut seen)
                {
                Ok(e) => e,
                Err(e) => {
                    return Err(e);
                },
            };
            k = next;
        }
        proof {
            assert(m.slices.take(ns as int) =~= m.slices);
        }
        let t0 = plan.len();
        let ghost plan0 = plan_view(plan@);
        let mut idx: usize = 0;
        while idx < nitems
            invariant
                items@.map_values(|e: Entry| e@) == m.items,
                m == self.model(),
                paths@.len() == items@.len(),
                nitems == items@.len(),
                items_sequential(m) ==> forall|j: int|
                    0 <= j < paths@.len() ==> (#[trigger] paths@[j])@ == item_path(m.items, j + 1),
                seen@.len() == items@.len(),
                idx <= nitems,
                t0 as int == plan0.len(),
                plan@.len() >= t0,
                plan_view(plan@).take(t0 as int) == plan0,
                scan_inv(m, plan0, seen@, m.slices.len() as int),
                m.slices.take(m.slices.len() as int) == m.slices,
                forall|j: int|
                    t0 <= j < plan@.len() ==> path_is_clean(
                        (#[trigger] plan_view(plan@)[j]).path,
                    ),
                items_sequential(m) && contents_sequential(m) ==> forall|j: int|
                    t0 <= j < plan@.len() ==> touch_act(m, #[trigger] plan_view(plan@)[j]),
                items_sequential(m) && contents_sequential(m) ==> forall|j: int|
                    t0 <= j < plan@.len() ==> (#[trigger] plan_view(plan@)[j]).item <= idx as int,
                items_sequential(m) && contents_sequential(m) ==> forall|j1: int, j2: int|
                    t0 <= j1 < j2 < plan@.len() ==> plan_view(plan@)[j1].item != plan_view(
                        plan@,
                    )[j2].item,
            decreases nitems - idx,
        {
            proof {
                assert(items@[idx as int]@ == m.items[idx as int]);
            }
            if items[idx].kind == crate::KIND_FILE && !seen[idx] {
                let clean = match sanitize_path(paths[idx].as_str()) {
                    Ok(p) => p,
                    Err(e) => {
                        return Err(e);
                    },
                };
                let ghost pv0 = plan_view(plan@);
                let act = WriteAction {
                    path: clean,
                    kind: crate::KIND_FILE,
                    item: items[idx].id,
                    itempos: 0,
                    bytes: Vec::new(),
                };
                let ghost av = act@;
                plan.push(act);
                proof {
                    assert(plan_view(plan@) =~= pv0.push(av));
                    assert(plan_view(plan@).take(t0 as int) =~= pv0.take(t0 as int));
                    if items_sequential(m) && contents_sequential(m) {
                        assert(m.items[idx as int].id == idx as int + 1);
                        assert(av.item == idx as int + 1);
                        assert(touch_act(m, av)) by {
                            assert(!seen@[idx as int]);
                            assert(m.items[idx as int].kind == crate::KIND_FILE as int);
                            assert(item_slices(m.slices, idx as int + 1).len() == 0);
                            assert(av.path == spec_sanitize(item_path(m.items, idx as int + 1)));
                        }
                    }
                }
            }
            idx = idx + 1;
        }
        proof {
            let pv = plan_view(plan@);
            assert forall|j: int|
                0 <= j < plan@.len() implies path_is_clean((#[trigger] plan@[j])@.path) by {
                assert(pv[j] == plan@[j]@);
                if j < t0 {
                    assert(pv[j] == plan0[j]);
                }
            }
            if items_sequential(m) && contents_sequential(m) {
                let kept = kept_slices(m.items, m.slices);
                assert(t0 as int == kept.len());
                assert forall|j: int| 0 <= j < kept.len() implies act_matches_slice(
                    m,
                    #[trigger] pv[j],
                    kept[j],
                ) by {
                    assert(pv[j] == plan0[j]);
                }
            }
        }
        Ok(plan)
    }

    /// Return all items in the archive with the `name` as the full path, in
    /// id order. Directory entries have a path that ends with a slash (/).
    /// This is deliberate for ill-formed archives too: an item whose parent
    /// does not resolve to an earlier directory item is listed as a root
    /// under its own name rather than dropped, so no item is silently
    /// omitted; `item_path` states that choice.
    pub fn entries(&self) -> (r: Result<Vec<Entry>, Error>)
        ensures
            r matches Ok(v) ==> {
                &&& v@.len() == self.model().items.len()
                &&& forall|k: int|
                    0 <= k < v@.len() ==> {
                        let it = self.model().items[k];
                        &&& (#[trigger] v@[k]).id as int == it.id
                        &&& v@[k].parent as int == it.parent
                        &&& v@[k].kind as int == it.kind
                    }
                &&& items_sequential(self.model()) ==> forall|k: int|
                    0 <= k < v@.len() ==> (#[trigger] v@[k]).name@ == item_path(
                        self.model().items,
                        k + 1,
                    )
            },
    {
        let ghost m = self.model();
        let (items, paths) = match self.load_paths() {
            Ok(p) => p,
            Err(e) => {
                return Err(e);
            },
        };
        let n = items.len();
        let mut out: Vec<Entry> = Vec::new();
        let mut idx: usize = 0;
        while idx < n
            invariant
                items@.map_values(|e: Entry| e@) == m.items,
                n == items@.len() == paths@.len(),
                idx <= n,
                out@.len() == idx,
                forall|k: int|
                    0 <= k < idx ==> {
                        let it = m.items[k];
                        &&& (#[trigger] out@[k]).id as int == it.id
                        &&& out@[k].parent as int == it.parent
                        &&& out@[k].kind as int == it.kind
                        &&& out@[k].name@ == paths@[k]@
                    },
            decreases n - idx,
        {
            let e = &items[idx];
            proof {
                assert(items@[idx as int]@ == m.items[idx as int]);
            }
            let name = paths[idx].clone();
            out.push(Entry { id: e.id, parent: e.parent, kind: e.kind, name });
            idx = idx + 1;
        }
        Ok(out)
    }
}

} // verus!
