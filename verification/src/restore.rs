//! What applying a scatter plan does to a file, and the round-trip laws.
//!
//! A write action seeks to its offset (extending the file with zeros when it
//! is shorter) and writes its bytes. `apply_actions` is that semantics, one
//! action after the other. The laws: applied to the actions of a well-formed
//! archive's scatter plan, any file or symbolic-link item comes out with
//! exactly the bytes it went in with, whether the destination started empty
//! or holds the result of a previous extraction.

use vstd::prelude::*;
use crate::archive::archive_wf;
use crate::archive::item_slices;
use crate::archive::itempos_consecutive;
use crate::archive::lemma_item_slices_matches;
use crate::archive::lemma_item_slices_push;
use crate::archive::slice_matches;
use crate::store::ItemRow;
use crate::store::SliceRow;
use crate::store::StoreModel;
use crate::unpack::ActionModel;
use crate::unpack::act_matches_slice;
use crate::unpack::extract_plan_matches;
use crate::unpack::kept_slices;
use crate::unpack::slice_kept;
use crate::unpack::touch_act;

verus! {

/// One write at `pos`: the file is extended with zeros up to `pos` if it is
/// shorter, and `bytes` overwrite (or append to) it from there.
pub open spec fn apply_action(f: Seq<u8>, pos: int, bytes: Seq<u8>) -> Seq<u8> {
    if pos < 0 {
        f
    } else {
        let n = if pos + bytes.len() > f.len() {
            pos + bytes.len()
        } else {
            f.len() as int
        };
        Seq::new(
            n as nat,
            |j: int|
                if pos <= j < pos + bytes.len() {
                    bytes[j - pos]
                } else if j < f.len() {
                    f[j]
                } else {
                    0u8
                },
        )
    }
}

/// The writes of a plan, applied in order.
pub open spec fn apply_actions(f: Seq<u8>, acts: Seq<ActionModel>) -> Seq<u8>
    decreases acts.len(),
{
    if acts.len() == 0 {
        f
    } else {
        apply_action(apply_actions(f, acts.drop_last()), acts.last().itempos, acts.last().bytes)
    }
}

/// Some action of the plan writes position `j`.
pub open spec fn covered(acts: Seq<ActionModel>, j: int) -> bool {
    exists|k: int|
        0 <= k < acts.len() && (#[trigger] acts[k]).itempos <= j < acts[k].itempos
            + acts[k].bytes.len()
}

/// The farthest position any action writes up to.
pub open spec fn max_end(acts: Seq<ActionModel>) -> int
    decreases acts.len(),
{
    if acts.len() == 0 {
        0
    } else {
        let rest = max_end(acts.drop_last());
        let e = acts.last().itempos + acts.last().bytes.len();
        if e > rest {
            e
        } else {
            rest
        }
    }
}

/// No action writes past `max_end`, and `max_end` is no farther than any
/// bound that all actions respect.
pub proof fn lemma_max_end_bound(acts: Seq<ActionModel>)
    ensures
        forall|k: int|
            0 <= k < acts.len() ==> (#[trigger] acts[k]).itempos + acts[k].bytes.len() <= max_end(
                acts,
            ),
        max_end(acts) >= 0,
    decreases acts.len(),
{
    if acts.len() > 0 {
        let dl = acts.drop_last();
        assert(forall|k: int| 0 <= k < dl.len() ==> dl[k] == acts[k]);
        lemma_max_end_bound(dl);
    }
}

/// `max_end` respects any bound that all the actions respect.
pub proof fn lemma_max_end_le(acts: Seq<ActionModel>, bound: int)
    requires
        bound >= 0,
        forall|k: int|
            0 <= k < acts.len() ==> (#[trigger] acts[k]).itempos + acts[k].bytes.len() <= bound,
    ensures
        max_end(acts) <= bound,
    decreases acts.len(),
{
    if acts.len() > 0 {
        let dl = acts.drop_last();
        assert(forall|k: int| 0 <= k < dl.len() ==> dl[k] == acts[k]);
        lemma_max_end_le(dl, bound);
    }
}

/// What a partial plan leaves behind, position by position: positions some
/// action covers carry the archived bytes, the rest keep what was there, or
/// zero where the file was extended past its old end.
pub proof fn lemma_apply_partial(acts: Seq<ActionModel>, f: Seq<u8>, g: Seq<u8>)
    requires
        forall|k: int|
            0 <= k < acts.len() ==> {
                let a = #[trigger] acts[k];
                &&& 0 <= a.itempos
                &&& a.itempos + a.bytes.len() <= f.len()
                &&& a.bytes == f.subrange(a.itempos, a.itempos + a.bytes.len())
            },
        g.len() <= f.len(),
    ensures
        ({
            let r = apply_actions(g, acts);
            &&& r.len() == if max_end(acts) > g.len() {
                max_end(acts)
            } else {
                g.len() as int
            }
            &&& forall|j: int|
                0 <= j < r.len() ==> r[j] == if covered(acts, j) {
                    f[j]
                } else if j < g.len() {
                    g[j]
                } else {
                    0u8
                }
        }),
    decreases acts.len(),
{
    lemma_max_end_bound(acts);
    if acts.len() == 0 {
    } else {
        let dl = acts.drop_last();
        assert(forall|k: int| 0 <= k < dl.len() ==> dl[k] == acts[k]);
        lemma_apply_partial(dl, f, g);
        lemma_max_end_bound(dl);
        let r0 = apply_actions(g, dl);
        let a = acts.last();
        let r = apply_action(r0, a.itempos, a.bytes);
        assert(r == apply_actions(g, acts));
        assert forall|j: int|
            0 <= j < r.len() implies r[j] == if covered(acts, j) {
            f[j]
        } else if j < g.len() {
            g[j]
        } else {
            0u8
        } by {
            if a.itempos <= j < a.itempos + a.bytes.len() {
                assert(r[j] == a.bytes[j - a.itempos]);
                assert(a.bytes[j - a.itempos] == f[j]);
                assert(covered(acts, j)) by {
                    assert(acts[acts.len() - 1].itempos <= j < acts[acts.len() - 1].itempos
                        + acts[acts.len() - 1].bytes.len());
                }
            } else if j < r0.len() {
                assert(r[j] == r0[j]);
                assert(covered(acts, j) <==> covered(dl, j)) by {
                    if covered(acts, j) {
                        let k = choose|k: int|
                            0 <= k < acts.len() && (#[trigger] acts[k]).itempos <= j < acts[k].itempos
                                + acts[k].bytes.len();
                        assert(k < acts.len() - 1);
                        assert(dl[k] == acts[k]);
                        assert(covered(dl, j));
                    }
                    if covered(dl, j) {
                        let k = choose|k: int|
                            0 <= k < dl.len() && (#[trigger] dl[k]).itempos <= j < dl[k].itempos
                                + dl[k].bytes.len();
                        assert(acts[k] == dl[k]);
                        assert(covered(acts, j));
                    }
                }
            } else {
                assert(r[j] == 0u8);
                assert(j >= g.len());
                assert(!covered(acts, j)) by {
                    if covered(acts, j) {
                        let k = choose|k: int|
                            0 <= k < acts.len() && (#[trigger] acts[k]).itempos <= j < acts[k].itempos
                                + acts[k].bytes.len();
                        if k < acts.len() - 1 {
                            assert(dl[k] == acts[k]);
                            assert(j < max_end(dl));
                        }
                    }
                }
            }
        }
    }
}

/// A plan whose actions each write the right bytes, and which together
/// cover all of `f`, restores `f` exactly, whatever was there before (as
/// long as it was no longer than `f`).
pub proof fn lemma_apply_restores(acts: Seq<ActionModel>, f: Seq<u8>, g: Seq<u8>)
    requires
        forall|k: int|
            0 <= k < acts.len() ==> {
                let a = #[trigger] acts[k];
                &&& 0 <= a.itempos
                &&& a.itempos + a.bytes.len() <= f.len()
                &&& a.bytes == f.subrange(a.itempos, a.itempos + a.bytes.len())
            },
        forall|j: int| 0 <= j < f.len() ==> covered(acts, j),
        g.len() <= f.len(),
    ensures
        apply_actions(g, acts) == f,
{
    lemma_apply_partial(acts, f, g);
    lemma_max_end_bound(acts);
    lemma_max_end_le(acts, f.len() as int);
    let r = apply_actions(g, acts);
    if f.len() == 0 {
        assert(r =~= f);
    } else {
        assert(max_end(acts) == f.len()) by {
            assert(covered(acts, f.len() - 1));
            let k = choose|k: int|
                0 <= k < acts.len() && (#[trigger] acts[k]).itempos <= f.len() - 1 < acts[k].itempos
                    + acts[k].bytes.len();
            assert(acts[k].itempos + acts[k].bytes.len() <= max_end(acts));
        }
        assert(r =~= f);
    }
}

/// The actions of the plan that concern item `i`, in order.
pub open spec fn acts_for(acts: Seq<ActionModel>, i: int) -> Seq<ActionModel> {
    acts.filter(|a: ActionModel| a.item == i)
}

/// How `acts_for` treats an appended action.
pub proof fn lemma_acts_for_push(acts: Seq<ActionModel>, x: ActionModel, i: int)
    ensures
        acts_for(acts.push(x), i) == if x.item == i {
            acts_for(acts, i).push(x)
        } else {
            acts_for(acts, i)
        },
{
    reveal(Seq::filter);
    assert(acts.push(x).drop_last() =~= acts);
}

/// Items no action concerns have no actions in the plan.
pub proof fn lemma_acts_for_outside(acts: Seq<ActionModel>, i: int)
    requires
        forall|k: int| 0 <= k < acts.len() ==> (#[trigger] acts[k]).item != i,
    ensures
        acts_for(acts, i) == Seq::<ActionModel>::empty(),
    decreases acts.len(),
{
    reveal(Seq::filter);
    if acts.len() > 0 {
        let dl = acts.drop_last();
        assert(forall|k: int| 0 <= k < dl.len() ==> dl[k] == acts[k]);
        lemma_acts_for_outside(dl, i);
    }
}

/// `acts_for` distributes over concatenation.
pub proof fn lemma_acts_for_add(a: Seq<ActionModel>, b: Seq<ActionModel>, i: int)
    ensures
        acts_for(a + b, i) == acts_for(a, i) + acts_for(b, i),
    decreases b.len(),
{
    if b.len() == 0 {
        assert(a + b =~= a);
        lemma_acts_for_outside(b, i);
        assert(acts_for(a, i) + acts_for(b, i) =~= acts_for(a, i));
    } else {
        let dl = b.drop_last();
        lemma_acts_for_add(a, dl, i);
        assert(a + b =~= (a + dl).push(b.last()));
        lemma_acts_for_push(a + dl, b.last(), i);
        assert(b =~= dl.push(b.last()));
        lemma_acts_for_push(dl, b.last(), i);
        if b.last().item == i {
            assert(acts_for(a, i) + acts_for(dl, i).push(b.last()) =~= (acts_for(a, i) + acts_for(
                dl,
                i,
            )).push(b.last()));
        }
    }
}

/// Filtering a pointwise-matching plan and slice list by an item keeps them
/// pointwise matching.
pub proof fn lemma_match_filter(
    m: StoreModel,
    acts: Seq<ActionModel>,
    ss: Seq<SliceRow>,
    i: int,
)
    requires
        acts.len() == ss.len(),
        forall|k: int| 0 <= k < ss.len() ==> act_matches_slice(m, #[trigger] acts[k], ss[k]),
    ensures
        acts_for(acts, i).len() == item_slices(ss, i).len(),
        forall|k: int|
            0 <= k < item_slices(ss, i).len() ==> act_matches_slice(
                m,
                #[trigger] acts_for(acts, i)[k],
                item_slices(ss, i)[k],
            ),
    decreases acts.len(),
{
    reveal(Seq::filter);
    if acts.len() == 0 {
    } else {
        let adl = acts.drop_last();
        let sdl = ss.drop_last();
        assert(forall|k: int| 0 <= k < adl.len() ==> adl[k] == acts[k]);
        assert(forall|k: int| 0 <= k < sdl.len() ==> sdl[k] == ss[k]);
        lemma_match_filter(m, adl, sdl, i);
        assert(acts =~= adl.push(acts.last()));
        assert(ss =~= sdl.push(ss.last()));
        lemma_acts_for_push(adl, acts.last(), i);
        lemma_item_slices_push(sdl, ss.last(), i);
        assert(act_matches_slice(m, acts.last(), ss.last())) by {
            assert(acts[acts.len() - 1] == acts.last() && ss[ss.len() - 1] == ss.last());
        }
        assert(acts.last().item == ss.last().item);
        if ss.last().item == i {
            assert forall|k: int|
                0 <= k < item_slices(ss, i).len() implies act_matches_slice(
                m,
                #[trigger] acts_for(acts, i)[k],
                item_slices(ss, i)[k],
            ) by {
                if k < item_slices(sdl, i).len() {
                    assert(acts_for(acts, i)[k] == acts_for(adl, i)[k]);
                    assert(item_slices(ss, i)[k] == item_slices(sdl, i)[k]);
                }
            }
        }
    }
}

/// Every slice of a list all of whose rows are kept is its own kept list.
pub proof fn lemma_kept_all(items: Seq<ItemRow>, ss: Seq<SliceRow>)
    requires
        forall|k: int| 0 <= k < ss.len() ==> slice_kept(items, #[trigger] ss[k]),
    ensures
        kept_slices(items, ss) == ss,
    decreases ss.len(),
{
    reveal(Seq::filter);
    if ss.len() > 0 {
        let dl = ss.drop_last();
        assert(forall|k: int| 0 <= k < dl.len() ==> dl[k] == ss[k]);
        lemma_kept_all(items, dl);
        assert(kept_slices(items, ss) =~= ss);
    }
}

/// Consecutive slices cover every position below their total.
pub proof fn lemma_consecutive_covers(ss: Seq<SliceRow>, total: int, j: int)
    requires
        itempos_consecutive(ss, total),
        0 <= j < total,
    ensures
        exists|k: int|
            0 <= k < ss.len() && (#[trigger] ss[k]).itempos <= j < ss[k].itempos + ss[k].size,
    decreases ss.len(),
{
    assert(ss.len() > 0);
    let dl = ss.drop_last();
    assert(forall|k: int| 0 <= k < dl.len() ==> dl[k] == ss[k]);
    let total2 = if dl.len() == 0 {
        0int
    } else {
        dl.last().itempos + dl.last().size
    };
    assert(itempos_consecutive(dl, total2));
    assert(total2 == ss.last().itempos);
    if j >= total2 {
        assert(ss[ss.len() - 1].itempos <= j < ss[ss.len() - 1].itempos + ss[ss.len() - 1].size);
    } else {
        lemma_consecutive_covers(dl, total2, j);
        let k = choose|k: int|
            0 <= k < dl.len() && (#[trigger] dl[k]).itempos <= j < dl[k].itempos + dl[k].size;
        assert(ss[k] == dl[k]);
        assert(ss[k].itempos <= j < ss[k].itempos + ss[k].size);
    }
}

/// A plan of creation actions alone (each writing nothing at offset zero)
/// changes nothing.
pub proof fn lemma_apply_touches(acts: Seq<ActionModel>, g: Seq<u8>)
    requires
        forall|k: int|
            0 <= k < acts.len() ==> (#[trigger] acts[k]).itempos == 0 && acts[k].bytes.len() == 0,
    ensures
        apply_actions(g, acts) == g,
    decreases acts.len(),
{
    if acts.len() > 0 {
        let dl = acts.drop_last();
        assert(forall|k: int| 0 <= k < dl.len() ==> dl[k] == acts[k]);
        lemma_apply_touches(dl, g);
        assert(apply_action(g, 0, acts.last().bytes) =~= g);
    }
}

/// Round trip: extracting a well-formed archive restores, for every file and
/// symbolic-link item, exactly the bytes it was built from — onto an empty
/// destination, or onto anything no longer than the item (in particular,
/// onto the result of a previous extraction of the same archive).
pub proof fn lemma_round_trip(
    m: StoreModel,
    files: Map<int, Seq<u8>>,
    plan: Seq<ActionModel>,
    i: int,
    prior: Seq<u8>,
)
    requires
        archive_wf(m, files),
        extract_plan_matches(m, plan),
        files.dom().contains(i),
        prior.len() <= files[i].len(),
    ensures
        apply_actions(prior, acts_for(plan, i)) == files[i],
{
    assert(1 <= i <= m.items.len());
    assert(m.items[i - 1].kind == crate::KIND_FILE as int || m.items[i - 1].kind
        == crate::KIND_SYMLINK as int);
    assert forall|k: int| 0 <= k < m.slices.len() implies slice_kept(
        m.items,
        #[trigger] m.slices[k],
    ) by {
        assert(slice_matches(m, m.slices[k], files));
    }
    lemma_kept_all(m.items, m.slices);
    let kept = kept_slices(m.items, m.slices);
    assert(kept == m.slices);
    let t = kept.len() as int;
    let spl = plan.take(t);
    let tch = plan.skip(t);
    assert(plan =~= spl + tch);
    lemma_acts_for_add(spl, tch, i);
    assert(forall|k: int|
        0 <= k < spl.len() ==> act_matches_slice(m, #[trigger] spl[k], m.slices[k])) by {
        assert(forall|k: int| 0 <= k < t ==> spl[k] == plan[k]);
    }
    lemma_match_filter(m, spl, m.slices, i);
    let acts_i = acts_for(spl, i);
    let ssi = item_slices(m.slices, i);
    lemma_item_slices_matches(m, files, i);
    assert(itempos_consecutive(ssi, files[i].len() as int));
    if ssi.len() > 0 {
        assert forall|k: int| t <= k < plan.len() implies (#[trigger] plan[k]).item != i by {
            assert(touch_act(m, plan[k]));
            assert(item_slices(m.slices, plan[k].item).len() == 0);
        }
        assert(forall|k: int| 0 <= k < tch.len() ==> (#[trigger] tch[k]).item != i) by {
            assert(forall|k: int| 0 <= k < tch.len() ==> tch[k] == plan[t + k]);
        }
        lemma_acts_for_outside(tch, i);
        assert(acts_for(plan, i) =~= acts_i);
        assert forall|k: int| 0 <= k < acts_i.len() implies {
            let a = #[trigger] acts_i[k];
            &&& 0 <= a.itempos
            &&& a.itempos + a.bytes.len() <= files[i].len()
            &&& a.bytes == files[i].subrange(a.itempos, a.itempos + a.bytes.len())
        } by {
            let a = acts_i[k];
            let sr = ssi[k];
            assert(act_matches_slice(m, a, sr));
            assert(slice_matches(m, sr, files));
            assert(sr.item == i);
            assert(a.bytes == files[i].subrange(sr.itempos, sr.itempos + sr.size));
        }
        assert forall|j: int| 0 <= j < files[i].len() implies covered(acts_i, j) by {
            lemma_consecutive_covers(ssi, files[i].len() as int, j);
            let k = choose|k: int|
                0 <= k < ssi.len() && (#[trigger] ssi[k]).itempos <= j < ssi[k].itempos
                    + ssi[k].size;
            assert(act_matches_slice(m, acts_i[k], ssi[k]));
            assert(acts_i[k].itempos <= j < acts_i[k].itempos + acts_i[k].bytes.len());
        }
        lemma_apply_restores(acts_i, files[i], prior);
        assert(apply_actions(prior, acts_i) == files[i]);
    } else {
        assert(m.items[i - 1].kind == crate::KIND_FILE as int);
        assert(files[i].len() == 0);
        assert(prior =~= Seq::<u8>::empty());
        assert(acts_i.len() == 0);
        assert(acts_i =~= Seq::<ActionModel>::empty());
        let tchi = acts_for(tch, i);
        assert(acts_for(plan, i) =~= tchi);
        assert forall|k: int|
            0 <= k < tchi.len() implies (#[trigger] tchi[k]).itempos == 0 && tchi[k].bytes.len()
            == 0 by {
            assert(tchi.contains(tchi[k]));
            tch.lemma_filter_contains_rev(|a: ActionModel| a.item == i, tchi[k]);
            let j = choose|j: int| 0 <= j < tch.len() && tch[j] == tchi[k];
            assert(tch[j] == plan[t + j]);
            assert(touch_act(m, plan[t + j]));
        }
        lemma_apply_touches(tchi, prior);
        assert(apply_actions(prior, tchi) =~= files[i]);
    }
}

/// Extracting the same archive twice gives the same bytes: the second
/// application of the plan, on top of the first's result, changes nothing.
pub proof fn lemma_extract_idempotent(
    m: StoreModel,
    files: Map<int, Seq<u8>>,
    plan: Seq<ActionModel>,
    i: int,
)
    requires
        archive_wf(m, files),
        extract_plan_matches(m, plan),
        files.dom().contains(i),
    ensures
        apply_actions(Seq::<u8>::empty(), acts_for(plan, i)) == files[i],
        apply_actions(
            apply_actions(Seq::<u8>::empty(), acts_for(plan, i)),
            acts_for(plan, i),
        ) == files[i],
{
    lemma_round_trip(m, files, plan, i, Seq::<u8>::empty());
    lemma_round_trip(m, files, plan, i, files[i]);
}

/// The builder's and the reader's contracts, put together: `finish` leaves
/// tables satisfying `archive_wf`, and on such tables `extract_all` yields a
/// plan satisfying its matching clause; this lemma takes exactly those two
/// facts and concludes that the plan restores item `i` exactly.
pub proof fn lemma_archive_extraction_restores(
    m: StoreModel,
    files: Map<int, Seq<u8>>,
    plan: Seq<ActionModel>,
    i: int,
    prior: Seq<u8>,
)
    requires
        archive_wf(m, files),
        crate::store::items_sequential(m) && crate::store::contents_sequential(m)
            ==> extract_plan_matches(m, plan),
        files.dom().contains(i),
        prior.len() <= files[i].len(),
    ensures
        apply_actions(prior, acts_for(plan, i)) == files[i],
{
    lemma_round_trip(m, files, plan, i, prior);
}

} // verus!
