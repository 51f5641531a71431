//! Path sanitizing.
//!
//! Paths read from an archive are untrusted input: before any filesystem
//! write they are reduced to their plain name components, so that extraction
//! cannot escape the working directory. Paths here are `/`-separated
//! strings; a component is the text between two separators. The model knows
//! only that separator: other platforms' separators and drive prefixes are
//! ordinary name characters here, so paths sanitized by this module are
//! meant for filesystems with `/`-separated, prefix-free paths.

use vstd::prelude::*;
use crate::Error;

verus! {

/// A plain name: a non-empty component that is neither the current-directory
/// marker `.` nor the parent-directory marker `..`.
pub open spec fn is_normal(c: Seq<char>) -> bool {
    c.len() > 0 && c != seq!['.'] && c != seq!['.', '.']
}

/// The components of a path: the (possibly empty) pieces of text between
/// consecutive `/` separators. A path always has at least one component;
/// the empty path has exactly one, which is empty.
pub open spec fn split_path(s: Seq<char>) -> Seq<Seq<char>>
    decreases s.len(),
{
    if s.len() == 0 {
        seq![Seq::<char>::empty()]
    } else if s.last() == '/' {
        split_path(s.drop_last()).push(Seq::<char>::empty())
    } else {
        let cs = split_path(s.drop_last());
        cs.update(cs.len() - 1, cs.last().push(s.last()))
    }
}

/// The components that sanitizing keeps: the plain names.
pub open spec fn keep_normal(cs: Seq<Seq<char>>) -> Seq<Seq<char>> {
    cs.filter(|c: Seq<char>| is_normal(c))
}

/// Components joined back into a path with single `/` separators.
pub open spec fn join_path(cs: Seq<Seq<char>>) -> Seq<char>
    decreases cs.len(),
{
    if cs.len() == 0 {
        Seq::<char>::empty()
    } else if cs.len() == 1 {
        cs[0]
    } else {
        join_path(cs.drop_last()) + seq!['/'] + cs.last()
    }
}

/// What sanitizing computes: the plain name components of the input,
/// joined by single separators.
pub open spec fn spec_sanitize(s: Seq<char>) -> Seq<char> {
    join_path(keep_normal(split_path(s)))
}

/// A path always splits into at least one component.
pub proof fn lemma_split_ge_one(s: Seq<char>)
    ensures
        split_path(s).len() >= 1,
    decreases s.len(),
{
    if s.len() == 0 {
    } else {
        lemma_split_ge_one(s.drop_last());
    }
}

/// How `keep_normal` treats the last component of a non-empty list.
pub proof fn lemma_keep_normal_last(cs: Seq<Seq<char>>)
    requires
        cs.len() >= 1,
    ensures
        keep_normal(cs) == if is_normal(cs.last()) {
            keep_normal(cs.drop_last()).push(cs.last())
        } else {
            keep_normal(cs.drop_last())
        },
{
    reveal(Seq::filter);
}

/// Appends the component `dirty[start..end]` to `out` if it is a plain name,
/// preceded by a separator unless it is the first one kept.
fn append_component(out: &mut String, first: &mut bool, dirty: &str, start: usize, end: usize)
    requires
        start <= end <= dirty@.len(),
    ensures
        ({
            let comp = dirty@.subrange(start as int, end as int);
            &&& is_normal(comp) ==> {
                &&& final(out)@ == old(out)@ + if *old(first) {
                    comp
                } else {
                    seq!['/'] + comp
                }
                &&& *final(first) == false
            }
            &&& !is_normal(comp) ==> {
                &&& final(out)@ == old(out)@
                &&& *final(first) == *old(first)
            }
        }),
{
    let ghost comp = dirty@.subrange(start as int, end as int);
    let ghost out0 = out@;
    let ghost first0 = *first;
    let len = end - start;
    let is_dot = len == 1 && dirty.get_char(start) == '.';
    let is_dotdot = len == 2 && dirty.get_char(start) == '.' && dirty.get_char(start + 1) == '.';
    if len > 0 && !is_dot && !is_dotdot {
        proof {
            assert(comp.len() == len);
            assert(is_normal(comp)) by {
                if comp == seq!['.'] {
                    assert(comp[0] == dirty@[start as int]);
                }
                if comp == seq!['.', '.'] {
                    assert(comp[0] == dirty@[start as int]);
                    assert(comp[1] == dirty@[start as int + 1]);
                }
            }
        }
        if !*first {
            out.append("/");
        }
        let piece = dirty.substring_char(start, end);
        out.append(piece);
        *first = false;
        proof {
            reveal_strlit("/");
            if first0 {
                assert(out@ =~= out0 + comp);
            } else {
                assert(out@ =~= out0 + (seq!['/'] + comp));
            }
        }
    } else {
        proof {
            assert(!is_normal(comp)) by {
                if len == 0 {
                } else if len == 1 {
                    assert(comp =~= seq!['.']);
                } else {
                    assert(comp =~= seq!['.', '.']);
                }
            }
        }
    }
}

/// Return a sanitized version of the path, with any non-normal components
/// removed. Roots are especially problematic for extracting an archive, so
/// those are always removed. Note also that path components which refer to
/// the parent directory will be stripped ("foo/../bar" will become
/// "foo/bar").
///
/// Only `/` separates components here: a backslash or a drive prefix is an
/// ordinary name character, as it is in a POSIX file name (where stripping
/// it would corrupt legitimate names). The result is safe to write under
/// the working directory of a filesystem with `/`-separated, prefix-free
/// paths; extraction on a platform with drive-absolute paths would need its
/// own prefix handling in front of this function.
pub fn sanitize_path(dirty: &str) -> (res: Result<String, Error>)
    ensures
        res matches Ok(clean) && clean@ == spec_sanitize(dirty@) && path_is_clean(clean@),
{
    proof {
        lemma_sanitize_path_safe(dirty@);
    }
    let n = dirty.unicode_len();
    let mut out = String::new();
    let mut first = true;
    let mut start: usize = 0;
    let mut i: usize = 0;
    while i < n
        invariant
            n == dirty@.len(),
            start <= i <= n,
            split_path(dirty@.take(i as int)).last() == dirty@.subrange(start as int, i as int),
            out@ == join_path(keep_normal(split_path(dirty@.take(i as int)).drop_last())),
            first <==> keep_normal(split_path(dirty@.take(i as int)).drop_last()).len() == 0,
        decreases n - i,
    {
        let ghost pre = dirty@.take(i as int);
        let ghost pre1 = dirty@.take(i as int + 1);
        proof {
            lemma_split_ge_one(pre);
            assert(pre1.drop_last() =~= pre);
            assert(pre1.last() == dirty@[i as int]);
        }
        let c = dirty.get_char(i);
        if c == '/' {
            let ghost cs = split_path(pre);
            append_component(&mut out, &mut first, dirty, start, i);
            proof {
                assert(split_path(pre1) == cs.push(Seq::<char>::empty()));
                assert(split_path(pre1).drop_last() =~= cs);
                assert(split_path(pre1).last() =~= dirty@.subrange(i as int + 1, i as int + 1));
                let comp = cs.last();
                assert(comp == dirty@.subrange(start as int, i as int));
                let f0 = keep_normal(cs.drop_last());
                lemma_keep_normal_last(cs);
                if is_normal(comp) {
                    assert(keep_normal(cs) == f0.push(comp));
                    if f0.len() == 0 {
                        assert(keep_normal(cs).len() == 1);
                        assert(join_path(keep_normal(cs)) == keep_normal(cs)[0]);
                        assert(keep_normal(cs)[0] == comp);
                        assert(join_path(f0) =~= Seq::<char>::empty());
                        assert(out@ =~= comp);
                    } else {
                        assert(keep_normal(cs).len() >= 2);
                        assert(keep_normal(cs).drop_last() =~= f0);
                        assert(join_path(keep_normal(cs)) == join_path(f0) + seq!['/'] + comp);
                        assert(out@ =~= join_path(f0) + seq!['/'] + comp);
                    }
                } else {
                    assert(keep_normal(cs) == f0);
                }
            }
            start = i + 1;
        } else {
            proof {
                let cs = split_path(pre);
                let cs1 = split_path(pre1);
                assert(cs1 == cs.update(cs.len() - 1, cs.last().push(dirty@[i as int])));
                assert(cs1.drop_last() =~= cs.drop_last());
                assert(cs1.last() == cs.last().push(dirty@[i as int]));
                assert(cs1.last() =~= dirty@.subrange(start as int, i as int + 1));
            }
        }
        i = i + 1;
    }
    let ghost whole = dirty@;
    proof {
        assert(dirty@.take(n as int) =~= whole);
        lemma_split_ge_one(whole);
    }
    let ghost cs = split_path(whole);
    append_component(&mut out, &mut first, dirty, start, n);
    proof {
        let comp = cs.last();
        assert(comp == dirty@.subrange(start as int, n as int));
        let f0 = keep_normal(cs.drop_last());
        lemma_keep_normal_last(cs);
        if is_normal(comp) {
            assert(keep_normal(cs) == f0.push(comp));
            if f0.len() == 0 {
                assert(keep_normal(cs).len() == 1);
                assert(join_path(keep_normal(cs)) == keep_normal(cs)[0]);
                assert(keep_normal(cs)[0] == comp);
                assert(join_path(f0) =~= Seq::<char>::empty());
                assert(out@ =~= comp);
            } else {
                assert(keep_normal(cs).len() >= 2);
                assert(keep_normal(cs).drop_last() =~= f0);
                assert(join_path(keep_normal(cs)) == join_path(f0) + seq!['/'] + comp);
                assert(out@ =~= join_path(f0) + seq!['/'] + comp);
            }
        } else {
            assert(keep_normal(cs) == f0);
        }
    }
    Ok(out)
}

/// A path that extraction may write to: relative, with every component a
/// plain name (so it cannot name a parent directory or an absolute root).
pub open spec fn path_is_clean(s: Seq<char>) -> bool {
    s.len() == 0 || {
        &&& s[0] != '/'
        &&& forall|k: int| 0 <= k < split_path(s).len() ==> is_normal(#[trigger] split_path(s)[k])
    }
}

/// No component produced by `split_path` contains a separator.
pub proof fn lemma_split_no_slash(s: Seq<char>)
    ensures
        forall|k: int|
            0 <= k < split_path(s).len() ==> !(#[trigger] split_path(s)[k]).contains('/'),
    decreases s.len(),
{
    if s.len() == 0 {
        assert(forall|k: int|
            0 <= k < split_path(s).len() ==> !(#[trigger] split_path(s)[k]).contains('/')) by {
            assert(split_path(s)[0] =~= Seq::<char>::empty());
        }
    } else {
        lemma_split_no_slash(s.drop_last());
        lemma_split_ge_one(s.drop_last());
        let cs = split_path(s.drop_last());
        if s.last() == '/' {
            assert(forall|k: int|
                0 <= k < split_path(s).len() ==> !(#[trigger] split_path(s)[k]).contains('/'))
                by {
                assert(split_path(s) == cs.push(Seq::<char>::empty()));
                assert(!Seq::<char>::empty().contains('/'));
            }
        } else {
            let ext = cs.last().push(s.last());
            assert(!ext.contains('/')) by {
                assert(!cs.last().contains('/'));
                assert(forall|j: int| 0 <= j < ext.len() - 1 ==> ext[j] == cs.last()[j]);
            }
            assert(split_path(s) == cs.update(cs.len() - 1, ext));
        }
    }
}

/// A non-empty path without separators is its own single component.
pub proof fn lemma_split_slashless(c: Seq<char>)
    requires
        c.len() > 0,
        !c.contains('/'),
    ensures
        split_path(c) == seq![c],
    decreases c.len(),
{
    assert(c.last() != '/') by {
        assert(c[c.len() - 1] == c.last());
    }
    if c.len() == 1 {
        assert(split_path(c.drop_last()) =~= seq![Seq::<char>::empty()]);
        assert(split_path(c) =~= seq![Seq::<char>::empty().push(c.last())]);
        assert(Seq::<char>::empty().push(c.last()) =~= c);
    } else {
        assert(!c.drop_last().contains('/')) by {
            assert(forall|j: int| 0 <= j < c.len() - 1 ==> c.drop_last()[j] == c[j]);
        }
        lemma_split_slashless(c.drop_last());
        assert(split_path(c) =~= seq![c.drop_last().push(c.last())]);
        assert(c.drop_last().push(c.last()) =~= c);
    }
}

/// Splitting `a` + `/` + `b`, where `b` is a separator-free component,
/// appends `b` to the components of `a`.
pub proof fn lemma_split_concat(a: Seq<char>, b: Seq<char>)
    requires
        b.len() > 0,
        !b.contains('/'),
    ensures
        split_path(a + seq!['/'] + b) == split_path(a).push(b),
    decreases b.len(),
{
    let s = a + seq!['/'] + b;
    lemma_split_ge_one(a);
    assert(b.last() != '/') by {
        assert(b[b.len() - 1] == b.last());
    }
    assert(s.last() == b.last());
    if b.len() == 1 {
        assert(s.drop_last() =~= a + seq!['/']);
        assert((a + seq!['/']).last() == '/');
        assert((a + seq!['/']).drop_last() =~= a);
        assert(split_path(a + seq!['/']) == split_path(a).push(Seq::<char>::empty()));
        let cs = split_path(a).push(Seq::<char>::empty());
        assert(split_path(s) == cs.update(cs.len() - 1, cs.last().push(b.last())));
        assert(cs.last().push(b.last()) =~= b);
        assert(cs.update(cs.len() - 1, b) =~= split_path(a).push(b));
    } else {
        assert(!b.drop_last().contains('/')) by {
            assert(forall|j: int| 0 <= j < b.len() - 1 ==> b.drop_last()[j] == b[j]);
        }
        lemma_split_concat(a, b.drop_last());
        assert(s.drop_last() =~= a + seq!['/'] + b.drop_last());
        let cs = split_path(a).push(b.drop_last());
        assert(split_path(s) == cs.update(cs.len() - 1, cs.last().push(b.last())));
        assert(cs.last().push(b.last()) =~= b);
        assert(cs.update(cs.len() - 1, b) =~= split_path(a).push(b));
    }
}

/// Joining separator-free components and splitting again gives them back.
pub proof fn lemma_split_join(cs: Seq<Seq<char>>)
    requires
        cs.len() >= 1,
        forall|k: int| 0 <= k < cs.len() ==> (#[trigger] cs[k]).len() > 0,
        forall|k: int| 0 <= k < cs.len() ==> !(#[trigger] cs[k]).contains('/'),
    ensures
        split_path(join_path(cs)) == cs,
    decreases cs.len(),
{
    if cs.len() == 1 {
        lemma_split_slashless(cs[0]);
        assert(seq![cs[0]] =~= cs);
    } else {
        let dl = cs.drop_last();
        assert(forall|k: int| 0 <= k < dl.len() ==> dl[k] == cs[k]);
        lemma_split_join(dl);
        lemma_split_concat(join_path(dl), cs.last());
        assert(dl.push(cs.last()) =~= cs);
    }
}

/// A joined path starts with the first character of its first component.
pub proof fn lemma_join_first(cs: Seq<Seq<char>>)
    requires
        cs.len() >= 1,
        forall|k: int| 0 <= k < cs.len() ==> (#[trigger] cs[k]).len() > 0,
    ensures
        join_path(cs).len() > 0,
        join_path(cs)[0] == cs[0][0],
    decreases cs.len(),
{
    if cs.len() == 1 {
    } else {
        let dl = cs.drop_last();
        assert(forall|k: int| 0 <= k < dl.len() ==> dl[k] == cs[k]);
        lemma_join_first(dl);
        assert((join_path(dl) + seq!['/'] + cs.last())[0] == join_path(dl)[0]);
    }
}

/// The kept components of a separator-free component list are still
/// separator-free.
pub proof fn lemma_keep_normal_no_slash(cs: Seq<Seq<char>>)
    requires
        forall|k: int| 0 <= k < cs.len() ==> !(#[trigger] cs[k]).contains('/'),
    ensures
        forall|k: int|
            0 <= k < keep_normal(cs).len() ==> !(#[trigger] keep_normal(cs)[k]).contains('/'),
    decreases cs.len(),
{
    if cs.len() == 0 {
        reveal(Seq::filter);
    } else {
        let dl = cs.drop_last();
        assert(forall|k: int| 0 <= k < dl.len() ==> dl[k] == cs[k]);
        lemma_keep_normal_no_slash(dl);
        lemma_keep_normal_last(cs);
        assert(!cs.last().contains('/')) by {
            assert(cs[cs.len() - 1] == cs.last());
        }
        if is_normal(cs.last()) {
            assert(forall|k: int|
                0 <= k < keep_normal(cs).len() ==> !(#[trigger] keep_normal(cs)[k]).contains(
                    '/',
                )) by {
                assert(forall|k: int|
                    0 <= k < keep_normal(dl).len() ==> keep_normal(cs)[k] == keep_normal(dl)[k]);
                assert(keep_normal(cs).last() == cs.last());
            }
        }
    }
}

/// Sanitizing leaves a path that cannot escape the working directory: it is
/// relative and every one of its components is a plain name.
pub proof fn lemma_sanitize_path_safe(s: Seq<char>)
    ensures
        path_is_clean(spec_sanitize(s)),
{
    broadcast use Seq::lemma_filter_pred;

    let cs = keep_normal(split_path(s));
    let clean = join_path(cs);
    if cs.len() == 0 {
        assert(clean.len() == 0);
    } else {
        lemma_split_no_slash(s);
        lemma_keep_normal_no_slash(split_path(s));
        assert(forall|k: int| 0 <= k < cs.len() ==> is_normal(#[trigger] cs[k]));
        assert(forall|k: int| 0 <= k < cs.len() ==> (#[trigger] cs[k]).len() > 0);
        lemma_split_join(cs);
        lemma_join_first(cs);
        assert(cs[0][0] != '/') by {
            assert(!cs[0].contains('/'));
        }
    }
}

/// A component that names something: non-empty and not the current-directory
/// marker (the parent-directory marker does name something, namely a parent).
pub open spec fn is_meaningful(c: Seq<char>) -> bool {
    c.len() > 0 && c != seq!['.']
}

/// The components of a path that name something.
pub open spec fn keep_meaningful(cs: Seq<Seq<char>>) -> Seq<Seq<char>> {
    cs.filter(|c: Seq<char>| is_meaningful(c))
}

/// How `keep_meaningful` treats the last component of a non-empty list.
pub proof fn lemma_keep_meaningful_last(cs: Seq<Seq<char>>)
    requires
        cs.len() >= 1,
    ensures
        keep_meaningful(cs) == if is_meaningful(cs.last()) {
            keep_meaningful(cs.drop_last()).push(cs.last())
        } else {
            keep_meaningful(cs.drop_last())
        },
{
    reveal(Seq::filter);
}

/// What the last part of a path is: the last component that names something,
/// unless there is none or it is the parent-directory marker, in which case
/// the whole path is handed back unchanged.
pub open spec fn spec_file_name(s: Seq<char>) -> Seq<char> {
    let ms = keep_meaningful(split_path(s));
    if ms.len() == 0 || ms.last() == seq!['.', '.'] {
        s
    } else {
        ms.last()
    }
}

/// Records the component `path[start..end]` as the latest meaningful one,
/// if it is meaningful.
fn note_component(
    have: &mut bool,
    last_start: &mut usize,
    last_end: &mut usize,
    path: &str,
    start: usize,
    end: usize,
)
    requires
        start <= end <= path@.len(),
    ensures
        ({
            let comp = path@.subrange(start as int, end as int);
            &&& is_meaningful(comp) ==> {
                &&& *final(have) == true
                &&& *final(last_start) == start
                &&& *final(last_end) == end
            }
            &&& !is_meaningful(comp) ==> {
                &&& *final(have) == *old(have)
                &&& *final(last_start) == *old(last_start)
                &&& *final(last_end) == *old(last_end)
            }
        }),
{
    let ghost comp = path@.subrange(start as int, end as int);
    let len = end - start;
    let is_dot = len == 1 && path.get_char(start) == '.';
    if len > 0 && !is_dot {
        proof {
            assert(comp.len() == len);
            assert(is_meaningful(comp)) by {
                if comp == seq!['.'] {
                    assert(comp[0] == path@[start as int]);
                }
            }
        }
        *have = true;
        *last_start = start;
        *last_end = end;
    } else {
        proof {
            assert(comp.len() == len);
            assert(!is_meaningful(comp)) by {
                if len == 1 {
                    assert(comp =~= seq!['.']);
                }
            }
        }
    }
}

/// Return the last part of the path, converting to a String.
///
/// Paths whose last meaningful component refers to a parent directory, like
/// paths with no meaningful component at all, are handed back whole.
pub fn get_file_name(path: &str) -> (name: String)
    ensures
        name@ == spec_file_name(path@),
{
    let n = path.unicode_len();
    let mut have = false;
    let mut last_start: usize = 0;
    let mut last_end: usize = 0;
    let mut start: usize = 0;
    let mut i: usize = 0;
    while i < n
        invariant
            n == path@.len(),
            start <= i <= n,
            last_start <= last_end <= n,
            split_path(path@.take(i as int)).last() == path@.subrange(start as int, i as int),
            have <==> keep_meaningful(split_path(path@.take(i as int)).drop_last()).len() > 0,
            have ==> path@.subrange(last_start as int, last_end as int) == keep_meaningful(
                split_path(path@.take(i as int)).drop_last(),
            ).last(),
        decreases n - i,
    {
        let ghost pre = path@.take(i as int);
        let ghost pre1 = path@.take(i as int + 1);
        proof {
            lemma_split_ge_one(pre);
            assert(pre1.drop_last() =~= pre);
            assert(pre1.last() == path@[i as int]);
        }
        let c = path.get_char(i);
        if c == '/' {
            let ghost cs = split_path(pre);
            note_component(&mut have, &mut last_start, &mut last_end, path, start, i);
            proof {
                assert(split_path(pre1) == cs.push(Seq::<char>::empty()));
                assert(split_path(pre1).drop_last() =~= cs);
                assert(split_path(pre1).last() =~= path@.subrange(i as int + 1, i as int + 1));
                let comp = cs.last();
                assert(comp == path@.subrange(start as int, i as int));
                lemma_keep_meaningful_last(cs);
            }
            start = i + 1;
        } else {
            proof {
                let cs = split_path(pre);
                let cs1 = split_path(pre1);
                assert(cs1 == cs.update(cs.len() - 1, cs.last().push(path@[i as int])));
                assert(cs1.drop_last() =~= cs.drop_last());
                assert(cs1.last() == cs.last().push(path@[i as int]));
                assert(cs1.last() =~= path@.subrange(start as int, i as int + 1));
            }
        }
        i = i + 1;
    }
    let ghost whole = path@;
    proof {
        assert(path@.take(n as int) =~= whole);
        lemma_split_ge_one(whole);
    }
    let ghost cs = split_path(whole);
    note_component(&mut have, &mut last_start, &mut last_end, path, start, n);
    proof {
        assert(cs.last() == path@.subrange(start as int, n as int));
        lemma_keep_meaningful_last(cs);
    }
    if !have {
        return String::from_str(path);
    }
    let ghost ms = keep_meaningful(cs);
    let ghost rec = path@.subrange(last_start as int, last_end as int);
    let len = last_end - last_start;
    let is_dotdot = len == 2 && path.get_char(last_start) == '.' && path.get_char(
        last_start + 1,
    ) == '.';
    if is_dotdot {
        proof {
            assert(rec =~= seq!['.', '.']);
        }
        String::from_str(path)
    } else {
        proof {
            assert(rec != seq!['.', '.']) by {
                if rec == seq!['.', '.'] {
                    assert(rec[0] == path@[last_start as int]);
                    assert(rec[1] == path@[last_start as int + 1]);
                }
            }
        }
        let piece = path.substring_char(last_start, last_end);
        String::from_str(piece)
    }
}

} // verus!
