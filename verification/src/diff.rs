//! Structural comparison of two manifests.
//!
//! [`diff`] walks two manifests and returns the ordered list of change
//! operations that transforms the first tree into the second. The list is
//! pinned down exactly by [`spec_diff_entries`].

use vstd::prelude::*;
use crate::manifest::{Entries, Entry, Manifest, lookup};

verus! {

/// A change operation returned by [`diff`]. Every operation carries the full
/// relative path, as segments, from the tree root to the entry it concerns.
#[derive(Debug, PartialEq, Eq)]
pub enum Change {
    RemoveDirectory(Vec<String>),
    CreateDirectory(Vec<String>),
    RemoveFile(Vec<String>),
    CreateFile(Vec<String>, crate::hash::Hash),
}

/// The mathematical model of a [`Change`]: path segments as character
/// sequences, the hash as its encoded text.
pub ghost enum ChangeV {
    RemoveDirectory { path: Seq<Seq<char>> },
    CreateDirectory { path: Seq<Seq<char>> },
    RemoveFile { path: Seq<Seq<char>> },
    CreateFile { path: Seq<Seq<char>>, hash: Seq<char> },
}

impl View for Change {
    type V = ChangeV;

    open spec fn view(&self) -> ChangeV {
        match self {
            Change::RemoveDirectory(p) => ChangeV::RemoveDirectory { path: p.deep_view() },
            Change::CreateDirectory(p) => ChangeV::CreateDirectory { path: p.deep_view() },
            Change::RemoveFile(p) => ChangeV::RemoveFile { path: p.deep_view() },
            Change::CreateFile(p, h) => ChangeV::CreateFile { path: p.deep_view(), hash: h@ },
        }
    }
}

impl DeepView for Change {
    type V = ChangeV;

    open spec fn deep_view(&self) -> ChangeV {
        self.view()
    }
}

/// The path a change operates on.
pub open spec fn change_path(c: ChangeV) -> Seq<Seq<char>> {
    match c {
        ChangeV::RemoveDirectory { path } => path,
        ChangeV::CreateDirectory { path } => path,
        ChangeV::RemoveFile { path } => path,
        ChangeV::CreateFile { path, .. } => path,
    }
}

/// The same change aimed at another path.
pub open spec fn with_path(c: ChangeV, path: Seq<Seq<char>>) -> ChangeV {
    match c {
        ChangeV::RemoveDirectory { .. } => ChangeV::RemoveDirectory { path },
        ChangeV::CreateDirectory { .. } => ChangeV::CreateDirectory { path },
        ChangeV::RemoveFile { .. } => ChangeV::RemoveFile { path },
        ChangeV::CreateFile { hash, .. } => ChangeV::CreateFile { path, hash },
    }
}

/// The change moved below the given path prefix.
pub open spec fn prefixed(pre: Seq<Seq<char>>, c: ChangeV) -> ChangeV {
    with_path(c, pre + change_path(c))
}

/// A whole change list moved below the given path prefix.
pub open spec fn prefixed_all(pre: Seq<Seq<char>>, cs: Seq<ChangeV>) -> Seq<ChangeV> {
    Seq::new(cs.len(), |i: int| prefixed(pre, cs[i]))
}

/// The changes contributed by the single new entry at position `i` of an
/// entirely new directory level: a file becomes one creation, a directory is
/// created and then filled recursively.
pub open spec fn creations_item(a: Seq<(String, Entry)>, i: int) -> Seq<ChangeV>
    decreases a, a.len() - i, 0int,
{
    if i < 0 || i >= a.len() {
        Seq::empty()
    } else {
        let name = a[i].0@;
        match a[i].1 {
            Entry::Directory(av) => seq![ChangeV::CreateDirectory { path: seq![name] }]
                + prefixed_all(seq![name], creations_from(av@, 0)),
            Entry::File { size, hash } => seq![
                ChangeV::CreateFile { path: seq![name], hash: hash@ },
            ],
        }
    }
}

/// The creations for a directory level that is entirely new: every entry from
/// position `i` on is created, directories recursively. Paths are relative to
/// that level.
pub open spec fn creations_from(a: Seq<(String, Entry)>, i: int) -> Seq<ChangeV>
    decreases a, a.len() - i, 1int,
{
    if i < 0 || i >= a.len() {
        Seq::empty()
    } else {
        creations_item(a, i) + creations_from(a, i + 1)
    }
}

/// The changes contributed by the single `before` entry at position `i`:
/// matched directories are compared recursively, matched files by hash, a
/// kind change is an explicit removal followed by creation, and an entry
/// absent from `a` is removed.
pub open spec fn removals_item(b: Seq<(String, Entry)>, a: Seq<(String, Entry)>, i: int) -> Seq<
    ChangeV,
>
    decreases b, a, b.len() - i, 0int,
{
    if i < 0 || i >= b.len() {
        Seq::empty()
    } else {
        let name = b[i].0@;
        match (b[i].1, lookup(a, name)) {
            (Entry::Directory(bs), Some(Entry::Directory(av))) => prefixed_all(
                seq![name],
                removals_from(bs@, av@, 0) + additions_from(bs@, av@, 0),
            ),
            (Entry::Directory(_), Some(Entry::File { size, hash })) => seq![
                ChangeV::RemoveDirectory { path: seq![name] },
                ChangeV::CreateFile { path: seq![name], hash: hash@ },
            ],
            (Entry::Directory(_), None) => seq![ChangeV::RemoveDirectory { path: seq![name] }],
            (Entry::File { .. }, Some(Entry::Directory(av))) => seq![
                ChangeV::RemoveFile { path: seq![name] },
                ChangeV::CreateDirectory { path: seq![name] },
            ] + prefixed_all(seq![name], creations_from(av@, 0)),
            (
                Entry::File { size: bsize, hash: bhash },
                Some(Entry::File { size: asize, hash: ahash }),
            ) => if ahash@ != bhash@ {
                seq![ChangeV::CreateFile { path: seq![name], hash: ahash@ }]
            } else {
                Seq::empty()
            },
            (Entry::File { .. }, None) => seq![ChangeV::RemoveFile { path: seq![name] }],
        }
    }
}

/// The changes for the entries of `b` from position `i` on: entries of the
/// "before" side are matched against the "after" side, handling removals,
/// content changes, kind changes, and recursion into matched directories.
/// Paths are relative to the directory level that `b` and `a` describe.
pub open spec fn removals_from(b: Seq<(String, Entry)>, a: Seq<(String, Entry)>, i: int) -> Seq<
    ChangeV,
>
    decreases b, a, b.len() - i, 1int,
{
    if i < 0 || i >= b.len() {
        Seq::empty()
    } else {
        removals_item(b, a, i) + removals_from(b, a, i + 1)
    }
}

/// The changes contributed by the single `after` entry at position `i`:
/// nothing if the name also stands in `b` (the first pass has handled it),
/// else a recursive creation.
pub open spec fn additions_item(b: Seq<(String, Entry)>, a: Seq<(String, Entry)>, i: int) -> Seq<
    ChangeV,
>
    decreases b, a, a.len() - i, 0int,
{
    if i < 0 || i >= a.len() {
        Seq::empty()
    } else {
        let name = a[i].0@;
        if lookup(b, name) is Some {
            Seq::<ChangeV>::empty()
        } else {
            match a[i].1 {
                Entry::Directory(av) => seq![ChangeV::CreateDirectory { path: seq![name] }]
                    + prefixed_all(seq![name], creations_from(av@, 0)),
                Entry::File { size, hash } => seq![
                    ChangeV::CreateFile { path: seq![name], hash: hash@ },
                ],
            }
        }
    }
}

/// The changes for the entries of `a` from position `i` on that are absent
/// from `b`: pure additions, created recursively. Paths are relative to the
/// directory level that `b` and `a` describe.
pub open spec fn additions_from(b: Seq<(String, Entry)>, a: Seq<(String, Entry)>, i: int) -> Seq<
    ChangeV,
>
    decreases b, a, a.len() - i, 1int,
{
    if i < 0 || i >= a.len() {
        Seq::empty()
    } else {
        additions_item(b, a, i) + additions_from(b, a, i + 1)
    }
}

/// The changes that make the entries `b` match the entries `a`: first every
/// name present in `b` (removals, content changes, kind changes, recursion),
/// then every name present only in `a` (pure additions).
pub open spec fn spec_diff_entries(b: Seq<(String, Entry)>, a: Seq<(String, Entry)>) -> Seq<
    ChangeV,
> {
    removals_from(b, a, 0) + additions_from(b, a, 0)
}

/// Prefixing distributes over concatenation of change lists.
pub proof fn lemma_prefixed_all_concat(pre: Seq<Seq<char>>, x: Seq<ChangeV>, y: Seq<ChangeV>)
    ensures
        prefixed_all(pre, x + y) == prefixed_all(pre, x) + prefixed_all(pre, y),
{
    assert(prefixed_all(pre, x + y) =~= prefixed_all(pre, x) + prefixed_all(pre, y));
}

/// Prefixing by a path and then by one more leading segment is prefixing by
/// the extended path.
pub proof fn lemma_prefixed_all_compose(pre: Seq<Seq<char>>, name: Seq<char>, cs: Seq<ChangeV>)
    ensures
        prefixed_all(pre, prefixed_all(seq![name], cs)) == prefixed_all(pre.push(name), cs),
{
    assert forall|i: int| 0 <= i < cs.len() implies prefixed(pre, prefixed(seq![name], cs[i]))
        == prefixed(pre.push(name), cs[i]) by {
        assert(pre + (seq![name] + change_path(cs[i])) =~= pre.push(name) + change_path(cs[i]));
    }
    assert(prefixed_all(pre, prefixed_all(seq![name], cs)) =~= prefixed_all(pre.push(name), cs));
}

/// An empty prefix changes nothing.
pub proof fn lemma_prefixed_all_empty(cs: Seq<ChangeV>)
    ensures
        prefixed_all(Seq::<Seq<char>>::empty(), cs) == cs,
{
    assert forall|i: int| 0 <= i < cs.len() implies prefixed(Seq::<Seq<char>>::empty(), cs[i])
        == cs[i] by {
        assert(Seq::<Seq<char>>::empty() + change_path(cs[i]) =~= change_path(cs[i]));
    }
    assert(prefixed_all(Seq::<Seq<char>>::empty(), cs) =~= cs);
}

/// Builds the full path for the entry `name` below the segments on
/// `path_stack`.
fn joined_path(path_stack: &Vec<String>, name: &String) -> (r: Vec<String>)
    ensures
        r.deep_view() == path_stack.deep_view().push(name@),
{
    let mut r: Vec<String> = Vec::new();
    let mut i: usize = 0;
    while i < path_stack.len()
        invariant
            0 <= i <= path_stack@.len(),
            r.deep_view() == path_stack.deep_view().take(i as int),
        decreases path_stack@.len() - i,
    {
        let ghost prev = r.deep_view();
        r.push(path_stack[i].clone());
        proof {
            assert(r.deep_view() =~= prev.push(path_stack@[i as int]@));
            assert(prev.push(path_stack@[i as int]@) =~= path_stack.deep_view().take(
                i as int + 1,
            ));
        }
        i = i + 1;
    }
    let ghost prev = r.deep_view();
    r.push(name.clone());
    proof {
        assert(path_stack.deep_view().take(path_stack@.len() as int) =~= path_stack.deep_view());
        assert(r.deep_view() =~= path_stack.deep_view().push(name@));
    }
    r
}

/// Builds a list of changes needed to make a given `before` manifest match a
/// given `after` manifest.
pub fn diff(before: &Manifest, after: &Manifest) -> (changes: Vec<Change>)
    ensures
        changes.deep_view() == spec_diff_entries(before.entries@, after.entries@),
{
    let mut path_stack: Vec<String> = Vec::new();
    let mut changes: Vec<Change> = Vec::new();

    diff_entries(&before.entries, &after.entries, &mut path_stack, &mut changes);
    proof {
        lemma_prefixed_all_empty(spec_diff_entries(before.entries@, after.entries@));
        assert(Seq::<ChangeV>::empty() + prefixed_all(
            Seq::<Seq<char>>::empty(),
            spec_diff_entries(before.entries@, after.entries@),
        ) =~= spec_diff_entries(before.entries@, after.entries@));
    }
    changes
}

/// Builds a list of changes needed to make a given set of `before` entries
/// match a given set of `after` entries. The entries sit below the path on
/// `path_stack`; the changes are appended to `changes` with full paths.
pub fn diff_entries(
    before: &Entries,
    after: &Entries,
    path_stack: &mut Vec<String>,
    changes: &mut Vec<Change>,
)
    ensures
        final(path_stack)@ == old(path_stack)@,
        final(changes).deep_view() == old(changes).deep_view() + prefixed_all(
            old(path_stack).deep_view(),
            spec_diff_entries(before@, after@),
        ),
    decreases before@, after@,
{
    let ghost pre = path_stack.deep_view();
    let ghost changes0 = changes.deep_view();
    let ghost b = before@;
    let ghost a = after@;

    let mut i: usize = 0;
    while i < before.len()
        invariant
            0 <= i <= b.len(),
            b == before@,
            a == after@,
            path_stack@ == old(path_stack)@,
            pre == path_stack.deep_view(),
            changes.deep_view() + prefixed_all(pre, removals_from(b, a, i as int)) == changes0
                + prefixed_all(pre, removals_from(b, a, 0)),
        decreases b.len() - i,
    {
        let ghost cs_before = changes.deep_view();
        let name = &before[i].0;
        match (&before[i].1, crate::manifest::entries_get(after, name)) {
            (Entry::Directory(bs), Some(Entry::Directory(av))) => {
                proof {
                    assert(decreases_to!(b => b[i as int]));
                    assert(decreases_to!(b[i as int] => b[i as int].1));
                    assert(b[i as int].1 == Entry::Directory(*bs));
                    assert(decreases_to!(Entry::Directory(*bs) => *bs));
                    assert(decreases_to!(*bs => bs@));
                }
                path_stack.push(name.clone());
                proof {
                    assert(path_stack.deep_view() =~= pre.push(name@));
                }
                diff_entries(bs, av, path_stack, changes);
                path_stack.pop();
                proof {
                    assert(path_stack@ =~= old(path_stack)@);
                    lemma_prefixed_all_compose(
                        pre,
                        name@,
                        removals_from(bs@, av@, 0) + additions_from(bs@, av@, 0),
                    );
                }
            }
            (Entry::Directory(bs), Some(Entry::File { size: _, hash: ah })) => {
                let path = joined_path(path_stack, name);
                let path2 = joined_path(path_stack, name);
                changes.push(Change::RemoveDirectory(path));
                changes.push(Change::CreateFile(path2, ah.clone()));
            }
            (Entry::Directory(bs), None) => {
                let path = joined_path(path_stack, name);
                changes.push(Change::RemoveDirectory(path));
            }
            (Entry::File { size: _, hash: _ }, Some(Entry::Directory(av))) => {
                let path = joined_path(path_stack, name);
                let path2 = joined_path(path_stack, name);
                changes.push(Change::RemoveFile(path));
                changes.push(Change::CreateDirectory(path2));
                path_stack.push(name.clone());
                proof {
                    assert(path_stack.deep_view() =~= pre.push(name@));
                }
                create_entries(av, path_stack, changes);
                path_stack.pop();
                proof {
                    assert(path_stack@ =~= old(path_stack)@);
                    lemma_prefixed_all_compose(pre, name@, creations_from(av@, 0));
                }
            }
            (Entry::File { size: _, hash: bh }, Some(Entry::File { size: _, hash: ah })) => {
                if !(ah == bh) {
                    let path = joined_path(path_stack, name);
                    changes.push(Change::CreateFile(path, ah.clone()));
                }
            }
            (Entry::File { size: _, hash: _ }, None) => {
                let path = joined_path(path_stack, name);
                changes.push(Change::RemoveFile(path));
            }
        }
        proof {
            let item = removals_item(b, a, i as int);
            assert(pre + seq![name@] =~= pre.push(name@));
            assert(changes.deep_view() =~= cs_before + prefixed_all(pre, item));
            lemma_prefixed_all_concat(pre, item, removals_from(b, a, i as int + 1));
            assert(cs_before + prefixed_all(pre, item) + prefixed_all(
                pre,
                removals_from(b, a, i as int + 1),
            ) =~= cs_before + prefixed_all(pre, removals_from(b, a, i as int)));
        }
        i = i + 1;
    }

    proof {
        assert(changes.deep_view() + prefixed_all(pre, removals_from(b, a, b.len() as int))
            =~= changes.deep_view());
    }

    let ghost mid = changes.deep_view();
    let mut j: usize = 0;
    while j < after.len()
        invariant
            0 <= j <= a.len(),
            b == before@,
            a == after@,
            path_stack@ == old(path_stack)@,
            pre == path_stack.deep_view(),
            changes.deep_view() + prefixed_all(pre, additions_from(b, a, j as int)) == mid
                + prefixed_all(pre, additions_from(b, a, 0)),
            mid == changes0 + prefixed_all(pre, removals_from(b, a, 0)),
        decreases a.len() - j,
    {
        let ghost cs_before = changes.deep_view();
        let name = &after[j].0;
        match (crate::manifest::entries_get(before, name), &after[j].1) {
            (None, Entry::Directory(av)) => {
                let path = joined_path(path_stack, name);
                changes.push(Change::CreateDirectory(path));
                path_stack.push(name.clone());
                proof {
                    assert(path_stack.deep_view() =~= pre.push(name@));
                }
                create_entries(av, path_stack, changes);
                path_stack.pop();
                proof {
                    assert(path_stack@ =~= old(path_stack)@);
                    lemma_prefixed_all_compose(pre, name@, creations_from(av@, 0));
                }
            }
            (None, Entry::File { size: _, hash: ah }) => {
                let path = joined_path(path_stack, name);
                changes.push(Change::CreateFile(path, ah.clone()));
            }
            (Some(_), _) => {}
        }
        proof {
            let item = additions_item(b, a, j as int);
            assert(pre + seq![name@] =~= pre.push(name@));
            assert(changes.deep_view() =~= cs_before + prefixed_all(pre, item));
            lemma_prefixed_all_concat(pre, item, additions_from(b, a, j as int + 1));
            assert(cs_before + prefixed_all(pre, item) + prefixed_all(
                pre,
                additions_from(b, a, j as int + 1),
            ) =~= cs_before + prefixed_all(pre, additions_from(b, a, j as int)));
        }
        j = j + 1;
    }

    proof {
        assert(changes.deep_view() + prefixed_all(pre, additions_from(b, a, a.len() as int))
            =~= changes.deep_view());
        lemma_prefixed_all_concat(pre, removals_from(b, a, 0), additions_from(b, a, 0));
        assert(changes.deep_view() =~= changes0 + prefixed_all(pre, spec_diff_entries(b, a)));
    }
}

/// Appends the creations for a directory level that is entirely new. The
/// level sits below the path on `path_stack`.
fn create_entries(after: &Entries, path_stack: &mut Vec<String>, changes: &mut Vec<Change>)
    ensures
        final(path_stack)@ == old(path_stack)@,
        final(changes).deep_view() == old(changes).deep_view() + prefixed_all(
            old(path_stack).deep_view(),
            creations_from(after@, 0),
        ),
    decreases after@,
{
    let ghost pre = path_stack.deep_view();
    let ghost changes0 = changes.deep_view();
    let ghost a = after@;

    let mut j: usize = 0;
    while j < after.len()
        invariant
            0 <= j <= a.len(),
            a == after@,
            path_stack@ == old(path_stack)@,
            pre == path_stack.deep_view(),
            changes.deep_view() + prefixed_all(pre, creations_from(a, j as int)) == changes0
                + prefixed_all(pre, creations_from(a, 0)),
        decreases a.len() - j,
    {
        let ghost cs_before = changes.deep_view();
        let name = &after[j].0;
        match &after[j].1 {
            Entry::Directory(av) => {
                proof {
                    assert(decreases_to!(a => a[j as int]));
                    assert(decreases_to!(a[j as int] => a[j as int].1));
                    assert(a[j as int].1 == Entry::Directory(*av));
                    assert(decreases_to!(Entry::Directory(*av) => *av));
                    assert(decreases_to!(*av => av@));
                }
                let path = joined_path(path_stack, name);
                changes.push(Change::CreateDirectory(path));
                path_stack.push(name.clone());
                proof {
                    assert(path_stack.deep_view() =~= pre.push(name@));
                }
                create_entries(av, path_stack, changes);
                path_stack.pop();
                proof {
                    assert(path_stack@ =~= old(path_stack)@);
                    lemma_prefixed_all_compose(pre, name@, creations_from(av@, 0));
                }
            }
            Entry::File { size: _, hash: ah } => {
                let path = joined_path(path_stack, name);
                changes.push(Change::CreateFile(path, ah.clone()));
            }
        }
        proof {
            let item = creations_item(a, j as int);
            assert(pre + seq![name@] =~= pre.push(name@));
            assert(changes.deep_view() =~= cs_before + prefixed_all(pre, item));
            lemma_prefixed_all_concat(pre, item, creations_from(a, j as int + 1));
            assert(cs_before + prefixed_all(pre, item) + prefixed_all(
                pre,
                creations_from(a, j as int + 1),
            ) =~= cs_before + prefixed_all(pre, creations_from(a, j as int)));
        }
        j = j + 1;
    }

    proof {
        assert(changes.deep_view() + prefixed_all(pre, creations_from(a, a.len() as int))
            =~= changes.deep_view());
    }
}


/// The path segments joined by forward slashes, from position `i` on.
pub open spec fn path_text_from(p: Seq<Seq<char>>, i: int) -> Seq<char>
    decreases p.len() - i,
{
    if i < 0 || i >= p.len() {
        Seq::empty()
    } else if i == p.len() - 1 {
        p[i]
    } else {
        p[i] + seq!['/'] + path_text_from(p, i + 1)
    }
}

/// The one-line rendering of a change: its operation word and its path, plus
/// the hash for a file creation.
pub open spec fn render_text(c: ChangeV) -> Seq<char> {
    match c {
        ChangeV::RemoveDirectory { path } => "rmdir "@ + path_text_from(path, 0),
        ChangeV::CreateDirectory { path } => "mkdir "@ + path_text_from(path, 0),
        ChangeV::RemoveFile { path } => "rm "@ + path_text_from(path, 0),
        ChangeV::CreateFile { path, hash } => "create "@ + path_text_from(path, 0) + seq![' ']
            + hash,
    }
}

/// Appends the segments of a path joined by forward slashes.
fn append_path(out: &mut String, p: &Vec<String>)
    ensures
        final(out)@ == old(out)@ + path_text_from(p.deep_view(), 0),
{
    let ghost out0 = out@;
    let ghost pv = p.deep_view();
    let mut i: usize = 0;
    while i < p.len()
        invariant
            0 <= i <= pv.len(),
            pv == p.deep_view(),
            pv.len() == p@.len(),
            out@ + path_text_from(pv, i as int) == out0 + path_text_from(pv, 0),
        decreases pv.len() - i,
    {
        let ghost before = out@;
        out.append(p[i].as_str());
        if i + 1 < p.len() {
            out.append("/");
            proof {
                reveal_strlit("/");
                assert(out@ =~= before + pv[i as int] + seq!['/']);
            }
        }
        proof {
            assert(out@ + path_text_from(pv, i as int + 1) =~= out0 + path_text_from(pv, 0));
        }
        i = i + 1;
    }
    proof {
        assert(out@ =~= old(out)@ + path_text_from(pv, 0));
    }
}

impl Change {
    /// Renders the change as one line of text.
    pub fn render(&self) -> (r: String)
        ensures
            r@ == render_text(self@),
    {
        let mut out = String::new();
        match self {
            Change::RemoveDirectory(p) => {
                out.append("rmdir ");
                append_path(&mut out, p);
            },
            Change::CreateDirectory(p) => {
                out.append("mkdir ");
                append_path(&mut out, p);
            },
            Change::RemoveFile(p) => {
                out.append("rm ");
                append_path(&mut out, p);
            },
            Change::CreateFile(p, h) => {
                out.append("create ");
                append_path(&mut out, p);
                out.append(" ");
                out.append(h.as_str());
                proof {
                    reveal_strlit(" ");
                }
            },
        }
        proof {
            assert(out@ =~= render_text(self@));
        }
        out
    }
}


/// Law: diffing a well-formed directory level against itself yields no
/// change at all.
pub proof fn lemma_diff_reflexive(m: Seq<(String, Entry)>)
    requires
        crate::manifest::entries_wf(m),
    ensures
        spec_diff_entries(m, m) == Seq::<ChangeV>::empty(),
{
    lemma_removals_reflexive(m, 0);
    lemma_additions_reflexive(m, 0);
    assert(spec_diff_entries(m, m) =~= Seq::<ChangeV>::empty());
}

proof fn lemma_removals_reflexive(m: Seq<(String, Entry)>, i: int)
    requires
        crate::manifest::entries_wf(m),
        0 <= i <= m.len(),
    ensures
        removals_from(m, m, i) == Seq::<ChangeV>::empty(),
    decreases m, m.len() - i,
{
    if i < m.len() {
        crate::manifest::lemma_wf_names_unique(m);
        crate::manifest::lemma_lookup_present(m, i, 0);
        assert(crate::manifest::entry_wf(m[i].1));
        match m[i].1 {
            Entry::Directory(bs) => {
                proof_decreases_entry(m, i);
                lemma_removals_reflexive(bs@, 0);
                lemma_additions_reflexive(bs@, 0);
                assert(removals_from(bs@, bs@, 0) + additions_from(bs@, bs@, 0)
                    =~= Seq::<ChangeV>::empty());
                assert(removals_item(m, m, i) =~= Seq::<ChangeV>::empty());
            },
            Entry::File { .. } => {
                assert(removals_item(m, m, i) =~= Seq::<ChangeV>::empty());
            },
        }
        lemma_removals_reflexive(m, i + 1);
        assert(removals_from(m, m, i) =~= Seq::<ChangeV>::empty());
    }
}

proof fn lemma_additions_reflexive(m: Seq<(String, Entry)>, i: int)
    requires
        crate::manifest::entries_wf(m),
        0 <= i <= m.len(),
    ensures
        additions_from(m, m, i) == Seq::<ChangeV>::empty(),
    decreases m.len() - i,
{
    if i < m.len() {
        crate::manifest::lemma_wf_names_unique(m);
        crate::manifest::lemma_lookup_present(m, i, 0);
        lemma_additions_reflexive(m, i + 1);
        assert(additions_from(m, m, i) =~= Seq::<ChangeV>::empty());
    }
}

/// The height chain from a directory level down to the child entries of one
/// of its directories.
proof fn proof_decreases_entry(m: Seq<(String, Entry)>, i: int)
    requires
        0 <= i < m.len(),
        m[i].1 is Directory,
    ensures
        decreases_to!(m => m[i].1->Directory_0@),
{
    assert(decreases_to!(m => m[i]));
    assert(decreases_to!(m[i] => m[i].1));
    assert(decreases_to!(m[i].1 => m[i].1->Directory_0));
    assert(decreases_to!(m[i].1->Directory_0 => m[i].1->Directory_0@));
}

/// Law: an entry that resolves identically on both sides contributes no
/// change — every change the diff emits steps into some other name first.
pub proof fn lemma_unchanged_subtree(
    b: Seq<(String, Entry)>,
    a: Seq<(String, Entry)>,
    name: Seq<char>,
)
    requires
        crate::manifest::entries_wf(b),
        crate::manifest::entries_wf(a),
        lookup(b, name) == lookup(a, name),
    ensures
        forall|k: int|
            0 <= k < spec_diff_entries(b, a).len() ==> change_path(
                #[trigger] spec_diff_entries(b, a)[k],
            ).len() > 0 && change_path(spec_diff_entries(b, a)[k])[0] != name,
{
    lemma_removals_skip(b, a, name, 0);
    lemma_additions_skip(b, a, name, 0);
    assert forall|k: int| 0 <= k < spec_diff_entries(b, a).len() implies change_path(
        #[trigger] spec_diff_entries(b, a)[k],
    ).len() > 0 && change_path(spec_diff_entries(b, a)[k])[0] != name by {
        let rm = removals_from(b, a, 0);
        if k < rm.len() {
            assert(spec_diff_entries(b, a)[k] == rm[k]);
        } else {
            assert(spec_diff_entries(b, a)[k] == additions_from(b, a, 0)[k - rm.len()]);
        }
    }
}

/// Every change an item contributes steps into the item's own name first.
proof fn lemma_item_paths(name: Seq<char>, cs: Seq<ChangeV>)
    ensures
        forall|k: int|
            0 <= k < prefixed_all(seq![name], cs).len() ==> change_path(
                #[trigger] prefixed_all(seq![name], cs)[k],
            ).len() > 0 && change_path(prefixed_all(seq![name], cs)[k])[0] == name,
{
    assert forall|k: int| 0 <= k < prefixed_all(seq![name], cs).len() implies change_path(
        #[trigger] prefixed_all(seq![name], cs)[k],
    ).len() > 0 && change_path(prefixed_all(seq![name], cs)[k])[0] == name by {
        assert(prefixed_all(seq![name], cs)[k] == prefixed(seq![name], cs[k]));
        assert(change_path(prefixed(seq![name], cs[k])) == seq![name] + change_path(cs[k]));
    }
}

proof fn lemma_removals_skip(
    b: Seq<(String, Entry)>,
    a: Seq<(String, Entry)>,
    name: Seq<char>,
    i: int,
)
    requires
        crate::manifest::entries_wf(b),
        crate::manifest::entries_wf(a),
        lookup(b, name) == lookup(a, name),
        0 <= i <= b.len(),
    ensures
        forall|k: int|
            0 <= k < removals_from(b, a, i).len() ==> change_path(
                #[trigger] removals_from(b, a, i)[k],
            ).len() > 0 && change_path(removals_from(b, a, i)[k])[0] != name,
    decreases b.len() - i,
{
    if i < b.len() {
        lemma_removals_skip(b, a, name, i + 1);
        let n0 = b[i].0@;
        crate::manifest::lemma_wf_names_unique(b);
        crate::manifest::lemma_lookup_present(b, i, 0);
        let item = removals_item(b, a, i);
        if n0 == name {
            assert(lookup(a, name) == Some(b[i].1));
            assert(crate::manifest::entry_wf(b[i].1));
            match b[i].1 {
                Entry::Directory(bs) => {
                    proof_decreases_entry(b, i);
                    lemma_removals_reflexive(bs@, 0);
                    lemma_additions_reflexive(bs@, 0);
                    assert(removals_from(bs@, bs@, 0) + additions_from(bs@, bs@, 0)
                        =~= Seq::<ChangeV>::empty());
                    assert(item =~= Seq::<ChangeV>::empty());
                },
                Entry::File { .. } => {
                    assert(item =~= Seq::<ChangeV>::empty());
                },
            }
        } else {
            match (b[i].1, lookup(a, n0)) {
                (Entry::Directory(bs), Some(Entry::Directory(av))) => {
                    lemma_item_paths(n0, removals_from(bs@, av@, 0) + additions_from(bs@, av@, 0));
                },
                (Entry::File { .. }, Some(Entry::Directory(av))) => {
                    lemma_item_paths(n0, creations_from(av@, 0));
                    assert forall|k: int| 0 <= k < item.len() implies change_path(
                        #[trigger] item[k],
                    ).len() > 0 && change_path(item[k])[0] == n0 by {
                        if k >= 2 {
                            assert(item[k] == prefixed_all(seq![n0], creations_from(av@, 0))[k
                                - 2]);
                        }
                    }
                },
                _ => {
                },
            }
        }
        assert forall|k: int| 0 <= k < removals_from(b, a, i).len() implies change_path(
            #[trigger] removals_from(b, a, i)[k],
        ).len() > 0 && change_path(removals_from(b, a, i)[k])[0] != name by {
            if k < item.len() {
                assert(removals_from(b, a, i)[k] == item[k]);
            } else {
                assert(removals_from(b, a, i)[k] == removals_from(b, a, i + 1)[k - item.len()]);
            }
        }
    }
}

proof fn lemma_additions_skip(
    b: Seq<(String, Entry)>,
    a: Seq<(String, Entry)>,
    name: Seq<char>,
    i: int,
)
    requires
        crate::manifest::entries_wf(b),
        crate::manifest::entries_wf(a),
        lookup(b, name) == lookup(a, name),
        0 <= i <= a.len(),
    ensures
        forall|k: int|
            0 <= k < additions_from(b, a, i).len() ==> change_path(
                #[trigger] additions_from(b, a, i)[k],
            ).len() > 0 && change_path(additions_from(b, a, i)[k])[0] != name,
    decreases a.len() - i,
{
    if i < a.len() {
        lemma_additions_skip(b, a, name, i + 1);
        let n0 = a[i].0@;
        crate::manifest::lemma_wf_names_unique(a);
        crate::manifest::lemma_lookup_present(a, i, 0);
        let item = additions_item(b, a, i);
        if n0 == name {
            assert(lookup(b, name) == Some(a[i].1));
            assert(item =~= Seq::<ChangeV>::empty());
        } else {
            if lookup(b, n0) is None {
                match a[i].1 {
                    Entry::Directory(av) => {
                        lemma_item_paths(n0, creations_from(av@, 0));
                        assert forall|k: int| 0 <= k < item.len() implies change_path(
                            #[trigger] item[k],
                        ).len() > 0 && change_path(item[k])[0] == n0 by {
                            if k >= 1 {
                                assert(item[k] == prefixed_all(
                                    seq![n0],
                                    creations_from(av@, 0),
                                )[k - 1]);
                            }
                        }
                    },
                    Entry::File { .. } => {
                    },
                }
            }
        }
        assert forall|k: int| 0 <= k < additions_from(b, a, i).len() implies change_path(
            #[trigger] additions_from(b, a, i)[k],
        ).len() > 0 && change_path(additions_from(b, a, i)[k])[0] != name by {
            if k < item.len() {
                assert(additions_from(b, a, i)[k] == item[k]);
            } else {
                assert(additions_from(b, a, i)[k] == additions_from(b, a, i + 1)[k - item.len()]);
            }
        }
    }
}


} // verus!
