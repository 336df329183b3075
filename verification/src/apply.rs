//! The meaning of a change list: applying it to a tree.
//!
//! A tree is modelled by its content-addressed shape: a directory is the map
//! from child names to child shapes, a file is its hash text. Applying a
//! change navigates its path and, where the operation fits the tree, performs
//! it; a change that does not fit (a missing parent, a removal of the wrong
//! kind, a creation over an existing directory) makes the whole application
//! fail. The round-trip law at the end states that the changes [`diff`]
//! emits, applied in order to the "before" tree, always succeed and yield the
//! "after" tree.
//!
//! [`diff`]: crate::diff::diff

use vstd::prelude::*;
use crate::diff::{
    additions_from, additions_item, change_path, creations_from, creations_item, prefixed,
    prefixed_all, removals_from, removals_item, spec_diff_entries, ChangeV,
};
use crate::manifest::{entries_wf, entry_wf, lookup, lookup_from, Entry};

verus! {

/// The content-addressed shape of a tree: a file is its hash text, a
/// directory the map from child names to child shapes.
pub ghost enum ShapeV {
    Directory { entries: Map<Seq<char>, ShapeV> },
    File { hash: Seq<char> },
}

/// The shape of one manifest entry.
pub open spec fn entry_shape(e: Entry) -> ShapeV
    decreases e, 0int,
{
    match e {
        Entry::Directory(es) => ShapeV::Directory { entries: shape_map_from(es@, 0) },
        Entry::File { size, hash } => ShapeV::File { hash: hash@ },
    }
}

/// The shape map of one directory level from position `i` on; an earlier pair
/// overrides a later one of the same name, as lookup does.
pub open spec fn shape_map_from(s: Seq<(String, Entry)>, i: int) -> Map<Seq<char>, ShapeV>
    decreases s, s.len() - i,
{
    if i < 0 || i >= s.len() {
        Map::empty()
    } else {
        shape_map_from(s, i + 1).insert(s[i].0@, entry_shape(s[i].1))
    }
}

/// The shape map of a whole directory level.
pub open spec fn shape_map(s: Seq<(String, Entry)>) -> Map<Seq<char>, ShapeV> {
    shape_map_from(s, 0)
}

/// The shape map finds exactly what lookup finds.
pub proof fn lemma_shape_lookup(s: Seq<(String, Entry)>, n: Seq<char>, i: int)
    ensures
        shape_map_from(s, i).contains_key(n) == (lookup_from(s, n, i) is Some),
        lookup_from(s, n, i) matches Some(e) ==> shape_map_from(s, i)[n] == entry_shape(e),
    decreases s.len() - i,
{
    if 0 <= i < s.len() {
        lemma_shape_lookup(s, n, i + 1);
    }
}

/// Applies one change to a tree, navigating its path from segment `d` on.
/// `None` where the change does not fit the tree.
pub open spec fn apply_change(m: Map<Seq<char>, ShapeV>, c: ChangeV, d: int) -> Option<
    Map<Seq<char>, ShapeV>,
>
    decreases change_path(c).len() - d,
{
    let path = change_path(c);
    if d < 0 || d >= path.len() {
        None
    } else if d == path.len() - 1 {
        let name = path[d];
        match c {
            ChangeV::CreateDirectory { .. } => if m.contains_key(name) {
                None
            } else {
                Some(m.insert(name, ShapeV::Directory { entries: Map::empty() }))
            },
            ChangeV::RemoveDirectory { .. } => if m.contains_key(name) && m[name] is Directory {
                Some(m.remove(name))
            } else {
                None
            },
            ChangeV::CreateFile { hash, .. } => if m.contains_key(name) && m[name] is Directory {
                None
            } else {
                Some(m.insert(name, ShapeV::File { hash }))
            },
            ChangeV::RemoveFile { .. } => if m.contains_key(name) && m[name] is File {
                Some(m.remove(name))
            } else {
                None
            },
        }
    } else {
        let name = path[d];
        if m.contains_key(name) && m[name] is Directory {
            match apply_change(m[name]->entries, c, d + 1) {
                Some(sub) => Some(m.insert(name, ShapeV::Directory { entries: sub })),
                None => None,
            }
        } else {
            None
        }
    }
}

/// Applies a whole change list, in order; one change that does not fit makes
/// the whole application fail.
pub open spec fn apply_all(m: Map<Seq<char>, ShapeV>, cs: Seq<ChangeV>) -> Option<
    Map<Seq<char>, ShapeV>,
>
    decreases cs.len(),
{
    if cs.len() == 0 {
        Some(m)
    } else {
        match apply_change(m, cs[0], 0) {
            Some(m2) => apply_all(m2, cs.drop_first()),
            None => None,
        }
    }
}

/// Application splits over concatenation of change lists.
pub proof fn lemma_apply_all_concat(m: Map<Seq<char>, ShapeV>, cs1: Seq<ChangeV>, cs2: Seq<
    ChangeV,
>)
    ensures
        apply_all(m, cs1 + cs2) == (match apply_all(m, cs1) {
            Some(m1) => apply_all(m1, cs2),
            None => None,
        }),
    decreases cs1.len(),
{
    if cs1.len() == 0 {
        assert(cs1 + cs2 =~= cs2);
    } else {
        assert((cs1 + cs2)[0] == cs1[0]);
        assert((cs1 + cs2).drop_first() =~= cs1.drop_first() + cs2);
        match apply_change(m, cs1[0], 0) {
            Some(m2) => {
                lemma_apply_all_concat(m2, cs1.drop_first(), cs2);
            },
            None => {
            },
        }
    }
}

/// A change below one more leading segment applies as the bare change does,
/// one level deeper.
proof fn lemma_apply_prefixed_change(
    m: Map<Seq<char>, ShapeV>,
    c: ChangeV,
    n: Seq<char>,
    d: int,
)
    requires
        0 <= d,
    ensures
        apply_change(m, prefixed(seq![n], c), d + 1) == apply_change(m, c, d),
    decreases change_path(c).len() - d,
{
    let pc = prefixed(seq![n], c);
    assert(change_path(pc) == seq![n] + change_path(c));
    if d < change_path(c).len() {
        assert(change_path(pc)[d + 1] == change_path(c)[d]);
        if d < change_path(c).len() - 1 {
            let name = change_path(c)[d];
            if m.contains_key(name) && m[name] is Directory {
                lemma_apply_prefixed_change(m[name]->entries, c, n, d + 1);
            }
        }
    }
}

/// Applying a change list that sits entirely below one directory name
/// transforms exactly that directory's contents.
proof fn lemma_apply_prefixed_all(
    m: Map<Seq<char>, ShapeV>,
    n: Seq<char>,
    d: Map<Seq<char>, ShapeV>,
    cs: Seq<ChangeV>,
)
    requires
        m.contains_key(n),
        m[n] == (ShapeV::Directory { entries: d }),
        forall|k: int| 0 <= k < cs.len() ==> change_path(#[trigger] cs[k]).len() > 0,
    ensures
        apply_all(m, prefixed_all(seq![n], cs)) == (match apply_all(d, cs) {
            Some(d2) => Some(m.insert(n, ShapeV::Directory { entries: d2 })),
            None => None,
        }),
    decreases cs.len(),
{
    if cs.len() == 0 {
        assert(prefixed_all(seq![n], cs) =~= Seq::<ChangeV>::empty());
        assert(m.insert(n, ShapeV::Directory { entries: d }) =~= m);
    } else {
        let c0 = cs[0];
        let pcs = prefixed_all(seq![n], cs);
        assert(pcs[0] == prefixed(seq![n], c0));
        assert(change_path(pcs[0]) == seq![n] + change_path(c0));
        assert(change_path(pcs[0])[0] == n);
        assert(change_path(pcs[0]).len() >= 2);
        lemma_apply_prefixed_change(d, c0, n, 0);
        assert(pcs.drop_first() =~= prefixed_all(seq![n], cs.drop_first()));
        match apply_change(d, c0, 0) {
            Some(d1) => {
                let m1 = m.insert(n, ShapeV::Directory { entries: d1 });
                assert(apply_change(m, pcs[0], 0) == Some(m1));
                lemma_apply_prefixed_all(m1, n, d1, cs.drop_first());
                match apply_all(d1, cs.drop_first()) {
                    Some(d2) => {
                        assert(m1.insert(n, ShapeV::Directory { entries: d2 }) =~= m.insert(
                            n,
                            ShapeV::Directory { entries: d2 },
                        ));
                    },
                    None => {
                    },
                }
            },
            None => {
                assert(apply_change(m, pcs[0], 0) is None);
            },
        }
    }
}

/// Every change the creation pass emits has a path.
proof fn lemma_creations_paths(a: Seq<(String, Entry)>, i: int)
    ensures
        forall|k: int|
            0 <= k < creations_from(a, i).len() ==> change_path(
                #[trigger] creations_from(a, i)[k],
            ).len() > 0,
    decreases a.len() - i,
{
    if 0 <= i < a.len() {
        lemma_creations_paths(a, i + 1);
        let item = creations_item(a, i);
        assert forall|k: int| 0 <= k < creations_from(a, i).len() implies change_path(
            #[trigger] creations_from(a, i)[k],
        ).len() > 0 by {
            if k < item.len() {
                assert(creations_from(a, i)[k] == item[k]);
                match a[i].1 {
                    Entry::Directory(av) => {
                        if k >= 1 {
                            assert(item[k] == prefixed_all(
                                seq![a[i].0@],
                                creations_from(av@, 0),
                            )[k - 1]);
                        }
                    },
                    Entry::File { .. } => {
                    },
                }
            } else {
                assert(creations_from(a, i)[k] == creations_from(a, i + 1)[k - item.len()]);
            }
        }
    }
}

/// Every change the first diff pass emits has a path.
proof fn lemma_removals_paths(b: Seq<(String, Entry)>, a: Seq<(String, Entry)>, i: int)
    ensures
        forall|k: int|
            0 <= k < removals_from(b, a, i).len() ==> change_path(
                #[trigger] removals_from(b, a, i)[k],
            ).len() > 0,
    decreases b.len() - i,
{
    if 0 <= i < b.len() {
        lemma_removals_paths(b, a, i + 1);
        let item = removals_item(b, a, i);
        let name = b[i].0@;
        assert forall|k: int| 0 <= k < removals_from(b, a, i).len() implies change_path(
            #[trigger] removals_from(b, a, i)[k],
        ).len() > 0 by {
            if k < item.len() {
                assert(removals_from(b, a, i)[k] == item[k]);
                match (b[i].1, lookup(a, name)) {
                    (Entry::Directory(bs), Some(Entry::Directory(av))) => {
                        assert(item[k] == prefixed(
                            seq![name],
                            (removals_from(bs@, av@, 0) + additions_from(bs@, av@, 0))[k],
                        ));
                    },
                    (Entry::File { .. }, Some(Entry::Directory(av))) => {
                        if k >= 2 {
                            assert(item[k] == prefixed_all(
                                seq![name],
                                creations_from(av@, 0),
                            )[k - 2]);
                        }
                    },
                    _ => {
                    },
                }
            } else {
                assert(removals_from(b, a, i)[k] == removals_from(b, a, i + 1)[k - item.len()]);
            }
        }
    }
}

/// Every change the second diff pass emits has a path.
proof fn lemma_additions_paths(b: Seq<(String, Entry)>, a: Seq<(String, Entry)>, i: int)
    ensures
        forall|k: int|
            0 <= k < additions_from(b, a, i).len() ==> change_path(
                #[trigger] additions_from(b, a, i)[k],
            ).len() > 0,
    decreases a.len() - i,
{
    if 0 <= i < a.len() {
        lemma_additions_paths(b, a, i + 1);
        let item = additions_item(b, a, i);
        let name = a[i].0@;
        assert forall|k: int| 0 <= k < additions_from(b, a, i).len() implies change_path(
            #[trigger] additions_from(b, a, i)[k],
        ).len() > 0 by {
            if k < item.len() {
                assert(additions_from(b, a, i)[k] == item[k]);
                if lookup(b, name) is None {
                    match a[i].1 {
                        Entry::Directory(av) => {
                            if k >= 1 {
                                assert(item[k] == prefixed_all(
                                    seq![name],
                                    creations_from(av@, 0),
                                )[k - 1]);
                            }
                        },
                        Entry::File { .. } => {
                        },
                    }
                }
            } else {
                assert(additions_from(b, a, i)[k] == additions_from(b, a, i + 1)[k
                    - item.len()]);
            }
        }
    }
}


/// A name is found exactly when some pair carries it.
proof fn lemma_lookup_index(s: Seq<(String, Entry)>, n: Seq<char>, i: int)
    requires
        0 <= i,
    ensures
        (lookup_from(s, n, i) is Some) == (exists|j: int|
            i <= j < s.len() && #[trigger] s[j].0@ == n),
    decreases s.len() - i,
{
    if 0 <= i < s.len() {
        lemma_lookup_index(s, n, i + 1);
        if lookup_from(s, n, i) is Some {
            if s[i].0@ == n {
                assert(i <= i < s.len() && s[i].0@ == n);
            } else {
                let j = choose|j: int| i + 1 <= j < s.len() && #[trigger] s[j].0@ == n;
                assert(i <= j < s.len() && s[j].0@ == n);
            }
        } else {
            assert forall|j: int| i <= j < s.len() implies s[j].0@ != n by {
                if j >= i + 1 && s[j].0@ == n {
                    assert(exists|j2: int| i + 1 <= j2 < s.len() && #[trigger] s[j2].0@ == n);
                }
            }
        }
    }
}

/// The names of the first `i` entries of `b` that also stand in `a`, each
/// mapped to the shape of its `a` entry.
spec fn kept_map(b: Seq<(String, Entry)>, a: Seq<(String, Entry)>, i: int) -> Map<
    Seq<char>,
    ShapeV,
>
    decreases i,
{
    if i <= 0 {
        Map::empty()
    } else {
        let rest = kept_map(b, a, i - 1);
        match lookup(a, b[i - 1].0@) {
            Some(ae) => rest.insert(b[i - 1].0@, entry_shape(ae)),
            None => rest,
        }
    }
}

/// The names of the first `j` entries of `a` that are absent from `b`, each
/// mapped to the shape of its `a` entry.
spec fn created_map(b: Seq<(String, Entry)>, a: Seq<(String, Entry)>, j: int) -> Map<
    Seq<char>,
    ShapeV,
>
    decreases j,
{
    if j <= 0 {
        Map::empty()
    } else {
        let rest = created_map(b, a, j - 1);
        if lookup(b, a[j - 1].0@) is Some {
            rest
        } else {
            rest.insert(a[j - 1].0@, entry_shape(a[j - 1].1))
        }
    }
}

/// The tree state after the first diff pass has handled the first `i`
/// entries of `b`: the rest of `b` untouched, the handled names that survive
/// already in their `a` shape.
spec fn removals_state(b: Seq<(String, Entry)>, a: Seq<(String, Entry)>, i: int) -> Map<
    Seq<char>,
    ShapeV,
> {
    shape_map_from(b, i).union_prefer_right(kept_map(b, a, i))
}

/// The tree state after the second diff pass has handled the first `j`
/// entries of `a`.
spec fn additions_state(b: Seq<(String, Entry)>, a: Seq<(String, Entry)>, j: int) -> Map<
    Seq<char>,
    ShapeV,
> {
    kept_map(b, a, b.len() as int).union_prefer_right(created_map(b, a, j))
}

proof fn lemma_kept_get(b: Seq<(String, Entry)>, a: Seq<(String, Entry)>, i: int, n: Seq<char>)
    requires
        0 <= i <= b.len(),
    ensures
        kept_map(b, a, i).contains_key(n) == (exists|j: int|
            0 <= j < i && #[trigger] b[j].0@ == n && lookup(a, n) is Some),
        kept_map(b, a, i).contains_key(n) ==> (lookup(a, n) matches Some(ae) && kept_map(
            b,
            a,
            i,
        )[n] == entry_shape(ae)),
    decreases i,
{
    if i > 0 {
        lemma_kept_get(b, a, i - 1, n);
        if b[i - 1].0@ == n && lookup(a, n) is Some {
            assert(b[i - 1].0@ == n && lookup(a, n) is Some);
        }
    }
}

proof fn lemma_created_get(
    b: Seq<(String, Entry)>,
    a: Seq<(String, Entry)>,
    j: int,
    n: Seq<char>,
)
    requires
        0 <= j <= a.len(),
        forall|p: int, q: int| 0 <= p < q < a.len() ==> a[p].0@ != a[q].0@,
    ensures
        created_map(b, a, j).contains_key(n) == (exists|k: int|
            0 <= k < j && #[trigger] a[k].0@ == n && lookup(b, n) is None),
        created_map(b, a, j).contains_key(n) ==> (lookup(a, n) matches Some(ae) && created_map(
            b,
            a,
            j,
        )[n] == entry_shape(ae)),
    decreases j,
{
    if j > 0 {
        lemma_created_get(b, a, j - 1, n);
        if a[j - 1].0@ == n && lookup(b, n) is None {
            assert(a[j - 1].0@ == n && lookup(b, n) is None);
            crate::manifest::lemma_lookup_present(a, j - 1, 0);
        }
    }
}

/// The height chain from a directory level down to the child entries of one
/// of its directories.
proof fn decreases_into_children(m: Seq<(String, Entry)>, i: int)
    requires
        0 <= i < m.len(),
        m[i].1 is Directory,
    ensures
        decreases_to!(m => m[i].1->Directory_0@),
{
    assert(decreases_to!(m => m[i]));
    assert(decreases_to!(m[i] => m[i].1));
    assert(decreases_to!(m[i].1 => m[i].1->Directory_0));
    assert(decreases_to!(m[i].1->Directory_0 => m[i].1->Directory_0@));
}

/// Creating an entirely new directory level over names the tree does not hold
/// adds exactly the shapes of the new entries.
proof fn lemma_creations_apply(a: Seq<(String, Entry)>, m: Map<Seq<char>, ShapeV>, i: int)
    requires
        entries_wf(a),
        0 <= i <= a.len(),
        forall|j: int| i <= j < a.len() ==> !m.contains_key(#[trigger] a[j].0@),
    ensures
        apply_all(m, creations_from(a, i)) == Some(
            m.union_prefer_right(shape_map_from(a, i)),
        ),
    decreases a, a.len() - i,
{
    crate::manifest::lemma_wf_names_unique(a);
    if i >= a.len() {
        assert(m.union_prefer_right(shape_map_from(a, i)) =~= m);
    } else {
        let name = a[i].0@;
        let item = creations_item(a, i);
        lemma_apply_all_concat(m, item, creations_from(a, i + 1));
        proof_absent_suffix(a, name, i);
        match a[i].1 {
            Entry::File { size, hash } => {
                let c = ChangeV::CreateFile { path: seq![name], hash: hash@ };
                assert(change_path(c) == seq![name]);
                let m1 = m.insert(name, ShapeV::File { hash: hash@ });
                assert(apply_change(m, c, 0) == Some(m1));
                assert(apply_all(m, item) == Some(m1)) by {
                    reveal_with_fuel(apply_all, 2);
                    assert(item.len() == 1);
                    assert(item[0] == c);
                    assert(item.drop_first() =~= Seq::<ChangeV>::empty());
                }
                assert forall|j: int| i + 1 <= j < a.len() implies !m1.contains_key(
                    #[trigger] a[j].0@,
                ) by {
                    assert(a[j].0@ != name);
                }
                lemma_creations_apply(a, m1, i + 1);
                assert(m1.union_prefer_right(shape_map_from(a, i + 1))
                    =~= m.union_prefer_right(shape_map_from(a, i)));
            },
            Entry::Directory(av) => {
                decreases_into_children(a, i);
                let c = ChangeV::CreateDirectory { path: seq![name] };
                assert(change_path(c) == seq![name]);
                let m1 = m.insert(name, ShapeV::Directory { entries: Map::empty() });
                assert(apply_change(m, c, 0) == Some(m1));
                lemma_creations_paths(av@, 0);
                assert(entry_wf(a[i].1));
                lemma_creations_apply(av@, Map::empty(), 0);
                assert(Map::<Seq<char>, ShapeV>::empty().union_prefer_right(
                    shape_map_from(av@, 0),
                ) =~= shape_map_from(av@, 0));
                lemma_apply_prefixed_all(m1, name, Map::empty(), creations_from(av@, 0));
                let m2 = m1.insert(name, ShapeV::Directory { entries: shape_map(av@) });
                let inner = prefixed_all(seq![name], creations_from(av@, 0));
                assert(item =~= seq![c] + inner);
                lemma_apply_all_concat(m, seq![c], inner);
                assert(apply_all(m, seq![c]) == Some(m1)) by {
                    reveal_with_fuel(apply_all, 2);
                    assert(seq![c].len() == 1);
                    assert(seq![c][0] == c);
                    assert(seq![c].drop_first() =~= Seq::<ChangeV>::empty());
                }
                assert(apply_all(m, item) == Some(m2));
                assert forall|j: int| i + 1 <= j < a.len() implies !m2.contains_key(
                    #[trigger] a[j].0@,
                ) by {
                    assert(a[j].0@ != name);
                }
                lemma_creations_apply(a, m2, i + 1);
                assert(entry_shape(a[i].1) == (ShapeV::Directory {
                    entries: shape_map(av@),
                }));
                assert(m2.union_prefer_right(shape_map_from(a, i + 1))
                    =~= m.union_prefer_right(shape_map_from(a, i)));
            },
        }
    }
}

/// A name that later pairs do not carry is absent from their shape map.
proof fn proof_absent_suffix(a: Seq<(String, Entry)>, name: Seq<char>, i: int)
    requires
        0 <= i < a.len(),
        a[i].0@ == name,
        forall|p: int, q: int| 0 <= p < q < a.len() ==> a[p].0@ != a[q].0@,
    ensures
        !shape_map_from(a, i + 1).contains_key(name),
{
    crate::manifest::lemma_lookup_absent(a, name, i + 1);
    lemma_shape_lookup(a, name, i + 1);
}


/// An entry that lookup finds in a well-formed level is well-formed.
proof fn lemma_lookup_wf(s: Seq<(String, Entry)>, n: Seq<char>)
    requires
        entries_wf(s),
        lookup(s, n) is Some,
    ensures
        lookup(s, n) matches Some(e) ==> entry_wf(e),
{
    crate::manifest::lemma_wf_names_unique(s);
    lemma_lookup_index(s, n, 0);
    let j = choose|j: int| 0 <= j < s.len() && #[trigger] s[j].0@ == n;
    crate::manifest::lemma_lookup_present(s, j, 0);
    assert(entry_wf(s[j].1));
}

/// Every change of the two inner diff passes has a path.
proof fn lemma_diff_paths(bs: Seq<(String, Entry)>, av: Seq<(String, Entry)>)
    ensures
        forall|k: int|
            0 <= k < (removals_from(bs, av, 0) + additions_from(bs, av, 0)).len()
                ==> change_path(
                #[trigger] (removals_from(bs, av, 0) + additions_from(bs, av, 0))[k],
            ).len() > 0,
{
    lemma_removals_paths(bs, av, 0);
    lemma_additions_paths(bs, av, 0);
    let inner = removals_from(bs, av, 0) + additions_from(bs, av, 0);
    assert forall|k: int| 0 <= k < inner.len() implies change_path(
        #[trigger] inner[k],
    ).len() > 0 by {
        if k < removals_from(bs, av, 0).len() {
            assert(inner[k] == removals_from(bs, av, 0)[k]);
        } else {
            assert(inner[k] == additions_from(bs, av, 0)[k - removals_from(bs, av, 0).len()]);
        }
    }
}

/// The first diff pass turns the state at position `i` into the state at the
/// end of `b`: every remaining `b` entry removed or replaced by its `a`
/// shape.
proof fn lemma_removals_apply(b: Seq<(String, Entry)>, a: Seq<(String, Entry)>, i: int)
    requires
        entries_wf(b),
        entries_wf(a),
        0 <= i <= b.len(),
    ensures
        apply_all(removals_state(b, a, i), removals_from(b, a, i)) == Some(
            removals_state(b, a, b.len() as int),
        ),
    decreases b, a, b.len() - i, 0int,
{
    crate::manifest::lemma_wf_names_unique(b);
    crate::manifest::lemma_wf_names_unique(a);
    if i < b.len() {
        let name = b[i].0@;
        let m = removals_state(b, a, i);
        let m_next = removals_state(b, a, i + 1);
        let item = removals_item(b, a, i);
        lemma_apply_all_concat(m, item, removals_from(b, a, i + 1));
        crate::manifest::lemma_lookup_absent(b, name, i + 1);
        lemma_shape_lookup(b, name, i + 1);
        lemma_kept_get(b, a, i, name);
        assert(!kept_map(b, a, i).contains_key(name)) by {
            if kept_map(b, a, i).contains_key(name) {
                let j = choose|j: int| 0 <= j < i && #[trigger] b[j].0@ == name && lookup(
                    a,
                    name,
                ) is Some;
                assert(b[j].0@ != b[i].0@);
            }
        }
        lemma_kept_get(b, a, i + 1, name);
        assert(m.contains_key(name));
        assert(m[name] == entry_shape(b[i].1));
        assert(entry_wf(b[i].1));
        assert forall|n2: Seq<char>| n2 != name implies (kept_map(b, a, i + 1).contains_key(n2)
            == kept_map(b, a, i).contains_key(n2)) && (kept_map(b, a, i + 1).contains_key(n2)
            ==> kept_map(b, a, i + 1)[n2] == kept_map(b, a, i)[n2]) by {}
        match (b[i].1, lookup(a, name)) {
            (Entry::Directory(bs), Some(Entry::Directory(av))) => {
                decreases_into_children(b, i);
                lemma_lookup_wf(a, name);
                let inner = removals_from(bs@, av@, 0) + additions_from(bs@, av@, 0);
                lemma_diff_paths(bs@, av@);
                lemma_diff_apply(bs@, av@);
                assert(m[name] == (ShapeV::Directory { entries: shape_map(bs@) }));
                lemma_apply_prefixed_all(m, name, shape_map(bs@), inner);
                assert(apply_all(m, item) == Some(m.insert(name, ShapeV::Directory {
                    entries: shape_map(av@),
                })));
                assert(m.insert(name, ShapeV::Directory { entries: shape_map(av@) })
                    =~= m_next);
            },
            (Entry::Directory(_), Some(Entry::File { size, hash })) => {
                let c1 = ChangeV::RemoveDirectory { path: seq![name] };
                let c2 = ChangeV::CreateFile { path: seq![name], hash: hash@ };
                assert(item == seq![c1, c2]);
                assert(change_path(c1) == seq![name]);
                assert(change_path(c2) == seq![name]);
                let m1 = m.remove(name);
                assert(apply_change(m, c1, 0) == Some(m1));
                let m2 = m1.insert(name, ShapeV::File { hash: hash@ });
                assert(apply_change(m1, c2, 0) == Some(m2));
                assert(apply_all(m, item) == Some(m2)) by {
                    reveal_with_fuel(apply_all, 3);
                    assert(item[0] == c1);
                    assert(item.drop_first() =~= seq![c2]);
                    assert(seq![c2][0] == c2);
                    assert(seq![c2].drop_first() =~= Seq::<ChangeV>::empty());
                }
                assert(m2 =~= m_next);
            },
            (Entry::Directory(_), None) => {
                let c1 = ChangeV::RemoveDirectory { path: seq![name] };
                assert(item == seq![c1]);
                assert(change_path(c1) == seq![name]);
                let m1 = m.remove(name);
                assert(apply_change(m, c1, 0) == Some(m1));
                assert(apply_all(m, item) == Some(m1)) by {
                    reveal_with_fuel(apply_all, 2);
                    assert(item[0] == c1);
                    assert(item.drop_first() =~= Seq::<ChangeV>::empty());
                }
                assert(m1 =~= m_next);
            },
            (Entry::File { .. }, Some(Entry::Directory(av))) => {
                lemma_lookup_wf(a, name);
                let c1 = ChangeV::RemoveFile { path: seq![name] };
                let c2 = ChangeV::CreateDirectory { path: seq![name] };
                let inner = prefixed_all(seq![name], creations_from(av@, 0));
                assert(item == seq![c1, c2] + inner);
                assert(change_path(c1) == seq![name]);
                assert(change_path(c2) == seq![name]);
                let m1 = m.remove(name);
                assert(apply_change(m, c1, 0) == Some(m1));
                let m2 = m1.insert(name, ShapeV::Directory { entries: Map::empty() });
                assert(apply_change(m1, c2, 0) == Some(m2));
                assert(apply_all(m, seq![c1, c2]) == Some(m2)) by {
                    reveal_with_fuel(apply_all, 3);
                    assert(seq![c1, c2][0] == c1);
                    assert(seq![c1, c2].drop_first() =~= seq![c2]);
                    assert(seq![c2][0] == c2);
                    assert(seq![c2].drop_first() =~= Seq::<ChangeV>::empty());
                }
                lemma_apply_all_concat(m, seq![c1, c2], inner);
                lemma_creations_paths(av@, 0);
                lemma_creations_apply(av@, Map::empty(), 0);
                assert(Map::<Seq<char>, ShapeV>::empty().union_prefer_right(
                    shape_map_from(av@, 0),
                ) =~= shape_map_from(av@, 0));
                lemma_apply_prefixed_all(m2, name, Map::empty(), creations_from(av@, 0));
                let m3 = m2.insert(name, ShapeV::Directory { entries: shape_map(av@) });
                assert(apply_all(m, item) == Some(m3));
                assert(m3 =~= m_next);
            },
            (
                Entry::File { size: bsize, hash: bhash },
                Some(Entry::File { size: asize, hash: ahash }),
            ) => {
                if ahash@ != bhash@ {
                    let c1 = ChangeV::CreateFile { path: seq![name], hash: ahash@ };
                    assert(item == seq![c1]);
                    assert(change_path(c1) == seq![name]);
                    let m1 = m.insert(name, ShapeV::File { hash: ahash@ });
                    assert(apply_change(m, c1, 0) == Some(m1));
                    assert(apply_all(m, item) == Some(m1)) by {
                        reveal_with_fuel(apply_all, 2);
                        assert(item[0] == c1);
                        assert(item.drop_first() =~= Seq::<ChangeV>::empty());
                    }
                    assert(m1 =~= m_next);
                } else {
                    assert(item == Seq::<ChangeV>::empty());
                    assert(apply_all(m, item) == Some(m));
                    assert(m =~= m_next);
                }
            },
            (Entry::File { .. }, None) => {
                let c1 = ChangeV::RemoveFile { path: seq![name] };
                assert(item == seq![c1]);
                assert(change_path(c1) == seq![name]);
                let m1 = m.remove(name);
                assert(apply_change(m, c1, 0) == Some(m1));
                assert(apply_all(m, item) == Some(m1)) by {
                    reveal_with_fuel(apply_all, 2);
                    assert(item[0] == c1);
                    assert(item.drop_first() =~= Seq::<ChangeV>::empty());
                }
                assert(m1 =~= m_next);
            },
        }
        lemma_removals_apply(b, a, i + 1);
    }
}

/// The second diff pass adds every `a` entry whose name is new, turning the
/// state it starts from into the full shape of `a`.
proof fn lemma_additions_apply(b: Seq<(String, Entry)>, a: Seq<(String, Entry)>, j: int)
    requires
        entries_wf(b),
        entries_wf(a),
        0 <= j <= a.len(),
    ensures
        apply_all(additions_state(b, a, j), additions_from(b, a, j)) == Some(
            additions_state(b, a, a.len() as int),
        ),
    decreases b, a, a.len() - j, 0int,
{
    crate::manifest::lemma_wf_names_unique(b);
    crate::manifest::lemma_wf_names_unique(a);
    if j < a.len() {
        let name = a[j].0@;
        let m = additions_state(b, a, j);
        let m_next = additions_state(b, a, j + 1);
        let item = additions_item(b, a, j);
        lemma_apply_all_concat(m, item, additions_from(b, a, j + 1));
        if lookup(b, name) is Some {
            assert(item == Seq::<ChangeV>::empty());
            assert(apply_all(m, item) == Some(m));
            assert(m =~= m_next);
        } else {
            lemma_kept_get(b, a, b.len() as int, name);
            assert(!kept_map(b, a, b.len() as int).contains_key(name)) by {
                if kept_map(b, a, b.len() as int).contains_key(name) {
                    let k = choose|k: int|
                        0 <= k < b.len() && #[trigger] b[k].0@ == name && lookup(
                            a,
                            name,
                        ) is Some;
                    crate::manifest::lemma_lookup_present(b, k, 0);
                }
            }
            lemma_created_get(b, a, j, name);
            assert(!created_map(b, a, j).contains_key(name)) by {
                if created_map(b, a, j).contains_key(name) {
                    let k = choose|k: int|
                        0 <= k < j && #[trigger] a[k].0@ == name && lookup(b, name) is None;
                    assert(a[k].0@ != a[j].0@);
                }
            }
            assert(!m.contains_key(name));
            assert(entry_wf(a[j].1));
            match a[j].1 {
                Entry::Directory(av) => {
                    decreases_into_children(a, j);
                    let c1 = ChangeV::CreateDirectory { path: seq![name] };
                    let inner = prefixed_all(seq![name], creations_from(av@, 0));
                    assert(item == seq![c1] + inner);
                    assert(change_path(c1) == seq![name]);
                    let m1 = m.insert(name, ShapeV::Directory { entries: Map::empty() });
                    assert(apply_change(m, c1, 0) == Some(m1));
                    assert(apply_all(m, seq![c1]) == Some(m1)) by {
                        reveal_with_fuel(apply_all, 2);
                        assert(seq![c1][0] == c1);
                        assert(seq![c1].drop_first() =~= Seq::<ChangeV>::empty());
                    }
                    lemma_apply_all_concat(m, seq![c1], inner);
                    lemma_creations_paths(av@, 0);
                    lemma_creations_apply(av@, Map::empty(), 0);
                    assert(Map::<Seq<char>, ShapeV>::empty().union_prefer_right(
                        shape_map_from(av@, 0),
                    ) =~= shape_map_from(av@, 0));
                    lemma_apply_prefixed_all(m1, name, Map::empty(), creations_from(av@, 0));
                    let m2 = m1.insert(name, ShapeV::Directory { entries: shape_map(av@) });
                    assert(apply_all(m, item) == Some(m2));
                    assert(m2 =~= m_next);
                },
                Entry::File { size, hash } => {
                    let c1 = ChangeV::CreateFile { path: seq![name], hash: hash@ };
                    assert(item == seq![c1]);
                    assert(change_path(c1) == seq![name]);
                    let m1 = m.insert(name, ShapeV::File { hash: hash@ });
                    assert(apply_change(m, c1, 0) == Some(m1));
                    assert(apply_all(m, item) == Some(m1)) by {
                        reveal_with_fuel(apply_all, 2);
                        assert(item[0] == c1);
                        assert(item.drop_first() =~= Seq::<ChangeV>::empty());
                    }
                    assert(m1 =~= m_next);
                },
            }
        }
        lemma_additions_apply(b, a, j + 1);
    }
}

/// Law: the changes that the diff of two well-formed trees emits, applied in
/// order to the shape of the "before" tree, always succeed and yield exactly
/// the shape of the "after" tree.
pub proof fn lemma_diff_apply(b: Seq<(String, Entry)>, a: Seq<(String, Entry)>)
    requires
        entries_wf(b),
        entries_wf(a),
    ensures
        apply_all(shape_map(b), spec_diff_entries(b, a)) == Some(shape_map(a)),
    decreases b, a, b.len() + a.len(), 1int,
{
    crate::manifest::lemma_wf_names_unique(b);
    crate::manifest::lemma_wf_names_unique(a);
    lemma_removals_apply(b, a, 0);
    lemma_additions_apply(b, a, 0);
    assert(removals_state(b, a, 0) =~= shape_map(b));
    assert(additions_state(b, a, 0) =~= removals_state(b, a, b.len() as int));
    lemma_apply_all_concat(shape_map(b), removals_from(b, a, 0), additions_from(b, a, 0));
    let fin = additions_state(b, a, a.len() as int);
    assert forall|n: Seq<char>| #[trigger] fin.contains_key(n) implies shape_map(
        a,
    ).contains_key(n) && fin[n] == shape_map(a)[n] by {
        lemma_kept_get(b, a, b.len() as int, n);
        lemma_created_get(b, a, a.len() as int, n);
        lemma_shape_lookup(a, n, 0);
        lemma_lookup_index(a, n, 0);
        lemma_lookup_index(b, n, 0);
    }
    assert forall|n: Seq<char>| #[trigger] shape_map(a).contains_key(n) implies fin.contains_key(
        n,
    ) by {
        lemma_kept_get(b, a, b.len() as int, n);
        lemma_created_get(b, a, a.len() as int, n);
        lemma_shape_lookup(a, n, 0);
        lemma_lookup_index(a, n, 0);
        lemma_lookup_index(b, n, 0);
    }
    assert(fin =~= shape_map(a));
}


/// Law, at the manifest level: the change list that [`diff`] returns for two
/// well-formed manifests, applied in order to the shape of the first, always
/// succeeds and yields the shape of the second.
///
/// [`diff`]: crate::diff::diff
pub proof fn lemma_diff_apply_manifest(
    before: crate::manifest::Manifest,
    after: crate::manifest::Manifest,
    changes: Seq<ChangeV>,
)
    requires
        before.wf(),
        after.wf(),
        changes == spec_diff_entries(before.entries@, after.entries@),
    ensures
        apply_all(shape_map(before.entries@), changes) == Some(shape_map(after.entries@)),
{
    lemma_diff_apply(before.entries@, after.entries@);
}

} // verus!
