//! The manifest data model: a tree of named entries.

use vstd::prelude::*;

verus! {

/// Description of the files and directories in a package.
pub struct Manifest {
    pub entries: Entries,
}

/// The named entries of one directory level. A well-formed value keeps its
/// pairs strictly sorted by name (see [`entries_wf`]), so names are unique
/// and traversal order is deterministic.
pub type Entries = Vec<(String, Entry)>;

/// An entry in a package manifest.
pub enum Entry {
    /// A directory.
    Directory(Entries),
    /// A file identified by a hash of its contents.
    File { size: u64, hash: crate::hash::Hash },
}

/// Strict lexicographic order on names, by Unicode scalar value.
pub open spec fn name_lt(a: Seq<char>, b: Seq<char>) -> bool
    decreases a.len(),
{
    if b.len() == 0 {
        false
    } else if a.len() == 0 {
        true
    } else if (a[0] as int) < (b[0] as int) {
        true
    } else if a[0] == b[0] {
        name_lt(a.drop_first(), b.drop_first())
    } else {
        false
    }
}

/// Well-formedness of one directory level: strictly sorted names, and every
/// child directory well-formed in turn.
pub open spec fn entries_wf(s: Seq<(String, Entry)>) -> bool
    decreases s,
{
    &&& forall|i: int, j: int| 0 <= i < j < s.len() ==> name_lt(s[i].0@, s[j].0@)
    &&& forall|i: int| 0 <= i < s.len() ==> entry_wf(#[trigger] s[i].1)
}

/// Well-formedness of a single entry.
pub open spec fn entry_wf(e: Entry) -> bool
    decreases e,
{
    match e {
        Entry::Directory(es) => entries_wf(es@),
        Entry::File { .. } => true,
    }
}

impl Manifest {
    /// Well-formedness of the whole tree.
    pub open spec fn wf(&self) -> bool {
        entries_wf(self.entries@)
    }

    /// An empty manifest.
    pub fn new() -> (r: Manifest)
        ensures
            r.entries@ == Seq::<(String, Entry)>::empty(),
            r.wf(),
    {
        Manifest { entries: Vec::new() }
    }
}

/// The entry under the given name, searching from position `i` on: the first
/// pair whose name matches.
pub open spec fn lookup_from(s: Seq<(String, Entry)>, name: Seq<char>, i: int) -> Option<Entry>
    decreases s.len() - i,
{
    if i < 0 || i >= s.len() {
        None
    } else if s[i].0@ == name {
        Some(s[i].1)
    } else {
        lookup_from(s, name, i + 1)
    }
}

/// The entry under the given name, if any.
pub open spec fn lookup(s: Seq<(String, Entry)>, name: Seq<char>) -> Option<Entry> {
    lookup_from(s, name, 0)
}

/// Strict lexicographic order never holds of a name and itself.
pub proof fn lemma_name_lt_irrefl(a: Seq<char>)
    ensures
        !name_lt(a, a),
    decreases a.len(),
{
    if a.len() > 0 {
        lemma_name_lt_irrefl(a.drop_first());
    }
}

/// Strict lexicographic order is transitive.
pub proof fn lemma_name_lt_trans(a: Seq<char>, b: Seq<char>, c: Seq<char>)
    requires
        name_lt(a, b),
        name_lt(b, c),
    ensures
        name_lt(a, c),
    decreases a.len() + b.len() + c.len(),
{
    if a.len() > 0 && b.len() > 0 && c.len() > 0 {
        if a[0] == b[0] && b[0] == c[0] {
            lemma_name_lt_trans(a.drop_first(), b.drop_first(), c.drop_first());
        }
    }
}

/// Any two names are ordered one way or the other, or are equal.
pub proof fn lemma_name_lt_total(a: Seq<char>, b: Seq<char>)
    ensures
        name_lt(a, b) || name_lt(b, a) || a == b,
    decreases a.len(),
{
    if a.len() == 0 && b.len() == 0 {
        assert(a =~= b);
    }

    if a.len() > 0 && b.len() > 0 && a[0] == b[0] {
        lemma_name_lt_total(a.drop_first(), b.drop_first());
        if a.drop_first() == b.drop_first() {
            assert(a.drop_first().len() == a.len() - 1);
            assert(b.drop_first().len() == b.len() - 1);
            assert(a.len() == b.len());
            assert forall|k: int| 0 <= k < a.len() implies a[k] == b[k] by {
                if k > 0 {
                    assert(a[k] == a.drop_first()[k - 1]);
                    assert(b[k] == b.drop_first()[k - 1]);
                }
            }
            assert(a =~= b);
        }
    }
}

/// Ordered names differ.
pub proof fn lemma_name_lt_ne(a: Seq<char>, b: Seq<char>)
    requires
        name_lt(a, b),
    ensures
        a != b,
{
    lemma_name_lt_irrefl(a);
}

/// In a well-formed level all names are distinct.
pub proof fn lemma_wf_names_unique(s: Seq<(String, Entry)>)
    requires
        entries_wf(s),
    ensures
        forall|i: int, j: int| 0 <= i < j < s.len() ==> s[i].0@ != s[j].0@,
{
    assert forall|i: int, j: int| 0 <= i < j < s.len() implies s[i].0@ != s[j].0@ by {
        lemma_name_lt_ne(s[i].0@, s[j].0@);
    }
}

/// In a level with distinct names, looking a name up from the start finds the
/// pair that carries it.
pub proof fn lemma_lookup_present(s: Seq<(String, Entry)>, k: int, i: int)
    requires
        forall|p: int, q: int| 0 <= p < q < s.len() ==> s[p].0@ != s[q].0@,
        0 <= i <= k < s.len(),
    ensures
        lookup_from(s, s[k].0@, i) == Some(s[k].1),
    decreases k - i,
{
    if i < k {
        lemma_lookup_present(s, k, i + 1);
    }
}

/// A name that no pair from position `i` on carries is not found.
pub proof fn lemma_lookup_absent(s: Seq<(String, Entry)>, name: Seq<char>, i: int)
    requires
        forall|j: int| i <= j < s.len() ==> s[j].0@ != name,
    ensures
        lookup_from(s, name, i) is None,
    decreases s.len() - i,
{
    if 0 <= i < s.len() {
        lemma_lookup_absent(s, name, i + 1);
    }
}

/// Where a new pair comes to stand when inserted at or after position `i`:
/// before the first strictly greater name, replacing an equal name, after the
/// end otherwise.
pub open spec fn insert_at(s: Seq<(String, Entry)>, name: String, e: Entry, i: int) -> Seq<
    (String, Entry),
>
    decreases s.len() - i,
{
    if i < 0 || i >= s.len() {
        s.push((name, e))
    } else if name_lt(name@, s[i].0@) {
        s.insert(i, (name, e))
    } else if name@ == s[i].0@ {
        s.update(i, (name, e))
    } else {
        insert_at(s, name, e, i + 1)
    }
}

/// The level with the pair `(name, e)` put in its place: sorted order is kept,
/// an existing entry of that name is replaced.
pub open spec fn sorted_insert(s: Seq<(String, Entry)>, name: String, e: Entry) -> Seq<
    (String, Entry),
> {
    insert_at(s, name, e, 0)
}

/// Puts an entry in its place in one directory level, keeping the names
/// sorted. An existing entry of the same name is replaced.
pub fn entries_insert(entries: &mut Entries, name: String, entry: Entry)
    ensures
        final(entries)@ == sorted_insert(old(entries)@, name, entry),
{
    let ghost s0 = entries@;
    let mut i: usize = 0;
    while i < entries.len()
        invariant
            0 <= i <= s0.len(),
            s0 == old(entries)@,
            entries@ == s0,
            insert_at(s0, name, entry, i as int) == sorted_insert(s0, name, entry),
            forall|j: int| 0 <= j < i ==> !name_lt(name@, s0[j].0@) && name@ != s0[j].0@,
        decreases s0.len() - i,
    {
        if name_less_than(&name, &entries[i].0) {
            entries.insert(i, (name, entry));
            proof {
                assert(entries@ == s0.insert(i as int, (name, entry)));
                assert(insert_at(s0, name, entry, i as int) == s0.insert(
                    i as int,
                    (name, entry),
                ));
            }
            return ;
        }
        if name == entries[i].0 {
            entries.remove(i);
            entries.insert(i, (name, entry));
            proof {
                assert(entries@ =~= s0.update(i as int, (name, entry)));
                assert(insert_at(s0, name, entry, i as int) == s0.update(
                    i as int,
                    (name, entry),
                ));
            }
            return ;
        }
        i = i + 1;
    }
    entries.push((name, entry));
}

/// Insertion preserves well-formedness and changes exactly the one name:
/// afterwards the inserted entry is found under its name, every other name
/// resolves as before.
pub proof fn lemma_sorted_insert_wf(s: Seq<(String, Entry)>, name: String, e: Entry)
    requires
        entries_wf(s),
        entry_wf(e),
    ensures
        entries_wf(sorted_insert(s, name, e)),
        lookup(sorted_insert(s, name, e), name@) == Some(e),
        forall|n: Seq<char>| n != name@ ==> lookup(sorted_insert(s, name, e), n) == lookup(s, n),
{
    lemma_insert_at_wf(s, name, e, 0);
}

proof fn lemma_insert_at_wf(s: Seq<(String, Entry)>, name: String, e: Entry, i: int)
    requires
        entries_wf(s),
        entry_wf(e),
        0 <= i <= s.len(),
        forall|j: int| 0 <= j < i ==> name_lt(s[j].0@, name@),
    ensures
        entries_wf(insert_at(s, name, e, i)),
        lookup(insert_at(s, name, e, i), name@) == Some(e),
        forall|n: Seq<char>| n != name@ ==> lookup(insert_at(s, name, e, i), n) == lookup(s, n),
    decreases s.len() - i,
{
    lemma_wf_names_unique(s);
    if i == s.len() {
        let r = s.push((name, e));
        assert(forall|p: int| 0 <= p < s.len() ==> r[p] == s[p]);
        assert(r[s.len() as int] == (name, e));
        assert(entries_wf(r));
        lemma_wf_names_unique(r);
        assert forall|p: int|
            0 <= p < s.len() && (#[trigger] s[p]).0@ != name@ implies exists|q: int|
            0 <= q < r.len() && #[trigger] r[q] == s[p] by {
            assert(r[p] == s[p]);
        }
        lemma_insert_result_lookups(s, r, name, e, i);
    } else if name_lt(name@, s[i].0@) {
        let r = s.insert(i, (name, e));
        assert(r.len() == s.len() + 1);
        assert(forall|p: int| 0 <= p < i ==> r[p] == s[p]);
        assert(r[i] == (name, e));
        assert(forall|q: int| i < q < r.len() ==> r[q] == s[q - 1]);
        assert(entries_wf(r)) by {
            assert forall|p: int, q: int| 0 <= p < q < r.len() implies name_lt(
                r[p].0@,
                r[q].0@,
            ) by {
                if p == i && q > i + 1 {
                    lemma_name_lt_trans(name@, s[i].0@, s[q - 1].0@);
                }
            }
            assert(forall|p: int| 0 <= p < r.len() ==> entry_wf(#[trigger] r[p].1));
        }
        lemma_wf_names_unique(r);
        assert forall|p: int|
            0 <= p < s.len() && (#[trigger] s[p]).0@ != name@ implies exists|q: int|
            0 <= q < r.len() && #[trigger] r[q] == s[p] by {
            if p < i {
                assert(r[p] == s[p]);
            } else {
                assert(r[p + 1] == s[p]);
            }
        }
        lemma_insert_result_lookups(s, r, name, e, i);
    } else if name@ == s[i].0@ {
        let r = s.update(i, (name, e));
        assert(forall|p: int| 0 <= p < s.len() && p != i ==> r[p] == s[p]);
        assert(r[i] == (name, e));
        assert(entries_wf(r)) by {
            assert forall|p: int, q: int| 0 <= p < q < r.len() implies name_lt(
                r[p].0@,
                r[q].0@,
            ) by {
                assert(name_lt(s[p].0@, s[q].0@));
            }
        }
        lemma_wf_names_unique(r);
        assert forall|p: int|
            0 <= p < s.len() && (#[trigger] s[p]).0@ != name@ implies exists|q: int|
            0 <= q < r.len() && #[trigger] r[q] == s[p] by {
            assert(s[p].0@ != s[i].0@);
            assert(p != i);
            assert(r[p] == s[p]);
        }
        lemma_insert_result_lookups(s, r, name, e, i);
    } else {
        lemma_name_lt_total(name@, s[i].0@);
        lemma_insert_at_wf(s, name, e, i + 1);
    }
}

/// Lookup facts shared by the three shapes an insertion can take.
proof fn lemma_insert_result_lookups(
    s: Seq<(String, Entry)>,
    r: Seq<(String, Entry)>,
    name: String,
    e: Entry,
    i: int,
)
    requires
        forall|p: int, q: int| 0 <= p < q < s.len() ==> s[p].0@ != s[q].0@,
        forall|p: int, q: int| 0 <= p < q < r.len() ==> r[p].0@ != r[q].0@,
        0 <= i <= s.len(),
        exists|k: int| 0 <= k < r.len() && r[k] == (name, e),
        forall|q: int|
            0 <= q < r.len() && (#[trigger] r[q]).0@ != name@ ==> exists|p: int|
                0 <= p < s.len() && #[trigger] s[p] == r[q],
        forall|p: int|
            0 <= p < s.len() && (#[trigger] s[p]).0@ != name@ ==> exists|q: int|
                0 <= q < r.len() && #[trigger] r[q] == s[p],
    ensures
        lookup(r, name@) == Some(e),
        forall|n: Seq<char>| n != name@ ==> lookup(r, n) == lookup(s, n),
{
    let k = choose|k: int| 0 <= k < r.len() && r[k] == (name, e);
    lemma_lookup_present(r, k, 0);
    assert forall|n: Seq<char>| n != name@ implies lookup(r, n) == lookup(s, n) by {
        if exists|p: int| 0 <= p < s.len() && (#[trigger] s[p]).0@ == n {
            let p = choose|p: int| 0 <= p < s.len() && (#[trigger] s[p]).0@ == n;
            let q = choose|q: int| 0 <= q < r.len() && #[trigger] r[q] == s[p];
            lemma_lookup_present(s, p, 0);
            lemma_lookup_present(r, q, 0);
        } else {
            assert forall|q: int| 0 <= q < r.len() implies (#[trigger] r[q]).0@ != n by {
                if r[q].0@ == n {
                    let p = choose|p: int| 0 <= p < s.len() && #[trigger] s[p] == r[q];
                    assert(s[p].0@ == n);
                }
            }
            lemma_lookup_absent(s, n, 0);
            lemma_lookup_absent(r, n, 0);
        }
    }
}

/// Strict lexicographic comparison of two names.
pub fn name_less_than(a: &String, b: &String) -> (r: bool)
    ensures
        r == name_lt(a@, b@),
{
    let a_str = a.as_str();
    let b_str = b.as_str();
    let a_len = a_str.unicode_len();
    let b_len = b_str.unicode_len();
    let mut i: usize = 0;
    proof {
        assert(a@.skip(0) =~= a@);
        assert(b@.skip(0) =~= b@);
    }
    loop
        invariant
            0 <= i <= a_len,
            i <= b_len,
            a_len == a@.len(),
            b_len == b@.len(),
            a_str@ == a@,
            b_str@ == b@,
            name_lt(a@.skip(i as int), b@.skip(i as int)) == name_lt(a@, b@),
        decreases a_len - i,
    {
        proof {
            assert(a@.skip(i as int).len() == a@.len() - i);
            assert(b@.skip(i as int).len() == b@.len() - i);
        }
        if i >= b_len {
            return false;
        }
        if i >= a_len {
            return true;
        }
        let ca = a_str.get_char(i);
        let cb = b_str.get_char(i);
        proof {
            assert(a@.skip(i as int)[0] == a@[i as int]);
            assert(b@.skip(i as int)[0] == b@[i as int]);
        }
        if (ca as u32) < (cb as u32) {
            proof {
                assert((a@[i as int] as int) < (b@[i as int] as int));
            }
            return true;
        }
        proof {
            assert(!((a@[i as int] as int) < (b@[i as int] as int)));
        }
        if ca != cb {
            return false;
        }
        proof {
            assert(a@.skip(i as int).drop_first() =~= a@.skip(i as int + 1));
            assert(b@.skip(i as int).drop_first() =~= b@.skip(i as int + 1));
        }
        i = i + 1;
    }
}

/// Finds the entry under the given name in one directory level.
pub fn entries_get<'a>(s: &'a Entries, name: &String) -> (r: Option<&'a Entry>)
    ensures
        match r {
            Some(e) => lookup(s@, name@) == Some(*e),
            None => lookup(s@, name@) is None,
        },
{
    let mut i: usize = 0;
    while i < s.len()
        invariant
            0 <= i <= s@.len(),
            lookup_from(s@, name@, i as int) == lookup(s@, name@),
        decreases s@.len() - i,
    {
        if s[i].0 == *name {
            return Some(&s[i].1);
        }
        i = i + 1;
    }
    None
}


/// The decimal digits of a number, most significant first.
pub open spec fn dec_digits(n: nat) -> Seq<char>
    decreases n,
{
    if n < 10 {
        seq![digit_char(n)]
    } else {
        dec_digits(n / 10) + seq![digit_char(n % 10)]
    }
}

/// The character for one decimal digit.
pub open spec fn digit_char(d: nat) -> char {
    if d == 0 {
        '0'
    } else if d == 1 {
        '1'
    } else if d == 2 {
        '2'
    } else if d == 3 {
        '3'
    } else if d == 4 {
        '4'
    } else if d == 5 {
        '5'
    } else if d == 6 {
        '6'
    } else if d == 7 {
        '7'
    } else if d == 8 {
        '8'
    } else {
        '9'
    }
}

/// Appends one decimal digit.
fn push_digit(out: &mut String, d: u64)
    requires
        d < 10,
    ensures
        final(out)@ == old(out)@ + seq![digit_char(d as nat)],
{
    proof {
        reveal_strlit("0");
        reveal_strlit("1");
        reveal_strlit("2");
        reveal_strlit("3");
        reveal_strlit("4");
        reveal_strlit("5");
        reveal_strlit("6");
        reveal_strlit("7");
        reveal_strlit("8");
        reveal_strlit("9");
    }
    if d == 0 {
        out.append("0");
    } else if d == 1 {
        out.append("1");
    } else if d == 2 {
        out.append("2");
    } else if d == 3 {
        out.append("3");
    } else if d == 4 {
        out.append("4");
    } else if d == 5 {
        out.append("5");
    } else if d == 6 {
        out.append("6");
    } else if d == 7 {
        out.append("7");
    } else if d == 8 {
        out.append("8");
    } else {
        out.append("9");
    }
    proof {
        assert(out@ =~= old(out)@ + seq![digit_char(d as nat)]);
    }
}

/// Appends a number in decimal.
pub fn push_decimal(out: &mut String, n: u64)
    ensures
        final(out)@ == old(out)@ + dec_digits(n as nat),
    decreases n,
{
    if n >= 10 {
        push_decimal(out, n / 10);
    }
    push_digit(out, n % 10);
    proof {
        if n >= 10 {
            assert(out@ =~= old(out)@ + dec_digits(n as nat));
        } else {
            assert(out@ =~= old(out)@ + dec_digits(n as nat));
        }
    }
}

/// The serialized lines for the entries of one directory level from position
/// `i` on, depth-first: a file renders as its path, size and hash, an empty
/// directory as its path with a trailing slash, and a non-empty directory
/// renders only its contents. Every line starts with a newline; `prefix` is
/// the path of the level, with a trailing slash, as text.
pub open spec fn text_from(s: Seq<(String, Entry)>, prefix: Seq<char>, i: int) -> Seq<char>
    decreases s, s.len() - i,
{
    if i < 0 || i >= s.len() {
        Seq::empty()
    } else {
        let item = match s[i].1 {
            Entry::File { size, hash } => seq!['\n'] + prefix + s[i].0@ + seq![' '] + dec_digits(
                size as nat,
            ) + seq![' '] + hash@,
            Entry::Directory(ds) => if ds@.len() == 0 {
                seq!['\n'] + prefix + s[i].0@ + seq!['/']
            } else {
                text_from(ds@, prefix + s[i].0@ + seq!['/'], 0)
            },
        };
        item + text_from(s, prefix, i + 1)
    }
}

/// The serialized text of a whole manifest: the header line, then one line
/// per entry, depth-first in stored order.
pub open spec fn manifest_text(m: Manifest) -> Seq<char> {
    "version 1"@ + text_from(m.entries@, Seq::<char>::empty(), 0)
}

impl Manifest {
    /// Serializes the manifest into its line-oriented text form.
    pub fn to_text(&self) -> (r: String)
        ensures
            r@ == manifest_text(*self),
    {
        let mut out = String::new();
        out.append("version 1");
        let prefix = String::new();
        write_entries(&self.entries, &prefix, &mut out);
        proof {
            assert(out@ =~= manifest_text(*self));
        }
        out
    }
}

/// Appends the serialized lines for one directory level and everything below
/// it. `prefix` is the path of the level as text, with a trailing slash.
fn write_entries(s: &Entries, prefix: &String, out: &mut String)
    ensures
        final(out)@ == old(out)@ + text_from(s@, prefix@, 0),
    decreases s@,
{
    let ghost sv = s@;
    let ghost out0 = out@;
    let mut i: usize = 0;
    while i < s.len()
        invariant
            0 <= i <= sv.len(),
            sv == s@,
            out@ + text_from(sv, prefix@, i as int) == out0 + text_from(sv, prefix@, 0),
        decreases sv.len() - i,
    {
        let ghost before = out@;
        match &s[i].1 {
            Entry::File { size, hash } => {
                out.append("\n");
                out.append(prefix.as_str());
                out.append(s[i].0.as_str());
                out.append(" ");
                push_decimal(out, *size);
                out.append(" ");
                out.append(hash.as_str());
                proof {
                    reveal_strlit("\n");
                    reveal_strlit(" ");
                    assert(out@ =~= before + (seq!['\n'] + prefix@ + sv[i as int].0@ + seq![' ']
                        + dec_digits(sv[i as int].1->size as nat) + seq![' ']
                        + sv[i as int].1->hash@));
                }
            },
            Entry::Directory(ds) => {
                if ds.len() == 0 {
                    out.append("\n");
                    out.append(prefix.as_str());
                    out.append(s[i].0.as_str());
                    out.append("/");
                    proof {
                        reveal_strlit("\n");
                        reveal_strlit("/");
                        assert(out@ =~= before + (seq!['\n'] + prefix@ + sv[i as int].0@
                            + seq!['/']));
                    }
                } else {
                    proof {
                        assert(decreases_to!(sv => sv[i as int]));
                        assert(decreases_to!(sv[i as int] => sv[i as int].1));
                        assert(sv[i as int].1 == Entry::Directory(*ds));
                        assert(decreases_to!(Entry::Directory(*ds) => *ds));
                        assert(decreases_to!(*ds => ds@));
                    }
                    let mut p2 = prefix.clone();
                    p2.append(s[i].0.as_str());
                    p2.append("/");
                    proof {
                        reveal_strlit("/");
                        assert(p2@ =~= prefix@ + sv[i as int].0@ + seq!['/']);
                    }
                    write_entries(ds, &p2, out);
                }
            },
        }
        proof {
            assert(out@ + text_from(sv, prefix@, i as int + 1) =~= out0 + text_from(
                sv,
                prefix@,
                0,
            ));
        }
        i = i + 1;
    }
    proof {
        assert(out@ =~= old(out)@ + text_from(sv, prefix@, 0));
    }
}


/// Equivalence of two entries by content: equal kind, size and hash text for
/// files, pairwise equivalent children for directories.
pub open spec fn entry_eqv(x: Entry, y: Entry) -> bool
    decreases x, 0int,
{
    match (x, y) {
        (Entry::Directory(xs), Entry::Directory(ys)) => entries_eqv(xs@, ys@),
        (Entry::File { size: sx, hash: hx }, Entry::File { size: sy, hash: hy }) => sx == sy
            && hx@ == hy@,
        _ => false,
    }
}

/// Pairwise equivalence of two directory levels.
pub open spec fn entries_eqv(x: Seq<(String, Entry)>, y: Seq<(String, Entry)>) -> bool
    decreases x, 1int,
{
    &&& x.len() == y.len()
    &&& x.len() > 0 ==> (x[0].0@ == y[0].0@ && entry_eqv(x[0].1, y[0].1) && entries_eqv(
        x.drop_first(),
        y.drop_first(),
    ))
}

/// Equivalent levels are equivalent pair by pair.
pub proof fn lemma_eqv_index(x: Seq<(String, Entry)>, y: Seq<(String, Entry)>, i: int)
    requires
        entries_eqv(x, y),
        0 <= i < x.len(),
    ensures
        x[i].0@ == y[i].0@ && entry_eqv(x[i].1, y[i].1),
    decreases i,
{
    if i > 0 {
        lemma_eqv_index(x.drop_first(), y.drop_first(), i - 1);
        assert(x.drop_first()[i - 1] == x[i]);
        assert(y.drop_first()[i - 1] == y[i]);
    }
}

/// Equivalence of two lookup results.
pub open spec fn lookup_eqv(o1: Option<Entry>, o2: Option<Entry>) -> bool {
    match (o1, o2) {
        (None, None) => true,
        (Some(e1), Some(e2)) => entry_eqv(e1, e2),
        _ => false,
    }
}

/// Looking one position later in a level is looking in the level without its
/// first pair.
proof fn lemma_lookup_shift(s: Seq<(String, Entry)>, n: Seq<char>, i: int)
    requires
        0 <= i,
        s.len() > 0,
    ensures
        lookup_from(s, n, i + 1) == lookup_from(s.drop_first(), n, i),
    decreases s.len() - i,
{
    if i + 1 < s.len() {
        assert(s.drop_first()[i] == s[i + 1]);
        lemma_lookup_shift(s, n, i + 1);
    }
}

/// A level without its first pair stays well-formed.
proof fn lemma_wf_drop_first(s: Seq<(String, Entry)>)
    requires
        entries_wf(s),
        s.len() > 0,
    ensures
        entries_wf(s.drop_first()),
{
    let t = s.drop_first();
    assert(forall|i: int| 0 <= i < t.len() ==> t[i] == s[i + 1]);
    assert forall|i: int, j: int| 0 <= i < j < t.len() implies name_lt(t[i].0@, t[j].0@) by {
        assert(name_lt(s[i + 1].0@, s[j + 1].0@));
    }
    assert forall|i: int| 0 <= i < t.len() implies entry_wf(#[trigger] t[i].1) by {
        assert(entry_wf(s[i + 1].1));
    }
}

/// Two well-formed levels whose names resolve to equivalent entries are
/// pairwise equivalent: the sorted order is a canonical form.
pub proof fn lemma_canonical(x: Seq<(String, Entry)>, y: Seq<(String, Entry)>)
    requires
        entries_wf(x),
        entries_wf(y),
        forall|n: Seq<char>| lookup_eqv(#[trigger] lookup(x, n), lookup(y, n)),
    ensures
        entries_eqv(x, y),
    decreases x.len(),
{
    lemma_wf_names_unique(x);
    lemma_wf_names_unique(y);
    if x.len() == 0 && y.len() == 0 {
    } else if x.len() == 0 {
        lemma_lookup_present(y, 0, 0);
        assert(lookup_eqv(lookup(x, y[0].0@), lookup(y, y[0].0@)));
        assert(false);
    } else if y.len() == 0 {
        lemma_lookup_present(x, 0, 0);
        assert(lookup_eqv(lookup(x, x[0].0@), lookup(y, x[0].0@)));
        assert(false);
    } else {
        let nx = x[0].0@;
        let ny = y[0].0@;
        lemma_lookup_present(x, 0, 0);
        lemma_lookup_present(y, 0, 0);
        assert(nx == ny) by {
            assert(lookup_eqv(lookup(x, nx), lookup(y, nx)));
            assert(lookup(y, nx) is Some);
            lemma_lookup_some_index(y, nx);
            let k = choose|k: int| 0 <= k < y.len() && #[trigger] y[k].0@ == nx;
            assert(lookup_eqv(lookup(x, ny), lookup(y, ny)));
            assert(lookup(x, ny) is Some);
            lemma_lookup_some_index(x, ny);
            let l = choose|l: int| 0 <= l < x.len() && #[trigger] x[l].0@ == ny;
            if k > 0 && l > 0 {
                lemma_name_lt_trans(ny, y[k].0@, x[l].0@);
                lemma_name_lt_irrefl(ny);
            }
        }
        assert(lookup_eqv(lookup(x, nx), lookup(y, nx)));
        assert(entry_eqv(x[0].1, y[0].1));
        let xt = x.drop_first();
        let yt = y.drop_first();
        lemma_wf_drop_first(x);
        lemma_wf_drop_first(y);
        assert forall|n: Seq<char>| lookup_eqv(#[trigger] lookup(xt, n), lookup(yt, n)) by {
            lemma_lookup_shift(x, n, 0);
            lemma_lookup_shift(y, n, 0);
            if n == nx {
                lemma_lookup_absent(x, n, 1);
                lemma_lookup_absent(y, n, 1);
            } else {
                assert(lookup_eqv(lookup(x, n), lookup(y, n)));
            }
        }
        lemma_canonical(xt, yt);
        assert(entries_eqv(x, y));
    }
}

/// A found name stands at some position.
proof fn lemma_lookup_some_index(s: Seq<(String, Entry)>, n: Seq<char>)
    requires
        lookup(s, n) is Some,
    ensures
        exists|k: int| 0 <= k < s.len() && #[trigger] s[k].0@ == n,
{
    lemma_lookup_index_from(s, n, 0);
}

proof fn lemma_lookup_index_from(s: Seq<(String, Entry)>, n: Seq<char>, i: int)
    requires
        0 <= i,
        lookup_from(s, n, i) is Some,
    ensures
        exists|k: int| i <= k < s.len() && #[trigger] s[k].0@ == n,
    decreases s.len() - i,
{
    if i < s.len() {
        if s[i].0@ == n {
            assert(i <= i < s.len() && s[i].0@ == n);
        } else {
            lemma_lookup_index_from(s, n, i + 1);
            let k = choose|k: int| i + 1 <= k < s.len() && #[trigger] s[k].0@ == n;
            assert(i <= k < s.len() && s[k].0@ == n);
        }
    }
}

/// Law: the serialized text is a function of the tree's content alone — two
/// well-formed manifests whose names resolve to equivalent entries, wherever
/// they were inserted in whatever order, serialize to byte-identical text.
pub proof fn lemma_text_deterministic(x: Manifest, y: Manifest)
    requires
        x.wf(),
        y.wf(),
        forall|n: Seq<char>| lookup_eqv(#[trigger] lookup(x.entries@, n), lookup(y.entries@, n)),
    ensures
        manifest_text(x) == manifest_text(y),
{
    lemma_canonical(x.entries@, y.entries@);
    lemma_text_of_eqv(x.entries@, y.entries@, Seq::<char>::empty(), 0);
}

/// Equivalent levels serialize identically below any prefix.
proof fn lemma_text_of_eqv(
    x: Seq<(String, Entry)>,
    y: Seq<(String, Entry)>,
    prefix: Seq<char>,
    i: int,
)
    requires
        entries_eqv(x, y),
        0 <= i,
    ensures
        text_from(x, prefix, i) == text_from(y, prefix, i),
    decreases x, x.len() - i,
{
    assert(x.len() == y.len());
    if i < x.len() {
        lemma_eqv_index(x, y, i);
        assert(x[i].0@ == y[i].0@ && entry_eqv(x[i].1, y[i].1));
        match (x[i].1, y[i].1) {
            (Entry::Directory(xs), Entry::Directory(ys)) => {
                assert(entries_eqv(xs@, ys@));
                if xs@.len() > 0 {
                    assert(decreases_to!(x => x[i]));
                    assert(decreases_to!(x[i] => x[i].1));
                    assert(decreases_to!(x[i].1 => x[i].1->Directory_0));
                    assert(decreases_to!(x[i].1->Directory_0 => x[i].1->Directory_0@));
                    lemma_text_of_eqv(xs@, ys@, prefix + x[i].0@ + seq!['/'], 0);
                }
            },
            (Entry::File { .. }, Entry::File { .. }) => {
            },
            _ => {
                assert(false);
            },
        }
        lemma_text_of_eqv(x, y, prefix, i + 1);
    }
}

} // verus!
