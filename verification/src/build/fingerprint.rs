//! The content fingerprint of a module's build inputs: when it equals the one
//! stored by the last successful build, the module is not built again.
use crate::digest::{hash_bytes, hex, is_lower_hex, sha256_digest};
use crate::lockfile::strings_view;
use crate::text::{lemma_seq_lt_irreflexive, lemma_seq_lt_total, lemma_seq_lt_transitive, seq_lt, str_eq, str_lt, trim, trimmed};
use vstd::prelude::*;
use vstd::relations::{sorted_by, total_ordering};
use vstd::seq_lib::lemma_sorted_unique;
use vstd::string::StringSliceAdditionalSpecFns;
use vstd::utf8::encode_utf8;

verus! {

/// The name of the marker file in `target/classes` holding the fingerprint of the
/// last successful build.
pub const FINGERPRINT_FILE_NAME: &'static str = ".jvmfast-build-fingerprint";

/// `x` inserted into `t` before the first element greater than it.
pub open spec fn insert_in_order(t: Seq<Seq<char>>, x: Seq<char>) -> Seq<Seq<char>>
    decreases t.len(),
{
    if t.len() == 0 {
        seq![x]
    } else if seq_lt(x, t[0]) {
        seq![x] + t
    } else {
        seq![t[0]] + insert_in_order(t.drop_first(), x)
    }
}

/// `s` sorted in ascending order, duplicates kept.
pub open spec fn sorted_strings(s: Seq<Seq<char>>) -> Seq<Seq<char>>
    decreases s.len(),
{
    if s.len() == 0 {
        Seq::empty()
    } else {
        insert_in_order(sorted_strings(s.drop_last()), s.last())
    }
}

proof fn lemma_insert_at(t: Seq<Seq<char>>, x: Seq<char>, p: int)
    requires
        0 <= p <= t.len(),
        forall|q: int| 0 <= q < p ==> !seq_lt(x, #[trigger] t[q]),
        p < t.len() ==> seq_lt(x, t[p]),
    ensures
        insert_in_order(t, x) == t.take(p).push(x) + t.skip(p),
    decreases t.len(),
{
    if t.len() == 0 {
        assert(t.take(p).push(x) + t.skip(p) =~= seq![x]);
    } else if p == 0 {
        assert(t.take(0).push(x) + t.skip(0) =~= seq![x] + t);
    } else {
        let r = t.drop_first();
        assert forall|q: int| 0 <= q < p - 1 implies !seq_lt(x, #[trigger] r[q]) by {
            assert(r[q] == t[q + 1]);
        }
        if p - 1 < r.len() {
            assert(r[p - 1] == t[p]);
        }
        lemma_insert_at(r, x, p - 1);
        assert(seq![t[0]] + (r.take(p - 1).push(x) + r.skip(p - 1)) =~= t.take(p).push(x) + t.skip(p));
    }
}

/// Sorts `v` ascending, keeping duplicates (insertion sort).
pub fn sort_strings(v: &Vec<String>) -> (res: Vec<String>)
    ensures
        strings_view(res@) == sorted_strings(strings_view(v@)),
{
    let ghost sv = strings_view(v@);
    let mut out: Vec<String> = Vec::new();
    let mut i: usize = 0;
    proof {
        assert(sv.take(0) =~= Seq::<Seq<char>>::empty());
        assert(strings_view(out@) =~= Seq::<Seq<char>>::empty());
    }
    while i < v.len()
        invariant
            sv == strings_view(v@),
            i <= v@.len(),
            strings_view(out@) == sorted_strings(sv.take(i as int)),
        decreases v@.len() - i,
    {
        let x = &v[i];
        let ghost o = strings_view(out@);
        let mut p: usize = 0;
        while p < out.len() && !str_lt(x.as_str(), out[p].as_str())
            invariant
                o == strings_view(out@),
                p <= out@.len(),
                forall|q: int| 0 <= q < p ==> !seq_lt(x@, #[trigger] o[q]),
            decreases out@.len() - p,
        {
            p = p + 1;
        }
        proof {
            lemma_insert_at(o, x@, p as int);
            assert(sv.take(i + 1).drop_last() =~= sv.take(i as int));
            assert(sv.take(i + 1).last() == x@);
        }
        out.insert(p, x.clone());
        proof {
            assert(strings_view(out@) =~= o.take(p as int).push(x@) + o.skip(p as int));
        }
        i = i + 1;
    }
    proof {
        assert(sv.take(i as int) =~= sv);
    }
    out
}

/// The non-strict order of `str`: `a` does not come after `b`.
pub open spec fn str_order() -> spec_fn(Seq<char>, Seq<char>) -> bool {
    |a: Seq<char>, b: Seq<char>| !seq_lt(b, a)
}

proof fn lemma_str_order_total()
    ensures
        total_ordering(str_order()),
{
    let le = str_order();
    assert forall|x: Seq<char>| #[trigger] le(x, x) by {
        lemma_seq_lt_irreflexive(x);
    }
    assert forall|x: Seq<char>, y: Seq<char>| #[trigger] le(x, y) && #[trigger] le(y, x) implies x == y by {
        lemma_seq_lt_total(x, y);
    }
    assert forall|x: Seq<char>, y: Seq<char>, z: Seq<char>| #[trigger] le(x, y) && #[trigger] le(y, z) implies le(x, z) by {
        lemma_seq_lt_total(x, y);
        if seq_lt(z, x) {
            if x == y {
            } else {
                lemma_seq_lt_transitive(z, x, y);
            }
        }
    }
    assert forall|x: Seq<char>, y: Seq<char>| #[trigger] le(x, y) || #[trigger] le(y, x) by {
        lemma_seq_lt_total(x, y);
        if seq_lt(x, y) && seq_lt(y, x) {
            lemma_seq_lt_transitive(x, y, x);
            lemma_seq_lt_irreflexive(x);
        }
    }
}

proof fn lemma_insert_in_order(t: Seq<Seq<char>>, x: Seq<char>)
    requires
        sorted_by(t, str_order()),
    ensures
        sorted_by(insert_in_order(t, x), str_order()),
        insert_in_order(t, x).to_multiset() =~= t.to_multiset().insert(x),
    decreases t.len(),
{
    broadcast use vstd::seq_lib::group_to_multiset_ensures;
    broadcast use vstd::multiset::group_multiset_axioms;
    broadcast use vstd::seq_lib::lemma_multiset_commutative;

    lemma_str_order_total();
    let le = str_order();
    let r = insert_in_order(t, x);
    if t.len() == 0 {
        assert(seq![x] =~= Seq::<Seq<char>>::empty().push(x));
    } else if seq_lt(x, t[0]) {
        assert(r =~= seq![x] + t);
        assert(seq![x] =~= Seq::<Seq<char>>::empty().push(x));
        assert forall|i: int, j: int| 0 <= i < j < r.len() implies #[trigger] le(r[i], r[j]) by {
            if i == 0 {
                assert(r[j] == t[j - 1]);
                if j - 1 > 0 {
                    assert(le(t[0], t[j - 1]));
                }
                if seq_lt(t[j - 1], x) {
                    lemma_seq_lt_transitive(t[j - 1], x, t[0]);
                    if j - 1 == 0 {
                        lemma_seq_lt_irreflexive(t[0]);
                    }
                }
            } else {
                assert(r[i] == t[i - 1] && r[j] == t[j - 1]);
            }
        }
    } else {
        let rest = t.drop_first();
        assert(sorted_by(rest, le)) by {
            assert forall|i: int, j: int| 0 <= i < j < rest.len() implies #[trigger] le(rest[i], rest[j]) by {
                assert(rest[i] == t[i + 1] && rest[j] == t[j + 1]);
            }
        }
        lemma_insert_in_order(rest, x);
        let ins = insert_in_order(rest, x);
        assert(r =~= seq![t[0]] + ins);
        assert(t =~= seq![t[0]] + rest);
        assert forall|i: int, j: int| 0 <= i < j < r.len() implies #[trigger] le(r[i], r[j]) by {
            if i == 0 {
                assert(r[j] == ins[j - 1]);
                assert(ins.to_multiset().count(ins[j - 1]) > 0);
                if ins[j - 1] != x {
                    assert(rest.contains(ins[j - 1]));
                    let k = choose|k: int| 0 <= k < rest.len() && rest[k] == ins[j - 1];
                    assert(t[k + 1] == rest[k]);
                    assert(le(t[0], t[k + 1]));
                }
            } else {
                assert(r[i] == ins[i - 1] && r[j] == ins[j - 1]);
            }
        }
    }
}

proof fn lemma_sorted_strings(s: Seq<Seq<char>>)
    ensures
        sorted_by(sorted_strings(s), str_order()),
        sorted_strings(s).to_multiset() =~= s.to_multiset(),
    decreases s.len(),
{
    broadcast use vstd::seq_lib::group_to_multiset_ensures;

    if s.len() > 0 {
        lemma_sorted_strings(s.drop_last());
        lemma_insert_in_order(sorted_strings(s.drop_last()), s.last());
        assert(s =~= s.drop_last().push(s.last()));
    }
}

/// Sorting depends only on which strings there are and how often each occurs, not
/// on the order they were listed in.
pub proof fn lemma_sorted_strings_permutation(a: Seq<Seq<char>>, b: Seq<Seq<char>>)
    requires
        a.to_multiset() == b.to_multiset(),
    ensures
        sorted_strings(a) == sorted_strings(b),
{
    lemma_sorted_strings(a);
    lemma_sorted_strings(b);
    lemma_str_order_total();
    lemma_sorted_unique(sorted_strings(a), sorted_strings(b), str_order());
}

/// Lexicographic order on byte sequences.
pub open spec fn bytes_lt(a: Seq<u8>, b: Seq<u8>) -> bool
    decreases a.len(),
{
    if a.len() == 0 {
        b.len() > 0
    } else if b.len() == 0 {
        false
    } else if a[0] != b[0] {
        a[0] < b[0]
    } else {
        bytes_lt(a.drop_first(), b.drop_first())
    }
}

proof fn lemma_bytes_lt_irreflexive(a: Seq<u8>)
    ensures
        !bytes_lt(a, a),
    decreases a.len(),
{
    if a.len() > 0 {
        lemma_bytes_lt_irreflexive(a.drop_first());
    }
}

proof fn lemma_bytes_lt_transitive(a: Seq<u8>, b: Seq<u8>, c: Seq<u8>)
    requires
        bytes_lt(a, b),
        bytes_lt(b, c),
    ensures
        bytes_lt(a, c),
    decreases a.len(),
{
    if a.len() > 0 && b.len() > 0 && c.len() > 0 {
        if a[0] == b[0] && b[0] == c[0] {
            lemma_bytes_lt_transitive(a.drop_first(), b.drop_first(), c.drop_first());
        }
    }
}

proof fn lemma_bytes_lt_total(a: Seq<u8>, b: Seq<u8>)
    ensures
        bytes_lt(a, b) || bytes_lt(b, a) || a == b,
    decreases a.len(),
{
    if a.len() > 0 && b.len() > 0 && a[0] == b[0] {
        lemma_bytes_lt_total(a.drop_first(), b.drop_first());
        if a.drop_first() == b.drop_first() {
            assert(a =~= seq![a[0]] + a.drop_first());
            assert(b =~= seq![b[0]] + b.drop_first());
        }
    } else if a.len() == 0 && b.len() == 0 {
        assert(a =~= b);
    }
}

/// A file as plain values: its path and its contents.
pub type FileView = (Seq<char>, Seq<u8>);

/// Files ordered by path, and files of the same path by contents.
pub open spec fn file_lt(x: FileView, y: FileView) -> bool {
    seq_lt(x.0, y.0) || (x.0 == y.0 && bytes_lt(x.1, y.1))
}

proof fn lemma_file_lt(x: FileView, y: FileView, z: FileView)
    ensures
        !file_lt(x, x),
        file_lt(x, y) && file_lt(y, z) ==> file_lt(x, z),
        file_lt(x, y) || file_lt(y, x) || x == y,
{
    lemma_seq_lt_irreflexive(x.0);
    lemma_bytes_lt_irreflexive(x.1);
    lemma_seq_lt_total(x.0, y.0);
    lemma_bytes_lt_total(x.1, y.1);
    if file_lt(x, y) && file_lt(y, z) {
        if seq_lt(x.0, y.0) && seq_lt(y.0, z.0) {
            lemma_seq_lt_transitive(x.0, y.0, z.0);
        } else if x.0 == y.0 && y.0 == z.0 {
            lemma_bytes_lt_transitive(x.1, y.1, z.1);
        }
    }
}

/// The non-strict order of files.
pub open spec fn file_order() -> spec_fn(FileView, FileView) -> bool {
    |a: FileView, b: FileView| !file_lt(b, a)
}

proof fn lemma_file_order_total()
    ensures
        total_ordering(file_order()),
{
    let le = file_order();
    assert forall|x: FileView| #[trigger] le(x, x) by {
        lemma_file_lt(x, x, x);
    }
    assert forall|x: FileView, y: FileView| #[trigger] le(x, y) && #[trigger] le(y, x) implies x == y by {
        lemma_file_lt(x, y, x);
    }
    assert forall|x: FileView, y: FileView, z: FileView| #[trigger] le(x, y) && #[trigger] le(y, z) implies le(x, z) by {
        lemma_file_lt(z, x, y);
        lemma_file_lt(x, y, z);
        lemma_file_lt(y, z, x);
    }
    assert forall|x: FileView, y: FileView| #[trigger] le(x, y) || #[trigger] le(y, x) by {
        lemma_file_lt(x, y, x);
    }
}

/// `x` inserted into `t` before the first file greater than it.
pub open spec fn insert_file(t: Seq<FileView>, x: FileView) -> Seq<FileView>
    decreases t.len(),
{
    if t.len() == 0 {
        seq![x]
    } else if file_lt(x, t[0]) {
        seq![x] + t
    } else {
        seq![t[0]] + insert_file(t.drop_first(), x)
    }
}

/// `s` sorted by path, then by contents.
pub open spec fn sorted_files(s: Seq<FileView>) -> Seq<FileView>
    decreases s.len(),
{
    if s.len() == 0 {
        Seq::empty()
    } else {
        insert_file(sorted_files(s.drop_last()), s.last())
    }
}

proof fn lemma_insert_file_at(t: Seq<FileView>, x: FileView, p: int)
    requires
        0 <= p <= t.len(),
        forall|q: int| 0 <= q < p ==> !file_lt(x, #[trigger] t[q]),
        p < t.len() ==> file_lt(x, t[p]),
    ensures
        insert_file(t, x) == t.take(p).push(x) + t.skip(p),
    decreases t.len(),
{
    if t.len() == 0 {
        assert(t.take(p).push(x) + t.skip(p) =~= seq![x]);
    } else if p == 0 {
        assert(t.take(0).push(x) + t.skip(0) =~= seq![x] + t);
    } else {
        let r = t.drop_first();
        assert forall|q: int| 0 <= q < p - 1 implies !file_lt(x, #[trigger] r[q]) by {
            assert(r[q] == t[q + 1]);
        }
        if p - 1 < r.len() {
            assert(r[p - 1] == t[p]);
        }
        lemma_insert_file_at(r, x, p - 1);
        assert(seq![t[0]] + (r.take(p - 1).push(x) + r.skip(p - 1)) =~= t.take(p).push(x) + t.skip(p));
    }
}

proof fn lemma_insert_file(t: Seq<FileView>, x: FileView)
    requires
        sorted_by(t, file_order()),
    ensures
        sorted_by(insert_file(t, x), file_order()),
        insert_file(t, x).to_multiset() =~= t.to_multiset().insert(x),
    decreases t.len(),
{
    broadcast use vstd::seq_lib::group_to_multiset_ensures;
    broadcast use vstd::multiset::group_multiset_axioms;
    broadcast use vstd::seq_lib::lemma_multiset_commutative;

    lemma_file_order_total();
    let le = file_order();
    let r = insert_file(t, x);
    if t.len() == 0 {
        assert(seq![x] =~= Seq::<FileView>::empty().push(x));
    } else if file_lt(x, t[0]) {
        assert(r =~= seq![x] + t);
        assert(seq![x] =~= Seq::<FileView>::empty().push(x));
        assert forall|i: int, j: int| 0 <= i < j < r.len() implies #[trigger] le(r[i], r[j]) by {
            if i == 0 {
                assert(r[j] == t[j - 1]);
                if j - 1 > 0 {
                    assert(le(t[0], t[j - 1]));
                }
                lemma_file_lt(t[j - 1], x, t[0]);
                lemma_file_lt(t[0], t[0], t[0]);
            } else {
                assert(r[i] == t[i - 1] && r[j] == t[j - 1]);
            }
        }
    } else {
        let rest = t.drop_first();
        assert(sorted_by(rest, le)) by {
            assert forall|i: int, j: int| 0 <= i < j < rest.len() implies #[trigger] le(rest[i], rest[j]) by {
                assert(rest[i] == t[i + 1] && rest[j] == t[j + 1]);
            }
        }
        lemma_insert_file(rest, x);
        let ins = insert_file(rest, x);
        assert(r =~= seq![t[0]] + ins);
        assert(t =~= seq![t[0]] + rest);
        assert forall|i: int, j: int| 0 <= i < j < r.len() implies #[trigger] le(r[i], r[j]) by {
            if i == 0 {
                assert(r[j] == ins[j - 1]);
                assert(ins.to_multiset().count(ins[j - 1]) > 0);
                if ins[j - 1] != x {
                    assert(rest.contains(ins[j - 1]));
                    let k = choose|k: int| 0 <= k < rest.len() && rest[k] == ins[j - 1];
                    assert(t[k + 1] == rest[k]);
                    assert(le(t[0], t[k + 1]));
                }
            } else {
                assert(r[i] == ins[i - 1] && r[j] == ins[j - 1]);
            }
        }
    }
}

proof fn lemma_sorted_files(s: Seq<FileView>)
    ensures
        sorted_by(sorted_files(s), file_order()),
        sorted_files(s).to_multiset() =~= s.to_multiset(),
    decreases s.len(),
{
    broadcast use vstd::seq_lib::group_to_multiset_ensures;

    if s.len() > 0 {
        lemma_sorted_files(s.drop_last());
        lemma_insert_file(sorted_files(s.drop_last()), s.last());
        assert(s =~= s.drop_last().push(s.last()));
    }
}

/// Sorting files depends only on which files there are, not on the order they
/// were listed in.
pub proof fn lemma_sorted_files_permutation(a: Seq<FileView>, b: Seq<FileView>)
    requires
        a.to_multiset() == b.to_multiset(),
    ensures
        sorted_files(a) == sorted_files(b),
{
    lemma_sorted_files(a);
    lemma_sorted_files(b);
    lemma_file_order_total();
    lemma_sorted_unique(sorted_files(a), sorted_files(b), file_order());
}

fn bytes_lt_exec(a: &Vec<u8>, b: &Vec<u8>) -> (res: bool)
    ensures
        res == bytes_lt(a@, b@),
{
    let n = a.len();
    let m = b.len();
    let mut i: usize = 0;
    proof {
        assert(a@.skip(0) =~= a@);
        assert(b@.skip(0) =~= b@);
    }
    while i < n && i < m
        invariant
            n == a@.len(),
            m == b@.len(),
            i <= n,
            i <= m,
            bytes_lt(a@, b@) == bytes_lt(a@.skip(i as int), b@.skip(i as int)),
        decreases n - i,
    {
        proof {
            assert(a@.skip(i as int)[0] == a@[i as int]);
            assert(b@.skip(i as int)[0] == b@[i as int]);
            assert(a@.skip(i as int).drop_first() =~= a@.skip(i + 1));
            assert(b@.skip(i as int).drop_first() =~= b@.skip(i + 1));
        }
        if a[i] != b[i] {
            return a[i] < b[i];
        }
        i = i + 1;
    }
    proof {
        assert(a@.skip(i as int).len() == n - i);
        assert(b@.skip(i as int).len() == m - i);
    }
    i == n && i < m
}

fn file_lt_exec(x: &(String, Vec<u8>), y: &(String, Vec<u8>)) -> (res: bool)
    ensures
        res == file_lt((x.0@, x.1@), (y.0@, y.1@)),
{
    str_lt(x.0.as_str(), y.0.as_str()) || (str_eq(x.0.as_str(), y.0.as_str()) && bytes_lt_exec(&x.1, &y.1))
}

fn copy_file(x: &(String, Vec<u8>)) -> (res: (String, Vec<u8>))
    ensures
        res.0@ == x.0@,
        res.1@ == x.1@,
{
    let mut bytes: Vec<u8> = Vec::new();
    let mut k: usize = 0;
    while k < x.1.len()
        invariant
            k <= x.1@.len(),
            bytes@ == x.1@.take(k as int),
        decreases x.1@.len() - k,
    {
        bytes.push(x.1[k]);
        proof {
            assert(bytes@ =~= x.1@.take(k + 1));
        }
        k = k + 1;
    }
    proof {
        assert(x.1@.take(k as int) =~= x.1@);
    }
    (x.0.clone(), bytes)
}

/// Sorts files by path, then by contents (insertion sort).
pub fn sort_files(v: &Vec<(String, Vec<u8>)>) -> (res: Vec<(String, Vec<u8>)>)
    ensures
        files_view(res@) == sorted_files(files_view(v@)),
{
    let ghost sv = files_view(v@);
    let mut out: Vec<(String, Vec<u8>)> = Vec::new();
    let mut i: usize = 0;
    proof {
        assert(sv.take(0) =~= Seq::<FileView>::empty());
        assert(files_view(out@) =~= Seq::<FileView>::empty());
    }
    while i < v.len()
        invariant
            sv == files_view(v@),
            i <= v@.len(),
            files_view(out@) == sorted_files(sv.take(i as int)),
        decreases v@.len() - i,
    {
        let x = &v[i];
        let ghost o = files_view(out@);
        let ghost xv: FileView = (x.0@, x.1@);
        let mut p: usize = 0;
        while p < out.len() && !file_lt_exec(x, &out[p])
            invariant
                o == files_view(out@),
                xv == (x.0@, x.1@),
                p <= out@.len(),
                forall|q: int| 0 <= q < p ==> !file_lt(xv, #[trigger] o[q]),
            decreases out@.len() - p,
        {
            proof {
                assert(o[p as int] == (out@[p as int].0@, out@[p as int].1@));
            }
            p = p + 1;
        }
        proof {
            if p < out@.len() {
                assert(o[p as int] == (out@[p as int].0@, out@[p as int].1@));
            }
            lemma_insert_file_at(o, xv, p as int);
            assert(sv.take(i + 1).drop_last() =~= sv.take(i as int));
            assert(sv.take(i + 1).last() == xv);
        }
        let c = copy_file(x);
        out.insert(p, c);
        proof {
            assert(files_view(out@) =~= o.take(p as int).push(xv) + o.skip(p as int));
        }
        i = i + 1;
    }
    proof {
        assert(sv.take(i as int) =~= sv);
    }
    out
}

/// The bytes hashed for a module: each source file (path, a zero byte, contents),
/// each resource file likewise, each classpath entry followed by a zero byte, the
/// path of `javac`, then each dependency fingerprint. Every list is sorted first:
/// files by path (as strings), then by contents; entries and fingerprints as strings.
pub open spec fn file_bytes(files: Seq<(Seq<char>, Seq<u8>)>) -> Seq<u8>
    decreases files.len(),
{
    if files.len() == 0 {
        Seq::empty()
    } else {
        file_bytes(files.drop_last()) + encode_utf8(files.last().0) + seq![0u8] + files.last().1
    }
}

pub open spec fn entry_bytes(entries: Seq<Seq<char>>) -> Seq<u8>
    decreases entries.len(),
{
    if entries.len() == 0 {
        Seq::empty()
    } else {
        entry_bytes(entries.drop_last()) + encode_utf8(entries.last()) + seq![0u8]
    }
}

pub open spec fn plain_bytes(entries: Seq<Seq<char>>) -> Seq<u8>
    decreases entries.len(),
{
    if entries.len() == 0 {
        Seq::empty()
    } else {
        plain_bytes(entries.drop_last()) + encode_utf8(entries.last())
    }
}

pub open spec fn files_view(files: Seq<(String, Vec<u8>)>) -> Seq<(Seq<char>, Seq<u8>)> {
    files.map_values(|f: (String, Vec<u8>)| (f.0@, f.1@))
}

pub open spec fn fingerprint_bytes(
    sources: Seq<(Seq<char>, Seq<u8>)>,
    resources: Seq<(Seq<char>, Seq<u8>)>,
    classpath: Seq<Seq<char>>,
    javac: Seq<char>,
    dependency_fingerprints: Seq<Seq<char>>,
) -> Seq<u8> {
    file_bytes(sorted_files(sources)) + file_bytes(sorted_files(resources)) + entry_bytes(sorted_strings(classpath)) + encode_utf8(javac) + plain_bytes(
        sorted_strings(dependency_fingerprints),
    )
}

fn push_str_bytes(out: &mut Vec<u8>, s: &str)
    ensures
        final(out)@ == old(out)@ + encode_utf8(s@),
{
    let bytes = s.as_bytes();
    let ghost start = out@;
    let mut k: usize = 0;
    while k < bytes.len()
        invariant
            k <= bytes@.len(),
            bytes@ == encode_utf8(s@),
            out@ == start + bytes@.take(k as int),
        decreases bytes@.len() - k,
    {
        out.push(bytes[k]);
        proof {
            assert(out@ =~= start + bytes@.take(k + 1));
        }
        k = k + 1;
    }
    proof {
        assert(bytes@.take(k as int) =~= bytes@);
    }
}

fn push_bytes(out: &mut Vec<u8>, bytes: &Vec<u8>)
    ensures
        final(out)@ == old(out)@ + bytes@,
{
    let ghost start = out@;
    let mut k: usize = 0;
    while k < bytes.len()
        invariant
            k <= bytes@.len(),
            out@ == start + bytes@.take(k as int),
        decreases bytes@.len() - k,
    {
        out.push(bytes[k]);
        proof {
            assert(out@ =~= start + bytes@.take(k + 1));
        }
        k = k + 1;
    }
    proof {
        assert(bytes@.take(k as int) =~= bytes@);
    }
}

fn push_files(out: &mut Vec<u8>, files: &Vec<(String, Vec<u8>)>)
    ensures
        final(out)@ == old(out)@ + file_bytes(files_view(files@)),
{
    let ghost start = out@;
    let ghost fv = files_view(files@);
    let mut i: usize = 0;
    proof {
        assert(fv.take(0) =~= Seq::<(Seq<char>, Seq<u8>)>::empty());
        assert(start + file_bytes(fv.take(0)) =~= start);
    }
    while i < files.len()
        invariant
            fv == files_view(files@),
            i <= files@.len(),
            out@ == start + file_bytes(fv.take(i as int)),
        decreases files@.len() - i,
    {
        push_str_bytes(out, files[i].0.as_str());
        out.push(0u8);
        push_bytes(out, &files[i].1);
        proof {
            assert(fv.take(i + 1).drop_last() =~= fv.take(i as int));
            assert(fv.take(i + 1).last() == (files@[i as int].0@, files@[i as int].1@));
            assert(out@ =~= start + file_bytes(fv.take(i + 1)));
        }
        i = i + 1;
    }
    proof {
        assert(fv.take(i as int) =~= fv);
    }
}

fn push_entries(out: &mut Vec<u8>, entries: &Vec<String>, separated: bool)
    ensures
        final(out)@ == old(out)@ + if separated {
            entry_bytes(strings_view(entries@))
        } else {
            plain_bytes(strings_view(entries@))
        },
{
    let ghost start = out@;
    let ghost ev = strings_view(entries@);
    let mut i: usize = 0;
    proof {
        assert(ev.take(0) =~= Seq::<Seq<char>>::empty());
        assert(start + entry_bytes(ev.take(0)) =~= start);
        assert(start + plain_bytes(ev.take(0)) =~= start);
    }
    while i < entries.len()
        invariant
            ev == strings_view(entries@),
            i <= entries@.len(),
            out@ == start + if separated {
                entry_bytes(ev.take(i as int))
            } else {
                plain_bytes(ev.take(i as int))
            },
        decreases entries@.len() - i,
    {
        push_str_bytes(out, entries[i].as_str());
        if separated {
            out.push(0u8);
        }
        proof {
            assert(ev.take(i + 1).drop_last() =~= ev.take(i as int));
            assert(ev.take(i + 1).last() == entries@[i as int]@);
            if separated {
                assert(out@ =~= start + entry_bytes(ev.take(i + 1)));
            } else {
                assert(out@ =~= start + plain_bytes(ev.take(i + 1)));
            }
        }
        i = i + 1;
    }
    proof {
        assert(ev.take(i as int) =~= ev);
    }
}

/// The fingerprint of a module's inputs: SHA-256, in lowercase hex, of the source
/// and resource files (path and contents), the classpath, the path of `javac` and
/// the fingerprints of its workspace dependencies, each list sorted first so that
/// the order in which the file system listed them does not matter. It is 64
/// lowercase hex digits.
pub fn compute_module_fingerprint(
    sources: &Vec<(String, Vec<u8>)>,
    resources: &Vec<(String, Vec<u8>)>,
    classpath: &Vec<String>,
    javac: &str,
    dependency_fingerprints: &Vec<String>,
) -> (res: String)
    ensures
        res@ == hex(
            sha256_digest(
                fingerprint_bytes(
                    files_view(sources@),
                    files_view(resources@),
                    strings_view(classpath@),
                    javac@,
                    strings_view(dependency_fingerprints@),
                ),
            ),
        ),
        res@.len() == 64,
        forall|i: int| 0 <= i < res@.len() ==> is_lower_hex(#[trigger] res@[i]),
{
    let mut bytes: Vec<u8> = Vec::new();
    let sorted_sources = sort_files(sources);
    push_files(&mut bytes, &sorted_sources);
    let sorted_resources = sort_files(resources);
    push_files(&mut bytes, &sorted_resources);
    let sorted_classpath = sort_strings(classpath);
    push_entries(&mut bytes, &sorted_classpath, true);
    push_str_bytes(&mut bytes, javac);
    let sorted_fingerprints = sort_strings(dependency_fingerprints);
    push_entries(&mut bytes, &sorted_fingerprints, false);
    proof {
        assert(bytes@ =~= fingerprint_bytes(
            files_view(sources@),
            files_view(resources@),
            strings_view(classpath@),
            javac@,
            strings_view(dependency_fingerprints@),
        ));
    }
    hash_bytes(bytes.as_slice())
}

/// Listing the source files, the resource files, the classpath or the fingerprints
/// of the workspace dependencies in another order (as the file system may) leaves
/// the fingerprint unchanged.
pub proof fn law_fingerprint_ignores_listing_order(
    sources: Seq<(Seq<char>, Seq<u8>)>,
    other_sources: Seq<(Seq<char>, Seq<u8>)>,
    resources: Seq<(Seq<char>, Seq<u8>)>,
    other_resources: Seq<(Seq<char>, Seq<u8>)>,
    classpath: Seq<Seq<char>>,
    other_classpath: Seq<Seq<char>>,
    javac: Seq<char>,
    dependency_fingerprints: Seq<Seq<char>>,
    other_dependency_fingerprints: Seq<Seq<char>>,
)
    requires
        sources.to_multiset() == other_sources.to_multiset(),
        resources.to_multiset() == other_resources.to_multiset(),
        classpath.to_multiset() == other_classpath.to_multiset(),
        dependency_fingerprints.to_multiset() == other_dependency_fingerprints.to_multiset(),
    ensures
        hex(sha256_digest(fingerprint_bytes(sources, resources, classpath, javac, dependency_fingerprints)))
            == hex(
            sha256_digest(
                fingerprint_bytes(other_sources, other_resources, other_classpath, javac, other_dependency_fingerprints),
            ),
        ),
{
    lemma_sorted_files_permutation(sources, other_sources);
    lemma_sorted_files_permutation(resources, other_resources);
    lemma_sorted_strings_permutation(classpath, other_classpath);
    lemma_sorted_strings_permutation(dependency_fingerprints, other_dependency_fingerprints);
}

/// The fingerprint recorded in a marker file: its contents without surrounding
/// whitespace.
pub fn parse_stored_fingerprint(contents: &str) -> (res: String)
    ensures
        res@ == trimmed(contents@),
{
    String::from_str(trim(contents))
}

} // verus!
