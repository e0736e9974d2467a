//! Exclusions declared in `[exclusions]`, merged over the whole workspace.
use crate::domain::Module;
use crate::text::str_eq;
use vstd::prelude::*;

verus! {

/// Some module declares that `parent` must not bring in `child`.
pub open spec fn declared_exclusion(modules: Seq<Module>, parent: Seq<char>, child: Seq<char>) -> bool {
    exists|i: int, j: int, k: int|
        0 <= i < modules.len() && 0 <= j < modules[i].exclusions@.len() && 0 <= k
            < modules[i].exclusions@[j].1@.len() && #[trigger] modules[i].exclusions@[j].0@ == parent
            && #[trigger] modules[i].exclusions@[j].1@[k]@ == child
}

/// The children listed for the first entry keyed `parent`, if any.
pub open spec fn children_of(table: Seq<(String, Vec<String>)>, parent: Seq<char>) -> Option<Seq<String>>
    decreases table.len(),
{
    if table.len() == 0 {
        None
    } else if table[0].0@ == parent {
        Some(table[0].1@)
    } else {
        children_of(table.drop_first(), parent)
    }
}

pub open spec fn seq_has(s: Seq<String>, x: Seq<char>) -> bool {
    exists|k: int| 0 <= k < s.len() && #[trigger] s[k]@ == x
}

/// The first entry keyed `parent` lists `child`.
pub open spec fn excludes(table: Seq<(String, Vec<String>)>, parent: Seq<char>, child: Seq<char>) -> bool {
    match children_of(table, parent) {
        Some(children) => seq_has(children, child),
        None => false,
    }
}

pub open spec fn table_has_key(table: Seq<(String, Vec<String>)>, parent: Seq<char>) -> bool {
    exists|a: int| 0 <= a < table.len() && #[trigger] table[a].0@ == parent
}

proof fn lemma_children_of(table: Seq<(String, Vec<String>)>, parent: Seq<char>)
    requires
        distinct_keys(table_view(table)),
    ensures
        children_of(table, parent) is Some <==> table_has_key(table, parent),
        children_of(table, parent) matches Some(c) ==> exists|a: int|
            0 <= a < table.len() && #[trigger] table[a].0@ == parent && table[a].1@ == c,
    decreases table.len(),
{
    if table.len() > 0 {
        let rest = table.drop_first();
        assert(distinct_keys(table_view(rest))) by {
            assert forall|a: int, b: int| 0 <= a < b < table_view(rest).len() implies #[trigger] table_view(rest)[a].0
                != #[trigger] table_view(rest)[b].0 by {
                assert(table_view(rest)[a] == table_view(table)[a + 1]);
                assert(table_view(rest)[b] == table_view(table)[b + 1]);
            }
        }
        lemma_children_of(rest, parent);
        if table[0].0@ != parent {
            if table_has_key(table, parent) {
                let a = choose|a: int| 0 <= a < table.len() && #[trigger] table[a].0@ == parent;
                assert(rest[a - 1] == table[a]);
            }
            if children_of(rest, parent) is Some {
                let a = choose|a: int| 0 <= a < rest.len() && #[trigger] rest[a].0@ == parent && rest[a].1@
                    == children_of(rest, parent)->0;
                assert(table[a + 1] == rest[a]);
            }
        } else {
            assert(table[0].0@ == parent);
        }
    }
}

/// Whether `candidate_coordinate`, brought in by `parent_coordinate`, is excluded.
/// There is no wildcard: `"*"` only matches a coordinate that is literally `"*"`.
pub fn is_excluded(exclusions: &[(String, Vec<String>)], parent_coordinate: &str, candidate_coordinate: &str) -> (res:
    bool)
    ensures
        res == excludes(exclusions@, parent_coordinate@, candidate_coordinate@),
{
    let mut i: usize = 0;
    proof {
        assert(exclusions@.skip(0) =~= exclusions@);
    }
    while i < exclusions.len()
        invariant
            i <= exclusions@.len(),
            children_of(exclusions@, parent_coordinate@) == children_of(exclusions@.skip(i as int), parent_coordinate@),
        decreases exclusions@.len() - i,
    {
        proof {
            assert(exclusions@.skip(i as int)[0] == exclusions@[i as int]);
            assert(exclusions@.skip(i as int).drop_first() =~= exclusions@.skip(i + 1));
        }
        if str_eq(exclusions[i].0.as_str(), parent_coordinate) {
            let children = &exclusions[i].1;
            proof {
                assert(children_of(exclusions@, parent_coordinate@) == Some(children@));
            }
            let mut k: usize = 0;
            while k < children.len()
                invariant
                    k <= children@.len(),
                    children_of(exclusions@, parent_coordinate@) == Some(children@),
                    forall|x: int| 0 <= x < k ==> children@[x]@ != candidate_coordinate@,
                decreases children@.len() - k,
            {
                if str_eq(children[k].as_str(), candidate_coordinate) {
                    proof {
                        assert(children@[k as int]@ == candidate_coordinate@);
                        assert(seq_has(children@, candidate_coordinate@));
                    }
                    return true;
                }
                k = k + 1;
            }
            return false;
        }
        i = i + 1;
    }
    false
}

/// A merged table as plain values: `(parent, children)` entries.
pub type ExclTable = Seq<(Seq<char>, Seq<Seq<char>>)>;

pub open spec fn table_view(t: Seq<(String, Vec<String>)>) -> ExclTable {
    t.map_values(|e: (String, Vec<String>)| (e.0@, e.1@.map_values(|s: String| s@)))
}

/// Index of the entry keyed `p`, or -1.
pub open spec fn key_index(t: ExclTable, p: Seq<char>) -> int
    decreases t.len(),
{
    if t.len() == 0 {
        -1
    } else if t.last().0 == p {
        t.len() - 1
    } else {
        key_index(t.drop_last(), p)
    }
}

/// `t` with an (empty) entry for `p` appended unless it has one.
pub open spec fn ensure_key(t: ExclTable, p: Seq<char>) -> ExclTable {
    if key_index(t, p) >= 0 {
        t
    } else {
        t.push((p, Seq::empty()))
    }
}

/// Adds `c` to the children of the entry keyed `p` unless already there.
pub open spec fn add_child(t: ExclTable, p: Seq<char>, c: Seq<char>) -> ExclTable {
    let a = key_index(t, p);
    if t[a].1.contains(c) {
        t
    } else {
        t.update(a, (p, t[a].1.push(c)))
    }
}

pub open spec fn add_children(t: ExclTable, p: Seq<char>, cs: Seq<Seq<char>>) -> ExclTable
    decreases cs.len(),
{
    if cs.len() == 0 {
        t
    } else {
        add_children(add_child(t, p, cs[0]), p, cs.drop_first())
    }
}

pub open spec fn merge_entries(t: ExclTable, es: ExclTable) -> ExclTable
    decreases es.len(),
{
    if es.len() == 0 {
        t
    } else {
        merge_entries(add_children(ensure_key(t, es[0].0), es[0].0, es[0].1), es.drop_first())
    }
}

pub open spec fn merge_modules(t: ExclTable, ms: Seq<Module>) -> ExclTable
    decreases ms.len(),
{
    if ms.len() == 0 {
        t
    } else {
        merge_modules(merge_entries(t, table_view(ms[0].exclusions@)), ms.drop_first())
    }
}

proof fn lemma_key_index(t: ExclTable, p: Seq<char>)
    ensures
        -1 <= key_index(t, p) < t.len(),
        key_index(t, p) >= 0 ==> t[key_index(t, p)].0 == p,
        key_index(t, p) < 0 ==> forall|a: int| 0 <= a < t.len() ==> t[a].0 != p,
    decreases t.len(),
{
    if t.len() > 0 {
        lemma_key_index(t.drop_last(), p);
        if t.last().0 != p {
            assert forall|a: int| 0 <= a < t.len() - 1 implies t[a] == t.drop_last()[a] by {}
        }
    }
}

fn find_key(table: &Vec<(String, Vec<String>)>, key: &String) -> (res: Option<usize>)
    ensures
        match res {
            Some(a) => a as int == key_index(table_view(table@), key@),
            None => key_index(table_view(table@), key@) < 0,
        },
{
    let mut a = table.len();
    proof {
        assert(table_view(table@).take(a as int) =~= table_view(table@));
    }
    while a > 0
        invariant
            a <= table@.len(),
            key_index(table_view(table@), key@) == key_index(table_view(table@).take(a as int), key@),
        decreases a,
    {
        proof {
            assert(table_view(table@).take(a as int).drop_last() =~= table_view(table@).take(a - 1));
        }
        if str_eq(table[a - 1].0.as_str(), key.as_str()) {
            return Some(a - 1);
        }
        a = a - 1;
    }
    None
}

fn list_has(list: &Vec<String>, x: &String) -> (res: bool)
    ensures
        res == list@.map_values(|s: String| s@).contains(x@),
{
    let mut k: usize = 0;
    while k < list.len()
        invariant
            k <= list@.len(),
            forall|b: int| 0 <= b < k ==> list@[b]@ != x@,
        decreases list@.len() - k,
    {
        if str_eq(list[k].as_str(), x.as_str()) {
            proof {
                assert(list@.map_values(|s: String| s@)[k as int] == x@);
            }
            return true;
        }
        k = k + 1;
    }
    proof {
        let ls = list@.map_values(|s: String| s@);
        if ls.contains(x@) {
            let b = choose|b: int| 0 <= b < ls.len() && #[trigger] ls[b] == x@;
            assert(list@[b]@ == x@);
        }
    }
    false
}

/// Merges the exclusions of every module of the workspace into one table keyed by
/// parent coordinate: an exclusion declared by any module holds for the whole graph.
/// Parents appear in the order first met; each child is listed once.
pub fn merge_exclusions(modules: &[Module]) -> (merged: Vec<(String, Vec<String>)>)
    ensures
        table_view(merged@) == merge_modules(Seq::empty(), modules@),
{
    let mut merged: Vec<(String, Vec<String>)> = Vec::new();
    let mut i: usize = 0;
    proof {
        assert(modules@.skip(0) =~= modules@);
        assert(table_view(merged@) =~= Seq::<(Seq<char>, Seq<Seq<char>>)>::empty());
    }
    while i < modules.len()
        invariant
            i <= modules@.len(),
            merge_modules(Seq::empty(), modules@) == merge_modules(table_view(merged@), modules@.skip(i as int)),
        decreases modules@.len() - i,
    {
        let module = &modules[i];
        let ghost es = table_view(module.exclusions@);
        proof {
            assert(modules@.skip(i as int)[0] == modules@[i as int]);
            assert(modules@.skip(i as int).drop_first() =~= modules@.skip(i + 1));
            assert(es.skip(0) =~= es);
        }
        let ghost target = merge_entries(table_view(merged@), es);
        let mut j: usize = 0;
        while j < module.exclusions.len()
            invariant
                j <= module.exclusions@.len(),
                es == table_view(module.exclusions@),
                target == merge_entries(table_view(merged@), es.skip(j as int)),
            decreases module.exclusions@.len() - j,
        {
            let parent = &module.exclusions[j].0;
            let children = &module.exclusions[j].1;
            let ghost cs = children@.map_values(|s: String| s@);
            proof {
                assert(es.skip(j as int)[0] == (parent@, cs));
                assert(es.skip(j as int).drop_first() =~= es.skip(j + 1));
                lemma_key_index(table_view(merged@), parent@);
            }
            let slot = match find_key(&merged, parent) {
                Some(a) => a,
                None => {
                    let ghost before = merged@;
                    merged.push((parent.clone(), Vec::new()));
                    proof {
                        assert(merged@.last().1@.map_values(|s: String| s@) =~= Seq::<Seq<char>>::empty());
                        assert(table_view(merged@) =~= table_view(before).push((parent@, Seq::empty())));
                        assert(key_index(table_view(merged@), parent@) == merged@.len() - 1);
                    }
                    merged.len() - 1
                },
            };
            proof {
                assert(table_view(merged@) == ensure_key(table_view(merged@), parent@));
                assert(cs.skip(0) =~= cs);
            }
            let mut k: usize = 0;
            while k < children.len()
                invariant
                    slot < merged@.len(),
                    slot as int == key_index(table_view(merged@), parent@),
                    k <= children@.len(),
                    cs == children@.map_values(|s: String| s@),
                    target == merge_entries(add_children(table_view(merged@), parent@, cs.skip(k as int)), es.skip(j + 1)),
                decreases children@.len() - k,
            {
                proof {
                    assert(cs.skip(k as int)[0] == children@[k as int]@);
                    assert(cs.skip(k as int).drop_first() =~= cs.skip(k + 1));
                    assert(table_view(merged@)[slot as int].1 == merged@[slot as int].1@.map_values(|s: String| s@));
                }
                if !list_has(&merged[slot].1, &children[k]) {
                    let ghost before = merged@;
                    merged[slot].1.push(children[k].clone());
                    proof {
                        lemma_key_index(table_view(before), parent@);
                        assert(merged@[slot as int].1@.map_values(|s: String| s@) =~= before[slot as int].1@.map_values(
                            |s: String| s@,
                        ).push(children@[k as int]@));
                        assert(merged@[slot as int].0 == before[slot as int].0);
                        assert(table_view(merged@)[slot as int] == (
                            parent@,
                            table_view(before)[slot as int].1.push(children@[k as int]@),
                        ));
                        assert(table_view(merged@) =~= table_view(before).update(
                            slot as int,
                            (parent@, table_view(before)[slot as int].1.push(children@[k as int]@)),
                        ));
                        lemma_key_index(table_view(before), parent@);
                        lemma_key_index(table_view(merged@), parent@);
                        lemma_key_index_update(table_view(before), slot as int, parent@, children@[k as int]@);
                    }
                }
                k = k + 1;
            }
            proof {
                assert(cs.skip(k as int) =~= Seq::<Seq<char>>::empty());
            }
            j = j + 1;
        }
        proof {
            assert(es.skip(j as int) =~= Seq::<(Seq<char>, Seq<Seq<char>>)>::empty());
        }
        i = i + 1;
    }
    proof {
        assert(modules@.skip(i as int) =~= Seq::<Module>::empty());
    }
    merged
}

proof fn lemma_key_index_update(t: ExclTable, a: int, p: Seq<char>, c: Seq<char>)
    requires
        a == key_index(t, p),
        0 <= a < t.len(),
    ensures
        key_index(t.update(a, (p, t[a].1.push(c))), p) == a,
{
    lemma_key_index(t, p);
    lemma_key_index_same_keys(t, t.update(a, (p, t[a].1.push(c))), p);
}

proof fn lemma_key_index_same_keys(t: ExclTable, u: ExclTable, p: Seq<char>)
    requires
        t.len() == u.len(),
        forall|x: int| 0 <= x < t.len() ==> (#[trigger] t[x]).0 == u[x].0,
    ensures
        key_index(t, p) == key_index(u, p),
    decreases t.len(),
{
    if t.len() > 0 {
        lemma_key_index_same_keys(t.drop_last(), u.drop_last(), p);
        assert(t.last().0 == u.last().0);
    }
}

/// No two entries share a parent.
pub open spec fn distinct_keys(t: ExclTable) -> bool {
    forall|a: int, b: int| 0 <= a < b < t.len() ==> #[trigger] t[a].0 != #[trigger] t[b].0
}

/// Some entry keyed `p` lists `c`.
pub open spec fn lists(t: ExclTable, p: Seq<char>, c: Seq<char>) -> bool {
    exists|a: int, k: int| 0 <= a < t.len() && 0 <= k < t[a].1.len() && t[a].0 == p && #[trigger] t[a].1[k] == c
}

proof fn lemma_ensure_key(t: ExclTable, p: Seq<char>)
    requires
        distinct_keys(t),
    ensures
        distinct_keys(ensure_key(t, p)),
        key_index(ensure_key(t, p), p) >= 0,
        forall|q: Seq<char>, c: Seq<char>| lists(ensure_key(t, p), q, c) <==> lists(t, q, c),
{
    lemma_key_index(t, p);
    if key_index(t, p) < 0 {
        let u = t.push((p, Seq::empty()));
        assert(u.last().0 == p);
        assert(key_index(u, p) == u.len() - 1);
        assert forall|q: Seq<char>, c: Seq<char>| lists(u, q, c) <==> lists(t, q, c) by {
            if lists(u, q, c) {
                let (a, k) = choose|a: int, k: int|
                    0 <= a < u.len() && 0 <= k < u[a].1.len() && u[a].0 == q && #[trigger] u[a].1[k] == c;
                assert(a < t.len());
                assert(t[a].1[k] == c);
            }
            if lists(t, q, c) {
                let (a, k) = choose|a: int, k: int|
                    0 <= a < t.len() && 0 <= k < t[a].1.len() && t[a].0 == q && #[trigger] t[a].1[k] == c;
                assert(u[a].1[k] == c);
            }
        }
    }
}

proof fn lemma_add_child(t: ExclTable, p: Seq<char>, c: Seq<char>)
    requires
        distinct_keys(t),
        key_index(t, p) >= 0,
    ensures
        distinct_keys(add_child(t, p, c)),
        key_index(add_child(t, p, c), p) >= 0,
        forall|q: Seq<char>, d: Seq<char>| lists(add_child(t, p, c), q, d) <==> (lists(t, q, d) || (q == p && d == c)),
{
    lemma_key_index(t, p);
    let a0 = key_index(t, p);
    let u = add_child(t, p, c);
    if t[a0].1.contains(c) {
        assert forall|q: Seq<char>, d: Seq<char>| (q == p && d == c) implies lists(t, q, d) by {
            let k = choose|k: int| 0 <= k < t[a0].1.len() && t[a0].1[k] == c;
            assert(t[a0].1[k] == c);
        }
    } else {
        assert forall|x: int| 0 <= x < t.len() implies (#[trigger] t[x]).0 == u[x].0 by {}
        lemma_key_index_same_keys(t, u, p);
        assert forall|q: Seq<char>, d: Seq<char>| lists(u, q, d) <==> (lists(t, q, d) || (q == p && d == c)) by {
            if lists(u, q, d) {
                let (a, k) = choose|a: int, k: int|
                    0 <= a < u.len() && 0 <= k < u[a].1.len() && u[a].0 == q && #[trigger] u[a].1[k] == d;
                if a != a0 {
                    assert(t[a].1[k] == d);
                } else if k < t[a0].1.len() {
                    assert(t[a0].1[k] == d);
                }
            }
            if lists(t, q, d) {
                let (a, k) = choose|a: int, k: int|
                    0 <= a < t.len() && 0 <= k < t[a].1.len() && t[a].0 == q && #[trigger] t[a].1[k] == d;
                assert(u[a].1[k] == d);
            }
            if q == p && d == c {
                assert(u[a0].1[t[a0].1.len() as int] == c);
            }
        }
    }
}

proof fn lemma_add_children(t: ExclTable, p: Seq<char>, cs: Seq<Seq<char>>)
    requires
        distinct_keys(t),
        key_index(t, p) >= 0,
    ensures
        distinct_keys(add_children(t, p, cs)),
        forall|q: Seq<char>, d: Seq<char>|
            lists(add_children(t, p, cs), q, d) <==> (lists(t, q, d) || (q == p && cs.contains(d))),
    decreases cs.len(),
{
    if cs.len() > 0 {
        lemma_add_child(t, p, cs[0]);
        lemma_add_children(add_child(t, p, cs[0]), p, cs.drop_first());
        assert forall|q: Seq<char>, d: Seq<char>|
            lists(add_children(t, p, cs), q, d) <==> (lists(t, q, d) || (q == p && cs.contains(d))) by {
            if cs.contains(d) && d != cs[0] {
                let k = choose|k: int| 0 <= k < cs.len() && cs[k] == d;
                assert(cs.drop_first()[k - 1] == d);
            }
            if cs.drop_first().contains(d) {
                let k = choose|k: int| 0 <= k < cs.drop_first().len() && cs.drop_first()[k] == d;
                assert(cs[k + 1] == d);
            }
            if d == cs[0] {
                assert(cs.contains(cs[0]));
            }
        }
    }
}

proof fn lemma_merge_entries(t: ExclTable, es: ExclTable)
    requires
        distinct_keys(t),
    ensures
        distinct_keys(merge_entries(t, es)),
        forall|q: Seq<char>, d: Seq<char>| lists(merge_entries(t, es), q, d) <==> (lists(t, q, d) || lists(es, q, d)),
    decreases es.len(),
{
    if es.len() > 0 {
        let p = es[0].0;
        lemma_ensure_key(t, p);
        lemma_add_children(ensure_key(t, p), p, es[0].1);
        let t2 = add_children(ensure_key(t, p), p, es[0].1);
        lemma_merge_entries(t2, es.drop_first());
        let rest = es.drop_first();
        assert forall|q: Seq<char>, d: Seq<char>| lists(es, q, d) <==> ((q == p && es[0].1.contains(d)) || lists(rest, q, d)) by {
            if lists(es, q, d) {
                let (a, k) = choose|a: int, k: int|
                    0 <= a < es.len() && 0 <= k < es[a].1.len() && es[a].0 == q && #[trigger] es[a].1[k] == d;
                if a == 0 {
                    assert(es[0].1.contains(d));
                } else {
                    assert(rest[a - 1].1[k] == d);
                }
            }
            if q == p && es[0].1.contains(d) {
                let k = choose|k: int| 0 <= k < es[0].1.len() && es[0].1[k] == d;
                assert(es[0].1[k] == d);
            }
            if lists(rest, q, d) {
                let (a, k) = choose|a: int, k: int|
                    0 <= a < rest.len() && 0 <= k < rest[a].1.len() && rest[a].0 == q && #[trigger] rest[a].1[k] == d;
                assert(es[a + 1].1[k] == d);
            }
        }
    }
}

/// Some exclusion entry of module `m` keyed `p` lists `c`.
pub open spec fn module_lists(m: Module, p: Seq<char>, c: Seq<char>) -> bool {
    exists|j: int, k: int|
        0 <= j < m.exclusions@.len() && 0 <= k < m.exclusions@[j].1@.len() && m.exclusions@[j].0@ == p
            && #[trigger] m.exclusions@[j].1@[k]@ == c
}

proof fn lemma_module_lists(m: Module, p: Seq<char>, c: Seq<char>)
    ensures
        lists(table_view(m.exclusions@), p, c) <==> module_lists(m, p, c),
{
    let t = table_view(m.exclusions@);
    if lists(t, p, c) {
        let (a, k) = choose|a: int, k: int| 0 <= a < t.len() && 0 <= k < t[a].1.len() && t[a].0 == p && #[trigger] t[a].1[k] == c;
        assert(m.exclusions@[a].1@[k]@ == c);
    }
    if module_lists(m, p, c) {
        let (j, k) = choose|j: int, k: int|
            0 <= j < m.exclusions@.len() && 0 <= k < m.exclusions@[j].1@.len() && m.exclusions@[j].0@ == p
                && #[trigger] m.exclusions@[j].1@[k]@ == c;
        assert(t[j].1[k] == c);
    }
}

proof fn lemma_merge_modules(t: ExclTable, ms: Seq<Module>)
    requires
        distinct_keys(t),
    ensures
        distinct_keys(merge_modules(t, ms)),
        forall|q: Seq<char>, d: Seq<char>|
            lists(merge_modules(t, ms), q, d) <==> (lists(t, q, d) || exists|i: int|
                0 <= i < ms.len() && #[trigger] module_lists(ms[i], q, d)),
    decreases ms.len(),
{
    if ms.len() > 0 {
        lemma_merge_entries(t, table_view(ms[0].exclusions@));
        lemma_merge_modules(merge_entries(t, table_view(ms[0].exclusions@)), ms.drop_first());
        let rest = ms.drop_first();
        assert forall|q: Seq<char>, d: Seq<char>|
            lists(merge_modules(t, ms), q, d) <==> (lists(t, q, d) || exists|i: int|
                0 <= i < ms.len() && #[trigger] module_lists(ms[i], q, d)) by {
            lemma_module_lists(ms[0], q, d);
            if exists|i: int| 0 <= i < ms.len() && #[trigger] module_lists(ms[i], q, d) {
                let i = choose|i: int| 0 <= i < ms.len() && #[trigger] module_lists(ms[i], q, d);
                if i > 0 {
                    assert(module_lists(rest[i - 1], q, d));
                }
            }
            if exists|i: int| 0 <= i < rest.len() && #[trigger] module_lists(rest[i], q, d) {
                let i = choose|i: int| 0 <= i < rest.len() && #[trigger] module_lists(rest[i], q, d);
                assert(module_lists(ms[i + 1], q, d));
            }
        }
    }
}

/// Exclusions are global: in the table merged from the modules of a workspace,
/// `parent` excludes `child` exactly when some module declares that exclusion.
pub proof fn law_merged_exclusions_are_global(
    modules: Seq<Module>,
    merged: Seq<(String, Vec<String>)>,
    parent: Seq<char>,
    child: Seq<char>,
)
    requires
        table_view(merged) == merge_modules(Seq::empty(), modules),
    ensures
        excludes(merged, parent, child) <==> declared_exclusion(modules, parent, child),
{
    let t = table_view(merged);
    lemma_merge_modules(Seq::empty(), modules);
    lemma_children_of(merged, parent);
    assert(!lists(Seq::<(Seq<char>, Seq<Seq<char>>)>::empty(), parent, child));
    if excludes(merged, parent, child) {
        let ch = children_of(merged, parent)->0;
        let a = choose|a: int| 0 <= a < merged.len() && #[trigger] merged[a].0@ == parent && merged[a].1@ == ch;
        let k = choose|k: int| 0 <= k < ch.len() && #[trigger] ch[k]@ == child;
        assert(t[a].1[k] == child);
        assert(lists(t, parent, child));
        let i = choose|i: int| 0 <= i < modules.len() && #[trigger] module_lists(modules[i], parent, child);
        let (j, k2) = choose|j: int, k: int|
            0 <= j < modules[i].exclusions@.len() && 0 <= k < modules[i].exclusions@[j].1@.len()
                && modules[i].exclusions@[j].0@ == parent && #[trigger] modules[i].exclusions@[j].1@[k]@ == child;
        assert(modules[i].exclusions@[j].0@ == parent && modules[i].exclusions@[j].1@[k2]@ == child);
    }
    if declared_exclusion(modules, parent, child) {
        let (i, j, k) = choose|i: int, j: int, k: int|
            0 <= i < modules.len() && 0 <= j < modules[i].exclusions@.len() && 0 <= k
                < modules[i].exclusions@[j].1@.len() && #[trigger] modules[i].exclusions@[j].0@ == parent
                && #[trigger] modules[i].exclusions@[j].1@[k]@ == child;
        assert(module_lists(modules[i], parent, child));
        assert(lists(t, parent, child));
        let (a, k2) = choose|a: int, k: int| 0 <= a < t.len() && 0 <= k < t[a].1.len() && t[a].0 == parent && #[trigger] t[a].1[k] == child;
        assert(merged[a].0@ == parent);
        assert(table_has_key(merged, parent));
        let ch = children_of(merged, parent)->0;
        let a2 = choose|a: int| 0 <= a < merged.len() && #[trigger] merged[a].0@ == parent && merged[a].1@ == ch;
        if a2 != a {
            if a2 < a {
                assert(t[a2].0 != t[a].0);
            } else {
                assert(t[a].0 != t[a2].0);
            }
        }
        assert(ch[k2]@ == child);
    }
}

} // verus!
