//! The `coordinate -> version` table of the BOMs declared in `[boms]`.
use crate::domain::BomReference;
use crate::pom::{ParsedPom, PomProvider};
use crate::text::str_eq;
use vstd::prelude::*;

verus! {

/// Maximal depth of transitive BOM imports; a root BOM is at depth 0.
pub const MAX_IMPORT_DEPTH: u32 = 10;

/// Failures of BOM resolution.
#[derive(Debug, Clone, PartialEq, Eq)]
pub enum BomResolutionError {
    /// An import at depth `max` or beyond was requested by the entry `coordinate`.
    ImportDepthExceeded { coordinate: String, max: u32 },
    /// The POM `coordinate:version` could not be fetched; `message` is the provider's.
    Fetch { coordinate: String, version: String, message: String },
}

/// The error of BOM resolution as plain values.
pub enum BomErr {
    DepthExceeded(Seq<char>),
    Fetch(Seq<char>, Seq<char>),
}

pub type Table = Seq<(Seq<char>, Seq<char>)>;

pub open spec fn table_has(t: Table, k: Seq<char>) -> bool {
    exists|i: int| 0 <= i < t.len() && #[trigger] t[i].0 == k
}

/// Adds `k -> v` unless `k` is already present: the first entry wins.
pub open spec fn add_first(t: Table, k: Seq<char>, v: Seq<char>) -> Table {
    if table_has(t, k) {
        t
    } else {
        t.push((k, v))
    }
}

/// Adds every entry of `u`, in order, under the first-wins rule.
pub open spec fn merge_first(t: Table, u: Table) -> Table
    decreases u.len(),
{
    if u.len() == 0 {
        t
    } else {
        merge_first(add_first(t, u[0].0, u[0].1), u.drop_first())
    }
}

/// Resolution of the managed entries of a POM seen at import depth `depth`,
/// continuing the table `acc`: plain entries are added, BOM imports are fetched and
/// resolved one level deeper, then merged, all under the first-wins rule.
pub open spec fn resolve_entries<P: PomProvider>(
    provider: P,
    entries: Seq<(Seq<char>, Seq<char>, bool)>,
    depth: int,
    acc: Table,
) -> Result<Table, BomErr>
    decreases (MAX_IMPORT_DEPTH - depth) as nat, entries.len(),
{
    if entries.len() == 0 {
        Ok(acc)
    } else {
        let e = entries[0];
        if e.2 {
            if depth >= MAX_IMPORT_DEPTH as int {
                Err(BomErr::DepthExceeded(e.0))
            } else {
                match provider.published(e.0, e.1) {
                    None => Err(BomErr::Fetch(e.0, e.1)),
                    Some(imported) => match resolve_entries(provider, imported.managed, depth + 1, Seq::empty()) {
                        Err(err) => Err(err),
                        Ok(t) => resolve_entries(provider, entries.drop_first(), depth, merge_first(acc, t)),
                    },
                }
            }
        } else {
            resolve_entries(provider, entries.drop_first(), depth, add_first(acc, e.0, e.1))
        }
    }
}

/// Resolution of the root BOMs `roots` (`(coordinate, version)`), continuing `acc`.
pub open spec fn resolve_roots<P: PomProvider>(
    provider: P,
    roots: Seq<(Seq<char>, Seq<char>)>,
    acc: Table,
) -> Result<Table, BomErr>
    decreases roots.len(),
{
    if roots.len() == 0 {
        Ok(acc)
    } else {
        match provider.published(roots[0].0, roots[0].1) {
            None => Err(BomErr::Fetch(roots[0].0, roots[0].1)),
            Some(pom) => match resolve_entries(provider, pom.managed, 0, Seq::empty()) {
                Err(err) => Err(err),
                Ok(t) => resolve_roots(provider, roots.drop_first(), merge_first(acc, t)),
            },
        }
    }
}

/// Resolving `entries` as `resolve_entries` does fetches the POM `(c, v)` before
/// any failure.
pub open spec fn entries_fetch<P: PomProvider>(
    provider: P,
    entries: Seq<(Seq<char>, Seq<char>, bool)>,
    depth: int,
    acc: Table,
    c: Seq<char>,
    v: Seq<char>,
) -> bool
    decreases (MAX_IMPORT_DEPTH - depth) as nat, entries.len(),
{
    if entries.len() == 0 {
        false
    } else {
        let e = entries[0];
        if e.2 {
            if depth >= MAX_IMPORT_DEPTH as int {
                false
            } else if e.0 == c && e.1 == v {
                true
            } else {
                match provider.published(e.0, e.1) {
                    None => false,
                    Some(imported) => entries_fetch(provider, imported.managed, depth + 1, Seq::empty(), c, v)
                        || match resolve_entries(provider, imported.managed, depth + 1, Seq::empty()) {
                        Err(_) => false,
                        Ok(t) => entries_fetch(provider, entries.drop_first(), depth, merge_first(acc, t), c, v),
                    },
                }
            }
        } else {
            entries_fetch(provider, entries.drop_first(), depth, add_first(acc, e.0, e.1), c, v)
        }
    }
}

/// Resolving the root BOMs `roots` as `resolve_roots` does fetches the POM `(c, v)`
/// before any failure.
pub open spec fn roots_fetch<P: PomProvider>(
    provider: P,
    roots: Seq<(Seq<char>, Seq<char>)>,
    acc: Table,
    c: Seq<char>,
    v: Seq<char>,
) -> bool
    decreases roots.len(),
{
    if roots.len() == 0 {
        false
    } else if roots[0].0 == c && roots[0].1 == v {
        true
    } else {
        match provider.published(roots[0].0, roots[0].1) {
            None => false,
            Some(pom) => entries_fetch(provider, pom.managed, 0, Seq::empty(), c, v) || match resolve_entries(
                provider,
                pom.managed,
                0,
                Seq::empty(),
            ) {
                Err(_) => false,
                Ok(t) => roots_fetch(provider, roots.drop_first(), merge_first(acc, t), c, v),
            },
        }
    }
}

/// The outcome is a failed fetch.
pub open spec fn fetch_failed(r: Result<Vec<(String, String)>, BomResolutionError>) -> bool {
    r is Err && r->Err_0 is Fetch
}

pub open spec fn pairs_view(v: Seq<(String, String)>) -> Table {
    v.map_values(|p: (String, String)| (p.0@, p.1@))
}

pub open spec fn bom_refs_view(v: Seq<BomReference>) -> Table {
    v.map_values(|b: BomReference| (b.coordinate@, b.version@))
}

pub open spec fn result_view(r: Result<Vec<(String, String)>, BomResolutionError>) -> Result<Table, BomErr> {
    match r {
        Ok(t) => Ok(pairs_view(t@)),
        Err(BomResolutionError::ImportDepthExceeded { coordinate, max }) => Err(
            BomErr::DepthExceeded(coordinate@),
        ),
        Err(BomResolutionError::Fetch { coordinate, version, message }) => Err(
            BomErr::Fetch(coordinate@, version@),
        ),
    }
}

pub open spec fn depth_field_ok(r: Result<Vec<(String, String)>, BomResolutionError>) -> bool {
    r matches Err(BomResolutionError::ImportDepthExceeded { coordinate, max }) ==> max == MAX_IMPORT_DEPTH
}

/// Adds `k -> v` to `table` unless `k` is already a key.
fn add_entry(table: &mut Vec<(String, String)>, k: &String, v: &String)
    ensures
        pairs_view(final(table)@) == add_first(pairs_view(old(table)@), k@, v@),
{
    let mut i: usize = 0;
    while i < table.len()
        invariant
            i <= table@.len(),
            forall|j: int| 0 <= j < i ==> table@[j].0@ != k@,
        decreases table@.len() - i,
    {
        if str_eq(table[i].0.as_str(), k.as_str()) {
            proof {
                assert(pairs_view(table@)[i as int].0 == k@);
            }
            return;
        }
        i = i + 1;
    }
    proof {
        assert(!table_has(pairs_view(table@), k@)) by {
            if table_has(pairs_view(table@), k@) {
                let j = choose|j: int| 0 <= j < pairs_view(table@).len() && #[trigger] pairs_view(table@)[j].0 == k@;
                assert(table@[j].0@ == k@);
            }
        }
    }
    let ghost before = table@;
    table.push((k.clone(), v.clone()));
    proof {
        assert(pairs_view(table@) =~= pairs_view(before).push((k@, v@)));
    }
}

/// Adds every entry of `other` to `table` under the first-wins rule.
fn merge_entries(table: &mut Vec<(String, String)>, other: &Vec<(String, String)>)
    ensures
        pairs_view(final(table)@) == merge_first(pairs_view(old(table)@), pairs_view(other@)),
{
    let mut i: usize = 0;
    proof {
        assert(pairs_view(other@).skip(0) =~= pairs_view(other@));
    }
    while i < other.len()
        invariant
            i <= other@.len(),
            merge_first(pairs_view(old(table)@), pairs_view(other@)) == merge_first(
                pairs_view(table@),
                pairs_view(other@).skip(i as int),
            ),
        decreases other@.len() - i,
    {
        proof {
            let rest = pairs_view(other@).skip(i as int);
            assert(rest[0] == (other@[i as int].0@, other@[i as int].1@));
            assert(rest.drop_first() =~= pairs_view(other@).skip(i + 1));
        }
        add_entry(table, &other[i].0, &other[i].1);
        i = i + 1;
    }
}

fn fetch_pom<P: PomProvider>(provider: &P, coordinate: &String, version: &String) -> (res: Result<
    ParsedPom,
    BomResolutionError,
>)
    ensures
        match res {
            Ok(pom) => provider.published(coordinate@, version@) == Some(pom@),
            Err(BomResolutionError::Fetch { coordinate: c, version: v, message }) => c@ == coordinate@ && v@
                == version@,
            Err(_) => false,
        },
{
    match provider.fetch(coordinate.as_str(), version.as_str()) {
        Ok(pom) => Ok(pom),
        Err(message) => Err(
            BomResolutionError::Fetch { coordinate: coordinate.clone(), version: version.clone(), message },
        ),
    }
}

fn resolve_pom<P: PomProvider>(pom: &ParsedPom, provider: &P, depth: u32) -> (res: Result<
    Vec<(String, String)>,
    BomResolutionError,
>)
    requires
        depth <= MAX_IMPORT_DEPTH,
    ensures
        !fetch_failed(res) ==> result_view(res) == resolve_entries(*provider, pom@.managed, depth as int, Seq::empty()),
        res matches Err(BomResolutionError::Fetch { coordinate, version, message }) ==> entries_fetch(
            *provider,
            pom@.managed,
            depth as int,
            Seq::empty(),
            coordinate@,
            version@,
        ),
        depth_field_ok(res),
    decreases MAX_IMPORT_DEPTH - depth,
{
    let ghost entries = pom@.managed;
    let mut table: Vec<(String, String)> = Vec::new();
    let mut i: usize = 0;
    proof {
        assert(entries.skip(0) =~= entries);
        assert(pairs_view(table@) =~= Seq::<(Seq<char>, Seq<char>)>::empty());
    }
    while i < pom.managed_dependencies.len()
        invariant
            depth <= MAX_IMPORT_DEPTH,
            entries == pom@.managed,
            i <= entries.len(),
            resolve_entries(*provider, entries, depth as int, Seq::empty()) == resolve_entries(
                *provider,
                entries.skip(i as int),
                depth as int,
                pairs_view(table@),
            ),
            forall|c: Seq<char>, v: Seq<char>|
                #[trigger] entries_fetch(*provider, entries.skip(i as int), depth as int, pairs_view(table@), c, v)
                    ==> entries_fetch(*provider, entries, depth as int, Seq::empty(), c, v),
        decreases entries.len() - i,
    {
        let entry = &pom.managed_dependencies[i];
        proof {
            assert(entries.skip(i as int)[0] == entries[i as int]);
            assert(entries.skip(i as int).drop_first() =~= entries.skip(i + 1));
        }
        if entry.is_bom_import {
            if depth >= MAX_IMPORT_DEPTH {
                return Err(
                    BomResolutionError::ImportDepthExceeded {
                        coordinate: entry.coordinate.clone(),
                        max: MAX_IMPORT_DEPTH,
                    },
                );
            }
            let ghost before = pairs_view(table@);
            let imported = match fetch_pom(provider, &entry.coordinate, &entry.version) {
                Ok(p) => p,
                Err(err) => {
                    proof {
                        assert(entries_fetch(
                            *provider,
                            entries.skip(i as int),
                            depth as int,
                            before,
                            entry.coordinate@,
                            entry.version@,
                        ));
                    }
                    return Err(err);
                },
            };
            let imported_table = match resolve_pom(&imported, provider, depth + 1) {
                Ok(t) => t,
                Err(err) => {
                    proof {
                        if err is Fetch {
                            assert(entries_fetch(
                                *provider,
                                entries.skip(i as int),
                                depth as int,
                                before,
                                err->Fetch_coordinate@,
                                err->Fetch_version@,
                            ));
                        }
                    }
                    return Err(err);
                },
            };
            merge_entries(&mut table, &imported_table);
            proof {
                assert forall|c: Seq<char>, v: Seq<char>|
                    #[trigger] entries_fetch(*provider, entries.skip(i + 1), depth as int, pairs_view(table@), c, v)
                        implies entries_fetch(*provider, entries, depth as int, Seq::empty(), c, v) by {
                    assert(entries_fetch(*provider, entries.skip(i as int), depth as int, before, c, v));
                }
            }
        } else {
            let ghost before = pairs_view(table@);
            add_entry(&mut table, &entry.coordinate, &entry.version);
            proof {
                assert forall|c: Seq<char>, v: Seq<char>|
                    #[trigger] entries_fetch(*provider, entries.skip(i + 1), depth as int, pairs_view(table@), c, v)
                        implies entries_fetch(*provider, entries, depth as int, Seq::empty(), c, v) by {
                    assert(entries_fetch(*provider, entries.skip(i as int), depth as int, before, c, v));
                }
            }
        }
        i = i + 1;
    }
    proof {
        assert(entries.skip(i as int) =~= Seq::<(Seq<char>, Seq<char>, bool)>::empty());
    }
    Ok(table)
}

/// Builds the `coordinate -> version` table of the BOMs in `[boms]`, fetched through
/// `provider`. The first root BOM that manages a coordinate wins; within one BOM
/// (imports included, in declaration order) the first entry wins. Imports nest at most
/// `MAX_IMPORT_DEPTH` levels below a root. The table lists each coordinate once, in
/// the order the entries were met.
pub fn resolve_boms<P: PomProvider>(root_boms: &[BomReference], provider: &P) -> (res: Result<
    Vec<(String, String)>,
    BomResolutionError,
>)
    ensures
        !fetch_failed(res) ==> result_view(res) == resolve_roots(*provider, bom_refs_view(root_boms@), Seq::empty()),
        res matches Err(BomResolutionError::Fetch { coordinate, version, message }) ==> roots_fetch(
            *provider,
            bom_refs_view(root_boms@),
            Seq::empty(),
            coordinate@,
            version@,
        ),
        depth_field_ok(res),
{
    let ghost roots = bom_refs_view(root_boms@);
    let mut table: Vec<(String, String)> = Vec::new();
    let mut i: usize = 0;
    proof {
        assert(roots.skip(0) =~= roots);
        assert(pairs_view(table@) =~= Seq::<(Seq<char>, Seq<char>)>::empty());
    }
    while i < root_boms.len()
        invariant
            roots == bom_refs_view(root_boms@),
            i <= roots.len(),
            resolve_roots(*provider, roots, Seq::empty()) == resolve_roots(
                *provider,
                roots.skip(i as int),
                pairs_view(table@),
            ),
            forall|c: Seq<char>, v: Seq<char>|
                #[trigger] roots_fetch(*provider, roots.skip(i as int), pairs_view(table@), c, v) ==> roots_fetch(
                    *provider,
                    roots,
                    Seq::empty(),
                    c,
                    v,
                ),
        decreases roots.len() - i,
    {
        let bom_ref = &root_boms[i];
        proof {
            assert(roots.skip(i as int)[0] == roots[i as int]);
            assert(roots.skip(i as int).drop_first() =~= roots.skip(i + 1));
        }
        let ghost before = pairs_view(table@);
        let pom = match fetch_pom(provider, &bom_ref.coordinate, &bom_ref.version) {
            Ok(p) => p,
            Err(err) => {
                proof {
                    assert(roots_fetch(
                        *provider,
                        roots.skip(i as int),
                        before,
                        bom_ref.coordinate@,
                        bom_ref.version@,
                    ));
                }
                return Err(err);
            },
        };
        let bom_table = match resolve_pom(&pom, provider, 0) {
            Ok(t) => t,
            Err(err) => {
                proof {
                    if err is Fetch {
                        assert(roots_fetch(
                            *provider,
                            roots.skip(i as int),
                            before,
                            err->Fetch_coordinate@,
                            err->Fetch_version@,
                        ));
                    }
                }
                return Err(err);
            },
        };
        merge_entries(&mut table, &bom_table);
        proof {
            assert forall|c: Seq<char>, v: Seq<char>|
                #[trigger] roots_fetch(*provider, roots.skip(i + 1), pairs_view(table@), c, v) implies roots_fetch(
                *provider,
                roots,
                Seq::empty(),
                c,
                v,
            ) by {
                assert(roots_fetch(*provider, roots.skip(i as int), before, c, v));
            }
        }
        i = i + 1;
    }
    proof {
        assert(roots.skip(i as int) =~= Seq::<(Seq<char>, Seq<char>)>::empty());
    }
    Ok(table)
}

proof fn lemma_table_get_has(t: Table, k: Seq<char>)
    ensures
        crate::graph::table_get(t, k) is Some <==> table_has(t, k),
        table_has(t, k) ==> exists|i: int|
            0 <= i < t.len() && t[i].0 == k && crate::graph::table_get(t, k) == Some(#[trigger] t[i].1),
    decreases t.len(),
{
    if t.len() > 0 {
        lemma_table_get_has(t.drop_first(), k);
        if t[0].0 != k {
            if table_has(t, k) {
                let i = choose|i: int| 0 <= i < t.len() && #[trigger] t[i].0 == k;
                assert(t.drop_first()[i - 1].0 == k);
                let j = choose|j: int|
                    0 <= j < t.drop_first().len() && t.drop_first()[j].0 == k && crate::graph::table_get(
                        t.drop_first(),
                        k,
                    ) == Some(#[trigger] t.drop_first()[j].1);
                assert(t[j + 1] == t.drop_first()[j]);
            }
            if table_has(t.drop_first(), k) {
                let i = choose|i: int| 0 <= i < t.drop_first().len() && #[trigger] t.drop_first()[i].0 == k;
                assert(t[i + 1].0 == k);
            }
        } else {
            assert(t[0].0 == k);
        }
    }
}

proof fn lemma_table_get_push(t: Table, x: (Seq<char>, Seq<char>), k: Seq<char>)
    ensures
        crate::graph::table_get(t.push(x), k) == if table_has(t, k) {
            crate::graph::table_get(t, k)
        } else if x.0 == k {
            Some(x.1)
        } else {
            None
        },
    decreases t.len(),
{
    if t.len() == 0 {
        assert(t.push(x).drop_first() =~= Seq::<(Seq<char>, Seq<char>)>::empty());
        if table_has(t, k) {
            let i = choose|i: int| 0 <= i < t.len() && #[trigger] t[i].0 == k;
        }
    } else {
        assert(t.push(x).drop_first() =~= t.drop_first().push(x));
        lemma_table_get_push(t.drop_first(), x, k);
        if t[0].0 != k {
            if table_has(t, k) {
                let i = choose|i: int| 0 <= i < t.len() && #[trigger] t[i].0 == k;
                assert(t.drop_first()[i - 1].0 == k);
            }
            if table_has(t.drop_first(), k) {
                let i = choose|i: int| 0 <= i < t.drop_first().len() && #[trigger] t.drop_first()[i].0 == k;
                assert(t[i + 1].0 == k);
            }
        } else {
            assert(t[0].0 == k);
        }
    }
}

/// First wins when tables are merged: a coordinate keeps the version the table
/// already had, and takes the version of the merged table otherwise.
pub proof fn law_merge_first_wins(t: Table, u: Table, k: Seq<char>)
    ensures
        crate::graph::table_get(merge_first(t, u), k) == if table_has(t, k) {
            crate::graph::table_get(t, k)
        } else {
            crate::graph::table_get(u, k)
        },
    decreases u.len(),
{
    lemma_table_get_has(t, k);
    if u.len() > 0 {
        let t2 = add_first(t, u[0].0, u[0].1);
        law_merge_first_wins(t2, u.drop_first(), k);
        lemma_table_get_push(t, u[0], k);
        if table_has(t, k) {
            if !table_has(t, u[0].0) {
                let i = choose|i: int| 0 <= i < t.len() && #[trigger] t[i].0 == k;
                assert(t2[i].0 == k);
            }
            assert(table_has(t2, k));
            assert(crate::graph::table_get(t2, k) == crate::graph::table_get(t, k));
        } else if u[0].0 == k {
            assert(t2 == t.push(u[0]));
            assert(t2[t.len() as int].0 == k);
            assert(table_has(t2, k));
            assert(crate::graph::table_get(t2, k) == Some(u[0].1));
            assert(crate::graph::table_get(u, k) == Some(u[0].1));
        } else {
            if table_has(t2, k) {
                let i = choose|i: int| 0 <= i < t2.len() && #[trigger] t2[i].0 == k;
                if i < t.len() {
                    assert(t[i] == t2[i]);
                    assert(table_has(t, k));
                } else {
                    assert(t2[i] == u[0]);
                }
            }
            assert(!table_has(t2, k));
            assert(crate::graph::table_get(u, k) == crate::graph::table_get(u.drop_first(), k));
        }
    }
}

/// Among root BOMs the first listed wins: a coordinate present in the table before
/// a root is resolved keeps its version whatever the later roots manage.
pub proof fn law_earlier_root_wins<P: PomProvider>(provider: P, roots: Table, acc: Table, k: Seq<char>)
    requires
        resolve_roots(provider, roots, acc) is Ok,
        table_has(acc, k),
    ensures
        crate::graph::table_get(resolve_roots(provider, roots, acc)->Ok_0, k) == crate::graph::table_get(acc, k),
    decreases roots.len(),
{
    if roots.len() > 0 {
        let pom = provider.published(roots[0].0, roots[0].1)->Some_0;
        let t = resolve_entries(provider, pom.managed, 0, Seq::empty())->Ok_0;
        law_merge_first_wins(acc, t, k);
        lemma_merge_keeps(acc, t, k);
        law_earlier_root_wins(provider, roots.drop_first(), merge_first(acc, t), k);
    }
}

proof fn lemma_merge_keeps(t: Table, u: Table, k: Seq<char>)
    requires
        table_has(t, k),
    ensures
        table_has(merge_first(t, u), k),
    decreases u.len(),
{
    if u.len() > 0 {
        let t2 = add_first(t, u[0].0, u[0].1);
        if !table_has(t, u[0].0) {
            let i = choose|i: int| 0 <= i < t.len() && #[trigger] t[i].0 == k;
            assert(t2[i].0 == k);
        }
        lemma_merge_keeps(t2, u.drop_first(), k);
    }
}

} // verus!
