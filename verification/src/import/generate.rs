//! The text of a new `project.toml`.
use crate::bom::pairs_view;
use crate::cli::why::joined;
use crate::text::{quote, quoted};
use vstd::prelude::*;

verus! {

/// The value of a `[dependencies]`/`[dev-dependencies]` entry being written: an
/// explicit version, or one managed by an imported BOM.
#[derive(Debug, Clone, PartialEq, Eq)]
pub enum ImportedVersion {
    Explicit(String),
    BomManaged,
}

/// An `ImportedVersion` as plain values: `Some(version)`, or `None` when BOM-managed.
pub open spec fn version_view(v: ImportedVersion) -> Option<Seq<char>> {
    match v {
        ImportedVersion::Explicit(s) => Some(s@),
        ImportedVersion::BomManaged => None,
    }
}

pub open spec fn entries_view(s: Seq<(String, ImportedVersion)>) -> Seq<(Seq<char>, Option<Seq<char>>)> {
    s.map_values(|e: (String, ImportedVersion)| (e.0@, version_view(e.1)))
}

pub open spec fn lists_of(s: Seq<(String, Vec<String>)>) -> Seq<(Seq<char>, Seq<Seq<char>>)> {
    s.map_values(|e: (String, Vec<String>)| (e.0@, e.1@.map_values(|x: String| x@)))
}

/// How an entry's value is written: a quoted version, or `true` when BOM-managed.
pub open spec fn value_text(v: Option<Seq<char>>) -> Seq<char> {
    match v {
        Some(s) => quoted(s),
        None => "true"@,
    }
}

fn render_value(value: &ImportedVersion) -> (res: String)
    ensures
        res@ == value_text(version_view(*value)),
{
    match value {
        ImportedVersion::Explicit(v) => quote(v.as_str()),
        ImportedVersion::BomManaged => String::from_str("true"),
    }
}

/// `"coordinate" = value` lines.
pub open spec fn entry_lines(es: Seq<(Seq<char>, Option<Seq<char>>)>) -> Seq<char>
    decreases es.len(),
{
    if es.len() == 0 {
        Seq::empty()
    } else {
        entry_lines(es.drop_last()) + quoted(es.last().0) + " = "@ + value_text(es.last().1) + "\n"@
    }
}

/// `"key" = "value"` lines.
pub open spec fn pair_lines(ps: Seq<(Seq<char>, Seq<char>)>) -> Seq<char>
    decreases ps.len(),
{
    if ps.len() == 0 {
        Seq::empty()
    } else {
        pair_lines(ps.drop_last()) + quoted(ps.last().0) + " = "@ + quoted(ps.last().1) + "\n"@
    }
}

pub open spec fn quoted_all(xs: Seq<Seq<char>>) -> Seq<Seq<char>> {
    xs.map_values(|x: Seq<char>| quoted(x))
}

/// `"coordinate" = ["a", "b"]` lines.
pub open spec fn list_lines(ls: Seq<(Seq<char>, Seq<Seq<char>>)>) -> Seq<char>
    decreases ls.len(),
{
    if ls.len() == 0 {
        Seq::empty()
    } else {
        list_lines(ls.drop_last()) + quoted(ls.last().0) + " = ["@ + joined(quoted_all(ls.last().1), ", "@) + "]\n"@
    }
}

/// The `[project]` table.
pub open spec fn project_text(name: Seq<char>, version: Seq<char>, java_version: Seq<char>, source_encoding: Option<Seq<char>>) -> Seq<
    char,
> {
    "[project]\n"@ + "name = "@ + quoted(name) + "\n"@ + "version = "@ + quoted(version) + "\n"@ + "java-version = "@
        + quoted(java_version) + "\n"@ + match source_encoding {
        Some(e) => "source-encoding = "@ + quoted(e) + "\n"@,
        None => Seq::empty(),
    }
}

/// `header` then `body` when `present`, else nothing.
pub open spec fn section(header: Seq<char>, body: Seq<char>, present: bool) -> Seq<char> {
    if present {
        header + body
    } else {
        Seq::empty()
    }
}

/// The text of the manifest: `[project]`, then `[dependencies]` (always), then
/// each of `[dev-dependencies]`, `[boms]`, `[exclusions]`, `[repositories]` that
/// has entries, each table after a blank line, in the given order.
pub open spec fn manifest_text(
    name: Seq<char>,
    version: Seq<char>,
    java_version: Seq<char>,
    source_encoding: Option<Seq<char>>,
    dependencies: Seq<(Seq<char>, Option<Seq<char>>)>,
    dev_dependencies: Seq<(Seq<char>, Option<Seq<char>>)>,
    boms: Seq<(Seq<char>, Seq<char>)>,
    exclusions: Seq<(Seq<char>, Seq<Seq<char>>)>,
    repositories: Seq<(Seq<char>, Seq<char>)>,
) -> Seq<char> {
    project_text(name, version, java_version, source_encoding) + "\n[dependencies]\n"@ + entry_lines(dependencies)
        + section("\n[dev-dependencies]\n"@, entry_lines(dev_dependencies), dev_dependencies.len() > 0) + section(
        "\n[boms]\n"@,
        pair_lines(boms),
        boms.len() > 0,
    ) + section("\n[exclusions]\n"@, list_lines(exclusions), exclusions.len() > 0) + section(
        "\n[repositories]\n"@,
        pair_lines(repositories),
        repositories.len() > 0,
    )
}

fn push_entries(out: &mut String, es: &[(String, ImportedVersion)])
    ensures
        final(out)@ == old(out)@ + entry_lines(entries_view(es@)),
{
    let ghost start = out@;
    let ghost v = entries_view(es@);
    let mut i: usize = 0;
    proof {
        assert(v.take(0) =~= Seq::<(Seq<char>, Option<Seq<char>>)>::empty());
    }
    while i < es.len()
        invariant
            v == entries_view(es@),
            i <= es@.len(),
            out@ == start + entry_lines(v.take(i as int)),
        decreases es@.len() - i,
    {
        proof {
            assert(v.take(i + 1).drop_last() =~= v.take(i as int));
            assert(v.take(i + 1).last() == (es@[i as int].0@, version_view(es@[i as int].1)));
        }
        let key = quote(es[i].0.as_str());
        out.append(key.as_str());
        out.append(" = ");
        let value = render_value(&es[i].1);
        out.append(value.as_str());
        out.append("\n");
        proof {
            assert(out@ =~= start + entry_lines(v.take(i + 1)));
        }
        i = i + 1;
    }
    proof {
        assert(v.take(i as int) =~= v);
    }
}

fn push_pairs(out: &mut String, ps: &[(String, String)])
    ensures
        final(out)@ == old(out)@ + pair_lines(pairs_view(ps@)),
{
    let ghost start = out@;
    let ghost v = pairs_view(ps@);
    let mut i: usize = 0;
    proof {
        assert(v.take(0) =~= Seq::<(Seq<char>, Seq<char>)>::empty());
    }
    while i < ps.len()
        invariant
            v == pairs_view(ps@),
            i <= ps@.len(),
            out@ == start + pair_lines(v.take(i as int)),
        decreases ps@.len() - i,
    {
        proof {
            assert(v.take(i + 1).drop_last() =~= v.take(i as int));
            assert(v.take(i + 1).last() == (ps@[i as int].0@, ps@[i as int].1@));
        }
        let key = quote(ps[i].0.as_str());
        out.append(key.as_str());
        out.append(" = ");
        let value = quote(ps[i].1.as_str());
        out.append(value.as_str());
        out.append("\n");
        proof {
            assert(out@ =~= start + pair_lines(v.take(i + 1)));
        }
        i = i + 1;
    }
    proof {
        assert(v.take(i as int) =~= v);
    }
}

fn push_quoted_list(out: &mut String, xs: &Vec<String>)
    ensures
        final(out)@ == old(out)@ + joined(quoted_all(xs@.map_values(|x: String| x@)), ", "@),
{
    let ghost start = out@;
    let ghost v = quoted_all(xs@.map_values(|x: String| x@));
    let mut i: usize = 0;
    proof {
        assert(v.take(0) =~= Seq::<Seq<char>>::empty());
    }
    while i < xs.len()
        invariant
            v == quoted_all(xs@.map_values(|x: String| x@)),
            i <= xs@.len(),
            out@ == start + joined(v.take(i as int), ", "@),
        decreases xs@.len() - i,
    {
        let ghost t = v.take(i + 1);
        proof {
            assert(t.drop_last() =~= v.take(i as int));
            assert(t.last() == quoted(xs@[i as int]@));
        }
        if i > 0 {
            out.append(", ");
        }
        let q = quote(xs[i].as_str());
        out.append(q.as_str());
        proof {
            if i == 0 {
                assert(start + joined(t, ", "@) =~= start + q@);
            }
            assert(out@ =~= start + joined(t, ", "@));
        }
        i = i + 1;
    }
    proof {
        assert(v.take(i as int) =~= v);
    }
}

fn push_lists(out: &mut String, ls: &[(String, Vec<String>)])
    ensures
        final(out)@ == old(out)@ + list_lines(lists_of(ls@)),
{
    let ghost start = out@;
    let ghost v = lists_of(ls@);
    let mut i: usize = 0;
    proof {
        assert(v.take(0) =~= Seq::<(Seq<char>, Seq<Seq<char>>)>::empty());
    }
    while i < ls.len()
        invariant
            v == lists_of(ls@),
            i <= ls@.len(),
            out@ == start + list_lines(v.take(i as int)),
        decreases ls@.len() - i,
    {
        proof {
            assert(v.take(i + 1).drop_last() =~= v.take(i as int));
            assert(v.take(i + 1).last() == (ls@[i as int].0@, ls@[i as int].1@.map_values(|x: String| x@)));
        }
        let ghost before = out@;
        let key = quote(ls[i].0.as_str());
        out.append(key.as_str());
        out.append(" = [");
        push_quoted_list(out, &ls[i].1);
        out.append("]\n");
        proof {
            assert(out@ =~= start + list_lines(v.take(i + 1)));
        }
        i = i + 1;
    }
    proof {
        assert(v.take(i as int) =~= v);
    }
}

fn project_header(name: &str, version: &str, java_version: &str, source_encoding: Option<&str>) -> (res: String)
    ensures
        res@ == project_text(
            name@,
            version@,
            java_version@,
            match source_encoding {
                Some(e) => Some(e@),
                None => None,
            },
        ),
{
    let mut out = String::from_str("[project]\n");
    out.append("name = ");
    let q = quote(name);
    out.append(q.as_str());
    out.append("\n");
    let ghost a = out@;
    out.append("version = ");
    let q = quote(version);
    out.append(q.as_str());
    out.append("\n");
    let ghost b = out@;
    assert(b =~= a + "version = "@ + quoted(version@) + "\n"@);
    out.append("java-version = ");
    let q = quote(java_version);
    out.append(q.as_str());
    out.append("\n");
    let ghost c = out@;
    assert(c =~= b + "java-version = "@ + quoted(java_version@) + "\n"@);
    match source_encoding {
        Some(encoding) => {
            out.append("source-encoding = ");
            let q = quote(encoding);
            out.append(q.as_str());
            out.append("\n");
            assert(out@ =~= c + "source-encoding = "@ + quoted(encoding@) + "\n"@);
        },
        None => {},
    }
    out
}

/// The text of a new `project.toml` from values already resolved: `[project]` with
/// name, version, Java version and, if given, source encoding; `[dependencies]`
/// always; `[dev-dependencies]`, `[boms]`, `[exclusions]` and `[repositories]` only
/// when they have entries. Every key and string value is quoted and escaped.
#[verifier::rlimit(60)]
pub fn render_manifest(
    name: &str,
    version: &str,
    java_version: &str,
    source_encoding: Option<&str>,
    dependencies: &[(String, ImportedVersion)],
    dev_dependencies: &[(String, ImportedVersion)],
    boms: &[(String, String)],
    exclusions: &[(String, Vec<String>)],
    repositories: &[(String, String)],
) -> (res: String)
    ensures
        res@ == manifest_text(
            name@,
            version@,
            java_version@,
            match source_encoding {
                Some(e) => Some(e@),
                None => None,
            },
            entries_view(dependencies@),
            entries_view(dev_dependencies@),
            pairs_view(boms@),
            lists_of(exclusions@),
            pairs_view(repositories@),
        ),
{
    let mut out = project_header(name, version, java_version, source_encoding);
    let ghost a0 = out@;
    out.append("\n[dependencies]\n");
    push_entries(&mut out, dependencies);
    let ghost a1 = out@;
    assert(a1 =~= a0 + "\n[dependencies]\n"@ + entry_lines(entries_view(dependencies@)));
    if dev_dependencies.len() > 0 {
        out.append("\n[dev-dependencies]\n");
        push_entries(&mut out, dev_dependencies);
    }
    let ghost a2 = out@;
    assert(a2 =~= a1 + section(
        "\n[dev-dependencies]\n"@,
        entry_lines(entries_view(dev_dependencies@)),
        dev_dependencies@.len() > 0,
    ));
    if boms.len() > 0 {
        out.append("\n[boms]\n");
        push_pairs(&mut out, boms);
    }
    let ghost a3 = out@;
    assert(a3 =~= a2 + section("\n[boms]\n"@, pair_lines(pairs_view(boms@)), boms@.len() > 0));
    if exclusions.len() > 0 {
        out.append("\n[exclusions]\n");
        push_lists(&mut out, exclusions);
    }
    let ghost a4 = out@;
    assert(a4 =~= a3 + section("\n[exclusions]\n"@, list_lines(lists_of(exclusions@)), exclusions@.len() > 0));
    if repositories.len() > 0 {
        out.append("\n[repositories]\n");
        push_pairs(&mut out, repositories);
    }
    assert(out@ =~= a4 + section("\n[repositories]\n"@, pair_lines(pairs_view(repositories@)), repositories@.len() > 0));
    out
}

} // verus!
