//! Paths as text, joined the way `Path::join` does on Unix.
use vstd::prelude::*;

verus! {

/// `base` joined with `p`: an absolute `p` replaces `base`; otherwise a `/` is put
/// between them unless `base` is empty or already ends with one.
pub open spec fn path_join(base: Seq<char>, p: Seq<char>) -> Seq<char> {
    if p.len() > 0 && p[0] == '/' {
        p
    } else if base.len() > 0 && base.last() != '/' {
        base + seq!['/'] + p
    } else {
        base + p
    }
}

/// `base` joined with `p`, as `Path::join` does on Unix.
pub fn join_path(base: &str, p: &str) -> (res: String)
    ensures
        res@ == path_join(base@, p@),
{
    let np = p.unicode_len();
    if np > 0 && p.get_char(0) == '/' {
        return String::from_str(p);
    }
    let nb = base.unicode_len();
    let mut out = String::from_str(base);
    if nb > 0 && base.get_char(nb - 1) != '/' {
        out.append("/");
        proof {
            reveal_strlit("/");
        }
    }
    out.append(p);
    proof {
        if nb > 0 && base@.last() != '/' {
            assert(out@ =~= base@ + seq!['/'] + p@);
        }
    }
    out
}

/// Index just after the last `/` of `p` (0 when there is none).
pub open spec fn segment_start(p: Seq<char>) -> int
    decreases p.len(),
{
    if p.len() == 0 {
        0
    } else if p.last() == '/' {
        p.len() as int
    } else {
        segment_start(p.drop_last())
    }
}

pub proof fn lemma_segment_start(p: Seq<char>)
    ensures
        0 <= segment_start(p) <= p.len(),
        p.len() > 0 && p.last() != '/' ==> segment_start(p) < p.len(),
        forall|i: int| segment_start(p) <= i < p.len() ==> p[i] != '/',
        segment_start(p) > 0 ==> p[segment_start(p) - 1] == '/',
    decreases p.len(),
{
    if p.len() > 0 && p.last() != '/' {
        lemma_segment_start(p.drop_last());
        assert forall|i: int| segment_start(p) <= i < p.len() implies p[i] != '/' by {
            if i < p.len() - 1 {
                assert(p[i] == p.drop_last()[i]);
            }
        }
        if segment_start(p) > 0 {
            assert(p[segment_start(p) - 1] == p.drop_last()[segment_start(p) - 1]);
        }
    }
}

/// The last component of a path, as `Path::file_name` gives it on Unix: trailing
/// `/` and `.` components are skipped, and a path ending in `..` or made only of
/// separators and `.` has none.
pub open spec fn file_name_of(p: Seq<char>) -> Option<Seq<char>>
    decreases p.len(),
{
    if p.len() == 0 {
        None
    } else if p.last() == '/' {
        file_name_of(p.drop_last())
    } else {
        let s = segment_start(p);
        proof {
            lemma_segment_start(p);
        }
        let seg = p.subrange(s, p.len() as int);
        if seg == seq!['.'] {
            file_name_of(p.subrange(0, s))
        } else if seg == seq!['.', '.'] {
            None
        } else {
            Some(seg)
        }
    }
}

pub fn file_name_upto(p: &str, end: usize) -> (res: Option<String>)
    requires
        end <= p@.len(),
    ensures
        file_name_of(p@.take(end as int)) == match res {
            Some(s) => Some(s@),
            None => None::<Seq<char>>,
        },
    decreases end,
{
    let ghost q = p@.take(end as int);
    if end == 0 {
        return None;
    }
    if p.get_char(end - 1) == '/' {
        proof {
            assert(q.drop_last() =~= p@.take(end - 1));
        }
        return file_name_upto(p, end - 1);
    }
    let mut s: usize = end;
    proof {
        assert(q.take(end as int) =~= q);
    }
    while s > 0 && p.get_char(s - 1) != '/'
        invariant
            s <= end <= p@.len(),
            q == p@.take(end as int),
            segment_start(q) == segment_start(q.take(s as int)),
            forall|i: int| s <= i < end ==> p@[i] != '/',
        decreases s,
    {
        proof {
            assert(q.take(s as int).drop_last() =~= q.take(s - 1));
            assert(q.take(s as int).last() == p@[s - 1]);
        }
        s = s - 1;
    }
    proof {
        lemma_segment_start(q);
        if s > 0 {
            assert(q.take(s as int).last() == '/');
        }
        assert(segment_start(q) == s);
    }
    let seg = p.substring_char(s, end);
    proof {
        assert(seg@ =~= q.subrange(s as int, end as int));
        assert(q.subrange(0, s as int) =~= p@.take(s as int));
    }
    let n = seg.unicode_len();
    if n == 1 && seg.get_char(0) == '.' {
        proof {
            assert(seg@ =~= seq!['.']);
        }
        return file_name_upto(p, s);
    }
    if n == 2 && seg.get_char(0) == '.' && seg.get_char(1) == '.' {
        proof {
            assert(seg@ =~= seq!['.', '.']);
        }
        return None;
    }
    proof {
        assert(seg@ != seq!['.']);
        assert(seg@ != seq!['.', '.']);
    }
    Some(String::from_str(seg))
}

/// The extension of a path's last component: what follows its last `.`, unless
/// that `.` starts the name (as `Path::extension` reads it).
pub open spec fn extension_of(p: Seq<char>) -> Option<Seq<char>> {
    match file_name_of(p) {
        None => None,
        Some(n) => match last_dot(n) {
            Some(i) => if i > 0 {
                Some(n.skip(i + 1))
            } else {
                None
            },
            None => None,
        },
    }
}

/// Index of the last `.` of `s`.
pub open spec fn last_dot(s: Seq<char>) -> Option<int>
    decreases s.len(),
{
    if s.len() == 0 {
        None
    } else if s.last() == '.' {
        Some(s.len() - 1)
    } else {
        last_dot(s.drop_last())
    }
}

/// Whether the extension of `path` is `ext`.
pub fn has_extension(path: &str, ext: &str) -> (res: bool)
    ensures
        res == (extension_of(path@) == Some(ext@)),
{
    let n = path.unicode_len();
    proof {
        assert(path@.take(n as int) =~= path@);
    }
    let name = match file_name_upto(path, n) {
        Some(name) => name,
        None => {
            return false;
        },
    };
    let m = name.as_str().unicode_len();
    let mut i: usize = m;
    proof {
        assert(name@.take(m as int) =~= name@);
    }
    while i > 0 && name.as_str().get_char(i - 1) != '.'
        invariant
            m == name@.len(),
            i <= m,
            last_dot(name@) == last_dot(name@.take(i as int)),
        decreases i,
    {
        proof {
            assert(name@.take(i as int).last() == name@[i - 1]);
            assert(name@.take(i as int).drop_last() =~= name@.take(i - 1));
        }
        i = i - 1;
    }
    if i <= 1 {
        proof {
            if i == 1 {
                assert(name@.take(1).last() == '.');
            }
        }
        return false;
    }
    proof {
        assert(name@.take(i as int).last() == '.');
    }
    let suffix = name.as_str().substring_char(i, m);
    proof {
        assert(suffix@ =~= name@.skip(i as int));
    }
    crate::text::str_eq(suffix, ext)
}

} // verus!
