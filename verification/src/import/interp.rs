//! `${property}` references in POM values.
use crate::bom::pairs_view;
use crate::graph::{lookup_value, table_get};
use vstd::prelude::*;

verus! {

/// Index of the first `${` in `s`.
pub open spec fn first_marker(s: Seq<char>) -> Option<int>
    decreases s.len(),
{
    if s.len() < 2 {
        None
    } else if s[0] == '$' && s[1] == '{' {
        Some(0)
    } else {
        match first_marker(s.drop_first()) {
            Some(i) => Some(i + 1),
            None => None,
        }
    }
}

/// Index of the first `c` in `s`.
pub open spec fn first_char(s: Seq<char>, c: char) -> Option<int>
    decreases s.len(),
{
    if s.len() == 0 {
        None
    } else if s[0] == c {
        Some(0)
    } else {
        match first_char(s.drop_first(), c) {
            Some(i) => Some(i + 1),
            None => None,
        }
    }
}

pub proof fn lemma_first_marker(s: Seq<char>)
    ensures
        first_marker(s) matches Some(i) ==> 0 <= i && i + 2 <= s.len() && s[i] == '$' && s[i + 1] == '{',
    decreases s.len(),
{
    if s.len() >= 2 && !(s[0] == '$' && s[1] == '{') {
        lemma_first_marker(s.drop_first());
    }
}

pub proof fn lemma_first_char(s: Seq<char>, c: char)
    ensures
        first_char(s, c) matches Some(i) ==> 0 <= i < s.len() && s[i] == c,
    decreases s.len(),
{
    if s.len() > 0 && s[0] != c {
        lemma_first_char(s.drop_first(), c);
    }
}

/// `raw` with each `${key}` replaced by the value of `key` in `props` (first entry);
/// `None` when a `${` is never closed or a key has no value.
pub open spec fn interp(raw: Seq<char>, props: Seq<(Seq<char>, Seq<char>)>) -> Option<Seq<char>>
    decreases raw.len(),
{
    match first_marker(raw) {
        None => Some(raw),
        Some(start) => {
            proof {
                lemma_first_marker(raw);
            }
            let after = raw.skip(start + 2);
            match first_char(after, '}') {
                None => None,
                Some(end) => {
                    proof {
                        lemma_first_char(after, '}');
                    }
                    match table_get(props, after.take(end)) {
                        None => None,
                        Some(value) => match interp(after.skip(end + 1), props) {
                            Some(tail) => Some(raw.take(start) + value + tail),
                            None => None,
                        },
                    }
                },
            }
        },
    }
}

/// Absolute index of the first `${` at or after `from`.
fn find_marker(s: &str, from: usize) -> (res: Option<usize>)
    requires
        from <= s@.len(),
    ensures
        match first_marker(s@.skip(from as int)) {
            Some(i) => res == Some((from + i) as usize),
            None => res is None,
        },
{
    let n = s.unicode_len();
    let mut i: usize = from;
    proof {
        assert(s@.skip(from as int) =~= s@.skip(i as int));
    }
    while i < n && i + 1 < n
        invariant
            n == s@.len(),
            from <= i <= n,
            first_marker(s@.skip(from as int)) == match first_marker(s@.skip(i as int)) {
                Some(k) => Some(k + i - from),
                None => None::<int>,
            },
        decreases n - i,
    {
        let ghost t = s@.skip(i as int);
        proof {
            assert(t[0] == s@[i as int] && t[1] == s@[i + 1]);
            assert(t.drop_first() =~= s@.skip(i + 1));
        }
        if s.get_char(i) == '$' && s.get_char(i + 1) == '{' {
            return Some(i);
        }
        i = i + 1;
    }
    None
}

/// Absolute index of the first `c` at or after `from`.
fn find_char(s: &str, c: char, from: usize) -> (res: Option<usize>)
    requires
        from <= s@.len(),
    ensures
        match first_char(s@.skip(from as int), c) {
            Some(i) => res == Some((from + i) as usize),
            None => res is None,
        },
{
    let n = s.unicode_len();
    let mut i: usize = from;
    while i < n
        invariant
            n == s@.len(),
            from <= i <= n,
            first_char(s@.skip(from as int), c) == match first_char(s@.skip(i as int), c) {
                Some(k) => Some(k + i - from),
                None => None::<int>,
            },
        decreases n - i,
    {
        let ghost t = s@.skip(i as int);
        proof {
            assert(t[0] == s@[i as int]);
            assert(t.drop_first() =~= s@.skip(i + 1));
        }
        if s.get_char(i) == c {
            return Some(i);
        }
        i = i + 1;
    }
    None
}

/// Replaces every `${key}` in `raw` by the value of `key` in `properties`, as many
/// times as it occurs (`${a}-${b}`). `None` when a key has no value: properties
/// inherited from a parent POM are not followed, so they count as unresolved.
#[verifier::rlimit(50)]
pub fn interpolate(raw: &str, properties: &Vec<(String, String)>) -> (res: Option<String>)
    ensures
        interp(raw@, pairs_view(properties@)) == match res {
            Some(s) => Some(s@),
            None => None::<Seq<char>>,
        },
{
    let ghost props = pairs_view(properties@);
    let n = raw.unicode_len();
    let mut result = String::new();
    let mut pos: usize = 0;
    proof {
        assert(raw@.skip(0) =~= raw@);
    }
    loop
        invariant
            n == raw@.len(),
            props == pairs_view(properties@),
            pos <= n,
            interp(raw@, props) == match interp(raw@.skip(pos as int), props) {
                Some(tail) => Some(result@ + tail),
                None => None::<Seq<char>>,
            },
        decreases n - pos,
    {
        let ghost rest = raw@.skip(pos as int);
        match find_marker(raw, pos) {
            None => {
                let tail = raw.substring_char(pos, n);
                proof {
                    assert(tail@ =~= rest);
                }
                result.append(tail);
                return Some(result);
            },
            Some(start) => {
                proof {
                    lemma_first_marker(rest);
                }
                let ghost after = rest.skip(start - pos + 2);
                proof {
                    assert(after =~= raw@.skip(start + 2));
                }
                match find_char(raw, '}', start + 2) {
                    None => {
                        return None;
                    },
                    Some(end) => {
                        proof {
                            lemma_first_char(after, '}');
                        }
                        let key = raw.substring_char(start + 2, end);
                        proof {
                            assert(key@ =~= after.take(end - start - 2));
                        }
                        match lookup_value(properties, key) {
                            None => {
                                return None;
                            },
                            Some(value) => {
                                let head = raw.substring_char(pos, start);
                                proof {
                                    assert(head@ =~= rest.take(start - pos));
                                    assert(after.skip(end - start - 2 + 1) =~= raw@.skip(end + 1));
                                }
                                let ghost before = result@;
                                result.append(head);
                                result.append(value.as_str());
                                proof {
                                    match interp(raw@.skip(end + 1), props) {
                                        Some(t) => {
                                            assert(before + (head@ + value@ + t) =~= result@ + t);
                                        },
                                        None => {},
                                    }
                                }
                                pos = end + 1;
                            },
                        }
                    },
                }
            },
        }
    }
}

} // verus!
