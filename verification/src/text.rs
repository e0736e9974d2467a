//! Character-level helpers on `str`/`String` shared by the renderers.
use vstd::prelude::*;

verus! {

/// Character equality of two string slices.
pub fn str_eq(a: &str, b: &str) -> (res: bool)
    ensures
        res == (a@ == b@),
{
    let n = a.unicode_len();
    if n != b.unicode_len() {
        return false;
    }
    let mut i: usize = 0;
    while i < n
        invariant
            n == a@.len(),
            n == b@.len(),
            i <= n,
            forall|j: int| 0 <= j < i ==> a@[j] == b@[j],
        decreases n - i,
    {
        if a.get_char(i) != b.get_char(i) {
            return false;
        }
        i = i + 1;
    }
    assert(a@ =~= b@);
    true
}

} // verus!

verus! {

/// Lexicographic order on character sequences (by code point), the order of `str`.
pub open spec fn seq_lt(a: Seq<char>, b: Seq<char>) -> bool
    decreases a.len(),
{
    if a.len() == 0 {
        b.len() > 0
    } else if b.len() == 0 {
        false
    } else if a[0] != b[0] {
        a[0] < b[0]
    } else {
        seq_lt(a.drop_first(), b.drop_first())
    }
}

/// `s` is strictly increasing: sorted with no repeated element.
pub open spec fn strictly_sorted(s: Seq<Seq<char>>) -> bool {
    forall|i: int, j: int| 0 <= i < j < s.len() ==> seq_lt(#[trigger] s[i], #[trigger] s[j])
}

pub proof fn lemma_seq_lt_irreflexive(a: Seq<char>)
    ensures
        !seq_lt(a, a),
    decreases a.len(),
{
    if a.len() > 0 {
        lemma_seq_lt_irreflexive(a.drop_first());
    }
}

pub proof fn lemma_seq_lt_transitive(a: Seq<char>, b: Seq<char>, c: Seq<char>)
    requires
        seq_lt(a, b),
        seq_lt(b, c),
    ensures
        seq_lt(a, c),
    decreases a.len(),
{
    if a.len() > 0 && b.len() > 0 && c.len() > 0 {
        if a[0] == b[0] && b[0] == c[0] {
            lemma_seq_lt_transitive(a.drop_first(), b.drop_first(), c.drop_first());
        }
    }
}

pub proof fn lemma_seq_lt_total(a: Seq<char>, b: Seq<char>)
    ensures
        seq_lt(a, b) || seq_lt(b, a) || a == b,
    decreases a.len(),
{
    if a.len() > 0 && b.len() > 0 && a[0] == b[0] {
        lemma_seq_lt_total(a.drop_first(), b.drop_first());
        if a.drop_first() == b.drop_first() {
            assert(a =~= seq![a[0]] + a.drop_first());
            assert(b =~= seq![b[0]] + b.drop_first());
        }
    } else if a.len() == 0 && b.len() == 0 {
        assert(a =~= b);
    } else if a.len() > 0 && b.len() > 0 {
        assert(a[0] < b[0] || b[0] < a[0]);
    }
}

/// `a < b` in the order of `str`.
pub fn str_lt(a: &str, b: &str) -> (res: bool)
    ensures
        res == seq_lt(a@, b@),
{
    let n = a.unicode_len();
    let m = b.unicode_len();
    let mut i: usize = 0;
    proof {
        assert(a@.skip(0) =~= a@);
        assert(b@.skip(0) =~= b@);
    }
    while i < n && i < m
        invariant
            n == a@.len(),
            m == b@.len(),
            i <= n,
            i <= m,
            seq_lt(a@, b@) == seq_lt(a@.skip(i as int), b@.skip(i as int)),
        decreases n - i,
    {
        let x = a.get_char(i);
        let y = b.get_char(i);
        proof {
            assert(a@.skip(i as int)[0] == x);
            assert(b@.skip(i as int)[0] == y);
            assert(a@.skip(i as int).drop_first() =~= a@.skip(i + 1));
            assert(b@.skip(i as int).drop_first() =~= b@.skip(i + 1));
        }
        if x != y {
            return x < y;
        }
        i = i + 1;
    }
    proof {
        assert(a@.skip(i as int).len() == n - i);
        assert(b@.skip(i as int).len() == m - i);
    }
    i == n && i < m
}

/// The concatenation of `a`, `sep` and `b`.
pub fn join3(a: &str, sep: &str, b: &str) -> (res: String)
    ensures
        res@ == a@ + sep@ + b@,
{
    let mut out = String::from_str(a);
    out.append(sep);
    out.append(b);
    out
}

} // verus!

verus! {

/// The escape of one character inside a double-quoted string.
pub open spec fn escape_char(c: char) -> Seq<char> {
    if c == '\\' {
        seq!['\\', '\\']
    } else if c == '"' {
        seq!['\\', '"']
    } else {
        seq![c]
    }
}

/// `s` with every `\` doubled and every `"` preceded by a `\`.
pub open spec fn escape_quotes(s: Seq<char>) -> Seq<char>
    decreases s.len(),
{
    if s.len() == 0 {
        Seq::empty()
    } else {
        escape_quotes(s.drop_last()) + escape_char(s.last())
    }
}

/// `s` between double quotes, escaped.
pub open spec fn quoted(s: Seq<char>) -> Seq<char> {
    seq!['"'] + escape_quotes(s) + seq!['"']
}

/// A character TOML forbids raw in a basic string: the control characters other
/// than tab.
pub open spec fn is_toml_control(c: char) -> bool {
    (c < ' ' && c != '\t') || c == '\u{7F}'
}

/// The value of the body of a TOML basic string, when it only uses the escapes
/// `\\` and `\"`; `None` on an unescaped `"`, another escape or a control character.
pub open spec fn unescape_basic(s: Seq<char>) -> Option<Seq<char>>
    decreases s.len(),
{
    if s.len() == 0 {
        Some(Seq::empty())
    } else if s[0] == '\\' {
        if s.len() >= 2 && (s[1] == '\\' || s[1] == '"') {
            match unescape_basic(s.skip(2)) {
                Some(r) => Some(seq![s[1]] + r),
                None => None,
            }
        } else {
            None
        }
    } else if s[0] == '"' || is_toml_control(s[0]) {
        None
    } else {
        match unescape_basic(s.drop_first()) {
            Some(r) => Some(seq![s[0]] + r),
            None => None,
        }
    }
}

/// The value of a TOML basic string `"..."`.
pub open spec fn basic_string_value(t: Seq<char>) -> Option<Seq<char>> {
    if t.len() >= 2 && t[0] == '"' && t.last() == '"' {
        unescape_basic(t.subrange(1, t.len() - 1))
    } else {
        None
    }
}

proof fn lemma_escape_first(v: Seq<char>)
    requires
        v.len() > 0,
    ensures
        escape_quotes(v) == escape_char(v[0]) + escape_quotes(v.drop_first()),
    decreases v.len(),
{
    if v.len() == 1 {
        assert(v.drop_last() =~= Seq::<char>::empty());
        assert(v.drop_first() =~= Seq::<char>::empty());
        assert(escape_quotes(v) =~= escape_char(v[0]));
    } else {
        let w = v.drop_last();
        lemma_escape_first(w);
        assert(w[0] == v[0]);
        assert(w.drop_first() =~= v.drop_first().drop_last());
        assert(v.drop_first().last() == v.last());
        assert(escape_quotes(v) =~= escape_char(v[0]) + escape_quotes(v.drop_first()));
    }
}

/// Quoting round-trips: for a string without control characters, the TOML basic
/// string that `quote` writes has exactly that string as its value.
pub proof fn law_quoted_strings_read_back(v: Seq<char>)
    requires
        forall|i: int| 0 <= i < v.len() ==> !is_toml_control(#[trigger] v[i]),
    ensures
        basic_string_value(quoted(v)) == Some(v),
    decreases v.len(),
{
    let q = quoted(v);
    assert(q.subrange(1, q.len() - 1) =~= escape_quotes(v));
    lemma_unescape_escaped(v);
}

proof fn lemma_unescape_escaped(v: Seq<char>)
    requires
        forall|i: int| 0 <= i < v.len() ==> !is_toml_control(#[trigger] v[i]),
    ensures
        unescape_basic(escape_quotes(v)) == Some(v),
    decreases v.len(),
{
    if v.len() == 0 {
        assert(escape_quotes(v) =~= Seq::<char>::empty());
        assert(v =~= Seq::<char>::empty());
    } else {
        let c = v[0];
        let rest = v.drop_first();
        assert forall|i: int| 0 <= i < rest.len() implies !is_toml_control(#[trigger] rest[i]) by {
            assert(rest[i] == v[i + 1]);
        }
        lemma_unescape_escaped(rest);
        lemma_escape_first(v);
        let e = escape_quotes(v);
        let er = escape_quotes(rest);
        if c == '\\' || c == '"' {
            assert(e =~= seq!['\\', c] + er);
            assert(e.skip(2) =~= er);
        } else {
            assert(e =~= seq![c] + er);
            assert(e.drop_first() =~= er);
        }
        assert(v =~= seq![c] + rest);
    }
}

/// Appends the character `s@[i]` to `out`.
pub fn push_char_at(out: &mut String, s: &str, i: usize)
    requires
        i < s@.len(),
    ensures
        final(out)@ == old(out)@.push(s@[i as int]),
{
    let n = s.unicode_len();
    let piece = s.substring_char(i, i + 1);
    out.append(piece);
    proof {
        assert(piece@ =~= seq![s@[i as int]]);
    }
}

/// Appends `escape_quotes(raw)` to `out`.
pub fn push_escaped(out: &mut String, raw: &str)
    ensures
        final(out)@ == old(out)@ + escape_quotes(raw@),
{
    let n = raw.unicode_len();
    let mut i: usize = 0;
    let ghost start = out@;
    proof {
        assert(raw@.take(0) =~= Seq::<char>::empty());
        assert(start + escape_quotes(Seq::<char>::empty()) =~= start);
    }
    while i < n
        invariant
            n == raw@.len(),
            i <= n,
            out@ == start + escape_quotes(raw@.take(i as int)),
        decreases n - i,
    {
        let c = raw.get_char(i);
        proof {
            assert(raw@.take(i + 1).drop_last() =~= raw@.take(i as int));
            assert(raw@.take(i + 1).last() == c);
            reveal_strlit("\\\\");
            reveal_strlit("\\\"");
        }
        if c == '\\' {
            out.append("\\\\");
        } else if c == '"' {
            out.append("\\\"");
        } else {
            push_char_at(out, raw, i);
        }
        proof {
            assert(out@ =~= start + escape_quotes(raw@.take(i + 1)));
        }
        i = i + 1;
    }
    proof {
        assert(raw@.take(n as int) =~= raw@);
    }
}

/// `raw` between double quotes, with `\` and `"` escaped.
pub fn quote(raw: &str) -> (res: String)
    ensures
        res@ == quoted(raw@),
{
    let mut out = String::from_str("\"");
    proof {
        reveal_strlit("\"");
    }
    push_escaped(&mut out, raw);
    out.append("\"");
    proof {
        assert(out@ =~= quoted(raw@));
    }
    out
}

/// The decimal digit `d`.
pub open spec fn digit_char(d: nat) -> char {
    if d == 0 {
        '0'
    } else if d == 1 {
        '1'
    } else if d == 2 {
        '2'
    } else if d == 3 {
        '3'
    } else if d == 4 {
        '4'
    } else if d == 5 {
        '5'
    } else if d == 6 {
        '6'
    } else if d == 7 {
        '7'
    } else if d == 8 {
        '8'
    } else {
        '9'
    }
}

/// Decimal notation of `n`, without leading zeros.
pub open spec fn decimal(n: nat) -> Seq<char>
    decreases n,
{
    if n < 10 {
        seq![digit_char(n)]
    } else {
        decimal(n / 10).push(digit_char(n % 10))
    }
}

/// Decimal notation of `n`.
pub fn to_decimal(n: usize) -> (res: String)
    ensures
        res@ == decimal(n as nat),
    decreases n,
{
    let mut out = if n < 10 {
        String::new()
    } else {
        to_decimal(n / 10)
    };
    let d = n % 10;
    let digits = "0123456789";
    proof {
        reveal_strlit("0123456789");
    }
    push_char_at(&mut out, digits, d);
    proof {
        assert(digits@[d as int] == digit_char(d as nat));
        if n < 10 {
            assert(out@ =~= seq![digit_char(n as nat)]);
        }
    }
    out
}

/// A strictly sorted sequence is determined by the set of its elements.
pub proof fn lemma_strictly_sorted_unique(a: Seq<Seq<char>>, b: Seq<Seq<char>>)
    requires
        strictly_sorted(a),
        strictly_sorted(b),
        a.to_set() == b.to_set(),
    ensures
        a == b,
    decreases a.len(),
{
    if a.len() == 0 {
        if b.len() > 0 {
            assert(b.to_set().contains(b[0]));
        }
        assert(a =~= b);
    } else {
        assert(a.to_set().contains(a[0]));
        assert(b.contains(a[0]));
        let j = choose|j: int| 0 <= j < b.len() && b[j] == a[0];
        assert(b.to_set().contains(b[0]));
        assert(a.contains(b[0]));
        let i = choose|i: int| 0 <= i < a.len() && a[i] == b[0];
        if a[0] != b[0] {
            assert(i > 0 && j > 0);
            assert(seq_lt(a[0], a[i]));
            assert(seq_lt(b[0], b[j]));
            lemma_seq_lt_transitive(a[0], b[0], a[0]);
            lemma_seq_lt_irreflexive(a[0]);
        }
        let ra = a.drop_first();
        let rb = b.drop_first();
        assert(strictly_sorted(ra)) by {
            assert forall|x: int, y: int| 0 <= x < y < ra.len() implies seq_lt(#[trigger] ra[x], #[trigger] ra[y]) by {
                assert(ra[x] == a[x + 1] && ra[y] == a[y + 1]);
            }
        }
        assert(strictly_sorted(rb)) by {
            assert forall|x: int, y: int| 0 <= x < y < rb.len() implies seq_lt(#[trigger] rb[x], #[trigger] rb[y]) by {
                assert(rb[x] == b[x + 1] && rb[y] == b[y + 1]);
            }
        }
        assert forall|x: Seq<char>| #[trigger] ra.to_set().contains(x) <==> rb.to_set().contains(x) by {
            if ra.to_set().contains(x) {
                assert(ra.contains(x));
                let k = choose|k: int| 0 <= k < ra.len() && ra[k] == x;
                assert(a[k + 1] == x);
                assert(seq_lt(a[0], a[k + 1]));
                lemma_seq_lt_irreflexive(a[0]);
                assert(a.to_set().contains(x));
                assert(b.contains(x));
                let m = choose|m: int| 0 <= m < b.len() && b[m] == x;
                if m == 0 {
                    assert(x == a[0]);
                }
                assert(rb[m - 1] == x);
            }
            if rb.to_set().contains(x) {
                assert(rb.contains(x));
                let k = choose|k: int| 0 <= k < rb.len() && rb[k] == x;
                assert(b[k + 1] == x);
                assert(seq_lt(b[0], b[k + 1]));
                lemma_seq_lt_irreflexive(b[0]);
                assert(b.to_set().contains(x));
                assert(a.contains(x));
                let m = choose|m: int| 0 <= m < a.len() && a[m] == x;
                if m == 0 {
                    assert(x == b[0]);
                }
                assert(ra[m - 1] == x);
            }
        }
        assert(ra.to_set() =~= rb.to_set());
        lemma_strictly_sorted_unique(ra, rb);
        assert(a =~= seq![a[0]] + ra);
        assert(b =~= seq![b[0]] + rb);
    }
}

/// The characters that `char::is_whitespace` accepts (Unicode `White_Space`).
pub open spec fn is_white(c: char) -> bool {
    c == '\t' || c == '\n' || c == '\u{0B}' || c == '\u{0C}' || c == '\r' || c == ' ' || c == '\u{85}' || c == '\u{A0}'
        || c == '\u{1680}' || ('\u{2000}' <= c && c <= '\u{200A}') || c == '\u{2028}' || c == '\u{2029}' || c
        == '\u{202F}' || c == '\u{205F}' || c == '\u{3000}'
}

pub fn is_whitespace(c: char) -> (res: bool)
    ensures
        res == is_white(c),
{
    c == '\t' || c == '\n' || c == '\u{0B}' || c == '\u{0C}' || c == '\r' || c == ' ' || c == '\u{85}' || c == '\u{A0}'
        || c == '\u{1680}' || ('\u{2000}' <= c && c <= '\u{200A}') || c == '\u{2028}' || c == '\u{2029}' || c
        == '\u{202F}' || c == '\u{205F}' || c == '\u{3000}'
}

/// `s` without its leading whitespace.
pub open spec fn trim_start(s: Seq<char>) -> Seq<char>
    decreases s.len(),
{
    if s.len() > 0 && is_white(s[0]) {
        trim_start(s.drop_first())
    } else {
        s
    }
}

/// `s` without its trailing whitespace.
pub open spec fn trim_end(s: Seq<char>) -> Seq<char>
    decreases s.len(),
{
    if s.len() > 0 && is_white(s.last()) {
        trim_end(s.drop_last())
    } else {
        s
    }
}

/// `s` without leading and trailing whitespace, as `str::trim` gives it.
pub open spec fn trimmed(s: Seq<char>) -> Seq<char> {
    trim_end(trim_start(s))
}

/// `s` without leading and trailing whitespace.
pub fn trim(s: &str) -> (res: &str)
    ensures
        res@ == trimmed(s@),
{
    let n = s.unicode_len();
    let mut a: usize = 0;
    proof {
        assert(s@.skip(0) =~= s@);
    }
    while a < n && is_whitespace(s.get_char(a))
        invariant
            n == s@.len(),
            a <= n,
            trim_start(s@) == trim_start(s@.skip(a as int)),
        decreases n - a,
    {
        proof {
            assert(s@.skip(a as int)[0] == s@[a as int]);
            assert(s@.skip(a as int).drop_first() =~= s@.skip(a + 1));
        }
        a = a + 1;
    }
    proof {
        if a < n {
            assert(s@.skip(a as int)[0] == s@[a as int]);
        }
        assert(trim_start(s@) == s@.skip(a as int));
        assert(s@.skip(a as int) =~= s@.subrange(a as int, n as int));
    }
    let mut b: usize = n;
    while b > a && is_whitespace(s.get_char(b - 1))
        invariant
            n == s@.len(),
            a <= b <= n,
            trim_end(s@.subrange(a as int, n as int)) == trim_end(s@.subrange(a as int, b as int)),
        decreases b,
    {
        proof {
            assert(s@.subrange(a as int, b as int).last() == s@[b - 1]);
            assert(s@.subrange(a as int, b as int).drop_last() =~= s@.subrange(a as int, b - 1));
        }
        b = b - 1;
    }
    proof {
        if b > a {
            assert(s@.subrange(a as int, b as int).last() == s@[b - 1]);
        }
    }
    s.substring_char(a, b)
}

/// `c` occurs in `s`.
pub fn contains_char(s: &str, c: char) -> (res: bool)
    ensures
        res == s@.contains(c),
{
    let n = s.unicode_len();
    let mut i: usize = 0;
    while i < n
        invariant
            n == s@.len(),
            i <= n,
            forall|j: int| 0 <= j < i ==> s@[j] != c,
        decreases n - i,
    {
        if s.get_char(i) == c {
            proof {
                assert(s@[i as int] == c);
            }
            return true;
        }
        i = i + 1;
    }
    false
}

} // verus!
