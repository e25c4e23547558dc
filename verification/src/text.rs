//! Small text utilities shared by the decoders and the serializer.
//!
//! Exec code in this crate works over `Vec<char>` so that every character
//! operation is visible to the verifier; strings are converted at the
//! boundaries.

use vstd::prelude::*;

verus! {

/// The position of the first occurrence of `x` in `s`, if any.
pub open spec fn first_pos<T>(s: Seq<T>, x: T) -> Option<int>
    decreases s.len(),
{
    if s.len() == 0 {
        None
    } else if s[0] == x {
        Some(0)
    } else {
        match first_pos(s.drop_first(), x) {
            Some(i) => Some(i + 1),
            None => None,
        }
    }
}

pub proof fn lemma_first_pos_properties<T>(s: Seq<T>, x: T)
    ensures
        match first_pos(s, x) {
            Some(i) => 0 <= i < s.len() && s[i] == x && forall|j: int| 0 <= j < i ==> s[j] != x,
            None => forall|j: int| 0 <= j < s.len() ==> s[j] != x,
        },
    decreases s.len(),
{
    if s.len() > 0 && s[0] != x {
        lemma_first_pos_properties(s.drop_first(), x);
        let d = s.drop_first();
        match first_pos(d, x) {
            Some(i) => {
                assert(d[i] == s[i + 1]);
                assert forall|j: int| 0 <= j < i + 1 implies s[j] != x by {
                    if j > 0 {
                        assert(d[j - 1] == s[j]);
                    }
                }
            },
            None => {
                assert forall|j: int| 0 <= j < s.len() implies s[j] != x by {
                    if j > 0 {
                        assert(d[j - 1] == s[j]);
                    }
                }
            },
        }
    }
}

/// The characters with the Unicode `White_Space` property; this is the set
/// that `str::trim` and `str::trim_end` strip.
pub open spec fn is_ws(c: char) -> bool {
    c == ' ' || c == '\t' || c == '\n' || c == '\r' || c == '\u{000B}' || c == '\u{000C}'
        || c == '\u{0085}' || c == '\u{00A0}' || c == '\u{1680}'
        || ('\u{2000}' <= c && c <= '\u{200A}') || c == '\u{2028}' || c == '\u{2029}'
        || c == '\u{202F}' || c == '\u{205F}' || c == '\u{3000}'
}

pub fn is_ws_char(c: char) -> (r: bool)
    ensures
        r == is_ws(c),
{
    c == ' ' || c == '\t' || c == '\n' || c == '\r' || c == '\u{000B}' || c == '\u{000C}'
        || c == '\u{0085}' || c == '\u{00A0}' || c == '\u{1680}'
        || ('\u{2000}' <= c && c <= '\u{200A}') || c == '\u{2028}' || c == '\u{2029}'
        || c == '\u{202F}' || c == '\u{205F}' || c == '\u{3000}'
}

/// Appends the characters of `s` to `out`.
pub fn push_str_chars(out: &mut Vec<char>, s: &str)
    ensures
        final(out)@ == old(out)@ + s@,
{
    let n = s.unicode_len();
    let mut i: usize = 0;
    while i < n
        invariant
            n == s@.len(),
            i <= n,
            out@ == old(out)@ + s@.take(i as int),
        decreases n - i,
    {
        out.push(s.get_char(i));
        proof {
            assert(s@.take(i + 1) =~= s@.take(i as int).push(s@[i as int]));
        }
        i += 1;
    }
    proof {
        assert(s@.take(n as int) =~= s@);
    }
}

/// The characters of `s`, in order.
pub fn chars_of(s: &str) -> (r: Vec<char>)
    ensures
        r@ == s@,
{
    let mut out: Vec<char> = Vec::new();
    push_str_chars(&mut out, s);
    out
}

/// Relies on `String`'s `FromIterator` impl: collecting an iterator of
/// chars builds the string holding exactly those chars in order.
#[verifier::external_body]
pub fn string_from_chars(v: &Vec<char>) -> (r: String)
    ensures
        r@ == v@,
{
    v.iter().collect()
}

/// True exactly when `v` holds the same characters as `s`.
pub fn chars_eq_str(v: &Vec<char>, s: &str) -> (r: bool)
    ensures
        r == (v@ == s@),
{
    let n = s.unicode_len();
    if v.len() != n {
        proof {
            assert(v@ != s@);
        }
        return false;
    }
    let mut i: usize = 0;
    while i < n
        invariant
            n == s@.len(),
            v@.len() == n,
            i <= n,
            forall|j: int| 0 <= j < i ==> v@[j] == s@[j],
        decreases n - i,
    {
        if v[i] != s.get_char(i) {
            return false;
        }
        i += 1;
    }
    proof {
        assert(v@ =~= s@);
    }
    true
}

/// True exactly when the two strings hold the same characters.
pub fn str_eq(a: &str, b: &str) -> (r: bool)
    ensures
        r == (a@ == b@),
{
    let n = a.unicode_len();
    if b.unicode_len() != n {
        proof {
            assert(a@ != b@);
        }
        return false;
    }
    let mut i: usize = 0;
    while i < n
        invariant
            n == a@.len(),
            b@.len() == n,
            i <= n,
            forall|j: int| 0 <= j < i ==> a@[j] == b@[j],
        decreases n - i,
    {
        if a.get_char(i) != b.get_char(i) {
            return false;
        }
        i += 1;
    }
    proof {
        assert(a@ =~= b@);
    }
    true
}

/// Appends the characters of `v` to `out`.
pub fn push_chars(out: &mut Vec<char>, v: &Vec<char>)
    ensures
        final(out)@ == old(out)@ + v@,
{
    let n = v.len();
    let mut i: usize = 0;
    while i < n
        invariant
            n == v@.len(),
            i <= n,
            out@ == old(out)@ + v@.take(i as int),
        decreases n - i,
    {
        out.push(v[i]);
        proof {
            assert(v@.take(i + 1) =~= v@.take(i as int).push(v@[i as int]));
        }
        i += 1;
    }
    proof {
        assert(v@.take(n as int) =~= v@);
    }
}

/// True exactly when `v` begins with the characters of `s`.
pub fn chars_has_prefix(v: &Vec<char>, s: &str) -> (r: bool)
    ensures
        r == (v@.len() >= s@.len() && v@.take(s@.len() as int) == s@),
{
    let n = s.unicode_len();
    if v.len() < n {
        return false;
    }
    let mut i: usize = 0;
    while i < n
        invariant
            n == s@.len(),
            v@.len() >= n,
            i <= n,
            forall|j: int| 0 <= j < i ==> v@[j] == s@[j],
        decreases n - i,
    {
        if v[i] != s.get_char(i) {
            proof {
                assert(v@.take(n as int)[i as int] != s@[i as int]);
            }
            return false;
        }
        i += 1;
    }
    proof {
        assert(v@.take(n as int) =~= s@);
    }
    true
}

/// The views of a vector of char buffers.
pub open spec fn lines_view(v: Seq<Vec<char>>) -> Seq<Seq<char>> {
    Seq::new(v.len(), |i: int| v[i]@)
}

/// `s` without its leading whitespace.
pub open spec fn trim_start_ws(s: Seq<char>) -> Seq<char>
    decreases s.len(),
{
    if s.len() > 0 && is_ws(s[0]) {
        trim_start_ws(s.drop_first())
    } else {
        s
    }
}

/// `s` without its trailing whitespace.
pub open spec fn trim_end_ws(s: Seq<char>) -> Seq<char>
    decreases s.len(),
{
    if s.len() > 0 && is_ws(s.last()) {
        trim_end_ws(s.drop_last())
    } else {
        s
    }
}

pub proof fn lemma_trim_start_skip(s: Seq<char>, a: int)
    requires
        0 <= a <= s.len(),
        forall|j: int| 0 <= j < a ==> is_ws(s[j]),
        a < s.len() ==> !is_ws(s[a]),
    ensures
        trim_start_ws(s) == s.skip(a),
    decreases a,
{
    if a == 0 {
        assert(s.skip(0) =~= s);
    } else {
        assert(is_ws(s[0]));
        let d = s.drop_first();
        assert(forall|j: int| 0 <= j < a - 1 ==> d[j] == s[j + 1]);
        lemma_trim_start_skip(d, a - 1);
        assert(d.skip(a - 1) =~= s.skip(a));
    }
}

pub proof fn lemma_trim_end_take(s: Seq<char>, b: int)
    requires
        0 <= b <= s.len(),
        forall|j: int| b <= j < s.len() ==> is_ws(s[j]),
        b > 0 ==> !is_ws(s[b - 1]),
    ensures
        trim_end_ws(s) == s.take(b),
    decreases s.len(),
{
    if b == s.len() {
        if s.len() == 0 || !is_ws(s.last()) {
            assert(s.take(b) =~= s);
        } else {
            assert(!is_ws(s[b - 1]));
            assert(false);
        }
    } else {
        assert(is_ws(s.last()));
        let d = s.drop_last();
        assert(forall|j: int| 0 <= j < d.len() ==> d[j] == s[j]);
        lemma_trim_end_take(d, b);
        assert(d.take(b) =~= s.take(b));
    }
}

/// The lines of `s`, split on `'\n'`; a trailing newline yields a final
/// empty line, and the result is never empty.
pub open spec fn split_lines(s: Seq<char>) -> Seq<Seq<char>>
    decreases s.len(),
{
    if s.len() == 0 {
        seq![Seq::<char>::empty()]
    } else if s[0] == '\n' {
        seq![Seq::<char>::empty()] + split_lines(s.drop_first())
    } else {
        let rest = split_lines(s.drop_first());
        seq![seq![s[0]] + rest[0]] + rest.drop_first()
    }
}

pub proof fn lemma_split_lines_nonempty(s: Seq<char>)
    ensures
        split_lines(s).len() >= 1,
    decreases s.len(),
{
    if s.len() > 0 {
        lemma_split_lines_nonempty(s.drop_first());
    }
}

/// Splitting at the first newline: everything before it is the first line,
/// and the rest splits on its own.  With no newline the whole input is the
/// single line.
pub proof fn lemma_split_lines_at(s: Seq<char>, p: int)
    requires
        0 <= p <= s.len(),
        forall|k: int| 0 <= k < p ==> s[k] != '\n',
        p < s.len() ==> s[p] == '\n',
    ensures
        p == s.len() ==> split_lines(s) == seq![s],
        p < s.len() ==> split_lines(s) == seq![s.take(p)] + split_lines(s.skip(p + 1)),
    decreases p,
{
    lemma_split_lines_nonempty(s);
    if s.len() == 0 {
        assert(split_lines(s) =~~= seq![s]);
    } else if p == 0 {
        if p < s.len() {
            assert(s[0] == '\n');
            assert(s.drop_first() =~= s.skip(1));
            assert(s.take(0) =~= Seq::<char>::empty());
            assert(split_lines(s) =~~= seq![s.take(0)] + split_lines(s.skip(1)));
        }
    } else {
        assert(s[0] != '\n');
        let d = s.drop_first();
        assert(forall|j: int| 0 <= j < d.len() ==> d[j] == s[j + 1]);
        lemma_split_lines_at(d, p - 1);
        lemma_split_lines_nonempty(d);
        let rest = split_lines(d);
        if p == s.len() {
            assert(rest == seq![d]);
            assert(seq![s[0]] + rest[0] =~= s);
            assert(split_lines(s) =~~= seq![s]);
        } else {
            assert(rest == seq![d.take(p - 1)] + split_lines(d.skip(p)));
            assert(seq![s[0]] + rest[0] =~= s.take(p));
            assert(d.skip(p) =~= s.skip(p + 1));
            assert(rest.drop_first() =~~= split_lines(s.skip(p + 1)));
            assert(split_lines(s) =~~= seq![s.take(p)] + split_lines(s.skip(p + 1)));
        }
    }
}

/// Lines joined with a newline between consecutive lines.
pub open spec fn join_lines(lines: Seq<Seq<char>>) -> Seq<char>
    decreases lines.len(),
{
    if lines.len() == 0 {
        Seq::empty()
    } else if lines.len() == 1 {
        lines[0]
    } else {
        lines[0] + "\n"@ + join_lines(lines.drop_first())
    }
}

pub proof fn lemma_join_lines_snoc(lines: Seq<Seq<char>>, x: Seq<char>)
    ensures
        join_lines(lines.push(x)) == if lines.len() == 0 {
            x
        } else {
            join_lines(lines) + "\n"@ + x
        },
    decreases lines.len(),
{
    if lines.len() == 0 {
        assert(lines.push(x)[0] =~= x);
    } else {
        lemma_join_lines_snoc(lines.drop_first(), x);
        assert(lines.push(x).drop_first() =~~= lines.drop_first().push(x));
        if lines.len() == 1 {
            assert(join_lines(lines.push(x)) =~= join_lines(lines) + "\n"@ + x);
        } else {
            assert(join_lines(lines.push(x)) =~= join_lines(lines) + "\n"@ + x);
        }
    }
}

/// The characters of `v` between `a` and `b`.
pub fn subrange_chars(v: &Vec<char>, a: usize, b: usize) -> (r: Vec<char>)
    requires
        a <= b <= v@.len(),
    ensures
        r@ == v@.subrange(a as int, b as int),
{
    let mut out: Vec<char> = Vec::new();
    let mut j = a;
    while j < b
        invariant
            a <= j <= b <= v@.len(),
            out@ == v@.subrange(a as int, j as int),
        decreases b - j,
    {
        out.push(v[j]);
        proof {
            assert(v@.subrange(a as int, j + 1) =~= v@.subrange(a as int, j as int).push(
                v@[j as int],
            ));
        }
        j += 1;
    }
    out
}

/// `v` without leading and trailing whitespace.
pub fn trim_chars(v: &Vec<char>) -> (r: Vec<char>)
    ensures
        r@ == trim_end_ws(trim_start_ws(v@)),
{
    let n = v.len();
    let mut a: usize = 0;
    while a < n && is_ws_char(v[a])
        invariant
            a <= n,
            n == v@.len(),
            forall|j: int| 0 <= j < a ==> is_ws(v@[j]),
        decreases n - a,
    {
        a += 1;
    }
    let mut b: usize = n;
    while b > a && is_ws_char(v[b - 1])
        invariant
            a <= b <= n,
            n == v@.len(),
            forall|j: int| b <= j < n ==> is_ws(v@[j]),
        decreases b,
    {
        b -= 1;
    }
    let r = subrange_chars(v, a, b);
    proof {
        lemma_trim_start_skip(v@, a as int);
        let t = v@.skip(a as int);
        assert(forall|j: int| 0 <= j < t.len() ==> t[j] == v@[j + a]);
        lemma_trim_end_take(t, b - a);
        assert(t.take(b - a) =~= v@.subrange(a as int, b as int));
    }
    r
}

/// `v` without trailing whitespace.
pub fn trim_end_chars(v: &Vec<char>) -> (r: Vec<char>)
    ensures
        r@ == trim_end_ws(v@),
{
    let n = v.len();
    let mut b: usize = n;
    while b > 0 && is_ws_char(v[b - 1])
        invariant
            b <= n,
            n == v@.len(),
            forall|j: int| b <= j < n ==> is_ws(v@[j]),
        decreases b,
    {
        b -= 1;
    }
    let r = subrange_chars(v, 0, b);
    proof {
        lemma_trim_end_take(v@, b as int);
        assert(v@.take(b as int) =~= v@.subrange(0, b as int));
    }
    r
}

/// The lines of `v`, split on `'\n'`.
pub fn split_lines_exec(v: &Vec<char>) -> (r: Vec<Vec<char>>)
    ensures
        lines_view(r@) == split_lines(v@),
{
    let n = v.len();
    let mut out: Vec<Vec<char>> = Vec::new();
    let mut i: usize = 0;
    proof {
        assert(v@.skip(0) =~= v@);
        assert(lines_view(out@) =~~= Seq::<Seq<char>>::empty());
        assert(lines_view(out@) + split_lines(v@.skip(0)) =~~= split_lines(v@));
    }
    loop
        invariant_except_break
            i <= n,
            n == v@.len(),
            split_lines(v@) == lines_view(out@) + split_lines(v@.skip(i as int)),
        ensures
            split_lines(v@) == lines_view(out@),
        decreases n - i,
    {
        let mut p = i;
        while p < n && v[p] != '\n'
            invariant
                i <= p <= n,
                n == v@.len(),
                forall|k: int| i <= k < p ==> v@[k] != '\n',
            decreases n - p,
        {
            p += 1;
        }
        let seg = subrange_chars(v, i, p);
        let ghost prev = lines_view(out@);
        out.push(seg);
        proof {
            let t = v@.skip(i as int);
            assert(forall|j: int| 0 <= j < t.len() ==> t[j] == v@[j + i]);
            lemma_split_lines_at(t, p - i);
            assert(t.take(p - i) =~= v@.subrange(i as int, p as int));
            assert(lines_view(out@) =~~= prev.push(seg@));
        }
        if p == n {
            proof {
                let t = v@.skip(i as int);
                assert(split_lines(t) == seq![t.take(p - i)]);
                assert(lines_view(out@) =~~= prev + seq![seg@]);
                assert(split_lines(v@) =~~= lines_view(out@));
            }
            break;
        }
        proof {
            let t = v@.skip(i as int);
            assert(split_lines(t) == seq![t.take(p - i)] + split_lines(t.skip(p - i + 1)));
            assert(t.skip(p - i + 1) =~= v@.skip(p + 1));
            assert(lines_view(out@) + split_lines(v@.skip(p + 1)) =~~= prev + split_lines(
                v@.skip(i as int),
            ));
        }
        i = p + 1;
    }
    out
}

} // verus!
