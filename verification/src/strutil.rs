//! Character-level scanning primitives shared by the record parser and the
//! library locator: first-occurrence searches, whitespace trimming, leading
//! comma stripping, line splitting and string comparisons.

use vstd::prelude::*;

verus! {

/// Whitespace as trimming understands it: the Unicode `White_Space` set,
/// the characters `char::is_whitespace` accepts.
pub open spec fn is_ws(c: char) -> bool {
    let u: int = c as int;
    ||| 0x09 <= u <= 0x0D
    ||| u == 0x20
    ||| u == 0x85
    ||| u == 0xA0
    ||| u == 0x1680
    ||| 0x2000 <= u <= 0x200A
    ||| u == 0x2028
    ||| u == 0x2029
    ||| u == 0x202F
    ||| u == 0x205F
    ||| u == 0x3000
}

/// Exec whitespace test, per `is_ws`.
pub fn is_ws_char(c: char) -> (r: bool)
    ensures
        r == is_ws(c),
{
    let u: u32 = c as u32;
    (0x09 <= u && u <= 0x0D) || u == 0x20 || u == 0x85 || u == 0xA0 || u == 0x1680 || (0x2000 <= u
        && u <= 0x200A) || u == 0x2028 || u == 0x2029 || u == 0x202F || u == 0x205F || u == 0x3000
}

/// Index of the first occurrence of `c` at or after `from`, if any.
pub open spec fn first_char_from(s: Seq<char>, c: char, from: int) -> Option<int>
    decreases s.len() - from,
{
    if from < 0 || from >= s.len() {
        None
    } else if s[from] == c {
        Some(from)
    } else {
        first_char_from(s, c, from + 1)
    }
}

proof fn lemma_first_char_from_props(s: Seq<char>, c: char, from: int)
    requires
        0 <= from,
    ensures
        match first_char_from(s, c, from) {
            Some(i) => from <= i < s.len() && s[i] == c && (forall|j: int|
                from <= j < i ==> s[j] != c),
            None => forall|j: int| from <= j < s.len() ==> s[j] != c,
        },
    decreases s.len() - from,
{
    if from >= s.len() {
    } else if s[from] == c {
    } else {
        lemma_first_char_from_props(s, c, from + 1);
    }
}

/// Exec search for the first occurrence of `c` at or after `from`.
pub fn find_char_from(s: &str, c: char, from: usize) -> (r: Option<usize>)
    ensures
        match r {
            Some(i) => first_char_from(s@, c, from as int) == Some(i as int) && from <= i
                < s@.len(),
            None => first_char_from(s@, c, from as int) is None,
        },
{
    let n: usize = s.unicode_len();
    let mut i: usize = from;
    while i < n
        invariant
            from <= i,
            n == s@.len(),
            first_char_from(s@, c, from as int) == first_char_from(s@, c, i as int),
        decreases n - i,
    {
        if s.get_char(i) == c {
            return Some(i);
        }
        i = i + 1;
    }
    None
}

/// Index of the first non-whitespace character at or after `from`, or the
/// length of `s` if the rest is all whitespace.
pub open spec fn first_non_ws_from(s: Seq<char>, from: int) -> int
    decreases s.len() - from,
{
    if from < 0 || from >= s.len() {
        s.len() as int
    } else if !is_ws(s[from]) {
        from
    } else {
        first_non_ws_from(s, from + 1)
    }
}

proof fn lemma_first_non_ws_from_props(s: Seq<char>, from: int)
    requires
        0 <= from <= s.len(),
    ensures
        from <= first_non_ws_from(s, from) <= s.len(),
        first_non_ws_from(s, from) < s.len() ==> !is_ws(s[first_non_ws_from(s, from)]),
        forall|j: int| from <= j < first_non_ws_from(s, from) ==> is_ws(s[j]),
    decreases s.len() - from,
{
    if from >= s.len() {
    } else if !is_ws(s[from]) {
    } else {
        lemma_first_non_ws_from_props(s, from + 1);
    }
}

/// Index of the last non-whitespace character at or before `from`, or -1.
pub open spec fn last_non_ws_before(s: Seq<char>, from: int) -> int
    decreases from + 1,
{
    if from < 0 || from >= s.len() {
        -1
    } else if !is_ws(s[from]) {
        from
    } else {
        last_non_ws_before(s, from - 1)
    }
}

proof fn lemma_last_non_ws_before_props(s: Seq<char>, from: int)
    requires
        -1 <= from < s.len(),
    ensures
        -1 <= last_non_ws_before(s, from) <= from,
        last_non_ws_before(s, from) >= 0 ==> !is_ws(s[last_non_ws_before(s, from)]),
        forall|j: int| last_non_ws_before(s, from) < j <= from ==> is_ws(s[j]),
    decreases from + 1,
{
    if from < 0 {
    } else if !is_ws(s[from]) {
    } else {
        lemma_last_non_ws_before_props(s, from - 1);
    }
}

/// `s` with surrounding whitespace removed.
pub open spec fn trim_seq(s: Seq<char>) -> Seq<char> {
    let a = first_non_ws_from(s, 0);
    if a == s.len() {
        Seq::empty()
    } else {
        s.subrange(a, last_non_ws_before(s, s.len() - 1) + 1)
    }
}

/// Exec trim of surrounding whitespace, per `trim_seq`.
pub fn trim_str<'a>(s: &'a str) -> (r: &'a str)
    ensures
        r@ == trim_seq(s@),
{
    let n: usize = s.unicode_len();
    let mut a: usize = 0;
    loop
        invariant_except_break
            a <= n,
            n == s@.len(),
            first_non_ws_from(s@, 0) == first_non_ws_from(s@, a as int),
        ensures
            a <= n,
            n == s@.len(),
            first_non_ws_from(s@, 0) == a as int,
        decreases n - a,
    {
        if a >= n {
            break ;
        }
        if !is_ws_char(s.get_char(a)) {
            break ;
        }
        a = a + 1;
    }
    if a == n {
        let r = s.substring_char(0, 0);
        proof {
            assert(r@ =~= trim_seq(s@));
        }
        return r;
    }
    let mut b: usize = n - 1;
    loop
        invariant_except_break
            a <= b < n,
            n == s@.len(),
            first_non_ws_from(s@, 0) == a as int,
            last_non_ws_before(s@, n - 1) == last_non_ws_before(s@, b as int),
        ensures
            a <= b < n,
            n == s@.len(),
            last_non_ws_before(s@, n - 1) == b as int,
        decreases b,
    {
        if !is_ws_char(s.get_char(b)) {
            break ;
        }
        if b == a {
            proof {
                lemma_first_non_ws_from_props(s@, 0);
                assert(!is_ws(s@[a as int]));
                assert(false);
            }
        }
        b = b - 1;
    }
    s.substring_char(a, b + 1)
}

/// Index of the first character other than `,` at or after `from`.
pub open spec fn first_non_comma_from(s: Seq<char>, from: int) -> int
    decreases s.len() - from,
{
    if from < 0 || from >= s.len() {
        s.len() as int
    } else if s[from] != ',' {
        from
    } else {
        first_non_comma_from(s, from + 1)
    }
}

/// `s` with every leading comma removed: the thousands-separator artifact
/// stripped from numeric values before parsing.
pub open spec fn strip_commas(s: Seq<char>) -> Seq<char> {
    s.subrange(first_non_comma_from(s, 0), s.len() as int)
}

proof fn lemma_first_non_comma_from_props(s: Seq<char>, from: int)
    requires
        0 <= from <= s.len(),
    ensures
        from <= first_non_comma_from(s, from) <= s.len(),
    decreases s.len() - from,
{
    if from >= s.len() {
    } else if s[from] != ',' {
    } else {
        lemma_first_non_comma_from_props(s, from + 1);
    }
}

/// Exec strip of leading commas, per `strip_commas`.
pub fn strip_commas_str<'a>(s: &'a str) -> (r: &'a str)
    ensures
        r@ == strip_commas(s@),
{
    let n: usize = s.unicode_len();
    let mut a: usize = 0;
    loop
        invariant_except_break
            a <= n,
            n == s@.len(),
            first_non_comma_from(s@, 0) == first_non_comma_from(s@, a as int),
        ensures
            a <= n,
            n == s@.len(),
            first_non_comma_from(s@, 0) == a as int,
        decreases n - a,
    {
        if a >= n {
            break ;
        }
        if s.get_char(a) != ',' {
            break ;
        }
        a = a + 1;
    }
    s.substring_char(a, n)
}

proof fn lemma_first_non_comma_shift(v: Seq<char>, i: int)
    requires
        0 <= i <= v.len(),
    ensures
        first_non_comma_from(seq![','] + v, i + 1) == 1 + first_non_comma_from(v, i),
    decreases v.len() - i,
{
    let cv = seq![','] + v;
    if i >= v.len() {
    } else {
        assert(cv[i + 1] == v[i]);
        if v[i] != ',' {
        } else {
            lemma_first_non_comma_shift(v, i + 1);
        }
    }
}

/// A value with one more leading comma strips to the same value.
pub proof fn lemma_strip_leading_comma(v: Seq<char>)
    ensures
        strip_commas(seq![','] + v) == strip_commas(v),
{
    let cv = seq![','] + v;
    assert(cv[0] == ',');
    lemma_first_non_comma_shift(v, 0);
    lemma_first_non_comma_from_props(v, 0);
    let k = first_non_comma_from(v, 0);
    assert(first_non_comma_from(cv, 0) == first_non_comma_from(cv, 1));
    assert(cv.subrange(1 + k, cv.len() as int) =~= v.subrange(k, v.len() as int));
}

/// Character-for-character string equality.
pub fn str_eq(a: &str, b: &str) -> (r: bool)
    ensures
        r == (a@ == b@),
{
    let na: usize = a.unicode_len();
    let nb: usize = b.unicode_len();
    if na != nb {
        return false;
    }
    let mut i: usize = 0;
    while i < na
        invariant
            i <= na,
            na == a@.len(),
            na == b@.len(),
            forall|j: int| 0 <= j < i ==> a@[j] == b@[j],
        decreases na - i,
    {
        if a.get_char(i) != b.get_char(i) {
            return false;
        }
        i = i + 1;
    }
    proof {
        assert(a@ =~= b@);
    }
    true
}

/// Whether `p` is a literal prefix of `s`.
pub open spec fn prefix_match(s: Seq<char>, p: Seq<char>) -> bool {
    p.len() <= s.len() && s.subrange(0, p.len() as int) == p
}

/// Exec literal prefix test, per `prefix_match`.
pub fn str_has_prefix(s: &str, p: &str) -> (r: bool)
    ensures
        r == prefix_match(s@, p@),
{
    let ns: usize = s.unicode_len();
    let np: usize = p.unicode_len();
    if np > ns {
        return false;
    }
    let mut i: usize = 0;
    while i < np
        invariant
            i <= np,
            np <= ns,
            ns == s@.len(),
            np == p@.len(),
            forall|j: int| 0 <= j < i ==> s@[j] == p@[j],
        decreases np - i,
    {
        if s.get_char(i) != p.get_char(i) {
            assert(s@.subrange(0, p@.len() as int)[i as int] != p@[i as int]);
            return false;
        }
        i = i + 1;
    }
    proof {
        assert(s@.subrange(0, p@.len() as int) =~= p@);
    }
    true
}

/// Whether the characters of `s` at `[a, b)` equal `lit`.
pub fn range_eq(s: &str, a: usize, b: usize, lit: &str) -> (r: bool)
    requires
        a <= b <= s@.len(),
    ensures
        r == (s@.subrange(a as int, b as int) == lit@),
{
    let nl: usize = lit.unicode_len();
    if b - a != nl {
        assert(s@.subrange(a as int, b as int).len() != lit@.len());
        return false;
    }
    let mut i: usize = 0;
    while i < nl
        invariant
            i <= nl,
            a + nl == b,
            b <= s@.len(),
            nl == lit@.len(),
            forall|j: int| 0 <= j < i ==> s@[a + j] == lit@[j],
        decreases nl - i,
    {
        if s.get_char(a + i) != lit.get_char(i) {
            assert(s@.subrange(a as int, b as int)[i as int] != lit@[i as int]);
            return false;
        }
        i = i + 1;
    }
    proof {
        assert(s@.subrange(a as int, b as int) =~= lit@);
    }
    true
}

/// A line piece with one trailing carriage return removed.
pub open spec fn strip_cr(l: Seq<char>) -> Seq<char> {
    if l.len() > 0 && l.last() == '\r' {
        l.drop_last()
    } else {
        l
    }
}

/// The pieces of `s` from `from` onward, split at `'\n'`, each with a
/// trailing carriage return removed.
pub open spec fn lines_from(s: Seq<char>, from: int) -> Seq<Seq<char>>
    decreases s.len() - from,
    when 0 <= from <= s.len()
    via lines_from_decreases
{
    match first_char_from(s, '\n', from) {
        None => seq![strip_cr(s.subrange(from, s.len() as int))],
        Some(i) => seq![strip_cr(s.subrange(from, i))] + lines_from(s, i + 1),
    }
}

#[via_fn]
proof fn lines_from_decreases(s: Seq<char>, from: int) {
    if 0 <= from <= s.len() {
        lemma_first_char_from_props(s, '\n', from);
    }
}

/// The lines of a text, in the `Key: Value` sense: split at `'\n'`, each
/// with a trailing carriage return removed.  An empty text has no lines.
pub open spec fn lines_of(s: Seq<char>) -> Seq<Seq<char>> {
    if s.len() == 0 {
        Seq::empty()
    } else {
        lines_from(s, 0)
    }
}

/// Exec line splitting, per `lines_of`.
pub fn split_lines(s: &str) -> (out: Vec<String>)
    ensures
        out.deep_view() == lines_of(s@),
{
    let n: usize = s.unicode_len();
    let mut out: Vec<String> = Vec::new();
    if n == 0 {
        proof {
            assert(out.deep_view() =~= lines_of(s@));
        }
        return out;
    }
    let mut pos: usize = 0;
    loop
        invariant
            pos <= n,
            n == s@.len(),
            n > 0,
            lines_from(s@, 0) == out.deep_view() + lines_from(s@, pos as int),
        decreases n - pos,
    {
        let e = find_char_from(s, '\n', pos);
        let end: usize = match e {
            Some(i) => i,
            None => n,
        };
        let lr: usize = if end > pos && s.get_char(end - 1) == '\r' {
            end - 1
        } else {
            end
        };
        let piece = s.substring_char(pos, lr);
        proof {
            assert(piece@ =~= strip_cr(s@.subrange(pos as int, end as int)));
        }
        out.push(piece.to_owned());
        match e {
            None => {
                proof {
                    assert(lines_from(s@, pos as int) =~= seq![
                        strip_cr(s@.subrange(pos as int, n as int)),
                    ]);
                    assert(out.deep_view() =~= lines_of(s@));
                }
                return out;
            },
            Some(i) => {
                proof {
                    assert(lines_from(s@, pos as int) == seq![
                        strip_cr(s@.subrange(pos as int, i as int)),
                    ] + lines_from(s@, i + 1));
                    assert(out.deep_view() + lines_from(s@, i + 1) =~= lines_from(s@, 0));
                }
                pos = i + 1;
            },
        }
    }
}

/// Count of occurrences of `c` in `s`.
pub open spec fn count_char(s: Seq<char>, c: char) -> int
    decreases s.len(),
{
    if s.len() == 0 {
        0
    } else {
        count_char(s.drop_last(), c) + if s.last() == c {
            1int
        } else {
            0int
        }
    }
}

} // verus!
