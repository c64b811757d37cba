//! Character-level helpers for the JSON texts and dotted paths the pipeline
//! works with.

use vstd::prelude::*;
use vstd::string::StrSliceExecFns;

verus! {

/// Relies on std's String::push: it appends exactly the given character.
#[verifier::external_body]
pub fn push_char(s: &mut String, c: char)
    ensures
        final(s)@ == old(s)@.push(c),
{
    s.push(c);
}

/// The characters of `s`, as a vector.
pub fn to_chars(s: &str) -> (r: Vec<char>)
    ensures
        r@ == s@,
{
    let n = s.unicode_len();
    let mut r: Vec<char> = Vec::new();
    let mut i: usize = 0;
    while i < n
        invariant
            i <= n,
            n == s@.len(),
            r@ == s@.subrange(0, i as int),
        decreases n - i,
    {
        let c = s.get_char(i);
        r.push(c);
        i += 1;
        proof {
            assert(r@ =~= s@.subrange(0, i as int));
        }
    }
    proof {
        assert(r@ =~= s@);
    }
    r
}

/// View of a vector of strings as a sequence of character sequences.
pub open spec fn strs_view(ss: Seq<String>) -> Seq<Seq<char>> {
    Seq::new(ss.len(), |i: int| ss[i]@)
}

/// Index of the first occurrence of `c` in `s`, or `s.len()` if absent.
pub open spec fn char_index(s: Seq<char>, c: char) -> int
    decreases s,
{
    if s.len() == 0 {
        0
    } else if s[0] == c {
        0
    } else {
        1 + char_index(s.drop_first(), c)
    }
}

pub proof fn lemma_char_index(s: Seq<char>, c: char)
    ensures
        0 <= char_index(s, c) <= s.len(),
        char_index(s, c) < s.len() ==> s[char_index(s, c)] == c,
        forall|i: int| 0 <= i < char_index(s, c) ==> s[i] != c,
    decreases s,
{
    if s.len() > 0 && s[0] != c {
        let t = s.drop_first();
        lemma_char_index(t, c);
        assert(forall|i: int| 0 <= i < t.len() ==> t[i] == s[i + 1]);
        assert forall|i: int| 0 <= i < char_index(s, c) implies s[i] != c by {
            if i > 0 {
                assert(s[i] == t[i - 1]);
            }
        }
    }
}

/// The pieces of `s` between its dots: `"a.b.c"` gives `["a", "b", "c"]`.
pub open spec fn dot_split(s: Seq<char>) -> Seq<Seq<char>>
    decreases s.len(),
    via dot_split_dec
{
    let i = char_index(s, '.');
    if i == s.len() {
        seq![s]
    } else {
        seq![s.subrange(0, i)] + dot_split(s.subrange(i + 1, s.len() as int))
    }
}

#[via_fn]
proof fn dot_split_dec(s: Seq<char>) {
    lemma_char_index(s, '.');
}

/// Position of the first `c` in `s` at or after `from`.
pub fn char_find(s: &Vec<char>, from: usize, c: char) -> (r: usize)
    requires
        from <= s@.len(),
    ensures
        from <= r <= s@.len(),
        r - from == char_index(s@.skip(from as int), c),
        r < s@.len() ==> s@[r as int] == c,
        forall|i: int| from <= i < r ==> s@[i] != c,
{
    let mut j = from;
    while j < s.len()
        invariant
            from <= j <= s@.len(),
            forall|i: int| from <= i < j ==> s@[i] != c,
        decreases s@.len() - j,
    {
        if s[j] == c {
            proof {
                lemma_char_index_at(s@.skip(from as int), c, (j - from) as int);
            }
            return j;
        }
        j += 1;
    }
    proof {
        lemma_char_index_absent(s@.skip(from as int), c);
    }
    j
}

/// If `t[k] == c` and nothing before it is `c`, the first index is `k`.
proof fn lemma_char_index_at(t: Seq<char>, c: char, k: int)
    requires
        0 <= k < t.len(),
        t[k] == c,
        forall|i: int| 0 <= i < k ==> t[i] != c,
    ensures
        char_index(t, c) == k,
    decreases t,
{
    if k > 0 {
        let u = t.drop_first();
        assert(forall|i: int| 0 <= i < u.len() ==> u[i] == t[i + 1]);
        lemma_char_index_at(u, c, k - 1);
    }
}

/// If `c` is nowhere in `t`, the first index is `t.len()`.
proof fn lemma_char_index_absent(t: Seq<char>, c: char)
    requires
        forall|i: int| 0 <= i < t.len() ==> t[i] != c,
    ensures
        char_index(t, c) == t.len(),
    decreases t,
{
    if t.len() > 0 {
        let u = t.drop_first();
        assert(forall|i: int| 0 <= i < u.len() ==> u[i] == t[i + 1]);
        lemma_char_index_absent(u, c);
    }
}

/// The pieces of `s[start..]` between dots, as strings.
fn split_dots_from(s: &Vec<char>, start: usize) -> (r: Vec<String>)
    requires
        start <= s@.len(),
    ensures
        strs_view(r@) == dot_split(s@.skip(start as int)),
        r@.len() >= 1,
    decreases s@.len() - start,
{
    let ghost tail = s@.skip(start as int);
    let i = char_find(s, start, '.');
    proof {
        lemma_char_index(tail, '.');
    }
    if i == s.len() {
        let piece = substring_range(s, start, i);
        let mut r: Vec<String> = Vec::new();
        r.push(piece);
        proof {
            assert(char_index(tail, '.') == tail.len());
            assert(s@.subrange(start as int, i as int) =~= tail);
            assert(strs_view(r@) =~= seq![tail]);
        }
        r
    } else {
        let piece = substring_range(s, start, i);
        let mut r = split_dots_from(s, i + 1);
        r.insert(0, piece);
        proof {
            let ci = char_index(tail, '.');
            assert(ci == i - start);
            assert(tail.subrange(0, ci) =~= s@.subrange(start as int, i as int));
            assert(tail.subrange(ci + 1, tail.len() as int) =~= s@.skip(i + 1));
            assert(strs_view(r@) =~= seq![tail.subrange(0, ci)] + dot_split(
                tail.subrange(ci + 1, tail.len() as int),
            ));
        }
        r
    }
}

/// The pieces of `s` between its dots, as strings.
pub fn split_dots(s: &String) -> (r: Vec<String>)
    ensures
        strs_view(r@) == dot_split(s@),
        r@.len() >= 1,
{
    let chars = to_chars(s.as_str());
    let r = split_dots_from(&chars, 0);
    proof {
        assert(chars@.skip(0) =~= s@);
    }
    r
}

/// A string holding `s[a..b]`.
pub fn substring_range(s: &Vec<char>, a: usize, b: usize) -> (r: String)
    requires
        a <= b <= s@.len(),
    ensures
        r@ == s@.subrange(a as int, b as int),
{
    let mut r = String::new();
    let mut i = a;
    while i < b
        invariant
            a <= i <= b <= s@.len(),
            r@ == s@.subrange(a as int, i as int),
        decreases b - i,
    {
        push_char(&mut r, s[i]);
        i += 1;
        proof {
            assert(r@ =~= s@.subrange(a as int, i as int));
        }
    }
    r
}

/// Whether `pat` occurs in `s` at position `i`.
pub open spec fn sub_at(s: Seq<char>, pat: Seq<char>, i: int) -> bool {
    0 <= i && i + pat.len() <= s.len() && s.subrange(i, i + pat.len() as int) == pat
}

/// First position at or after `from` where `pat` occurs in `s`, or -1.
pub open spec fn find_sub_from(s: Seq<char>, pat: Seq<char>, from: int) -> int
    decreases s.len() - from,
    when 0 <= from <= s.len()
{
    if from + pat.len() > s.len() {
        -1
    } else if pat.len() == 0 {
        from
    } else if sub_at(s, pat, from) {
        from
    } else {
        find_sub_from(s, pat, from + 1)
    }
}

/// Whether `pat` occurs at position `i` of `s`.
fn sub_at_exec(s: &Vec<char>, pat: &Vec<char>, i: usize) -> (r: bool)
    requires
        i + pat@.len() <= s@.len(),
    ensures
        r == sub_at(s@, pat@, i as int),
{
    let n = s.len();
    let m = pat.len();
    let mut k: usize = 0;
    while k < m
        invariant
            k <= m,
            m == pat@.len(),
            n == s@.len(),
            i + m <= n,
            forall|t: int| 0 <= t < k ==> s@[i + t] == pat@[t],
        decreases m - k,
    {
        if s[i + k] != pat[k] {
            proof {
                assert(s@.subrange(i as int, i + pat@.len()) != pat@) by {
                    assert(s@.subrange(i as int, i + pat@.len())[k as int] == s@[i + k]);
                }
            }
            return false;
        }
        k += 1;
    }
    proof {
        assert(s@.subrange(i as int, i + pat@.len()) =~= pat@);
    }
    true
}

/// First position where `pat` occurs in `s`.
pub fn find_sub(s: &Vec<char>, pat: &Vec<char>) -> (r: Option<usize>)
    ensures
        match r {
            Some(i) => find_sub_from(s@, pat@, 0) == i as int && i + pat@.len() <= s@.len(),
            None => find_sub_from(s@, pat@, 0) == -1,
        },
{
    let n = s.len();
    let m = pat.len();
    if m == 0 {
        return Some(0);
    }
    if m > n {
        return None;
    }
    let mut j: usize = 0;
    while m <= n - j
        invariant
            j <= n,
            m == pat@.len(),
            n == s@.len(),
            m >= 1,
            find_sub_from(s@, pat@, 0) == find_sub_from(s@, pat@, j as int),
        decreases n - j,
    {
        if sub_at_exec(s, pat, j) {
            return Some(j);
        }
        j += 1;
    }
    None
}

} // verus!
