//! Structured model of the JSON documents that flow through the pipeline.
//!
//! A message's payload and its mediation map are JSON-shaped. The pipeline
//! never interprets scalar contents: numbers and strings are kept as the raw
//! character runs of their literals, so a value carries exactly what the text
//! said.

use vstd::prelude::*;
use vstd::pervasive::unreached;
use vstd::pervasive::VecAdditionalExecFns;

use crate::text::push_char;
use crate::text::strs_view as path_view;

verus! {

/// JSON whitespace.
pub open spec fn is_ws(c: char) -> bool {
    c == ' ' || c == '\t' || c == '\n' || c == '\r'
}

/// Characters that may make up a number token.
pub open spec fn is_num_char(c: char) -> bool {
    c == '-' || c == '+' || c == '.' || c == 'e' || c == 'E' || ('0' <= c && c <= '9')
}

/// First index at or after `i` holding a non-whitespace character (or the end).
pub open spec fn skip_ws(s: Seq<char>, i: int) -> int
    decreases s.len() - i,
    when 0 <= i <= s.len()
{
    if i < s.len() && is_ws(s[i]) {
        skip_ws(s, i + 1)
    } else {
        i
    }
}

pub proof fn lemma_skip_ws(s: Seq<char>, i: int)
    requires
        0 <= i <= s.len(),
    ensures
        i <= skip_ws(s, i) <= s.len(),
        skip_ws(s, i) < s.len() ==> !is_ws(s[skip_ws(s, i)]),
    decreases s.len() - i,
{
    if i < s.len() && is_ws(s[i]) {
        lemma_skip_ws(s, i + 1);
    }
}

/// End of the number token that starts at `i`.
pub open spec fn scan_num(s: Seq<char>, i: int) -> int
    decreases s.len() - i,
    when 0 <= i <= s.len()
{
    if i < s.len() && is_num_char(s[i]) {
        scan_num(s, i + 1)
    } else {
        i
    }
}

pub proof fn lemma_scan_num(s: Seq<char>, i: int)
    requires
        0 <= i <= s.len(),
    ensures
        i <= scan_num(s, i) <= s.len(),
    decreases s.len() - i,
{
    if i < s.len() && is_num_char(s[i]) {
        lemma_scan_num(s, i + 1);
    }
}

/// Index of the closing quote of a string whose contents start at `i`;
/// a backslash always escapes the character after it.
pub open spec fn scan_str(s: Seq<char>, i: int) -> Option<int>
    decreases s.len() - i,
    when 0 <= i <= s.len()
{
    if i >= s.len() {
        None
    } else if s[i] == '"' {
        Some(i)
    } else if s[i] == '\\' {
        if i + 2 <= s.len() {
            scan_str(s, i + 2)
        } else {
            None
        }
    } else {
        scan_str(s, i + 1)
    }
}

pub proof fn lemma_scan_str(s: Seq<char>, i: int)
    requires
        0 <= i <= s.len(),
    ensures
        match scan_str(s, i) {
            Some(k) => i <= k < s.len() && s[k] == '"',
            None => true,
        },
    decreases s.len() - i,
{
    if i < s.len() && s[i] != '"' {
        if s[i] == '\\' {
            if i + 2 <= s.len() {
                lemma_scan_str(s, i + 2);
            }
        } else {
            lemma_scan_str(s, i + 1);
        }
    }
}

/// Fuel that always suffices for `sp_value` from position `i`.
pub open spec fn fuel_value(s: Seq<char>, i: int) -> nat {
    (2 * (s.len() - i) + 2) as nat
}

/// Fuel that always suffices for `sp_elems` / `sp_members` from position `i`.
pub open spec fn fuel_list(s: Seq<char>, i: int) -> nat {
    (2 * (s.len() - i) + 3) as nat
}

/// Parse one JSON value starting at `i` (leading whitespace allowed).
/// Returns the value's model and the index just past it. The `fuel`
/// parameter only forces termination; any fuel of at least
/// `fuel_value(s, i)` gives the same answer.
pub open spec fn sp_value(s: Seq<char>, i: int, fuel: nat) -> Option<(SpecJson, int)>
    decreases fuel,
{
    if fuel == 0 {
        None
    } else {
        let j = skip_ws(s, i);
        if j >= s.len() {
            None
        } else if s[j] == 'n' {
            if j + 4 <= s.len() && s[j + 1] == 'u' && s[j + 2] == 'l' && s[j + 3] == 'l' {
                Some((SpecJson::Null, j + 4))
            } else {
                None
            }
        } else if s[j] == 't' {
            if j + 4 <= s.len() && s[j + 1] == 'r' && s[j + 2] == 'u' && s[j + 3] == 'e' {
                Some((SpecJson::Bool(true), j + 4))
            } else {
                None
            }
        } else if s[j] == 'f' {
            if j + 5 <= s.len() && s[j + 1] == 'a' && s[j + 2] == 'l' && s[j + 3] == 's' && s[j + 4]
                == 'e' {
                Some((SpecJson::Bool(false), j + 5))
            } else {
                None
            }
        } else if s[j] == '"' {
            match scan_str(s, j + 1) {
                Some(k) => Some((SpecJson::Str(s.subrange(j + 1, k)), k + 1)),
                None => None,
            }
        } else if s[j] == '[' {
            let j2 = skip_ws(s, j + 1);
            if j2 < s.len() && s[j2] == ']' {
                Some((SpecJson::Arr(Seq::empty()), j2 + 1))
            } else {
                match sp_elems(s, j + 1, (fuel - 1) as nat) {
                    Some((vs, m)) => Some((SpecJson::Arr(vs), m)),
                    None => None,
                }
            }
        } else if s[j] == '{' {
            let j2 = skip_ws(s, j + 1);
            if j2 < s.len() && s[j2] == '}' {
                Some((SpecJson::Obj(Seq::empty()), j2 + 1))
            } else {
                match sp_members(s, j + 1, (fuel - 1) as nat) {
                    Some((ms, m)) => Some((SpecJson::Obj(ms), m)),
                    None => None,
                }
            }
        } else if is_num_char(s[j]) && s[j] != '+' && s[j] != '.' && s[j] != 'e' && s[j] != 'E' {
            Some((SpecJson::Num(s.subrange(j, scan_num(s, j))), scan_num(s, j)))
        } else {
            None
        }
    }
}

/// Parse the non-empty element list of an array, starting just after `[`
/// or after a `,`, and consume the closing `]`.
pub open spec fn sp_elems(s: Seq<char>, i: int, fuel: nat) -> Option<(Seq<SpecJson>, int)>
    decreases fuel,
{
    if fuel == 0 {
        None
    } else {
        match sp_value(s, i, (fuel - 1) as nat) {
            None => None,
            Some((v, j)) => {
                let k = skip_ws(s, j);
                if k < s.len() && s[k] == ',' {
                    match sp_elems(s, k + 1, (fuel - 1) as nat) {
                        None => None,
                        Some((vs, m)) => Some((seq![v] + vs, m)),
                    }
                } else if k < s.len() && s[k] == ']' {
                    Some((seq![v], k + 1))
                } else {
                    None
                }
            },
        }
    }
}

/// Parse the non-empty member list of an object, starting just after `{`
/// or after a `,`, and consume the closing `}`.
pub open spec fn sp_members(s: Seq<char>, i: int, fuel: nat) -> Option<
    (Seq<(Seq<char>, SpecJson)>, int),
>
    decreases fuel,
{
    if fuel == 0 {
        None
    } else {
        let j = skip_ws(s, i);
        if j < s.len() && s[j] == '"' {
            match scan_str(s, j + 1) {
                None => None,
                Some(k) => {
                    let key = s.subrange(j + 1, k);
                    let m = skip_ws(s, k + 1);
                    if m < s.len() && s[m] == ':' {
                        match sp_value(s, m + 1, (fuel - 1) as nat) {
                            None => None,
                            Some((v, p)) => {
                                let q = skip_ws(s, p);
                                if q < s.len() && s[q] == ',' {
                                    match sp_members(s, q + 1, (fuel - 1) as nat) {
                                        None => None,
                                        Some((ms, r)) => Some((seq![(key, v)] + ms, r)),
                                    }
                                } else if q < s.len() && s[q] == '}' {
                                    Some((seq![(key, v)], q + 1))
                                } else {
                                    None
                                }
                            },
                        }
                    } else {
                        None
                    }
                },
            }
        } else {
            None
        }
    }
}

/// Parse a whole document: one value, with nothing but whitespace after it.
pub open spec fn sp_doc(s: Seq<char>) -> Option<SpecJson> {
    match sp_value(s, 0, fuel_value(s, 0)) {
        Some((v, j)) => if skip_ws(s, j) == s.len() {
            Some(v)
        } else {
            None
        },
        None => None,
    }
}

/// First non-whitespace position at or after `i`.
fn ws_end(s: &Vec<char>, i: usize) -> (j: usize)
    requires
        i <= s@.len(),
    ensures
        j as int == skip_ws(s@, i as int),
        i <= j <= s@.len(),
{
    let mut j = i;
    loop
        invariant
            i <= j <= s@.len(),
            skip_ws(s@, i as int) == skip_ws(s@, j as int),
        decreases s@.len() - j,
    {
        if j >= s.len() {
            return j;
        }
        let c = s[j];
        if c == ' ' || c == '\t' || c == '\n' || c == '\r' {
            j += 1;
        } else {
            return j;
        }
    }
}

/// End of the number token that starts at `i`.
fn num_end(s: &Vec<char>, i: usize) -> (j: usize)
    requires
        i <= s@.len(),
    ensures
        j as int == scan_num(s@, i as int),
        i <= j <= s@.len(),
{
    let mut j = i;
    loop
        invariant
            i <= j <= s@.len(),
            scan_num(s@, i as int) == scan_num(s@, j as int),
        decreases s@.len() - j,
    {
        if j >= s.len() {
            return j;
        }
        let c = s[j];
        if c == '-' || c == '+' || c == '.' || c == 'e' || c == 'E' || ('0' <= c && c <= '9') {
            j += 1;
        } else {
            return j;
        }
    }
}

/// Position of the closing quote of string contents starting at `i`.
fn str_end(s: &Vec<char>, i: usize) -> (r: Option<usize>)
    requires
        i <= s@.len(),
    ensures
        match r {
            Some(k) => scan_str(s@, i as int) == Some(k as int) && i <= k < s@.len(),
            None => scan_str(s@, i as int) is None,
        },
{
    let mut j = i;
    loop
        invariant
            i <= j <= s@.len(),
            scan_str(s@, i as int) == scan_str(s@, j as int),
        decreases s@.len() - j,
    {
        if j >= s.len() {
            return None;
        }
        let c = s[j];
        if c == '"' {
            return Some(j);
        }
        if c == '\\' {
            if s.len() - j >= 2 {
                j += 2;
            } else {
                return None;
            }
        } else {
            j += 1;
        }
    }
}

/// A string holding `s[a..b]`.
fn substring(s: &Vec<char>, a: usize, b: usize) -> (r: String)
    requires
        a <= b <= s@.len(),
    ensures
        r@ == s@.subrange(a as int, b as int),
{
    let mut r = String::new();
    let mut i = a;
    while i < b
        invariant
            a <= i <= b <= s@.len(),
            r@ == s@.subrange(a as int, i as int),
        decreases b - i,
    {
        push_char(&mut r, s[i]);
        i += 1;
        proof {
            assert(r@ =~= s@.subrange(a as int, i as int));
        }
    }
    r
}

/// Parse one JSON value starting at `i`; returns the value and the index
/// just past it. Agrees with `sp_value` on every sufficient fuel.
pub fn parse_value(s: &Vec<char>, i: usize) -> (r: Option<(JsonValue, usize)>)
    requires
        i <= s@.len(),
    ensures
        match r {
            Some((v, j)) => i < j <= s@.len() && forall|f: nat|
                f >= fuel_value(s@, i as int) ==> sp_value(s@, i as int, f) == Some(
                    (v@, j as int),
                ),
            None => forall|f: nat|
                f >= fuel_value(s@, i as int) ==> sp_value(s@, i as int, f) is None,
        },
    decreases s@.len() - i, 0int,
{
    proof {
        lemma_skip_ws(s@, i as int);
    }
    let j = ws_end(s, i);
    if j >= s.len() {
        return None;
    }
    let c = s[j];
    if c == 'n' {
        if s.len() - j >= 4 && s[j + 1] == 'u' && s[j + 2] == 'l' && s[j + 3] == 'l' {
            Some((JsonValue::Null, j + 4))
        } else {
            None
        }
    } else if c == 't' {
        if s.len() - j >= 4 && s[j + 1] == 'r' && s[j + 2] == 'u' && s[j + 3] == 'e' {
            Some((JsonValue::Bool(true), j + 4))
        } else {
            None
        }
    } else if c == 'f' {
        if s.len() - j >= 5 && s[j + 1] == 'a' && s[j + 2] == 'l' && s[j + 3] == 's' && s[j + 4]
            == 'e' {
            Some((JsonValue::Bool(false), j + 5))
        } else {
            None
        }
    } else if c == '"' {
        match str_end(s, j + 1) {
            Some(k) => {
                let raw = substring(s, j + 1, k);
                Some((JsonValue::Str(raw), k + 1))
            },
            None => None,
        }
    } else if c == '[' {
        proof {
            lemma_skip_ws(s@, j + 1);
        }
        let j2 = ws_end(s, j + 1);
        if j2 < s.len() && s[j2] == ']' {
            let empty: Vec<JsonValue> = Vec::new();
            let v = JsonValue::Arr(empty);
            proof {
                assert(v@ == SpecJson::Arr(Seq::<SpecJson>::empty()));
            }
            Some((v, j2 + 1))
        } else {
            match parse_elems(s, j + 1) {
                Some((vs, m)) => {
                    let v = JsonValue::Arr(vs);
                    proof {
                        assert forall|f: nat| f >= fuel_value(s@, i as int) implies sp_value(
                            s@,
                            i as int,
                            f,
                        ) == Some((v@, m as int)) by {
                            assert(sp_elems(s@, j + 1, (f - 1) as nat) == Some(
                                (view_arr(vs@), m as int),
                            ));
                        }
                    }
                    Some((v, m))
                },
                None => {
                    proof {
                        assert forall|f: nat| f >= fuel_value(s@, i as int) implies sp_value(
                            s@,
                            i as int,
                            f,
                        ) is None by {
                            assert(sp_elems(s@, j + 1, (f - 1) as nat) is None);
                        }
                    }
                    None
                },
            }
        }
    } else if c == '{' {
        proof {
            lemma_skip_ws(s@, j + 1);
        }
        let j2 = ws_end(s, j + 1);
        if j2 < s.len() && s[j2] == '}' {
            let empty: Vec<(String, JsonValue)> = Vec::new();
            let v = JsonValue::Obj(empty);
            proof {
                assert(v@ == SpecJson::Obj(Seq::<(Seq<char>, SpecJson)>::empty()));
            }
            Some((v, j2 + 1))
        } else {
            match parse_members(s, j + 1) {
                Some((ms, m)) => {
                    let v = JsonValue::Obj(ms);
                    proof {
                        assert forall|f: nat| f >= fuel_value(s@, i as int) implies sp_value(
                            s@,
                            i as int,
                            f,
                        ) == Some((v@, m as int)) by {
                            assert(sp_members(s@, j + 1, (f - 1) as nat) == Some(
                                (view_obj(ms@), m as int),
                            ));
                        }
                    }
                    Some((v, m))
                },
                None => {
                    proof {
                        assert forall|f: nat| f >= fuel_value(s@, i as int) implies sp_value(
                            s@,
                            i as int,
                            f,
                        ) is None by {
                            assert(sp_members(s@, j + 1, (f - 1) as nat) is None);
                        }
                    }
                    None
                },
            }
        }
    } else if c == '-' || ('0' <= c && c <= '9') {
        proof {
            lemma_scan_num(s@, j as int);
        }
        let k = num_end(s, j);
        proof {
            assert(scan_num(s@, j as int) == scan_num(s@, j + 1));
            lemma_scan_num(s@, j + 1);
        }
        let raw = substring(s, j, k);
        Some((JsonValue::Num(raw), k))
    } else {
        None
    }
}

/// Parse a non-empty, comma-separated element list and its closing `]`.
pub fn parse_elems(s: &Vec<char>, i: usize) -> (r: Option<(Vec<JsonValue>, usize)>)
    requires
        i <= s@.len(),
    ensures
        match r {
            Some((vs, m)) => i < m <= s@.len() && forall|f: nat|
                f >= fuel_list(s@, i as int) ==> sp_elems(s@, i as int, f) == Some(
                    (view_arr(vs@), m as int),
                ),
            None => forall|f: nat|
                f >= fuel_list(s@, i as int) ==> sp_elems(s@, i as int, f) is None,
        },
    decreases s@.len() - i, 1int,
{
    match parse_value(s, i) {
        None => {
            proof {
                assert forall|f: nat| f >= fuel_list(s@, i as int) implies sp_elems(
                    s@,
                    i as int,
                    f,
                ) is None by {
                    assert(sp_value(s@, i as int, (f - 1) as nat) is None);
                }
            }
            None
        },
        Some((v, j)) => {
            proof {
                lemma_skip_ws(s@, j as int);
            }
            let k = ws_end(s, j);
            if k < s.len() && s[k] == ',' {
                match parse_elems(s, k + 1) {
                    None => {
                        proof {
                            assert forall|f: nat| f >= fuel_list(s@, i as int) implies sp_elems(
                                s@,
                                i as int,
                                f,
                            ) is None by {
                                assert(sp_value(s@, i as int, (f - 1) as nat) == Some(
                                    (v@, j as int),
                                ));
                                assert(sp_elems(s@, k + 1, (f - 1) as nat) is None);
                            }
                        }
                        None
                    },
                    Some((mut vs, m)) => {
                        let ghost old_vs = vs@;
                        vs.insert(0, v);
                        proof {
                            lemma_view_arr(vs@);
                            lemma_view_arr(old_vs);
                            assert(view_arr(vs@) =~= seq![v@] + view_arr(old_vs));
                        }
                        proof {
                            assert forall|f: nat| f >= fuel_list(s@, i as int) implies sp_elems(
                                s@,
                                i as int,
                                f,
                            ) == Some((view_arr(vs@), m as int)) by {
                                assert(sp_value(s@, i as int, (f - 1) as nat) == Some(
                                    (v@, j as int),
                                ));
                                assert(sp_elems(s@, k + 1, (f - 1) as nat) == Some(
                                    (view_arr(old_vs), m as int),
                                ));
                            }
                        }
                        Some((vs, m))
                    },
                }
            } else if k < s.len() && s[k] == ']' {
                let mut vs: Vec<JsonValue> = Vec::new();
                vs.push(v);
                proof {
                    lemma_view_arr(vs@);
                    assert(view_arr(vs@) =~= seq![v@]);
                    assert forall|f: nat| f >= fuel_list(s@, i as int) implies sp_elems(
                        s@,
                        i as int,
                        f,
                    ) == Some((view_arr(vs@), (k + 1) as int)) by {
                        assert(sp_value(s@, i as int, (f - 1) as nat) == Some((v@, j as int)));
                    }
                }
                Some((vs, k + 1))
            } else {
                proof {
                    assert forall|f: nat| f >= fuel_list(s@, i as int) implies sp_elems(
                        s@,
                        i as int,
                        f,
                    ) is None by {
                        assert(sp_value(s@, i as int, (f - 1) as nat) == Some((v@, j as int)));
                    }
                }
                None
            }
        },
    }
}

/// Parse a non-empty, comma-separated member list and its closing `}`.
pub fn parse_members(s: &Vec<char>, i: usize) -> (r: Option<(Vec<(String, JsonValue)>, usize)>)
    requires
        i <= s@.len(),
    ensures
        match r {
            Some((ms, m)) => i < m <= s@.len() && forall|f: nat|
                f >= fuel_list(s@, i as int) ==> sp_members(s@, i as int, f) == Some(
                    (view_obj(ms@), m as int),
                ),
            None => forall|f: nat|
                f >= fuel_list(s@, i as int) ==> sp_members(s@, i as int, f) is None,
        },
    decreases s@.len() - i, 1int,
{
    proof {
        lemma_skip_ws(s@, i as int);
    }
    let j = ws_end(s, i);
    if j >= s.len() || s[j] != '"' {
        return None;
    }
    proof {
        lemma_scan_str(s@, j + 1);
    }
    match str_end(s, j + 1) {
        None => None,
        Some(k) => {
            let key = substring(s, j + 1, k);
            proof {
                lemma_skip_ws(s@, k + 1);
            }
            let m = ws_end(s, k + 1);
            if m >= s.len() || s[m] != ':' {
                return None;
            }
            match parse_value(s, m + 1) {
                None => {
                    proof {
                        assert forall|f: nat| f >= fuel_list(s@, i as int) implies sp_members(
                            s@,
                            i as int,
                            f,
                        ) is None by {
                            assert(sp_value(s@, m + 1, (f - 1) as nat) is None);
                        }
                    }
                    None
                },
                Some((v, p)) => {
                    proof {
                        lemma_skip_ws(s@, p as int);
                    }
                    let q = ws_end(s, p);
                    if q < s.len() && s[q] == ',' {
                        match parse_members(s, q + 1) {
                            None => {
                                proof {
                                    assert forall|f: nat| f >= fuel_list(
                                        s@,
                                        i as int,
                                    ) implies sp_members(s@, i as int, f) is None by {
                                        assert(sp_value(s@, m + 1, (f - 1) as nat) == Some(
                                            (v@, p as int),
                                        ));
                                        assert(sp_members(s@, q + 1, (f - 1) as nat) is None);
                                    }
                                }
                                None
                            },
                            Some((mut ms, e)) => {
                                let ghost old_ms = ms@;
                                ms.insert(0, (key, v));
                                proof {
                                    lemma_view_obj(ms@);
                                    lemma_view_obj(old_ms);
                                    assert(view_obj(ms@) =~= seq![(key@, v@)] + view_obj(old_ms));
                                }
                                proof {
                                    assert forall|f: nat| f >= fuel_list(
                                        s@,
                                        i as int,
                                    ) implies sp_members(s@, i as int, f) == Some(
                                        (view_obj(ms@), e as int),
                                    ) by {
                                        assert(sp_value(s@, m + 1, (f - 1) as nat) == Some(
                                            (v@, p as int),
                                        ));
                                        assert(sp_members(s@, q + 1, (f - 1) as nat) == Some(
                                            (view_obj(old_ms), e as int),
                                        ));
                                    }
                                }
                                Some((ms, e))
                            },
                        }
                    } else if q < s.len() && s[q] == '}' {
                        let mut ms: Vec<(String, JsonValue)> = Vec::new();
                        ms.push((key, v));
                        proof {
                            lemma_view_obj(ms@);
                            assert(view_obj(ms@) =~= seq![(key@, v@)]);
                            assert forall|f: nat| f >= fuel_list(s@, i as int) implies sp_members(
                                s@,
                                i as int,
                                f,
                            ) == Some((view_obj(ms@), (q + 1) as int)) by {
                                assert(sp_value(s@, m + 1, (f - 1) as nat) == Some((v@, p as int)));
                            }
                        }
                        Some((ms, q + 1))
                    } else {
                        proof {
                            assert forall|f: nat| f >= fuel_list(s@, i as int) implies sp_members(
                                s@,
                                i as int,
                                f,
                            ) is None by {
                                assert(sp_value(s@, m + 1, (f - 1) as nat) == Some((v@, p as int)));
                            }
                        }
                        None
                    }
                },
            }
        },
    }
}

/// Parse a whole document held in `s`: one JSON value with nothing but
/// whitespace around it.
pub fn parse_chars(s: &Vec<char>) -> (r: Option<JsonValue>)
    ensures
        match r {
            Some(v) => sp_doc(s@) == Some(v@),
            None => sp_doc(s@) is None,
        },
{
    match parse_value(s, 0) {
        None => None,
        Some((v, j)) => {
            proof {
                lemma_skip_ws(s@, j as int);
            }
            let e = ws_end(s, j);
            if e >= s.len() {
                Some(v)
            } else {
                None
            }
        },
    }
}

/// Parse a JSON document from a string.
pub fn parse_text(s: &str) -> (r: Option<JsonValue>)
    ensures
        match r {
            Some(v) => sp_doc(s@) == Some(v@),
            None => sp_doc(s@) is None,
        },
{
    let chars = crate::text::to_chars(s);
    parse_chars(&chars)
}

/// Index of the first member of `ms` whose key is `key`, or -1.
pub open spec fn obj_index(ms: Seq<(Seq<char>, SpecJson)>, key: Seq<char>) -> int
    decreases ms,
{
    if ms.len() == 0 {
        -1
    } else if ms[0].0 == key {
        0
    } else {
        let r = obj_index(ms.drop_first(), key);
        if r == -1 {
            -1
        } else {
            r + 1
        }
    }
}

pub proof fn lemma_obj_index(ms: Seq<(Seq<char>, SpecJson)>, key: Seq<char>)
    ensures
        -1 <= obj_index(ms, key) < ms.len(),
        obj_index(ms, key) >= 0 ==> ms[obj_index(ms, key)].0 == key,
        obj_index(ms, key) >= 0 ==> forall|i: int|
            0 <= i < obj_index(ms, key) ==> ms[i].0 != key,
        obj_index(ms, key) == -1 ==> forall|i: int| 0 <= i < ms.len() ==> ms[i].0 != key,
    decreases ms,
{
    if ms.len() > 0 && ms[0].0 != key {
        let t = ms.drop_first();
        lemma_obj_index(t, key);
        assert(forall|i: int| 0 <= i < t.len() ==> t[i] == ms[i + 1]);
        let r = obj_index(t, key);
        if r >= 0 {
            assert(obj_index(ms, key) == r + 1);
            assert(ms[r + 1] == t[r]);
            assert forall|i: int| 0 <= i < r + 1 implies ms[i].0 != key by {
                if i > 0 {
                    assert(ms[i] == t[i - 1]);
                }
            }
        } else {
            assert forall|i: int| 0 <= i < ms.len() implies ms[i].0 != key by {
                if i > 0 {
                    assert(ms[i] == t[i - 1]);
                }
            }
        }
    }
}

/// The value of the first member named `key`, if any.
pub open spec fn obj_lookup(ms: Seq<(Seq<char>, SpecJson)>, key: Seq<char>) -> Option<SpecJson> {
    let i = obj_index(ms, key);
    if i >= 0 {
        Some(ms[i].1)
    } else {
        None
    }
}

/// `ms` with the first member named `key` (which must exist) set to `nv`.
pub open spec fn obj_update(
    ms: Seq<(Seq<char>, SpecJson)>,
    key: Seq<char>,
    nv: SpecJson,
) -> Seq<(Seq<char>, SpecJson)> {
    let i = obj_index(ms, key);
    if i >= 0 {
        ms.update(i, (ms[i].0, nv))
    } else {
        ms
    }
}

/// The value reached from `v` by the given member keys, if every step
/// goes through an object that has the key.
pub open spec fn get_path(v: SpecJson, path: Seq<Seq<char>>) -> Option<SpecJson>
    decreases path.len(),
{
    if path.len() == 0 {
        Some(v)
    } else {
        match v {
            SpecJson::Obj(ms) => match obj_lookup(ms, path[0]) {
                Some(child) => get_path(child, path.drop_first()),
                None => None,
            },
            _ => None,
        }
    }
}

/// `v` with the value at `path` replaced by `nv`; `v` unchanged where the
/// path does not resolve.
pub open spec fn set_path(v: SpecJson, path: Seq<Seq<char>>, nv: SpecJson) -> SpecJson
    decreases path.len(),
{
    if path.len() == 0 {
        nv
    } else {
        match v {
            SpecJson::Obj(ms) => match obj_lookup(ms, path[0]) {
                Some(child) => SpecJson::Obj(
                    obj_update(ms, path[0], set_path(child, path.drop_first(), nv)),
                ),
                None => v,
            },
            _ => v,
        }
    }
}

/// Reading back a freshly written path gives the written value.
pub proof fn lemma_get_set(v: SpecJson, path: Seq<Seq<char>>, nv: SpecJson)
    requires
        get_path(v, path) is Some,
    ensures
        get_path(set_path(v, path, nv), path) == Some(nv),
    decreases path.len(),
{
    if path.len() > 0 {
        match v {
            SpecJson::Obj(ms) => {
                lemma_obj_index(ms, path[0]);
                let i = obj_index(ms, path[0]);
                let child = ms[i].1;
                let ms2 = obj_update(ms, path[0], set_path(child, path.drop_first(), nv));
                lemma_obj_index_update(ms, path[0], set_path(child, path.drop_first(), nv));
                lemma_get_set(child, path.drop_first(), nv);
            },
            _ => {},
        }
    }
}

/// Updating a key does not move it: the first index of `key` is unchanged,
/// and other members keep their place.
pub proof fn lemma_obj_index_update(ms: Seq<(Seq<char>, SpecJson)>, key: Seq<char>, nv: SpecJson)
    requires
        obj_index(ms, key) >= 0,
    ensures
        obj_index(obj_update(ms, key, nv), key) == obj_index(ms, key),
        obj_update(ms, key, nv).len() == ms.len(),
        obj_update(ms, key, nv)[obj_index(ms, key)] == (ms[obj_index(ms, key)].0, nv),
    decreases ms,
{
    lemma_obj_index(ms, key);
    let i = obj_index(ms, key);
    let ms2 = obj_update(ms, key, nv);
    lemma_obj_index(ms2, key);
    assert(ms2[i].0 == key);
    assert forall|k: int| 0 <= k < i implies ms2[k].0 != key by {
        assert(ms2[k] == ms[k]);
    }
    lemma_obj_index_frame(ms2, key, i);
}

/// If `ms[i].0 == key` and no earlier member has that key, then `i` is the
/// first index of `key`.
pub proof fn lemma_obj_index_frame(ms: Seq<(Seq<char>, SpecJson)>, key: Seq<char>, i: int)
    requires
        0 <= i < ms.len(),
        ms[i].0 == key,
        forall|k: int| 0 <= k < i ==> ms[k].0 != key,
    ensures
        obj_index(ms, key) == i,
    decreases ms,
{
    if i > 0 {
        assert(ms[0].0 != key);
        lemma_obj_index_frame(ms.drop_first(), key, i - 1);
    }
}

/// Writing back the value already at a path leaves the document unchanged.
pub proof fn lemma_set_same(v: SpecJson, path: Seq<Seq<char>>, x: SpecJson)
    requires
        get_path(v, path) == Some(x),
    ensures
        set_path(v, path, x) == v,
    decreases path.len(),
{
    if path.len() > 0 {
        match v {
            SpecJson::Obj(ms) => {
                lemma_obj_index(ms, path[0]);
                let i = obj_index(ms, path[0]);
                let child = ms[i].1;
                lemma_set_same(child, path.drop_first(), x);
                assert(obj_update(ms, path[0], child) =~= ms);
                assert(SpecJson::Obj(obj_update(ms, path[0], child)) == v);
            },
            _ => {},
        }
    }
}

impl JsonValue {
    /// A value equal to `self` (a deep copy).
    pub fn duplicate(&self) -> (r: JsonValue)
        ensures
            r@ == self@,
        decreases self, 0int,
    {
        match self {
            JsonValue::Null => JsonValue::Null,
            JsonValue::Bool(b) => JsonValue::Bool(*b),
            JsonValue::Num(s) => JsonValue::Num(s.clone()),
            JsonValue::Str(s) => JsonValue::Str(s.clone()),
            JsonValue::Arr(xs) => JsonValue::Arr(dup_elems(xs)),
            JsonValue::Obj(ms) => JsonValue::Obj(dup_members(ms)),
        }
    }
}

/// Deep copy of a vector of values.
pub fn dup_elems(xs: &Vec<JsonValue>) -> (r: Vec<JsonValue>)
    ensures
        view_arr(r@) == view_arr(xs@),
        r@.len() == xs@.len(),
    decreases *xs, xs@.len(),
{
    let mut r: Vec<JsonValue> = Vec::new();
    let mut i: usize = 0;
    proof {
        lemma_view_arr(xs@);
    }
    while i < xs.len()
        invariant
            i <= xs@.len(),
            r@.len() == i,
            forall|k: int| 0 <= k < i ==> view_json(r@[k]) == view_json(xs@[k]),
            forall|k: int|
                0 <= k < xs@.len() ==> view_arr(xs@)[k] == view_json(xs@[k]) && view_arr(
                    xs@,
                ).len() == xs@.len(),
        decreases xs@.len() - i,
    {
        proof {
            assert(decreases_to!(*xs => xs@));
            assert(decreases_to!(xs@ => xs@[i as int]));
        }
        let d = xs[i].duplicate();
        r.push(d);
        i += 1;
    }
    proof {
        lemma_view_arr(r@);
        assert(view_arr(r@) =~= view_arr(xs@));
    }
    r
}

/// Deep copy of a vector of members.
pub fn dup_members(ms: &Vec<(String, JsonValue)>) -> (r: Vec<(String, JsonValue)>)
    ensures
        view_obj(r@) == view_obj(ms@),
        r@.len() == ms@.len(),
    decreases *ms, ms@.len(),
{
    let mut r: Vec<(String, JsonValue)> = Vec::new();
    let mut i: usize = 0;
    proof {
        lemma_view_obj(ms@);
    }
    while i < ms.len()
        invariant
            i <= ms@.len(),
            r@.len() == i,
            forall|k: int|
                0 <= k < i ==> r@[k].0@ == ms@[k].0@ && view_json(r@[k].1) == view_json(ms@[k].1),
            forall|k: int|
                0 <= k < ms@.len() ==> view_obj(ms@)[k] == (ms@[k].0@, view_json(ms@[k].1))
                    && view_obj(ms@).len() == ms@.len(),
        decreases ms@.len() - i,
    {
        let key = ms[i].0.clone();
        proof {
            assert(decreases_to!(*ms => ms@));
            assert(decreases_to!(ms@ => ms@[i as int]));
            assert(decreases_to!(ms@[i as int] => ms@[i as int].1));
        }
        let d = ms[i].1.duplicate();
        r.push((key, d));
        i += 1;
    }
    proof {
        lemma_view_obj(r@);
        assert(view_obj(r@) =~= view_obj(ms@));
    }
    r
}

/// Index of the first member of `ms` whose key equals `key`, if any.
pub fn obj_find(ms: &Vec<(String, JsonValue)>, key: &String) -> (r: Option<usize>)
    ensures
        match r {
            Some(i) => i < ms@.len() && obj_index(view_obj(ms@), key@) == i as int,
            None => obj_index(view_obj(ms@), key@) == -1,
        },
{
    proof {
        lemma_view_obj(ms@);
        lemma_obj_index(view_obj(ms@), key@);
    }
    let mut i: usize = 0;
    while i < ms.len()
        invariant
            i <= ms@.len(),
            forall|k: int| 0 <= k < i ==> view_obj(ms@)[k].0 != key@,
            view_obj(ms@).len() == ms@.len(),
            forall|k: int|
                0 <= k < ms@.len() ==> view_obj(ms@)[k] == (ms@[k].0@, view_json(ms@[k].1)),
            -1 <= obj_index(view_obj(ms@), key@) < ms@.len(),
            obj_index(view_obj(ms@), key@) >= 0 ==> view_obj(ms@)[obj_index(
                view_obj(ms@),
                key@,
            )].0 == key@,
            obj_index(view_obj(ms@), key@) == -1 ==> forall|k: int|
                0 <= k < ms@.len() ==> view_obj(ms@)[k].0 != key@,
        decreases ms@.len() - i,
    {
        if ms[i].0 == *key {
            proof {
                lemma_obj_index_frame(view_obj(ms@), key@, i as int);
            }
            return Some(i);
        }
        i += 1;
    }
    None
}

/// Mathematical model of a JSON value: scalar tokens are raw character
/// sequences, composites are sequences of models.
#[verifier::ext_equal]
pub enum SpecJson {
    Null,
    Bool(bool),
    Num(Seq<char>),
    Str(Seq<char>),
    Arr(Seq<SpecJson>),
    Obj(Seq<(Seq<char>, SpecJson)>),
}

/// A JSON value. `Num` and `Str` hold the raw token text (for strings: the
/// characters between the quotes, escapes kept as written). `Obj` keeps
/// member order as written.
#[derive(Debug)]
pub enum JsonValue {
    Null,
    Bool(bool),
    Num(String),
    Str(String),
    Arr(Vec<JsonValue>),
    Obj(Vec<(String, JsonValue)>),
}

pub open spec fn view_arr(xs: Seq<JsonValue>) -> Seq<SpecJson>
    decreases xs,
{
    if xs.len() == 0 {
        Seq::empty()
    } else {
        seq![view_json(xs[0])] + view_arr(xs.drop_first())
    }
}

pub open spec fn view_obj(ms: Seq<(String, JsonValue)>) -> Seq<(Seq<char>, SpecJson)>
    decreases ms,
{
    if ms.len() == 0 {
        Seq::empty()
    } else {
        seq![(ms[0].0@, view_json(ms[0].1))] + view_obj(ms.drop_first())
    }
}

pub open spec fn view_json(v: JsonValue) -> SpecJson
    decreases v,
{
    match v {
        JsonValue::Null => SpecJson::Null,
        JsonValue::Bool(b) => SpecJson::Bool(b),
        JsonValue::Num(s) => SpecJson::Num(s@),
        JsonValue::Str(s) => SpecJson::Str(s@),
        JsonValue::Arr(xs) => SpecJson::Arr(view_arr(xs@)),
        JsonValue::Obj(ms) => SpecJson::Obj(view_obj(ms@)),
    }
}

impl View for JsonValue {
    type V = SpecJson;

    open spec fn view(&self) -> SpecJson {
        view_json(*self)
    }
}

/// The two sequence views are pointwise views of their elements.
pub proof fn lemma_view_arr(xs: Seq<JsonValue>)
    ensures
        view_arr(xs).len() == xs.len(),
        forall|i: int| 0 <= i < xs.len() ==> view_arr(xs)[i] == view_json(xs[i]),
    decreases xs,
{
    if xs.len() > 0 {
        lemma_view_arr(xs.drop_first());
    }
}

/// Pointwise description of `view_obj`.
pub proof fn lemma_view_obj(ms: Seq<(String, JsonValue)>)
    ensures
        view_obj(ms).len() == ms.len(),
        forall|i: int| 0 <= i < ms.len() ==> view_obj(ms)[i] == (ms[i].0@, view_json(ms[i].1)),
    decreases ms,
{
    if ms.len() > 0 {
        lemma_view_obj(ms.drop_first());
    }
}

/// Compact serialization of a JSON value: no whitespace, raw tokens emitted
/// verbatim, members and elements in order.
pub open spec fn ser_json(v: SpecJson) -> Seq<char>
    decreases v,
{
    match v {
        SpecJson::Null => seq!['n', 'u', 'l', 'l'],
        SpecJson::Bool(b) => if b {
            seq!['t', 'r', 'u', 'e']
        } else {
            seq!['f', 'a', 'l', 's', 'e']
        },
        SpecJson::Num(s) => s,
        SpecJson::Str(s) => seq!['"'] + s + seq!['"'],
        SpecJson::Arr(xs) => seq!['['] + ser_elems(xs) + seq![']'],
        SpecJson::Obj(ms) => seq!['{'] + ser_members(ms) + seq!['}'],
    }
}

/// Comma-separated serialization of array elements.
pub open spec fn ser_elems(xs: Seq<SpecJson>) -> Seq<char>
    decreases xs,
{
    if xs.len() == 0 {
        Seq::empty()
    } else if xs.len() == 1 {
        ser_json(xs[0])
    } else {
        ser_json(xs[0]) + seq![','] + ser_elems(xs.drop_first())
    }
}

/// Comma-separated serialization of object members.
pub open spec fn ser_members(ms: Seq<(Seq<char>, SpecJson)>) -> Seq<char>
    decreases ms,
{
    if ms.len() == 0 {
        Seq::empty()
    } else if ms.len() == 1 {
        ser_member(ms[0])
    } else {
        ser_member(ms[0]) + seq![','] + ser_members(ms.drop_first())
    }
}

/// One object member: quoted raw key, colon, value.
pub open spec fn ser_member(m: (Seq<char>, SpecJson)) -> Seq<char>
    decreases m,
{
    seq!['"'] + m.0 + seq!['"', ':'] + ser_json(m.1)
}

impl JsonValue {
    /// Append the compact serialization of `self` to `out`.
    pub fn write(&self, out: &mut String)
        ensures
            final(out)@ == old(out)@ + ser_json(self@),
        decreases self, 0int,
    {
        match self {
            JsonValue::Null => {
                push_char(out, 'n');
                push_char(out, 'u');
                push_char(out, 'l');
                push_char(out, 'l');
                proof {
                    assert(out@ =~= old(out)@ + ser_json(self@));
                }
            },
            JsonValue::Bool(b) => {
                if *b {
                    push_char(out, 't');
                    push_char(out, 'r');
                    push_char(out, 'u');
                    push_char(out, 'e');
                } else {
                    push_char(out, 'f');
                    push_char(out, 'a');
                    push_char(out, 'l');
                    push_char(out, 's');
                    push_char(out, 'e');
                }
                proof {
                    assert(out@ =~= old(out)@ + ser_json(self@));
                }
            },
            JsonValue::Num(s) => {
                append_str(out, s);
                proof {
                    assert(out@ =~= old(out)@ + ser_json(self@));
                }
            },
            JsonValue::Str(s) => {
                push_char(out, '"');
                append_str(out, s);
                push_char(out, '"');
                proof {
                    assert(out@ =~= old(out)@ + ser_json(self@));
                }
            },
            JsonValue::Arr(xs) => {
                push_char(out, '[');
                write_elems(xs, 0, out);
                push_char(out, ']');
                proof {
                    assert(view_arr(xs@).subrange(0, view_arr(xs@).len() as int) =~= view_arr(
                        xs@,
                    ));
                    assert(out@ =~= old(out)@ + ser_json(self@));
                }
            },
            JsonValue::Obj(ms) => {
                push_char(out, '{');
                write_members(ms, 0, out);
                push_char(out, '}');
                proof {
                    assert(view_obj(ms@).subrange(0, view_obj(ms@).len() as int) =~= view_obj(
                        ms@,
                    ));
                    assert(out@ =~= old(out)@ + ser_json(self@));
                }
            },
        }
    }

    /// The compact serialization of `self`, as a string.
    pub fn to_text(&self) -> (r: String)
        ensures
            r@ == ser_json(self@),
    {
        let mut out = String::new();
        self.write(&mut out);
        out
    }
}

/// Append a copy of `s` to `out`.
fn append_str(out: &mut String, s: &String)
    ensures
        final(out)@ == old(out)@ + s@,
{
    let mut i: usize = 0;
    let chars = crate::text::to_chars(s.as_str());
    while i < chars.len()
        invariant
            i <= chars@.len(),
            chars@ == s@,
            out@ == old(out)@ + s@.subrange(0, i as int),
        decreases chars@.len() - i,
    {
        push_char(out, chars[i]);
        i += 1;
        proof {
            assert(out@ =~= old(out)@ + s@.subrange(0, i as int));
        }
    }
    proof {
        assert(out@ =~= old(out)@ + s@);
    }
}

/// Append the serializations of `xs[i..]`, comma-separated, to `out`.
fn write_elems(xs: &Vec<JsonValue>, i: usize, out: &mut String)
    requires
        i <= xs@.len(),
    ensures
        final(out)@ == old(out)@ + ser_elems(view_arr(xs@).subrange(i as int, view_arr(xs@).len() as int)),
    decreases *xs, xs@.len() - i,
{
    proof {
        lemma_view_arr(xs@);
    }
    if i < xs.len() {
        proof {
            assert(decreases_to!(*xs => xs@));
            assert(decreases_to!(xs@ => xs@[i as int]));
        }
        xs[i].write(out);
        if i + 1 < xs.len() {
            push_char(out, ',');
        }
        write_elems(xs, i + 1, out);
        proof {
            let vs = view_arr(xs@);
            let tail = vs.subrange(i as int, vs.len() as int);
            assert(tail.drop_first() =~= vs.subrange(i + 1, vs.len() as int));
            assert(tail[0] == view_json(xs@[i as int]));
            assert(out@ =~= old(out)@ + ser_elems(tail));
        }
    } else {
        proof {
            assert(view_arr(xs@).subrange(i as int, view_arr(xs@).len() as int) =~= Seq::<
                SpecJson,
            >::empty());
        }
    }
}

/// Append the serializations of `ms[i..]`, comma-separated, to `out`.
fn write_members(ms: &Vec<(String, JsonValue)>, i: usize, out: &mut String)
    requires
        i <= ms@.len(),
    ensures
        final(out)@ == old(out)@ + ser_members(
            view_obj(ms@).subrange(i as int, view_obj(ms@).len() as int),
        ),
    decreases *ms, ms@.len() - i,
{
    proof {
        lemma_view_obj(ms@);
    }
    if i < ms.len() {
        push_char(out, '"');
        append_str(out, &ms[i].0);
        push_char(out, '"');
        push_char(out, ':');
        proof {
            assert(decreases_to!(*ms => ms@));
            assert(decreases_to!(ms@ => ms@[i as int]));
            assert(decreases_to!(ms@[i as int] => ms@[i as int].1));
        }
        ms[i].1.write(out);
        if i + 1 < ms.len() {
            push_char(out, ',');
        }
        write_members(ms, i + 1, out);
        proof {
            let vs = view_obj(ms@);
            let tail = vs.subrange(i as int, vs.len() as int);
            assert(tail.drop_first() =~= vs.subrange(i + 1, vs.len() as int));
            assert(tail[0] == (ms@[i as int].0@, view_json(ms@[i as int].1)));
            assert(ser_member(tail[0]) =~= seq!['"'] + ms@[i as int].0@ + seq!['"', ':']
                + ser_json(view_json(ms@[i as int].1)));
            assert(out@ =~= old(out)@ + ser_members(tail));
        }
    } else {
        proof {
            assert(view_obj(ms@).subrange(i as int, view_obj(ms@).len() as int) =~= Seq::<
                (Seq<char>, SpecJson),
            >::empty());
        }
    }
}

/// Follow the member keys `path[pi..]` down from `v`.
pub fn get_at_path<'a>(v: &'a JsonValue, path: &Vec<String>, pi: usize) -> (r: Option<
    &'a JsonValue,
>)
    requires
        pi <= path@.len(),
    ensures
        match r {
            Some(c) => get_path(v@, path_view(path@).skip(pi as int)) == Some(c@),
            None => get_path(v@, path_view(path@).skip(pi as int)) is None,
        },
    decreases path@.len() - pi,
{
    let ghost p = path_view(path@).skip(pi as int);
    if pi == path.len() {
        proof {
            assert(p =~= Seq::<Seq<char>>::empty());
        }
        return Some(v);
    }
    proof {
        assert(p[0] == path@[pi as int]@);
        assert(p.drop_first() =~= path_view(path@).skip(pi + 1));
    }
    match v {
        JsonValue::Obj(ms) => {
            proof {
                lemma_view_obj(ms@);
            }
            match obj_find(ms, &path[pi]) {
                Some(i) => {
                    let child = &ms[i].1;
                    proof {
                        assert(obj_lookup(view_obj(ms@), p[0]) == Some(view_json(ms@[i as int].1)));
                    }
                    get_at_path(child, path, pi + 1)
                },
                None => None,
            }
        },
        _ => None,
    }
}

/// `v` with the value at `path[pi..]` (which must resolve) replaced by `nv`.
pub fn set_at_path(v: &JsonValue, path: &Vec<String>, pi: usize, nv: JsonValue) -> (r: JsonValue)
    requires
        pi <= path@.len(),
        get_path(v@, path_view(path@).skip(pi as int)) is Some,
    ensures
        r@ == set_path(v@, path_view(path@).skip(pi as int), nv@),
    decreases path@.len() - pi,
{
    let ghost p = path_view(path@).skip(pi as int);
    if pi == path.len() {
        proof {
            assert(p =~= Seq::<Seq<char>>::empty());
        }
        return nv;
    }
    proof {
        assert(p[0] == path@[pi as int]@);
        assert(p.drop_first() =~= path_view(path@).skip(pi + 1));
    }
    match v {
        JsonValue::Obj(ms) => {
            proof {
                lemma_view_obj(ms@);
            }
            match obj_find(ms, &path[pi]) {
                Some(i) => {
                    proof {
                        assert(obj_lookup(view_obj(ms@), p[0]) == Some(view_json(ms@[i as int].1)));
                    }
                    let new_child = set_at_path(&ms[i].1, path, pi + 1, nv);
                    let key = ms[i].0.clone();
                    let mut out = dup_members(ms);
                    proof {
                        lemma_view_obj(out@);
                    }
                    out.set(i, (key, new_child));
                    proof {
                        lemma_view_obj(out@);
                        lemma_obj_index_update(
                            view_obj(ms@),
                            p[0],
                            set_path(view_json(ms@[i as int].1), p.drop_first(), nv@),
                        );
                        assert(view_obj(out@) =~= obj_update(
                            view_obj(ms@),
                            p[0],
                            set_path(view_json(ms@[i as int].1), p.drop_first(), nv@),
                        ));
                    }
                    JsonValue::Obj(out)
                },
                None => unreached(),
            }
        },
        _ => unreached(),
    }
}

/// Raw string contents that scan cleanly: no bare quote, and every
/// backslash is followed by one more character.
pub open spec fn raw_ok(s: Seq<char>) -> bool
    decreases s.len(),
{
    if s.len() == 0 {
        true
    } else if s[0] == '"' {
        false
    } else if s[0] == '\\' {
        s.len() >= 2 && raw_ok(s.subrange(2, s.len() as int))
    } else {
        raw_ok(s.subrange(1, s.len() as int))
    }
}

/// A well-formed value: its raw tokens are tokens the grammar reads back.
/// Numbers are non-empty runs of number characters starting like a number;
/// string and key raws scan to their own closing quote.
pub open spec fn wf_json(v: SpecJson) -> bool
    decreases v, 0int,
{
    match v {
        SpecJson::Null => true,
        SpecJson::Bool(_) => true,
        SpecJson::Num(s) => s.len() >= 1 && (s[0] == '-' || ('0' <= s[0] && s[0] <= '9'))
            && (forall|k: int| 0 <= k < s.len() ==> is_num_char(#[trigger] s[k])),
        SpecJson::Str(s) => raw_ok(s),
        SpecJson::Arr(xs) => wf_arr(xs),
        SpecJson::Obj(ms) => wf_obj(ms),
    }
}

pub open spec fn wf_arr(xs: Seq<SpecJson>) -> bool
    decreases xs, 1int,
{
    if xs.len() == 0 {
        true
    } else {
        wf_json(xs[0]) && wf_arr(xs.drop_first())
    }
}

pub open spec fn wf_obj(ms: Seq<(Seq<char>, SpecJson)>) -> bool
    decreases ms, 1int,
{
    if ms.len() == 0 {
        true
    } else {
        raw_ok(ms[0].0) && wf_json(ms[0].1) && wf_obj(ms.drop_first())
    }
}

/// A maximal run of number characters scans to its own end.
proof fn lemma_scan_num_run(s: Seq<char>, i: int, e: int)
    requires
        0 <= i <= e <= s.len(),
        forall|k: int| i <= k < e ==> is_num_char(#[trigger] s[k]),
        e < s.len() ==> !is_num_char(s[e]),
    ensures
        scan_num(s, i) == e,
    decreases e - i,
{
    if i < e {
        lemma_scan_num_run(s, i + 1, e);
    }
}

/// Clean raw contents scan to the closing quote right after them.
proof fn lemma_scan_str_run(s: Seq<char>, i: int, raw: Seq<char>)
    requires
        0 <= i,
        i + raw.len() < s.len(),
        raw_ok(raw),
        forall|k: int| 0 <= k < raw.len() ==> s[i + k] == #[trigger] raw[k],
        s[i + raw.len()] == '"',
    ensures
        scan_str(s, i) == Some(i + raw.len()),
    decreases raw.len(),
{
    if raw.len() == 0 {
    } else if raw[0] == '\\' {
        let rest = raw.subrange(2, raw.len() as int);
        assert(forall|k: int| 0 <= k < rest.len() ==> s[i + 2 + k] == #[trigger] rest[k]);
        lemma_scan_str_run(s, i + 2, rest);
    } else {
        let rest = raw.subrange(1, raw.len() as int);
        assert(forall|k: int| 0 <= k < rest.len() ==> s[i + 1 + k] == #[trigger] rest[k]);
        lemma_scan_str_run(s, i + 1, rest);
    }
}

/// Contents without quotes or backslashes are clean raw string contents.
pub proof fn lemma_raw_ok_plain(s: Seq<char>)
    requires
        forall|k: int| 0 <= k < s.len() ==> s[k] != '"' && #[trigger] s[k] != '\\',
    ensures
        raw_ok(s),
    decreases s.len(),
{
    if s.len() > 0 {
        let t = s.subrange(1, s.len() as int);
        assert(forall|k: int| 0 <= k < t.len() ==> #[trigger] t[k] == s[k + 1]);
        lemma_raw_ok_plain(t);
    }
}

/// The serialization of a well-formed value is non-empty and starts with a
/// character that is neither whitespace nor a closing bracket.
proof fn lemma_ser_first(v: SpecJson)
    requires
        wf_json(v),
    ensures
        ser_json(v).len() >= 1,
        !is_ws(ser_json(v)[0]),
        ser_json(v)[0] != ']',
        ser_json(v)[0] != ',',
{
    match v {
        SpecJson::Num(s) => {
            assert(ser_json(v)[0] == s[0]);
        },
        _ => {},
    }
}

/// Parsing at `i` of a text that carries the serialization of a
/// well-formed value, followed by anything that cannot extend a number
/// token, reads back exactly that value.
proof fn rt_value(s: Seq<char>, i: int, v: SpecJson)
    requires
        wf_json(v),
        0 <= i,
        i + ser_json(v).len() <= s.len(),
        forall|k: int| 0 <= k < ser_json(v).len() ==> s[i + k] == #[trigger] ser_json(v)[k],
        i + ser_json(v).len() < s.len() ==> !is_num_char(s[i + ser_json(v).len()]),
    ensures
        forall|fuel: nat|
            fuel >= fuel_value(s, i) ==> sp_value(s, i, fuel) == Some(
                (v, i + ser_json(v).len()),
            ),
    decreases v, 0int,
{
    let w = ser_json(v);
    let e = i + w.len();
    lemma_ser_first(v);
    assert(s[i] == w[0]);
    assert(skip_ws(s, i) == i);
    assert forall|fuel: nat| fuel >= fuel_value(s, i) implies sp_value(s, i, fuel) == Some(
        (v, e),
    ) by {
        match v {
            SpecJson::Null => {
                assert(s[i] == 'n' && s[i + 1] == 'u' && s[i + 2] == 'l' && s[i + 3] == 'l');
            },
            SpecJson::Bool(b) => {
                if b {
                    assert(s[i] == 't' && s[i + 1] == 'r' && s[i + 2] == 'u' && s[i + 3] == 'e');
                } else {
                    assert(s[i] == 'f' && s[i + 1] == 'a' && s[i + 2] == 'l' && s[i + 3] == 's'
                        && s[i + 4] == 'e');
                }
            },
            SpecJson::Num(raw) => {
                assert forall|k: int| i <= k < e implies is_num_char(#[trigger] s[k]) by {
                    assert(s[i + (k - i)] == w[k - i]);
                    assert(w[k - i] == raw[k - i]);
                }
                lemma_scan_num_run(s, i, e);
                assert(s.subrange(i, e) =~= raw);
            },
            SpecJson::Str(raw) => {
                assert(s[i] == '"');
                assert(forall|k: int| 0 <= k < raw.len() ==> w[1 + k] == #[trigger] raw[k]);
                assert(forall|k: int| 0 <= k < raw.len() ==> s[i + 1 + k] == #[trigger] raw[k]);
                assert(s[i + 1 + raw.len()] == w[raw.len() + 1 as int]);
                assert(w[raw.len() + 1 as int] == '"');
                lemma_scan_str_run(s, i + 1, raw);
                assert(s.subrange(i + 1, i + 1 + raw.len()) =~= raw);
            },
            SpecJson::Arr(xs) => {
                assert(s[i] == '[');
                if xs.len() == 0 {
                    assert(w =~= seq!['[', ']']);
                    assert(s[i + 1] == ']');
                    assert(skip_ws(s, i + 1) == i + 1);
                    assert(xs =~= Seq::<SpecJson>::empty());
                } else {
                    let body = ser_elems(xs);
                    assert(w =~= seq!['['] + body + seq![']']);
                    assert(forall|k: int| 0 <= k < body.len() ==> w[1 + k] == #[trigger] body[k]);
                    assert(forall|k: int|
                        0 <= k < body.len() ==> s[i + 1 + k] == #[trigger] body[k]);
                    assert(s[i + 1 + body.len()] == w[body.len() + 1 as int]);
                    assert(w[body.len() + 1 as int] == ']');
                    lemma_ser_first(xs[0]);
                    assert(body[0] == ser_json(xs[0])[0]);
                    assert(s[i + 1] == body[0]);
                    assert(skip_ws(s, i + 1) == i + 1);
                    rt_elems(s, i + 1, xs);
                    assert(fuel - 1 >= fuel_list(s, i + 1));
                    assert(sp_elems(s, i + 1, (fuel - 1) as nat) == Some(
                        (xs, i + 1 + body.len() + 1),
                    ));
                }
            },
            SpecJson::Obj(ms) => {
                assert(s[i] == '{');
                if ms.len() == 0 {
                    assert(w =~= seq!['{', '}']);
                    assert(s[i + 1] == '}');
                    assert(skip_ws(s, i + 1) == i + 1);
                    assert(ms =~= Seq::<(Seq<char>, SpecJson)>::empty());
                } else {
                    let body = ser_members(ms);
                    assert(w =~= seq!['{'] + body + seq!['}']);
                    assert(forall|k: int| 0 <= k < body.len() ==> w[1 + k] == #[trigger] body[k]);
                    assert(forall|k: int|
                        0 <= k < body.len() ==> s[i + 1 + k] == #[trigger] body[k]);
                    assert(s[i + 1 + body.len()] == w[body.len() + 1 as int]);
                    assert(w[body.len() + 1 as int] == '}');
                    let sm = ser_member(ms[0]);
                    let part1 = seq!['"'] + ms[0].0;
                    let part2 = part1 + seq!['"', ':'];
                    assert(sm == part2 + ser_json(ms[0].1));
                    assert(part1[0] == '"');
                    assert(part2[0] == part1[0]);
                    assert(sm[0] == part2[0]);
                    assert(body[0] == sm[0]) by {
                        if ms.len() > 1 {
                            assert(ser_members(ms) == ser_member(ms[0]) + seq![','] + ser_members(
                                ms.drop_first(),
                            ));
                            assert(body[0] == (ser_member(ms[0]) + seq![','])[0]);
                        }
                    }
                    assert(s[i + 1] == body[0]);
                    assert(s[i + 1] == '"');
                    assert(skip_ws(s, i + 1) == i + 1);
                    rt_members(s, i + 1, ms);
                    assert(fuel - 1 >= fuel_list(s, i + 1));
                    assert(sp_members(s, i + 1, (fuel - 1) as nat) == Some(
                        (ms, i + 1 + body.len() + 1),
                    ));
                }
            },
        }
    }
}

/// Parsing a serialized, comma-separated element list followed by `]`
/// reads back exactly those elements.
proof fn rt_elems(s: Seq<char>, i: int, xs: Seq<SpecJson>)
    requires
        wf_arr(xs),
        xs.len() >= 1,
        0 <= i,
        i + ser_elems(xs).len() + 1 <= s.len(),
        forall|k: int| 0 <= k < ser_elems(xs).len() ==> s[i + k] == #[trigger] ser_elems(xs)[k],
        s[i + ser_elems(xs).len()] == ']',
    ensures
        forall|fuel: nat|
            fuel >= fuel_list(s, i) ==> sp_elems(s, i, fuel) == Some(
                (xs, i + ser_elems(xs).len() + 1),
            ),
    decreases xs, 1int,
{
    let body = ser_elems(xs);
    let w0 = ser_json(xs[0]);
    let end0 = i + w0.len();
    if xs.len() == 1 {
        assert(body =~= w0);
        assert(forall|k: int| 0 <= k < w0.len() ==> s[i + k] == #[trigger] w0[k]);
        assert(s[end0] == ']');
        rt_value(s, i, xs[0]);
        assert forall|fuel: nat| fuel >= fuel_list(s, i) implies sp_elems(s, i, fuel) == Some(
            (xs, i + body.len() + 1),
        ) by {
            assert(fuel - 1 >= fuel_value(s, i));
            assert(sp_value(s, i, (fuel - 1) as nat) == Some((xs[0], end0)));
            assert(skip_ws(s, end0) == end0);
            assert(seq![xs[0]] =~= xs);
        }
    } else {
        let rest = ser_elems(xs.drop_first());
        assert(body =~= w0 + seq![','] + rest);
        assert(forall|k: int| 0 <= k < w0.len() ==> body[k] == #[trigger] w0[k]);
        assert(forall|k: int| 0 <= k < w0.len() ==> s[i + k] == #[trigger] w0[k]);
        assert(s[end0] == body[w0.len() as int]);
        assert(body[w0.len() as int] == ',');
        rt_value(s, i, xs[0]);
        assert(forall|k: int|
            0 <= k < rest.len() ==> body[w0.len() + 1 + k] == #[trigger] rest[k]);
        assert(forall|k: int| 0 <= k < rest.len() ==> s[end0 + 1 + k] == #[trigger] rest[k]);
        assert(s[end0 + 1 + rest.len()] == ']');
        rt_elems(s, end0 + 1, xs.drop_first());
        assert forall|fuel: nat| fuel >= fuel_list(s, i) implies sp_elems(s, i, fuel) == Some(
            (xs, i + body.len() + 1),
        ) by {
            assert(fuel - 1 >= fuel_value(s, i));
            assert(sp_value(s, i, (fuel - 1) as nat) == Some((xs[0], end0)));
            assert(skip_ws(s, end0) == end0);
            assert(fuel - 1 >= fuel_list(s, end0 + 1));
            assert(sp_elems(s, end0 + 1, (fuel - 1) as nat) == Some(
                (xs.drop_first(), end0 + 1 + rest.len() + 1),
            ));
            assert(seq![xs[0]] + xs.drop_first() =~= xs);
            assert(end0 + 1 + rest.len() + 1 == i + body.len() + 1);
        }
    }
}

/// Parsing a serialized, comma-separated member list followed by `}` reads
/// back exactly those members.
proof fn rt_members(s: Seq<char>, i: int, ms: Seq<(Seq<char>, SpecJson)>)
    requires
        wf_obj(ms),
        ms.len() >= 1,
        0 <= i,
        i + ser_members(ms).len() + 1 <= s.len(),
        forall|k: int|
            0 <= k < ser_members(ms).len() ==> s[i + k] == #[trigger] ser_members(ms)[k],
        s[i + ser_members(ms).len()] == '}',
    ensures
        forall|fuel: nat|
            fuel >= fuel_list(s, i) ==> sp_members(s, i, fuel) == Some(
                (ms, i + ser_members(ms).len() + 1),
            ),
    decreases ms, 1int,
{
    let body = ser_members(ms);
    let m0 = ser_member(ms[0]);
    let key = ms[0].0;
    let wv = ser_json(ms[0].1);
    let p1 = seq!['"'] + key;
    let p2 = p1 + seq!['"', ':'];
    assert(m0 =~= p2 + wv);
    assert(m0.len() == key.len() + 3 + wv.len());
    let kq = i + 1 + key.len();  // closing quote of the key
    let vstart = kq + 2;  // the value, after that quote and the colon
    let vend = vstart + wv.len();
    assert(body.len() >= m0.len()) by {
        if ms.len() > 1 {
            assert(body == m0 + seq![','] + ser_members(ms.drop_first()));
        }
    }
    assert(forall|k: int| 0 <= k < m0.len() ==> body[k] == #[trigger] m0[k]) by {
        if ms.len() > 1 {
            assert(body =~= m0 + seq![','] + ser_members(ms.drop_first()));
        }
    }
    assert forall|k: int| 0 <= k < m0.len() implies s[i + k] == #[trigger] m0[k] by {
        assert(0 <= k < ser_members(ms).len());
        assert(s[i + k] == ser_members(ms)[k]);
        assert(ser_members(ms)[k] == m0[k]);
    }
    assert(m0[0] == '"') by {
        assert(p1[0] == '"');
        assert(p2[0] == p1[0]);
    }
    assert(s[i + 0] == m0[0]);
    assert(s[i] == '"');
    assert(skip_ws(s, i) == i);
    assert forall|k: int| 0 <= k < key.len() implies m0[1 + k] == #[trigger] key[k] by {
        assert(p1[1 + k] == key[k]);
        assert(p2[1 + k] == p1[1 + k]);
        assert(m0[1 + k] == p2[1 + k]);
    }
    assert forall|k: int| 0 <= k < key.len() implies s[i + 1 + k] == #[trigger] key[k] by {
        assert(s[i + (1 + k)] == m0[1 + k]);
    }
    assert(m0[1 + key.len() as int] == '"') by {
        assert(p2[p1.len() as int] == '"');
        assert(m0[p1.len() as int] == p2[p1.len() as int]);
    }
    assert(s[i + (1 + key.len())] == m0[1 + key.len() as int]);
    assert(s[kq] == '"');
    lemma_scan_str_run(s, i + 1, key);
    assert(scan_str(s, i + 1) == Some(kq));
    assert(s.subrange(i + 1, kq) =~= key);
    assert(m0[key.len() + 2 as int] == ':') by {
        assert(p2[p1.len() + 1 as int] == ':');
        assert(m0[p1.len() + 1 as int] == p2[p1.len() + 1 as int]);
    }
    assert(s[i + (key.len() + 2)] == m0[key.len() + 2 as int]);
    assert(s[kq + 1] == ':');
    assert(skip_ws(s, kq + 1) == kq + 1);
    assert forall|k: int| 0 <= k < wv.len() implies m0[key.len() + 3 + k] == #[trigger] wv[k] by {
        assert(m0[p2.len() + k] == wv[k]);
    }
    assert forall|k: int| 0 <= k < wv.len() implies s[vstart + k] == #[trigger] wv[k] by {
        assert(s[i + (key.len() + 3 + k)] == m0[key.len() + 3 + k]);
    }
    if ms.len() == 1 {
        assert(body =~= m0);
        assert(s[vend] == '}');
        rt_value(s, vstart, ms[0].1);
        assert forall|fuel: nat| fuel >= fuel_list(s, i) implies sp_members(s, i, fuel) == Some(
            (ms, i + body.len() + 1),
        ) by {
            assert(fuel - 1 >= fuel_value(s, vstart));
            assert(sp_value(s, vstart, (fuel - 1) as nat) == Some((ms[0].1, vend)));
            assert(skip_ws(s, vend) == vend);
            assert(seq![(key, ms[0].1)] =~= ms);
            assert(vend + 1 == i + body.len() + 1);
        }
    } else {
        let rest = ser_members(ms.drop_first());
        assert(body =~= m0 + seq![','] + rest);
        assert(s[vend] == body[m0.len() as int]);
        assert(body[m0.len() as int] == ',');
        rt_value(s, vstart, ms[0].1);
        assert(forall|k: int|
            0 <= k < rest.len() ==> body[m0.len() + 1 + k] == #[trigger] rest[k]);
        assert(forall|k: int| 0 <= k < rest.len() ==> s[vend + 1 + k] == #[trigger] rest[k]);
        assert(s[vend + 1 + rest.len()] == '}');
        rt_members(s, vend + 1, ms.drop_first());
        assert forall|fuel: nat| fuel >= fuel_list(s, i) implies sp_members(s, i, fuel) == Some(
            (ms, i + body.len() + 1),
        ) by {
            assert(fuel - 1 >= fuel_value(s, vstart));
            assert(sp_value(s, vstart, (fuel - 1) as nat) == Some((ms[0].1, vend)));
            assert(skip_ws(s, vend) == vend);
            assert(fuel - 1 >= fuel_list(s, vend + 1));
            assert(sp_members(s, vend + 1, (fuel - 1) as nat) == Some(
                (ms.drop_first(), vend + 1 + rest.len() + 1),
            ));
            assert(seq![(key, ms[0].1)] + ms.drop_first() =~= ms);
            assert(vend + 1 + rest.len() + 1 == i + body.len() + 1);
        }
    }
}

/// Round trip: parsing the compact serialization of a well-formed value
/// yields exactly that value.
pub proof fn lemma_parse_ser(v: SpecJson)
    requires
        wf_json(v),
    ensures
        sp_doc(ser_json(v)) == Some(v),
{
    let s = ser_json(v);
    rt_value(s, 0, v);
    assert(sp_value(s, 0, fuel_value(s, 0)) == Some((v, s.len() as int)));
    assert(skip_ws(s, s.len() as int) == s.len());
}

/// Pointwise reading of `wf_arr`.
pub proof fn lemma_wf_arr_index(xs: Seq<SpecJson>, i: int)
    requires
        wf_arr(xs),
        0 <= i < xs.len(),
    ensures
        wf_json(xs[i]),
    decreases xs.len(),
{
    if i > 0 {
        lemma_wf_arr_index(xs.drop_first(), i - 1);
        assert(xs.drop_first()[i - 1] == xs[i]);
    }
}

/// `wf_arr` from pointwise well-formedness.
pub proof fn lemma_wf_arr_build(xs: Seq<SpecJson>)
    requires
        forall|i: int| 0 <= i < xs.len() ==> wf_json(#[trigger] xs[i]),
    ensures
        wf_arr(xs),
    decreases xs.len(),
{
    if xs.len() > 0 {
        let t = xs.drop_first();
        assert(forall|i: int| 0 <= i < t.len() ==> #[trigger] t[i] == xs[i + 1]);
        lemma_wf_arr_build(t);
    }
}

/// Pointwise reading of `wf_obj`.
pub proof fn lemma_wf_obj_index(ms: Seq<(Seq<char>, SpecJson)>, i: int)
    requires
        wf_obj(ms),
        0 <= i < ms.len(),
    ensures
        raw_ok(ms[i].0),
        wf_json(ms[i].1),
    decreases ms.len(),
{
    if i > 0 {
        lemma_wf_obj_index(ms.drop_first(), i - 1);
        assert(ms.drop_first()[i - 1] == ms[i]);
    }
}

/// `wf_obj` from pointwise well-formedness.
pub proof fn lemma_wf_obj_build(ms: Seq<(Seq<char>, SpecJson)>)
    requires
        forall|i: int|
            0 <= i < ms.len() ==> raw_ok((#[trigger] ms[i]).0) && wf_json(ms[i].1),
    ensures
        wf_obj(ms),
    decreases ms.len(),
{
    if ms.len() > 0 {
        let t = ms.drop_first();
        assert(forall|i: int| 0 <= i < t.len() ==> #[trigger] t[i] == ms[i + 1]);
        lemma_wf_obj_build(t);
    }
}

/// The value a path reaches inside a well-formed value is well-formed.
pub proof fn lemma_get_path_wf(v: SpecJson, p: Seq<Seq<char>>)
    requires
        wf_json(v),
        get_path(v, p) is Some,
    ensures
        wf_json(get_path(v, p).unwrap()),
    decreases p.len(),
{
    if p.len() > 0 {
        match v {
            SpecJson::Obj(ms) => {
                lemma_obj_index(ms, p[0]);
                let i = obj_index(ms, p[0]);
                lemma_wf_obj_index(ms, i);
                lemma_get_path_wf(ms[i].1, p.drop_first());
            },
            _ => {},
        }
    }
}

/// Replacing the value at a path keeps a well-formed value well-formed.
pub proof fn lemma_set_path_wf(v: SpecJson, p: Seq<Seq<char>>, nv: SpecJson)
    requires
        wf_json(v),
        wf_json(nv),
    ensures
        wf_json(set_path(v, p, nv)),
    decreases p.len(),
{
    if p.len() > 0 {
        match v {
            SpecJson::Obj(ms) => {
                match obj_lookup(ms, p[0]) {
                    Some(child) => {
                        lemma_obj_index(ms, p[0]);
                        let i = obj_index(ms, p[0]);
                        lemma_wf_obj_index(ms, i);
                        lemma_set_path_wf(ms[i].1, p.drop_first(), nv);
                        let ms2 = obj_update(ms, p[0], set_path(child, p.drop_first(), nv));
                        assert forall|k: int|
                            0 <= k < ms2.len() implies raw_ok((#[trigger] ms2[k]).0) && wf_json(
                            ms2[k].1,
                        ) by {
                            if k != i {
                                assert(ms2[k] == ms[k]);
                            }
                            lemma_wf_obj_index(ms, k);
                        }
                        lemma_wf_obj_build(ms2);
                    },
                    None => {},
                }
            },
            _ => {},
        }
    }
}

/// Number characters up to the end of a scan.
proof fn lemma_scan_num_chars(s: Seq<char>, i: int, k: int)
    requires
        0 <= i <= s.len(),
        i <= k < scan_num(s, i),
    ensures
        is_num_char(s[k]),
    decreases k - i,
{
    lemma_scan_num(s, i + 1);
    if k > i {
        lemma_scan_num_chars(s, i + 1, k);
    }
}

/// The contents a string scan walked over are clean raw contents.
proof fn lemma_scan_raw_ok(s: Seq<char>, i: int)
    requires
        0 <= i <= s.len(),
        scan_str(s, i) is Some,
    ensures
        raw_ok(s.subrange(i, scan_str(s, i).unwrap())),
    decreases s.len() - i,
{
    lemma_scan_str(s, i);
    let k = scan_str(s, i).unwrap();
    let raw = s.subrange(i, k);
    if s[i] == '"' {
        assert(raw =~= Seq::<char>::empty());
    } else if s[i] == '\\' {
        lemma_scan_str(s, i + 2);
        lemma_scan_raw_ok(s, i + 2);
        assert(raw[0] == '\\');
        assert(k >= i + 2);
        assert(raw.subrange(2, raw.len() as int) =~= s.subrange(i + 2, k));
    } else {
        lemma_scan_raw_ok(s, i + 1);
        assert(raw[0] != '"' && raw[0] != '\\');
        assert(raw.subrange(1, raw.len() as int) =~= s.subrange(i + 1, k));
    }
}

/// Whatever the grammar reads back is well-formed.
proof fn lemma_sp_value_wf(s: Seq<char>, i: int, fuel: nat)
    requires
        0 <= i <= s.len(),
        sp_value(s, i, fuel) is Some,
    ensures
        wf_json(sp_value(s, i, fuel).unwrap().0),
    decreases fuel, 0int,
{
    let j = skip_ws(s, i);
    lemma_skip_ws(s, i);
    assert(fuel > 0 && j < s.len());
    let v = sp_value(s, i, fuel).unwrap().0;
    if s[j] == '"' {
        lemma_scan_str(s, j + 1);
        lemma_scan_raw_ok(s, j + 1);
    } else if s[j] == '[' {
        let j2 = skip_ws(s, j + 1);
        if j2 < s.len() && s[j2] == ']' {
        } else {
            lemma_sp_elems_wf(s, j + 1, (fuel - 1) as nat);
        }
    } else if s[j] == '{' {
        let j2 = skip_ws(s, j + 1);
        if j2 < s.len() && s[j2] == '}' {
        } else {
            lemma_sp_members_wf(s, j + 1, (fuel - 1) as nat);
        }
    } else if s[j] != 'n' && s[j] != 't' && s[j] != 'f' {
        // a number token
        assert(is_num_char(s[j]));
        assert(scan_num(s, j) == scan_num(s, j + 1));
        lemma_scan_num(s, j + 1);
        let e = scan_num(s, j);
        assert(e > j);
        assert forall|k: int| 0 <= k < e - j implies is_num_char(
            #[trigger] s.subrange(j, e)[k],
        ) by {
            lemma_scan_num_chars(s, j, j + k);
        }
        assert(s.subrange(j, e)[0] == s[j]);
    }
}

proof fn lemma_sp_elems_wf(s: Seq<char>, i: int, fuel: nat)
    requires
        0 <= i <= s.len(),
        sp_elems(s, i, fuel) is Some,
    ensures
        wf_arr(sp_elems(s, i, fuel).unwrap().0),
    decreases fuel, 1int,
{
    assert(fuel > 0);
    let (v, j) = sp_value(s, i, (fuel - 1) as nat).unwrap();
    lemma_sp_value_wf(s, i, (fuel - 1) as nat);
    lemma_sp_value_bounds(s, i, (fuel - 1) as nat);
    let k = skip_ws(s, j);
    lemma_skip_ws(s, j);
    if k < s.len() && s[k] == ',' {
        lemma_sp_elems_wf(s, k + 1, (fuel - 1) as nat);
        let rest = sp_elems(s, k + 1, (fuel - 1) as nat).unwrap().0;
        let whole = seq![v] + rest;
        assert(whole.drop_first() =~= rest);
        assert(whole[0] == v);
        assert(sp_elems(s, i, fuel).unwrap().0 == whole);
        assert(whole.len() > 0);
        assert(wf_json(whole[0]));
        assert(wf_arr(rest));
        assert(whole.drop_first() == rest);
        assert(wf_arr(whole.drop_first()));
        assert(wf_arr(whole)) by {
            reveal_with_fuel(wf_arr, 2);
        }
    } else {
        let whole = seq![v];
        assert(whole.drop_first() =~= Seq::<SpecJson>::empty());
        assert(whole[0] == v);
        assert(sp_elems(s, i, fuel).unwrap().0 == whole);
        assert(wf_arr(whole)) by {
            reveal_with_fuel(wf_arr, 2);
        }
    }
}

proof fn lemma_sp_members_wf(s: Seq<char>, i: int, fuel: nat)
    requires
        0 <= i <= s.len(),
        sp_members(s, i, fuel) is Some,
    ensures
        wf_obj(sp_members(s, i, fuel).unwrap().0),
    decreases fuel, 1int,
{
    assert(fuel > 0);
    let j = skip_ws(s, i);
    lemma_skip_ws(s, i);
    assert(j < s.len());
    let k = scan_str(s, j + 1).unwrap();
    lemma_scan_str(s, j + 1);
    lemma_scan_raw_ok(s, j + 1);
    let key = s.subrange(j + 1, k);
    let m = skip_ws(s, k + 1);
    lemma_skip_ws(s, k + 1);
    let (v, p) = sp_value(s, m + 1, (fuel - 1) as nat).unwrap();
    lemma_sp_value_wf(s, m + 1, (fuel - 1) as nat);
    lemma_sp_value_bounds(s, m + 1, (fuel - 1) as nat);
    let q = skip_ws(s, p);
    lemma_skip_ws(s, p);
    if q < s.len() && s[q] == ',' {
        lemma_sp_members_wf(s, q + 1, (fuel - 1) as nat);
        let rest = sp_members(s, q + 1, (fuel - 1) as nat).unwrap().0;
        let whole = seq![(key, v)] + rest;
        assert(whole.drop_first() =~= rest);
        assert(whole[0] == (key, v));
        assert(sp_members(s, i, fuel).unwrap().0 == whole);
        assert(whole.len() > 0);
        assert(raw_ok(whole[0].0));
        assert(wf_json(whole[0].1));
        assert(wf_obj(rest));
        assert(whole.drop_first() == rest);
        assert(wf_obj(whole.drop_first()));
        assert(wf_obj(whole)) by {
            reveal_with_fuel(wf_obj, 2);
        }
    } else {
        let whole = seq![(key, v)];
        assert(whole.drop_first() =~= Seq::<(Seq<char>, SpecJson)>::empty());
        assert(whole[0] == (key, v));
        assert(sp_members(s, i, fuel).unwrap().0 == whole);
        assert(wf_obj(whole)) by {
            reveal_with_fuel(wf_obj, 2);
        }
    }
}

/// A successful parse consumes at least one character and stays in bounds.
proof fn lemma_sp_value_bounds(s: Seq<char>, i: int, fuel: nat)
    requires
        0 <= i <= s.len(),
        sp_value(s, i, fuel) is Some,
    ensures
        i < sp_value(s, i, fuel).unwrap().1 <= s.len(),
    decreases fuel, 0int,
{
    let j = skip_ws(s, i);
    lemma_skip_ws(s, i);
    assert(fuel > 0 && j < s.len());
    if s[j] == '"' {
        lemma_scan_str(s, j + 1);
    } else if s[j] == '[' {
        let j2 = skip_ws(s, j + 1);
        lemma_skip_ws(s, j + 1);
        if j2 < s.len() && s[j2] == ']' {
        } else {
            lemma_sp_elems_bounds(s, j + 1, (fuel - 1) as nat);
        }
    } else if s[j] == '{' {
        let j2 = skip_ws(s, j + 1);
        lemma_skip_ws(s, j + 1);
        if j2 < s.len() && s[j2] == '}' {
        } else {
            lemma_sp_members_bounds(s, j + 1, (fuel - 1) as nat);
        }
    } else if s[j] != 'n' && s[j] != 't' && s[j] != 'f' {
        assert(is_num_char(s[j]));
        assert(scan_num(s, j) == scan_num(s, j + 1));
        lemma_scan_num(s, j + 1);
    }
}

proof fn lemma_sp_elems_bounds(s: Seq<char>, i: int, fuel: nat)
    requires
        0 <= i <= s.len(),
        sp_elems(s, i, fuel) is Some,
    ensures
        i < sp_elems(s, i, fuel).unwrap().1 <= s.len(),
    decreases fuel, 1int,
{
    let (v, j) = sp_value(s, i, (fuel - 1) as nat).unwrap();
    lemma_sp_value_bounds(s, i, (fuel - 1) as nat);
    let k = skip_ws(s, j);
    lemma_skip_ws(s, j);
    if k < s.len() && s[k] == ',' {
        lemma_sp_elems_bounds(s, k + 1, (fuel - 1) as nat);
    }
}

proof fn lemma_sp_members_bounds(s: Seq<char>, i: int, fuel: nat)
    requires
        0 <= i <= s.len(),
        sp_members(s, i, fuel) is Some,
    ensures
        i < sp_members(s, i, fuel).unwrap().1 <= s.len(),
    decreases fuel, 1int,
{
    let j = skip_ws(s, i);
    lemma_skip_ws(s, i);
    let k = scan_str(s, j + 1).unwrap();
    lemma_scan_str(s, j + 1);
    let m = skip_ws(s, k + 1);
    lemma_skip_ws(s, k + 1);
    let (v, p) = sp_value(s, m + 1, (fuel - 1) as nat).unwrap();
    lemma_sp_value_bounds(s, m + 1, (fuel - 1) as nat);
    let q = skip_ws(s, p);
    lemma_skip_ws(s, p);
    if q < s.len() && s[q] == ',' {
        lemma_sp_members_bounds(s, q + 1, (fuel - 1) as nat);
    }
}

/// A parsed document is well-formed.
pub proof fn lemma_sp_doc_wf(s: Seq<char>)
    requires
        sp_doc(s) is Some,
    ensures
        wf_json(sp_doc(s).unwrap()),
{
    lemma_sp_value_wf(s, 0, fuel_value(s, 0));
}

} // verus!
