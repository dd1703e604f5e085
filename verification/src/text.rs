//! Verified text helpers: prefix and substring tests, ASCII lowercasing,
//! and string building, each against an exact specification over `Seq<char>`.

use vstd::prelude::*;

verus! {

/// `p` is an initial segment of `s`.
pub open spec fn spec_has_prefix(s: Seq<char>, p: Seq<char>) -> bool {
    p.len() <= s.len() && s.subrange(0, p.len() as int) == p
}

/// `sub` occurs in `s` starting at position `i`.
pub open spec fn match_at(s: Seq<char>, sub: Seq<char>, i: int) -> bool {
    0 <= i && i + sub.len() <= s.len() && s.subrange(i, i + sub.len()) == sub
}

/// `sub` occurs somewhere in `s`.
pub open spec fn spec_contains(s: Seq<char>, sub: Seq<char>) -> bool {
    exists|i: int| match_at(s, sub, i)
}

/// ASCII lowercasing of one character; other characters are unchanged.
pub open spec fn spec_lower_char(c: char) -> char {
    if 'A' <= c && c <= 'Z' {
        ((c as int) + 32) as char
    } else {
        c
    }
}

/// ASCII lowercasing of a character sequence.
pub open spec fn spec_lower(s: Seq<char>) -> Seq<char> {
    Seq::new(s.len(), |i: int| spec_lower_char(s[i]))
}

/// Relies on std's String::push: appends exactly the given character.
#[verifier::external_body]
pub fn push_char(s: &mut String, c: char)
    ensures
        final(s)@ == old(s)@.push(c),
{
    s.push(c);
}

pub fn str_eq(a: &str, b: &str) -> (r: bool)
    ensures
        r == (a@ == b@),
{
    let alen = a.unicode_len();
    let blen = b.unicode_len();
    if alen != blen {
        return false;
    }
    let mut i: usize = 0;
    while i < alen
        invariant
            0 <= i <= alen,
            alen == a@.len(),
            alen == b@.len(),
            forall|j: int| 0 <= j < i ==> a@[j] == b@[j],
        decreases alen - i,
    {
        if a.get_char(i) != b.get_char(i) {
            return false;
        }
        i += 1;
    }
    proof {
        assert(a@ =~= b@);
    }
    true
}

pub fn has_prefix(s: &str, p: &str) -> (r: bool)
    ensures
        r == spec_has_prefix(s@, p@),
{
    let slen = s.unicode_len();
    let plen = p.unicode_len();
    if plen > slen {
        return false;
    }
    let mut i: usize = 0;
    while i < plen
        invariant
            0 <= i <= plen,
            plen == p@.len(),
            slen == s@.len(),
            plen <= slen,
            forall|j: int| 0 <= j < i ==> s@[j] == p@[j],
        decreases plen - i,
    {
        if s.get_char(i) != p.get_char(i) {
            proof {
                assert(s@.subrange(0, p@.len() as int)[i as int] != p@[i as int]);
            }
            return false;
        }
        i += 1;
    }
    proof {
        assert(s@.subrange(0, p@.len() as int) =~= p@);
    }
    true
}

fn matches_at(s: &str, sub: &str, at: usize) -> (r: bool)
    requires
        at + sub@.len() <= s@.len(),
    ensures
        r == match_at(s@, sub@, at as int),
{
    let n = s.unicode_len();
    let m = sub.unicode_len();
    let mut j: usize = 0;
    while j < m
        invariant
            0 <= j <= m,
            m == sub@.len(),
            n == s@.len(),
            at + m <= n,
            forall|k: int| 0 <= k < j ==> s@[at + k] == sub@[k],
        decreases m - j,
    {
        if s.get_char(at + j) != sub.get_char(j) {
            proof {
                assert(s@.subrange(at as int, at + sub@.len())[j as int] != sub@[j as int]);
            }
            return false;
        }
        j += 1;
    }
    proof {
        assert(s@.subrange(at as int, at + sub@.len()) =~= sub@);
    }
    true
}

pub fn contains_sub(s: &str, sub: &str) -> (r: bool)
    ensures
        r == spec_contains(s@, sub@),
{
    let n = s.unicode_len();
    let m = sub.unicode_len();
    if m > n {
        return false;
    }
    if m == 0 {
        proof {
            assert(s@.subrange(0, 0) =~= sub@);
            assert(match_at(s@, sub@, 0));
        }
        return true;
    }
    let mut i: usize = 0;
    while i <= n - m
        invariant
            0 <= i <= n - m + 1,
            n == s@.len(),
            m == sub@.len(),
            0 < m <= n,
            forall|k: int| 0 <= k < i ==> !match_at(s@, sub@, k),
        decreases n - m - i + 1,
    {
        if matches_at(s, sub, i) {
            return true;
        }
        i += 1;
    }
    false
}

/// ASCII lowercasing of one character, proved against `spec_lower_char`.
pub fn lower_char(c: char) -> (r: char)
    ensures
        r == spec_lower_char(c),
{
    match c {
        'A' => 'a',
        'B' => 'b',
        'C' => 'c',
        'D' => 'd',
        'E' => 'e',
        'F' => 'f',
        'G' => 'g',
        'H' => 'h',
        'I' => 'i',
        'J' => 'j',
        'K' => 'k',
        'L' => 'l',
        'M' => 'm',
        'N' => 'n',
        'O' => 'o',
        'P' => 'p',
        'Q' => 'q',
        'R' => 'r',
        'S' => 's',
        'T' => 't',
        'U' => 'u',
        'V' => 'v',
        'W' => 'w',
        'X' => 'x',
        'Y' => 'y',
        'Z' => 'z',
        _ => c,
    }
}

/// ASCII-lowercases a string.
pub fn lower_str(s: &str) -> (r: String)
    ensures
        r@ == spec_lower(s@),
{
    let n = s.unicode_len();
    let mut out = String::new();
    let mut i: usize = 0;
    while i < n
        invariant
            0 <= i <= n,
            n == s@.len(),
            out@ == spec_lower(s@).take(i as int),
        decreases n - i,
    {
        let c = lower_char(s.get_char(i));
        push_char(&mut out, c);
        proof {
            assert(out@ =~= spec_lower(s@).take(i + 1));
        }
        i += 1;
    }
    proof {
        assert(spec_lower(s@).take(n as int) =~= spec_lower(s@));
    }
    out
}

/// The views of a sequence of owned strings.
pub open spec fn str_views(p: Seq<String>) -> Seq<Seq<char>> {
    p.map_values(|s: String| s@)
}

/// Replacement of every non-overlapping occurrence of `from` by `to`,
/// scanning left to right.
pub open spec fn spec_replace(s: Seq<char>, from: Seq<char>, to: Seq<char>) -> Seq<char>
    decreases s.len(),
{
    if from.len() == 0 || s.len() == 0 {
        s
    } else if spec_has_prefix(s, from) {
        to + spec_replace(s.skip(from.len() as int), from, to)
    } else {
        s.take(1) + spec_replace(s.skip(1), from, to)
    }
}

#[verifier::loop_isolation(false)]
pub fn replace_str(s: &str, from: &str, to: &str) -> (r: String)
    requires
        from@.len() > 0,
    ensures
        r@ == spec_replace(s@, from@, to@),
{
    let n = s.unicode_len();
    let flen = from.unicode_len();
    let mut out = String::new();
    let mut i: usize = 0;
    proof {
        assert(s@.skip(0) =~= s@);
        assert(out@ + spec_replace(s@, from@, to@) =~= spec_replace(s@, from@, to@));
    }
    while i < n
        invariant
            0 <= i <= n,
            spec_replace(s@, from@, to@) == out@ + spec_replace(s@.skip(i as int), from@, to@),
        decreases n - i,
    {
        let ghost rest = s@.skip(i as int);
        let ghost out0 = out@;
        if flen <= n - i && matches_at(s, from, i) {
            out.append(to);
            proof {
                assert(rest.subrange(0, from@.len() as int) =~= s@.subrange(
                    i as int,
                    i + from@.len(),
                ));
                assert(spec_has_prefix(rest, from@));
                assert(rest.skip(from@.len() as int) =~= s@.skip(i + flen));
                assert(out0 + (to@ + spec_replace(s@.skip(i + flen), from@, to@)) =~= (out0
                    + to@) + spec_replace(s@.skip(i + flen), from@, to@));
            }
            i += flen;
        } else {
            let c = s.get_char(i);
            push_char(&mut out, c);
            proof {
                if spec_has_prefix(rest, from@) {
                    assert(rest.subrange(0, from@.len() as int) =~= s@.subrange(
                        i as int,
                        i + from@.len(),
                    ));
                    assert(match_at(s@, from@, i as int));
                }
                assert(rest.take(1) =~= seq![s@[i as int]]);
                assert(rest.skip(1) =~= s@.skip(i + 1));
                assert(out0 + (rest.take(1) + spec_replace(s@.skip(i + 1), from@, to@)) =~= (
                out0 + rest.take(1)) + spec_replace(s@.skip(i + 1), from@, to@));
                assert(out0 + rest.take(1) =~= out0.push(s@[i as int]));
            }
            i += 1;
        }
    }
    proof {
        assert(s@.skip(n as int) =~= Seq::<char>::empty());
        assert(out@ + Seq::<char>::empty() =~= out@);
    }
    out
}

/// First position at or after `i` holding a dot, or the end of `s`.
pub open spec fn dot_pos(s: Seq<char>, i: int) -> int
    decreases s.len() - i,
{
    if 0 <= i < s.len() && s[i] != '.' {
        dot_pos(s, i + 1)
    } else {
        i
    }
}

pub proof fn lemma_dot_pos(s: Seq<char>, i: int)
    requires
        0 <= i <= s.len(),
    ensures
        i <= dot_pos(s, i) <= s.len(),
        dot_pos(s, i) < s.len() ==> s[dot_pos(s, i)] == '.',
        forall|j: int| i <= j < dot_pos(s, i) ==> s[j] != '.',
    decreases s.len() - i,
{
    if i < s.len() && s[i] != '.' {
        lemma_dot_pos(s, i + 1);
    }
}

/// The segments of `s` between its dots. A string without dots is one
/// segment; every dot separates two (possibly empty) segments.
pub open spec fn spec_split_dots(s: Seq<char>) -> Seq<Seq<char>>
    decreases s.len(),
{
    let d = dot_pos(s, 0);
    if 0 <= d < s.len() {
        seq![s.take(d)] + spec_split_dots(s.skip(d + 1))
    } else {
        seq![s]
    }
}

pub proof fn lemma_split_dots_len(s: Seq<char>)
    ensures
        spec_split_dots(s).len() >= 1,
{
    let d = dot_pos(s, 0);
    if 0 <= d < s.len() {
        assert(spec_split_dots(s).len() == 1 + spec_split_dots(s.skip(d + 1)).len());
    }
}

#[verifier::loop_isolation(false)]
pub fn split_dots(s: &str) -> (r: Vec<String>)
    ensures
        str_views(r@) == spec_split_dots(s@),
        r@.len() >= 1,
{
    let n = s.unicode_len();
    let mut out: Vec<String> = Vec::new();
    let mut start: usize = 0;
    let mut i: usize = 0;
    proof {
        assert(s@.skip(0) =~= s@);
        assert(str_views(out@) + spec_split_dots(s@) =~= spec_split_dots(s@));
    }
    while i < n
        invariant
            0 <= start <= i <= n,
            spec_split_dots(s@) == str_views(out@) + spec_split_dots(s@.skip(start as int)),
            forall|j: int| start <= j < i ==> s@[j] != '.',
        decreases n - i,
    {
        let ghost rest = s@.skip(start as int);
        let ghost out0 = out@;
        let c = s.get_char(i);
        if c == '.' {
            let seg = String::from_str(s.substring_char(start, i));
            out.push(seg);
            proof {
                lemma_dot_pos(rest, 0);
                assert(forall|j: int| 0 <= j < i - start ==> rest[j] == s@[start + j]);
                assert(rest[i - start] == '.');
                assert(dot_pos(rest, 0) == i - start);
                assert(rest.take(i - start) =~= s@.subrange(start as int, i as int));
                assert(rest.skip(i - start + 1) =~= s@.skip(i + 1));
                assert(str_views(out@) =~= str_views(out0).push(s@.subrange(
                    start as int,
                    i as int,
                )));
                assert(str_views(out0) + (seq![rest.take(i - start)] + spec_split_dots(
                    s@.skip(i + 1),
                )) =~= str_views(out@) + spec_split_dots(s@.skip(i + 1)));
            }
            start = i + 1;
        }
        i += 1;
    }
    let seg = String::from_str(s.substring_char(start, n));
    out.push(seg);
    proof {
        let rest = s@.skip(start as int);
        lemma_dot_pos(rest, 0);
        assert(forall|j: int| 0 <= j < n - start ==> rest[j] == s@[start + j]);
        if dot_pos(rest, 0) < rest.len() {
            assert(s@[start + dot_pos(rest, 0)] == '.');
        }
        assert(rest =~= s@.subrange(start as int, n as int));
        assert(str_views(out@) =~= str_views(out@.drop_last()) + seq![rest]);
    }
    out
}

// ---- key paths ----

/// The characters a path-expression identifier may hold.
pub open spec fn is_ident_char(c: char) -> bool {
    ('a' <= c && c <= 'z') || ('A' <= c && c <= 'Z') || ('0' <= c && c <= '9') || c == '_' || c
        == '-'
}

pub open spec fn is_path_segment(s: Seq<char>) -> bool {
    s.len() > 0 && forall|i: int| 0 <= i < s.len() ==> is_ident_char(#[trigger] s[i])
}

pub open spec fn valid_segments(segs: Seq<Seq<char>>) -> bool {
    forall|i: int| 0 <= i < segs.len() ==> is_path_segment(#[trigger] segs[i])
}

/// The key path of a dotted key: it splits on its dots when every segment
/// is a plain identifier; otherwise the whole key is one single segment.
pub open spec fn spec_key_path(k: Seq<char>) -> Seq<Seq<char>> {
    let segs = spec_split_dots(k);
    if valid_segments(segs) {
        segs
    } else {
        seq![k]
    }
}

fn is_ident_char_exec(c: char) -> (r: bool)
    ensures
        r == is_ident_char(c),
{
    ('a' <= c && c <= 'z') || ('A' <= c && c <= 'Z') || ('0' <= c && c <= '9') || c == '_' || c
        == '-'
}

#[verifier::loop_isolation(false)]
fn is_path_segment_exec(s: &str) -> (r: bool)
    ensures
        r == is_path_segment(s@),
{
    let n = s.unicode_len();
    if n == 0 {
        return false;
    }
    let mut i: usize = 0;
    while i < n
        invariant
            0 <= i <= n,
            forall|j: int| 0 <= j < i ==> is_ident_char(#[trigger] s@[j]),
        decreases n - i,
    {
        if !is_ident_char_exec(s.get_char(i)) {
            return false;
        }
        i += 1;
    }
    true
}

#[verifier::loop_isolation(false)]
pub fn key_path_exec(k: &str) -> (r: Vec<String>)
    ensures
        str_views(r@) == spec_key_path(k@),
        r@.len() >= 1,
{
    let segs = split_dots(k);
    let n = segs.len();
    let mut i: usize = 0;
    let mut ok = true;
    while i < n
        invariant
            0 <= i <= n,
            n == segs@.len(),
            ok == (forall|j: int| 0 <= j < i ==> is_path_segment(#[trigger] str_views(segs@)[j])),
        decreases n - i,
    {
        if !is_path_segment_exec(segs[i].as_str()) {
            proof {
                assert(str_views(segs@)[i as int] == segs@[i as int]@);
            }
            ok = false;
            proof {
                assert(!is_path_segment(str_views(segs@)[i as int]));
            }
            i = n;
        } else {
            proof {
                assert(str_views(segs@)[i as int] == segs@[i as int]@);
            }
            i += 1;
        }
    }
    if ok {
        proof {
            assert(valid_segments(str_views(segs@)));
        }
        segs
    } else {
        proof {
            assert(!valid_segments(str_views(segs@)));
        }
        let mut one: Vec<String> = Vec::new();
        one.push(String::from_str(k));
        proof {
            assert(str_views(one@) =~= seq![k@]);
        }
        one
    }
}

/// Concatenation of two string slices into an owned string.
pub fn concat_str(a: &str, b: &str) -> (r: String)
    ensures
        r@ == a@ + b@,
{
    let mut out = String::new();
    out.append(a);
    out.append(b);
    proof {
        assert(out@ =~= a@ + b@);
    }
    out
}

} // verus!
