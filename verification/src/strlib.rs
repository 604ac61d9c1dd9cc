//! Character and string helpers shared by the compiler and the query engine.
//!
//! All names handled by this library are compared and folded ASCII-wise, so
//! the helpers here work on `char` sequences and state their behaviour over
//! the `Seq<char>` views of `str` and `String`.

use vstd::prelude::*;

verus! {

/// An ASCII upper-case letter.
pub open spec fn spec_is_upper(c: char) -> bool {
    'A' <= c && c <= 'Z'
}

/// ASCII lower-casing of a single character; other characters are unchanged.
pub open spec fn spec_lower_char(c: char) -> char {
    if spec_is_upper(c) {
        ((c as u32) + 32) as char
    } else {
        c
    }
}

/// ASCII lower-casing of a whole character sequence.
pub open spec fn spec_lower(s: Seq<char>) -> Seq<char> {
    s.map_values(|c: char| spec_lower_char(c))
}

pub open spec fn spec_is_digit(c: char) -> bool {
    '0' <= c && c <= '9'
}

/// The characters with the Unicode `White_Space` property, as recognized by
/// `char::is_whitespace`.
pub open spec fn spec_is_ws(c: char) -> bool {
    ||| c == '\u{0009}'
    ||| c == '\u{000A}'
    ||| c == '\u{000B}'
    ||| c == '\u{000C}'
    ||| c == '\u{000D}'
    ||| c == ' '
    ||| c == '\u{0085}'
    ||| c == '\u{00A0}'
    ||| c == '\u{1680}'
    ||| ('\u{2000}' <= c && c <= '\u{200A}')
    ||| c == '\u{2028}'
    ||| c == '\u{2029}'
    ||| c == '\u{202F}'
    ||| c == '\u{205F}'
    ||| c == '\u{3000}'
}

pub fn is_ws(c: char) -> (r: bool)
    ensures
        r == spec_is_ws(c),
{
    c == '\u{0009}' || c == '\u{000A}' || c == '\u{000B}' || c == '\u{000C}' || c == '\u{000D}'
        || c == ' ' || c == '\u{0085}' || c == '\u{00A0}' || c == '\u{1680}' || ('\u{2000}' <= c
        && c <= '\u{200A}') || c == '\u{2028}' || c == '\u{2029}' || c == '\u{202F}' || c
        == '\u{205F}' || c == '\u{3000}'
}

pub fn is_digit(c: char) -> (r: bool)
    ensures
        r == spec_is_digit(c),
{
    '0' <= c && c <= '9'
}

pub fn to_lower_char(c: char) -> (r: char)
    ensures
        r == spec_lower_char(c),
{
    if 'A' <= c && c <= 'Z' {
        (((c as u32) + 32) as u8) as char
    } else {
        c
    }
}

/// The characters of `s`, in order, as a vector.
pub fn chars_of(s: &str) -> (v: Vec<char>)
    ensures
        v@ == s@,
{
    let n = s.unicode_len();
    let mut v: Vec<char> = Vec::new();
    let mut i: usize = 0;
    while i < n
        invariant
            n == s@.len(),
            i <= n,
            v@ =~= s@.subrange(0, i as int),
        decreases n - i,
    {
        v.push(s.get_char(i));
        i += 1;
    }
    proof {
        assert(v@ =~= s@);
    }
    v
}

/// Relies on `core::iter::Iterator::collect` building a `String` from
/// `char`s: the resulting string's characters are exactly the input
/// sequence, in order.
#[verifier::external_body]
pub fn string_from_chars(v: &Vec<char>) -> (r: String)
    ensures
        r@ == v@,
{
    v.iter().copied().collect()
}

/// ASCII lower-casing of a character slice.
pub fn lower_chars(v: &[char]) -> (out: Vec<char>)
    ensures
        out@ == spec_lower(v@),
{
    let mut out: Vec<char> = Vec::new();
    let mut i: usize = 0;
    while i < v.len()
        invariant
            i <= v@.len(),
            out@ =~= spec_lower(v@).subrange(0, i as int),
        decreases v@.len() - i,
    {
        out.push(to_lower_char(v[i]));
        i += 1;
    }
    proof {
        assert(out@ =~= spec_lower(v@));
    }
    out
}

/// ASCII lower-casing of a string.
pub fn str_to_lower(s: &str) -> (r: String)
    ensures
        r@ == spec_lower(s@),
{
    let cs = chars_of(s);
    let low = lower_chars(cs.as_slice());
    string_from_chars(&low)
}

/// `p` is a prefix of `s` (string form).
pub fn str_starts_with(s: &str, p: &str) -> (r: bool)
    ensures
        r == spec_starts_with(s@, p@),
{
    let sv = chars_of(s);
    let pv = chars_of(p);
    slice_starts_with(sv.as_slice(), pv.as_slice())
}

/// `p` occurs somewhere in `s` (string form).
pub fn str_contains(s: &str, p: &str) -> (r: bool)
    ensures
        r == spec_contains_seq(s@, p@),
{
    let sv = chars_of(s);
    let pv = chars_of(p);
    slice_contains_seq(sv.as_slice(), pv.as_slice())
}

/// Some character of `s` is a decimal digit.
pub open spec fn spec_has_digit(s: Seq<char>) -> bool {
    exists|i: int| 0 <= i < s.len() && spec_is_digit(#[trigger] s[i])
}

pub fn str_has_digit(s: &str) -> (r: bool)
    ensures
        r == spec_has_digit(s@),
{
    let v = chars_of(s);
    let n = v.len();
    let mut i: usize = 0;
    while i < n
        invariant
            n == v@.len(),
            v@ == s@,
            i <= n,
            forall|j: int| 0 <= j < i ==> !spec_is_digit(#[trigger] s@[j]),
        decreases n - i,
    {
        if is_digit(v[i]) {
            return true;
        }
        i += 1;
    }
    false
}

/// Character-for-character equality of two strings.
pub fn str_eq(a: &str, b: &str) -> (r: bool)
    ensures
        r == (a@ == b@),
{
    let na = a.unicode_len();
    let nb = b.unicode_len();
    if na != nb {
        return false;
    }
    let mut i: usize = 0;
    while i < na
        invariant
            na == a@.len(),
            na == b@.len(),
            i <= na,
            forall|j: int| 0 <= j < i ==> a@[j] == b@[j],
        decreases na - i,
    {
        if a.get_char(i) != b.get_char(i) {
            return false;
        }
        i += 1;
    }
    proof {
        assert(a@ =~= b@);
    }
    true
}

/// Equality of two strings up to ASCII case.
pub fn str_eq_ignore_case(a: &str, b: &str) -> (r: bool)
    ensures
        r == (spec_lower(a@) == spec_lower(b@)),
{
    let na = a.unicode_len();
    let nb = b.unicode_len();
    if na != nb {
        proof {
            assert(spec_lower(a@).len() != spec_lower(b@).len());
        }
        return false;
    }
    let mut i: usize = 0;
    while i < na
        invariant
            na == a@.len(),
            na == b@.len(),
            i <= na,
            forall|j: int| 0 <= j < i ==> spec_lower(a@)[j] == spec_lower(b@)[j],
        decreases na - i,
    {
        if to_lower_char(a.get_char(i)) != to_lower_char(b.get_char(i)) {
            proof {
                assert(spec_lower(a@)[i as int] != spec_lower(b@)[i as int]);
            }
            return false;
        }
        i += 1;
    }
    proof {
        assert(spec_lower(a@) =~= spec_lower(b@));
    }
    true
}

/// `t` is a suffix of `s`.
pub open spec fn spec_ends_with(s: Seq<char>, t: Seq<char>) -> bool {
    t.len() <= s.len() && s.subrange(s.len() - t.len(), s.len() as int) == t
}

/// `t` is a prefix of `s`.
pub open spec fn spec_starts_with(s: Seq<char>, t: Seq<char>) -> bool {
    t.len() <= s.len() && s.subrange(0, t.len() as int) == t
}

/// `t` occurs in `s` starting at position `i`.
pub open spec fn spec_matches_at(s: Seq<char>, t: Seq<char>, i: int) -> bool {
    0 <= i && i + t.len() <= s.len() && s.subrange(i, i + t.len()) == t
}

/// `t` occurs somewhere in `s`.
pub open spec fn spec_contains_seq(s: Seq<char>, t: Seq<char>) -> bool {
    exists|i: int| spec_matches_at(s, t, i)
}

pub fn slice_ends_with(s: &[char], t: &[char]) -> (r: bool)
    ensures
        r == spec_ends_with(s@, t@),
{
    let ns = s.len();
    let nt = t.len();
    if nt > ns {
        return false;
    }
    let off = ns - nt;
    let mut i: usize = 0;
    while i < nt
        invariant
            nt <= ns,
            off == ns - nt,
            ns == s@.len(),
            nt == t@.len(),
            i <= nt,
            forall|j: int| 0 <= j < i ==> s@[off + j] == t@[j],
        decreases nt - i,
    {
        if s[off + i] != t[i] {
            proof {
                assert(s@.subrange(s@.len() - t@.len(), s@.len() as int)[i as int] != t@[i as int]);
            }
            return false;
        }
        i += 1;
    }
    proof {
        assert(s@.subrange(s@.len() - t@.len(), s@.len() as int) =~= t@);
    }
    true
}

pub fn slice_starts_with(s: &[char], t: &[char]) -> (r: bool)
    ensures
        r == spec_starts_with(s@, t@),
{
    let ns = s.len();
    let nt = t.len();
    if nt > ns {
        return false;
    }
    let mut i: usize = 0;
    while i < nt
        invariant
            nt <= ns,
            ns == s@.len(),
            nt == t@.len(),
            i <= nt,
            forall|j: int| 0 <= j < i ==> s@[j] == t@[j],
        decreases nt - i,
    {
        if s[i] != t[i] {
            proof {
                assert(s@.subrange(0, t@.len() as int)[i as int] != t@[i as int]);
            }
            return false;
        }
        i += 1;
    }
    proof {
        assert(s@.subrange(0, t@.len() as int) =~= t@);
    }
    true
}

pub fn slice_matches_at(s: &[char], t: &[char], i: usize) -> (r: bool)
    requires
        i + t@.len() <= s@.len(),
    ensures
        r == spec_matches_at(s@, t@, i as int),
{
    let ns = s.len();
    let nt = t.len();
    let mut j: usize = 0;
    while j < nt
        invariant
            i + nt <= ns,
            ns == s@.len(),
            nt == t@.len(),
            j <= nt,
            forall|k: int| 0 <= k < j ==> s@[i + k] == t@[k],
        decreases nt - j,
    {
        if s[i + j] != t[j] {
            proof {
                assert(s@.subrange(i as int, i + t@.len())[j as int] != t@[j as int]);
            }
            return false;
        }
        j += 1;
    }
    proof {
        assert(s@.subrange(i as int, i + t@.len()) =~= t@);
    }
    true
}

/// Length of the maximal whitespace prefix of `s`.
pub open spec fn spec_ws_prefix(s: Seq<char>) -> nat
    decreases s.len(),
{
    if s.len() > 0 && spec_is_ws(s[0]) {
        1 + spec_ws_prefix(s.drop_first())
    } else {
        0
    }
}

/// Length of the maximal whitespace suffix of `s`.
pub open spec fn spec_ws_suffix(s: Seq<char>) -> nat
    decreases s.len(),
{
    if s.len() > 0 && spec_is_ws(s.last()) {
        1 + spec_ws_suffix(s.drop_last())
    } else {
        0
    }
}

/// `s` with leading whitespace removed.
pub open spec fn spec_trim_start(s: Seq<char>) -> Seq<char> {
    s.subrange(spec_ws_prefix(s) as int, s.len() as int)
}

/// `s` with trailing whitespace removed.
pub open spec fn spec_trim_end(s: Seq<char>) -> Seq<char> {
    s.subrange(0, s.len() - spec_ws_suffix(s))
}

/// `s` with leading and trailing whitespace removed.
pub open spec fn spec_trim(s: Seq<char>) -> Seq<char> {
    spec_trim_end(spec_trim_start(s))
}

/// `s` consists of whitespace only (so its trim is empty).
pub open spec fn spec_is_blank(s: Seq<char>) -> bool {
    forall|i: int| 0 <= i < s.len() ==> spec_is_ws(#[trigger] s[i])
}

pub proof fn lemma_ws_prefix_bounds(s: Seq<char>)
    ensures
        spec_ws_prefix(s) <= s.len(),
        forall|i: int| 0 <= i < spec_ws_prefix(s) ==> spec_is_ws(#[trigger] s[i]),
        spec_ws_prefix(s) < s.len() ==> !spec_is_ws(s[spec_ws_prefix(s) as int]),
    decreases s.len(),
{
    if s.len() > 0 && spec_is_ws(s[0]) {
        lemma_ws_prefix_bounds(s.drop_first());
        assert forall|i: int| 0 <= i < spec_ws_prefix(s) implies spec_is_ws(#[trigger] s[i]) by {
            if i > 0 {
                assert(s[i] == s.drop_first()[i - 1]);
            }
        }
    }
}

pub proof fn lemma_ws_prefix_unique(s: Seq<char>, k: int)
    requires
        0 <= k <= s.len(),
        forall|i: int| 0 <= i < k ==> spec_is_ws(#[trigger] s[i]),
        k < s.len() ==> !spec_is_ws(s[k]),
    ensures
        k == spec_ws_prefix(s),
    decreases s.len(),
{
    if s.len() > 0 && spec_is_ws(s[0]) {
        assert(k > 0);
        lemma_ws_prefix_unique(s.drop_first(), k - 1);
    }
}

pub proof fn lemma_ws_suffix_bounds(s: Seq<char>)
    ensures
        spec_ws_suffix(s) <= s.len(),
        forall|i: int| s.len() - spec_ws_suffix(s) <= i < s.len() ==> spec_is_ws(#[trigger] s[i]),
        spec_ws_suffix(s) < s.len() ==> !spec_is_ws(s[s.len() - spec_ws_suffix(s) - 1]),
    decreases s.len(),
{
    if s.len() > 0 && spec_is_ws(s.last()) {
        lemma_ws_suffix_bounds(s.drop_last());
        assert forall|i: int| s.len() - spec_ws_suffix(s) <= i < s.len() implies spec_is_ws(
            #[trigger] s[i],
        ) by {
            if i < s.len() - 1 {
                assert(s[i] == s.drop_last()[i]);
            }
        }
    }
}

pub proof fn lemma_ws_suffix_unique(s: Seq<char>, k: int)
    requires
        0 <= k <= s.len(),
        forall|i: int| s.len() - k <= i < s.len() ==> spec_is_ws(#[trigger] s[i]),
        k < s.len() ==> !spec_is_ws(s[s.len() - k - 1]),
    ensures
        k == spec_ws_suffix(s),
    decreases s.len(),
{
    if s.len() > 0 && spec_is_ws(s.last()) {
        assert(k > 0);
        lemma_ws_suffix_unique(s.drop_last(), k - 1);
    }
}

/// Index of the first non-whitespace character (the length of the
/// whitespace prefix).
pub fn ws_prefix_len(v: &[char]) -> (k: usize)
    ensures
        k == spec_ws_prefix(v@),
{
    let n = v.len();
    let mut i: usize = 0;
    while i < n && is_ws(v[i])
        invariant
            n == v@.len(),
            i <= n,
            forall|j: int| 0 <= j < i ==> spec_is_ws(#[trigger] v@[j]),
        decreases n - i,
    {
        i += 1;
    }
    proof {
        lemma_ws_prefix_unique(v@, i as int);
    }
    i
}

/// Length of the whitespace suffix.
pub fn ws_suffix_len(v: &[char]) -> (k: usize)
    ensures
        k == spec_ws_suffix(v@),
{
    let n = v.len();
    let mut i: usize = 0;
    while i < n && is_ws(v[n - 1 - i])
        invariant
            n == v@.len(),
            i <= n,
            forall|j: int| n - i <= j < n ==> spec_is_ws(#[trigger] v@[j]),
        decreases n - i,
    {
        i += 1;
    }
    proof {
        lemma_ws_suffix_unique(v@, i as int);
    }
    i
}

/// Whether `s` is entirely whitespace.
pub fn is_blank(s: &str) -> (r: bool)
    ensures
        r == spec_is_blank(s@),
{
    let v = chars_of(s);
    let k = ws_prefix_len(v.as_slice());
    proof {
        lemma_ws_prefix_bounds(s@);
    }
    k == v.len()
}

/// The trimmed characters of `s`.
pub fn trim_chars(v: &[char]) -> (r: Vec<char>)
    ensures
        r@ == spec_trim(v@),
{
    let n = v.len();
    let p = ws_prefix_len(v);
    proof {
        lemma_ws_prefix_bounds(v@);
    }
    if p == n {
        proof {
            assert(spec_trim_start(v@) =~= Seq::<char>::empty());
            lemma_ws_suffix_unique(spec_trim_start(v@), 0);
            assert(spec_trim(v@) =~= Seq::<char>::empty());
        }
        return Vec::new();
    }
    // the first non-whitespace character bounds the whitespace suffix of the
    // trimmed-start remainder
    let mut out: Vec<char> = Vec::new();
    let mut i: usize = p;
    while i < n
        invariant
            p <= i <= n,
            n == v@.len(),
            out@ =~= v@.subrange(p as int, i as int),
        decreases n - i,
    {
        out.push(v[i]);
        i += 1;
    }
    proof {
        assert(out@ =~= spec_trim_start(v@));
    }
    let q = ws_suffix_len(out.as_slice());
    proof {
        lemma_ws_suffix_bounds(out@);
    }
    let keep = out.len() - q;
    let mut res: Vec<char> = Vec::new();
    let mut j: usize = 0;
    while j < keep
        invariant
            keep == out@.len() - spec_ws_suffix(out@),
            j <= keep,
            out@ == spec_trim_start(v@),
            res@ =~= out@.subrange(0, j as int),
        decreases keep - j,
    {
        res.push(out[j]);
        j += 1;
    }
    proof {
        assert(res@ =~= spec_trim_end(spec_trim_start(v@)));
    }
    res
}

/// `s` with every space character removed (other whitespace stays).
pub open spec fn spec_remove_spaces(s: Seq<char>) -> Seq<char> {
    s.filter(|c: char| c != ' ')
}

pub proof fn lemma_remove_spaces_push(s: Seq<char>, c: char)
    ensures
        spec_remove_spaces(s.push(c)) == if c != ' ' {
            spec_remove_spaces(s).push(c)
        } else {
            spec_remove_spaces(s)
        },
{
    broadcast use Seq::lemma_filter_push;

    assert(spec_remove_spaces(s.push(c)) == s.push(c).filter(|x: char| x != ' '));
}

pub fn remove_spaces(v: &[char]) -> (r: Vec<char>)
    ensures
        r@ == spec_remove_spaces(v@),
{
    let n = v.len();
    let mut out: Vec<char> = Vec::new();
    let mut i: usize = 0;
    while i < n
        invariant
            n == v@.len(),
            i <= n,
            out@ == spec_remove_spaces(v@.subrange(0, i as int)),
        decreases n - i,
    {
        proof {
            assert(v@.subrange(0, i + 1) =~= v@.subrange(0, i as int).push(v@[i as int]));
            lemma_remove_spaces_push(v@.subrange(0, i as int), v@[i as int]);
        }
        if v[i] != ' ' {
            out.push(v[i]);
        }
        i += 1;
    }
    proof {
        assert(v@.subrange(0, n as int) =~= v@);
    }
    out
}

pub fn slice_contains_seq(s: &[char], t: &[char]) -> (r: bool)
    ensures
        r == spec_contains_seq(s@, t@),
{
    let ns = s.len();
    let nt = t.len();
    if nt > ns {
        proof {
            assert(forall|i: int| !spec_matches_at(s@, t@, i));
        }
        return false;
    }
    if nt == 0 {
        proof {
            assert(s@.subrange(0, 0) =~= t@);
            assert(spec_matches_at(s@, t@, 0));
        }
        return true;
    }
    let mut i: usize = 0;
    while i <= ns - nt
        invariant
            0 < nt <= ns,
            ns == s@.len(),
            nt == t@.len(),
            i <= ns - nt + 1,
            forall|k: int| 0 <= k < i ==> !spec_matches_at(s@, t@, k),
        decreases ns - nt + 1 - i,
    {
        if slice_matches_at(s, t, i) {
            return true;
        }
        i += 1;
    }
    proof {
        assert(forall|k: int| spec_matches_at(s@, t@, k) ==> 0 <= k <= ns - nt);
    }
    false
}

/// Length of the maximal non-whitespace prefix of `s`.
pub open spec fn spec_word_len(s: Seq<char>) -> nat
    decreases s.len(),
{
    if s.len() > 0 && !spec_is_ws(s[0]) {
        1 + spec_word_len(s.drop_first())
    } else {
        0
    }
}

pub proof fn lemma_word_len_unique(s: Seq<char>, k: int)
    requires
        0 <= k <= s.len(),
        forall|i: int| 0 <= i < k ==> !spec_is_ws(#[trigger] s[i]),
        k < s.len() ==> spec_is_ws(s[k]),
    ensures
        k == spec_word_len(s),
    decreases s.len(),
{
    if s.len() > 0 && !spec_is_ws(s[0]) {
        assert(k > 0);
        lemma_word_len_unique(s.drop_first(), k - 1);
    }
}

pub proof fn lemma_word_len_le(s: Seq<char>)
    ensures
        spec_word_len(s) <= s.len(),
    decreases s.len(),
{
    if s.len() > 0 && !spec_is_ws(s[0]) {
        lemma_word_len_le(s.drop_first());
    }
}

/// The whitespace-separated tokens of `s`, in order.
pub open spec fn spec_tokens(s: Seq<char>) -> Seq<Seq<char>>
    decreases s.len(),
    via spec_tokens_decreases
{
    if s.len() == 0 {
        Seq::empty()
    } else if spec_is_ws(s[0]) {
        spec_tokens(s.drop_first())
    } else {
        seq![s.subrange(0, spec_word_len(s) as int)] + spec_tokens(
            s.subrange(spec_word_len(s) as int, s.len() as int),
        )
    }
}

#[via_fn]
proof fn spec_tokens_decreases(s: Seq<char>) {
    lemma_word_len_le(s);
}

proof fn lemma_tokens_skip_ws(s: Seq<char>, i: int)
    requires
        0 <= i <= s.len(),
        forall|j: int| 0 <= j < i ==> spec_is_ws(#[trigger] s[j]),
    ensures
        spec_tokens(s) == spec_tokens(s.subrange(i, s.len() as int)),
    decreases i,
{
    if i > 0 {
        let s1 = s.subrange(1, s.len() as int);
        assert(spec_is_ws(s[0]));
        assert(s.drop_first() =~= s1);
        assert(spec_tokens(s) == spec_tokens(s.drop_first()));
        assert forall|j: int| 0 <= j < i - 1 implies spec_is_ws(#[trigger] s1[j]) by {
            assert(s1[j] == s[j + 1]);
        }
        lemma_tokens_skip_ws(s1, i - 1);
        assert(s1.subrange(i - 1, s1.len() as int) =~= s.subrange(i, s.len() as int));
    } else {
        assert(s.subrange(0, s.len() as int) =~= s);
    }
}

/// The whitespace-separated tokens of the characters `v`, as strings.
pub fn split_ws_tokens(v: &[char]) -> (out: Vec<String>)
    ensures
        out@.len() == spec_tokens(v@).len(),
        forall|j: int| 0 <= j < out@.len() ==> out@[j]@ == spec_tokens(v@)[j],
{
    let n = v.len();
    let mut out: Vec<String> = Vec::new();
    let mut i: usize = 0;
    proof {
        assert(v@.subrange(0, n as int) =~= v@);
    }
    while i < n
        invariant
            n == v@.len(),
            i <= n,
            spec_tokens(v@).len() == out@.len() + spec_tokens(
                v@.subrange(i as int, n as int),
            ).len(),
            forall|j: int|
                0 <= j < out@.len() ==> out@[j]@ == spec_tokens(v@)[j],
            forall|j: int|
                0 <= j < spec_tokens(v@.subrange(i as int, n as int)).len() ==> spec_tokens(
                    v@.subrange(i as int, n as int),
                )[j] == spec_tokens(v@)[out@.len() + j],
        decreases n - i,
    {
        let ghost rest = v@.subrange(i as int, n as int);
        if is_ws(v[i]) {
            proof {
                assert(rest[0] == v@[i as int]);
                assert(rest.drop_first() =~= v@.subrange(i + 1, n as int));
                assert(spec_tokens(rest) == spec_tokens(v@.subrange(i + 1, n as int)));
            }
            i += 1;
        } else {
            // scan the current word
            let start = i;
            let mut j = i + 1;
            while j < n && !is_ws(v[j])
                invariant
                    start < j <= n,
                    n == v@.len(),
                    forall|k: int| start <= k < j ==> !spec_is_ws(#[trigger] v@[k]),
                decreases n - j,
            {
                j += 1;
            }
            proof {
                assert forall|k: int| 0 <= k < j - start implies !spec_is_ws(
                    #[trigger] rest[k],
                ) by {
                    assert(rest[k] == v@[i + k]);
                }
                if j < n {
                    assert(rest[j - start] == v@[j as int]);
                }
                lemma_word_len_unique(rest, j - start);
            }
            let mut word: Vec<char> = Vec::new();
            let mut k = start;
            while k < j
                invariant
                    start <= k <= j <= n,
                    n == v@.len(),
                    word@ =~= v@.subrange(start as int, k as int),
                decreases j - k,
            {
                word.push(v[k]);
                k += 1;
            }
            proof {
                assert(rest[0] == v@[start as int]);
                assert(word@ =~= rest.subrange(0, spec_word_len(rest) as int));
                assert(rest.subrange(spec_word_len(rest) as int, rest.len() as int)
                    =~= v@.subrange(j as int, n as int));
                assert(spec_tokens(rest) == seq![word@] + spec_tokens(
                    v@.subrange(j as int, n as int),
                ));
                assert(spec_tokens(rest)[0] == word@);
            }
            let ghost oldlen = out@.len() as int;
            out.push(string_from_chars(&word));
            proof {
                let newrest = v@.subrange(j as int, n as int);
                assert forall|t: int|
                    0 <= t < spec_tokens(newrest).len() implies spec_tokens(newrest)[t]
                    == spec_tokens(v@)[out@.len() + t] by {
                    assert(spec_tokens(rest)[t + 1] == spec_tokens(newrest)[t]);
                    assert(spec_tokens(rest)[t + 1] == spec_tokens(v@)[oldlen + (t + 1)]);
                }
            }
            i = j;
        }
    }
    proof {
        assert(spec_tokens(v@.subrange(n as int, n as int)).len() == 0);
    }
    out
}

/// The decimal digit character for `d` (`d < 10`).
pub open spec fn spec_digit_char(d: int) -> char {
    (('0' as u32) + d) as char
}

/// The canonical decimal representation of `n` (no leading zeros).
pub open spec fn spec_dec(n: int) -> Seq<char>
    decreases n,
{
    if n < 10 {
        seq![spec_digit_char(n)]
    } else {
        spec_dec(n / 10).push(spec_digit_char(n % 10))
    }
}

fn push_dec(out: &mut Vec<char>, n: u32)
    ensures
        final(out)@ == old(out)@ + spec_dec(n as int),
    decreases n,
{
    if n >= 10 {
        push_dec(out, n / 10);
    }
    let d = (n % 10) as u8;
    out.push((d + 48) as char);
    proof {
        if n < 10 {
            assert(old(out)@ + spec_dec(n as int) =~= old(out)@.push(spec_digit_char(n as int)));
        } else {
            assert(old(out)@ + spec_dec(n as int) =~= (old(out)@ + spec_dec(n as int / 10)).push(
                spec_digit_char(n as int % 10),
            ));
        }
    }
}

/// The decimal string of `n`.
pub fn u32_to_string(n: u32) -> (r: String)
    ensures
        r@ == spec_dec(n as int),
{
    let mut out: Vec<char> = Vec::new();
    push_dec(&mut out, n);
    proof {
        assert(out@ =~= spec_dec(n as int));
    }
    string_from_chars(&out)
}

/// The numeric value of a digit sequence (most significant first).
pub open spec fn spec_digits_val(s: Seq<char>) -> int
    decreases s.len(),
{
    if s.len() == 0 {
        0
    } else {
        spec_digits_val(s.drop_last()) * 10 + ((s.last() as u32) - ('0' as u32))
    }
}

pub open spec fn spec_all_digits(s: Seq<char>) -> bool {
    forall|i: int| 0 <= i < s.len() ==> spec_is_digit(#[trigger] s[i])
}

proof fn lemma_digits_val_nonneg(s: Seq<char>)
    requires
        spec_all_digits(s),
    ensures
        spec_digits_val(s) >= 0,
    decreases s.len(),
{
    if s.len() > 0 {
        assert(forall|i: int|
            0 <= i < s.drop_last().len() ==> spec_is_digit(#[trigger] s.drop_last()[i]));
        lemma_digits_val_nonneg(s.drop_last());
        assert(spec_digits_val(s.drop_last()) * 10 >= 0) by (nonlinear_arith)
            requires
                spec_digits_val(s.drop_last()) >= 0,
        ;
        assert(spec_is_digit(s.last()));
    }
}

proof fn lemma_digits_val_mono(s: Seq<char>, i: int)
    requires
        spec_all_digits(s),
        0 <= i <= s.len(),
    ensures
        spec_digits_val(s.subrange(0, i)) <= spec_digits_val(s),
    decreases s.len() - i,
{
    if i == s.len() {
        assert(s.subrange(0, i) =~= s);
    } else {
        lemma_digits_val_mono(s, i + 1);
        let a = s.subrange(0, i);
        let b = s.subrange(0, i + 1);
        assert(b.drop_last() =~= a);
        assert(b.last() == s[i]);
        assert(spec_is_digit(s[i]));
        assert(spec_digits_val(b) == spec_digits_val(a) * 10 + ((b.last() as u32) - ('0'
            as u32)));
        assert(forall|k: int| 0 <= k < a.len() ==> spec_is_digit(#[trigger] a[k]));
        lemma_digits_val_nonneg(a);
        assert(spec_digits_val(a) <= spec_digits_val(b)) by (nonlinear_arith)
            requires
                spec_digits_val(b) == spec_digits_val(a) * 10 + ((b.last() as u32) - ('0'
                    as u32)),
                '0' <= b.last() <= '9',
                spec_digits_val(a) >= 0,
        ;
    }
}

/// Parse a `u32` from decimal digits, as `str::parse::<u32>` does on a
/// digit-only string: succeeds exactly when the input is non-empty, all
/// digits, and its value fits.
pub fn parse_u32_chars(v: &[char]) -> (r: Option<u32>)
    ensures
        r is Some <==> v@.len() > 0 && spec_all_digits(v@) && spec_digits_val(v@) <= u32::MAX,
        r matches Some(x) ==> x == spec_digits_val(v@),
{
    let n = v.len();
    if n == 0 {
        return None;
    }
    let mut acc: u32 = 0;
    let mut i: usize = 0;
    while i < n
        invariant
            n == v@.len(),
            i <= n,
            forall|j: int| 0 <= j < i ==> spec_is_digit(#[trigger] v@[j]),
            acc == spec_digits_val(v@.subrange(0, i as int)),
        decreases n - i,
    {
        let c = v[i];
        if !is_digit(c) {
            return None;
        }
        let d = (c as u32) - 48;
        proof {
            assert(v@.subrange(0, i + 1).drop_last() =~= v@.subrange(0, i as int));
        }
        if acc > (u32::MAX - d) / 10 {
            proof {
                let b = v@.subrange(0, i + 1);
                assert(spec_digits_val(b) == acc * 10 + d);
                assert(acc * 10 + d > u32::MAX) by (nonlinear_arith)
                    requires
                        acc > (u32::MAX - d) / 10,
                        d <= 9,
                        acc <= u32::MAX,
                ;
                if spec_all_digits(v@) {
                    lemma_digits_val_mono(v@, i + 1 as int);
                }
            }
            return None;
        }
        proof {
            assert(acc * 10 + d <= u32::MAX) by (nonlinear_arith)
                requires
                    acc <= (u32::MAX - d) / 10,
                    d <= 9,
                    acc >= 0,
            ;
        }
        acc = acc * 10 + d;
        i += 1;
    }
    proof {
        assert(v@.subrange(0, n as int) =~= v@);
    }
    Some(acc)
}

/// Copy of the character range `[lo, hi)` of `v`.
pub fn subrange_chars(v: &[char], lo: usize, hi: usize) -> (out: Vec<char>)
    requires
        lo <= hi <= v@.len(),
    ensures
        out@ == v@.subrange(lo as int, hi as int),
{
    let mut out: Vec<char> = Vec::new();
    let mut i = lo;
    while i < hi
        invariant
            lo <= i <= hi <= v@.len(),
            out@ =~= v@.subrange(lo as int, i as int),
        decreases hi - i,
    {
        out.push(v[i]);
        i += 1;
    }
    proof {
        assert(out@ =~= v@.subrange(lo as int, hi as int));
    }
    out
}

/// Character-for-character equality of two slices.
pub fn slice_eq_chars(a: &[char], b: &[char]) -> (r: bool)
    ensures
        r == (a@ == b@),
{
    let na = a.len();
    if na != b.len() {
        return false;
    }
    let mut i: usize = 0;
    while i < na
        invariant
            na == a@.len(),
            na == b@.len(),
            i <= na,
            forall|j: int| 0 <= j < i ==> a@[j] == b@[j],
        decreases na - i,
    {
        if a[i] != b[i] {
            return false;
        }
        i += 1;
    }
    proof {
        assert(a@ =~= b@);
    }
    true
}

/// All characters of `v` are decimal digits.
pub fn all_digits_slice(v: &[char]) -> (r: bool)
    ensures
        r == spec_all_digits(v@),
{
    let n = v.len();
    let mut i: usize = 0;
    while i < n
        invariant
            n == v@.len(),
            i <= n,
            forall|j: int| 0 <= j < i ==> spec_is_digit(#[trigger] v@[j]),
        decreases n - i,
    {
        if !is_digit(v[i]) {
            return false;
        }
        i += 1;
    }
    true
}

/// Strict lexicographic order on character sequences by code point, the
/// order `str`'s `Ord` gives on (UTF-8 encoded) strings.
pub open spec fn spec_lex_lt(a: Seq<char>, b: Seq<char>) -> bool
    decreases a.len(),
{
    if b.len() == 0 {
        false
    } else if a.len() == 0 {
        true
    } else if a[0] != b[0] {
        (a[0] as u32) < (b[0] as u32)
    } else {
        spec_lex_lt(a.drop_first(), b.drop_first())
    }
}

pub open spec fn spec_lex_le(a: Seq<char>, b: Seq<char>) -> bool {
    a == b || spec_lex_lt(a, b)
}

proof fn lemma_lex_lt_common_prefix(a: Seq<char>, b: Seq<char>, i: int)
    requires
        0 <= i <= a.len(),
        i <= b.len(),
        forall|j: int| 0 <= j < i ==> a[j] == b[j],
    ensures
        spec_lex_lt(a, b) == if i == b.len() {
            false
        } else if i == a.len() {
            true
        } else if a[i] != b[i] {
            (a[i] as u32) < (b[i] as u32)
        } else {
            spec_lex_lt(a.subrange(i + 1, a.len() as int), b.subrange(i + 1, b.len() as int))
        },
    decreases i,
{
    if i == 0 {
        if 0 < a.len() && 0 < b.len() && a[0] == b[0] {
            assert(a.drop_first() =~= a.subrange(1, a.len() as int));
            assert(b.drop_first() =~= b.subrange(1, b.len() as int));
        }
    } else {
        assert(a.len() > 0 && b.len() > 0 && a[0] == b[0]);
        let a1 = a.drop_first();
        let b1 = b.drop_first();
        lemma_lex_lt_common_prefix(a1, b1, i - 1);
        assert(spec_lex_lt(a, b) == spec_lex_lt(a1, b1));
        if i < a.len() && i < b.len() && a[i] == b[i] {
            assert(a1.subrange(i, a1.len() as int) =~= a.subrange(i + 1, a.len() as int));
            assert(b1.subrange(i, b1.len() as int) =~= b.subrange(i + 1, b.len() as int));
        }
    }
}

/// Lexicographic order is total: of two sequences one is strictly below
/// the other, or they are equal.
pub proof fn lemma_lex_total(a: Seq<char>, b: Seq<char>)
    ensures
        spec_lex_lt(a, b) || spec_lex_lt(b, a) || a == b,
    decreases a.len(),
{
    if a.len() == 0 && b.len() == 0 {
        assert(a =~= b);
    } else if b.len() == 0 {
        assert(spec_lex_lt(b, a));
    } else if a.len() == 0 {
        assert(spec_lex_lt(a, b));
    } else if a[0] != b[0] {
        vstd::utf8::char_u32_cast(a[0], a[0] as u32);
        vstd::utf8::char_u32_cast(b[0], b[0] as u32);
        assert((a[0] as u32) != (b[0] as u32));
        if (a[0] as u32) < (b[0] as u32) {
            assert(spec_lex_lt(a, b));
        } else {
            assert(spec_lex_lt(b, a));
        }
    } else if a.len() > 0 && b.len() > 0 && a[0] == b[0] {
        lemma_lex_total(a.drop_first(), b.drop_first());
        assert(spec_lex_lt(a, b) == spec_lex_lt(a.drop_first(), b.drop_first()));
        assert(spec_lex_lt(b, a) == spec_lex_lt(b.drop_first(), a.drop_first()));
        if a.drop_first() == b.drop_first() {
            assert(a.drop_first().len() == b.drop_first().len());
            assert(a.len() == b.len());
            assert forall|i: int| 0 <= i < a.len() implies a[i] == b[i] by {
                if i > 0 {
                    assert(a.drop_first()[i - 1] == b.drop_first()[i - 1]);
                    assert(a[i] == a.drop_first()[i - 1]);
                    assert(b[i] == b.drop_first()[i - 1]);
                }
            }
            assert(a =~= b);
        }
    }
}

pub proof fn lemma_lex_lt_trans(a: Seq<char>, b: Seq<char>, c: Seq<char>)
    requires
        spec_lex_lt(a, b),
        spec_lex_lt(b, c),
    ensures
        spec_lex_lt(a, c),
    decreases a.len(),
{
    if b.len() > 0 && c.len() > 0 && a.len() > 0 {
        if a[0] == b[0] && b[0] == c[0] {
            lemma_lex_lt_trans(a.drop_first(), b.drop_first(), c.drop_first());
        }
    }
}

/// Strict lexicographic order is asymmetric.
pub proof fn lemma_lex_lt_asym(a: Seq<char>, b: Seq<char>)
    ensures
        !(spec_lex_lt(a, b) && spec_lex_lt(b, a)),
    decreases a.len(),
{
    if a.len() > 0 && b.len() > 0 && a[0] == b[0] {
        lemma_lex_lt_asym(a.drop_first(), b.drop_first());
    }
}

/// Strict lexicographic comparison of two character slices.
pub fn lex_lt(a: &[char], b: &[char]) -> (r: bool)
    ensures
        r == spec_lex_lt(a@, b@),
{
    let na = a.len();
    let nb = b.len();
    let mut i: usize = 0;
    loop
        invariant
            na == a@.len(),
            nb == b@.len(),
            i <= na,
            i <= nb,
            forall|j: int| 0 <= j < i ==> a@[j] == b@[j],
        decreases na - i,
    {
        proof {
            lemma_lex_lt_common_prefix(a@, b@, i as int);
        }
        if i == nb {
            return false;
        }
        if i == na {
            return true;
        }
        if a[i] != b[i] {
            return (a[i] as u32) < (b[i] as u32);
        }
        i += 1;
    }
}

} // verus!
