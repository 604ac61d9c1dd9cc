//! Special-register normalization, deduplication and range compression.
//!
//! Register names harvested from the documents are filtered (plain indexed
//! vector/scalar registers and bare numeric literals are not special
//! registers), normalized (placeholder descriptions cleared, well-known
//! architectural registers given canonical descriptions), deduplicated by
//! case-insensitive name, and finally the mechanically-indexed families are
//! compressed into contiguous range descriptors.

use vstd::prelude::*;

use crate::strlib::{
    all_digits_slice, chars_of, is_digit, lemma_lex_lt_trans, lemma_lex_total, lex_lt,
    lower_chars, parse_u32_chars, slice_eq_chars, spec_all_digits, spec_dec, spec_digit_char,
    spec_digits_val, spec_is_digit, spec_lex_le, spec_lex_lt, spec_lower, spec_lower_char,
    spec_trim, str_eq, string_from_chars, subrange_chars, trim_chars,
};
use crate::types::{OverrideView, RegView, SpecialRegister, SpecialRegisterRange, SpecialRegisterRangeOverride, SpecialRegistersCompressed};

verus! {

/// A "see above" placeholder description, carrying no information of its
/// own.
pub open spec fn spec_is_see_above(d: Seq<char>) -> bool {
    spec_trim(d) == "<p>See above.</p>"@ || spec_lower(spec_trim(d)) == "see above"@
}

pub fn is_see_above(desc: &str) -> (r: bool)
    ensures
        r == spec_is_see_above(desc@),
{
    let v = chars_of(desc);
    let t = trim_chars(v.as_slice());
    let lit = chars_of("<p>See above.</p>");
    if slice_eq_chars(t.as_slice(), lit.as_slice()) {
        return true;
    }
    let lo = lower_chars(t.as_slice());
    let lit2 = chars_of("see above");
    slice_eq_chars(lo.as_slice(), lit2.as_slice())
}

/// A description that actually says something: non-blank and not a
/// placeholder.
pub open spec fn spec_good_desc(d: Seq<char>) -> bool {
    spec_trim(d).len() > 0 && !spec_is_see_above(d)
}

pub fn is_good_desc(desc: &str) -> (r: bool)
    ensures
        r == spec_good_desc(desc@),
{
    let v = chars_of(desc);
    let t = trim_chars(v.as_slice());
    if t.len() == 0 {
        return false;
    }
    !is_see_above(desc)
}

/// `s` with one leading sign character removed, if present.
pub open spec fn spec_strip_sign(s: Seq<char>) -> Seq<char> {
    if s.len() > 0 && (s[0] == '+' || s[0] == '-') {
        s.drop_first()
    } else {
        s
    }
}

/// Index of the first exponent marker (`e` / `E`), if any.
pub open spec fn spec_find_exp(s: Seq<char>) -> Option<nat>
    decreases s.len(),
{
    if s.len() == 0 {
        None
    } else if s[0] == 'e' || s[0] == 'E' {
        Some(0nat)
    } else {
        match spec_find_exp(s.drop_first()) {
            Some(i) => Some((i + 1) as nat),
            None => None,
        }
    }
}

proof fn lemma_find_exp_unique(s: Seq<char>, k: int)
    requires
        0 <= k <= s.len(),
        forall|j: int| 0 <= j < k ==> !(#[trigger] s[j] == 'e' || s[j] == 'E'),
        k < s.len() ==> (s[k] == 'e' || s[k] == 'E'),
    ensures
        spec_find_exp(s) == if k == s.len() {
            None::<nat>
        } else {
            Some(k as nat)
        },
    decreases s.len(),
{
    if s.len() > 0 && !(s[0] == 'e' || s[0] == 'E') {
        assert(k > 0);
        let s1 = s.drop_first();
        assert forall|j: int| 0 <= j < k - 1 implies !(#[trigger] s1[j] == 'e' || s1[j]
            == 'E') by {
            assert(s1[j] == s[j + 1]);
        }
        lemma_find_exp_unique(s1, k - 1);
    }
}

/// Index of the first decimal point, if any.
pub open spec fn spec_find_dot(s: Seq<char>) -> Option<nat>
    decreases s.len(),
{
    if s.len() == 0 {
        None
    } else if s[0] == '.' {
        Some(0nat)
    } else {
        match spec_find_dot(s.drop_first()) {
            Some(i) => Some((i + 1) as nat),
            None => None,
        }
    }
}

proof fn lemma_find_dot_unique(s: Seq<char>, k: int)
    requires
        0 <= k <= s.len(),
        forall|j: int| 0 <= j < k ==> #[trigger] s[j] != '.',
        k < s.len() ==> s[k] == '.',
    ensures
        spec_find_dot(s) == if k == s.len() {
            None::<nat>
        } else {
            Some(k as nat)
        },
    decreases s.len(),
{
    if s.len() > 0 && s[0] != '.' {
        assert(k > 0);
        let s1 = s.drop_first();
        assert forall|j: int| 0 <= j < k - 1 implies #[trigger] s1[j] != '.' by {
            assert(s1[j] == s[j + 1]);
        }
        lemma_find_dot_unique(s1, k - 1);
    }
}

/// Index of the first decimal digit, if any.
pub open spec fn spec_find_digit(s: Seq<char>) -> Option<nat>
    decreases s.len(),
{
    if s.len() == 0 {
        None
    } else if spec_is_digit(s[0]) {
        Some(0nat)
    } else {
        match spec_find_digit(s.drop_first()) {
            Some(i) => Some((i + 1) as nat),
            None => None,
        }
    }
}

proof fn lemma_find_digit_unique(s: Seq<char>, k: int)
    requires
        0 <= k <= s.len(),
        forall|j: int| 0 <= j < k ==> !spec_is_digit(#[trigger] s[j]),
        k < s.len() ==> spec_is_digit(s[k]),
    ensures
        spec_find_digit(s) == if k == s.len() {
            None::<nat>
        } else {
            Some(k as nat)
        },
    decreases s.len(),
{
    if s.len() > 0 && !spec_is_digit(s[0]) {
        assert(k > 0);
        let s1 = s.drop_first();
        assert forall|j: int| 0 <= j < k - 1 implies !spec_is_digit(#[trigger] s1[j]) by {
            assert(s1[j] == s[j + 1]);
        }
        lemma_find_digit_unique(s1, k - 1);
    }
}

/// The exponent part of a floating-point literal: an optional sign
/// followed by at least one digit.
pub open spec fn spec_is_exp_part(s: Seq<char>) -> bool {
    let b = spec_strip_sign(s);
    b.len() > 0 && spec_all_digits(b)
}

/// The mantissa of a floating-point literal: digits with at most one
/// decimal point and at least one digit somewhere.
pub open spec fn spec_is_mantissa(m: Seq<char>) -> bool {
    match spec_find_dot(m) {
        Some(i) => {
            let pre = m.subrange(0, i as int);
            let post = m.subrange(i as int + 1, m.len() as int);
            spec_all_digits(pre) && spec_all_digits(post) && (pre.len() > 0 || post.len() > 0)
        },
        None => m.len() > 0 && spec_all_digits(m),
    }
}

/// The grammar `str::parse::<f64>` accepts: an optional sign, then one of
/// the keywords `inf` / `infinity` / `nan` (any case) or a decimal number
/// with optional fraction and exponent.
pub open spec fn spec_is_float_literal(s: Seq<char>) -> bool {
    let b = spec_strip_sign(s);
    if spec_lower(b) == "inf"@ || spec_lower(b) == "infinity"@ || spec_lower(b) == "nan"@ {
        true
    } else {
        match spec_find_exp(b) {
            Some(i) => spec_is_mantissa(b.subrange(0, i as int)) && spec_is_exp_part(
                b.subrange(i as int + 1, b.len() as int),
            ),
            None => spec_is_mantissa(b),
        }
    }
}

fn is_mantissa_chars(m: &[char]) -> (r: bool)
    ensures
        r == spec_is_mantissa(m@),
{
    let n = m.len();
    let mut k: usize = 0;
    while k < n && m[k] != '.'
        invariant
            n == m@.len(),
            k <= n,
            forall|j: int| 0 <= j < k ==> #[trigger] m@[j] != '.',
        decreases n - k,
    {
        k += 1;
    }
    proof {
        lemma_find_dot_unique(m@, k as int);
    }
    if k < n {
        let pre = subrange_chars(m, 0, k);
        let post = subrange_chars(m, k + 1, n);
        all_digits_slice(pre.as_slice()) && all_digits_slice(post.as_slice()) && (pre.len() > 0
            || post.len() > 0)
    } else {
        n > 0 && all_digits_slice(m)
    }
}

fn is_exp_part_chars(s: &[char]) -> (r: bool)
    ensures
        r == spec_is_exp_part(s@),
{
    let n = s.len();
    let b = if n > 0 && (s[0] == '+' || s[0] == '-') {
        subrange_chars(s, 1, n)
    } else {
        subrange_chars(s, 0, n)
    };
    proof {
        assert(s@.subrange(0, n as int) =~= s@);
        if n > 0 && (s@[0] == '+' || s@[0] == '-') {
            assert(s@.subrange(1, n as int) =~= s@.drop_first());
        }
    }
    b.len() > 0 && all_digits_slice(b.as_slice())
}

/// Whether `name` is a bare numeric literal (it parses as a
/// floating-point number).
pub fn is_numeric_literal(name: &str) -> (r: bool)
    ensures
        r == spec_is_float_literal(name@),
{
    let v = chars_of(name);
    let n = v.len();
    let b = if n > 0 && (v[0] == '+' || v[0] == '-') {
        subrange_chars(v.as_slice(), 1, n)
    } else {
        subrange_chars(v.as_slice(), 0, n)
    };
    proof {
        assert(v@.subrange(0, n as int) =~= v@);
        if n > 0 && (v@[0] == '+' || v@[0] == '-') {
            assert(v@.subrange(1, n as int) =~= v@.drop_first());
        }
    }
    let lb = lower_chars(b.as_slice());
    let kw1 = chars_of("inf");
    let kw2 = chars_of("infinity");
    let kw3 = chars_of("nan");
    if slice_eq_chars(lb.as_slice(), kw1.as_slice()) || slice_eq_chars(
        lb.as_slice(),
        kw2.as_slice(),
    ) || slice_eq_chars(lb.as_slice(), kw3.as_slice()) {
        return true;
    }
    let bn = b.len();
    let mut k: usize = 0;
    while k < bn && !(b[k] == 'e' || b[k] == 'E')
        invariant
            bn == b@.len(),
            k <= bn,
            forall|j: int| 0 <= j < k ==> !(#[trigger] b@[j] == 'e' || b@[j] == 'E'),
        decreases bn - k,
    {
        k += 1;
    }
    proof {
        lemma_find_exp_unique(b@, k as int);
    }
    if k < bn {
        let mant = subrange_chars(b.as_slice(), 0, k);
        let exp = subrange_chars(b.as_slice(), k + 1, bn);
        is_mantissa_chars(mant.as_slice()) && is_exp_part_chars(exp.as_slice())
    } else {
        proof {
            assert(b@.subrange(0, bn as int) =~= b@);
        }
        is_mantissa_chars(b.as_slice())
    }
}

/// A plain indexed vector or scalar register name: `v` or `s` followed by
/// digits only.
pub open spec fn spec_is_plain_register(s: Seq<char>) -> bool {
    s.len() >= 2 && (s[0] == 'v' || s[0] == 's') && spec_all_digits(s.drop_first())
}

pub fn is_plain_vector_or_scalar_register(name: &str) -> (r: bool)
    ensures
        r == spec_is_plain_register(name@),
{
    let v = chars_of(name);
    let n = v.len();
    if n < 2 {
        return false;
    }
    if !(v[0] == 'v' || v[0] == 's') {
        return false;
    }
    let rest = subrange_chars(v.as_slice(), 1, n);
    proof {
        assert(rest@ =~= name@.drop_first());
    }
    all_digits_slice(rest.as_slice())
}

/// A harvested name that is not a special register at all: a plain
/// indexed register or a bare numeric literal.
pub open spec fn spec_is_ignored_register(s: Seq<char>) -> bool {
    spec_is_plain_register(s) || spec_is_float_literal(s)
}

pub fn is_ignored_special_register(name: &str) -> (r: bool)
    ensures
        r == spec_is_ignored_register(name@),
{
    is_plain_vector_or_scalar_register(name) || is_numeric_literal(name)
}

/// The canonical descriptions of the well-known architectural registers,
/// keyed by lower-cased name.
pub open spec fn spec_register_override(s: Seq<char>) -> Option<Seq<char>> {
    if s == "exec"@ {
        Some("Wavefront execution mask (64-bit). Each bit enables a lane."@)
    } else if s == "exec_lo"@ {
        Some("Lower 32 bits of EXEC (lane execution mask)."@)
    } else if s == "exec_hi"@ {
        Some("Upper 32 bits of EXEC (lane execution mask)."@)
    } else if s == "scc"@ {
        Some("Scalar condition code (single-bit compare result)."@)
    } else if s == "src_scc"@ {
        Some("Scalar condition code (single-bit compare result)."@)
    } else if s == "vcc"@ {
        Some("Vector condition code register (64-bit). Per-lane compare results."@)
    } else if s == "vcc_lo"@ {
        Some("Lower 32 bits of VCC (vector condition codes)."@)
    } else if s == "vcc_hi"@ {
        Some("Upper 32 bits of VCC (vector condition codes)."@)
    } else if s == "pc"@ {
        Some("Program counter (64-bit)."@)
    } else if s == "flat_scratch"@ {
        Some("Flat scratch base/size pair (64-bit)."@)
    } else if s == "flat_scratch_lo"@ {
        Some("Lower 32 bits of FLAT_SCRATCH (base/size)."@)
    } else if s == "flat_scratch_hi"@ {
        Some("Upper 32 bits of FLAT_SCRATCH (base/size)."@)
    } else {
        None
    }
}

/// Canonical description for a well-known register name (already
/// lower-cased), if it is one.
pub fn special_register_override(name: &str) -> (r: Option<&'static str>)
    ensures
        r.deep_view() == spec_register_override(name@),
{
    if str_eq(name, "exec") {
        Some("Wavefront execution mask (64-bit). Each bit enables a lane.")
    } else if str_eq(name, "exec_lo") {
        Some("Lower 32 bits of EXEC (lane execution mask).")
    } else if str_eq(name, "exec_hi") {
        Some("Upper 32 bits of EXEC (lane execution mask).")
    } else if str_eq(name, "scc") {
        Some("Scalar condition code (single-bit compare result).")
    } else if str_eq(name, "src_scc") {
        Some("Scalar condition code (single-bit compare result).")
    } else if str_eq(name, "vcc") {
        Some("Vector condition code register (64-bit). Per-lane compare results.")
    } else if str_eq(name, "vcc_lo") {
        Some("Lower 32 bits of VCC (vector condition codes).")
    } else if str_eq(name, "vcc_hi") {
        Some("Upper 32 bits of VCC (vector condition codes).")
    } else if str_eq(name, "pc") {
        Some("Program counter (64-bit).")
    } else if str_eq(name, "flat_scratch") {
        Some("Flat scratch base/size pair (64-bit).")
    } else if str_eq(name, "flat_scratch_lo") {
        Some("Lower 32 bits of FLAT_SCRATCH (base/size).")
    } else if str_eq(name, "flat_scratch_hi") {
        Some("Upper 32 bits of FLAT_SCRATCH (base/size).")
    } else {
        None
    }
}

/// The normalized form of a harvested register: a placeholder description
/// is cleared, and a well-known name forces its canonical description.
pub open spec fn spec_normalized_desc(name: Seq<char>, desc: Option<Seq<char>>) -> Option<
    Seq<char>,
> {
    let cleared = match desc {
        Some(d) => if spec_is_see_above(d) {
            None
        } else {
            Some(d)
        },
        None => None,
    };
    match spec_register_override(spec_lower(name)) {
        Some(o) => Some(o),
        None => cleared,
    }
}

/// Normalize one harvested register record.
pub fn normalize_special_register(reg: SpecialRegister) -> (r: SpecialRegister)
    ensures
        r@.name == reg@.name,
        r@.description == spec_normalized_desc(reg@.name, reg@.description),
{
    let mut reg = reg;
    let clear = match &reg.description {
        Some(d) => is_see_above(d.as_str()),
        None => false,
    };
    if clear {
        reg.description = None;
    }
    let lower_name = crate::strlib::str_to_lower(reg.name.as_str());
    if let Some(od) = special_register_override(lower_name.as_str()) {
        reg.description = Some(od.to_owned());
    }
    reg
}

/// How a name splits into a non-numeric prefix and a numeric suffix: at
/// the first digit, with both parts non-empty, the suffix all digits, and
/// its value within `u32` range.
pub open spec fn spec_split_numeric(s: Seq<char>) -> Option<(Seq<char>, u32)> {
    match spec_find_digit(s) {
        Some(i) => if i > 0 {
            let digits = s.subrange(i as int, s.len() as int);
            if spec_all_digits(digits) && spec_digits_val(digits) <= u32::MAX {
                Some((s.subrange(0, i as int), spec_digits_val(digits) as u32))
            } else {
                None
            }
        } else {
            None
        },
        None => None,
    }
}

/// Split a register name into prefix and numeric suffix, when it has that
/// shape.
pub fn split_numeric_suffix(name: &str) -> (r: Option<(String, u32)>)
    ensures
        match r {
            Some(p) => spec_split_numeric(name@) == Some((p.0@, p.1)),
            None => spec_split_numeric(name@) is None,
        },
{
    let v = chars_of(name);
    let n = v.len();
    let mut k: usize = 0;
    while k < n && !is_digit(v[k])
        invariant
            n == v@.len(),
            v@ == name@,
            k <= n,
            forall|j: int| 0 <= j < k ==> !spec_is_digit(#[trigger] name@[j]),
        decreases n - k,
    {
        k += 1;
    }
    proof {
        lemma_find_digit_unique(name@, k as int);
    }
    if k == n || k == 0 {
        return None;
    }
    let prefix = subrange_chars(v.as_slice(), 0, k);
    let digits = subrange_chars(v.as_slice(), k, n);
    match parse_u32_chars(digits.as_slice()) {
        Some(num) => Some((string_from_chars(&prefix), num)),
        None => None,
    }
}

/// The views of a sequence of registers.
pub open spec fn reg_views(s: Seq<SpecialRegister>) -> Seq<RegView> {
    s.map_values(|r: SpecialRegister| r@)
}

proof fn lemma_reg_views_remove(s: Seq<SpecialRegister>, i: int)
    requires
        0 <= i < s.len(),
    ensures
        reg_views(s.remove(i)) =~= reg_views(s).remove(i),
{
}

fn name_lt(a: &String, b: &String) -> (r: bool)
    ensures
        r == spec_lex_lt(a@, b@),
{
    let va = chars_of(a.as_str());
    let vb = chars_of(b.as_str());
    lex_lt(va.as_slice(), vb.as_slice())
}

fn min_name_index(v: &Vec<SpecialRegister>) -> (k: usize)
    requires
        v@.len() > 0,
    ensures
        k < v@.len(),
        forall|j: int| 0 <= j < v@.len() ==> spec_lex_le(v@[k as int]@.name, (#[trigger] v@[j])@.name),
{
    let mut best: usize = 0;
    let mut j: usize = 1;
    while j < v.len()
        invariant
            best < j,
            j <= v@.len(),
            forall|l: int| 0 <= l < j ==> spec_lex_le(v@[best as int]@.name, (#[trigger] v@[l])@.name),
        decreases v@.len() - j,
    {
        if name_lt(&v[j].name, &v[best].name) {
            proof {
                assert forall|l: int| 0 <= l <= j implies spec_lex_le(
                    v@[j as int]@.name,
                    (#[trigger] v@[l])@.name,
                ) by {
                    if l < j {
                        if v@[best as int]@.name == v@[l]@.name {
                        } else {
                            lemma_lex_lt_trans(v@[j as int]@.name, v@[best as int]@.name, v@[l]@.name);
                        }
                    }
                }
            }
            best = j;
        } else {
            proof {
                lemma_lex_total(v@[j as int]@.name, v@[best as int]@.name);
            }
        }
        j += 1;
    }
    best
}

/// Sort registers by name, lexicographically by code point.
pub fn sort_registers_by_name(v: Vec<SpecialRegister>) -> (out: Vec<SpecialRegister>)
    ensures
        reg_views(out@).to_multiset() == reg_views(v@).to_multiset(),
        forall|i: int, j: int|
            0 <= i < j < out@.len() ==> spec_lex_le((#[trigger] out@[i])@.name, (#[trigger] out@[j])@.name),
{
    broadcast use vstd::seq_lib::group_to_multiset_ensures;
    broadcast use vstd::multiset::group_multiset_axioms;

    let mut rem = v;
    let mut out: Vec<SpecialRegister> = Vec::new();
    let ghost total = reg_views(rem@).to_multiset();
    proof {
        assert(reg_views(out@).to_multiset().add(reg_views(rem@).to_multiset()) =~= total);
    }
    while rem.len() > 0
        invariant
            total == reg_views(v@).to_multiset(),
            reg_views(out@).to_multiset().add(reg_views(rem@).to_multiset()) == total,
            forall|i: int, j: int|
                0 <= i < j < out@.len() ==> spec_lex_le(
                    (#[trigger] out@[i])@.name,
                    (#[trigger] out@[j])@.name,
                ),
            forall|i: int, j: int|
                0 <= i < out@.len() && 0 <= j < rem@.len() ==> spec_lex_le(
                    (#[trigger] out@[i])@.name,
                    (#[trigger] rem@[j])@.name,
                ),
        decreases rem@.len(),
    {
        let k = min_name_index(&rem);
        let ghost old_rem = rem@;
        let ghost old_out = out@;
        let r = rem.remove(k);
        out.push(r);
        proof {
            lemma_reg_views_remove(old_rem, k as int);
            assert(reg_views(rem@) == reg_views(old_rem).remove(k as int));
            vstd::seq_lib::to_multiset_remove::<RegView>(reg_views(old_rem), k as int);
            assert(reg_views(out@) =~= reg_views(old_out).push(old_rem[k as int]@));
            vstd::seq_lib::to_multiset_build::<RegView>(reg_views(old_out), old_rem[k as int]@);
            assert(reg_views(old_rem).contains(reg_views(old_rem)[k as int]));
            vstd::seq_lib::to_multiset_contains::<RegView>(
                reg_views(old_rem),
                reg_views(old_rem)[k as int],
            );
            assert(reg_views(old_rem).to_multiset().count(reg_views(old_rem)[k as int]) > 0);
            assert(reg_views(out@).to_multiset().add(reg_views(rem@).to_multiset()) =~= total);
        }
    }
    out
}

/// Position of the entry whose lower-cased name equals `key`, if any.
fn find_by_key(acc: &Vec<SpecialRegister>, key: &str) -> (r: Option<usize>)
    ensures
        match r {
            Some(j) => j < acc@.len() && spec_lower(acc@[j as int]@.name) == key@,
            None => forall|l: int|
                0 <= l < acc@.len() ==> spec_lower((#[trigger] acc@[l])@.name) != key@,
        },
{
    let n = acc.len();
    let mut j: usize = 0;
    while j < n
        invariant
            n == acc@.len(),
            j <= n,
            forall|l: int| 0 <= l < j ==> spec_lower((#[trigger] acc@[l])@.name) != key@,
        decreases n - j,
    {
        let entry_key = crate::strlib::str_to_lower(acc[j].name.as_str());
        if str_eq(entry_key.as_str(), key) {
            return Some(j);
        }
        j += 1;
    }
    None
}

/// What merging a duplicate (same case-insensitive name) does to the kept
/// record: a present description replaces the stored one when the stored
/// one is missing or strictly shorter.
pub open spec fn spec_reg_merge(old: RegView, nd: Option<Seq<char>>) -> RegView {
    match nd {
        Some(d) => match old.description {
            Some(cur) => if d.len() > cur.len() {
                RegView { name: old.name, description: Some(d) }
            } else {
                old
            },
            None => RegView { name: old.name, description: Some(d) },
        },
        None => old,
    }
}

/// The accumulated register table after filtering, normalizing and
/// deduplicating the input sequence, keyed by lower-cased name.
pub open spec fn spec_collect_map(rs: Seq<RegView>) -> Map<Seq<char>, RegView>
    decreases rs.len(),
{
    if rs.len() == 0 {
        Map::empty()
    } else {
        let m = spec_collect_map(rs.drop_last());
        let r = rs.last();
        if spec_is_ignored_register(spec_lower(r.name)) {
            m
        } else {
            let nr = RegView {
                name: r.name,
                description: spec_normalized_desc(r.name, r.description),
            };
            let k = spec_lower(nr.name);
            if m.dom().contains(k) {
                m.insert(k, spec_reg_merge(m[k], nr.description))
            } else {
                m.insert(k, nr)
            }
        }
    }
}

/// Filter, normalize, deduplicate and sort the registers harvested from
/// all documents: ignored names are dropped, descriptions are normalized,
/// duplicates by case-insensitive name keep the longer description, and
/// the result is sorted by name.
pub fn collect_special_registers(all: Vec<SpecialRegister>) -> (out: Vec<SpecialRegister>)
    ensures
        forall|i: int, j: int|
            0 <= i < j < out@.len() ==> spec_lex_le(
                (#[trigger] out@[i])@.name,
                (#[trigger] out@[j])@.name,
            ),
        forall|i: int|
            0 <= i < out@.len() ==> {
                let m = spec_collect_map(reg_views(all@));
                m.dom().contains(spec_lower((#[trigger] out@[i])@.name)) && m[spec_lower(
                    out@[i]@.name,
                )] == out@[i]@
            },
        forall|i: int, j: int|
            0 <= i < j < out@.len() ==> spec_lower((#[trigger] out@[i])@.name) != spec_lower(
                (#[trigger] out@[j])@.name,
            ),
        forall|k: Seq<char>|
            spec_collect_map(reg_views(all@)).dom().contains(k) ==> exists|i: int|
                0 <= i < out@.len() && spec_lower((#[trigger] out@[i])@.name) == k,
{
    broadcast use vstd::seq_lib::group_to_multiset_ensures;
    broadcast use vstd::multiset::group_multiset_axioms;

    let ghost rr = reg_views(all@);
    let mut acc: Vec<SpecialRegister> = Vec::new();
    let n = all.len();
    let mut t: usize = 0;
    proof {
        assert(rr.subrange(0, 0) =~= Seq::<RegView>::empty());
    }
    while t < n
        invariant
            n == all@.len(),
            rr == reg_views(all@),
            t <= n,
            forall|i: int|
                0 <= i < acc@.len() ==> {
                    let m = spec_collect_map(rr.subrange(0, t as int));
                    m.dom().contains(spec_lower((#[trigger] acc@[i])@.name)) && m[spec_lower(
                        acc@[i]@.name,
                    )] == acc@[i]@
                },
            forall|i: int, j: int|
                0 <= i < j < acc@.len() ==> spec_lower((#[trigger] acc@[i])@.name) != spec_lower(
                    (#[trigger] acc@[j])@.name,
                ),
            forall|k: Seq<char>|
                spec_collect_map(rr.subrange(0, t as int)).dom().contains(k) ==> exists|i: int|
                    0 <= i < acc@.len() && spec_lower((#[trigger] acc@[i])@.name) == k,
        decreases n - t,
    {
        let ghost m_old = spec_collect_map(rr.subrange(0, t as int));
        let ghost m_new = spec_collect_map(rr.subrange(0, t + 1));
        proof {
            assert(rr.subrange(0, t + 1).drop_last() =~= rr.subrange(0, t as int));
            assert(rr.subrange(0, t + 1).last() == rr[t as int]);
            assert(rr[t as int] == all@[t as int]@);
        }
        let reg = all[t].clone();
        proof {
            assert(reg@ == all@[t as int]@);
        }
        let lower_name = crate::strlib::str_to_lower(reg.name.as_str());
        if !is_ignored_special_register(lower_name.as_str()) {
            let reg = normalize_special_register(reg);
            let ghost nr = reg@;
            let key = crate::strlib::str_to_lower(reg.name.as_str());
            if let Some(j) = find_by_key(&acc, key.as_str()) {
                proof {
                    assert(spec_lower(acc@[j as int]@.name) == key@);
                    assert(m_old.dom().contains(key@) && m_old[key@] == acc@[j as int]@);
                    assert(m_new == m_old.insert(key@, spec_reg_merge(m_old[key@], nr.description)));
                }
                let ghost old_acc = acc@;
                let entry = acc.remove(j);
                let replace = match &reg.description {
                    Some(d) => match &entry.description {
                        Some(cur) => d.as_str().unicode_len() > cur.as_str().unicode_len(),
                        None => true,
                    },
                    None => false,
                };
                let merged = if replace {
                    SpecialRegister {
                        name: entry.name,
                        description: crate::types::clone_opt_string(&reg.description),
                    }
                } else {
                    entry
                };
                acc.insert(j, merged);
                proof {
                    assert(acc@ =~= old_acc.update(j as int, acc@[j as int]));
                    assert(acc@[j as int]@ == spec_reg_merge(m_old[key@], nr.description));
                    assert(acc@[j as int]@.name == old_acc[j as int]@.name);
                    assert forall|i: int| 0 <= i < acc@.len() implies {
                        m_new.dom().contains(spec_lower((#[trigger] acc@[i])@.name)) && m_new[
                            spec_lower(acc@[i]@.name)] == acc@[i]@
                    } by {
                        if i != j {
                            assert(acc@[i] == old_acc[i]);
                            assert(spec_lower(acc@[i]@.name) != key@);
                        }
                    }
                    assert forall|k: Seq<char>| m_new.dom().contains(k) implies exists|i: int|
                        0 <= i < acc@.len() && spec_lower((#[trigger] acc@[i])@.name) == k by {
                        if k == key@ {
                            assert(spec_lower(acc@[j as int]@.name) == k);
                        } else {
                            let i = choose|i: int|
                                0 <= i < old_acc.len() && spec_lower(old_acc[i]@.name) == k;
                            assert(spec_lower(acc@[i]@.name) == k);
                        }
                    }
                }
            } else {
                proof {
                    assert(forall|l: int|
                        0 <= l < acc@.len() ==> spec_lower((#[trigger] acc@[l])@.name) != key@);
                    assert(!m_old.dom().contains(key@)) by {
                        if m_old.dom().contains(key@) {
                            let i = choose|i: int|
                                0 <= i < acc@.len() && spec_lower((#[trigger] acc@[i])@.name)
                                    == key@;
                        }
                    }
                    assert(m_new == m_old.insert(key@, nr));
                }
                let ghost old_acc = acc@;
                acc.push(reg);
                proof {
                    assert(acc@ =~= old_acc.push(reg));
                    assert forall|k: Seq<char>| m_new.dom().contains(k) implies exists|i: int|
                        0 <= i < acc@.len() && spec_lower((#[trigger] acc@[i])@.name) == k by {
                        if k == key@ {
                            assert(spec_lower(acc@[old_acc.len() as int]@.name) == k);
                        } else {
                            let i = choose|i: int|
                                0 <= i < old_acc.len() && spec_lower(old_acc[i]@.name) == k;
                            assert(spec_lower(acc@[i]@.name) == k);
                        }
                    }
                }
            }
        } else {
            proof {
                assert(m_new == m_old);
            }
        }
        t += 1;
    }
    proof {
        assert(rr.subrange(0, n as int) =~= rr);
    }
    let sorted = sort_registers_by_name(acc);
    proof {
        let ghost m = spec_collect_map(rr);
        let sv = reg_views(sorted@);
        let av = reg_views(acc@);
        assert forall|i: int| 0 <= i < sorted@.len() implies {
            let k = spec_lower((#[trigger] sorted@[i])@.name);
            m.dom().contains(k) && m[k] == sorted@[i]@
        } by {
            assert(sv.to_multiset().count(sv[i]) > 0);
            assert(av.to_multiset().count(sv[i]) > 0);
            assert(av.contains(sv[i]));
            let j = choose|j: int| 0 <= j < av.len() && av[j] == sv[i];
            assert(acc@[j]@ == sorted@[i]@);
        }
        assert forall|k: Seq<char>| m.dom().contains(k) implies exists|i: int|
            0 <= i < sorted@.len() && spec_lower((#[trigger] sorted@[i])@.name) == k by {
            let j = choose|j: int| 0 <= j < acc@.len() && spec_lower(acc@[j]@.name) == k;
            assert(av.to_multiset().count(av[j]) > 0);
            assert(sv.to_multiset().count(av[j]) > 0);
            assert(sv.contains(av[j]));
            let i = choose|i: int| 0 <= i < sv.len() && sv[i] == av[j];
            assert(spec_lower(sorted@[i]@.name) == k);
        }
        assert forall|i: int, j: int|
            0 <= i < j < sorted@.len() implies spec_lower(
            (#[trigger] sorted@[i])@.name,
        ) != spec_lower((#[trigger] sorted@[j])@.name) by {
            if spec_lower(sorted@[i]@.name) == spec_lower(sorted@[j]@.name) {
                // two distinct positions in the accumulator would share a key
                if sv[i] == sv[j] {
                    let ms = sv.to_multiset();
                    assert(sv.remove(i).to_multiset() == ms.remove(sv[i]));
                    assert(sv.remove(i).to_multiset().count(sv[j]) > 0) by {
                        assert(sv.remove(i)[j - 1] == sv[j]);
                        assert(sv.remove(i).contains(sv[j]));
                    }
                    assert(ms.count(sv[i]) >= 2);
                    assert(av.to_multiset().count(sv[i]) >= 2);
                    lemma_dup_positions(av, sv[i]);
                    let (a, b) = choose|a: int, b: int|
                        0 <= a < b < av.len() && av[a] == sv[i] && av[b] == sv[i];
                    assert(spec_lower(acc@[a]@.name) == spec_lower(acc@[b]@.name));
                } else {
                    let ki = spec_lower(sv[i].name);
                    assert(m[ki] == sv[i] && m[ki] == sv[j]);
                }
            }
        }
    }
    sorted
}

/// Views of indexed register pairs.
pub open spec fn pair_views(s: Seq<(u32, SpecialRegister)>) -> Seq<(u32, RegView)> {
    s.map_values(|p: (u32, SpecialRegister)| (p.0, p.1@))
}

proof fn lemma_pair_views_remove(s: Seq<(u32, SpecialRegister)>, i: int)
    requires
        0 <= i < s.len(),
    ensures
        pair_views(s.remove(i)) =~= pair_views(s).remove(i),
{
}

/// Stable insertion of a family member into a key-sorted family: after
/// all members with an index less than or equal to its own.
pub open spec fn spec_insert_member(s: Seq<(u32, RegView)>, x: (u32, RegView)) -> Seq<
    (u32, RegView),
>
    decreases s.len(),
{
    if s.len() == 0 {
        seq![x]
    } else if s.last().0 > x.0 {
        spec_insert_member(s.drop_last(), x).push(s.last())
    } else {
        s.push(x)
    }
}

/// Stable sort of a family by index.
pub open spec fn spec_sort_family(s: Seq<(u32, RegView)>) -> Seq<(u32, RegView)>
    decreases s.len(),
{
    if s.len() == 0 {
        Seq::empty()
    } else {
        spec_insert_member(spec_sort_family(s.drop_last()), s.last())
    }
}

proof fn lemma_insert_member_at(s: Seq<(u32, RegView)>, x: (u32, RegView), j: int)
    requires
        0 <= j <= s.len(),
        forall|k: int| j <= k < s.len() ==> (#[trigger] s[k]).0 > x.0,
        j > 0 ==> s[j - 1].0 <= x.0,
    ensures
        spec_insert_member(s, x) == s.subrange(0, j) + seq![x] + s.subrange(j, s.len() as int),
    decreases s.len(),
{
    if s.len() == 0 {
        assert(spec_insert_member(s, x) =~= s.subrange(0, j) + seq![x] + s.subrange(
            j,
            s.len() as int,
        ));
    } else if j == s.len() {
        assert(spec_insert_member(s, x) == s.push(x));
        assert(s.push(x) =~= s.subrange(0, j) + seq![x] + s.subrange(j, s.len() as int));
    } else {
        assert(s.last().0 > x.0);
        let d = s.drop_last();
        assert forall|k: int| j <= k < d.len() implies (#[trigger] d[k]).0 > x.0 by {
            assert(d[k] == s[k]);
        }
        if j > 0 {
            assert(d[j - 1] == s[j - 1]);
        }
        lemma_insert_member_at(d, x, j);
        assert(spec_insert_member(s, x) == (d.subrange(0, j) + seq![x] + d.subrange(
            j,
            d.len() as int,
        )).push(s.last()));
        assert((d.subrange(0, j) + seq![x] + d.subrange(j, d.len() as int)).push(s.last()) =~= s
            .subrange(0, j) + seq![x] + s.subrange(j, s.len() as int));
    }
}

/// Inserting preserves the family's members.
proof fn lemma_insert_member_ms(s: Seq<(u32, RegView)>, x: (u32, RegView))
    ensures
        spec_insert_member(s, x).to_multiset() == s.to_multiset().insert(x),
    decreases s.len(),
{
    broadcast use vstd::seq_lib::group_to_multiset_ensures;
    broadcast use vstd::multiset::group_multiset_axioms;

    if s.len() == 0 {
        assert(spec_insert_member(s, x) =~= Seq::<(u32, RegView)>::empty().push(x));
        assert(Seq::<(u32, RegView)>::empty().push(x).to_multiset() =~= s.to_multiset().insert(x));
    } else if s.last().0 > x.0 {
        lemma_insert_member_ms(s.drop_last(), x);
        assert(spec_insert_member(s.drop_last(), x).push(s.last()).to_multiset()
            == spec_insert_member(s.drop_last(), x).to_multiset().insert(s.last()));
        assert(s.drop_last().push(s.last()) =~= s);
        assert(s.drop_last().push(s.last()).to_multiset() == s.drop_last().to_multiset().insert(
            s.last(),
        ));
        assert(spec_insert_member(s, x).to_multiset() =~= s.to_multiset().insert(x));
    } else {
        assert(s.push(x).to_multiset() == s.to_multiset().insert(x));
    }
}

/// The sorted family holds exactly the family's members.
pub proof fn lemma_sort_family_ms(s: Seq<(u32, RegView)>)
    ensures
        spec_sort_family(s).to_multiset() == s.to_multiset(),
    decreases s.len(),
{
    broadcast use vstd::seq_lib::group_to_multiset_ensures;
    broadcast use vstd::multiset::group_multiset_axioms;

    if s.len() > 0 {
        lemma_sort_family_ms(s.drop_last());
        lemma_insert_member_ms(spec_sort_family(s.drop_last()), s.last());
        assert(s.drop_last().push(s.last()) =~= s);
        assert(s.drop_last().push(s.last()).to_multiset() == s.drop_last().to_multiset().insert(
            s.last(),
        ));
    }
}

/// Sort an indexed family ascending by index, stably.
pub fn sort_by_index(v: Vec<(u32, SpecialRegister)>) -> (out: Vec<(u32, SpecialRegister)>)
    ensures
        pair_views(out@) == spec_sort_family(pair_views(v@)),
{
    let n = v.len();
    let mut rem = v;
    let mut out: Vec<(u32, SpecialRegister)> = Vec::new();
    let mut t: usize = 0;
    proof {
        assert(pair_views(rem@).subrange(0, 0) =~= Seq::<(u32, RegView)>::empty());
        assert(pair_views(out@) =~= spec_sort_family(Seq::<(u32, RegView)>::empty()));
    }
    while t < n
        invariant
            n == rem@.len(),
            t <= n,
            pair_views(out@) == spec_sort_family(pair_views(rem@).subrange(0, t as int)),
        decreases n - t,
    {
        proof {
            assert(pair_views(rem@).subrange(0, t + 1).drop_last() =~= pair_views(rem@).subrange(
                0,
                t as int,
            ));
            assert(pair_views(rem@).subrange(0, t + 1).last() == pair_views(rem@)[t as int]);
        }
        let xk = rem[t].0;
        let x = (xk, rem[t].1.clone());
        proof {
            assert(x.1@ == rem@[t as int].1@);
            assert((x.0, x.1@) == pair_views(rem@)[t as int]);
        }
        let mut j = out.len();
        while j > 0 && out[j - 1].0 > xk
            invariant
                j <= out@.len(),
                forall|k: int|
                    j <= k < out@.len() ==> (#[trigger] pair_views(out@)[k]).0 > xk,
            decreases j,
        {
            proof {
                assert(pair_views(out@)[j - 1].0 == out@[j - 1].0);
            }
            j = j - 1;
        }
        proof {
            if j > 0 {
                assert(pair_views(out@)[j - 1].0 == out@[j - 1].0);
            }
            lemma_insert_member_at(pair_views(out@), (x.0, x.1@), j as int);
        }
        let ghost old_out = out@;
        out.insert(j, x);
        proof {
            assert(pair_views(out@) =~= pair_views(old_out).subrange(0, j as int) + seq![
                pair_views(out@)[j as int],
            ] + pair_views(old_out).subrange(j as int, old_out.len() as int));
        }
        t += 1;
    }
    proof {
        assert(pair_views(rem@).subrange(0, n as int) =~= pair_views(rem@));
    }
    out
}

/// The fixed set of name prefixes known to form real contiguous register
/// files, the only ones eligible for range compression.
pub open spec fn spec_eligible_prefix(p: Seq<char>) -> bool {
    p == "attr"@ || p == "param"@ || p == "mrt"@ || p == "pos"@ || p == "ttmp"@
}

pub fn is_eligible_prefix(p: &str) -> (r: bool)
    ensures
        r == spec_eligible_prefix(p@),
{
    str_eq(p, "attr") || str_eq(p, "param") || str_eq(p, "mrt") || str_eq(p, "pos") || str_eq(
        p,
        "ttmp",
    )
}

/// How many family members carry exactly the description `d`.
pub open spec fn spec_desc_count(items: Seq<(u32, RegView)>, d: Seq<char>) -> int {
    items.filter(|it: (u32, RegView)| it.1.description == Some(d)).len() as int
}

proof fn lemma_desc_count_push(items: Seq<(u32, RegView)>, x: (u32, RegView), d: Seq<char>)
    ensures
        spec_desc_count(items.push(x), d) == spec_desc_count(items, d) + if x.1.description
            == Some(d) {
            1int
        } else {
            0int
        },
{
    broadcast use Seq::lemma_filter_push;

    assert(spec_desc_count(items.push(x), d) == items.push(x).filter(
        |it: (u32, RegView)| it.1.description == Some(d),
    ).len() as int);
}

/// Count the family members carrying exactly description `d`.
fn desc_count(items: &Vec<(u32, SpecialRegister)>, d: &str) -> (r: usize)
    ensures
        r == spec_desc_count(pair_views(items@), d@),
{
    broadcast use vstd::seq_lib::group_filter_ensures;

    let n = items.len();
    let mut cnt: usize = 0;
    let mut i: usize = 0;
    proof {
        assert(pair_views(items@).subrange(0, 0) =~= Seq::<(u32, RegView)>::empty());
        assert(spec_desc_count(Seq::<(u32, RegView)>::empty(), d@) == 0);
    }
    while i < n
        invariant
            n == items@.len(),
            i <= n,
            cnt <= i,
            cnt == spec_desc_count(pair_views(items@).subrange(0, i as int), d@),
        decreases n - i,
    {
        proof {
            assert(pair_views(items@).subrange(0, i + 1) =~= pair_views(items@).subrange(
                0,
                i as int,
            ).push(pair_views(items@)[i as int]));
            lemma_desc_count_push(
                pair_views(items@).subrange(0, i as int),
                pair_views(items@)[i as int],
                d@,
            );
        }
        let hit = match &items[i].1.description {
            Some(s) => str_eq(s.as_str(), d),
            None => false,
        };
        if hit {
            cnt += 1;
        }
        i += 1;
    }
    proof {
        assert(pair_views(items@).subrange(0, n as int) =~= pair_views(items@));
    }
    cnt
}

/// The range\'s shared description: the most frequent good description in
/// the family, ties resolved toward the lexicographically least.
fn majority_description(items: &Vec<(u32, SpecialRegister)>) -> (r: Option<String>)
    ensures
        r.deep_view() == spec_majority_desc(pair_views(items@)),
        match r {
            Some(d) => spec_good_desc(d@) && spec_desc_count(pair_views(items@), d@) >= 1
                && forall|i: int|
                #![trigger pair_views(items@)[i]]
                0 <= i < items@.len() ==> match pair_views(items@)[i].1.description {
                    Some(d2) => !spec_good_desc(d2) || (spec_desc_count(pair_views(items@), d2)
                        <= spec_desc_count(pair_views(items@), d@) && (spec_desc_count(
                        pair_views(items@),
                        d2,
                    ) == spec_desc_count(pair_views(items@), d@) ==> spec_lex_le(d@, d2))),
                    None => true,
                },
            None => forall|i: int|
                #![trigger pair_views(items@)[i]]
                0 <= i < items@.len() ==> match pair_views(items@)[i].1.description {
                    Some(d2) => !spec_good_desc(d2),
                    None => true,
                },
        },
{
    let n = items.len();
    let mut best: Option<String> = None;
    let mut best_cnt: usize = 0;
    let mut i: usize = 0;
    while i < n
        invariant
            n == items@.len(),
            i <= n,
            match best {
                Some(b) => spec_good_desc(b@) && best_cnt == spec_desc_count(
                    pair_views(items@),
                    b@,
                ) && spec_desc_count(pair_views(items@), b@) >= 1,
                None => best_cnt == 0,
            },
            forall|l: int|
                #![trigger pair_views(items@)[l]]
                0 <= l < i ==> match pair_views(items@)[l].1.description {
                    Some(d2) => !spec_good_desc(d2) || (best matches Some(b)
                        && spec_desc_count(pair_views(items@), d2) <= best_cnt && (
                    spec_desc_count(pair_views(items@), d2) == best_cnt ==> spec_lex_le(
                        b@,
                        d2,
                    ))),
                    None => true,
                },
        decreases n - i,
    {
        let good = match &items[i].1.description {
            Some(s) => is_good_desc(s.as_str()),
            None => false,
        };
        if good {
            let d = match &items[i].1.description {
                Some(s) => s.clone(),
                None => String::new(),
            };
            proof {
                assert(pair_views(items@)[i as int].1.description == Some(d@));
                lemma_member_count_pos(pair_views(items@), i as int, d@);
            }
            let c = desc_count(items, d.as_str());
            let take = match &best {
                None => true,
                Some(b) => {
                    if c > best_cnt {
                        true
                    } else if c == best_cnt {
                        name_lt(&d, b)
                    } else {
                        false
                    }
                },
            };
            let ghost old_best = best;
            if take {
                proof {
                    if old_best is Some && c == best_cnt {
                        let b = old_best.unwrap();
                        assert forall|l: int|
                            #![trigger pair_views(items@)[l]]
                            0 <= l < i implies match pair_views(items@)[l].1.description {
                            Some(d2) => !spec_good_desc(d2) || (spec_desc_count(
                                pair_views(items@),
                                d2,
                            ) <= c && (spec_desc_count(pair_views(items@), d2) == c
                                ==> spec_lex_le(d@, d2))),
                            None => true,
                        } by {
                            match pair_views(items@)[l].1.description {
                                Some(d2) => {
                                    if spec_good_desc(d2) && spec_desc_count(
                                        pair_views(items@),
                                        d2,
                                    ) == c {
                                        if b@ == d2 {
                                        } else {
                                            lemma_lex_lt_trans(d@, b@, d2);
                                        }
                                    }
                                },
                                None => {},
                            }
                        }
                    }
                }
                best = Some(d);
                best_cnt = c;
            } else {
                proof {
                    if old_best is Some && c == best_cnt {
                        lemma_lex_total(d@, old_best.unwrap()@);
                    }
                }
            }
        }
        i += 1;
    }
    proof {
        let itv = pair_views(items@);
        match &best {
            Some(b) => {
                assert(spec_is_majority(itv, b@));
                let w = choose|d: Seq<char>| spec_is_majority(itv, d);
                lemma_majority_unique(itv, w, b@);
                assert(spec_majority_desc(itv) == Some(b@));
            },
            None => {
                if exists|d: Seq<char>| spec_is_majority(itv, d) {
                    let d = choose|d: Seq<char>| spec_is_majority(itv, d);
                    lemma_count_pos_member(itv, d);
                    let l = choose|l: int|
                        0 <= l < itv.len() && (#[trigger] itv[l]).1.description == Some(d);
                    assert(false);
                }
            },
        }
    }
    best
}

/// A member at position `l` carrying description `d` makes the count of
/// `d` positive.
proof fn lemma_member_count_pos(items: Seq<(u32, RegView)>, l: int, d: Seq<char>)
    requires
        0 <= l < items.len(),
        items[l].1.description == Some(d),
    ensures
        spec_desc_count(items, d) >= 1,
{
    broadcast use vstd::seq_lib::group_filter_ensures;

    let pred = |it: (u32, RegView)| it.1.description == Some(d);
    assert(pred(items[l]));
    assert(items.contains(items[l]));
    Seq::lemma_filter_contains(items, pred, l);
    assert(items.filter(pred).contains(items[l]));
    assert(items.filter(pred).len() > 0);
}

/// Multiset equality lets every element of one sequence be found in the
/// other.
pub proof fn lemma_ms_elem<T>(a: Seq<T>, b: Seq<T>, i: int)
    requires
        a.to_multiset() == b.to_multiset(),
        0 <= i < a.len(),
    ensures
        exists|j: int| 0 <= j < b.len() && b[j] == a[i],
{
    broadcast use vstd::seq_lib::group_to_multiset_ensures;

    assert(a.contains(a[i]));
    assert(a.to_multiset().count(a[i]) > 0);
    assert(b.to_multiset().count(a[i]) > 0);
    assert(b.contains(a[i]));
}

/// Whether a sorted family is one contiguous run from its first index.
fn check_contiguous(sorted: &Vec<(u32, SpecialRegister)>) -> (r: bool)
    requires
        sorted@.len() > 0,
    ensures
        r == forall|off: int|
            0 <= off < sorted@.len() ==> (#[trigger] sorted@[off]).0 == sorted@[0].0 + off,
{
    let n = sorted.len();
    let start = sorted[0].0;
    let mut off: usize = 1;
    while off < n
        invariant
            n == sorted@.len(),
            0 < off <= n,
            start == sorted@[0].0,
            forall|l: int| 0 <= l < off ==> (#[trigger] sorted@[l]).0 == sorted@[0].0 + l,
        decreases n - off,
    {
        let x = sorted[off].0;
        if x < start {
            return false;
        }
        if ((x - start) as usize) != off {
            return false;
        }
        off += 1;
    }
    true
}

/// Whether a family member contributes a per-index override: it has a
/// non-blank, non-placeholder description that differs from the range's.
pub open spec fn spec_override_keep(it: (u32, RegView), rd: Option<Seq<char>>) -> bool {
    match it.1.description {
        Some(d) => spec_trim(d).len() > 0 && (match rd {
            Some(r) => r != d,
            None => true,
        }) && !spec_is_see_above(d),
        None => false,
    }
}

/// The override list of a family relative to the chosen range
/// description, in family order.
pub open spec fn spec_overrides_of(items: Seq<(u32, RegView)>, rd: Option<Seq<char>>) -> Seq<
    OverrideView,
> {
    items.filter(|it: (u32, RegView)| spec_override_keep(it, rd)).map_values(
        |it: (u32, RegView)| OverrideView { index: it.0, description: it.1.description },
    )
}

proof fn lemma_overrides_push(items: Seq<(u32, RegView)>, x: (u32, RegView), rd: Option<Seq<char>>)
    ensures
        spec_overrides_of(items.push(x), rd) == if spec_override_keep(x, rd) {
            spec_overrides_of(items, rd).push(
                OverrideView { index: x.0, description: x.1.description },
            )
        } else {
            spec_overrides_of(items, rd)
        },
{
    broadcast use Seq::lemma_filter_push;

    let pred = |it: (u32, RegView)| spec_override_keep(it, rd);
    let f = |it: (u32, RegView)| OverrideView { index: it.0, description: it.1.description };
    assert(items.push(x).filter(pred) == if pred(x) {
        items.filter(pred).push(x)
    } else {
        items.filter(pred)
    });
    if pred(x) {
        assert(items.filter(pred).push(x).map_values(f) =~= items.filter(pred).map_values(f).push(
            f(x),
        ));
    }
}

/// Build the per-index overrides of a family.
fn build_overrides(sorted: &Vec<(u32, SpecialRegister)>, range_desc: &Option<String>) -> (out: Vec<
    SpecialRegisterRangeOverride,
>)
    ensures
        out@.map_values(|o: SpecialRegisterRangeOverride| o@) == spec_overrides_of(
            pair_views(sorted@),
            range_desc.deep_view(),
        ),
{
    let ghost rd = range_desc.deep_view();
    let n = sorted.len();
    let mut out: Vec<SpecialRegisterRangeOverride> = Vec::new();
    let mut i: usize = 0;
    proof {
        assert(pair_views(sorted@).subrange(0, 0) =~= Seq::<(u32, RegView)>::empty());
        assert(out@.map_values(|o: SpecialRegisterRangeOverride| o@) =~= spec_overrides_of(
            Seq::<(u32, RegView)>::empty(),
            rd,
        ));
    }
    while i < n
        invariant
            n == sorted@.len(),
            i <= n,
            rd == range_desc.deep_view(),
            out@.map_values(|o: SpecialRegisterRangeOverride| o@) == spec_overrides_of(
                pair_views(sorted@).subrange(0, i as int),
                rd,
            ),
        decreases n - i,
    {
        proof {
            assert(pair_views(sorted@).subrange(0, i + 1) =~= pair_views(sorted@).subrange(
                0,
                i as int,
            ).push(pair_views(sorted@)[i as int]));
            lemma_overrides_push(
                pair_views(sorted@).subrange(0, i as int),
                pair_views(sorted@)[i as int],
                rd,
            );
        }
        let keep = match &sorted[i].1.description {
            Some(d) => {
                let nonblank = {
                    let v = chars_of(d.as_str());
                    let t = trim_chars(v.as_slice());
                    t.len() > 0
                };
                let differs = match range_desc {
                    Some(r) => !str_eq(r.as_str(), d.as_str()),
                    None => true,
                };
                nonblank && differs && !is_see_above(d.as_str())
            },
            None => false,
        };
        if keep {
            let ghost old_out = out@;
            let desc = match &sorted[i].1.description {
                Some(d) => Some(d.clone()),
                None => None,
            };
            out.push(SpecialRegisterRangeOverride { index: sorted[i].0, description: desc });
            proof {
                assert(out@.map_values(|o: SpecialRegisterRangeOverride| o@) =~= old_out.map_values(
                    |o: SpecialRegisterRangeOverride| o@,
                ).push(out@[out@.len() - 1]@));
            }
        }
        i += 1;
    }
    proof {
        assert(pair_views(sorted@).subrange(0, n as int) =~= pair_views(sorted@));
    }
    out
}

/// Whether a register record has a good (non-blank, non-placeholder)
/// description.
pub open spec fn spec_has_good_desc(r: RegView) -> bool {
    match r.description {
        Some(d) => spec_good_desc(d),
        None => false,
    }
}

/// The registers with a good description, in order.
pub open spec fn spec_retain_good(s: Seq<RegView>) -> Seq<RegView> {
    s.filter(|r: RegView| spec_has_good_desc(r))
}

proof fn lemma_retain_good_push(s: Seq<RegView>, x: RegView)
    ensures
        spec_retain_good(s.push(x)) == if spec_has_good_desc(x) {
            spec_retain_good(s).push(x)
        } else {
            spec_retain_good(s)
        },
{
    broadcast use Seq::lemma_filter_push;

    assert(spec_retain_good(s.push(x)) == s.push(x).filter(|r: RegView| spec_has_good_desc(r)));
}

/// Everything kept by `spec_retain_good` has a good description and comes
/// from the input.
pub proof fn lemma_retain_good_props(s: Seq<RegView>)
    ensures
        forall|i: int|
            0 <= i < spec_retain_good(s).len() ==> spec_has_good_desc(
                #[trigger] spec_retain_good(s)[i],
            ),
        forall|i: int|
            0 <= i < spec_retain_good(s).len() ==> s.contains(#[trigger] spec_retain_good(s)[i]),
        forall|j: int|
            0 <= j < s.len() && spec_has_good_desc(#[trigger] s[j]) ==> spec_retain_good(
                s,
            ).contains(s[j]),
{
    broadcast use vstd::seq_lib::group_filter_ensures;

    let p = |r: RegView| spec_has_good_desc(r);
    assert forall|i: int|
        0 <= i < spec_retain_good(s).len() implies s.contains(
        #[trigger] spec_retain_good(s)[i],
    ) by {
        assert(s.filter(p).contains(s.filter(p)[i]));
        s.lemma_filter_contains_rev(p, s.filter(p)[i]);
    }
}

/// Keep only the registers with a good description.
fn retain_good(v: &Vec<SpecialRegister>) -> (out: Vec<SpecialRegister>)
    ensures
        reg_views(out@) == spec_retain_good(reg_views(v@)),
{
    let n = v.len();
    let mut out: Vec<SpecialRegister> = Vec::new();
    let mut j: usize = 0;
    proof {
        assert(reg_views(v@).subrange(0, 0) =~= Seq::<RegView>::empty());
        assert(reg_views(out@) =~= spec_retain_good(Seq::<RegView>::empty()));
    }
    while j < n
        invariant
            n == v@.len(),
            j <= n,
            reg_views(out@) == spec_retain_good(reg_views(v@).subrange(0, j as int)),
        decreases n - j,
    {
        proof {
            assert(reg_views(v@).subrange(0, j + 1) =~= reg_views(v@).subrange(0, j as int).push(
                reg_views(v@)[j as int],
            ));
            lemma_retain_good_push(reg_views(v@).subrange(0, j as int), reg_views(v@)[j as int]);
        }
        let keep = match &v[j].description {
            Some(d) => is_good_desc(d.as_str()),
            None => false,
        };
        if keep {
            let ghost old_out = out@;
            out.push(v[j].clone());
            proof {
                assert(reg_views(out@) =~= reg_views(old_out).push(v@[j as int]@));
            }
        }
        j += 1;
    }
    proof {
        assert(reg_views(v@).subrange(0, n as int) =~= reg_views(v@));
    }
    out
}

/// A multiset count of at least two yields two distinct positions.
proof fn lemma_dup_positions(s: Seq<RegView>, x: RegView)
    requires
        s.to_multiset().count(x) >= 2,
    ensures
        exists|a: int, b: int| 0 <= a < b < s.len() && s[a] == x && s[b] == x,
    decreases s.len(),
{
    broadcast use vstd::seq_lib::group_to_multiset_ensures;
    broadcast use vstd::multiset::group_multiset_axioms;

    assert(s.to_multiset().count(x) > 0);
    assert(s.contains(x));
    let a = choose|a: int| 0 <= a < s.len() && s[a] == x;
    let s1 = s.remove(a);
    assert(s1.to_multiset() == s.to_multiset().remove(s[a]));
    assert(s1.to_multiset().count(x) >= 1);
    assert(s1.contains(x));
    let b0 = choose|b: int| 0 <= b < s1.len() && s1[b] == x;
    if b0 < a {
        assert(s[b0] == x);
        assert(0 <= b0 < a < s.len() && s[b0] == x && s[a] == x);
    } else {
        assert(s[b0 + 1] == x);
        assert(0 <= a < b0 + 1 < s.len() && s[a] == x && s[b0 + 1] == x);
    }
}


/// Position of the key equal to `p`, if any.
fn find_key(keys: &Vec<String>, p: &str) -> (r: Option<usize>)
    ensures
        match r {
            Some(g) => g < keys@.len() && keys@[g as int]@ == p@,
            None => forall|l: int| 0 <= l < keys@.len() ==> (#[trigger] keys@[l])@ != p@,
        },
{
    let n = keys.len();
    let mut g: usize = 0;
    while g < n
        invariant
            n == keys@.len(),
            g <= n,
            forall|l: int| 0 <= l < g ==> (#[trigger] keys@[l])@ != p@,
        decreases n - g,
    {
        if str_eq(keys[g].as_str(), p) {
            return Some(g);
        }
        g += 1;
    }
    None
}

/// Some input register's name splits into exactly this prefix and index.
pub open spec fn spec_family_member(input: Seq<RegView>, p: Seq<char>, idx: u32) -> bool {
    exists|j: int|
        0 <= j < input.len() && spec_split_numeric((#[trigger] input[j]).name) == Some((p, idx))
}

/// Some input register carries exactly this name.
pub open spec fn spec_name_from(input: Seq<RegView>, name: Seq<char>) -> bool {
    exists|j: int| 0 <= j < input.len() && (#[trigger] input[j]).name == name
}

/// The first good description in the family, in family order.
fn first_good_desc(items: &Vec<(u32, SpecialRegister)>) -> (r: Option<String>)
    ensures
        r.deep_view() == spec_first_good(pair_views(items@)),
        match r {
            Some(d) => spec_good_desc(d@),
            None => true,
        },
{
    let ghost itv = pair_views(items@);
    let n = items.len();
    let mut l: usize = 0;
    proof {
        assert(itv =~= itv.subrange(0, n as int));
    }
    while l < n
        invariant
            n == items@.len(),
            itv == pair_views(items@),
            l <= n,
            spec_first_good(itv) == spec_first_good(itv.subrange(l as int, n as int)),
        decreases n - l,
    {
        proof {
            assert(itv.subrange(l as int, n as int)[0] == itv[l as int]);
            assert(itv.subrange(l as int, n as int).drop_first() =~= itv.subrange(
                l + 1,
                n as int,
            ));
        }
        match &items[l].1.description {
            Some(d) => {
                if is_good_desc(d.as_str()) {
                    proof {
                        assert(itv[l as int].1.description == Some(d@));
                    }
                    return Some(d.clone());
                }
            },
            None => {},
        }
        l += 1;
    }
    None
}

/// Flatten an ineligible family back to individual registers, backfilling
/// missing or placeholder descriptions from the first good one found in
/// the family.
fn flatten_group(
    items: &Vec<(u32, SpecialRegister)>,
    ghost_input: Ghost<Seq<RegView>>,
    leftover: &mut Vec<SpecialRegister>,
)
    requires
        forall|l: int|
            0 <= l < items@.len() ==> spec_name_from(
                ghost_input@,
                (#[trigger] items@[l]).1@.name,
            ),
        forall|i: int|
            0 <= i < old(leftover)@.len() ==> spec_name_from(
                ghost_input@,
                (#[trigger] old(leftover)@[i])@.name,
            ),
    ensures
        reg_views(final(leftover)@) == reg_views(old(leftover)@) + spec_backfilled(
            pair_views(items@),
            spec_first_good(pair_views(items@)),
        ),
        forall|i: int|
            0 <= i < final(leftover)@.len() ==> spec_name_from(
                ghost_input@,
                (#[trigger] final(leftover)@[i])@.name,
            ),
{
    let ghost itv = pair_views(items@);
    let fallback = first_good_desc(items);
    let ghost fb = spec_first_good(itv);
    let n = items.len();
    let mut l: usize = 0;
    proof {
        assert(itv.subrange(0, 0) =~= Seq::<(u32, RegView)>::empty());
        assert(reg_views(leftover@) =~= reg_views(old(leftover)@) + spec_backfilled(
            itv.subrange(0, 0),
            fb,
        ));
    }
    while l < n
        invariant
            n == items@.len(),
            itv == pair_views(items@),
            fb == spec_first_good(itv),
            fallback.deep_view() == fb,
            match fallback {
                Some(d) => spec_good_desc(d@),
                None => true,
            },
            l <= n,
            reg_views(leftover@) == reg_views(old(leftover)@) + spec_backfilled(
                itv.subrange(0, l as int),
                fb,
            ),
            forall|k: int|
                0 <= k < items@.len() ==> spec_name_from(
                    ghost_input@,
                    (#[trigger] items@[k]).1@.name,
                ),
            forall|i: int|
                0 <= i < leftover@.len() ==> spec_name_from(
                    ghost_input@,
                    (#[trigger] leftover@[i])@.name,
                ),
        decreases n - l,
    {
        proof {
            assert(itv.subrange(0, l + 1).drop_last() =~= itv.subrange(0, l as int));
            assert(itv.subrange(0, l + 1).last() == itv[l as int]);
            assert(itv[l as int].1.description == items@[l as int].1@.description);
        }
        let own_good = match &items[l].1.description {
            Some(d) => is_good_desc(d.as_str()),
            None => false,
        };
        let desc = if own_good {
            crate::types::clone_opt_string(&items[l].1.description)
        } else {
            crate::types::clone_opt_string(&fallback)
        };
        let blank = match &desc {
            Some(d) => {
                let v = chars_of(d.as_str());
                let t = trim_chars(v.as_slice());
                t.len() == 0
            },
            None => true,
        };
        if !blank {
            let ghost old_left = leftover@;
            leftover.push(SpecialRegister { name: items[l].1.name.clone(), description: desc });
            proof {
                assert(leftover@[old_left.len() as int]@.name == items@[l as int].1@.name);
                assert(reg_views(leftover@) =~= reg_views(old_left).push(
                    leftover@[old_left.len() as int]@,
                ));
                assert(reg_views(leftover@) =~= reg_views(old(leftover)@) + spec_backfilled(
                    itv.subrange(0, l + 1),
                    fb,
                ));
            }
        } else {
            proof {
                assert(reg_views(leftover@) =~= reg_views(old(leftover)@) + spec_backfilled(
                    itv.subrange(0, l + 1),
                    fb,
                ));
            }
        }
        l += 1;
    }
    proof {
        assert(itv.subrange(0, n as int) =~= itv);
    }
}

/// The views of a sequence of ranges./// The views of a sequence of ranges.
pub open spec fn range_views(s: Seq<SpecialRegisterRange>) -> Seq<crate::types::RangeView> {
    s.map_values(|r: SpecialRegisterRange| r@)
}

proof fn lemma_range_views_remove(s: Seq<SpecialRegisterRange>, i: int)
    requires
        0 <= i < s.len(),
    ensures
        range_views(s.remove(i)) =~= range_views(s).remove(i),
{
}

fn min_prefix_index(v: &Vec<SpecialRegisterRange>) -> (k: usize)
    requires
        v@.len() > 0,
    ensures
        k < v@.len(),
        forall|j: int|
            0 <= j < v@.len() ==> spec_lex_le(v@[k as int]@.prefix, (#[trigger] v@[j])@.prefix),
{
    let mut best: usize = 0;
    let mut j: usize = 1;
    while j < v.len()
        invariant
            best < j,
            j <= v@.len(),
            forall|l: int|
                0 <= l < j ==> spec_lex_le(v@[best as int]@.prefix, (#[trigger] v@[l])@.prefix),
        decreases v@.len() - j,
    {
        if name_lt(&v[j].prefix, &v[best].prefix) {
            proof {
                assert forall|l: int| 0 <= l <= j implies spec_lex_le(
                    v@[j as int]@.prefix,
                    (#[trigger] v@[l])@.prefix,
                ) by {
                    if l < j {
                        if v@[best as int]@.prefix == v@[l]@.prefix {
                        } else {
                            lemma_lex_lt_trans(
                                v@[j as int]@.prefix,
                                v@[best as int]@.prefix,
                                v@[l]@.prefix,
                            );
                        }
                    }
                }
            }
            best = j;
        } else {
            proof {
                lemma_lex_total(v@[j as int]@.prefix, v@[best as int]@.prefix);
            }
        }
        j += 1;
    }
    best
}

/// Sort ranges by prefix, lexicographically by code point.
pub fn sort_ranges_by_prefix(v: Vec<SpecialRegisterRange>) -> (out: Vec<SpecialRegisterRange>)
    ensures
        range_views(out@).to_multiset() == range_views(v@).to_multiset(),
        forall|i: int, j: int|
            0 <= i < j < out@.len() ==> spec_lex_le(
                (#[trigger] out@[i])@.prefix,
                (#[trigger] out@[j])@.prefix,
            ),
{
    broadcast use vstd::seq_lib::group_to_multiset_ensures;
    broadcast use vstd::multiset::group_multiset_axioms;

    let mut rem = v;
    let mut out: Vec<SpecialRegisterRange> = Vec::new();
    let ghost total = range_views(rem@).to_multiset();
    proof {
        assert(range_views(out@).to_multiset().add(range_views(rem@).to_multiset()) =~= total);
    }
    while rem.len() > 0
        invariant
            total == range_views(v@).to_multiset(),
            range_views(out@).to_multiset().add(range_views(rem@).to_multiset()) == total,
            forall|i: int, j: int|
                0 <= i < j < out@.len() ==> spec_lex_le(
                    (#[trigger] out@[i])@.prefix,
                    (#[trigger] out@[j])@.prefix,
                ),
            forall|i: int, j: int|
                0 <= i < out@.len() && 0 <= j < rem@.len() ==> spec_lex_le(
                    (#[trigger] out@[i])@.prefix,
                    (#[trigger] rem@[j])@.prefix,
                ),
        decreases rem@.len(),
    {
        let k = min_prefix_index(&rem);
        let ghost old_rem = rem@;
        let ghost old_out = out@;
        let r = rem.remove(k);
        out.push(r);
        proof {
            lemma_range_views_remove(old_rem, k as int);
            assert(range_views(rem@) == range_views(old_rem).remove(k as int));
            vstd::seq_lib::to_multiset_remove::<crate::types::RangeView>(
                range_views(old_rem),
                k as int,
            );
            assert(range_views(out@) =~= range_views(old_out).push(old_rem[k as int]@));
            vstd::seq_lib::to_multiset_build::<crate::types::RangeView>(
                range_views(old_out),
                old_rem[k as int]@,
            );
            assert(range_views(old_rem).contains(range_views(old_rem)[k as int]));
            vstd::seq_lib::to_multiset_contains::<crate::types::RangeView>(
                range_views(old_rem),
                range_views(old_rem)[k as int],
            );
            assert(range_views(out@).to_multiset().add(range_views(rem@).to_multiset()) =~= total);
        }
    }
    out
}

/// A range descriptor that faithfully describes a family of the input:
/// an eligible prefix, at least three members, indices that fit, and
/// every covered index present in the input as a member of the family.
/// Whether a register belongs to the indexed family of prefix `p`.
pub open spec fn spec_member_of(r: RegView, p: Seq<char>) -> bool {
    match spec_split_numeric(r.name) {
        Some(pi) => pi.0 == p,
        None => false,
    }
}

/// The numeric index a family member's name carries.
pub open spec fn spec_member_index(r: RegView) -> u32 {
    match spec_split_numeric(r.name) {
        Some(pi) => pi.1,
        None => 0,
    }
}

/// The indexed family of prefix `p`: its members in input order, each
/// with its numeric index.
pub open spec fn spec_family(input: Seq<RegView>, p: Seq<char>) -> Seq<(u32, RegView)> {
    input.filter(|r: RegView| spec_member_of(r, p)).map_values(
        |r: RegView| (spec_member_index(r), r),
    )
}

/// The registers whose names do not split into prefix and index.
pub open spec fn spec_ungrouped(input: Seq<RegView>) -> Seq<RegView> {
    input.filter(|r: RegView| spec_split_numeric(r.name) is None)
}

/// The distinct family prefixes of the input, in first-appearance order.
pub open spec fn spec_prefixes(input: Seq<RegView>) -> Seq<Seq<char>>
    decreases input.len(),
{
    if input.len() == 0 {
        Seq::empty()
    } else {
        let prev = spec_prefixes(input.drop_last());
        match spec_split_numeric(input.last().name) {
            Some(pi) => if prev.contains(pi.0) {
                prev
            } else {
                prev.push(pi.0)
            },
            None => prev,
        }
    }
}

proof fn lemma_family_push(input: Seq<RegView>, r: RegView, p: Seq<char>)
    ensures
        spec_family(input.push(r), p) == if spec_member_of(r, p) {
            spec_family(input, p).push((spec_member_index(r), r))
        } else {
            spec_family(input, p)
        },
{
    broadcast use Seq::lemma_filter_push;

    let pred = |x: RegView| spec_member_of(x, p);
    let f = |x: RegView| (spec_member_index(x), x);
    assert(input.push(r).filter(pred) == if pred(r) {
        input.filter(pred).push(r)
    } else {
        input.filter(pred)
    });
    if pred(r) {
        assert(input.filter(pred).push(r).map_values(f) =~= input.filter(pred).map_values(f).push(
            f(r),
        ));
    }
}

proof fn lemma_ungrouped_push(input: Seq<RegView>, r: RegView)
    ensures
        spec_ungrouped(input.push(r)) == if spec_split_numeric(r.name) is None {
            spec_ungrouped(input).push(r)
        } else {
            spec_ungrouped(input)
        },
{
    broadcast use Seq::lemma_filter_push;

    assert(spec_ungrouped(input.push(r)) == input.push(r).filter(
        |x: RegView| spec_split_numeric(x.name) is None,
    ));
}

/// A non-empty family's prefix is listed among the input's prefixes.
proof fn lemma_family_prefix(input: Seq<RegView>, p: Seq<char>)
    requires
        spec_family(input, p).len() > 0,
    ensures
        spec_prefixes(input).contains(p),
    decreases input.len(),
{
    broadcast use vstd::seq_lib::group_seq_properties;

    if input.len() > 0 {
        let prev_in = input.drop_last();
        assert(prev_in.push(input.last()) =~= input);
        lemma_family_push(prev_in, input.last(), p);
        let prev = spec_prefixes(prev_in);
        if spec_member_of(input.last(), p) {
            match spec_split_numeric(input.last().name) {
                Some(pi) => {
                    assert(pi.0 == p);
                    if prev.contains(pi.0) {
                    } else {
                        assert(spec_prefixes(input) == prev.push(p));
                        assert(spec_prefixes(input)[prev.len() as int] == p);
                    }
                },
                None => {},
            }
        } else {
            lemma_family_prefix(prev_in, p);
            match spec_split_numeric(input.last().name) {
                Some(pi) => {
                    if prev.contains(pi.0) {
                    } else {
                        let i = choose|i: int| 0 <= i < prev.len() && prev[i] == p;
                        assert(spec_prefixes(input)[i] == p);
                    }
                },
                None => {},
            }
        }
    }
}

/// The listed prefixes are distinct.
proof fn lemma_prefixes_distinct(input: Seq<RegView>)
    ensures
        forall|i: int, j: int|
            0 <= i < j < spec_prefixes(input).len() ==> spec_prefixes(input)[i] != spec_prefixes(
                input,
            )[j],
    decreases input.len(),
{
    if input.len() > 0 {
        lemma_prefixes_distinct(input.drop_last());
        let prev = spec_prefixes(input.drop_last());
        match spec_split_numeric(input.last().name) {
            Some(pi) => {
                if !prev.contains(pi.0) {
                    assert forall|i: int, j: int|
                        0 <= i < j < spec_prefixes(input).len() implies spec_prefixes(input)[i]
                        != spec_prefixes(input)[j] by {
                        if j == prev.len() {
                            assert(prev[i] != pi.0);
                        }
                    }
                }
            },
            None => {},
        }
    }
}

/// Whether the family of prefix `p` compresses: sorted by index it is a
/// contiguous run of at least three members whose count fits.
pub open spec fn spec_compressible(input: Seq<RegView>, p: Seq<char>) -> bool {
    let s = spec_sort_family(spec_family(input, p));
    &&& s.len() >= 3
    &&& s.len() <= u32::MAX
    &&& forall|off: int| 0 <= off < s.len() ==> (#[trigger] s[off]).0 == s[0].0 + off
}

/// The chosen shared description of a family: a good description of
/// maximal frequency, ties resolved toward the lexicographically least.
pub open spec fn spec_is_majority(items: Seq<(u32, RegView)>, d: Seq<char>) -> bool {
    &&& spec_good_desc(d)
    &&& spec_desc_count(items, d) >= 1
    &&& forall|i: int|
        #![trigger items[i]]
        0 <= i < items.len() ==> match items[i].1.description {
            Some(d2) => !spec_good_desc(d2) || (spec_desc_count(items, d2) <= spec_desc_count(
                items,
                d,
            ) && (spec_desc_count(items, d2) == spec_desc_count(items, d) ==> spec_lex_le(d, d2))),
            None => true,
        }
}

/// The majority description, when any member carries a good one.
pub open spec fn spec_majority_desc(items: Seq<(u32, RegView)>) -> Option<Seq<char>> {
    if exists|d: Seq<char>| spec_is_majority(items, d) {
        Some(choose|d: Seq<char>| spec_is_majority(items, d))
    } else {
        None
    }
}

/// A positive count means some member carries exactly that description.
proof fn lemma_count_pos_member(items: Seq<(u32, RegView)>, d: Seq<char>)
    requires
        spec_desc_count(items, d) >= 1,
    ensures
        exists|i: int|
            0 <= i < items.len() && (#[trigger] items[i]).1.description == Some(d),
{
    broadcast use vstd::seq_lib::group_filter_ensures;

    let pred = |it: (u32, RegView)| it.1.description == Some(d);
    let kept = items.filter(pred);
    assert(kept.len() >= 1);
    assert(pred(kept[0]));
    assert(kept.contains(kept[0]));
    items.lemma_filter_contains_rev(pred, kept[0]);
    let i = choose|i: int| 0 <= i < items.len() && items[i] == kept[0];
    assert(items[i].1.description == Some(d));
}

/// At most one description is the majority.
proof fn lemma_majority_unique(items: Seq<(u32, RegView)>, d1: Seq<char>, d2: Seq<char>)
    requires
        spec_is_majority(items, d1),
        spec_is_majority(items, d2),
    ensures
        d1 == d2,
{
    lemma_count_pos_member(items, d1);
    lemma_count_pos_member(items, d2);
    let i1 = choose|i: int|
        0 <= i < items.len() && (#[trigger] items[i]).1.description == Some(d1);
    let i2 = choose|i: int|
        0 <= i < items.len() && (#[trigger] items[i]).1.description == Some(d2);
    assert(spec_desc_count(items, d1) <= spec_desc_count(items, d2));
    assert(spec_desc_count(items, d2) <= spec_desc_count(items, d1));
    assert(spec_lex_le(d1, d2));
    assert(spec_lex_le(d2, d1));
    if d1 != d2 {
        crate::strlib::lemma_lex_lt_asym(d1, d2);
    }
}

/// The first good description in a family, in member order.
pub open spec fn spec_first_good(items: Seq<(u32, RegView)>) -> Option<Seq<char>>
    decreases items.len(),
{
    if items.len() == 0 {
        None
    } else {
        match items[0].1.description {
            Some(d) => if spec_good_desc(d) {
                Some(d)
            } else {
                spec_first_good(items.drop_first())
            },
            None => spec_first_good(items.drop_first()),
        }
    }
}

/// An ineligible family flattened back to single registers: a member
/// keeps a good description of its own, any other description is
/// backfilled from `fb`, and members left with nothing non-blank are
/// dropped.
pub open spec fn spec_backfilled(items: Seq<(u32, RegView)>, fb: Option<Seq<char>>) -> Seq<RegView>
    decreases items.len(),
{
    if items.len() == 0 {
        Seq::empty()
    } else {
        let prev = spec_backfilled(items.drop_last(), fb);
        let own = items.last().1.description;
        let desc = match own {
            Some(d) => if spec_good_desc(d) {
                Some(d)
            } else {
                fb
            },
            None => fb,
        };
        match desc {
            Some(d) => if spec_trim(d).len() > 0 {
                prev.push(RegView { name: items.last().1.name, description: Some(d) })
            } else {
                prev
            },
            None => prev,
        }
    }
}

/// The registers of a family, in family order.
pub open spec fn spec_members(s: Seq<(u32, RegView)>) -> Seq<RegView> {
    s.map_values(|it: (u32, RegView)| it.1)
}

/// What a family contributes to the singles: nothing when it compresses,
/// its members in index order when it is eligible but does not compress,
/// and its backfilled members when its prefix is not eligible.
pub open spec fn spec_flatten_family(input: Seq<RegView>, p: Seq<char>) -> Seq<RegView> {
    let f = spec_family(input, p);
    if spec_eligible_prefix(p) {
        if spec_compressible(input, p) {
            Seq::empty()
        } else {
            spec_members(spec_sort_family(f))
        }
    } else {
        spec_backfilled(f, spec_first_good(f))
    }
}

/// The flattened contributions of the given prefixes, in order.
pub open spec fn spec_flatten_all(input: Seq<RegView>, ps: Seq<Seq<char>>) -> Seq<RegView>
    decreases ps.len(),
{
    if ps.len() == 0 {
        Seq::empty()
    } else {
        spec_flatten_all(input, ps.drop_last()) + spec_flatten_family(input, ps.last())
    }
}

/// The single registers of the compressed table: the ungrouped input
/// registers and every family's flattened contribution, kept only when
/// they carry a good description (order before the final name sort).
pub open spec fn spec_compressed_singles(input: Seq<RegView>) -> Seq<RegView> {
    spec_retain_good(spec_ungrouped(input) + spec_flatten_all(input, spec_prefixes(input)))
}

/// The range descriptor a compressible family turns into.
pub open spec fn spec_range_of(input: Seq<RegView>, p: Seq<char>) -> crate::types::RangeView {
    let s = spec_sort_family(spec_family(input, p));
    crate::types::RangeView {
        prefix: p,
        start: s[0].0,
        count: s.len() as u32,
        description: spec_majority_desc(s),
        overrides: spec_overrides_of(s, spec_majority_desc(s)),
    }
}

/// The ranges of the compressed table: one per eligible compressible
/// prefix, in first-appearance order (before the final prefix sort).
pub open spec fn spec_ranges_all(input: Seq<RegView>, ps: Seq<Seq<char>>) -> Seq<
    crate::types::RangeView,
>
    decreases ps.len(),
{
    if ps.len() == 0 {
        Seq::empty()
    } else {
        spec_ranges_all(input, ps.drop_last()) + (if spec_eligible_prefix(ps.last())
            && spec_compressible(input, ps.last()) {
            seq![spec_range_of(input, ps.last())]
        } else {
            Seq::empty()
        })
    }
}

/// The complete range list of the compressed table.
pub open spec fn spec_compressed_ranges(input: Seq<RegView>) -> Seq<crate::types::RangeView> {
    spec_ranges_all(input, spec_prefixes(input))
}

pub open spec fn spec_range_ok(input: Seq<RegView>, rg: crate::types::RangeView) -> bool {
    &&& spec_eligible_prefix(rg.prefix)
    &&& rg.count >= 3
    &&& rg.start + rg.count <= u32::MAX + 1
    &&& forall|off: int|
        0 <= off < rg.count ==> #[trigger] spec_family_member(
            input,
            rg.prefix,
            (rg.start + off) as u32,
        )
}

/// Partition the registers: the indexed families keyed by their
/// numeric-suffix prefix (prefixes in first-appearance order, members in
/// input order) and the ungrouped rest.
#[verifier::rlimit(100)]
fn group_by_prefix(all: Vec<SpecialRegister>) -> (r: (
    Vec<String>,
    Vec<Vec<(u32, SpecialRegister)>>,
    Vec<SpecialRegister>,
))
    ensures
        r.0@.len() == r.1@.len(),
        r.0.deep_view() == spec_prefixes(reg_views(all@)),
        forall|g: int|
            0 <= g < r.1@.len() ==> pair_views((#[trigger] r.1@[g])@) == spec_family(
                reg_views(all@),
                r.0.deep_view()[g],
            ),
        reg_views(r.2@) == spec_ungrouped(reg_views(all@)),
        forall|g: int, l: int|
            #![trigger r.1@[g]@[l]]
            0 <= g < r.1@.len() && 0 <= l < r.1@[g]@.len() ==> spec_split_numeric(
                r.1@[g]@[l].1@.name,
            ) == Some((r.0.deep_view()[g], r.1@[g]@[l].0)) && reg_views(all@).contains(
                r.1@[g]@[l].1@,
            ),
{
    let ghost iv = reg_views(all@);
    let n = all.len();
    let mut keys: Vec<String> = Vec::new();
    let mut groups: Vec<Vec<(u32, SpecialRegister)>> = Vec::new();
    let mut plain: Vec<SpecialRegister> = Vec::new();
    let mut t: usize = 0;
    proof {
        assert(iv.subrange(0, 0) =~= Seq::<RegView>::empty());
        assert(keys.deep_view() =~= spec_prefixes(iv.subrange(0, 0)));
        assert(reg_views(plain@) =~= spec_ungrouped(iv.subrange(0, 0)));
    }
    while t < n
        invariant
            iv == reg_views(all@),
            n == all@.len(),
            t <= n,
            keys@.len() == groups@.len(),
            keys.deep_view() == spec_prefixes(iv.subrange(0, t as int)),
            forall|g: int|
                0 <= g < groups@.len() ==> pair_views((#[trigger] groups@[g])@) == spec_family(
                    iv.subrange(0, t as int),
                    keys.deep_view()[g],
                ),
            reg_views(plain@) == spec_ungrouped(iv.subrange(0, t as int)),
            forall|g: int, l: int|
                #![trigger groups@[g]@[l]]
                0 <= g < groups@.len() && 0 <= l < groups@[g]@.len() ==> spec_split_numeric(
                    groups@[g]@[l].1@.name,
                ) == Some((keys.deep_view()[g], groups@[g]@[l].0)) && iv.contains(
                    groups@[g]@[l].1@,
                ),
        decreases n - t,
    {
        let ghost tt = iv.subrange(0, t as int);
        let ghost tn = iv.subrange(0, t + 1);
        proof {
            assert(tn.drop_last() =~= tt);
            assert(tn.last() == iv[t as int]);
            assert(tn =~= tt.push(iv[t as int]));
        }
        let reg = all[t].clone();
        proof {
            assert(reg@ == iv[t as int]);
            assert(iv.contains(reg@));
        }
        match split_numeric_suffix(reg.name.as_str()) {
            Some((p, idx)) => {
                proof {
                    assert(spec_member_of(iv[t as int], p@));
                    assert(spec_member_index(iv[t as int]) == idx);
                }
                match find_key(&keys, p.as_str()) {
                    Some(g) => {
                        proof {
                            lemma_prefixes_distinct(tt);
                            assert(keys.deep_view()[g as int] == p@);
                            assert(spec_prefixes(tt)[g as int] == p@);
                            assert(spec_prefixes(tt).contains(p@));
                            assert(spec_prefixes(tn) == spec_prefixes(tt));
                            assert forall|g2: int|
                                0 <= g2 < groups@.len() && g2 != g implies spec_family(
                                tn,
                                keys.deep_view()[g2],
                            ) == spec_family(tt, keys.deep_view()[g2]) by {
                                assert(keys.deep_view()[g2] != p@);
                                lemma_family_push(tt, iv[t as int], keys.deep_view()[g2]);
                            }
                            lemma_family_push(tt, iv[t as int], p@);
                        }
                        let ghost old_groups = groups@;
                        let mut items = groups.remove(g);
                        let ghost old_items = items@;
                        items.push((idx, reg));
                        groups.insert(g, items);
                        proof {
                            assert(groups@ =~= old_groups.update(g as int, groups@[g as int]));
                            assert(groups@[g as int]@ =~= old_items.push(
                                groups@[g as int]@[old_items.len() as int],
                            ));
                            assert(groups@[g as int]@[old_items.len() as int].1@ == iv[t as int]);
                            assert(pair_views(groups@[g as int]@) =~= pair_views(old_items).push(
                                (idx, iv[t as int]),
                            ));
                        }
                    },
                    None => {
                        proof {
                            if spec_prefixes(tt).contains(p@) {
                                let i = choose|i: int|
                                    0 <= i < spec_prefixes(tt).len() && spec_prefixes(tt)[i] == p@;
                                assert(keys.deep_view()[i] == p@);
                                assert(keys@[i]@ == p@);
                                assert(false);
                            }
                            assert(spec_prefixes(tn) == spec_prefixes(tt).push(p@));
                            if spec_family(tt, p@).len() > 0 {
                                lemma_family_prefix(tt, p@);
                                assert(false);
                            }
                            lemma_family_push(tt, iv[t as int], p@);
                            assert(spec_family(tn, p@) =~= seq![(idx, iv[t as int])]);
                            assert forall|g2: int|
                                0 <= g2 < groups@.len() implies spec_family(
                                tn,
                                keys.deep_view()[g2],
                            ) == spec_family(tt, keys.deep_view()[g2]) by {
                                assert(keys@[g2]@ != p@);
                                lemma_family_push(tt, iv[t as int], keys.deep_view()[g2]);
                            }
                        }
                        let ghost old_keys_dv = keys.deep_view();
                        keys.push(p);
                        let mut nv: Vec<(u32, SpecialRegister)> = Vec::new();
                        nv.push((idx, reg));
                        let ghost nv_views = pair_views(nv@);
                        groups.push(nv);
                        proof {
                            assert(keys.deep_view() =~= old_keys_dv.push(
                                keys@[keys@.len() - 1]@,
                            ));
                            assert(groups@[groups@.len() - 1]@[0].1@ == iv[t as int]);
                            assert(pair_views(groups@[groups@.len() - 1]@) =~= seq![
                                (idx, iv[t as int]),
                            ]);
                        }
                    },
                }
                proof {
                    lemma_ungrouped_push(tt, iv[t as int]);
                    assert(reg_views(plain@) == spec_ungrouped(tn));
                }
            },
            None => {
                proof {
                    assert(spec_prefixes(tn) == spec_prefixes(tt));
                    lemma_ungrouped_push(tt, iv[t as int]);
                    assert forall|g2: int|
                        0 <= g2 < groups@.len() implies spec_family(
                        tn,
                        keys.deep_view()[g2],
                    ) == spec_family(tt, keys.deep_view()[g2]) by {
                        lemma_family_push(tt, iv[t as int], keys.deep_view()[g2]);
                    }
                }
                let ghost old_plain = plain@;
                plain.push(reg);
                proof {
                    assert(reg_views(plain@) =~= reg_views(old_plain).push(iv[t as int]));
                }
            },
        }
        t += 1;
    }
    proof {
        assert(iv.subrange(0, n as int) =~= iv);
    }
    (keys, groups, plain)
}

/// Compress the register table: group names by numeric-suffix prefix,
/// compress eligible contiguous families of at least three into ranges,
/// flatten everything else back to singles, keep only singles that carry
/// a good description, and sort singles by name and ranges by prefix.
#[verifier::rlimit(100)]
pub fn compress_special_registers(all: Vec<SpecialRegister>) -> (out: SpecialRegistersCompressed)
    ensures
        forall|i: int, j: int|
            0 <= i < j < out.singles@.len() ==> spec_lex_le(
                (#[trigger] out.singles@[i])@.name,
                (#[trigger] out.singles@[j])@.name,
            ),
        forall|i: int|
            0 <= i < out.singles@.len() ==> spec_has_good_desc((#[trigger] out.singles@[i])@),
        forall|i: int|
            0 <= i < out.singles@.len() ==> spec_name_from(
                reg_views(all@),
                (#[trigger] out.singles@[i])@.name,
            ),
        reg_views(out.singles@).to_multiset() == spec_compressed_singles(
            reg_views(all@),
        ).to_multiset(),
        forall|i: int, j: int|
            0 <= i < j < out.ranges@.len() ==> spec_lex_le(
                (#[trigger] out.ranges@[i])@.prefix,
                (#[trigger] out.ranges@[j])@.prefix,
            ),
        forall|i: int|
            0 <= i < out.ranges@.len() ==> spec_range_ok(
                reg_views(all@),
                (#[trigger] out.ranges@[i])@,
            ),
        range_views(out.ranges@).to_multiset() == spec_compressed_ranges(
            reg_views(all@),
        ).to_multiset(),
{
    let ghost iv = reg_views(all@);
    let (mut keys, mut groups, plain) = group_by_prefix(all);
    let ghost ps = spec_prefixes(iv);
    // second pass: decide each family
    let mut ranges: Vec<SpecialRegisterRange> = Vec::new();
    let mut leftover: Vec<SpecialRegister> = Vec::new();
    let ghost mut k: int = 0;
    proof {
        assert(ps.subrange(0, ps.len() as int) =~= ps);
        assert(ps.subrange(0, 0) =~= Seq::<Seq<char>>::empty());
        assert(reg_views(leftover@) =~= spec_flatten_all(iv, ps.subrange(0, 0)));
        assert(range_views(ranges@) =~= spec_ranges_all(iv, ps.subrange(0, 0)));
    }
    while groups.len() > 0
        invariant
            iv == reg_views(all@),
            ps == spec_prefixes(iv),
            0 <= k,
            k + groups@.len() == ps.len(),
            keys@.len() == groups@.len(),
            keys.deep_view() == ps.subrange(k, ps.len() as int),
            forall|g: int|
                0 <= g < groups@.len() ==> pair_views((#[trigger] groups@[g])@) == spec_family(
                    iv,
                    keys.deep_view()[g],
                ),
            forall|g: int, l: int|
                #![trigger groups@[g]@[l]]
                0 <= g < groups@.len() && 0 <= l < groups@[g]@.len() ==> spec_split_numeric(
                    groups@[g]@[l].1@.name,
                ) == Some((keys.deep_view()[g], groups@[g]@[l].0)) && iv.contains(
                    groups@[g]@[l].1@,
                ),
            reg_views(leftover@) == spec_flatten_all(iv, ps.subrange(0, k)),
            range_views(ranges@) == spec_ranges_all(iv, ps.subrange(0, k)),
            forall|i: int|
                0 <= i < leftover@.len() ==> spec_name_from(
                    iv,
                    (#[trigger] leftover@[i])@.name,
                ),
            forall|i: int|
                0 <= i < ranges@.len() ==> spec_range_ok(iv, (#[trigger] ranges@[i])@),
        decreases groups@.len(),
    {
        let ghost old_groups = groups@;
        let ghost old_keys_vec = keys@;
        let ghost old_keys_dv = keys.deep_view();
        let items = groups.remove(0);
        let key = keys.remove(0);
        proof {
            assert(items@ == old_groups[0]@);
            assert(key@ == old_keys_dv[0]);
            assert(key@ == ps[k]);
            assert forall|g: int|
                0 <= g < keys.deep_view().len() implies keys.deep_view()[g] == old_keys_dv[
                g + 1] by {
                assert(keys@[g] == old_keys_vec[g + 1]);
            }
            assert(keys.deep_view() =~= ps.subrange(k + 1, ps.len() as int));
            assert forall|g: int|
                0 <= g < groups@.len() implies pair_views((#[trigger] groups@[g])@) == spec_family(
                iv,
                keys.deep_view()[g],
            ) by {
                assert(groups@[g] == old_groups[g + 1]);
                assert(keys.deep_view()[g] == old_keys_dv[g + 1]);
            }
            assert forall|g: int, l: int|
                #![trigger groups@[g]@[l]]
                0 <= g < groups@.len() && 0 <= l < groups@[g]@.len() implies spec_split_numeric(
                groups@[g]@[l].1@.name,
            ) == Some((keys.deep_view()[g], groups@[g]@[l].0)) && iv.contains(
                groups@[g]@[l].1@,
            ) by {
                assert(groups@[g] == old_groups[g + 1]);
                assert(keys.deep_view()[g] == old_keys_dv[g + 1]);
                assert(old_groups[g + 1]@[l].1@.name == groups@[g]@[l].1@.name);
            }
            assert forall|l: int|
                0 <= l < items@.len() implies spec_name_from(
                iv,
                (#[trigger] items@[l]).1@.name,
            ) by {
                assert(old_groups[0]@[l] == items@[l]);
                assert(iv.contains(items@[l].1@));
                let j = choose|j: int| 0 <= j < iv.len() && iv[j] == items@[l].1@;
                assert(iv[j].name == items@[l].1@.name);
            }
            assert(ps.subrange(0, k + 1).drop_last() =~= ps.subrange(0, k));
            assert(ps.subrange(0, k + 1).last() == ps[k]);
            assert(pair_views(items@) == spec_family(iv, ps[k]));
        }
        if !is_eligible_prefix(key.as_str()) {
            flatten_group(&items, Ghost(iv), &mut leftover);
            proof {
                assert(spec_flatten_family(iv, ps[k]) == spec_backfilled(
                    pair_views(items@),
                    spec_first_good(pair_views(items@)),
                ));
                assert(reg_views(leftover@) == spec_flatten_all(iv, ps.subrange(0, k + 1)));
                assert(range_views(ranges@) =~= spec_ranges_all(iv, ps.subrange(0, k + 1)));
            }
        } else {
            let sorted = sort_by_index(items);
            let ghost sv = pair_views(sorted@);
            let ghost itv = pair_views(old_groups[0]@);
            proof {
                assert(sv == spec_sort_family(spec_family(iv, ps[k])));
                lemma_sort_family_ms(itv);
                assert(sv.to_multiset() == itv.to_multiset());
                assert forall|l: int|
                    0 <= l < sv.len() implies spec_split_numeric((#[trigger] sv[l]).1.name)
                        == Some((old_keys_dv[0], sv[l].0)) && iv.contains(sv[l].1) by {
                    lemma_ms_elem::<(u32, RegView)>(sv, itv, l);
                    let m = choose|m: int| 0 <= m < itv.len() && itv[m] == sv[l];
                    assert(itv[m] == (old_groups[0]@[m].0, old_groups[0]@[m].1@));
                }
                assert(forall|off: int|
                    0 <= off < sorted@.len() ==> (#[trigger] sorted@[off]).0 == sv[off].0);
            }
            if sorted.len() >= 3 && sorted.len() <= (u32::MAX as usize) && check_contiguous(
                &sorted,
            ) {
                proof {
                    assert(spec_compressible(iv, ps[k]));
                }
                let start = sorted[0].0;
                let count = sorted.len() as u32;
                let description = majority_description(&sorted);
                let overrides = build_overrides(&sorted, &description);
                let rg = SpecialRegisterRange {
                    prefix: key,
                    start,
                    count,
                    description,
                    overrides,
                };
                proof {
                    assert forall|off: int| 0 <= off < count implies #[trigger] spec_family_member(
                        iv,
                        rg@.prefix,
                        (start + off) as u32,
                    ) by {
                        assert(sv[off].0 == start + off);
                        assert(spec_split_numeric(sv[off].1.name) == Some((
                            old_keys_dv[0],
                            sv[off].0,
                        )));
                        assert(iv.contains(sv[off].1));
                        let j = choose|j: int| 0 <= j < iv.len() && iv[j] == sv[off].1;
                        assert(spec_split_numeric(iv[j].name) == Some((
                            rg@.prefix,
                            (start + off) as u32,
                        )));
                    }
                    assert(rg@.start + rg@.count <= u32::MAX + 1) by {
                        assert(sv[count - 1].0 == start + (count - 1));
                    }
                    assert(spec_range_ok(iv, rg@));
                    assert(rg@.description == spec_majority_desc(sv));
                    assert(rg@.overrides == spec_overrides_of(sv, spec_majority_desc(sv)));
                    assert(rg@ == spec_range_of(iv, ps[k]));
                }
                let ghost old_ranges = ranges@;
                ranges.push(rg);
                proof {
                    assert(range_views(ranges@) =~= range_views(old_ranges).push(rg@));
                    assert(range_views(ranges@) =~= spec_ranges_all(iv, ps.subrange(0, k + 1)));
                    assert(spec_flatten_family(iv, ps[k]) =~= Seq::<RegView>::empty());
                    assert(reg_views(leftover@) =~= spec_flatten_all(iv, ps.subrange(0, k + 1)));
                }
            } else {
                proof {
                    assert(!spec_compressible(iv, ps[k]));
                    assert(spec_flatten_family(iv, ps[k]) == spec_members(sv));
                }
                // flatten the failed family, in index order
                let ghost base = reg_views(leftover@);
                let m = sorted.len();
                let mut l: usize = 0;
                proof {
                    assert(reg_views(leftover@) =~= base + spec_members(sv).subrange(0, 0));
                }
                while l < m
                    invariant
                        m == sorted@.len(),
                        l <= m,
                        sv == pair_views(sorted@),
                        forall|kk: int|
                            0 <= kk < sv.len() ==> iv.contains((#[trigger] sv[kk]).1),
                        reg_views(leftover@) == base + spec_members(sv).subrange(0, l as int),
                        forall|i: int|
                            0 <= i < leftover@.len() ==> spec_name_from(
                                iv,
                                (#[trigger] leftover@[i])@.name,
                            ),
                    decreases m - l,
                {
                    let ghost old_left = leftover@;
                    leftover.push(sorted[l].1.clone());
                    proof {
                        assert(leftover@[old_left.len() as int]@ == sv[l as int].1);
                        let j = choose|j: int| 0 <= j < iv.len() && iv[j] == sv[l as int].1;
                        assert(iv[j].name == sv[l as int].1.name);
                        assert(reg_views(leftover@) =~= reg_views(old_left).push(sv[l as int].1));
                        assert(spec_members(sv).subrange(0, l + 1) =~= spec_members(sv).subrange(
                            0,
                            l as int,
                        ).push(spec_members(sv)[l as int]));
                    }
                    l += 1;
                }
                proof {
                    assert(spec_members(sv).subrange(0, m as int) =~= spec_members(sv));
                    assert(reg_views(leftover@) == spec_flatten_all(iv, ps.subrange(0, k + 1)));
                    assert(range_views(ranges@) =~= spec_ranges_all(iv, ps.subrange(0, k + 1)));
                }
            }
        }
        proof {
            k = k + 1;
        }
    }
    proof {
        assert(ps.subrange(0, k) =~= ps);
    }
    // assemble: plain singles, flattened leftovers, keep good, sort
    let mut singles = plain;
    proof {
        assert forall|i: int|
            0 <= i < singles@.len() implies spec_name_from(
            iv,
            (#[trigger] singles@[i])@.name,
        ) by {
            broadcast use vstd::seq_lib::group_filter_ensures;

            assert(reg_views(singles@)[i] == singles@[i]@);
            assert(spec_ungrouped(iv).contains(reg_views(singles@)[i]));
            iv.lemma_filter_contains_rev(
                |x: RegView| spec_split_numeric(x.name) is None,
                reg_views(singles@)[i],
            );
            let j = choose|j: int| 0 <= j < iv.len() && iv[j] == singles@[i]@;
            assert(iv[j].name == singles@[i]@.name);
        }
    }
    let ghost pre_append = singles@;
    singles.append(&mut leftover);
    proof {
        assert forall|i: int|
            0 <= i < singles@.len() implies spec_name_from(
            iv,
            (#[trigger] singles@[i])@.name,
        ) by {
            if i < pre_append.len() {
                assert(singles@[i] == pre_append[i]);
            }
        }
        assert(reg_views(singles@) =~= spec_ungrouped(iv) + spec_flatten_all(iv, ps));
    }
    let kept = retain_good(&singles);
    proof {
        assert(reg_views(kept@) == spec_compressed_singles(iv));
        lemma_retain_good_props(reg_views(singles@));
        assert forall|i: int|
            0 <= i < kept@.len() implies spec_has_good_desc((#[trigger] kept@[i])@)
                && spec_name_from(iv, kept@[i]@.name) by {
            assert(reg_views(kept@)[i] == kept@[i]@);
            assert(reg_views(singles@).contains(reg_views(kept@)[i]));
            let j = choose|j: int|
                0 <= j < reg_views(singles@).len() && reg_views(singles@)[j] == reg_views(
                    kept@,
                )[i];
            assert(singles@[j]@ == kept@[i]@);
        }
    }
    let sorted_singles = sort_registers_by_name(kept);
    proof {
        assert forall|i: int|
            0 <= i < sorted_singles@.len() implies spec_has_good_desc(
            (#[trigger] sorted_singles@[i])@,
        ) && spec_name_from(iv, sorted_singles@[i]@.name) by {
            lemma_ms_elem::<RegView>(reg_views(sorted_singles@), reg_views(kept@), i);
            let j = choose|j: int|
                0 <= j < reg_views(kept@).len() && reg_views(kept@)[j] == reg_views(
                    sorted_singles@,
                )[i];
            assert(kept@[j]@ == sorted_singles@[i]@);
        }
    }
    let sorted_ranges = sort_ranges_by_prefix(ranges);
    proof {
        assert forall|i: int|
            0 <= i < sorted_ranges@.len() implies spec_range_ok(
            iv,
            (#[trigger] sorted_ranges@[i])@,
        ) by {
            lemma_ms_elem::<crate::types::RangeView>(
                range_views(sorted_ranges@),
                range_views(ranges@),
                i,
            );
            let j = choose|j: int|
                0 <= j < range_views(ranges@).len() && range_views(ranges@)[j] == range_views(
                    sorted_ranges@,
                )[i];
            assert(ranges@[j]@ == sorted_ranges@[i]@);
        }
    }
    SpecialRegistersCompressed { singles: sorted_singles, ranges: sorted_ranges }
}

proof fn lemma_dec_digits(n: int)
    requires
        n >= 0,
    ensures
        spec_dec(n).len() > 0,
        forall|i: int| 0 <= i < spec_dec(n).len() ==> spec_is_digit(#[trigger] spec_dec(n)[i]),
    decreases n,
{
    if n >= 10 {
        lemma_dec_digits(n / 10);
        assert forall|i: int|
            0 <= i < spec_dec(n).len() implies spec_is_digit(#[trigger] spec_dec(n)[i]) by {
            if i < spec_dec(n / 10).len() {
                assert(spec_dec(n)[i] == spec_dec(n / 10)[i]);
            } else {
                assert(spec_dec(n)[i] == spec_digit_char(n % 10));
            }
        }
    }
}

/// No name an eligible range stands for is a plain indexed register or a
/// numeric literal: the eligible prefixes start with an ordinary letter
/// and contain no digit, exponent marker or decimal point.
pub proof fn lemma_range_member_name_not_ignored(p: Seq<char>, n: u32)
    requires
        spec_eligible_prefix(p),
    ensures
        !spec_is_ignored_register(p + spec_dec(n as int)),
{
    reveal_strlit("attr");
    reveal_strlit("param");
    reveal_strlit("mrt");
    reveal_strlit("pos");
    reveal_strlit("ttmp");
    reveal_strlit("inf");
    reveal_strlit("infinity");
    reveal_strlit("nan");
    lemma_dec_digits(n as int);
    let s = p + spec_dec(n as int);
    assert(p.len() >= 3);
    assert(s[0] == p[0]);
    assert(s[0] == 'a' || s[0] == 'p' || s[0] == 'm' || s[0] == 't');
    // not a plain indexed register: the first character is neither `v`
    // nor `s`
    assert(!spec_is_plain_register(s));
    // not a numeric literal
    assert(spec_strip_sign(s) == s);
    assert(spec_lower(s)[0] == spec_lower_char(s[0]));
    assert(spec_lower(s)[0] == s[0]);
    assert(spec_lower(s) != "inf"@ && spec_lower(s) != "infinity"@ && spec_lower(s) != "nan"@);
    assert forall|j: int| 0 <= j < s.len() implies !(#[trigger] s[j] == 'e' || s[j] == 'E') by {
        if j < p.len() {
        } else {
            assert(s[j] == spec_dec(n as int)[j - p.len()]);
            assert(spec_is_digit(s[j]));
        }
    }
    lemma_find_exp_unique(s, s.len() as int);
    assert forall|j: int| 0 <= j < s.len() implies #[trigger] s[j] != '.' by {
        if j < p.len() {
        } else {
            assert(s[j] == spec_dec(n as int)[j - p.len()]);
            assert(spec_is_digit(s[j]));
        }
    }
    lemma_find_dot_unique(s, s.len() as int);
    assert(!spec_is_digit(s[0]));
    assert(!spec_all_digits(s));
    assert(!spec_is_mantissa(s));
    assert(!spec_is_float_literal(s));
}

/// Members of a family satisfy the family predicate and carry their own
/// index.
proof fn lemma_family_members(input: Seq<RegView>, p: Seq<char>, m: int)
    requires
        0 <= m < spec_family(input, p).len(),
    ensures
        spec_split_numeric(spec_family(input, p)[m].1.name) == Some(
            (p, spec_family(input, p)[m].0),
        ),
        input.contains(spec_family(input, p)[m].1),
{
    broadcast use vstd::seq_lib::group_filter_ensures;

    let pred = |r: RegView| spec_member_of(r, p);
    let f = |r: RegView| (spec_member_index(r), r);
    let kept = input.filter(pred);
    assert(spec_family(input, p)[m] == f(kept[m]));
    assert(pred(kept[m]));
    assert(kept.contains(kept[m]));
    input.lemma_filter_contains_rev(pred, kept[m]);
}

/// Expanding an emitted range names exactly its family's prefix and
/// indices, in ascending index order: compression loses no name, up to
/// the canonical (leading-zero-free) decimal spelling of each index.
pub proof fn lemma_range_expansion_names(input: Seq<RegView>, p: Seq<char>)
    requires
        spec_eligible_prefix(p),
        spec_compressible(input, p),
    ensures
        crate::types::spec_expansion(spec_range_of(input, p)).len() == spec_range_of(
            input,
            p,
        ).count,
        forall|off: int|
            0 <= off < spec_range_of(input, p).count ==> spec_split_numeric(
                (#[trigger] crate::types::spec_expansion(spec_range_of(input, p))[off]).name,
            ) == Some((p, (spec_range_of(input, p).start + off) as u32)),
        forall|off: int|
            0 <= off < spec_range_of(input, p).count ==> #[trigger] spec_family_member(
                input,
                p,
                (spec_range_of(input, p).start + off) as u32,
            ),
{
    broadcast use vstd::seq_lib::group_to_multiset_ensures;

    let rg = spec_range_of(input, p);
    let fam = spec_family(input, p);
    let s = spec_sort_family(fam);
    lemma_sort_family_ms(fam);
    assert(s.len() == rg.count);
    assert forall|off: int|
        0 <= off < rg.count implies spec_split_numeric(
        (#[trigger] crate::types::spec_expansion(rg)[off]).name,
    ) == Some((p, (rg.start + off) as u32)) by {
        assert(s[off].0 == s[0].0 + off);
        assert(rg.start + off <= u32::MAX);
        assert(crate::types::spec_expansion(rg)[off].name == p + spec_dec(rg.start + off));
        lemma_range_name_round_trip(p, (rg.start + off) as u32);
    }
    assert forall|off: int|
        0 <= off < rg.count implies #[trigger] spec_family_member(
        input,
        p,
        (rg.start + off) as u32,
    ) by {
        assert(s[off].0 == s[0].0 + off);
        assert(s.contains(s[off]));
        assert(s.to_multiset().count(s[off]) > 0);
        assert(fam.to_multiset().count(s[off]) > 0);
        assert(fam.contains(s[off]));
        let m = choose|m: int| 0 <= m < fam.len() && fam[m] == s[off];
        lemma_family_members(input, p, m);
        let j = choose|j: int| 0 <= j < input.len() && input[j] == fam[m].1;
        assert(spec_split_numeric(input[j].name) == Some((p, (rg.start + off) as u32)));
    }
}

/// No override is recorded for an index no family member carries.
proof fn lemma_no_override_without_member(
    s: Seq<(u32, RegView)>,
    d: Option<Seq<char>>,
    idx: u32,
)
    requires
        forall|m: int| 0 <= m < s.len() ==> (#[trigger] s[m]).0 != idx,
    ensures
        crate::types::spec_last_override(spec_overrides_of(s, d), idx) is None,
    decreases s.len(),
{
    if s.len() == 0 {
        assert(spec_overrides_of(s, d) =~= Seq::<OverrideView>::empty());
    } else {
        let prev = s.drop_last();
        assert(prev.push(s.last()) =~= s);
        lemma_overrides_push(prev, s.last(), d);
        assert forall|m: int| 0 <= m < prev.len() implies (#[trigger] prev[m]).0 != idx by {
            assert(prev[m] == s[m]);
        }
        lemma_no_override_without_member(prev, d, idx);
        if spec_override_keep(s.last(), d) {
            let ovs = spec_overrides_of(s, d);
            assert(ovs.last().index == s.last().0);
            assert(ovs.last().index != idx);
            assert(ovs.drop_last() =~= spec_overrides_of(prev, d));
        }
    }
}

/// The override that decides a member's index is exactly that member's,
/// when it qualifies for one; otherwise there is none.
proof fn lemma_override_of_member(
    s: Seq<(u32, RegView)>,
    d: Option<Seq<char>>,
    m: int,
)
    requires
        forall|a: int, b: int| 0 <= a < b < s.len() ==> (#[trigger] s[a]).0 != (#[trigger] s[b]).0,
        0 <= m < s.len(),
    ensures
        crate::types::spec_last_override(spec_overrides_of(s, d), s[m].0) == if spec_override_keep(
            s[m],
            d,
        ) {
            Some(
                crate::types::OverrideView { index: s[m].0, description: s[m].1.description },
            )
        } else {
            None
        },
    decreases s.len(),
{
    let idx = s[m].0;
    let prev = s.drop_last();
    assert(prev.push(s.last()) =~= s);
    lemma_overrides_push(prev, s.last(), d);
    if m == s.len() - 1 {
        if spec_override_keep(s.last(), d) {
            let ovs = spec_overrides_of(s, d);
            assert(ovs.last() == crate::types::OverrideView {
                index: s[m].0,
                description: s[m].1.description,
            });
        } else {
            assert forall|a: int| 0 <= a < prev.len() implies (#[trigger] prev[a]).0 != idx by {
                assert(prev[a] == s[a]);
            }
            lemma_no_override_without_member(prev, d, idx);
        }
    } else {
        assert(s.last().0 != idx);
        assert forall|a: int, b: int|
            0 <= a < b < prev.len() implies (#[trigger] prev[a]).0 != (#[trigger] prev[b]).0 by {
            assert(prev[a] == s[a] && prev[b] == s[b]);
        }
        assert(prev[m] == s[m]);
        lemma_override_of_member(prev, d, m);
        if spec_override_keep(s.last(), d) {
            let ovs = spec_overrides_of(s, d);
            assert(ovs.last().index == s.last().0);
            assert(ovs.last().index != idx);
            assert(ovs.drop_last() =~= spec_overrides_of(prev, d));
        }
    }
}

/// Expanding an emitted range reproduces the members' descriptions: a
/// member whose own description is non-blank, not a placeholder, and
/// different from the range's shared description keeps it through an
/// override; every other member carries the shared description.
pub proof fn lemma_range_expansion_descriptions(input: Seq<RegView>, p: Seq<char>, off: int)
    requires
        spec_eligible_prefix(p),
        spec_compressible(input, p),
        0 <= off < spec_range_of(input, p).count,
    ensures
        ({
            let rg = spec_range_of(input, p);
            let s = spec_sort_family(spec_family(input, p));
            crate::types::spec_expansion(rg)[off].description == if spec_override_keep(
                s[off],
                rg.description,
            ) {
                s[off].1.description
            } else {
                rg.description
            }
        }),
{
    let rg = spec_range_of(input, p);
    let s = spec_sort_family(spec_family(input, p));
    assert(s[off].0 == s[0].0 + off);
    assert(rg.start + off <= u32::MAX) by {
        assert(s[off].0 == s[0].0 + off);
    }
    let idx = (rg.start + off) as u32;
    assert(s[off].0 == idx);
    assert forall|a: int, b: int|
        0 <= a < b < s.len() implies (#[trigger] s[a]).0 != (#[trigger] s[b]).0 by {
        assert(s[a].0 == s[0].0 + a);
        assert(s[b].0 == s[0].0 + b);
    }
    lemma_override_of_member(s, rg.description, off);
    assert(crate::types::spec_expansion(rg)[off].description == crate::types::spec_member_description(
        rg,
        idx,
    ));
}

/// A single in the compressed output never carries a plain indexed
/// register name or a numeric literal name, provided (as the collection
/// pass guarantees) no input record does.
pub proof fn lemma_single_name_not_ignored(input: Seq<RegView>, name: Seq<char>)
    requires
        forall|j: int|
            0 <= j < input.len() ==> !spec_is_ignored_register((#[trigger] input[j]).name),
        spec_name_from(input, name),
    ensures
        !spec_is_ignored_register(name),
{
    let j = choose|j: int| 0 <= j < input.len() && (#[trigger] input[j]).name == name;
}

/// A family of two indices, however contiguous, never becomes a range:
/// a faithful range descriptor would attest at least three distinct
/// member indices.
pub proof fn lemma_pair_family_never_range(
    input: Seq<RegView>,
    p: Seq<char>,
    a: u32,
    rg: crate::types::RangeView,
)
    requires
        forall|j: int|
            0 <= j < input.len() ==> (match spec_split_numeric((#[trigger] input[j]).name) {
                Some(pi) => pi.0 == p ==> (pi.1 == a || pi.1 == a + 1),
                None => true,
            }),
        rg.prefix == p,
    ensures
        !spec_range_ok(input, rg),
{
    if spec_range_ok(input, rg) {
        assert(spec_family_member(input, p, (rg.start + 0) as u32));
        assert(spec_family_member(input, p, (rg.start + 1) as u32));
        assert(spec_family_member(input, p, (rg.start + 2) as u32));
        let j0 = choose|j: int|
            0 <= j < input.len() && spec_split_numeric((#[trigger] input[j]).name) == Some(
                (p, (rg.start + 0) as u32),
            );
        let j1 = choose|j: int|
            0 <= j < input.len() && spec_split_numeric((#[trigger] input[j]).name) == Some(
                (p, (rg.start + 1) as u32),
            );
        let j2 = choose|j: int|
            0 <= j < input.len() && spec_split_numeric((#[trigger] input[j]).name) == Some(
                (p, (rg.start + 2) as u32),
            );
        assert(false);
    }
}

/// A family with a gap (indices `a`, `a + 1` and `a + 3` but not
/// `a + 2`) never becomes a range: no three contiguous indices are all
/// present.
pub proof fn lemma_gapped_family_never_range(
    input: Seq<RegView>,
    p: Seq<char>,
    a: u32,
    rg: crate::types::RangeView,
)
    requires
        forall|j: int|
            0 <= j < input.len() ==> (match spec_split_numeric((#[trigger] input[j]).name) {
                Some(pi) => pi.0 == p ==> (pi.1 == a || pi.1 == a + 1 || pi.1 == a + 3),
                None => true,
            }),
        rg.prefix == p,
    ensures
        !spec_range_ok(input, rg),
{
    if spec_range_ok(input, rg) {
        assert(spec_family_member(input, p, (rg.start + 0) as u32));
        assert(spec_family_member(input, p, (rg.start + 1) as u32));
        assert(spec_family_member(input, p, (rg.start + 2) as u32));
        let j0 = choose|j: int|
            0 <= j < input.len() && spec_split_numeric((#[trigger] input[j]).name) == Some(
                (p, (rg.start + 0) as u32),
            );
        let j1 = choose|j: int|
            0 <= j < input.len() && spec_split_numeric((#[trigger] input[j]).name) == Some(
                (p, (rg.start + 1) as u32),
            );
        let j2 = choose|j: int|
            0 <= j < input.len() && spec_split_numeric((#[trigger] input[j]).name) == Some(
                (p, (rg.start + 2) as u32),
            );
        assert(false);
    }
}


/// The character views of a string list.
pub open spec fn string_views(s: Seq<String>) -> Seq<Seq<char>> {
    s.map_values(|x: String| x@)
}

proof fn lemma_string_views_remove(s: Seq<String>, i: int)
    requires
        0 <= i < s.len(),
    ensures
        string_views(s.remove(i)) =~= string_views(s).remove(i),
{
}

fn min_string_index(v: &Vec<String>) -> (k: usize)
    requires
        v@.len() > 0,
    ensures
        k < v@.len(),
        forall|j: int| 0 <= j < v@.len() ==> spec_lex_le(v@[k as int]@, (#[trigger] v@[j])@),
{
    let mut best: usize = 0;
    let mut j: usize = 1;
    while j < v.len()
        invariant
            best < j,
            j <= v@.len(),
            forall|l: int| 0 <= l < j ==> spec_lex_le(v@[best as int]@, (#[trigger] v@[l])@),
        decreases v@.len() - j,
    {
        if name_lt(&v[j], &v[best]) {
            proof {
                assert forall|l: int| 0 <= l <= j implies spec_lex_le(
                    v@[j as int]@,
                    (#[trigger] v@[l])@,
                ) by {
                    if l < j {
                        if v@[best as int]@ == v@[l]@ {
                        } else {
                            lemma_lex_lt_trans(v@[j as int]@, v@[best as int]@, v@[l]@);
                        }
                    }
                }
            }
            best = j;
        } else {
            proof {
                lemma_lex_total(v@[j as int]@, v@[best as int]@);
            }
        }
        j += 1;
    }
    best
}

/// Sort strings lexicographically by code point.
pub fn sort_strings(v: Vec<String>) -> (out: Vec<String>)
    ensures
        string_views(out@).to_multiset() == string_views(v@).to_multiset(),
        forall|i: int, j: int|
            0 <= i < j < out@.len() ==> spec_lex_le((#[trigger] out@[i])@, (#[trigger] out@[j])@),
{
    broadcast use vstd::seq_lib::group_to_multiset_ensures;
    broadcast use vstd::multiset::group_multiset_axioms;

    let mut rem = v;
    let mut out: Vec<String> = Vec::new();
    let ghost total = string_views(rem@).to_multiset();
    proof {
        assert(string_views(out@).to_multiset().add(string_views(rem@).to_multiset()) =~= total);
    }
    while rem.len() > 0
        invariant
            total == string_views(v@).to_multiset(),
            string_views(out@).to_multiset().add(string_views(rem@).to_multiset()) == total,
            forall|i: int, j: int|
                0 <= i < j < out@.len() ==> spec_lex_le(
                    (#[trigger] out@[i])@,
                    (#[trigger] out@[j])@,
                ),
            forall|i: int, j: int|
                0 <= i < out@.len() && 0 <= j < rem@.len() ==> spec_lex_le(
                    (#[trigger] out@[i])@,
                    (#[trigger] rem@[j])@,
                ),
        decreases rem@.len(),
    {
        let k = min_string_index(&rem);
        let ghost old_rem = rem@;
        let ghost old_out = out@;
        let r = rem.remove(k);
        out.push(r);
        proof {
            lemma_string_views_remove(old_rem, k as int);
            assert(string_views(rem@) == string_views(old_rem).remove(k as int));
            vstd::seq_lib::to_multiset_remove::<Seq<char>>(string_views(old_rem), k as int);
            assert(string_views(out@) =~= string_views(old_out).push(old_rem[k as int]@));
            vstd::seq_lib::to_multiset_build::<Seq<char>>(
                string_views(old_out),
                old_rem[k as int]@,
            );
            assert(string_views(old_rem).contains(string_views(old_rem)[k as int]));
            vstd::seq_lib::to_multiset_contains::<Seq<char>>(
                string_views(old_rem),
                string_views(old_rem)[k as int],
            );
            assert(string_views(out@).to_multiset().add(string_views(rem@).to_multiset())
                =~= total);
        }
    }
    out
}


/// The canonical decimal digits carry exactly their value.
proof fn lemma_dec_value(n: int)
    requires
        n >= 0,
    ensures
        spec_digits_val(spec_dec(n)) == n,
    decreases n,
{
    if n < 10 {
        assert(spec_dec(n).drop_last() =~= Seq::<char>::empty());
        assert(spec_dec(n).last() == spec_digit_char(n));
        assert(spec_digits_val(Seq::<char>::empty()) == 0);
        assert((spec_digit_char(n) as u32) == 48 + n);
        assert(spec_digits_val(spec_dec(n)) == n);
    } else {
        lemma_dec_value(n / 10);
        assert(spec_dec(n).drop_last() =~= spec_dec(n / 10));
        assert(spec_dec(n).last() == spec_digit_char(n % 10));
        assert((spec_digit_char(n % 10) as u32) == 48 + (n % 10));
        assert(spec_digits_val(spec_dec(n)) == (n / 10) * 10 + (n % 10));
    }
}

/// A name built from an eligible prefix and a decimal index splits back
/// into exactly that prefix and index: range compression loses nothing
/// about the names it stands for.
pub proof fn lemma_range_name_round_trip(p: Seq<char>, n: u32)
    requires
        spec_eligible_prefix(p),
    ensures
        spec_split_numeric(p + spec_dec(n as int)) == Some((p, n)),
{
    reveal_strlit("attr");
    reveal_strlit("param");
    reveal_strlit("mrt");
    reveal_strlit("pos");
    reveal_strlit("ttmp");
    lemma_dec_digits(n as int);
    lemma_dec_value(n as int);
    let s = p + spec_dec(n as int);
    assert forall|j: int| 0 <= j < p.len() implies !spec_is_digit(#[trigger] s[j]) by {
        assert(s[j] == p[j]);
    }
    assert(spec_is_digit(s[p.len() as int]));
    lemma_find_digit_unique(s, p.len() as int);
    assert(s.subrange(p.len() as int, s.len() as int) =~= spec_dec(n as int));
    assert(s.subrange(0, p.len() as int) =~= p);
    assert(spec_digits_val(spec_dec(n as int)) == n);
}

} // verus!
