//! Architecture-label normalization and filter matching.
//!
//! Free-text architecture labels ("RDNA 3.5", "rdna35") are mapped to
//! canonical tokens: a family keyword (`rdna` / `cdna`) followed directly by
//! an optional version.  The same vocabulary is used for document tags at
//! compile time and for filter hints at query time.

use vstd::prelude::*;
use vstd::string::*;

use crate::strlib::{
    chars_of, is_blank, is_digit, lower_chars, remove_spaces, slice_starts_with, spec_contains_seq,
    spec_has_digit, spec_is_blank, spec_is_digit, spec_lower, spec_remove_spaces, spec_starts_with,
    spec_tokens, spec_trim, split_ws_tokens, str_contains, str_eq, str_has_digit,
    str_starts_with, string_from_chars, trim_chars,
};
use crate::types::InstructionEntry;

verus! {

/// Canonical form of a runtime architecture hint: lower-cased, spaces
/// removed, and a two-digit suffix glued to `rdna` split into
/// `major.minor`.
pub open spec fn spec_normalize_hint(s: Seq<char>) -> Seq<char> {
    let cleaned = spec_remove_spaces(spec_lower(spec_trim(s)));
    if spec_starts_with(cleaned, "rdna"@) && cleaned.len() == 6 && spec_is_digit(cleaned[4])
        && spec_is_digit(cleaned[5]) {
        cleaned.subrange(0, 4) + seq![cleaned[4], '.', cleaned[5]]
    } else {
        cleaned
    }
}

/// Normalize a runtime-provided architecture hint.
pub fn normalize_architecture_hint(raw: &str) -> (r: String)
    ensures
        r@ == spec_normalize_hint(raw@),
{
    let v = chars_of(raw);
    let t = trim_chars(v.as_slice());
    let lo = lower_chars(t.as_slice());
    let cleaned = remove_spaces(lo.as_slice());
    let pref = chars_of("rdna");
    if cleaned.len() == 6 && slice_starts_with(cleaned.as_slice(), pref.as_slice()) && is_digit(
        cleaned[4],
    ) && is_digit(cleaned[5]) {
        let mut out: Vec<char> = Vec::new();
        out.push(cleaned[0]);
        out.push(cleaned[1]);
        out.push(cleaned[2]);
        out.push(cleaned[3]);
        out.push(cleaned[4]);
        out.push('.');
        out.push(cleaned[5]);
        proof {
            assert(out@ =~= cleaned@.subrange(0, 4) + seq![cleaned@[4], '.', cleaned@[5]]);
        }
        string_from_chars(&out)
    } else {
        string_from_chars(&cleaned)
    }
}

/// The architecture filter in effect for a query: an explicit non-blank
/// override wins (normalized), else the editor language identifier selects
/// a fixed canonical token, else no filter.
/// The fixed filter table keyed by editor language identifier.
pub open spec fn spec_language_filter(lang: Seq<char>) -> Option<Seq<char>> {
    if lang == "rdna35"@ {
        Some("rdna3.5"@)
    } else if lang == "rdna3"@ {
        Some("rdna3"@)
    } else if lang == "rdna4"@ {
        Some("rdna4"@)
    } else if lang == "cdna3"@ {
        Some("cdna3"@)
    } else if lang == "cdna4"@ {
        Some("cdna4"@)
    } else if lang == "rdna"@ {
        Some("rdna"@)
    } else if lang == "cdna"@ {
        Some("cdna"@)
    } else {
        None
    }
}

/// The architecture filter in effect for a query: an explicit non-blank
/// override wins (normalized), else the editor language identifier selects
/// a fixed canonical token, else no filter.
pub open spec fn spec_architecture_filter(lang: Seq<char>, ov: Option<Seq<char>>) -> Option<
    Seq<char>,
> {
    match ov {
        Some(o) => if !spec_is_blank(o) {
            Some(spec_normalize_hint(o))
        } else {
            spec_language_filter(lang)
        },
        None => spec_language_filter(lang),
    }
}

/// Reconcile the editor language identifier with an optional explicit
/// architecture override.
pub fn architecture_filter(language_id: &str, override_arch: Option<&String>) -> (r: Option<
    String,
>)
    ensures
        r.deep_view() == spec_architecture_filter(
            language_id@,
            match override_arch {
                Some(o) => Some(o@),
                None => None,
            },
        ),
{
    if let Some(o) = override_arch {
        if !is_blank(o.as_str()) {
            return Some(normalize_architecture_hint(o.as_str()));
        }
    }
    if str_eq(language_id, "rdna35") {
        Some(String::from_str("rdna3.5"))
    } else if str_eq(language_id, "rdna3") {
        Some(String::from_str("rdna3"))
    } else if str_eq(language_id, "rdna4") {
        Some(String::from_str("rdna4"))
    } else if str_eq(language_id, "cdna3") {
        Some(String::from_str("cdna3"))
    } else if str_eq(language_id, "cdna4") {
        Some(String::from_str("cdna4"))
    } else if str_eq(language_id, "rdna") {
        Some(String::from_str("rdna"))
    } else if str_eq(language_id, "cdna") {
        Some(String::from_str("cdna"))
    } else {
        None
    }
}

/// Whether an architecture tag list satisfies a canonical filter: the bare
/// family keywords match any version of that family, anything else must
/// match a tag exactly.
pub open spec fn spec_arch_list_matches(archs: Seq<Seq<char>>, f: Seq<char>) -> bool {
    if f == "rdna"@ || f == "cdna"@ {
        exists|i: int| 0 <= i < archs.len() && spec_starts_with(#[trigger] archs[i], f)
    } else {
        exists|i: int| 0 <= i < archs.len() && #[trigger] archs[i] == f
    }
}

fn any_arch_exact(archs: &Vec<String>, f: &str) -> (r: bool)
    ensures
        r == exists|i: int|
            0 <= i < archs.deep_view().len() && #[trigger] archs.deep_view()[i] == f@,
{
    let n = archs.len();
    let mut i: usize = 0;
    while i < n
        invariant
            n == archs@.len(),
            i <= n,
            forall|j: int| 0 <= j < i ==> #[trigger] archs.deep_view()[j] != f@,
        decreases n - i,
    {
        if str_eq(archs[i].as_str(), f) {
            proof {
                assert(archs.deep_view()[i as int] == f@);
            }
            return true;
        }
        i += 1;
    }
    false
}

fn any_arch_prefix(archs: &Vec<String>, p: &str) -> (r: bool)
    ensures
        r == exists|i: int|
            0 <= i < archs.deep_view().len() && spec_starts_with(
                #[trigger] archs.deep_view()[i],
                p@,
            ),
{
    let n = archs.len();
    let mut i: usize = 0;
    while i < n
        invariant
            n == archs@.len(),
            i <= n,
            forall|j: int|
                0 <= j < i ==> !spec_starts_with(#[trigger] archs.deep_view()[j], p@),
        decreases n - i,
    {
        if str_starts_with(archs[i].as_str(), p) {
            proof {
                assert(spec_starts_with(archs.deep_view()[i as int], p@));
            }
            return true;
        }
        i += 1;
    }
    false
}

/// Whether `entry` satisfies the canonical architecture filter `filter`.
pub fn entry_matches_arch(entry: &InstructionEntry, filter: &str) -> (r: bool)
    ensures
        r == spec_arch_list_matches(entry.architectures.deep_view(), filter@),
{
    if str_eq(filter, "rdna") || str_eq(filter, "cdna") {
        any_arch_prefix(&entry.architectures, filter)
    } else {
        any_arch_exact(&entry.architectures, filter)
    }
}

/// One token's effect on the (family, version) scan state.  The first
/// token containing a family keyword fixes the family, and its trailing
/// text past the keyword prefix, when present, fixes the version; after
/// the family is fixed, the first later non-family token containing a
/// digit fixes the version.
pub open spec fn spec_arch_token_step(
    st: (Option<Seq<char>>, Option<Seq<char>>),
    t: Seq<char>,
) -> (Option<Seq<char>>, Option<Seq<char>>) {
    if spec_contains_seq(t, "rdna"@) {
        if st.0 is None {
            (
                Some("rdna"@),
                if spec_starts_with(t, "rdna"@) && t.len() > "rdna"@.len() {
                    Some(t.subrange("rdna"@.len() as int, t.len() as int))
                } else {
                    None
                },
            )
        } else {
            st
        }
    } else if spec_contains_seq(t, "cdna"@) {
        if st.0 is None {
            (
                Some("cdna"@),
                if spec_starts_with(t, "cdna"@) && t.len() > "cdna"@.len() {
                    Some(t.subrange("cdna"@.len() as int, t.len() as int))
                } else {
                    None
                },
            )
        } else {
            st
        }
    } else if st.0 is Some && st.1 is None && spec_has_digit(t) {
        (st.0, Some(t))
    } else {
        st
    }
}

/// The scan state after the first `i` tokens.
pub open spec fn spec_arch_state(toks: Seq<Seq<char>>, i: int) -> (Option<Seq<char>>, Option<
    Seq<char>,
>)
    decreases i,
{
    if i <= 0 {
        (None, None)
    } else {
        spec_arch_token_step(spec_arch_state(toks, i - 1), toks[i - 1])
    }
}

/// Canonical form of a document architecture label: family keyword plus
/// version when one is recognized, else the lower-cased label with spaces
/// removed.
pub open spec fn spec_normalize_arch_name(s: Seq<char>) -> Seq<char> {
    let low = spec_lower(spec_trim(s));
    let toks = spec_tokens(low);
    let st = spec_arch_state(toks, toks.len() as int);
    match st.0 {
        Some(f) => match st.1 {
            Some(v) => f + v,
            None => f,
        },
        None => spec_remove_spaces(low),
    }
}

/// Normalize a document architecture label.
pub fn normalize_architecture_name(raw: &str) -> (r: String)
    ensures
        r@ == spec_normalize_arch_name(raw@),
{
    let v = chars_of(raw);
    let t = trim_chars(v.as_slice());
    let low = lower_chars(t.as_slice());
    let toks = split_ws_tokens(low.as_slice());
    let ghost toks_spec = spec_tokens(spec_lower(spec_trim(raw@)));

    let mut family: Option<String> = None;
    let mut version: Option<String> = None;
    let n = toks.len();
    let mut i: usize = 0;
    while i < n
        invariant
            n == toks@.len(),
            n == toks_spec.len(),
            forall|j: int| 0 <= j < n ==> #[trigger] toks@[j]@ == toks_spec[j],
            i <= n,
            family.deep_view() == spec_arch_state(toks_spec, i as int).0,
            version.deep_view() == spec_arch_state(toks_spec, i as int).1,
        decreases n - i,
    {
        let tok = &toks[i];
        if str_contains(tok.as_str(), "rdna") {
            if family.is_none() {
                family = Some(String::from_str("rdna"));
                if str_starts_with(tok.as_str(), "rdna") && tok.as_str().unicode_len() > 4 {
                    proof {
                        reveal_strlit("rdna");
                    }
                    let rest = tok.as_str().substring_char(4, tok.as_str().unicode_len());
                    version = Some(rest.to_owned());
                } else {
                    proof {
                        reveal_strlit("rdna");
                    }
                    version = None;
                }
            }
        } else if str_contains(tok.as_str(), "cdna") {
            if family.is_none() {
                family = Some(String::from_str("cdna"));
                if str_starts_with(tok.as_str(), "cdna") && tok.as_str().unicode_len() > 4 {
                    proof {
                        reveal_strlit("cdna");
                    }
                    let rest = tok.as_str().substring_char(4, tok.as_str().unicode_len());
                    version = Some(rest.to_owned());
                } else {
                    proof {
                        reveal_strlit("cdna");
                    }
                    version = None;
                }
            }
        } else if family.is_some() && version.is_none() && str_has_digit(tok.as_str()) {
            version = Some(tok.clone());
        }
        i += 1;
    }
    match family {
        Some(f) => match version {
            Some(ver) => f.concat(ver.as_str()),
            None => f,
        },
        None => {
            let cleaned = remove_spaces(low.as_slice());
            string_from_chars(&cleaned)
        },
    }
}

/// Whether a source document's file name marks it as one that carries the
/// register definitions (the RDNA-family documents do).
pub fn is_rdna_source(file_name: &str) -> (r: bool)
    ensures
        r == spec_contains_seq(file_name@, "rdna"@),
{
    str_contains(file_name, "rdna")
}

} // verus!
