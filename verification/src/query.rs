//! The query engine: resolve a raw token against the loaded index.
//!
//! A token is first split into base name and encoding-variant suffix; the
//! base name, lower-cased, selects an index bucket.  A missing bucket is
//! "not found".  Under an architecture filter, the first record in bucket
//! order whose tag set satisfies the filter wins, and a bucket with no
//! such record is "filtered out" — a distinct outcome.  With no filter the
//! bucket's first record wins.

use vstd::prelude::*;

use crate::architecture::{entry_matches_arch, spec_arch_list_matches};
use crate::encoding::{spec_split_variant, split_encoding_variant};
use crate::index::{group_views, spec_find_group, IsaIndex};
use crate::strlib::{spec_lower, str_eq_ignore_case, str_to_lower, spec_lex_le};
use crate::types::{EncodingVariant, EntryView, InstructionEntry, RegView, SpecialRegister};

verus! {

/// The outcome of resolving a token.
pub enum ResolveOutcome {
    /// No record carries the token's base name.
    NotFound,
    /// Records carry the name, but none satisfies the architecture
    /// filter.
    FilteredOut,
    /// The resolved record and the variant the token asked for.
    Found(InstructionEntry, EncodingVariant),
}

/// The first record of a bucket satisfying the filter, if any.
pub open spec fn spec_first_arch_match(es: Seq<EntryView>, f: Seq<char>) -> Option<EntryView>
    decreases es.len(),
{
    if es.len() == 0 {
        None
    } else if spec_arch_list_matches(es[0].architectures, f) {
        Some(es[0])
    } else {
        spec_first_arch_match(es.drop_first(), f)
    }
}

fn first_arch_match<'a>(es: &'a Vec<InstructionEntry>, f: &str) -> (r: Option<&'a InstructionEntry>)
    ensures
        match r {
            Some(e) => spec_first_arch_match(
                es@.map_values(|x: InstructionEntry| x@),
                f@,
            ) == Some(e@),
            None => spec_first_arch_match(es@.map_values(|x: InstructionEntry| x@), f@) is None,
        },
{
    let ghost ev = es@.map_values(|x: InstructionEntry| x@);
    let n = es.len();
    let mut i: usize = 0;
    proof {
        assert(ev =~= ev.subrange(0, n as int));
    }
    while i < n
        invariant
            n == es@.len(),
            ev == es@.map_values(|x: InstructionEntry| x@),
            i <= n,
            spec_first_arch_match(ev, f@) == spec_first_arch_match(
                ev.subrange(i as int, n as int),
                f@,
            ),
        decreases n - i,
    {
        proof {
            assert(ev.subrange(i as int, n as int)[0] == ev[i as int]);
            assert(ev.subrange(i as int, n as int).drop_first() =~= ev.subrange(
                i + 1,
                n as int,
            ));
        }
        if entry_matches_arch(&es[i], f) {
            proof {
                assert(spec_arch_list_matches(ev[i as int].architectures, f@));
            }
            return Some(&es[i]);
        }
        i += 1;
    }
    None
}

/// Resolve a raw token against the index under an optional canonical
/// architecture filter.
pub fn resolve_instruction(index: &IsaIndex, token: &str, filter: Option<&String>) -> (r:
    ResolveOutcome)
    requires
        index.wf(),
    ensures
        ({
            let split = spec_split_variant(token@);
            let key = spec_lower(split.0);
            let gs = group_views(index.groups@);
            match r {
                ResolveOutcome::NotFound => spec_find_group(gs, key) is None,
                ResolveOutcome::FilteredOut => {
                    &&& spec_find_group(gs, key) is Some
                    &&& filter is Some
                    &&& spec_first_arch_match(
                        gs[spec_find_group(gs, key).unwrap() as int].entries,
                        filter.unwrap()@,
                    ) is None
                },
                ResolveOutcome::Found(e, v) => {
                    &&& v == split.1
                    &&& spec_find_group(gs, key) is Some
                    &&& {
                        let es = gs[spec_find_group(gs, key).unwrap() as int].entries;
                        match filter {
                            Some(f) => spec_first_arch_match(es, f@) == Some(e@),
                            None => e@ == es[0],
                        }
                    }
                },
            }
        }),
{
    let split = split_encoding_variant(token);
    let key = str_to_lower(split.base.as_str());
    let entries = match index.lookup(key.as_str()) {
        Some(es) => es,
        None => {
            return ResolveOutcome::NotFound;
        },
    };
    match filter {
        Some(f) => match first_arch_match(entries, f.as_str()) {
            Some(e) => ResolveOutcome::Found(e.clone(), split.variant),
            None => ResolveOutcome::FilteredOut,
        },
        None => {
            proof {
                let gs = group_views(index.groups@);
                let k = spec_lower(spec_split_variant(token@).0);
                crate::index::lemma_find_group_in_bounds(gs, k);
                let gi = spec_find_group(gs, k).unwrap() as int;
                assert(gs[gi].entries.len() > 0);
                assert(entries@.map_values(|x: InstructionEntry| x@).len() > 0);
            }
            let e = entries[0].clone();
            proof {
                assert(e@ == entries@.map_values(|x: InstructionEntry| x@)[0]);
            }
            ResolveOutcome::Found(e, split.variant)
        },
    }
}

/// The first register whose name equals the word up to ASCII case, if
/// any.
pub open spec fn spec_first_register_match(regs: Seq<RegView>, word: Seq<char>) -> Option<RegView>
    decreases regs.len(),
{
    if regs.len() == 0 {
        None
    } else if spec_lower(regs[0].name) == spec_lower(word) {
        Some(regs[0])
    } else {
        spec_first_register_match(regs.drop_first(), word)
    }
}

/// Look the word up among the special registers, case-insensitively; the
/// first match wins.
pub fn find_special_register<'a>(regs: &'a Vec<SpecialRegister>, word: &str) -> (r: Option<
    &'a SpecialRegister,
>)
    ensures
        match r {
            Some(reg) => spec_first_register_match(
                crate::registers::reg_views(regs@),
                word@,
            ) == Some(reg@),
            None => spec_first_register_match(
                crate::registers::reg_views(regs@),
                word@,
            ) is None,
        },
{
    let ghost rv = crate::registers::reg_views(regs@);
    let n = regs.len();
    let mut i: usize = 0;
    proof {
        assert(rv =~= rv.subrange(0, n as int));
    }
    while i < n
        invariant
            n == regs@.len(),
            rv == crate::registers::reg_views(regs@),
            i <= n,
            spec_first_register_match(rv, word@) == spec_first_register_match(
                rv.subrange(i as int, n as int),
                word@,
            ),
        decreases n - i,
    {
        proof {
            assert(rv.subrange(i as int, n as int)[0] == rv[i as int]);
            assert(rv.subrange(i as int, n as int).drop_first() =~= rv.subrange(i + 1, n as int));
        }
        if str_eq_ignore_case(regs[i].name.as_str(), word) {
            return Some(&regs[i]);
        }
        i += 1;
    }
    None
}

/// A completion label drawn legitimately from the index: some bucket's
/// key contains the typed prefix and its first record's lower-cased name
/// is the label.
pub open spec fn spec_label_from(gv: Seq<crate::index::GroupView>, p: Seq<char>, lab: Seq<char>) -> bool {
    exists|g: int|
        0 <= g < gv.len() && crate::strlib::spec_contains_seq((#[trigger] gv[g]).key, p)
            && spec_lower(gv[g].entries[0].name) == lab
}

/// The sorted completion labels for a typed prefix: the lower-cased names
/// of the first records of buckets whose key contains the prefix.
pub fn completion_candidates(index: &IsaIndex, prefix_lower: &str) -> (out: Vec<String>)
    requires
        index.wf(),
    ensures
        forall|i: int, j: int|
            0 <= i < j < out@.len() ==> spec_lex_le(
                (#[trigger] out@[i])@,
                (#[trigger] out@[j])@,
            ),
        forall|i: int|
            0 <= i < out@.len() ==> spec_label_from(
                group_views(index.groups@),
                prefix_lower@,
                (#[trigger] out@[i])@,
            ),
        forall|g: int|
            0 <= g < group_views(index.groups@).len() && crate::strlib::spec_contains_seq(
                (#[trigger] group_views(index.groups@)[g]).key,
                prefix_lower@,
            ) ==> crate::registers::string_views(out@).contains(
                spec_lower(group_views(index.groups@)[g].entries[0].name),
            ),
{
    let ghost gv = group_views(index.groups@);
    let n = index.groups.len();
    let mut labels: Vec<String> = Vec::new();
    let mut g: usize = 0;
    while g < n
        invariant
            n == index.groups@.len(),
            gv == group_views(index.groups@),
            index.wf(),
            g <= n,
            forall|i: int|
                0 <= i < labels@.len() ==> spec_label_from(
                    gv,
                    prefix_lower@,
                    (#[trigger] labels@[i])@,
                ),
            forall|g2: int|
                0 <= g2 < g && crate::strlib::spec_contains_seq(
                    (#[trigger] gv[g2]).key,
                    prefix_lower@,
                ) ==> crate::registers::string_views(labels@).contains(
                    spec_lower(gv[g2].entries[0].name),
                ),
        decreases n - g,
    {
        if crate::strlib::str_contains(index.groups[g].key.as_str(), prefix_lower) {
            proof {
                assert(gv[g as int].entries.len() > 0);
                assert(gv[g as int].entries[0] == index.groups@[g as int].entries@[0]@);
            }
            let label = str_to_lower(index.groups[g].entries[0].name.as_str());
            let ghost old_labels = labels@;
            labels.push(label);
            proof {
                assert(crate::strlib::spec_contains_seq(gv[g as int].key, prefix_lower@));
                assert(spec_label_from(gv, prefix_lower@, labels@[old_labels.len() as int]@));
                assert(crate::registers::string_views(labels@) =~= crate::registers::string_views(
                    old_labels,
                ).push(labels@[old_labels.len() as int]@));
                assert forall|g2: int|
                    0 <= g2 <= g && crate::strlib::spec_contains_seq(
                        (#[trigger] gv[g2]).key,
                        prefix_lower@,
                    ) implies crate::registers::string_views(labels@).contains(
                    spec_lower(gv[g2].entries[0].name),
                ) by {
                    if g2 < g {
                        let sv = crate::registers::string_views(old_labels);
                        let l = choose|l: int|
                            0 <= l < sv.len() && sv[l] == spec_lower(gv[g2].entries[0].name);
                        assert(crate::registers::string_views(labels@)[l] == sv[l]);
                    } else {
                        assert(crate::registers::string_views(labels@)[old_labels.len() as int]
                            == spec_lower(gv[g2].entries[0].name));
                    }
                }
            }
        }
        g += 1;
    }
    let sorted = crate::registers::sort_strings(labels);
    proof {
        broadcast use vstd::seq_lib::group_to_multiset_ensures;

        assert forall|g2: int|
            0 <= g2 < gv.len() && crate::strlib::spec_contains_seq(
                (#[trigger] gv[g2]).key,
                prefix_lower@,
            ) implies crate::registers::string_views(sorted@).contains(
            spec_lower(gv[g2].entries[0].name),
        ) by {
            let lab = spec_lower(gv[g2].entries[0].name);
            assert(crate::registers::string_views(labels@).contains(lab));
            assert(crate::registers::string_views(labels@).to_multiset().count(lab) > 0);
            assert(crate::registers::string_views(sorted@).to_multiset().count(lab) > 0);
        }
        assert forall|i: int|
            0 <= i < sorted@.len() implies spec_label_from(
            gv,
            prefix_lower@,
            (#[trigger] sorted@[i])@,
        ) by {
            crate::registers::lemma_ms_elem::<Seq<char>>(
                crate::registers::string_views(sorted@),
                crate::registers::string_views(labels@),
                i,
            );
            let j = choose|j: int|
                0 <= j < labels@.len() && crate::registers::string_views(labels@)[j]
                    == crate::registers::string_views(sorted@)[i];
            assert(labels@[j]@ == sorted@[i]@);
        }
    }
    sorted
}

} // verus!
