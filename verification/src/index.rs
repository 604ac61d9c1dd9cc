//! The name-keyed instruction index and knowledge-base loading.
//!
//! The index groups instruction records by lower-cased name, keeping both
//! the group order and the order of records within a group as they appear
//! in the knowledge base (so the first document that introduced a name
//! wins default resolution).

use vstd::prelude::*;

use crate::strlib::{spec_lex_le, spec_lower, str_eq, str_to_lower};
use crate::types::{
    EntryView, InstructionEntry, IsaData, RegView, SpecialRegister, SpecialRegistersData,
};

verus! {

/// One index bucket: a lower-cased name and its records in insertion
/// order.
pub struct IndexGroup {
    pub key: String,
    pub entries: Vec<InstructionEntry>,
}

/// The loaded instruction index.
pub struct IsaIndex {
    pub groups: Vec<IndexGroup>,
}

/// Mathematical view of a bucket.
pub ghost struct GroupView {
    pub key: Seq<char>,
    pub entries: Seq<EntryView>,
}

impl View for IndexGroup {
    type V = GroupView;

    open spec fn view(&self) -> GroupView {
        GroupView {
            key: self.key@,
            entries: self.entries@.map_values(|e: InstructionEntry| e@),
        }
    }
}

/// The views of the buckets.
pub open spec fn group_views(s: Seq<IndexGroup>) -> Seq<GroupView> {
    s.map_values(|g: IndexGroup| g@)
}

/// Index of the bucket with this key, if any.
pub open spec fn spec_find_group(gs: Seq<GroupView>, k: Seq<char>) -> Option<nat>
    decreases gs.len(),
{
    if gs.len() == 0 {
        None
    } else if gs[0].key == k {
        Some(0nat)
    } else {
        match spec_find_group(gs.drop_first(), k) {
            Some(i) => Some((i + 1) as nat),
            None => None,
        }
    }
}

proof fn lemma_find_group_unique(gs: Seq<GroupView>, k: Seq<char>, j: int)
    requires
        0 <= j <= gs.len(),
        forall|l: int| 0 <= l < j ==> (#[trigger] gs[l]).key != k,
        j < gs.len() ==> gs[j].key == k,
    ensures
        spec_find_group(gs, k) == if j == gs.len() {
            None::<nat>
        } else {
            Some(j as nat)
        },
    decreases gs.len(),
{
    if gs.len() > 0 && gs[0].key != k {
        assert(j > 0);
        let g1 = gs.drop_first();
        assert forall|l: int| 0 <= l < j - 1 implies (#[trigger] g1[l]).key != k by {
            assert(g1[l] == gs[l + 1]);
        }
        lemma_find_group_unique(g1, k, j - 1);
    }
}

/// One record added to the index: it joins the bucket keyed by its
/// lower-cased name, a new bucket being appended when none exists yet.
pub open spec fn spec_index_add(gs: Seq<GroupView>, e: EntryView) -> Seq<GroupView> {
    let k = spec_lower(e.name);
    match spec_find_group(gs, k) {
        Some(i) => gs.update(
            i as int,
            GroupView { key: gs[i as int].key, entries: gs[i as int].entries.push(e) },
        ),
        None => gs.push(GroupView { key: k, entries: seq![e] }),
    }
}

/// The index built from a record list, in order.
pub open spec fn spec_index_of(es: Seq<EntryView>) -> Seq<GroupView>
    decreases es.len(),
{
    if es.len() == 0 {
        Seq::empty()
    } else {
        spec_index_add(spec_index_of(es.drop_last()), es.last())
    }
}

fn find_group(groups: &Vec<IndexGroup>, k: &str) -> (r: Option<usize>)
    ensures
        match r {
            Some(i) => i < groups@.len() && spec_find_group(group_views(groups@), k@) == Some(
                i as nat,
            ),
            None => spec_find_group(group_views(groups@), k@) is None,
        },
{
    let ghost gv = group_views(groups@);
    let n = groups.len();
    let mut i: usize = 0;
    while i < n
        invariant
            n == groups@.len(),
            gv == group_views(groups@),
            i <= n,
            forall|l: int| 0 <= l < i ==> (#[trigger] gv[l]).key != k@,
        decreases n - i,
    {
        if str_eq(groups[i].key.as_str(), k) {
            proof {
                assert(gv[i as int].key == k@);
                lemma_find_group_unique(gv, k@, i as int);
            }
            return Some(i);
        }
        i += 1;
    }
    proof {
        lemma_find_group_unique(gv, k@, n as int);
    }
    None
}

impl IsaIndex {
    /// Every bucket holds at least one record, each keyed by its
    /// lower-cased name.
    pub open spec fn wf(&self) -> bool {
        forall|g: int|
            0 <= g < group_views(self.groups@).len() ==> (#[trigger] group_views(
                self.groups@,
            )[g]).entries.len() > 0
    }

    /// Build the index from the knowledge base's instruction list.
    pub fn build(instructions: Vec<InstructionEntry>) -> (r: IsaIndex)
        ensures
            group_views(r.groups@) == spec_index_of(
                instructions@.map_values(|e: InstructionEntry| e@),
            ),
            r.wf(),
    {
        let ghost ev = instructions@.map_values(|e: InstructionEntry| e@);
        let n = instructions.len();
        let mut groups: Vec<IndexGroup> = Vec::new();
        let mut t: usize = 0;
        proof {
            assert(ev.subrange(0, 0) =~= Seq::<EntryView>::empty());
            assert(group_views(groups@) =~= spec_index_of(Seq::<EntryView>::empty()));
        }
        while t < n
            invariant
                n == instructions@.len(),
                ev == instructions@.map_values(|e: InstructionEntry| e@),
                t <= n,
                group_views(groups@) == spec_index_of(ev.subrange(0, t as int)),
                forall|g: int|
                    0 <= g < group_views(groups@).len() ==> (#[trigger] group_views(
                        groups@,
                    )[g]).entries.len() > 0,
            decreases n - t,
        {
            proof {
                assert(ev.subrange(0, t + 1).drop_last() =~= ev.subrange(0, t as int));
                assert(ev.subrange(0, t + 1).last() == ev[t as int]);
            }
            let e = instructions[t].clone();
            proof {
                assert(e@ == ev[t as int]);
            }
            let key = str_to_lower(e.name.as_str());
            match find_group(&groups, key.as_str()) {
                Some(g) => {
                    let ghost old_groups = groups@;
                    let mut bucket = groups.remove(g);
                    bucket.entries.push(e);
                    let ghost bv = bucket@;
                    groups.insert(g, bucket);
                    proof {
                        assert(group_views(groups@) =~= group_views(old_groups).update(
                            g as int,
                            bv,
                        ));
                        assert(bv.entries =~= group_views(old_groups)[g as int].entries.push(
                            ev[t as int],
                        ));
                        assert(bv == GroupView {
                            key: group_views(old_groups)[g as int].key,
                            entries: group_views(old_groups)[g as int].entries.push(
                                ev[t as int],
                            ),
                        });
                    }
                },
                None => {
                    let mut entries: Vec<InstructionEntry> = Vec::new();
                    entries.push(e);
                    let bucket = IndexGroup { key, entries };
                    let ghost bv = bucket@;
                    let ghost old_groups = groups@;
                    groups.push(bucket);
                    proof {
                        assert(group_views(groups@) =~= group_views(old_groups).push(bv));
                        assert(bv.entries =~= seq![ev[t as int]]);
                        assert(bv == GroupView {
                            key: spec_lower(ev[t as int].name),
                            entries: seq![ev[t as int]],
                        });
                    }
                },
            }
            t += 1;
        }
        proof {
            assert(ev.subrange(0, n as int) =~= ev);
        }
        IsaIndex { groups }
    }

    /// The bucket for a lower-cased name, if any.
    pub fn lookup(&self, key: &str) -> (r: Option<&Vec<InstructionEntry>>)
        ensures
            match r {
                Some(es) => {
                    let i = spec_find_group(group_views(self.groups@), key@);
                    i is Some && es@.map_values(|e: InstructionEntry| e@) == group_views(
                        self.groups@,
                    )[i.unwrap() as int].entries
                },
                None => spec_find_group(group_views(self.groups@), key@) is None,
            },
    {
        match find_group(&self.groups, key) {
            Some(i) => Some(&self.groups[i].entries),
            None => None,
        }
    }
}

/// Whether a range's bounds fit the index space, so that it can be
/// expanded at all.
pub open spec fn spec_range_fits(rv: crate::types::RangeView) -> bool {
    rv.count == 0 || rv.start + rv.count <= u32::MAX + 1
}

/// The members contributed by a range list: each fitting range's
/// expansion, in order; a range with unusable bounds contributes nothing.
pub open spec fn spec_expansions(rs: Seq<crate::types::RangeView>) -> Seq<RegView>
    decreases rs.len(),
{
    if rs.len() == 0 {
        Seq::empty()
    } else {
        spec_expansions(rs.drop_last()) + (if spec_range_fits(rs.last()) {
            crate::types::spec_expansion(rs.last())
        } else {
            Seq::empty()
        })
    }
}

/// The register list a serialized table stands for: a flat list as is, a
/// compressed table as its singles followed by every range member.
pub open spec fn spec_loaded_registers(data: SpecialRegistersData) -> Seq<RegView> {
    match data {
        SpecialRegistersData::Flat(list) => crate::registers::reg_views(list@),
        SpecialRegistersData::Compressed(c) => crate::registers::reg_views(c.singles@)
            + spec_expansions(c.ranges@.map_values(|r: crate::types::SpecialRegisterRange| r@)),
    }
}

/// The special-register table in its loaded, expanded form: flat input
/// is taken as is; compressed input contributes its singles and every
/// fitting range member.  The result is sorted by name.
pub fn expand_special_registers(data: SpecialRegistersData) -> (out: Vec<SpecialRegister>)
    ensures
        forall|i: int, j: int|
            0 <= i < j < out@.len() ==> spec_lex_le(
                (#[trigger] out@[i])@.name,
                (#[trigger] out@[j])@.name,
            ),
        crate::registers::reg_views(out@).to_multiset() == spec_loaded_registers(
            data,
        ).to_multiset(),
{
    let flat: Vec<SpecialRegister> = match data {
        SpecialRegistersData::Flat(list) => list,
        SpecialRegistersData::Compressed(c) => {
            let mut acc = c.singles;
            let mut ranges = c.ranges;
            let ghost all_r = ranges@.map_values(|r: crate::types::SpecialRegisterRange| r@);
            let ghost singles0 = crate::registers::reg_views(acc@);
            let mut k: usize = 0;
            let n = ranges.len();
            proof {
                assert(all_r.subrange(0, 0) =~= Seq::<crate::types::RangeView>::empty());
                assert(crate::registers::reg_views(acc@) =~= singles0 + spec_expansions(
                    all_r.subrange(0, 0),
                ));
            }
            while k < n
                invariant
                    n == ranges@.len() + k,
                    k <= n,
                    all_r.len() == n,
                    forall|l: int|
                        0 <= l < ranges@.len() ==> (#[trigger] ranges@[l])@ == all_r[k + l],
                    crate::registers::reg_views(acc@) == singles0 + spec_expansions(
                        all_r.subrange(0, k as int),
                    ),
                decreases n - k,
            {
                let ghost old_ranges = ranges@;
                let rg = ranges.remove(0);
                proof {
                    assert(rg@ == all_r[k as int]);
                    assert(forall|l: int|
                        0 <= l < ranges@.len() ==> (#[trigger] ranges@[l]) == old_ranges[l + 1]);
                    assert(all_r.subrange(0, k + 1).drop_last() =~= all_r.subrange(0, k as int));
                    assert(all_r.subrange(0, k + 1).last() == all_r[k as int]);
                }
                let fits = rg.count == 0 || (rg.start as u64) + (rg.count as u64) <= (u32::MAX
                    as u64) + 1;
                if fits {
                    let mut members = rg.expand();
                    let ghost mv = crate::registers::reg_views(members@);
                    let ghost acc0 = crate::registers::reg_views(acc@);
                    acc.append(&mut members);
                    proof {
                        assert(crate::registers::reg_views(acc@) =~= acc0 + mv);
                        assert(crate::registers::reg_views(acc@) =~= singles0 + spec_expansions(
                            all_r.subrange(0, k + 1),
                        ));
                    }
                } else {
                    proof {
                        assert(!spec_range_fits(all_r[k as int]));
                        assert(crate::registers::reg_views(acc@) =~= singles0 + spec_expansions(
                            all_r.subrange(0, k + 1),
                        ));
                    }
                }
                k += 1;
            }
            proof {
                assert(all_r.subrange(0, n as int) =~= all_r);
            }
            acc
        },
    };
    crate::registers::sort_registers_by_name(flat)
}

/// Build the query-engine state from parsed knowledge-base data.
pub fn load_isa_data(data: IsaData) -> (r: (IsaIndex, Vec<SpecialRegister>))
    ensures
        group_views(r.0.groups@) == spec_index_of(
            data.instructions@.map_values(|e: InstructionEntry| e@),
        ),
        r.0.wf(),
        forall|i: int, j: int|
            0 <= i < j < r.1@.len() ==> spec_lex_le(
                (#[trigger] r.1@[i])@.name,
                (#[trigger] r.1@[j])@.name,
            ),
        crate::registers::reg_views(r.1@).to_multiset() == spec_loaded_registers(
            data.special_registers,
        ).to_multiset(),
{
    let IsaData { instructions, special_registers } = data;
    let index = IsaIndex::build(instructions);
    let regs = expand_special_registers(special_registers);
    (index, regs)
}


/// A found bucket index lies within the table.
pub proof fn lemma_find_group_in_bounds(gs: Seq<GroupView>, k: Seq<char>)
    ensures
        match spec_find_group(gs, k) {
            Some(i) => i < gs.len() && gs[i as int].key == k,
            None => true,
        },
    decreases gs.len(),
{
    if gs.len() > 0 && gs[0].key != k {
        lemma_find_group_in_bounds(gs.drop_first(), k);
    }
}

} // verus!
