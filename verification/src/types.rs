//! Data model of the loaded knowledge base and of query results.

use vstd::prelude::*;

use crate::strlib::spec_dec;

verus! {

/// One instruction record of the knowledge base: an instruction name with
/// the architecture generations that provide it, its display arguments and
/// their semantic and numeric-format categories, and the concrete encoding
/// forms it appears in.
pub struct InstructionEntry {
    pub name: String,
    pub architectures: Vec<String>,
    pub description: Option<String>,
    pub args: Vec<String>,
    pub arg_types: Vec<String>,
    pub arg_data_types: Vec<String>,
    pub available_encodings: Vec<String>,
}

/// A named special (non-general-purpose) machine register.
pub struct SpecialRegister {
    pub name: String,
    pub description: Option<String>,
}

/// A per-index description override inside a register range.
pub struct SpecialRegisterRangeOverride {
    /// Numeric suffix value (e.g. 0 for the first temp scalar).
    pub index: u32,
    pub description: Option<String>,
}

/// A compressed contiguous family of mechanically-named registers.
pub struct SpecialRegisterRange {
    /// Name prefix shared by the family members.
    pub prefix: String,
    /// First numeric suffix (inclusive).
    pub start: u32,
    /// Number of members.
    pub count: u32,
    /// Description shared by the family.
    pub description: Option<String>,
    /// Sparse per-index overrides.
    pub overrides: Vec<SpecialRegisterRangeOverride>,
}

/// The compressed register table: irregular singles plus ranges.
pub struct SpecialRegistersCompressed {
    pub singles: Vec<SpecialRegister>,
    pub ranges: Vec<SpecialRegisterRange>,
}

/// The register table as serialized: either flat or compressed.
pub enum SpecialRegistersData {
    Flat(Vec<SpecialRegister>),
    Compressed(SpecialRegistersCompressed),
}

/// The whole knowledge base as serialized.
pub struct IsaData {
    pub instructions: Vec<InstructionEntry>,
    pub special_registers: SpecialRegistersData,
}

/// Text and language identifier of one open editor document.
pub struct DocumentState {
    pub text: String,
    pub language_id: String,
}

/// Where the knowledge base was loaded from, and the failure if it could
/// not be.
pub struct IsaLoadInfo {
    pub data_path: String,
    pub load_error: Option<String>,
}

/// The encoding-variant suffix carried by an instruction token.
#[derive(Debug, Clone, Copy, PartialEq, Eq, Structural)]
pub enum EncodingVariant {
    Native,
    E32,
    E64,
    Dpp,
    Sdwa,
    E64Dpp,
}

/// An instruction token split into its base name and variant suffix.
pub struct SplitInstruction {
    pub base: String,
    pub variant: EncodingVariant,
}

/// Mathematical view of an instruction record.
pub ghost struct EntryView {
    pub name: Seq<char>,
    pub architectures: Seq<Seq<char>>,
    pub description: Option<Seq<char>>,
    pub args: Seq<Seq<char>>,
    pub arg_types: Seq<Seq<char>>,
    pub arg_data_types: Seq<Seq<char>>,
    pub available_encodings: Seq<Seq<char>>,
}

impl View for InstructionEntry {
    type V = EntryView;

    open spec fn view(&self) -> EntryView {
        EntryView {
            name: self.name@,
            architectures: self.architectures.deep_view(),
            description: self.description.deep_view(),
            args: self.args.deep_view(),
            arg_types: self.arg_types.deep_view(),
            arg_data_types: self.arg_data_types.deep_view(),
            available_encodings: self.available_encodings.deep_view(),
        }
    }
}

/// Mathematical view of a special register: its name and description as
/// character sequences.
pub ghost struct RegView {
    pub name: Seq<char>,
    pub description: Option<Seq<char>>,
}

impl View for SpecialRegister {
    type V = RegView;

    open spec fn view(&self) -> RegView {
        RegView { name: self.name@, description: self.description.deep_view() }
    }
}

/// Mathematical view of a range override.
pub ghost struct OverrideView {
    pub index: u32,
    pub description: Option<Seq<char>>,
}

impl View for SpecialRegisterRangeOverride {
    type V = OverrideView;

    open spec fn view(&self) -> OverrideView {
        OverrideView { index: self.index, description: self.description.deep_view() }
    }
}

/// Mathematical view of a register range.
pub ghost struct RangeView {
    pub prefix: Seq<char>,
    pub start: u32,
    pub count: u32,
    pub description: Option<Seq<char>>,
    pub overrides: Seq<OverrideView>,
}

impl View for SpecialRegisterRange {
    type V = RangeView;

    open spec fn view(&self) -> RangeView {
        RangeView {
            prefix: self.prefix@,
            start: self.start,
            count: self.count,
            description: self.description.deep_view(),
            overrides: self.overrides@.map_values(|o: SpecialRegisterRangeOverride| o@),
        }
    }
}

/// Clone of an optional string, preserving its characters.
pub fn clone_opt_string(o: &Option<String>) -> (r: Option<String>)
    ensures
        r.deep_view() == o.deep_view(),
{
    match o {
        Some(s) => Some(s.clone()),
        None => None,
    }
}

/// Clone of a string vector, preserving every element's characters.
pub fn clone_string_vec(v: &Vec<String>) -> (r: Vec<String>)
    ensures
        r.deep_view() == v.deep_view(),
{
    let mut out: Vec<String> = Vec::new();
    let mut i: usize = 0;
    while i < v.len()
        invariant
            i <= v@.len(),
            out@.len() == i,
            forall|j: int| 0 <= j < i ==> out@[j]@ == #[trigger] v@[j]@,
        decreases v@.len() - i,
    {
        out.push(v[i].clone());
        i += 1;
    }
    proof {
        assert(out.deep_view() =~= v.deep_view());
    }
    out
}

impl Clone for InstructionEntry {
    fn clone(&self) -> (r: Self)
        ensures
            r.name@ == self.name@,
            r.architectures.deep_view() == self.architectures.deep_view(),
            r.description.deep_view() == self.description.deep_view(),
            r.args.deep_view() == self.args.deep_view(),
            r.arg_types.deep_view() == self.arg_types.deep_view(),
            r.arg_data_types.deep_view() == self.arg_data_types.deep_view(),
            r.available_encodings.deep_view() == self.available_encodings.deep_view(),
    {
        InstructionEntry {
            name: self.name.clone(),
            architectures: clone_string_vec(&self.architectures),
            description: clone_opt_string(&self.description),
            args: clone_string_vec(&self.args),
            arg_types: clone_string_vec(&self.arg_types),
            arg_data_types: clone_string_vec(&self.arg_data_types),
            available_encodings: clone_string_vec(&self.available_encodings),
        }
    }
}

impl Clone for SpecialRegister {
    fn clone(&self) -> (r: Self)
        ensures
            r.name@ == self.name@,
            r.description.deep_view() == self.description.deep_view(),
    {
        SpecialRegister { name: self.name.clone(), description: clone_opt_string(&self.description) }
    }
}

/// The override views of an override list.
pub open spec fn override_views(s: Seq<SpecialRegisterRangeOverride>) -> Seq<OverrideView> {
    s.map_values(|o: SpecialRegisterRangeOverride| o@)
}

/// The override that decides index `idx`: the last one in the list with
/// that index, mirroring that later entries shadow earlier ones.
pub open spec fn spec_last_override(ovs: Seq<OverrideView>, idx: u32) -> Option<OverrideView>
    decreases ovs.len(),
{
    if ovs.len() == 0 {
        None
    } else if ovs.last().index == idx {
        Some(ovs.last())
    } else {
        spec_last_override(ovs.drop_last(), idx)
    }
}

/// The description an expanded member with index `idx` carries: the
/// deciding override's description when it has one, else the range's.
pub open spec fn spec_member_description(rv: RangeView, idx: u32) -> Option<Seq<char>> {
    match spec_last_override(rv.overrides, idx) {
        Some(ov) => if ov.description is Some {
            ov.description
        } else {
            rv.description
        },
        None => rv.description,
    }
}

/// The members a range stands for: `count` registers named by prefix and
/// decimal index, each carrying the member description.
pub open spec fn spec_expansion(rv: RangeView) -> Seq<RegView> {
    Seq::new(
        rv.count as nat,
        |off: int|
            RegView {
                name: rv.prefix + spec_dec(rv.start + off),
                description: spec_member_description(rv, (rv.start + off) as u32),
            },
    )
}

/// The override deciding `idx`, found by scanning from the end.
fn find_last_override(ovs: &Vec<SpecialRegisterRangeOverride>, idx: u32) -> (r: Option<
    &SpecialRegisterRangeOverride,
>)
    ensures
        match r {
            Some(ov) => spec_last_override(override_views(ovs@), idx) == Some(ov@),
            None => spec_last_override(override_views(ovs@), idx) is None,
        },
{
    let ghost ow = override_views(ovs@);
    let n = ovs.len();
    let mut i: usize = n;
    proof {
        assert(ow.subrange(0, n as int) =~= ow);
    }
    while i > 0
        invariant
            i <= n,
            n == ovs@.len(),
            ow == override_views(ovs@),
            spec_last_override(ow, idx) == spec_last_override(ow.subrange(0, i as int), idx),
        decreases i,
    {
        i = i - 1;
        proof {
            assert(ow.subrange(0, i + 1).last() == ow[i as int]);
            assert(ow.subrange(0, i + 1).drop_last() =~= ow.subrange(0, i as int));
        }
        if ovs[i].index == idx {
            return Some(&ovs[i]);
        }
    }
    proof {
        assert(ow.subrange(0, 0) =~= Seq::<OverrideView>::empty());
    }
    None
}

impl SpecialRegisterRange {
    /// Expand the range back into individual registers: exactly `count`
    /// members named `prefix` followed by the decimal index, each carrying
    /// the range description unless an override for that exact index says
    /// otherwise.
    pub fn expand(&self) -> (out: Vec<SpecialRegister>)
        requires
            self.start + self.count <= u32::MAX + 1,
        ensures
            out@.map_values(|r: SpecialRegister| r@) == spec_expansion(self@),
            out@.len() == self.count,
            forall|off: int|
                0 <= off < self.count ==> (#[trigger] out@[off]).name@ == self.prefix@ + spec_dec(
                    self.start + off,
                ),
            forall|off: int|
                0 <= off < self.count ==> (#[trigger] out@[off]).description.deep_view()
                    == spec_member_description(self@, (self.start + off) as u32),
    {
        let mut out: Vec<SpecialRegister> = Vec::new();
        let mut offset: u32 = 0;
        while offset < self.count
            invariant
                self.start + self.count <= u32::MAX + 1,
                offset <= self.count,
                out@.len() == offset,
                forall|off: int|
                    0 <= off < offset ==> (#[trigger] out@[off]).name@ == self.prefix@ + spec_dec(
                        self.start + off,
                    ),
                forall|off: int|
                    0 <= off < offset ==> (#[trigger] out@[off]).description.deep_view()
                        == spec_member_description(self@, (self.start + off) as u32),
            decreases self.count - offset,
        {
            let idx = self.start + offset;
            let mut name = self.prefix.clone();
            let digits = crate::strlib::u32_to_string(idx);
            name.append(digits.as_str());
            let description = match find_last_override(&self.overrides, idx) {
                Some(ov) => if ov.description.is_some() {
                    clone_opt_string(&ov.description)
                } else {
                    clone_opt_string(&self.description)
                },
                None => clone_opt_string(&self.description),
            };
            out.push(SpecialRegister { name, description });
            offset = offset + 1;
        }
        proof {
            assert(out@.map_values(|r: SpecialRegister| r@) =~= spec_expansion(self@));
        }
        out
    }
}

} // verus!
