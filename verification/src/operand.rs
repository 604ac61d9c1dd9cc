//! Operand classification and argument-list construction.
//!
//! Each raw operand-type tag maps to one of a fixed set of semantic
//! categories, and an instruction's display arguments are built from its
//! first declared encoding: operands sorted stably by declaration order
//! (those without one last), implicit operands dropped.

use vstd::prelude::*;

use crate::model::{InstructionEncoding, Operand};
use crate::strlib::{spec_starts_with, str_eq, str_starts_with};

verus! {

/// Mathematical view of a raw operand.
pub ghost struct OpView {
    pub field_name: Option<Seq<char>>,
    pub operand_type: Option<Seq<char>>,
    pub data_format_name: Option<Seq<char>>,
    pub size: Option<u32>,
    pub input: Option<bool>,
    pub output: Option<bool>,
    pub is_implicit: Option<bool>,
    pub order: Option<u32>,
}

impl View for Operand {
    type V = OpView;

    open spec fn view(&self) -> OpView {
        OpView {
            field_name: self.field_name.deep_view(),
            operand_type: self.operand_type.deep_view(),
            data_format_name: self.data_format_name.deep_view(),
            size: self.size,
            input: self.input,
            output: self.output,
            is_implicit: self.is_implicit,
            order: self.order,
        }
    }
}

/// Parse a boolean attribute value, case-insensitively.
pub open spec fn spec_parse_bool(s: Seq<char>) -> Option<bool> {
    if crate::strlib::spec_lower(s) == "true"@ {
        Some(true)
    } else if crate::strlib::spec_lower(s) == "false"@ {
        Some(false)
    } else {
        None
    }
}

pub fn parse_bool(raw: &str) -> (r: Option<bool>)
    ensures
        r == spec_parse_bool(raw@),
{
    let low = crate::strlib::str_to_lower(raw);
    if str_eq(low.as_str(), "true") {
        Some(true)
    } else if str_eq(low.as_str(), "false") {
        Some(false)
    } else {
        None
    }
}

/// The display label of an operand: its field name if present, else its
/// raw type tag, else a fixed placeholder.
pub open spec fn spec_operand_label(o: OpView) -> Seq<char> {
    match o.field_name {
        Some(n) => n,
        None => match o.operand_type {
            Some(t) => t,
            None => "operand"@,
        },
    }
}

pub fn operand_label(operand: &Operand) -> (r: String)
    ensures
        r@ == spec_operand_label(operand@),
{
    match &operand.field_name {
        Some(n) => n.clone(),
        None => match &operand.operand_type {
            Some(t) => t.clone(),
            None => String::from_str("operand"),
        },
    }
}

/// The semantic category of a raw operand-type tag.
pub open spec fn spec_operand_kind(o: OpView) -> Seq<char> {
    match o.operand_type {
        None => "unknown"@,
        Some(t) => {
            if spec_starts_with(t, "OPR_SIMM"@) || t == "OPR_SMEM_OFFSET"@ || t == "OPR_DELAY"@ {
                "immediate"@
            } else if t == "OPR_LABEL"@ {
                "label"@
            } else if t == "OPR_DSMEM"@ || t == "OPR_FLAT_SCRATCH"@ {
                "memory"@
            } else if t == "OPR_SRC_VGPR_OR_INLINE"@ {
                "register_or_inline"@
            } else if t == "OPR_VGPR"@ || t == "OPR_SREG"@ || t == "OPR_SDST"@ || t == "OPR_SSRC"@
                || t == "OPR_SSRC_LANESEL"@ || t == "OPR_SSRC_SPECIAL_SCC"@ || t == "OPR_SRC"@
                || t == "OPR_SRC_VGPR"@ || t == "OPR_VCC"@ || t == "OPR_EXEC"@ || t
                == "OPR_SDST_EXEC"@ || t == "OPR_SDST_M0"@ || t == "OPR_SDST_NULL"@ || t
                == "OPR_PC"@ || t == "OPR_TGT"@ {
                "register"@
            } else if t == "OPR_SENDMSG"@ || t == "OPR_SENDMSG_RTN"@ || t == "OPR_WAITCNT"@ || t
                == "OPR_WAITCNT_DEPCTR"@ || t == "OPR_WAIT_EVENT"@ || t == "OPR_HWREG"@ || t
                == "OPR_ATTR"@ || t == "OPR_VERSION"@ || t == "OPR_CLAUSE"@ {
                "special"@
            } else {
                "unknown"@
            }
        },
    }
}

pub fn operand_kind(operand: &Operand) -> (r: String)
    ensures
        r@ == spec_operand_kind(operand@),
{
    let t = match &operand.operand_type {
        Some(t) => t,
        None => {
            return String::from_str("unknown");
        },
    };
    let t = t.as_str();
    if str_starts_with(t, "OPR_SIMM") || str_eq(t, "OPR_SMEM_OFFSET") || str_eq(t, "OPR_DELAY") {
        String::from_str("immediate")
    } else if str_eq(t, "OPR_LABEL") {
        String::from_str("label")
    } else if str_eq(t, "OPR_DSMEM") || str_eq(t, "OPR_FLAT_SCRATCH") {
        String::from_str("memory")
    } else if str_eq(t, "OPR_SRC_VGPR_OR_INLINE") {
        String::from_str("register_or_inline")
    } else if str_eq(t, "OPR_VGPR") || str_eq(t, "OPR_SREG") || str_eq(t, "OPR_SDST") || str_eq(
        t,
        "OPR_SSRC",
    ) || str_eq(t, "OPR_SSRC_LANESEL") || str_eq(t, "OPR_SSRC_SPECIAL_SCC") || str_eq(t, "OPR_SRC")
        || str_eq(t, "OPR_SRC_VGPR") || str_eq(t, "OPR_VCC") || str_eq(t, "OPR_EXEC") || str_eq(
        t,
        "OPR_SDST_EXEC",
    ) || str_eq(t, "OPR_SDST_M0") || str_eq(t, "OPR_SDST_NULL") || str_eq(t, "OPR_PC") || str_eq(
        t,
        "OPR_TGT",
    ) {
        String::from_str("register")
    } else if str_eq(t, "OPR_SENDMSG") || str_eq(t, "OPR_SENDMSG_RTN") || str_eq(t, "OPR_WAITCNT")
        || str_eq(t, "OPR_WAITCNT_DEPCTR") || str_eq(t, "OPR_WAIT_EVENT") || str_eq(t, "OPR_HWREG")
        || str_eq(t, "OPR_ATTR") || str_eq(t, "OPR_VERSION") || str_eq(t, "OPR_CLAUSE") {
        String::from_str("special")
    } else {
        String::from_str("unknown")
    }
}

/// The sort key of an operand: its declaration order, with operands
/// missing one last.
pub open spec fn spec_op_key(o: OpView) -> u32 {
    match o.order {
        Some(x) => x,
        None => u32::MAX,
    }
}

/// Stable insertion of `x` into a key-sorted sequence: after all keys
/// less than or equal to its own.
pub open spec fn spec_insert_op(s: Seq<OpView>, x: OpView) -> Seq<OpView>
    decreases s.len(),
{
    if s.len() == 0 {
        seq![x]
    } else if spec_op_key(s.last()) > spec_op_key(x) {
        spec_insert_op(s.drop_last(), x).push(s.last())
    } else {
        s.push(x)
    }
}

/// Stable sort of operands by key.
pub open spec fn spec_sort_ops(s: Seq<OpView>) -> Seq<OpView>
    decreases s.len(),
{
    if s.len() == 0 {
        Seq::empty()
    } else {
        spec_insert_op(spec_sort_ops(s.drop_last()), s.last())
    }
}

/// Inserting at the position scanned from the end (past every strictly
/// greater key) is what `spec_insert_op` does.
proof fn lemma_insert_op_at(s: Seq<OpView>, x: OpView, j: int)
    requires
        0 <= j <= s.len(),
        forall|k: int| j <= k < s.len() ==> spec_op_key(#[trigger] s[k]) > spec_op_key(x),
        j > 0 ==> spec_op_key(s[j - 1]) <= spec_op_key(x),
    ensures
        spec_insert_op(s, x) == s.subrange(0, j) + seq![x] + s.subrange(j, s.len() as int),
    decreases s.len(),
{
    if s.len() == 0 {
        assert(spec_insert_op(s, x) =~= s.subrange(0, j) + seq![x] + s.subrange(
            j,
            s.len() as int,
        ));
    } else if j == s.len() {
        assert(spec_insert_op(s, x) == s.push(x));
        assert(s.push(x) =~= s.subrange(0, j) + seq![x] + s.subrange(j, s.len() as int));
    } else {
        assert(spec_op_key(s.last()) > spec_op_key(x));
        let d = s.drop_last();
        assert forall|k: int| j <= k < d.len() implies spec_op_key(#[trigger] d[k]) > spec_op_key(
            x,
        ) by {
            assert(d[k] == s[k]);
        }
        if j > 0 {
            assert(d[j - 1] == s[j - 1]);
        }
        lemma_insert_op_at(d, x, j);
        assert(spec_insert_op(s, x) == (d.subrange(0, j) + seq![x] + d.subrange(
            j,
            d.len() as int,
        )).push(s.last()));
        assert((d.subrange(0, j) + seq![x] + d.subrange(j, d.len() as int)).push(s.last()) =~= s
            .subrange(0, j) + seq![x] + s.subrange(j, s.len() as int));
    }
}

/// The views of a sequence of operands.
pub open spec fn op_views(s: Seq<Operand>) -> Seq<OpView> {
    s.map_values(|o: Operand| o@)
}

fn op_key(o: &Operand) -> (r: u32)
    ensures
        r == spec_op_key(o@),
{
    match o.order {
        Some(x) => x,
        None => u32::MAX,
    }
}

/// Sort operands stably by declaration order.
pub fn sort_operands(ops: Vec<Operand>) -> (out: Vec<Operand>)
    ensures
        op_views(out@) == spec_sort_ops(op_views(ops@)),
{
    let n = ops.len();
    let mut rem = ops;
    let mut out: Vec<Operand> = Vec::new();
    let mut t: usize = 0;
    proof {
        assert(op_views(rem@).subrange(0, 0) =~= Seq::<OpView>::empty());
        assert(op_views(out@) =~= spec_sort_ops(Seq::<OpView>::empty()));
    }
    while t < n
        invariant
            n == rem@.len(),
            t <= n,
            op_views(out@) == spec_sort_ops(op_views(rem@).subrange(0, t as int)),
        decreases n - t,
    {
        proof {
            assert(op_views(rem@).subrange(0, t + 1).drop_last() =~= op_views(rem@).subrange(
                0,
                t as int,
            ));
            assert(op_views(rem@).subrange(0, t + 1).last() == op_views(rem@)[t as int]);
        }
        // scan from the end past the strictly greater keys
        let x = rem[t].clone_op();
        let xk = op_key(&x);
        proof {
            assert(x@ == op_views(rem@)[t as int]);
        }
        let mut j = out.len();
        while j > 0 && op_key(&out[j - 1]) > xk
            invariant
                j <= out@.len(),
                xk == spec_op_key(x@),
                forall|k: int|
                    j <= k < out@.len() ==> spec_op_key(#[trigger] op_views(out@)[k])
                        > spec_op_key(x@),
            decreases j,
        {
            proof {
                assert(op_views(out@)[j - 1] == out@[j - 1]@);
            }
            j = j - 1;
        }
        proof {
            if j > 0 {
                assert(op_views(out@)[j - 1] == out@[j - 1]@);
            }
            lemma_insert_op_at(op_views(out@), x@, j as int);
        }
        let ghost old_out = out@;
        out.insert(j, x);
        proof {
            assert(op_views(out@) =~= op_views(old_out).subrange(0, j as int) + seq![
                op_views(out@)[j as int],
            ] + op_views(old_out).subrange(j as int, old_out.len() as int));
        }
        t += 1;
    }
    proof {
        assert(op_views(rem@).subrange(0, n as int) =~= op_views(rem@));
    }
    out
}

/// Whether an operand appears in the argument list (implicit operands do
/// not).
pub open spec fn spec_op_shown(o: OpView) -> bool {
    o.is_implicit != Some(true)
}

/// The numeric-format hint of an operand, defaulting to unknown.
pub open spec fn spec_op_data(o: OpView) -> Seq<char> {
    match o.data_format_name {
        Some(d) => d,
        None => "unknown"@,
    }
}

/// The three parallel argument lists drawn from a sorted operand list:
/// labels, semantic categories and numeric-format hints of the
/// non-implicit operands, in order.
pub open spec fn spec_args_of(s: Seq<OpView>) -> (Seq<Seq<char>>, Seq<Seq<char>>, Seq<Seq<char>>) {
    let kept = s.filter(|o: OpView| spec_op_shown(o));
    (
        kept.map_values(|o: OpView| spec_operand_label(o)),
        kept.map_values(|o: OpView| spec_operand_kind(o)),
        kept.map_values(|o: OpView| spec_op_data(o)),
    )
}

proof fn lemma_args_of_push(s: Seq<OpView>, x: OpView)
    ensures
        spec_args_of(s.push(x)) == if spec_op_shown(x) {
            (
                spec_args_of(s).0.push(spec_operand_label(x)),
                spec_args_of(s).1.push(spec_operand_kind(x)),
                spec_args_of(s).2.push(spec_op_data(x)),
            )
        } else {
            spec_args_of(s)
        },
{
    broadcast use Seq::lemma_filter_push;

    let pred = |o: OpView| spec_op_shown(o);
    assert(s.push(x).filter(pred) == if pred(x) {
        s.filter(pred).push(x)
    } else {
        s.filter(pred)
    });
    if pred(x) {
        assert(s.filter(pred).push(x).map_values(|o: OpView| spec_operand_label(o)) =~= s.filter(
            pred,
        ).map_values(|o: OpView| spec_operand_label(o)).push(spec_operand_label(x)));
        assert(s.filter(pred).push(x).map_values(|o: OpView| spec_operand_kind(o)) =~= s.filter(
            pred,
        ).map_values(|o: OpView| spec_operand_kind(o)).push(spec_operand_kind(x)));
        assert(s.filter(pred).push(x).map_values(|o: OpView| spec_op_data(o)) =~= s.filter(
            pred,
        ).map_values(|o: OpView| spec_op_data(o)).push(spec_op_data(x)));
    }
}

/// Build the parallel argument lists of an instruction from its first
/// declared encoding: operands sorted stably by declaration order,
/// implicit operands elided.
pub fn build_args(encodings: &[InstructionEncoding]) -> (r: (Vec<String>, Vec<String>, Vec<
    String,
>))
    ensures
        encodings@.len() == 0 ==> r.0@.len() == 0 && r.1@.len() == 0 && r.2@.len() == 0,
        encodings@.len() > 0 ==> {
            let lists = spec_args_of(spec_sort_ops(op_views(encodings@[0].operands@)));
            r.0.deep_view() == lists.0 && r.1.deep_view() == lists.1 && r.2.deep_view() == lists.2
        },
{
    if encodings.len() == 0 {
        return (Vec::new(), Vec::new(), Vec::new());
    }
    let mut ops: Vec<Operand> = Vec::new();
    let first = &encodings[0];
    let m = first.operands.len();
    let mut i: usize = 0;
    while i < m
        invariant
            m == first.operands@.len(),
            i <= m,
            op_views(ops@) =~= op_views(first.operands@).subrange(0, i as int),
        decreases m - i,
    {
        let ghost old_ops = ops@;
        ops.push(first.operands[i].clone_op());
        proof {
            assert(op_views(ops@) =~= op_views(old_ops).push(first.operands@[i as int]@));
            assert(op_views(first.operands@).subrange(0, i + 1) =~= op_views(
                first.operands@,
            ).subrange(0, i as int).push(op_views(first.operands@)[i as int]));
        }
        i += 1;
    }
    proof {
        assert(op_views(ops@) =~= op_views(first.operands@));
        assert(op_views(encodings@[0].operands@) == op_views(first.operands@));
    }
    let sorted = sort_operands(ops);
    let ghost sv = op_views(sorted@);
    let mut args: Vec<String> = Vec::new();
    let mut arg_types: Vec<String> = Vec::new();
    let mut arg_data_types: Vec<String> = Vec::new();
    let k = sorted.len();
    let mut l: usize = 0;
    proof {
        assert(sv.subrange(0, 0) =~= Seq::<OpView>::empty());
        assert(args.deep_view() =~= spec_args_of(Seq::<OpView>::empty()).0);
        assert(arg_types.deep_view() =~= spec_args_of(Seq::<OpView>::empty()).1);
        assert(arg_data_types.deep_view() =~= spec_args_of(Seq::<OpView>::empty()).2);
    }
    while l < k
        invariant
            k == sorted@.len(),
            l <= k,
            sv == op_views(sorted@),
            args.deep_view() == spec_args_of(sv.subrange(0, l as int)).0,
            arg_types.deep_view() == spec_args_of(sv.subrange(0, l as int)).1,
            arg_data_types.deep_view() == spec_args_of(sv.subrange(0, l as int)).2,
        decreases k - l,
    {
        proof {
            assert(sv.subrange(0, l + 1) =~= sv.subrange(0, l as int).push(sv[l as int]));
            lemma_args_of_push(sv.subrange(0, l as int), sv[l as int]);
        }
        let implicit = match sorted[l].is_implicit {
            Some(b) => b,
            None => false,
        };
        if !implicit {
            let ghost oa = args.deep_view();
            let ghost ot = arg_types.deep_view();
            let ghost od = arg_data_types.deep_view();
            args.push(operand_label(&sorted[l]));
            arg_types.push(operand_kind(&sorted[l]));
            let data = match &sorted[l].data_format_name {
                Some(d) => d.clone(),
                None => String::from_str("unknown"),
            };
            arg_data_types.push(data);
            proof {
                assert(args.deep_view() =~= oa.push(spec_operand_label(sv[l as int])));
                assert(arg_types.deep_view() =~= ot.push(spec_operand_kind(sv[l as int])));
                assert(arg_data_types.deep_view() =~= od.push(spec_op_data(sv[l as int])));
            }
        }
        l += 1;
    }
    proof {
        assert(sv.subrange(0, k as int) =~= sv);
    }
    (args, arg_types, arg_data_types)
}

} // verus!
