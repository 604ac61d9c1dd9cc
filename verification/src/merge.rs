//! Merging of instruction records across source documents.
//!
//! Two records are the same logical instruction exactly when their name,
//! description and argument shape coincide; merging them unions their
//! architecture tag sets (set semantics: no duplicate tags).

use vstd::prelude::*;

use crate::model::InstructionDoc;
use crate::strlib::str_eq;

verus! {

/// Mathematical view of an extracted instruction record.
pub ghost struct DocView {
    pub name: Seq<char>,
    pub architectures: Seq<Seq<char>>,
    pub description: Option<Seq<char>>,
    pub args: Seq<Seq<char>>,
    pub arg_types: Seq<Seq<char>>,
    pub arg_data_types: Seq<Seq<char>>,
    pub available_encodings: Seq<Seq<char>>,
}

impl View for InstructionDoc {
    type V = DocView;

    open spec fn view(&self) -> DocView {
        DocView {
            name: self.name@,
            architectures: self.architectures.deep_view(),
            description: self.description.deep_view(),
            args: self.args.deep_view(),
            arg_types: self.arg_types.deep_view(),
            arg_data_types: self.arg_data_types.deep_view(),
            available_encodings: self.available_encodings.deep_view(),
        }
    }
}

/// The identity key of a record: name, description (absent and empty
/// coincide), argument labels and argument categories.
pub open spec fn spec_doc_key(d: DocView) -> (Seq<char>, Seq<char>, Seq<Seq<char>>, Seq<
    Seq<char>,
>) {
    (
        d.name,
        match d.description {
            Some(x) => x,
            None => Seq::empty(),
        },
        d.args,
        d.arg_types,
    )
}

/// Union of architecture tags: each new tag is appended unless already
/// present.
pub open spec fn spec_union_archs(ex: Seq<Seq<char>>, new: Seq<Seq<char>>) -> Seq<Seq<char>>
    decreases new.len(),
{
    if new.len() == 0 {
        ex
    } else {
        let prev = spec_union_archs(ex, new.drop_last());
        if prev.contains(new.last()) {
            prev
        } else {
            prev.push(new.last())
        }
    }
}

/// Index of the first record with this key, if any.
pub open spec fn spec_find_key(acc: Seq<DocView>, k: (Seq<char>, Seq<char>, Seq<Seq<char>>, Seq<
    Seq<char>,
>)) -> Option<nat>
    decreases acc.len(),
{
    if acc.len() == 0 {
        None
    } else if spec_doc_key(acc[0]) == k {
        Some(0nat)
    } else {
        match spec_find_key(acc.drop_first(), k) {
            Some(i) => Some((i + 1) as nat),
            None => None,
        }
    }
}

proof fn lemma_find_key_unique(acc: Seq<DocView>, k: (Seq<char>, Seq<char>, Seq<Seq<char>>, Seq<
    Seq<char>,
>), j: int)
    requires
        0 <= j <= acc.len(),
        forall|l: int| 0 <= l < j ==> spec_doc_key(#[trigger] acc[l]) != k,
        j < acc.len() ==> spec_doc_key(acc[j]) == k,
    ensures
        spec_find_key(acc, k) == if j == acc.len() {
            None::<nat>
        } else {
            Some(j as nat)
        },
    decreases acc.len(),
{
    if acc.len() > 0 && spec_doc_key(acc[0]) != k {
        assert(j > 0);
        let a1 = acc.drop_first();
        assert forall|l: int| 0 <= l < j - 1 implies spec_doc_key(#[trigger] a1[l]) != k by {
            assert(a1[l] == acc[l + 1]);
        }
        lemma_find_key_unique(a1, k, j - 1);
    }
}

/// One record folded into the table: the first record with the same key
/// absorbs its architecture tags, otherwise the record is appended with
/// its own tags deduplicated.
pub open spec fn spec_merge_one(acc: Seq<DocView>, d: DocView) -> Seq<DocView> {
    match spec_find_key(acc, spec_doc_key(d)) {
        Some(i) => acc.update(
            i as int,
            DocView { architectures: spec_union_archs(acc[i as int].architectures, d.architectures), ..acc[i as int] },
        ),
        None => acc.push(
            DocView { architectures: spec_union_archs(Seq::empty(), d.architectures), ..d },
        ),
    }
}

/// A batch of records folded into the table, in order.
pub open spec fn spec_merge_all(acc: Seq<DocView>, ds: Seq<DocView>) -> Seq<DocView>
    decreases ds.len(),
{
    if ds.len() == 0 {
        acc
    } else {
        spec_merge_one(spec_merge_all(acc, ds.drop_last()), ds.last())
    }
}

/// Whether a string list contains `s`.
fn contains_string(v: &Vec<String>, s: &str) -> (r: bool)
    ensures
        r == v.deep_view().contains(s@),
{
    let n = v.len();
    let mut i: usize = 0;
    while i < n
        invariant
            n == v@.len(),
            i <= n,
            forall|l: int| 0 <= l < i ==> v.deep_view()[l] != s@,
        decreases n - i,
    {
        if str_eq(v[i].as_str(), s) {
            proof {
                assert(v.deep_view()[i as int] == s@);
            }
            return true;
        }
        i += 1;
    }
    proof {
        if v.deep_view().contains(s@) {
            let l = choose|l: int| 0 <= l < v.deep_view().len() && v.deep_view()[l] == s@;
        }
    }
    false
}

/// Push every tag of `new` not already present, in order.
fn union_archs_into(ex: &mut Vec<String>, new: &Vec<String>)
    ensures
        final(ex).deep_view() == spec_union_archs(old(ex).deep_view(), new.deep_view()),
{
    let n = new.len();
    let mut i: usize = 0;
    proof {
        assert(new.deep_view().subrange(0, 0) =~= Seq::<Seq<char>>::empty());
        assert(ex.deep_view() =~= spec_union_archs(
            old(ex).deep_view(),
            Seq::<Seq<char>>::empty(),
        ));
    }
    while i < n
        invariant
            n == new@.len(),
            i <= n,
            ex.deep_view() == spec_union_archs(
                old(ex).deep_view(),
                new.deep_view().subrange(0, i as int),
            ),
        decreases n - i,
    {
        proof {
            assert(new.deep_view().subrange(0, i + 1).drop_last() =~= new.deep_view().subrange(
                0,
                i as int,
            ));
            assert(new.deep_view().subrange(0, i + 1).last() == new.deep_view()[i as int]);
        }
        if !contains_string(ex, new[i].as_str()) {
            let ghost old_ex = ex.deep_view();
            ex.push(new[i].clone());
            proof {
                assert(ex.deep_view() =~= old_ex.push(new.deep_view()[i as int]));
            }
        }
        i += 1;
    }
    proof {
        assert(new.deep_view().subrange(0, n as int) =~= new.deep_view());
    }
}

/// Whether two string lists hold the same strings in the same order.
fn str_vec_eq(a: &Vec<String>, b: &Vec<String>) -> (r: bool)
    ensures
        r == (a.deep_view() == b.deep_view()),
{
    let n = a.len();
    if n != b.len() {
        proof {
            assert(a.deep_view().len() != b.deep_view().len());
        }
        return false;
    }
    let mut i: usize = 0;
    while i < n
        invariant
            n == a@.len(),
            n == b@.len(),
            i <= n,
            forall|l: int| 0 <= l < i ==> a.deep_view()[l] == b.deep_view()[l],
        decreases n - i,
    {
        if !str_eq(a[i].as_str(), b[i].as_str()) {
            proof {
                assert(a.deep_view()[i as int] != b.deep_view()[i as int]);
            }
            return false;
        }
        i += 1;
    }
    proof {
        assert(a.deep_view() =~= b.deep_view());
    }
    true
}

/// Whether two records carry the same identity key.
fn doc_key_eq(a: &InstructionDoc, b: &InstructionDoc) -> (r: bool)
    ensures
        r == (spec_doc_key(a@) == spec_doc_key(b@)),
{
    if !str_eq(a.name.as_str(), b.name.as_str()) {
        return false;
    }
    let desc_eq = match (&a.description, &b.description) {
        (Some(x), Some(y)) => str_eq(x.as_str(), y.as_str()),
        (Some(x), None) => {
            let e = x.as_str().unicode_len() == 0;
            proof {
                if e {
                    assert(x@ =~= Seq::<char>::empty());
                }
            }
            e
        },
        (None, Some(y)) => {
            let e = y.as_str().unicode_len() == 0;
            proof {
                if e {
                    assert(y@ =~= Seq::<char>::empty());
                }
            }
            e
        },
        (None, None) => true,
    };
    if !desc_eq {
        return false;
    }
    if !str_vec_eq(&a.args, &b.args) {
        return false;
    }
    str_vec_eq(&a.arg_types, &b.arg_types)
}

fn find_same_key(merged: &Vec<InstructionDoc>, d: &InstructionDoc) -> (r: Option<usize>)
    ensures
        match r {
            Some(i) => i < merged@.len() && spec_find_key(
                merged@.map_values(|x: InstructionDoc| x@),
                spec_doc_key(d@),
            ) == Some(i as nat),
            None => spec_find_key(
                merged@.map_values(|x: InstructionDoc| x@),
                spec_doc_key(d@),
            ) is None,
        },
{
    let ghost mv = merged@.map_values(|x: InstructionDoc| x@);
    let n = merged.len();
    let mut i: usize = 0;
    while i < n
        invariant
            n == merged@.len(),
            mv == merged@.map_values(|x: InstructionDoc| x@),
            i <= n,
            forall|l: int| 0 <= l < i ==> spec_doc_key(#[trigger] mv[l]) != spec_doc_key(d@),
        decreases n - i,
    {
        if doc_key_eq(&merged[i], d) {
            proof {
                lemma_find_key_unique(mv, spec_doc_key(d@), i as int);
            }
            return Some(i);
        }
        i += 1;
    }
    proof {
        lemma_find_key_unique(mv, spec_doc_key(d@), n as int);
    }
    None
}

/// The views of a record list.
pub open spec fn doc_views(s: Seq<InstructionDoc>) -> Seq<DocView> {
    s.map_values(|x: InstructionDoc| x@)
}

/// Fold a batch of extracted records into the running instruction table.
pub fn merge_instructions(merged: &mut Vec<InstructionDoc>, instructions: Vec<InstructionDoc>)
    ensures
        doc_views(final(merged)@) == spec_merge_all(
            doc_views(old(merged)@),
            doc_views(instructions@),
        ),
{
    let n = instructions.len();
    let ghost dv = doc_views(instructions@);
    let mut rest = instructions;
    let mut t: usize = 0;
    proof {
        assert(dv.subrange(0, 0) =~= Seq::<DocView>::empty());
        assert(doc_views(merged@) =~= spec_merge_all(
            doc_views(old(merged)@),
            Seq::<DocView>::empty(),
        ));
    }
    while t < n
        invariant
            n == rest@.len(),
            dv == doc_views(rest@),
            t <= n,
            doc_views(merged@) == spec_merge_all(
                doc_views(old(merged)@),
                dv.subrange(0, t as int),
            ),
        decreases n - t,
    {
        proof {
            assert(dv.subrange(0, t + 1).drop_last() =~= dv.subrange(0, t as int));
            assert(dv.subrange(0, t + 1).last() == dv[t as int]);
        }
        let d = &rest[t];
        proof {
            assert(d@ == dv[t as int]);
        }
        match find_same_key(merged, d) {
            Some(i) => {
                let ghost old_merged = merged@;
                let mut entry = merged.remove(i);
                union_archs_into(&mut entry.architectures, &d.architectures);
                let ghost updated = entry@;
                merged.insert(i, entry);
                proof {
                    assert(doc_views(merged@) =~= doc_views(old_merged).update(
                        i as int,
                        updated,
                    ));
                    assert(updated == DocView {
                        architectures: spec_union_archs(
                            doc_views(old_merged)[i as int].architectures,
                            dv[t as int].architectures,
                        ),
                        ..doc_views(old_merged)[i as int]
                    });
                }
            },
            None => {
                let mut fresh = InstructionDoc {
                    name: d.name.clone(),
                    architectures: Vec::new(),
                    description: crate::types::clone_opt_string(&d.description),
                    args: crate::types::clone_string_vec(&d.args),
                    arg_types: crate::types::clone_string_vec(&d.arg_types),
                    arg_data_types: crate::types::clone_string_vec(&d.arg_data_types),
                    available_encodings: crate::types::clone_string_vec(&d.available_encodings),
                    encodings: Vec::new(),
                };
                proof {
                    assert(fresh.architectures.deep_view() =~= Seq::<Seq<char>>::empty());
                }
                union_archs_into(&mut fresh.architectures, &d.architectures);
                let ghost old_merged = merged@;
                let ghost fv = fresh@;
                merged.push(fresh);
                proof {
                    assert(doc_views(merged@) =~= doc_views(old_merged).push(fv));
                    assert(fv == DocView {
                        architectures: spec_union_archs(
                            Seq::empty(),
                            dv[t as int].architectures,
                        ),
                        ..dv[t as int]
                    });
                }
            },
        }
        t += 1;
    }
    proof {
        assert(dv.subrange(0, n as int) =~= dv);
    }
}

/// Tag union adds no duplicates: if the stored list is duplicate-free,
/// so is the union.
pub proof fn lemma_union_archs_nodup(ex: Seq<Seq<char>>, new: Seq<Seq<char>>)
    requires
        forall|i: int, j: int| 0 <= i < j < ex.len() ==> ex[i] != ex[j],
    ensures
        forall|i: int, j: int|
            0 <= i < j < spec_union_archs(ex, new).len() ==> spec_union_archs(ex, new)[i]
                != spec_union_archs(ex, new)[j],
        forall|i: int|
            0 <= i < ex.len() ==> spec_union_archs(ex, new)[i] == ex[i],
        spec_union_archs(ex, new).len() >= ex.len(),
    decreases new.len(),
{
    if new.len() > 0 {
        lemma_union_archs_nodup(ex, new.drop_last());
        let prev = spec_union_archs(ex, new.drop_last());
        if !prev.contains(new.last()) {
            assert forall|i: int, j: int|
                0 <= i < j < spec_union_archs(ex, new).len() implies spec_union_archs(
                ex,
                new,
            )[i] != spec_union_archs(ex, new)[j] by {
                if j == prev.len() {
                    assert(!prev.contains(new.last()));
                    assert(prev[i] != new.last());
                }
            }
        }
    }
}

/// The union holds exactly the tags of both sides.
pub proof fn lemma_union_archs_set(ex: Seq<Seq<char>>, new: Seq<Seq<char>>)
    ensures
        forall|a: Seq<char>|
            #![trigger spec_union_archs(ex, new).contains(a)]
            spec_union_archs(ex, new).contains(a) <==> (ex.contains(a) || new.contains(a)),
    decreases new.len(),
{
    broadcast use vstd::seq_lib::group_seq_properties;

    if new.len() == 0 {
        assert forall|a: Seq<char>|
            spec_union_archs(ex, new).contains(a) implies (ex.contains(a) || new.contains(
            a,
        )) by {}
    } else {
        lemma_union_archs_set(ex, new.drop_last());
        let prev = spec_union_archs(ex, new.drop_last());
        assert forall|a: Seq<char>|
            #![trigger spec_union_archs(ex, new).contains(a)]
            spec_union_archs(ex, new).contains(a) <==> (ex.contains(a) || new.contains(a)) by {
            if spec_union_archs(ex, new).contains(a) {
                let i = choose|i: int|
                    0 <= i < spec_union_archs(ex, new).len() && spec_union_archs(ex, new)[i] == a;
                if !prev.contains(new.last()) && i == prev.len() {
                    assert(new.contains(new.last()));
                } else {
                    assert(prev[i] == a);
                    assert(prev.contains(a));
                    if new.drop_last().contains(a) {
                        let l = choose|l: int|
                            0 <= l < new.drop_last().len() && new.drop_last()[l] == a;
                        assert(new[l] == a);
                    }
                }
            }
            if ex.contains(a) || new.contains(a) {
                if ex.contains(a) || new.drop_last().contains(a) {
                    assert(prev.contains(a));
                    let i = choose|i: int| 0 <= i < prev.len() && prev[i] == a;
                    if prev.contains(new.last()) {
                        assert(spec_union_archs(ex, new)[i] == a);
                    } else {
                        assert(spec_union_archs(ex, new)[i] == a);
                    }
                } else {
                    let l = choose|l: int| 0 <= l < new.len() && new[l] == a;
                    assert(l == new.len() - 1);
                    if prev.contains(new.last()) {
                        assert(prev.contains(a));
                        let i = choose|i: int| 0 <= i < prev.len() && prev[i] == a;
                        assert(spec_union_archs(ex, new)[i] == a);
                    } else {
                        assert(spec_union_archs(ex, new)[prev.len() as int] == a);
                    }
                }
            }
        }
    }
}

/// The table built from the two records `a` and `b`, in that order,
/// starting empty.
pub open spec fn spec_merge_pair(a: DocView, b: DocView) -> Seq<DocView> {
    spec_merge_all(Seq::empty(), seq![a, b])
}

/// Merging two records with the same identity key yields one record
/// whose architecture tags are exactly the union of the two tag sets,
/// with no duplicate tags.
pub proof fn lemma_merge_two_records(a: DocView, b: DocView)
    requires
        spec_doc_key(a) == spec_doc_key(b),
    ensures
        spec_merge_pair(a, b).len() == 1,
        forall|t: Seq<char>|
            #![trigger spec_merge_pair(a, b)[0].architectures.contains(t)]
            spec_merge_pair(a, b)[0].architectures.contains(t) <==> (a.architectures.contains(t)
                || b.architectures.contains(t)),
        forall|i: int, j: int|
            0 <= i < j < spec_merge_pair(a, b)[0].architectures.len() ==> spec_merge_pair(
                a,
                b,
            )[0].architectures[i] != spec_merge_pair(a, b)[0].architectures[j],
{
    let e = Seq::<DocView>::empty();
    let ds = seq![a, b];
    assert(ds.drop_last() =~= seq![a]);
    assert(seq![a].drop_last() =~= e);
    assert(spec_merge_all(e, e) == e);
    assert(spec_merge_all(e, seq![a]) == spec_merge_one(e, a));
    assert(spec_find_key(e, spec_doc_key(a)) is None);
    let a1 = DocView { architectures: spec_union_archs(Seq::empty(), a.architectures), ..a };
    assert(spec_merge_one(e, a) == e.push(a1));
    let acc1 = e.push(a1);
    assert(spec_doc_key(acc1[0]) == spec_doc_key(b));
    assert(spec_find_key(acc1, spec_doc_key(b)) == Some(0nat));
    let merged = spec_merge_one(acc1, b);
    assert(merged.len() == 1);
    assert(merged[0].architectures == spec_union_archs(
        spec_union_archs(Seq::empty(), a.architectures),
        b.architectures,
    ));
    lemma_union_archs_nodup(Seq::empty(), a.architectures);
    lemma_union_archs_nodup(spec_union_archs(Seq::empty(), a.architectures), b.architectures);
    lemma_union_archs_set(Seq::empty(), a.architectures);
    lemma_union_archs_set(spec_union_archs(Seq::empty(), a.architectures), b.architectures);
    assert forall|t: Seq<char>|
        #![trigger merged[0].architectures.contains(t)]
        merged[0].architectures.contains(t) <==> (a.architectures.contains(t)
            || b.architectures.contains(t)) by {
        assert(merged[0].architectures.contains(t) <==> (spec_union_archs(
            Seq::empty(),
            a.architectures,
        ).contains(t) || b.architectures.contains(t)));
        assert(spec_union_archs(Seq::empty(), a.architectures).contains(t) <==> (Seq::<
            Seq<char>,
        >::empty().contains(t) || a.architectures.contains(t)));
        assert(!Seq::<Seq<char>>::empty().contains(t));
    }
}

} // verus!
