use vstd::prelude::*;
use crate::types::{
    FieldDecl, FnSig, StructType, TypeTag, export_index, field_index, find_export, find_field,
    lemma_export_index_bounds, lemma_field_index_bounds,
};

verus! {

/// A tag names a type of the table it is read against.
pub open spec fn tag_in(types: Seq<StructType>, t: TypeTag) -> bool {
    t matches TypeTag::Struct(i) ==> i < types.len()
}

/// Every tag of the module names one of its own types.
pub open spec fn module_wf(types: Seq<StructType>, exports: Seq<FnSig>) -> bool {
    &&& forall|t: int, f: int|
        0 <= t < types.len() && 0 <= f < types[t].fields@.len() ==> tag_in(
            types,
            #[trigger] types[t].fields@[f].tag,
        )
    &&& forall|e: int, p: int|
        0 <= e < exports.len() && 0 <= p < exports[e].params@.len() ==> tag_in(
            types,
            #[trigger] exports[e].params@[p],
        )
    &&& forall|e: int| 0 <= e < exports.len() ==> tag_in(types, #[trigger] exports[e].ret)
}

fn tag_in_exec(n_types: usize, t: TypeTag) -> (r: bool)
    ensures
        r == (t matches TypeTag::Struct(i) ==> i < n_types),
{
    match t {
        TypeTag::Struct(i) => i < n_types,
        _ => true,
    }
}

/// Whether every tag of the types and exports names one of `types`.
pub fn check_module(types: &Vec<StructType>, exports: &Vec<FnSig>) -> (r: bool)
    ensures
        r == module_wf(types@, exports@),
{
    let n = types.len();
    let mut t: usize = 0;
    while t < n
        invariant
            n == types@.len(),
            t <= n,
            forall|a: int, f: int|
                0 <= a < t && 0 <= f < types@[a].fields@.len() ==> tag_in(
                    types@,
                    #[trigger] types@[a].fields@[f].tag,
                ),
        decreases n - t,
    {
        let mut f: usize = 0;
        while f < types[t].fields.len()
            invariant
                n == types@.len(),
                t < n,
                f <= types@[t as int].fields@.len(),
                forall|a: int, g: int|
                    0 <= a < t && 0 <= g < types@[a].fields@.len() ==> tag_in(
                        types@,
                        #[trigger] types@[a].fields@[g].tag,
                    ),
                forall|g: int| 0 <= g < f ==> tag_in(types@, #[trigger] types@[t as int].fields@[g].tag),
            decreases types@[t as int].fields@.len() - f,
        {
            if !tag_in_exec(n, types[t].fields[f].tag) {
                return false;
            }
            f = f + 1;
        }
        t = t + 1;
    }
    let mut e: usize = 0;
    while e < exports.len()
        invariant
            n == types@.len(),
            e <= exports@.len(),
            forall|a: int, f: int|
                0 <= a < n && 0 <= f < types@[a].fields@.len() ==> tag_in(
                    types@,
                    #[trigger] types@[a].fields@[f].tag,
                ),
            forall|d: int, p: int|
                0 <= d < e && 0 <= p < exports@[d].params@.len() ==> tag_in(
                    types@,
                    #[trigger] exports@[d].params@[p],
                ),
            forall|d: int| 0 <= d < e ==> tag_in(types@, #[trigger] exports@[d].ret),
        decreases exports@.len() - e,
    {
        if !tag_in_exec(n, exports[e].ret) {
            return false;
        }
        let mut p: usize = 0;
        while p < exports[e].params.len()
            invariant
                n == types@.len(),
                e < exports@.len(),
                p <= exports@[e as int].params@.len(),
                forall|d: int, q: int|
                    0 <= d < e && 0 <= q < exports@[d].params@.len() ==> tag_in(
                        types@,
                        #[trigger] exports@[d].params@[q],
                    ),
                forall|q: int| 0 <= q < p ==> tag_in(types@, #[trigger] exports@[e as int].params@[q]),
            decreases exports@[e as int].params@.len() - p,
        {
            if !tag_in_exec(n, exports[e].params[p]) {
                return false;
            }
            p = p + 1;
        }
        e = e + 1;
    }
    true
}

/// No struct type declares two fields of one name.
pub open spec fn fields_unique(types: Seq<StructType>) -> bool {
    forall|t: int, i: int, j: int|
        0 <= t < types.len() && 0 <= i < j < types[t].fields@.len() ==> (#[trigger] types[t].fields@[i]).name@
            != (#[trigger] types[t].fields@[j]).name@
}

/// Whether no struct type of `types` declares two fields of one name.
pub fn check_unique_fields(types: &Vec<StructType>) -> (r: bool)
    ensures
        r == fields_unique(types@),
{
    let mut t: usize = 0;
    while t < types.len()
        invariant
            t <= types@.len(),
            forall|u: int, i: int, j: int|
                0 <= u < t && 0 <= i < j < types@[u].fields@.len() ==> (#[trigger] types@[u].fields@[i]).name@
                    != (#[trigger] types@[u].fields@[j]).name@,
        decreases types@.len() - t,
    {
        let fields = &types[t].fields;
        let mut j: usize = 0;
        while j < fields.len()
            invariant
                t < types@.len(),
                *fields == types@[t as int].fields,
                j <= fields@.len(),
                forall|u: int, a: int, b: int|
                    0 <= u < t && 0 <= a < b < types@[u].fields@.len() ==> (#[trigger] types@[u].fields@[a]).name@
                        != (#[trigger] types@[u].fields@[b]).name@,
                forall|a: int, b: int| 0 <= a < b < j ==> (#[trigger] fields@[a]).name@ != (#[trigger] fields@[b]).name@,
            decreases fields@.len() - j,
        {
            let mut i: usize = 0;
            while i < j
                invariant
                    t < types@.len(),
                    *fields == types@[t as int].fields,
                    j < fields@.len(),
                    i <= j,
                    forall|a: int| 0 <= a < i ==> (#[trigger] fields@[a]).name@ != fields@[j as int].name@,
                decreases j - i,
            {
                if names_equal(&fields[i].name, &fields[j].name) {
                    assert(types@[t as int].fields@[i as int].name@ == types@[t as int].fields@[j as int].name@);
                    assert(!fields_unique(types@));
                    return false;
                }
                i = i + 1;
            }
            j = j + 1;
        }
        t = t + 1;
    }
    true
}

fn names_equal(a: &String, b: &String) -> (r: bool)
    ensures
        r == (a@ == b@),
{
    *a == *b
}

/// Two signatures agree in name, parameters and return tag.
pub open spec fn same_sig(a: FnSig, b: FnSig) -> bool {
    a.name@ == b.name@ && a.params@ == b.params@ && a.ret == b.ret
}

/// Each import is met by the first native of its name, with the same signature.
pub open spec fn imports_linked(imports: Seq<FnSig>, natives: Seq<FnSig>) -> bool {
    forall|i: int|
        0 <= i < imports.len() ==> match export_index(natives, (#[trigger] imports[i]).name@) {
            Some(j) => same_sig(imports[i], natives[j]),
            None => false,
        }
}

fn check_sig(a: &FnSig, b: &FnSig) -> (r: bool)
    ensures
        r == same_sig(*a, *b),
{
    if !names_equal(&a.name, &b.name) || a.ret != b.ret || a.params.len() != b.params.len() {
        return false;
    }
    let mut p: usize = 0;
    while p < a.params.len()
        invariant
            p <= a.params@.len(),
            a.params@.len() == b.params@.len(),
            forall|q: int| 0 <= q < p ==> a.params@[q] == b.params@[q],
        decreases a.params@.len() - p,
    {
        if a.params[p] != b.params[p] {
            return false;
        }
        p = p + 1;
    }
    assert(a.params@ =~= b.params@);
    true
}

/// Whether every import of a module is met by a native function of the host.
pub fn check_imports(imports: &Vec<FnSig>, natives: &Vec<FnSig>) -> (r: bool)
    ensures
        r == imports_linked(imports@, natives@),
{
    let mut i: usize = 0;
    while i < imports.len()
        invariant
            i <= imports@.len(),
            forall|k: int|
                0 <= k < i ==> match export_index(natives@, (#[trigger] imports@[k]).name@) {
                    Some(j) => same_sig(imports@[k], natives@[j]),
                    None => false,
                },
        decreases imports@.len() - i,
    {
        match find_export(natives, imports[i].name.as_str()) {
            None => {
                return false;
            },
            Some(j) => {
                proof {
                    lemma_export_index_bounds(natives@, imports@[i as int].name@);
                }
                if !check_sig(&imports[i], &natives[j]) {
                    return false;
                }
            },
        }
        i = i + 1;
    }
    true
}

/// `f` is found among `old_fields` by name, with the same tag.
pub open spec fn carried_field(old_fields: Seq<FieldDecl>, f: FieldDecl) -> bool {
    match field_index(old_fields, f.name@) {
        Some(j) => old_fields[j].tag == f.tag,
        None => false,
    }
}

/// Every struct-typed field of a type that already exists in `old` is carried over
/// from it: a reload has no value to start such a field with.
pub open spec fn struct_fields_carried(old: Seq<StructType>, nt: Seq<StructType>) -> bool {
    forall|t: int, i: int|
        0 <= t < old.len() && t < nt.len() && 0 <= i < nt[t].fields@.len() && (
        #[trigger] nt[t].fields@[i]).tag is Struct ==> carried_field(old[t].fields@, nt[t].fields@[i])
}

/// Whether every struct-typed field of the types of `nt` that exist in `old` is
/// carried over from `old`.
pub fn check_struct_fields_carried(old: &Vec<StructType>, nt: &Vec<StructType>) -> (r: bool)
    ensures
        r == struct_fields_carried(old@, nt@),
{
    let mut t: usize = 0;
    while t < old.len() && t < nt.len()
        invariant
            t <= old@.len(),
            forall|u: int, i: int|
                0 <= u < t && u < nt@.len() && 0 <= i < nt@[u].fields@.len() && (
                #[trigger] nt@[u].fields@[i]).tag is Struct ==> carried_field(old@[u].fields@, nt@[u].fields@[i]),
        decreases old@.len() - t,
    {
        let mut i: usize = 0;
        while i < nt[t].fields.len()
            invariant
                t < old@.len(),
                t < nt@.len(),
                i <= nt@[t as int].fields@.len(),
                forall|u: int, g: int|
                    0 <= u < t && u < nt@.len() && 0 <= g < nt@[u].fields@.len() && (
                    #[trigger] nt@[u].fields@[g]).tag is Struct ==> carried_field(old@[u].fields@, nt@[u].fields@[g]),
                forall|g: int|
                    0 <= g < i && (#[trigger] nt@[t as int].fields@[g]).tag is Struct ==> carried_field(
                        old@[t as int].fields@,
                        nt@[t as int].fields@[g],
                    ),
            decreases nt@[t as int].fields@.len() - i,
        {
            if let TypeTag::Struct(_) = nt[t].fields[i].tag {
                match find_field(&old[t].fields, nt[t].fields[i].name.as_str()) {
                    None => {
                        return false;
                    },
                    Some(j) => {
                        proof {
                            lemma_field_index_bounds(old@[t as int].fields@, nt@[t as int].fields@[i as int].name@);
                        }
                        if old[t].fields[j].tag != nt[t].fields[i].tag {
                            return false;
                        }
                    },
                }
            }
            i = i + 1;
        }
        t = t + 1;
    }
    true
}

} // verus!
