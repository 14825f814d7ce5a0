//! Host-provided modules and types, as the project configuration declares them.

use vstd::prelude::*;

use crate::ty::{FunctionTypeRef, TypeRef};

verus! {

/// One overload of a host function: its parsed signature, if the signature
/// text parsed, and its documentation.
pub struct HostFunctionOverload {
    pub signature: Option<FunctionTypeRef>,
    pub docs: Option<String>,
}

/// A host function or method with all of its overloads.
pub struct HostFunction {
    pub name: String,
    pub overloads: Vec<HostFunctionOverload>,
}

/// A host-provided type: its base name, generic parameter names,
/// documentation and methods.
pub struct HostType {
    pub name: String,
    pub generic_params: Vec<String>,
    pub docs: Option<String>,
    pub methods: Vec<HostFunction>,
}

/// A constant exported by a host module.
pub struct HostConstant {
    pub name: String,
    pub ty: Option<TypeRef>,
    pub docs: Option<String>,
}

/// A host-provided module.
pub struct HostModule {
    pub name: String,
    pub docs: Option<String>,
    pub functions: Vec<HostFunction>,
    pub constants: Vec<HostConstant>,
}

/// The names of the host types.
pub open spec fn host_names(hosts: Seq<HostType>) -> Seq<Seq<char>> {
    Seq::new(hosts.len(), |i: int| hosts[i].name@)
}

} // verus!

verus! {

/// Whether `x` is the trimmed, non-empty documentation of one of the first
/// `n` overloads.
pub open spec fn documents(ovs: Seq<HostFunctionOverload>, n: int, x: Seq<char>) -> bool {
    exists|k: int| 0 <= k < n && #[trigger] overload_doc_is(ovs[k], x)
}

/// Whether `x` is the trimmed, non-empty documentation of an overload.
pub open spec fn overload_doc_is(ov: HostFunctionOverload, x: Seq<char>) -> bool {
    match ov.docs {
        Some(d) => crate::text::trimmed(d@) == x && x.len() > 0,
        None => false,
    }
}

/// The distinct trimmed, non-empty documentation texts of the overloads.
pub open spec fn doc_texts(ovs: Seq<HostFunctionOverload>) -> Set<Seq<char>> {
    Set::new(|x: Seq<char>| documents(ovs, ovs.len() as int, x))
}

/// The documentation shown for a host function: its distinct trimmed,
/// non-empty overload docs in ascending order, separated by blank lines, or
/// none when there are none.
pub open spec fn merged_docs_ok(ovs: Seq<HostFunctionOverload>, r: Option<String>) -> bool {
    &&& r is None <==> doc_texts(ovs) =~= Set::empty()
    &&& r matches Some(s) ==> exists|l: Seq<Seq<char>>|
        crate::text::strictly_sorted(l) && l.to_set() == doc_texts(ovs) && s@ == crate::text::join_with(
            l,
            "\n\n"@,
        )
}

/// The documentation shown for a host function with these overloads, as a
/// value: the distinct, trimmed, non-empty overload docs in ascending order,
/// separated by blank lines; none when there are none.
pub open spec fn merged_docs(ovs: Seq<HostFunctionOverload>) -> Option<Seq<char>> {
    if doc_texts(ovs) == Set::<Seq<char>>::empty() {
        None
    } else {
        Some(
            crate::text::join_with(
                choose|l: Seq<Seq<char>>| crate::text::strictly_sorted(l) && l.to_set() == doc_texts(ovs),
                "\n\n"@,
            ),
        )
    }
}

/// Documentation that `merged_docs_ok` admits is `merged_docs`.
pub proof fn lemma_merged_docs(ovs: Seq<HostFunctionOverload>, r: Option<String>)
    requires
        merged_docs_ok(ovs, r),
    ensures
        merged_docs(ovs) == match r {
            Some(s) => Some(s@),
            None => None::<Seq<char>>,
        },
{
    match r {
        Some(s) => {
            let l = choose|l: Seq<Seq<char>>|
                crate::text::strictly_sorted(l) && l.to_set() == doc_texts(ovs) && s@ == crate::text::join_with(l, "\n\n"@);
            let c = choose|c: Seq<Seq<char>>| crate::text::strictly_sorted(c) && c.to_set() == doc_texts(ovs);
            crate::text::lemma_strictly_sorted_unique(l, c);
            if doc_texts(ovs) == Set::<Seq<char>>::empty() {
                assert(doc_texts(ovs) =~= Set::<Seq<char>>::empty());
            }
        },
        None => {
            assert(doc_texts(ovs) == Set::<Seq<char>>::empty());
        },
    }
}

fn overload_docs(overloads: &Vec<HostFunctionOverload>) -> (r: Option<String>)
    ensures
        merged_docs_ok(overloads@, r),
{
    let ghost ovs = overloads@;
    let mut list: Vec<String> = Vec::new();
    let mut i: usize = 0;
    assert(crate::text::texts(list@) =~= Seq::<Seq<char>>::empty());
    while i < overloads.len()
        invariant
            0 <= i <= overloads.len(),
            ovs == overloads@,
            crate::text::strictly_sorted(crate::text::texts(list@)),
            forall|y: Seq<char>| #[trigger] crate::text::texts(list@).contains(y) <==> documents(ovs, i as int, y),
        decreases overloads.len() - i,
    {
        let ghost before = crate::text::texts(list@);
        match &overloads[i].docs {
            Some(d) => {
                let t = crate::text::trim_text(d.as_str());
                if !t.is_empty() {
                    crate::text::insert_sorted_unique(&mut list, t.to_owned());
                }
                assert forall|y: Seq<char>| #[trigger] crate::text::texts(list@).contains(y) <==> documents(ovs, i + 1, y) by {
                    assert(ovs[i as int].docs == Some(*d));
                    if overload_doc_is(ovs[i as int], y) {
                        assert(y == t@ && t@.len() > 0);
                    }
                    if y == t@ && t@.len() > 0 {
                        assert(overload_doc_is(ovs[i as int], y));
                    }
                    if documents(ovs, i + 1, y) {
                        let k = choose|k: int| 0 <= k < i + 1 && #[trigger] overload_doc_is(ovs[k], y);
                        if k < i {
                            assert(documents(ovs, i as int, y));
                        }
                    }
                    if documents(ovs, i as int, y) {
                        let k = choose|k: int| 0 <= k < i && #[trigger] overload_doc_is(ovs[k], y);
                        assert(documents(ovs, i + 1, y));
                    }
                }
            },
            None => {
                assert forall|y: Seq<char>| #[trigger] crate::text::texts(list@).contains(y) <==> documents(ovs, i + 1, y) by {
                    if documents(ovs, i + 1, y) {
                        let k = choose|k: int| 0 <= k < i + 1 && #[trigger] overload_doc_is(ovs[k], y);
                        if k < i {
                            assert(documents(ovs, i as int, y));
                        }
                    }
                    if documents(ovs, i as int, y) {
                        let k = choose|k: int| 0 <= k < i && #[trigger] overload_doc_is(ovs[k], y);
                        assert(documents(ovs, i + 1, y));
                    }
                }
            },
        }
        i += 1;
    }
    let ghost l = crate::text::texts(list@);
    assert(l.to_set() =~= doc_texts(ovs));
    if list.len() == 0 {
        assert(doc_texts(ovs) =~= Set::empty());
        return None;
    }
    assert(doc_texts(ovs).contains(l[0]));
    let joined = crate::text::join_strings(list.as_slice(), "\n\n");
    assert(Seq::new(list@.len(), |i: int| list@[i]@) =~= l);
    Some(joined)
}

/// The documentation shown for a host function, as `merged_docs_ok` states.
pub fn host_function_docs(function: &HostFunction) -> (r: Option<String>)
    ensures
        merged_docs_ok(function.overloads@, r),
{
    overload_docs(&function.overloads)
}

/// The documentation shown for a host type's method, as `merged_docs_ok` states.
pub fn method_docs(method: &HostFunction) -> (r: Option<String>)
    ensures
        merged_docs_ok(method.overloads@, r),
{
    overload_docs(&method.overloads)
}

/// The signatures of the overloads that have one, in order.
pub open spec fn overload_signatures(ovs: Seq<HostFunctionOverload>) -> Seq<(Seq<crate::ty::Ty>, crate::ty::Ty)>
    decreases ovs.len(),
{
    if ovs.len() == 0 {
        Seq::empty()
    } else {
        let before = overload_signatures(ovs.drop_last());
        match ovs.last().signature {
            Some(s) => before.push(s.sig()),
            None => before,
        }
    }
}

/// The annotation of a host function: its signature as a function type when
/// exactly one overload has a signature, else none.
pub fn host_function_annotation(function: &HostFunction) -> (r: Option<TypeRef>)
    ensures
        match r {
            Some(t) => overload_signatures(function.overloads@).len() == 1 && t@ == crate::ty::Ty::Function(
                overload_signatures(function.overloads@)[0].0,
                Box::new(overload_signatures(function.overloads@)[0].1),
            ),
            None => overload_signatures(function.overloads@).len() != 1,
        },
{
    let ghost sigs = overload_signatures(function.overloads@);
    let mut first: Option<&FunctionTypeRef> = None;
    let mut count: usize = 0;
    let mut i: usize = 0;
    while i < function.overloads.len()
        invariant
            0 <= i <= function.overloads.len(),
            sigs == overload_signatures(function.overloads@),
            count == overload_signatures(function.overloads@.take(i as int)).len(),
            count <= i,
            count > 0 ==> (first matches Some(f) && f.sig() == overload_signatures(function.overloads@.take(i as int))[0]),
        decreases function.overloads.len() - i,
    {
        proof {
            let t = function.overloads@.take(i + 1);
            assert(t.drop_last() =~= function.overloads@.take(i as int));
            assert(t.last() == function.overloads@[i as int]);
        }
        if let Some(sig) = &function.overloads[i].signature {
            if count == 0 {
                first = Some(sig);
            }
            count += 1;
        }
        i += 1;
    }
    assert(function.overloads@.take(i as int) =~= function.overloads@);
    if count != 1 {
        return None;
    }
    match first {
        Some(f) => {
            let t = TypeRef::Function(crate::ty::clone_signature(f));
            proof {
                crate::ty::lemma_model_unfold(t);
            }
            Some(t)
        },
        None => None,
    }
}

} // verus!
