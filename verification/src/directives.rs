//! Comment directives of a file: which names and modules it declares as
//! external, which unresolved names and imports it allows, and the types it
//! gives external names.

use vstd::prelude::*;
use vstd::string::StrSliceExecFns;

use crate::text::{strictly_sorted, texts};
use crate::ty::{clone_type, Ty, TypeRef};

verus! {

/// One comment directive. An `Extern` directive carries the type its text
/// gave, once parsed, or none when it gave none or the type did not parse.
pub enum CommentDirectiveKind {
    Extern { name: String, ty: Option<TypeRef> },
    Module { name: String },
    AllowUnresolved { name: String },
    AllowUnresolvedImport { name: String },
    FormatSkip,
}

/// The type a file's directives give an external name.
pub struct ExternalSignature {
    pub name: String,
    pub ty: TypeRef,
}

/// What a file's comment directives declare. The name lists are sorted and
/// hold each name once; the signatures hold each name once.
pub struct FileCommentDirectives {
    pub external_modules: Vec<String>,
    pub allowed_unresolved_names: Vec<String>,
    pub allowed_unresolved_imports: Vec<String>,
    pub external_signatures: Vec<ExternalSignature>,
}

/// The model of a directive.
pub enum DirectiveView {
    Extern(Seq<char>, Option<Ty>),
    Module(Seq<char>),
    AllowUnresolved(Seq<char>),
    AllowUnresolvedImport(Seq<char>),
    FormatSkip,
}

/// The model of a directive.
pub open spec fn directive_view(d: CommentDirectiveKind) -> DirectiveView {
    match d {
        CommentDirectiveKind::Extern { name, ty } => DirectiveView::Extern(
            name@,
            match ty {
                Some(t) => Some(t@),
                None => None,
            },
        ),
        CommentDirectiveKind::Module { name } => DirectiveView::Module(name@),
        CommentDirectiveKind::AllowUnresolved { name } => DirectiveView::AllowUnresolved(name@),
        CommentDirectiveKind::AllowUnresolvedImport { name } => DirectiveView::AllowUnresolvedImport(name@),
        CommentDirectiveKind::FormatSkip => DirectiveView::FormatSkip,
    }
}

/// The models of a list of directives.
pub open spec fn directive_views(ds: Seq<CommentDirectiveKind>) -> Seq<DirectiveView> {
    Seq::new(ds.len(), |i: int| directive_view(ds[i]))
}

/// The position of the first `::` in a name, or -1.
pub open spec fn first_separator(t: Seq<char>) -> int
    decreases t.len(),
{
    if t.len() < 2 {
        -1
    } else if t[0] == ':' && t[1] == ':' {
        0
    } else {
        let r = first_separator(t.drop_first());
        if r < 0 {
            -1
        } else {
            r + 1
        }
    }
}

pub proof fn lemma_first_separator(t: Seq<char>)
    ensures
        -1 <= first_separator(t) <= t.len() - 2 || first_separator(t) == -1,
        first_separator(t) >= 0 ==> t[first_separator(t)] == ':' && t[first_separator(t) + 1] == ':',
        forall|j: int|
            0 <= j < t.len() - 1 && (first_separator(t) < 0 || j < first_separator(t)) ==> !(#[trigger] t[j] == ':'
                && t[j + 1] == ':'),
    decreases t.len(),
{
    if t.len() >= 2 && !(t[0] == ':' && t[1] == ':') {
        lemma_first_separator(t.drop_first());
        assert forall|j: int|
            0 <= j < t.len() - 1 && (first_separator(t) < 0 || j < first_separator(t)) implies !(#[trigger] t[j]
                == ':' && t[j + 1] == ':') by {
            if j > 0 {
                assert(t[j] == t.drop_first()[j - 1] && t[j + 1] == t.drop_first()[j]);
            }
        }
    }
}

/// The module part of an external name: the text before its first `::`.
pub open spec fn module_part(name: Seq<char>) -> Option<Seq<char>> {
    if first_separator(name) >= 0 {
        Some(name.take(first_separator(name)))
    } else {
        None
    }
}

/// What the directives declare, as sets and a map: external modules,
/// allowed unresolved names, allowed unresolved imports, and the types of
/// external names.
pub open spec fn declared(ds: Seq<DirectiveView>) -> (Set<Seq<char>>, Set<Seq<char>>, Set<Seq<char>>, Map<Seq<char>, Ty>)
    decreases ds.len(),
{
    if ds.len() == 0 {
        (Set::empty(), Set::empty(), Set::empty(), Map::empty())
    } else {
        let (mods, names, imports, sigs) = declared(ds.drop_last());
        match ds.last() {
            DirectiveView::Extern(name, ty) => (
                match module_part(name) {
                    Some(m) => mods.insert(m),
                    None => mods,
                },
                names.insert(name),
                imports,
                match ty {
                    Some(t) => sigs.insert(name, t),
                    None => sigs,
                },
            ),
            DirectiveView::Module(name) => (mods.insert(name), names, imports, sigs),
            DirectiveView::AllowUnresolved(name) => (mods, names.insert(name), imports, sigs),
            DirectiveView::AllowUnresolvedImport(name) => (mods, names, imports.insert(name), sigs),
            DirectiveView::FormatSkip => (mods, names, imports, sigs),
        }
    }
}

/// The map of the external signatures, each name to its type.
pub open spec fn signature_map(v: Seq<ExternalSignature>) -> Map<Seq<char>, Ty>
    decreases v.len(),
{
    if v.len() == 0 {
        Map::empty()
    } else {
        signature_map(v.drop_last()).insert(v.last().name@, v.last().ty@)
    }
}

/// Whether no two signatures name the same name.
pub open spec fn distinct_names(v: Seq<ExternalSignature>) -> bool {
    forall|i: int, j: int| 0 <= i < j < v.len() ==> #[trigger] v[i].name@ != #[trigger] v[j].name@
}

proof fn lemma_signature_map_update(v: Seq<ExternalSignature>, i: int, e: ExternalSignature)
    requires
        distinct_names(v),
        0 <= i < v.len(),
        v[i].name@ == e.name@,
    ensures
        signature_map(v.update(i, e)) == signature_map(v).insert(e.name@, e.ty@),
    decreases v.len(),
{
    let w = v.update(i, e);
    if i == v.len() - 1 {
        assert(w.drop_last() =~= v.drop_last());
        assert(signature_map(w) =~= signature_map(v).insert(e.name@, e.ty@));
    } else {
        assert(distinct_names(v.drop_last())) by {
            assert forall|a: int, b: int| 0 <= a < b < v.drop_last().len() implies #[trigger] v.drop_last()[a].name@
                != #[trigger] v.drop_last()[b].name@ by {
                assert(v.drop_last()[a] == v[a] && v.drop_last()[b] == v[b]);
            }
        }
        lemma_signature_map_update(v.drop_last(), i, e);
        assert(w.drop_last() =~= v.drop_last().update(i, e));
        assert(v.last().name@ != e.name@) by {
            assert(v[v.len() - 1].name@ != v[i].name@);
        }
        assert(signature_map(w) =~= signature_map(v).insert(e.name@, e.ty@));
    }
}

proof fn lemma_signature_map_dom(v: Seq<ExternalSignature>)
    ensures
        forall|n: Seq<char>| #[trigger] signature_map(v).contains_key(n) <==> exists|i: int| 0 <= i < v.len() && v[i].name@ == n,
    decreases v.len(),
{
    if v.len() > 0 {
        lemma_signature_map_dom(v.drop_last());
        assert forall|n: Seq<char>| #[trigger] signature_map(v).contains_key(n) <==> exists|i: int|
            0 <= i < v.len() && v[i].name@ == n by {
            if signature_map(v).contains_key(n) && n != v.last().name@ {
                assert(signature_map(v.drop_last()).contains_key(n));
                let i = choose|i: int| 0 <= i < v.drop_last().len() && v.drop_last()[i].name@ == n;
                assert(v[i].name@ == n);
            }
            if n == v.last().name@ {
                assert(v[v.len() - 1].name@ == n);
            }
            if exists|i: int| 0 <= i < v.len() && v[i].name@ == n {
                let i = choose|i: int| 0 <= i < v.len() && v[i].name@ == n;
                if i < v.len() - 1 {
                    assert(v.drop_last()[i].name@ == n);
                    assert(signature_map(v.drop_last()).contains_key(n));
                } else {
                    assert(v.last().name@ == n);
                }
            }
        }
    }
}

/// Records the type of an external name, replacing what was recorded.
#[verifier::loop_isolation(false)]
fn record_signature(sigs: &mut Vec<ExternalSignature>, name: &String, ty: &TypeRef)
    requires
        distinct_names(old(sigs)@),
    ensures
        distinct_names(final(sigs)@),
        signature_map(final(sigs)@) == signature_map(old(sigs)@).insert(name@, ty@),
{
    let ghost v = sigs@;
    proof {
        lemma_signature_map_dom(v);
    }
    let mut i: usize = 0;
    while i < sigs.len()
        invariant
            0 <= i <= sigs.len(),
            v == sigs@,
            forall|j: int| 0 <= j < i ==> sigs@[j].name@ != name@,
        decreases sigs.len() - i,
    {
        if crate::generics::str_eq(sigs[i].name.as_str(), name.as_str()) {
            let e = ExternalSignature { name: name.clone(), ty: clone_type(ty) };
            proof {
                lemma_signature_map_update(v, i as int, e);
            }
            sigs.set(i, e);
            assert forall|a: int, b: int| 0 <= a < b < sigs@.len() implies #[trigger] sigs@[a].name@
                != #[trigger] sigs@[b].name@ by {
                assert(sigs@[a].name@ == v[a].name@ && sigs@[b].name@ == v[b].name@);
            }
            return;
        }
        i += 1;
    }
    sigs.push(ExternalSignature { name: name.clone(), ty: clone_type(ty) });
    assert(sigs@.drop_last() =~= v);
    assert forall|a: int, b: int| 0 <= a < b < sigs@.len() implies #[trigger] sigs@[a].name@ != #[trigger] sigs@[b].name@ by {
        if b == v.len() {
            assert(sigs@[a] == v[a]);
        } else {
            assert(sigs@[a] == v[a] && sigs@[b] == v[b]);
        }
    }
}

/// The module part of an external name, as `module_part` states.
#[verifier::loop_isolation(false)]
fn module_part_of(name: &String) -> (r: Option<String>)
    ensures
        match r {
            Some(m) => module_part(name@) == Some(m@),
            None => module_part(name@) is None,
        },
{
    let t = crate::text::chars_of(name.as_str());
    let ghost tv = t@;
    proof {
        lemma_first_separator(tv);
    }
    let mut i: usize = 0;
    while i < t.len() && i + 1 < t.len()
        invariant
            0 <= i,
            i <= t.len(),
            tv == t@,
            tv == name@,
            forall|j: int| 0 <= j < i ==> !(#[trigger] tv[j] == ':' && tv[j + 1] == ':'),
        decreases t.len() - i,
    {
        if t[i] == ':' && t[i + 1] == ':' {
            proof {
                let k = first_separator(tv);
                if k < 0 || k > i {
                    assert(!(tv[i as int] == ':' && tv[i + 1] == ':'));
                }
                if 0 <= k < i {
                    assert(!(tv[k] == ':' && tv[k + 1] == ':'));
                }
            }
            let out = name.as_str().substring_char(0, i).to_owned();
            assert(out@ =~= tv.take(i as int));
            return Some(out);
        }
        i += 1;
    }
    proof {
        let k = first_separator(tv);
        if k >= 0 {
            assert(tv[k] == ':' && tv[k + 1] == ':');
        }
    }
    None
}

/// Collects what a file's comment directives declare, in order, as
/// `declared` states.
pub fn file_comment_directives(directives: &[CommentDirectiveKind]) -> (r: FileCommentDirectives)
    ensures
        strictly_sorted(texts(r.external_modules@)),
        strictly_sorted(texts(r.allowed_unresolved_names@)),
        strictly_sorted(texts(r.allowed_unresolved_imports@)),
        distinct_names(r.external_signatures@),
        texts(r.external_modules@).to_set() == declared(directive_views(directives@)).0,
        texts(r.allowed_unresolved_names@).to_set() == declared(directive_views(directives@)).1,
        texts(r.allowed_unresolved_imports@).to_set() == declared(directive_views(directives@)).2,
        signature_map(r.external_signatures@) == declared(directive_views(directives@)).3,
{
    let ghost dv = directive_views(directives@);
    let mut mods: Vec<String> = Vec::new();
    let mut names: Vec<String> = Vec::new();
    let mut imports: Vec<String> = Vec::new();
    let mut sigs: Vec<ExternalSignature> = Vec::new();
    let mut i: usize = 0;
    assert(texts(mods@).to_set() =~= Set::<Seq<char>>::empty());
    assert(texts(names@).to_set() =~= Set::<Seq<char>>::empty());
    assert(texts(imports@).to_set() =~= Set::<Seq<char>>::empty());
    assert(signature_map(sigs@) =~= Map::<Seq<char>, Ty>::empty());
    assert(dv.take(0) =~= Seq::<DirectiveView>::empty());
    while i < directives.len()
        invariant
            0 <= i <= directives.len(),
            dv == directive_views(directives@),
            strictly_sorted(texts(mods@)),
            strictly_sorted(texts(names@)),
            strictly_sorted(texts(imports@)),
            distinct_names(sigs@),
            texts(mods@).to_set() == declared(dv.take(i as int)).0,
            texts(names@).to_set() == declared(dv.take(i as int)).1,
            texts(imports@).to_set() == declared(dv.take(i as int)).2,
            signature_map(sigs@) == declared(dv.take(i as int)).3,
        decreases directives.len() - i,
    {
        proof {
            assert(dv.take(i + 1).drop_last() =~= dv.take(i as int));
            assert(dv.take(i + 1).last() == dv[i as int]);
        }
        let ghost m0 = texts(mods@);
        let ghost n0 = texts(names@);
        let ghost p0 = texts(imports@);
        match &directives[i] {
            CommentDirectiveKind::Extern { name, ty } => {
                let part = module_part_of(name);
                if let Some(m) = part {
                    let ghost mv = m@;
                    crate::text::insert_sorted_unique(&mut mods, m);
                    assert(texts(mods@).to_set() =~= m0.to_set().insert(mv));
                } else {
                    assert(texts(mods@).to_set() =~= m0.to_set());
                }
                crate::text::insert_sorted_unique(&mut names, name.clone());
                assert(texts(names@).to_set() =~= n0.to_set().insert(name@));
                assert(texts(imports@).to_set() =~= p0.to_set());
                if let Some(t) = ty {
                    record_signature(&mut sigs, name, t);
                }
            },
            CommentDirectiveKind::Module { name } => {
                crate::text::insert_sorted_unique(&mut mods, name.clone());
                assert(texts(mods@).to_set() =~= m0.to_set().insert(name@));
            },
            CommentDirectiveKind::AllowUnresolved { name } => {
                crate::text::insert_sorted_unique(&mut names, name.clone());
                assert(texts(names@).to_set() =~= n0.to_set().insert(name@));
            },
            CommentDirectiveKind::AllowUnresolvedImport { name } => {
                crate::text::insert_sorted_unique(&mut imports, name.clone());
                assert(texts(imports@).to_set() =~= p0.to_set().insert(name@));
            },
            CommentDirectiveKind::FormatSkip => {},
        }
        i += 1;
    }
    assert(dv.take(i as int) =~= dv);
    FileCommentDirectives {
        external_modules: mods,
        allowed_unresolved_names: names,
        allowed_unresolved_imports: imports,
        external_signatures: sigs,
    }
}

} // verus!
