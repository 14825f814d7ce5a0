//! Completions for the members of an imported module path: the exports of
//! the linked module and the modules it imports in turn, host module
//! members, the names that comment directives declare, and the members of
//! the automatic `global` module. Completions are kept by name, each name
//! once, and come out in ascending order of name.

use vstd::prelude::*;

use crate::directives::{first_separator, lemma_first_separator, ExternalSignature, FileCommentDirectives};
use crate::generics::{contains_name, name_views, str_eq};
use crate::host::{
    host_function_annotation, host_function_docs, lemma_merged_docs, merged_docs, overload_signatures, HostConstant,
    HostFunction, HostModule,
};
use crate::lattice::opt_ty;
use crate::text::{chars_lt, chars_of, chars_start, has_prefix, lemma_chars_lt_asymmetric, lemma_chars_lt_irreflexive, lemma_chars_lt_total, lemma_chars_lt_transitive, str_less, join_strings, join_with, parse_static_import_module_name, static_import_module_name};
use crate::ty::{clone_type, Ty, TypeRef};
use crate::workspace::FileId;

verus! {

/// The kinds of symbol a completion can name.
#[derive(Debug, Clone, Copy, PartialEq, Eq, Structural)]
pub enum SymbolKind {
    Variable,
    Parameter,
    Constant,
    Function,
    ImportAlias,
    ExportAlias,
}

/// A completion offered for a member of an imported module path.
pub struct ImportedModuleCompletion {
    pub name: String,
    pub kind: SymbolKind,
    pub origin: Option<String>,
    pub file_id: Option<FileId>,
    pub symbol: Option<u32>,
    pub annotation: Option<TypeRef>,
    pub docs: Option<String>,
}

/// The model of a completion, without its name.
pub struct CompletionView {
    pub kind: SymbolKind,
    pub origin: Option<Seq<char>>,
    pub file_id: Option<FileId>,
    pub symbol: Option<u32>,
    pub annotation: Option<Ty>,
    pub docs: Option<Seq<char>>,
}

/// The text of an optional string.
pub open spec fn opt_text(o: Option<String>) -> Option<Seq<char>> {
    match o {
        Some(s) => Some(s@),
        None => None,
    }
}

/// The model of a completion.
pub open spec fn completion_view(c: ImportedModuleCompletion) -> CompletionView {
    CompletionView {
        kind: c.kind,
        origin: opt_text(c.origin),
        file_id: c.file_id,
        symbol: c.symbol,
        annotation: opt_ty(c.annotation),
        docs: opt_text(c.docs),
    }
}

/// Whether no name is completed twice.
pub open spec fn names_distinct(t: Seq<ImportedModuleCompletion>) -> bool {
    forall|i: int, j: int| 0 <= i < j < t.len() ==> (#[trigger] t[i]).name@ != (#[trigger] t[j]).name@
}

/// Whether name `k` is completed.
pub open spec fn has_name(t: Seq<ImportedModuleCompletion>, k: Seq<char>) -> bool {
    exists|i: int| 0 <= i < t.len() && (#[trigger] t[i]).name@ == k
}

/// The completions as a map from name to completion.
pub open spec fn completion_map(t: Seq<ImportedModuleCompletion>) -> Map<Seq<char>, CompletionView> {
    Map::new(
        |k: Seq<char>| has_name(t, k),
        |k: Seq<char>| completion_view(t[choose|i: int| 0 <= i < t.len() && (#[trigger] t[i]).name@ == k]),
    )
}

/// `m` with `v` for name `k`, unless `m` already has `k`.
pub open spec fn or_insert(
    m: Map<Seq<char>, CompletionView>,
    k: Seq<char>,
    v: CompletionView,
) -> Map<Seq<char>, CompletionView> {
    if m.contains_key(k) {
        m
    } else {
        m.insert(k, v)
    }
}

/// `m` with each entry added in turn where its name is not there yet.
pub open spec fn or_insert_all(
    m: Map<Seq<char>, CompletionView>,
    es: Seq<(Seq<char>, CompletionView)>,
) -> Map<Seq<char>, CompletionView>
    decreases es.len(),
{
    if es.len() == 0 {
        m
    } else {
        or_insert(or_insert_all(m, es.drop_last()), es.last().0, es.last().1)
    }
}

/// `m` with each entry put in turn, replacing what its name had.
pub open spec fn insert_all(
    m: Map<Seq<char>, CompletionView>,
    es: Seq<(Seq<char>, CompletionView)>,
) -> Map<Seq<char>, CompletionView>
    decreases es.len(),
{
    if es.len() == 0 {
        m
    } else {
        insert_all(m, es.drop_last()).insert(es.last().0, es.last().1)
    }
}

proof fn lemma_completion_map_at(t: Seq<ImportedModuleCompletion>, i: int)
    requires
        names_distinct(t),
        0 <= i < t.len(),
    ensures
        completion_map(t).contains_key(t[i].name@),
        completion_map(t)[t[i].name@] == completion_view(t[i]),
{
    let k = t[i].name@;
    assert(has_name(t, k));
    let c = choose|c: int| 0 <= c < t.len() && (#[trigger] t[c]).name@ == k;
    if c < i {
        assert(t[c].name@ != t[i].name@);
    } else if c > i {
        assert(t[i].name@ != t[c].name@);
    }
}

fn find_completion(t: &Vec<ImportedModuleCompletion>, name: &str) -> (r: Option<usize>)
    ensures
        match r {
            Some(i) => i < t@.len() && t@[i as int].name@ == name@,
            None => !has_name(t@, name@),
        },
{
    let mut i: usize = 0;
    while i < t.len()
        invariant
            0 <= i <= t.len(),
            forall|m: int| 0 <= m < i ==> (#[trigger] t@[m]).name@ != name@,
        decreases t.len() - i,
    {
        if str_eq(t[i].name.as_str(), name) {
            return Some(i);
        }
        i += 1;
    }
    None
}

/// Puts completion `c`, replacing the completion of its name if there is one.
fn put_completion(t: &mut Vec<ImportedModuleCompletion>, c: ImportedModuleCompletion)
    requires
        names_distinct(old(t)@),
    ensures
        names_distinct(final(t)@),
        completion_map(final(t)@) == completion_map(old(t)@).insert(c.name@, completion_view(c)),
{
    let ghost before = t@;
    let ghost k = c.name@;
    let ghost v = completion_view(c);
    let found = find_completion(t, c.name.as_str());
    match found {
        Some(idx) => {
            t.set(idx, c);
            proof {
                let w = t@;
                assert(w == before.update(idx as int, c));
                assert forall|a: int, b: int| 0 <= a < b < w.len() implies (#[trigger] w[a]).name@ != (#[trigger] w[b]).name@ by {
                    assert(before[a].name@ != before[b].name@);
                }
                let m = completion_map(before).insert(k, v);
                assert forall|g: Seq<char>| #[trigger] completion_map(w).contains_key(g) == m.contains_key(g) by {
                    if has_name(w, g) {
                        let q = choose|q: int| 0 <= q < w.len() && (#[trigger] w[q]).name@ == g;
                        if q != idx {
                            assert(w[q] == before[q]);
                        }
                    }
                    if has_name(before, g) {
                        let q = choose|q: int| 0 <= q < before.len() && (#[trigger] before[q]).name@ == g;
                        assert(w[q].name@ == before[q].name@);
                    }
                    if g == k {
                        assert(w[idx as int] == c);
                    }
                }
                assert forall|g: Seq<char>| #[trigger] completion_map(w).contains_key(g) implies completion_map(w)[g] == m[g] by {
                    let q = choose|q: int| 0 <= q < w.len() && (#[trigger] w[q]).name@ == g;
                    lemma_completion_map_at(w, q);
                    if q != idx {
                        assert(w[q] == before[q]);
                        lemma_completion_map_at(before, q);
                        assert(before[q].name@ != before[idx as int].name@);
                    }
                }
                assert(completion_map(w) =~= m);
            }
        },
        None => {
            t.push(c);
            proof {
                let w = t@;
                assert(w == before.push(c));
                assert forall|a: int, b: int| 0 <= a < b < w.len() implies (#[trigger] w[a]).name@ != (#[trigger] w[b]).name@ by {
                    if b == before.len() {
                        assert(w[a] == before[a]);
                    } else {
                        assert(w[a] == before[a] && w[b] == before[b]);
                    }
                }
                let m = completion_map(before).insert(k, v);
                assert forall|g: Seq<char>| #[trigger] completion_map(w).contains_key(g) == m.contains_key(g) by {
                    if has_name(w, g) {
                        let q = choose|q: int| 0 <= q < w.len() && (#[trigger] w[q]).name@ == g;
                        if q < before.len() {
                            assert(w[q] == before[q]);
                        }
                    }
                    if has_name(before, g) {
                        let q = choose|q: int| 0 <= q < before.len() && (#[trigger] before[q]).name@ == g;
                        assert(w[q] == before[q]);
                    }
                    if g == k {
                        assert(w[before.len() as int] == c);
                    }
                }
                assert forall|g: Seq<char>| #[trigger] completion_map(w).contains_key(g) implies completion_map(w)[g] == m[g] by {
                    let q = choose|q: int| 0 <= q < w.len() && (#[trigger] w[q]).name@ == g;
                    lemma_completion_map_at(w, q);
                    if q < before.len() {
                        assert(w[q] == before[q]);
                        lemma_completion_map_at(before, q);
                    }
                }
                assert(completion_map(w) =~= m);
            }
        },
    }
}

/// Puts completion `c` unless its name is completed already.
fn put_completion_if_absent(t: &mut Vec<ImportedModuleCompletion>, c: ImportedModuleCompletion)
    requires
        names_distinct(old(t)@),
    ensures
        names_distinct(final(t)@),
        completion_map(final(t)@) == or_insert(completion_map(old(t)@), c.name@, completion_view(c)),
{
    match find_completion(t, c.name.as_str()) {
        Some(idx) => {
            proof {
                lemma_completion_map_at(t@, idx as int);
            }
        },
        None => {
            put_completion(t, c);
        },
    }
}

/// The annotation a host function's completion carries: its signature as a
/// function type when exactly one overload has a signature.
pub open spec fn host_annotation(f: HostFunction) -> Option<Ty> {
    let sigs = overload_signatures(f.overloads@);
    if sigs.len() == 1 {
        Some(Ty::Function(sigs[0].0, Box::new(sigs[0].1)))
    } else {
        None
    }
}

/// The completion entry of a host module's function.
pub open spec fn function_entry(f: HostFunction, origin: Seq<char>) -> (Seq<char>, CompletionView) {
    (
        f.name@,
        CompletionView {
            kind: SymbolKind::Function,
            origin: Some(origin),
            file_id: None,
            symbol: None,
            annotation: host_annotation(f),
            docs: merged_docs(f.overloads@),
        },
    )
}

/// The completion entry of a host module's constant.
pub open spec fn constant_entry(c: HostConstant, origin: Seq<char>) -> (Seq<char>, CompletionView) {
    (
        c.name@,
        CompletionView {
            kind: SymbolKind::Constant,
            origin: Some(origin),
            file_id: None,
            symbol: None,
            annotation: opt_ty(c.ty),
            docs: opt_text(c.docs),
        },
    )
}

/// Whether module `i` is the first with name `name`.
pub open spec fn is_first_module(ms: Seq<HostModule>, name: Seq<char>, i: int) -> bool {
    &&& 0 <= i < ms.len()
    &&& ms[i].name@ == name
    &&& forall|j: int| 0 <= j < i ==> (#[trigger] ms[j]).name@ != name
}

/// The origin shown for the members of a host module.
pub open spec fn member_origin(prefix: Option<Seq<char>>, module_name: Seq<char>) -> Seq<char> {
    match prefix {
        Some(p) => p + "::"@ + module_name,
        None => module_name,
    }
}

/// The completions after adding the members of the first host module named
/// `name`, functions first, each name kept where it is there already.
pub open spec fn host_members_after(
    m: Map<Seq<char>, CompletionView>,
    ms: Seq<HostModule>,
    name: Seq<char>,
    prefix: Option<Seq<char>>,
) -> Map<Seq<char>, CompletionView> {
    if exists|i: int| is_first_module(ms, name, i) {
        let i = choose|i: int| is_first_module(ms, name, i);
        let o = member_origin(prefix, name);
        or_insert_all(
            or_insert_all(m, Seq::new(ms[i].functions@.len(), |j: int| function_entry(ms[i].functions@[j], o))),
            Seq::new(ms[i].constants@.len(), |j: int| constant_entry(ms[i].constants@[j], o)),
        )
    } else {
        m
    }
}

fn clone_text(o: &Option<String>) -> (r: Option<String>)
    ensures
        opt_text(r) == opt_text(*o),
{
    match o {
        Some(s) => Some(s.clone()),
        None => None,
    }
}

fn clone_opt_type(o: &Option<TypeRef>) -> (r: Option<TypeRef>)
    ensures
        opt_ty(r) == opt_ty(*o),
{
    match o {
        Some(t) => Some(clone_type(t)),
        None => None,
    }
}

fn find_module(modules: &[HostModule], name: &str) -> (r: Option<usize>)
    ensures
        match r {
            Some(i) => is_first_module(modules@, name@, i as int),
            None => forall|j: int| 0 <= j < modules@.len() ==> (#[trigger] modules@[j]).name@ != name@,
        },
{
    let mut i: usize = 0;
    while i < modules.len()
        invariant
            0 <= i <= modules.len(),
            forall|j: int| 0 <= j < i ==> (#[trigger] modules@[j]).name@ != name@,
        decreases modules.len() - i,
    {
        if str_eq(modules[i].name.as_str(), name) {
            return Some(i);
        }
        i += 1;
    }
    None
}

/// Adds the functions, then the constants, of the first host module named
/// `module_name`, shown with the module name as origin, behind
/// `origin_prefix` where there is one; a name already completed keeps its
/// completion.
pub fn collect_host_module_members(
    modules: &[HostModule],
    module_name: &str,
    origin_prefix: Option<&str>,
    completions: &mut Vec<ImportedModuleCompletion>,
)
    requires
        names_distinct(old(completions)@),
    ensures
        names_distinct(final(completions)@),
        completion_map(final(completions)@) == host_members_after(
            completion_map(old(completions)@),
            modules@,
            module_name@,
            match origin_prefix {
                Some(p) => Some(p@),
                None => None,
            },
        ),
{
    let ghost m0 = completion_map(completions@);
    let mi = match find_module(modules, module_name) {
        Some(mi) => mi,
        None => {
            proof {
                assert(!exists|i: int| is_first_module(modules@, module_name@, i));
            }
            return;
        },
    };
    let module = &modules[mi];
    let ghost prefix: Option<Seq<char>> = match origin_prefix {
        Some(p) => Some(p@),
        None => None,
    };
    proof {
        assert(is_first_module(modules@, module_name@, mi as int));
        let c = choose|i: int| is_first_module(modules@, module_name@, i);
        if c < mi {
            assert(modules@[c].name@ != module_name@);
        } else if c > mi {
            assert(modules@[mi as int].name@ != module_name@);
        }
    }
    let origin: String = match origin_prefix {
        Some(p) => {
            let mut o = p.to_owned();
            o.append("::");
            o.append(module_name);
            o
        },
        None => module_name.to_owned(),
    };
    assert(origin@ == member_origin(prefix, module_name@));
    let ghost fes = Seq::new(module.functions@.len(), |j: int| function_entry(module.functions@[j], origin@));
    let ghost ces = Seq::new(module.constants@.len(), |j: int| constant_entry(module.constants@[j], origin@));
    let mut i: usize = 0;
    proof {
        assert(fes.take(0) =~= Seq::<(Seq<char>, CompletionView)>::empty());
    }
    while i < module.functions.len()
        invariant
            0 <= i <= module.functions.len(),
            fes == Seq::new(module.functions@.len(), |j: int| function_entry(module.functions@[j], origin@)),
            names_distinct(completions@),
            completion_map(completions@) == or_insert_all(m0, fes.take(i as int)),
        decreases module.functions.len() - i,
    {
        let f = &module.functions[i];
        let annotation = host_function_annotation(f);
        let docs = host_function_docs(f);
        proof {
            lemma_merged_docs(f.overloads@, docs);
        }
        let c = ImportedModuleCompletion {
            name: f.name.clone(),
            kind: SymbolKind::Function,
            origin: Some(origin.clone()),
            file_id: None,
            symbol: None,
            annotation,
            docs,
        };
        assert(completion_view(c) == fes[i as int].1);
        put_completion_if_absent(completions, c);
        proof {
            assert(fes.take(i + 1).drop_last() =~= fes.take(i as int));
        }
        i += 1;
    }
    proof {
        assert(fes.take(i as int) =~= fes);
    }
    let ghost m1 = completion_map(completions@);
    let mut i: usize = 0;
    proof {
        assert(ces.take(0) =~= Seq::<(Seq<char>, CompletionView)>::empty());
    }
    while i < module.constants.len()
        invariant
            0 <= i <= module.constants.len(),
            ces == Seq::new(module.constants@.len(), |j: int| constant_entry(module.constants@[j], origin@)),
            names_distinct(completions@),
            completion_map(completions@) == or_insert_all(m1, ces.take(i as int)),
        decreases module.constants.len() - i,
    {
        let k = &module.constants[i];
        let c = ImportedModuleCompletion {
            name: k.name.clone(),
            kind: SymbolKind::Constant,
            origin: Some(origin.clone()),
            file_id: None,
            symbol: None,
            annotation: clone_opt_type(&k.ty),
            docs: clone_text(&k.docs),
        };
        assert(completion_view(c) == ces[i as int].1);
        put_completion_if_absent(completions, c);
        proof {
            assert(ces.take(i + 1).drop_last() =~= ces.take(i as int));
        }
        i += 1;
    }
    proof {
        assert(ces.take(i as int) =~= ces);
    }
}

/// The completion entries of the host modules themselves, offered under
/// the automatic `global` module.
pub open spec fn module_root_entries(ms: Seq<HostModule>) -> Seq<(Seq<char>, CompletionView)> {
    Seq::new(
        ms.len(),
        |i: int|
            (
                ms[i].name@,
                CompletionView {
                    kind: SymbolKind::ImportAlias,
                    origin: Some("global"@),
                    file_id: None,
                    symbol: None,
                    annotation: None,
                    docs: opt_text(ms[i].docs),
                },
            ),
    )
}

/// Adds each host module as a member of the automatic `global` module; a
/// name already completed keeps its completion.
pub fn collect_global_host_module_roots(modules: &[HostModule], completions: &mut Vec<ImportedModuleCompletion>)
    requires
        names_distinct(old(completions)@),
    ensures
        names_distinct(final(completions)@),
        completion_map(final(completions)@) == or_insert_all(completion_map(old(completions)@), module_root_entries(modules@)),
{
    let ghost m0 = completion_map(completions@);
    let ghost es = module_root_entries(modules@);
    let mut i: usize = 0;
    proof {
        assert(es.take(0) =~= Seq::<(Seq<char>, CompletionView)>::empty());
    }
    while i < modules.len()
        invariant
            0 <= i <= modules.len(),
            es == module_root_entries(modules@),
            names_distinct(completions@),
            completion_map(completions@) == or_insert_all(m0, es.take(i as int)),
        decreases modules.len() - i,
    {
        let c = ImportedModuleCompletion {
            name: modules[i].name.clone(),
            kind: SymbolKind::ImportAlias,
            origin: Some("global".to_owned()),
            file_id: None,
            symbol: None,
            annotation: None,
            docs: clone_text(&modules[i].docs),
        };
        assert(completion_view(c) == es[i as int].1);
        put_completion_if_absent(completions, c);
        proof {
            assert(es.take(i + 1).drop_last() =~= es.take(i as int));
        }
        i += 1;
    }
    proof {
        assert(es.take(i as int) =~= es);
    }
}

/// A symbol of the file being completed in, as completion reads it: its
/// kind, whether the file scope declares it, its inferred type and docs.
pub struct FileSymbol {
    pub symbol: u32,
    pub name: String,
    pub kind: SymbolKind,
    pub file_scope: bool,
    pub annotation: Option<TypeRef>,
    pub docs: Option<String>,
}

/// The completions after adding, in order, the constants that the file
/// scope declares, each shown as a member of the automatic `global` module.
pub open spec fn file_constants_after(
    m: Map<Seq<char>, CompletionView>,
    file_id: FileId,
    syms: Seq<FileSymbol>,
) -> Map<Seq<char>, CompletionView>
    decreases syms.len(),
{
    if syms.len() == 0 {
        m
    } else {
        let rest = file_constants_after(m, file_id, syms.drop_last());
        let s = syms.last();
        if s.kind == SymbolKind::Constant && s.file_scope {
            or_insert(
                rest,
                s.name@,
                CompletionView {
                    kind: SymbolKind::Constant,
                    origin: Some("global"@),
                    file_id: Some(file_id),
                    symbol: Some(s.symbol),
                    annotation: opt_ty(s.annotation),
                    docs: opt_text(s.docs),
                },
            )
        } else {
            rest
        }
    }
}

/// Adds the file-scope constants of the file as members of the automatic
/// `global` module; a name already completed keeps its completion.
pub fn collect_file_global_constant_completions(
    file_id: FileId,
    symbols: &[FileSymbol],
    completions: &mut Vec<ImportedModuleCompletion>,
)
    requires
        names_distinct(old(completions)@),
    ensures
        names_distinct(final(completions)@),
        completion_map(final(completions)@) == file_constants_after(completion_map(old(completions)@), file_id, symbols@),
{
    let ghost m0 = completion_map(completions@);
    let mut i: usize = 0;
    proof {
        assert(symbols@.take(0) =~= Seq::<FileSymbol>::empty());
    }
    while i < symbols.len()
        invariant
            0 <= i <= symbols.len(),
            names_distinct(completions@),
            completion_map(completions@) == file_constants_after(m0, file_id, symbols@.take(i as int)),
        decreases symbols.len() - i,
    {
        let s = &symbols[i];
        proof {
            assert(symbols@.take(i + 1).drop_last() =~= symbols@.take(i as int));
            assert(symbols@.take(i + 1).last() == symbols@[i as int]);
        }
        if s.kind == SymbolKind::Constant && s.file_scope {
            let c = ImportedModuleCompletion {
                name: s.name.clone(),
                kind: SymbolKind::Constant,
                origin: Some("global".to_owned()),
                file_id: Some(file_id),
                symbol: Some(s.symbol),
                annotation: clone_opt_type(&s.annotation),
                docs: clone_text(&s.docs),
            };
            put_completion_if_absent(completions, c);
        }
        i += 1;
    }
    proof {
        assert(symbols@.take(i as int) =~= symbols@);
    }
}

/// The completions after adding the members of the automatic `global`
/// module at `path`, whose first segment names that module: at the module
/// itself the file's constants and the host modules; one level below, the
/// members of the host module named there.
pub open spec fn automatic_global_after(
    m: Map<Seq<char>, CompletionView>,
    file_id: FileId,
    syms: Seq<FileSymbol>,
    ms: Seq<HostModule>,
    path: Seq<Seq<char>>,
) -> Map<Seq<char>, CompletionView> {
    if path.len() == 1 {
        or_insert_all(file_constants_after(m, file_id, syms), module_root_entries(ms))
    } else if path.len() == 2 {
        host_members_after(m, ms, path[1], Some("global"@))
    } else {
        m
    }
}

/// Adds the members of the automatic `global` module at `import_path`, as
/// `automatic_global_after` states.
pub fn collect_automatic_global_module_completions(
    file_id: FileId,
    symbols: &[FileSymbol],
    modules: &[HostModule],
    import_path: &[String],
    completions: &mut Vec<ImportedModuleCompletion>,
)
    requires
        names_distinct(old(completions)@),
    ensures
        names_distinct(final(completions)@),
        completion_map(final(completions)@) == automatic_global_after(
            completion_map(old(completions)@),
            file_id,
            symbols@,
            modules@,
            name_views(import_path@),
        ),
{
    if import_path.len() == 1 {
        collect_file_global_constant_completions(file_id, symbols, completions);
        collect_global_host_module_roots(modules, completions);
    } else if import_path.len() == 2 {
        collect_host_module_members(modules, import_path[1].as_str(), Some("global"), completions);
    }
}

/// An import of the file being completed in: the name of its alias, if it
/// has one, and the text of its module expression, if any.
pub struct AliasedImport {
    pub alias: Option<String>,
    pub module_text: Option<String>,
}

/// Whether import `i` is the first whose alias is named `alias`.
pub open spec fn is_first_import(imps: Seq<AliasedImport>, alias: Seq<char>, i: int) -> bool {
    &&& 0 <= i < imps.len()
    &&& opt_text(imps[i].alias) == Some(alias)
    &&& forall|j: int| 0 <= j < i ==> opt_text((#[trigger] imps[j]).alias) != Some(alias)
}

/// The module that the first import aliased `alias` names by a static
/// string, if there is such an import and it does.
pub open spec fn aliased_module(imps: Seq<AliasedImport>, alias: Seq<char>) -> Option<Seq<char>> {
    if exists|i: int| is_first_import(imps, alias, i) {
        let i = choose|i: int| is_first_import(imps, alias, i);
        match imps[i].module_text {
            Some(t) => static_import_module_name(t@),
            None => None,
        }
    } else {
        None
    }
}

/// The static module name of the first import aliased `alias`, as
/// `aliased_module` states.
fn aliased_module_name(imports: &[AliasedImport], alias: &str) -> (r: Option<String>)
    ensures
        opt_text(r) == aliased_module(imports@, alias@),
{
    let mut i: usize = 0;
    while i < imports.len()
        invariant
            0 <= i <= imports.len(),
            forall|j: int| 0 <= j < i ==> opt_text((#[trigger] imports@[j]).alias) != Some(alias@),
        decreases imports.len() - i,
    {
        let matches = match &imports[i].alias {
            Some(a) => str_eq(a.as_str(), alias),
            None => false,
        };
        if matches {
            proof {
                assert(is_first_import(imports@, alias@, i as int));
                let c = choose|c: int| is_first_import(imports@, alias@, c);
                if c < i {
                    assert(opt_text(imports@[c].alias) != Some(alias@));
                } else if c > i {
                    assert(opt_text(imports@[i as int].alias) != Some(alias@));
                }
            }
            return match &imports[i].module_text {
                Some(t) => parse_static_import_module_name(t.as_str()),
                None => None,
            };
        }
        i += 1;
    }
    proof {
        assert(!exists|c: int| is_first_import(imports@, alias@, c));
    }
    None
}

/// The completions after adding the members of the host module that a
/// one-segment path names through an import alias.
pub open spec fn host_completions_after(
    m: Map<Seq<char>, CompletionView>,
    imps: Seq<AliasedImport>,
    ms: Seq<HostModule>,
    path: Seq<Seq<char>>,
) -> Map<Seq<char>, CompletionView> {
    if path.len() == 1 {
        match aliased_module(imps, path[0]) {
            Some(name) => host_members_after(m, ms, name, None),
            None => m,
        }
    } else {
        m
    }
}

/// Adds, for a one-segment path naming an import alias, the members of the
/// host module that the import names, as `host_completions_after` states.
pub fn collect_host_module_completions(
    imports: &[AliasedImport],
    modules: &[HostModule],
    import_path: &[String],
    completions: &mut Vec<ImportedModuleCompletion>,
)
    requires
        names_distinct(old(completions)@),
    ensures
        names_distinct(final(completions)@),
        completion_map(final(completions)@) == host_completions_after(
            completion_map(old(completions)@),
            imports@,
            modules@,
            name_views(import_path@),
        ),
{
    if import_path.len() != 1 {
        return;
    }
    if let Some(module_name) = aliased_module_name(imports, import_path[0].as_str()) {
        collect_host_module_members(modules, module_name.as_str(), None, completions);
    }
}

/// The completion entry that an external name gives below module path
/// `base`: the segment that follows `base::`, an import alias where more
/// segments follow, else a function or constant with the declared type.
pub open spec fn inline_entry(name: Seq<char>, ty: Ty, base: Seq<char>) -> Option<(Seq<char>, CompletionView)> {
    let prefix = base + "::"@;
    if has_prefix(name, prefix) {
        let rest = name.skip(prefix.len() as int);
        let sep = first_separator(rest);
        let more = sep >= 0;
        Some(
            (
                if more {
                    rest.take(sep)
                } else {
                    rest
                },
                CompletionView {
                    kind: if more {
                        SymbolKind::ImportAlias
                    } else if ty is Function {
                        SymbolKind::Function
                    } else {
                        SymbolKind::Constant
                    },
                    origin: Some(base),
                    file_id: None,
                    symbol: None,
                    annotation: if more {
                        None
                    } else {
                        Some(ty)
                    },
                    docs: None,
                },
            ),
        )
    } else {
        None
    }
}

/// The completions after adding, in order, the entries that the external
/// signatures give below `base`.
pub open spec fn inline_after(
    m: Map<Seq<char>, CompletionView>,
    sigs: Seq<ExternalSignature>,
    base: Seq<char>,
) -> Map<Seq<char>, CompletionView>
    decreases sigs.len(),
{
    if sigs.len() == 0 {
        m
    } else {
        let rest = inline_after(m, sigs.drop_last(), base);
        match inline_entry(sigs.last().name@, sigs.last().ty@, base) {
            Some(e) => or_insert(rest, e.0, e.1),
            None => rest,
        }
    }
}

/// The completions after adding what the comment directives declare below
/// a path whose first segment aliases an import of a module that the
/// directives declare external.
pub open spec fn inline_completions_after(
    m: Map<Seq<char>, CompletionView>,
    imps: Seq<AliasedImport>,
    directives: Option<&FileCommentDirectives>,
    path: Seq<Seq<char>>,
) -> Map<Seq<char>, CompletionView> {
    if path.len() == 0 {
        m
    } else {
        match (directives, aliased_module(imps, path[0])) {
            (Some(d), Some(name)) => if name_views(d.external_modules@).contains(name) {
                inline_after(m, d.external_signatures@, join_with(seq![name] + path.skip(1), "::"@))
            } else {
                m
            },
            _ => m,
        }
    }
}

/// The text before the first `::` of `t`, and whether there is one.
#[verifier::loop_isolation(false)]
fn first_segment(t: &str) -> (r: (String, bool))
    ensures
        r.1 == (first_separator(t@) >= 0),
        r.0@ == (if first_separator(t@) >= 0 {
            t@.take(first_separator(t@))
        } else {
            t@
        }),
{
    let c = chars_of(t);
    let ghost tv = c@;
    proof {
        lemma_first_separator(tv);
    }
    let mut i: usize = 0;
    while i < c.len() && i + 1 < c.len()
        invariant
            i <= c.len(),
            tv == c@,
            tv == t@,
            forall|j: int| 0 <= j < i ==> !(#[trigger] tv[j] == ':' && tv[j + 1] == ':'),
        decreases c.len() - i,
    {
        if c[i] == ':' && c[i + 1] == ':' {
            proof {
                let k = first_separator(tv);
                if k < 0 || k > i {
                    assert(!(tv[i as int] == ':' && tv[i + 1] == ':'));
                }
                if 0 <= k < i {
                    assert(!(tv[k] == ':' && tv[k + 1] == ':'));
                }
            }
            let out = t.substring_char(0, i).to_owned();
            assert(out@ =~= tv.take(i as int));
            return (out, true);
        }
        i += 1;
    }
    proof {
        let k = first_separator(tv);
        if k >= 0 {
            assert(tv[k] == ':' && tv[k + 1] == ':');
        }
    }
    (t.to_owned(), false)
}

/// Adds the completions that the external signatures give below `base`, as
/// `inline_after` states.
fn collect_inline_signatures(
    sigs: &Vec<ExternalSignature>,
    base: &String,
    completions: &mut Vec<ImportedModuleCompletion>,
)
    requires
        names_distinct(old(completions)@),
    ensures
        names_distinct(final(completions)@),
        completion_map(final(completions)@) == inline_after(completion_map(old(completions)@), sigs@, base@),
{
    let ghost m0 = completion_map(completions@);
    let mut prefix = base.clone();
    prefix.append("::");
    let p = chars_of(prefix.as_str());
    let mut i: usize = 0;
    proof {
        assert(sigs@.take(0) =~= Seq::<ExternalSignature>::empty());
    }
    while i < sigs.len()
        invariant
            0 <= i <= sigs.len(),
            p@ == base@ + "::"@,
            names_distinct(completions@),
            completion_map(completions@) == inline_after(m0, sigs@.take(i as int), base@),
        decreases sigs.len() - i,
    {
        let sig = &sigs[i];
        proof {
            assert(sigs@.take(i + 1).drop_last() =~= sigs@.take(i as int));
            assert(sigs@.take(i + 1).last() == sigs@[i as int]);
        }
        let t = chars_of(sig.name.as_str());
        if chars_start(&t, &p) {
            let rest = sig.name.as_str().substring_char(p.len(), t.len());
            assert(rest@ =~= sig.name@.skip(p@.len() as int));
            let (next, more) = first_segment(rest);
            let is_function = match &sig.ty {
                TypeRef::Function(_) => true,
                _ => false,
            };
            let c = ImportedModuleCompletion {
                name: next,
                kind: if more {
                    SymbolKind::ImportAlias
                } else if is_function {
                    SymbolKind::Function
                } else {
                    SymbolKind::Constant
                },
                origin: Some(base.clone()),
                file_id: None,
                symbol: None,
                annotation: if more {
                    None
                } else {
                    Some(clone_type(&sig.ty))
                },
                docs: None,
            };
            proof {
                let e = inline_entry(sig.name@, sig.ty@, base@);
                assert(e is Some);
                assert(is_function == (sig.ty@ is Function));
                let entry = e.unwrap();
                assert(c.name@ == entry.0);
                assert(completion_view(c) == entry.1);
            }
            put_completion_if_absent(completions, c);
        }
        i += 1;
    }
    proof {
        assert(sigs@.take(i as int) =~= sigs@);
    }
}

/// Adds what the comment directives declare below `import_path`, whose
/// first segment aliases an import of a module the directives declare
/// external, as `inline_completions_after` states.
pub fn collect_inline_module_completions(
    imports: &[AliasedImport],
    directives: Option<&FileCommentDirectives>,
    import_path: &[String],
    completions: &mut Vec<ImportedModuleCompletion>,
)
    requires
        names_distinct(old(completions)@),
    ensures
        names_distinct(final(completions)@),
        completion_map(final(completions)@) == inline_completions_after(
            completion_map(old(completions)@),
            imports@,
            directives,
            name_views(import_path@),
        ),
{
    if import_path.len() == 0 {
        return;
    }
    let d = match directives {
        Some(d) => d,
        None => return,
    };
    let module_name = match aliased_module_name(imports, import_path[0].as_str()) {
        Some(n) => n,
        None => return,
    };
    if !contains_name(d.external_modules.as_slice(), module_name.as_str()) {
        return;
    }
    let mut parts: Vec<String> = Vec::new();
    parts.push(module_name);
    let mut i: usize = 1;
    while i < import_path.len()
        invariant
            1 <= i <= import_path.len(),
            parts@.len() == i,
            parts@[0]@ == module_name@,
            forall|j: int| 1 <= j < i ==> (#[trigger] parts@[j])@ == import_path@[j]@,
        decreases import_path.len() - i,
    {
        parts.push(import_path[i].clone());
        i += 1;
    }
    let base = join_strings(parts.as_slice(), "::");
    proof {
        let pv = name_views(import_path@);
        assert(Seq::new(parts@.len(), |j: int| parts@[j]@) =~= seq![module_name@] + pv.skip(1));
    }
    collect_inline_signatures(&d.external_signatures, &base, completions);
}

/// The symbol an export stands for: that of its alias, else of its target.
pub struct ExportIdentity {
    pub kind: SymbolKind,
    pub symbol: u32,
}

/// An export of a linked module, as completion reads it: the file that
/// makes it, the name it exports, the symbol it stands for, and that
/// symbol's inferred (else declared) type and docs.
pub struct ExportFacts {
    pub file_id: FileId,
    pub exported_name: Option<String>,
    pub identity: Option<ExportIdentity>,
    pub annotation: Option<TypeRef>,
    pub docs: Option<String>,
}

/// A linked import of a file: the index of the import it links, the name
/// of the linked module, the file that provides it, and that module's
/// exports.
pub struct LinkedImportFacts {
    pub import: usize,
    pub module_name: String,
    pub provider_file_id: FileId,
    pub exports: Vec<ExportFacts>,
}

/// A file as import completion reads it: its imports and its linked
/// imports.
pub struct ImportingFile {
    pub file_id: FileId,
    pub imports: Vec<AliasedImport>,
    pub linked_imports: Vec<LinkedImportFacts>,
}

/// Whether each linked import links an import of its file.
pub open spec fn files_wf(files: Seq<ImportingFile>) -> bool {
    forall|i: int, j: int|
        0 <= i < files.len() && 0 <= j < files[i].linked_imports@.len() ==> (#[trigger] files[i].linked_imports@[j]).import
            < files[i].imports@.len()
}

/// Whether file `i` is the first with id `id`.
pub open spec fn is_first_file(files: Seq<ImportingFile>, id: FileId, i: int) -> bool {
    &&& 0 <= i < files.len()
    &&& files[i].file_id == id
    &&& forall|j: int| 0 <= j < i ==> (#[trigger] files[j]).file_id != id
}

/// The index of the file with id `id`, if there is one.
pub open spec fn file_index(files: Seq<ImportingFile>, id: FileId) -> Option<int> {
    if exists|i: int| is_first_file(files, id, i) {
        Some(choose|i: int| is_first_file(files, id, i))
    } else {
        None
    }
}

/// The alias name of the import that linked import `j` of `f` links.
pub open spec fn linked_alias(f: ImportingFile, j: int) -> Option<Seq<char>> {
    opt_text(f.imports@[f.linked_imports@[j].import as int].alias)
}

/// Whether linked import `j` of `f` is the first whose import is aliased
/// `alias`.
pub open spec fn is_first_linked(f: ImportingFile, alias: Seq<char>, j: int) -> bool {
    &&& 0 <= j < f.linked_imports@.len()
    &&& linked_alias(f, j) == Some(alias)
    &&& forall|m: int| 0 <= m < j ==> #[trigger] linked_alias(f, m) != Some(alias)
}

/// The linked import (file index, linked import index) that file `id`
/// imports under alias `alias`.
pub open spec fn linked_for_alias(files: Seq<ImportingFile>, id: FileId, alias: Seq<char>) -> Option<(int, int)> {
    match file_index(files, id) {
        Some(fi) => if exists|j: int| is_first_linked(files[fi], alias, j) {
            Some((fi, choose|j: int| is_first_linked(files[fi], alias, j)))
        } else {
            None
        },
        None => None,
    }
}

/// The linked import that a module path reaches from file `id`: its first
/// segment is an alias of the file, each further segment an alias of the
/// file that the previous one links.
pub open spec fn resolve_linked(files: Seq<ImportingFile>, id: FileId, path: Seq<Seq<char>>) -> Option<(int, int)>
    decreases path.len(),
{
    if path.len() == 0 {
        None
    } else {
        match linked_for_alias(files, id, path[0]) {
            Some(l) => if path.len() == 1 {
                Some(l)
            } else {
                resolve_linked(files, files[l.0].linked_imports@[l.1].provider_file_id, path.skip(1))
            },
            None => None,
        }
    }
}

/// The names of the modules that a module path goes through from file
/// `id`, when each of its segments resolves.
pub open spec fn resolve_origin(files: Seq<ImportingFile>, id: FileId, path: Seq<Seq<char>>) -> Option<Seq<Seq<char>>>
    decreases path.len(),
{
    if path.len() == 0 {
        None
    } else {
        match linked_for_alias(files, id, path[0]) {
            Some(l) => {
                let head = seq![files[l.0].linked_imports@[l.1].module_name@];
                if path.len() == 1 {
                    Some(head)
                } else {
                    match resolve_origin(files, files[l.0].linked_imports@[l.1].provider_file_id, path.skip(1)) {
                        Some(rest) => Some(head + rest),
                        None => None,
                    }
                }
            },
            None => None,
        }
    }
}

/// Whether file `id` has an import aliased `alias`.
pub open spec fn has_alias_named(files: Seq<ImportingFile>, id: FileId, alias: Seq<char>) -> bool {
    match file_index(files, id) {
        Some(fi) => exists|i: int| 0 <= i < files[fi].imports@.len() && opt_text((#[trigger] files[fi].imports@[i]).alias) == Some(alias),
        None => false,
    }
}

proof fn lemma_linked_for_alias_bounds(files: Seq<ImportingFile>, id: FileId, alias: Seq<char>)
    ensures
        linked_for_alias(files, id, alias) matches Some(l) ==> 0 <= l.0 < files.len() && 0 <= l.1
            < files[l.0].linked_imports@.len(),
{
    if exists|i: int| is_first_file(files, id, i) {
        let fi = choose|i: int| is_first_file(files, id, i);
        if exists|j: int| is_first_linked(files[fi], alias, j) {
            let j = choose|j: int| is_first_linked(files[fi], alias, j);
        }
    }
}

proof fn lemma_resolve_linked_bounds(files: Seq<ImportingFile>, id: FileId, path: Seq<Seq<char>>)
    ensures
        resolve_linked(files, id, path) matches Some(l) ==> 0 <= l.0 < files.len() && 0 <= l.1
            < files[l.0].linked_imports@.len(),
    decreases path.len(),
{
    if path.len() > 0 {
        lemma_linked_for_alias_bounds(files, id, path[0]);
        match linked_for_alias(files, id, path[0]) {
            Some(l) => {
                if path.len() > 1 {
                    lemma_resolve_linked_bounds(files, files[l.0].linked_imports@[l.1].provider_file_id, path.skip(1));
                }
            },
            None => {},
        }
    }
}

fn find_file(files: &[ImportingFile], id: FileId) -> (r: Option<usize>)
    ensures
        match r {
            Some(i) => file_index(files@, id) == Some(i as int),
            None => file_index(files@, id) is None,
        },
{
    let mut i: usize = 0;
    while i < files.len()
        invariant
            0 <= i <= files.len(),
            forall|j: int| 0 <= j < i ==> (#[trigger] files@[j]).file_id != id,
        decreases files.len() - i,
    {
        if files[i].file_id.0 == id.0 {
            proof {
                assert(is_first_file(files@, id, i as int));
                let c = choose|c: int| is_first_file(files@, id, c);
                if c < i {
                    assert(files@[c].file_id != id);
                } else if c > i {
                    assert(files@[i as int].file_id != id);
                }
            }
            return Some(i);
        }
        i += 1;
    }
    proof {
        assert(!exists|c: int| is_first_file(files@, id, c));
    }
    None
}

/// The linked import that file `id` imports under alias `alias`.
pub fn linked_import_for_alias_name(files: &[ImportingFile], id: FileId, alias: &str) -> (r: Option<(usize, usize)>)
    requires
        files_wf(files@),
    ensures
        match r {
            Some((fi, j)) => linked_for_alias(files@, id, alias@) == Some((fi as int, j as int)),
            None => linked_for_alias(files@, id, alias@) is None,
        },
{
    let fi = match find_file(files, id) {
        Some(fi) => fi,
        None => return None,
    };
    let f = &files[fi];
    let mut j: usize = 0;
    while j < f.linked_imports.len()
        invariant
            0 <= j <= f.linked_imports.len(),
            files_wf(files@),
            fi < files@.len(),
            file_index(files@, id) == Some(fi as int),
            *f == files@[fi as int],
            forall|m: int| 0 <= m < j ==> #[trigger] linked_alias(*f, m) != Some(alias@),
        decreases f.linked_imports.len() - j,
    {
        let imp = f.linked_imports[j].import;
        assert(f.linked_imports@[j as int].import < f.imports@.len());
        let matches = match &f.imports[imp].alias {
            Some(a) => str_eq(a.as_str(), alias),
            None => false,
        };
        if matches {
            proof {
                assert(is_first_linked(*f, alias@, j as int));
                let c = choose|c: int| is_first_linked(*f, alias@, c);
                if c < j {
                    assert(linked_alias(*f, c) != Some(alias@));
                } else if c > j {
                    assert(linked_alias(*f, j as int) != Some(alias@));
                }
            }
            return Some((fi, j));
        }
        j += 1;
    }
    proof {
        assert(!exists|c: int| is_first_linked(*f, alias@, c));
    }
    None
}

/// The linked import that `import_path` reaches from file `id`, as
/// `resolve_linked` states.
pub fn resolve_linked_import_for_module_path(
    files: &[ImportingFile],
    id: FileId,
    import_path: &[String],
) -> (r: Option<(usize, usize)>)
    requires
        files_wf(files@),
    ensures
        match r {
            Some((fi, j)) => resolve_linked(files@, id, name_views(import_path@)) == Some((fi as int, j as int)),
            None => resolve_linked(files@, id, name_views(import_path@)) is None,
        },
{
    let ghost pv = name_views(import_path@);
    if import_path.len() == 0 {
        return None;
    }
    let mut cur = id;
    let mut k: usize = 0;
    assert(pv.skip(0) =~= pv);
    loop
        invariant
            files_wf(files@),
            pv == name_views(import_path@),
            0 <= k < import_path.len(),
            resolve_linked(files@, id, pv) == resolve_linked(files@, cur, pv.skip(k as int)),
        decreases import_path.len() - k,
    {
        let ghost rest = pv.skip(k as int);
        assert(rest[0] == import_path@[k as int]@);
        match linked_import_for_alias_name(files, cur, import_path[k].as_str()) {
            Some((fi, j)) => {
                if k + 1 == import_path.len() {
                    return Some((fi, j));
                }
                proof {
                    assert(fi < files@.len());
                    assert(rest.skip(1) =~= pv.skip(k + 1));
                }
                cur = files[fi].linked_imports[j].provider_file_id;
                k += 1;
            },
            None => {
                return None;
            },
        }
    }
}

/// The names of the modules that `import_path` goes through from file
/// `id`, as `resolve_origin` states.
pub fn resolve_linked_import_origin_path(
    files: &[ImportingFile],
    id: FileId,
    import_path: &[String],
) -> (r: Option<Vec<String>>)
    requires
        files_wf(files@),
    ensures
        match r {
            Some(o) => resolve_origin(files@, id, name_views(import_path@)) == Some(name_views(o@)),
            None => resolve_origin(files@, id, name_views(import_path@)) is None,
        },
{
    let ghost pv = name_views(import_path@);
    if import_path.len() == 0 {
        return None;
    }
    let mut cur = id;
    let mut k: usize = 0;
    let mut acc: Vec<String> = Vec::new();
    proof {
        assert(pv.skip(0) =~= pv);
        assert(name_views(acc@) =~= Seq::<Seq<char>>::empty());
        match resolve_origin(files@, id, pv) {
            Some(o) => {
                assert(Seq::<Seq<char>>::empty() + o =~= o);
            },
            None => {},
        }
    }
    loop
        invariant
            files_wf(files@),
            pv == name_views(import_path@),
            0 <= k < import_path.len(),
            resolve_origin(files@, id, pv) == match resolve_origin(files@, cur, pv.skip(k as int)) {
                Some(rest) => Some(name_views(acc@) + rest),
                None => None::<Seq<Seq<char>>>,
            },
        decreases import_path.len() - k,
    {
        let ghost rest = pv.skip(k as int);
        assert(rest[0] == import_path@[k as int]@);
        match linked_import_for_alias_name(files, cur, import_path[k].as_str()) {
            Some((fi, j)) => {
                let ghost before = name_views(acc@);
                acc.push(files[fi].linked_imports[j].module_name.clone());
                proof {
                    assert(name_views(acc@) =~= before.push(files@[fi as int].linked_imports@[j as int].module_name@));
                }
                if k + 1 == import_path.len() {
                    proof {
                        assert(before + seq![files@[fi as int].linked_imports@[j as int].module_name@] =~= name_views(acc@));
                    }
                    return Some(acc);
                }
                proof {
                    assert(rest.skip(1) =~= pv.skip(k + 1));
                    let head = seq![files@[fi as int].linked_imports@[j as int].module_name@];
                    assert forall|tail: Seq<Seq<char>>| #![trigger before + (head + tail)]
                        before + (head + tail) == name_views(acc@) + tail by {
                        assert(before + (head + tail) =~= name_views(acc@) + tail);
                    }
                }
                cur = files[fi].linked_imports[j].provider_file_id;
                k += 1;
            },
            None => {
                return None;
            },
        }
    }
}

/// Whether file `id` has an import aliased `alias`.
pub fn has_import_alias_named(files: &[ImportingFile], id: FileId, alias: &str) -> (r: bool)
    ensures
        r == has_alias_named(files@, id, alias@),
{
    let fi = match find_file(files, id) {
        Some(fi) => fi,
        None => return false,
    };
    let f = &files[fi];
    let mut i: usize = 0;
    while i < f.imports.len()
        invariant
            0 <= i <= f.imports.len(),
            fi < files@.len(),
            file_index(files@, id) == Some(fi as int),
            *f == files@[fi as int],
            forall|m: int| 0 <= m < i ==> opt_text((#[trigger] f.imports@[m]).alias) != Some(alias@),
        decreases f.imports.len() - i,
    {
        let matches = match &f.imports[i].alias {
            Some(a) => str_eq(a.as_str(), alias),
            None => false,
        };
        if matches {
            assert(opt_text(files@[fi as int].imports@[i as int].alias) == Some(alias@));
            return true;
        }
        i += 1;
    }
    false
}

/// The completions after putting, in order, each export that has an
/// exported name and stands for a symbol.
pub open spec fn exports_after(
    m: Map<Seq<char>, CompletionView>,
    es: Seq<ExportFacts>,
    origin: Seq<char>,
) -> Map<Seq<char>, CompletionView>
    decreases es.len(),
{
    if es.len() == 0 {
        m
    } else {
        let rest = exports_after(m, es.drop_last(), origin);
        let e = es.last();
        match (e.exported_name, e.identity) {
            (Some(n), Some(id)) => rest.insert(
                n@,
                CompletionView {
                    kind: id.kind,
                    origin: Some(origin),
                    file_id: Some(e.file_id),
                    symbol: Some(id.symbol),
                    annotation: opt_ty(e.annotation),
                    docs: opt_text(e.docs),
                },
            ),
            _ => rest,
        }
    }
}

/// The completions after adding, in order, an import alias for each linked
/// import of the providing file `pf` whose import has a non-empty alias.
pub open spec fn nested_after(
    m: Map<Seq<char>, CompletionView>,
    pf: ImportingFile,
    links: Seq<LinkedImportFacts>,
    origin_path: Seq<Seq<char>>,
) -> Map<Seq<char>, CompletionView>
    decreases links.len(),
{
    if links.len() == 0 {
        m
    } else {
        let rest = nested_after(m, pf, links.drop_last(), origin_path);
        let l = links.last();
        match opt_text(pf.imports@[l.import as int].alias) {
            Some(a) => if a.len() > 0 {
                or_insert(
                    rest,
                    a,
                    CompletionView {
                        kind: SymbolKind::ImportAlias,
                        origin: Some(join_with(origin_path.push(l.module_name@), "::"@)),
                        file_id: None,
                        symbol: None,
                        annotation: None,
                        docs: None,
                    },
                )
            } else {
                rest
            },
            None => rest,
        }
    }
}

/// The completions that the linked import reached by `path` gives: its
/// module's exports, then the modules that module imports in turn, shown
/// with the module path they go through.
pub open spec fn linked_completions(files: Seq<ImportingFile>, id: FileId, path: Seq<Seq<char>>) -> Map<
    Seq<char>,
    CompletionView,
> {
    let origin_path = match resolve_origin(files, id, path) {
        Some(o) => o,
        None => path,
    };
    match resolve_linked(files, id, path) {
        Some(l) => {
            let link = files[l.0].linked_imports@[l.1];
            let m0 = exports_after(Map::empty(), link.exports@, join_with(origin_path, "::"@));
            match file_index(files, link.provider_file_id) {
                Some(pi) => nested_after(m0, files[pi], files[pi].linked_imports@, origin_path),
                None => m0,
            }
        },
        None => Map::empty(),
    }
}

/// The completions offered for the members of `path` in file `id`: those
/// of the linked import, then host module members, then what comment
/// directives declare, then, for a path into the automatic `global` module
/// where the file has no import aliased `global`, its members; a name that
/// an earlier source completes keeps that completion.
pub open spec fn module_completions_spec(
    files: Seq<ImportingFile>,
    id: FileId,
    path: Seq<Seq<char>>,
    ms: Seq<HostModule>,
    directives: Option<&FileCommentDirectives>,
    syms: Seq<FileSymbol>,
) -> Map<Seq<char>, CompletionView> {
    let imps = match file_index(files, id) {
        Some(fi) => files[fi].imports@,
        None => Seq::empty(),
    };
    let m2 = host_completions_after(linked_completions(files, id, path), imps, ms, path);
    let m3 = inline_completions_after(m2, imps, directives, path);
    if path.len() > 0 && path[0] == "global"@ && !has_alias_named(files, id, "global"@) {
        automatic_global_after(m3, id, syms, ms, path)
    } else {
        m3
    }
}

/// Whether the names strictly ascend.
pub open spec fn names_ascending(t: Seq<ImportedModuleCompletion>) -> bool {
    forall|i: int, j: int| 0 <= i < j < t.len() ==> chars_lt((#[trigger] t[i]).name@, (#[trigger] t[j]).name@)
}

proof fn lemma_ascending_distinct(t: Seq<ImportedModuleCompletion>)
    requires
        names_ascending(t),
    ensures
        names_distinct(t),
{
    assert forall|i: int, j: int| 0 <= i < j < t.len() implies (#[trigger] t[i]).name@ != (#[trigger] t[j]).name@ by {
        lemma_chars_lt_irreflexive(t[i].name@);
    }
}

/// Inserts `c` at its place by name into completions in ascending order of
/// name that do not complete its name yet.
fn insert_by_name(t: &mut Vec<ImportedModuleCompletion>, c: ImportedModuleCompletion)
    requires
        names_ascending(old(t)@),
        !has_name(old(t)@, c.name@),
    ensures
        names_ascending(final(t)@),
        completion_map(final(t)@) == completion_map(old(t)@).insert(c.name@, completion_view(c)),
{
    let ghost before = t@;
    let mut p: usize = 0;
    while p < t.len() && str_less(t[p].name.as_str(), c.name.as_str())
        invariant
            p <= t@.len(),
            t@ == before,
            forall|i: int| 0 <= i < p ==> chars_lt((#[trigger] t@[i]).name@, c.name@),
        decreases t.len() - p,
    {
        p += 1;
    }
    proof {
        if p < before.len() {
            assert(!chars_lt(before[p as int].name@, c.name@));
            assert(before[p as int].name@ != c.name@);
            lemma_chars_lt_total(before[p as int].name@, c.name@);
        }
        lemma_ascending_distinct(before);
    }
    t.insert(p, c);
    proof {
        let w = t@;
        assert(w == before.insert(p as int, c));
        assert forall|a: int, b: int| 0 <= a < b < w.len() implies chars_lt((#[trigger] w[a]).name@, (#[trigger] w[b]).name@) by {
            if b < p {
                assert(w[a] == before[a] && w[b] == before[b]);
            } else if b == p {
                assert(w[a] == before[a]);
            } else if a == p {
                assert(w[b] == before[b - 1]);
                if b - 1 > p {
                    assert(chars_lt(before[p as int].name@, before[b - 1].name@));
                    lemma_chars_lt_transitive(c.name@, before[p as int].name@, before[b - 1].name@);
                }
            } else if a < p {
                assert(w[a] == before[a] && w[b] == before[b - 1]);
                if b - 1 != p as int {
                    assert(chars_lt(before[p as int].name@, before[b - 1].name@));
                    lemma_chars_lt_transitive(c.name@, before[p as int].name@, before[b - 1].name@);
                }
                lemma_chars_lt_transitive(before[a].name@, c.name@, before[b - 1].name@);
            } else {
                assert(w[a] == before[a - 1] && w[b] == before[b - 1]);
            }
        }
        lemma_ascending_distinct(w);
        let m = completion_map(before).insert(c.name@, completion_view(c));
        assert forall|g: Seq<char>| #[trigger] completion_map(w).contains_key(g) == m.contains_key(g) by {
            if has_name(w, g) {
                let q = choose|q: int| 0 <= q < w.len() && (#[trigger] w[q]).name@ == g;
                if q < p {
                    assert(w[q] == before[q]);
                } else if q > p {
                    assert(w[q] == before[q - 1]);
                }
            }
            if has_name(before, g) {
                let q = choose|q: int| 0 <= q < before.len() && (#[trigger] before[q]).name@ == g;
                if q < p {
                    assert(w[q] == before[q]);
                } else {
                    assert(w[q + 1] == before[q]);
                }
            }
            if g == c.name@ {
                assert(w[p as int] == c);
            }
        }
        assert forall|g: Seq<char>| #[trigger] completion_map(w).contains_key(g) implies completion_map(w)[g] == m[g] by {
            let q = choose|q: int| 0 <= q < w.len() && (#[trigger] w[q]).name@ == g;
            lemma_completion_map_at(w, q);
            if q < p {
                assert(w[q] == before[q]);
                lemma_completion_map_at(before, q);
            } else if q > p {
                assert(w[q] == before[q - 1]);
                lemma_completion_map_at(before, q - 1);
            }
        }
        assert(completion_map(w) =~= m);
    }
}

/// The completions in ascending order of name.
fn sort_by_name(v: Vec<ImportedModuleCompletion>) -> (r: Vec<ImportedModuleCompletion>)
    requires
        names_distinct(v@),
    ensures
        names_ascending(r@),
        completion_map(r@) == completion_map(v@),
{
    let ghost input = v@;
    let mut rest = v;
    let mut out: Vec<ImportedModuleCompletion> = Vec::new();
    proof {
        assert(completion_map(out@) =~= Map::<Seq<char>, CompletionView>::empty());
        assert(input.skip(0) =~= input);
    }
    while rest.len() > 0
        invariant
            rest@.len() <= input.len(),
            rest@ == input.take(rest@.len() as int),
            names_distinct(input),
            names_ascending(out@),
            completion_map(out@) == completion_map(input.skip(rest@.len() as int)),
        decreases rest.len(),
    {
        let n = rest.len();
        let c = rest.pop().unwrap();
        proof {
            assert(input[n - 1] == c);
            assert(rest@ =~= input.take(n - 1));
            let tail = input.skip(n as int);
            let tail2 = input.skip(n - 1);
            assert(tail2 =~= seq![c] + tail);
            if has_name(out@, c.name@) {
                let q = choose|q: int| 0 <= q < out@.len() && (#[trigger] out@[q]).name@ == c.name@;
                lemma_ascending_distinct(out@);
                lemma_completion_map_at(out@, q);
                assert(completion_map(tail).contains_key(c.name@));
                let r = choose|r: int| 0 <= r < tail.len() && (#[trigger] tail[r]).name@ == c.name@;
                assert(tail[r] == input[n + r]);
                assert(input[n - 1].name@ != input[n + r].name@);
            }
        }
        insert_by_name(&mut out, c);
        proof {
            let tail = input.skip(n as int);
            let tail2 = input.skip(n - 1);
            assert forall|a: int, b: int| 0 <= a < b < tail2.len() implies (#[trigger] tail2[a]).name@ != (#[trigger] tail2[b]).name@ by {
                assert(tail2[a] == input[n - 1 + a] && tail2[b] == input[n - 1 + b]);
            }
            assert forall|a: int, b: int| 0 <= a < b < tail.len() implies (#[trigger] tail[a]).name@ != (#[trigger] tail[b]).name@ by {
                assert(tail[a] == input[n + a] && tail[b] == input[n + b]);
            }
            let m = completion_map(tail).insert(c.name@, completion_view(c));
            assert forall|g: Seq<char>| #[trigger] completion_map(tail2).contains_key(g) == m.contains_key(g) by {
                if has_name(tail2, g) {
                    let q = choose|q: int| 0 <= q < tail2.len() && (#[trigger] tail2[q]).name@ == g;
                    if q > 0 {
                        assert(tail2[q] == tail[q - 1]);
                    }
                }
                if has_name(tail, g) {
                    let q = choose|q: int| 0 <= q < tail.len() && (#[trigger] tail[q]).name@ == g;
                    assert(tail2[q + 1] == tail[q]);
                }
                if g == c.name@ {
                    assert(tail2[0] == c);
                }
            }
            assert forall|g: Seq<char>| #[trigger] completion_map(tail2).contains_key(g) implies completion_map(tail2)[g]
                == m[g] by {
                let q = choose|q: int| 0 <= q < tail2.len() && (#[trigger] tail2[q]).name@ == g;
                lemma_completion_map_at(tail2, q);
                if q > 0 {
                    assert(tail2[q] == tail[q - 1]);
                    lemma_completion_map_at(tail, q - 1);
                    assert(tail2[0].name@ != tail2[q].name@);
                }
            }
            assert(completion_map(tail2) =~= m);
        }
    }
    proof {
        assert(input.skip(0) =~= input);
    }
    out
}

/// Puts, in order, a completion for each export that has an exported name
/// and stands for a symbol, as `exports_after` states.
fn collect_export_completions(
    exports: &Vec<ExportFacts>,
    origin: &String,
    completions: &mut Vec<ImportedModuleCompletion>,
)
    requires
        names_distinct(old(completions)@),
    ensures
        names_distinct(final(completions)@),
        completion_map(final(completions)@) == exports_after(completion_map(old(completions)@), exports@, origin@),
{
    let ghost m0 = completion_map(completions@);
    let mut i: usize = 0;
    proof {
        assert(exports@.take(0) =~= Seq::<ExportFacts>::empty());
    }
    while i < exports.len()
        invariant
            0 <= i <= exports.len(),
            names_distinct(completions@),
            completion_map(completions@) == exports_after(m0, exports@.take(i as int), origin@),
        decreases exports.len() - i,
    {
        let e = &exports[i];
        proof {
            assert(exports@.take(i + 1).drop_last() =~= exports@.take(i as int));
            assert(exports@.take(i + 1).last() == exports@[i as int]);
        }
        match (&e.exported_name, &e.identity) {
            (Some(name), Some(identity)) => {
                let c = ImportedModuleCompletion {
                    name: name.clone(),
                    kind: identity.kind,
                    origin: Some(origin.clone()),
                    file_id: Some(e.file_id),
                    symbol: Some(identity.symbol),
                    annotation: clone_opt_type(&e.annotation),
                    docs: clone_text(&e.docs),
                };
                put_completion(completions, c);
            },
            _ => {},
        }
        i += 1;
    }
    proof {
        assert(exports@.take(i as int) =~= exports@);
    }
}

/// Adds, in order, an import alias for each linked import of the providing
/// file whose import has a non-empty alias, as `nested_after` states.
fn collect_nested_import_completions(
    provider: &ImportingFile,
    origin_path: &Vec<String>,
    completions: &mut Vec<ImportedModuleCompletion>,
)
    requires
        names_distinct(old(completions)@),
        forall|j: int|
            0 <= j < provider.linked_imports@.len() ==> (#[trigger] provider.linked_imports@[j]).import
                < provider.imports@.len(),
    ensures
        names_distinct(final(completions)@),
        completion_map(final(completions)@) == nested_after(
            completion_map(old(completions)@),
            *provider,
            provider.linked_imports@,
            name_views(origin_path@),
        ),
{
    let ghost m0 = completion_map(completions@);
    let links = &provider.linked_imports;
    let mut i: usize = 0;
    proof {
        assert(links@.take(0) =~= Seq::<LinkedImportFacts>::empty());
    }
    while i < links.len()
        invariant
            0 <= i <= links.len(),
            *links == provider.linked_imports,
            forall|j: int| 0 <= j < links@.len() ==> (#[trigger] links@[j]).import < provider.imports@.len(),
            names_distinct(completions@),
            completion_map(completions@) == nested_after(m0, *provider, links@.take(i as int), name_views(origin_path@)),
        decreases links.len() - i,
    {
        let l = &links[i];
        proof {
            assert(links@.take(i + 1).drop_last() =~= links@.take(i as int));
            assert(links@.take(i + 1).last() == links@[i as int]);
        }
        assert(l.import < provider.imports@.len());
        match &provider.imports[l.import].alias {
            Some(alias) => {
                let a = chars_of(alias.as_str());
                if a.len() > 0 {
                    let mut parts: Vec<String> = Vec::new();
                    let mut k: usize = 0;
                    while k < origin_path.len()
                        invariant
                            0 <= k <= origin_path.len(),
                            name_views(parts@) == name_views(origin_path@).take(k as int),
                        decreases origin_path.len() - k,
                    {
                        let ghost before = name_views(parts@);
                        parts.push(origin_path[k].clone());
                        proof {
                            assert(name_views(parts@) =~= before.push(origin_path@[k as int]@));
                            assert(name_views(origin_path@).take(k + 1) =~= name_views(origin_path@).take(k as int).push(
                                origin_path@[k as int]@,
                            ));
                        }
                        k += 1;
                    }
                    let ghost before = name_views(parts@);
                    parts.push(l.module_name.clone());
                    proof {
                        assert(name_views(origin_path@).take(k as int) =~= name_views(origin_path@));
                        assert(name_views(parts@) =~= name_views(origin_path@).push(l.module_name@));
                        assert(Seq::new(parts@.len(), |j: int| parts@[j]@) =~= name_views(parts@));
                    }
                    let origin = join_strings(parts.as_slice(), "::");
                    let c = ImportedModuleCompletion {
                        name: alias.clone(),
                        kind: SymbolKind::ImportAlias,
                        origin: Some(origin),
                        file_id: None,
                        symbol: None,
                        annotation: None,
                        docs: None,
                    };
                    put_completion_if_absent(completions, c);
                }
            },
            None => {},
        }
        i += 1;
    }
    proof {
        assert(links@.take(i as int) =~= links@);
    }
}

/// The completions offered for the members of `import_path` in file
/// `file_id`, in ascending order of name, as `module_completions_spec`
/// states.
pub fn imported_module_completions(
    files: &[ImportingFile],
    file_id: FileId,
    import_path: &[String],
    host_modules: &[HostModule],
    directives: Option<&FileCommentDirectives>,
    symbols: &[FileSymbol],
) -> (r: Vec<ImportedModuleCompletion>)
    requires
        files_wf(files@),
    ensures
        names_ascending(r@),
        completion_map(r@) == module_completions_spec(
            files@,
            file_id,
            name_views(import_path@),
            host_modules@,
            directives,
            symbols@,
        ),
{
    let ghost path = name_views(import_path@);
    let mut completions: Vec<ImportedModuleCompletion> = Vec::new();
    let explicit_global_alias = has_import_alias_named(files, file_id, "global");
    let origin_path: Vec<String> = match resolve_linked_import_origin_path(files, file_id, import_path) {
        Some(o) => o,
        None => {
            let mut o: Vec<String> = Vec::new();
            let mut k: usize = 0;
            while k < import_path.len()
                invariant
                    0 <= k <= import_path.len(),
                    name_views(o@) == name_views(import_path@).take(k as int),
                decreases import_path.len() - k,
            {
                let ghost before = name_views(o@);
                o.push(import_path[k].clone());
                proof {
                    assert(name_views(o@) =~= before.push(import_path@[k as int]@));
                    assert(name_views(import_path@).take(k + 1) =~= name_views(import_path@).take(k as int).push(
                        import_path@[k as int]@,
                    ));
                }
                k += 1;
            }
            proof {
                assert(name_views(import_path@).take(k as int) =~= name_views(import_path@));
            }
            o
        },
    };
    let ghost opath = match resolve_origin(files@, file_id, path) {
        Some(o) => o,
        None => path,
    };
    assert(name_views(origin_path@) == opath);
    proof {
        assert(completion_map(completions@) =~= Map::<Seq<char>, CompletionView>::empty());
    }
    match resolve_linked_import_for_module_path(files, file_id, import_path) {
        Some((fi, j)) => {
            proof {
                lemma_resolve_linked_bounds(files@, file_id, path);
            }
            let link = &files[fi].linked_imports[j];
            let origin = join_strings(origin_path.as_slice(), "::");
            assert(Seq::new(origin_path@.len(), |i: int| origin_path@[i]@) =~= name_views(origin_path@));
            collect_export_completions(&link.exports, &origin, &mut completions);
            match find_file(files, link.provider_file_id) {
                Some(pi) => {
                    assert(forall|m: int|
                        0 <= m < files@[pi as int].linked_imports@.len() ==> (#[trigger] files@[pi as int].linked_imports@[m]).import
                            < files@[pi as int].imports@.len());
                    collect_nested_import_completions(&files[pi], &origin_path, &mut completions);
                },
                None => {},
            }
        },
        None => {},
    }
    assert(completion_map(completions@) == linked_completions(files@, file_id, path));
    let no_imports: Vec<AliasedImport> = Vec::new();
    let imports: &[AliasedImport] = match find_file(files, file_id) {
        Some(fi) => files[fi].imports.as_slice(),
        None => no_imports.as_slice(),
    };
    proof {
        match file_index(files@, file_id) {
            Some(fi) => {},
            None => {
                assert(imports@ =~= Seq::<AliasedImport>::empty());
            },
        }
    }
    collect_host_module_completions(imports, host_modules, import_path, &mut completions);
    collect_inline_module_completions(imports, directives, import_path, &mut completions);
    if import_path.len() > 0 && str_eq(import_path[0].as_str(), "global") && !explicit_global_alias {
        collect_automatic_global_module_completions(file_id, symbols, host_modules, import_path, &mut completions);
    }
    sort_by_name(completions)
}

/// An empty module path is offered no completions.
pub proof fn law_empty_path_offers_nothing(
    files: Seq<ImportingFile>,
    id: FileId,
    ms: Seq<HostModule>,
    directives: Option<&FileCommentDirectives>,
    syms: Seq<FileSymbol>,
)
    ensures
        module_completions_spec(files, id, Seq::empty(), ms, directives, syms) == Map::<Seq<char>, CompletionView>::empty(),
{
}

} // verus!
