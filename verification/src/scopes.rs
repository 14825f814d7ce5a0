//! Walks up a file's scope tree: to the function scope around a scope, and
//! to the symbol that a name refers to in the scopes around a position.

use vstd::prelude::*;

verus! {

/// A scope of the file: whether it is a function's, its parent, and the
/// symbols it declares, in order.
pub struct ScopeData {
    pub is_function: bool,
    pub parent: Option<u32>,
    pub symbols: Vec<u32>,
}

/// A symbol of the file: its name and where its declaration starts.
pub struct ScopeSymbol {
    pub name: String,
    pub start: u32,
}

/// Whether every parent and every declared symbol names an existing scope
/// or symbol.
pub open spec fn scope_tree_ok(scopes: Seq<ScopeData>, symbol_count: nat) -> bool {
    forall|i: int|
        0 <= i < scopes.len() ==> ((#[trigger] scopes[i]).parent matches Some(p) ==> p < scopes.len()) && forall|
            j: int,
        |
            0 <= j < scopes[i].symbols@.len() ==> #[trigger] scopes[i].symbols@[j] < symbol_count
}

/// The function scope at or above scope `s`, walking at most `fuel` scopes.
pub open spec fn function_scope_walk(scopes: Seq<ScopeData>, s: int, fuel: nat) -> Option<int>
    decreases fuel,
{
    if fuel == 0 {
        None
    } else if scopes[s].is_function {
        Some(s)
    } else {
        match scopes[s].parent {
            None => None,
            Some(p) => function_scope_walk(scopes, p as int, (fuel - 1) as nat),
        }
    }
}

/// The function scope at or above `scope`: walking up from it, the first
/// function scope, as `function_scope_walk` states with one step per
/// scope of the file, which is as many as a walk that ends can take.
pub fn enclosing_function_scope(scopes: &[ScopeData], scope: u32) -> (r: Option<u32>)
    requires
        scope < scopes@.len(),
        forall|i: int| 0 <= i < scopes@.len() ==> ((#[trigger] scopes@[i]).parent matches Some(p) ==> p < scopes@.len()),
    ensures
        match function_scope_walk(scopes@, scope as int, scopes@.len()) {
            Some(s) => r == Some(s as u32),
            None => r is None,
        },
{
    let mut current = scope;
    let mut fuel: usize = scopes.len();
    while fuel > 0
        invariant
            current < scopes@.len(),
            fuel <= scopes@.len(),
            forall|i: int| 0 <= i < scopes@.len() ==> ((#[trigger] scopes@[i]).parent matches Some(p) ==> p < scopes@.len()),
            function_scope_walk(scopes@, current as int, fuel as nat) == function_scope_walk(
                scopes@,
                scope as int,
                scopes@.len(),
            ),
        decreases fuel,
    {
        let data = &scopes[current as usize];
        if data.is_function {
            return Some(current);
        }
        match data.parent {
            Some(p) => {
                current = p;
            },
            None => {
                return None;
            },
        }
        fuel -= 1;
    }
    None
}

/// The last symbol of `syms` with the given name whose declaration starts
/// at or before `start`.
pub open spec fn last_visible(syms: Seq<u32>, symbols: Seq<ScopeSymbol>, name: Seq<char>, start: u32) -> Option<u32>
    decreases syms.len(),
{
    if syms.len() == 0 {
        None
    } else {
        let s = syms.last();
        if symbols[s as int].name@ == name && symbols[s as int].start <= start {
            Some(s)
        } else {
            last_visible(syms.drop_last(), symbols, name, start)
        }
    }
}

/// The symbol a name refers to from scope `s` up, walking at most `fuel`
/// scopes: in each scope, the last symbol of that name declared at or
/// before the position.
pub open spec fn resolve_walk(
    scopes: Seq<ScopeData>,
    symbols: Seq<ScopeSymbol>,
    s: int,
    name: Seq<char>,
    start: u32,
    fuel: nat,
) -> Option<u32>
    decreases fuel,
{
    if fuel == 0 {
        None
    } else {
        match last_visible(scopes[s].symbols@, symbols, name, start) {
            Some(found) => Some(found),
            None => match scopes[s].parent {
                None => None,
                Some(p) => resolve_walk(scopes, symbols, p as int, name, start, (fuel - 1) as nat),
            },
        }
    }
}

/// The last symbol of a scope with the given name that is declared at or
/// before `start`, as `last_visible` states.
fn last_visible_symbol(syms: &[u32], symbols: &[ScopeSymbol], name: &str, start: u32) -> (r: Option<u32>)
    requires
        forall|j: int| 0 <= j < syms@.len() ==> #[trigger] syms@[j] < symbols@.len(),
    ensures
        r == last_visible(syms@, symbols@, name@, start),
{
    let mut k: usize = syms.len();
    assert(syms@.take(k as int) =~= syms@);
    while k > 0
        invariant
            k <= syms@.len(),
            forall|j: int| 0 <= j < syms@.len() ==> #[trigger] syms@[j] < symbols@.len(),
            last_visible(syms@.take(k as int), symbols@, name@, start) == last_visible(syms@, symbols@, name@, start),
        decreases k,
    {
        let s = syms[k - 1];
        proof {
            assert(syms@.take(k as int).last() == s);
            assert(syms@.take(k as int).drop_last() =~= syms@.take(k - 1));
        }
        let sym = &symbols[s as usize];
        if crate::generics::str_eq(sym.name.as_str(), name) && sym.start <= start {
            return Some(s);
        }
        k -= 1;
    }
    None
}

/// The symbol a name refers to from `scope` up, as `resolve_walk` states
/// with one step per scope of the file, which is as many as a walk that
/// ends can take.
pub fn resolve_name_in_outer_scopes(
    scopes: &[ScopeData],
    symbols: &[ScopeSymbol],
    scope: u32,
    name: &str,
    reference_start: u32,
) -> (r: Option<u32>)
    requires
        scope < scopes@.len(),
        scope_tree_ok(scopes@, symbols@.len()),
    ensures
        r == resolve_walk(scopes@, symbols@, scope as int, name@, reference_start, scopes@.len()),
{
    let mut current = scope;
    let mut fuel: usize = scopes.len();
    while fuel > 0
        invariant
            current < scopes@.len(),
            fuel <= scopes@.len(),
            scope_tree_ok(scopes@, symbols@.len()),
            resolve_walk(scopes@, symbols@, current as int, name@, reference_start, fuel as nat) == resolve_walk(
                scopes@,
                symbols@,
                scope as int,
                name@,
                reference_start,
                scopes@.len(),
            ),
        decreases fuel,
    {
        let data = &scopes[current as usize];
        assert(forall|j: int| 0 <= j < data.symbols@.len() ==> #[trigger] data.symbols@[j] < symbols@.len());
        if let Some(found) = last_visible_symbol(data.symbols.as_slice(), symbols, name, reference_start) {
            return Some(found);
        }
        match data.parent {
            Some(p) => {
                current = p;
            },
            None => {
                return None;
            },
        }
        fuel -= 1;
    }
    None
}

/// Whether every scope's parent comes before it.
pub open spec fn parents_come_first(scopes: Seq<ScopeData>) -> bool {
    forall|i: int| 0 <= i < scopes.len() ==> ((#[trigger] scopes[i]).parent matches Some(p) ==> p < i)
}

proof fn lemma_function_walk_fuel(scopes: Seq<ScopeData>, s: int, fuel: nat)
    requires
        parents_come_first(scopes),
        0 <= s < scopes.len(),
        fuel > s,
    ensures
        function_scope_walk(scopes, s, fuel) == function_scope_walk(scopes, s, (s + 1) as nat),
    decreases s,
{
    if !scopes[s].is_function {
        if let Some(p) = scopes[s].parent {
            assert(p < s);
            lemma_function_walk_fuel(scopes, p as int, (fuel - 1) as nat);
            lemma_function_walk_fuel(scopes, p as int, s as nat);
        }
    }
}

proof fn lemma_resolve_walk_fuel(
    scopes: Seq<ScopeData>,
    symbols: Seq<ScopeSymbol>,
    s: int,
    name: Seq<char>,
    start: u32,
    fuel: nat,
)
    requires
        parents_come_first(scopes),
        0 <= s < scopes.len(),
        fuel > s,
    ensures
        resolve_walk(scopes, symbols, s, name, start, fuel) == resolve_walk(
            scopes,
            symbols,
            s,
            name,
            start,
            (s + 1) as nat,
        ),
    decreases s,
{
    if last_visible(scopes[s].symbols@, symbols, name, start) is None {
        if let Some(p) = scopes[s].parent {
            assert(p < s);
            lemma_resolve_walk_fuel(scopes, symbols, p as int, name, start, (fuel - 1) as nat);
            lemma_resolve_walk_fuel(scopes, symbols, p as int, name, start, s as nat);
        }
    }
}

/// In a scope tree whose parents come before their children, a walk up
/// ends within as many steps as there are scopes: walking with more steps
/// gives the same function scope and the same resolved symbol.
pub proof fn law_walks_end_within_the_scope_count(
    scopes: Seq<ScopeData>,
    symbols: Seq<ScopeSymbol>,
    s: int,
    name: Seq<char>,
    start: u32,
    fuel: nat,
)
    requires
        parents_come_first(scopes),
        0 <= s < scopes.len(),
        fuel >= scopes.len(),
    ensures
        function_scope_walk(scopes, s, fuel) == function_scope_walk(scopes, s, scopes.len()),
        resolve_walk(scopes, symbols, s, name, start, fuel) == resolve_walk(
            scopes,
            symbols,
            s,
            name,
            start,
            scopes.len(),
        ),
{
    lemma_function_walk_fuel(scopes, s, fuel);
    lemma_function_walk_fuel(scopes, s, scopes.len());
    lemma_resolve_walk_fuel(scopes, symbols, s, name, start, fuel);
    lemma_resolve_walk_fuel(scopes, symbols, s, name, start, scopes.len());
}

} // verus!
