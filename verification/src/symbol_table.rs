use vstd::prelude::*;
use crate::builtins::{builtin_name, builtin_names, get_builtin_name, BUILTIN_COUNT};
use crate::error_handler::{SemanticError, SemanticErrorType, TypeError, TypeErrorType};
use crate::value::Kind;

verus! {

/// A user function: where its body is kept and what it returns.
#[derive(Debug, Clone, Copy, PartialEq, Eq, Structural)]
pub struct Function {
    pub index: u32,
    pub result: Kind,
}

/// A station of the current pipeline that a relative reference captures.
#[derive(Debug, Clone, Copy, PartialEq, Eq, Structural)]
pub struct RelativeReference {
    pub index_in_stations: u16,
    pub variable_index: u32,
}

/// What a name stands for.
#[derive(Debug, Clone, Copy, PartialEq, Eq, Structural)]
pub enum SymbolType {
    /// Slot in its scope, and index among all variables of the program.
    VariableScope(u16, u32),
    /// Identifier shared by all overloads of a user function.
    FunctionScope(u32),
    /// Position in the builtin table.
    Builtin(u16),
}

/// A name bound in a scope.
pub struct ScopeEntry {
    pub name: String,
    pub symbol: SymbolType,
}

/// A registered overload of a user function.
pub struct FunctionEntry {
    pub id: u32,
    pub parameters_kind: Vec<Kind>,
    pub function: Function,
}

/// The names visible while resolving a program.
pub struct SymbolTable {
    pub builtins: Vec<String>,
    pub scopes: Vec<Vec<ScopeEntry>>,
    pub all_variable: Vec<Kind>,
    pub functions: Vec<FunctionEntry>,
    pub pipeline: Vec<RelativeReference>,
}

/// A scope as the names it binds, in the order they were bound.
pub type ScopeModel = Seq<(Seq<char>, SymbolType)>;

/// An overload of a user function: its identifier, parameter kinds and entry.
pub type FunctionModel = (u32, Seq<Kind>, Function);

/// What a name is bound to in one scope.
pub open spec fn lookup_in_scope(scope: ScopeModel, name: Seq<char>) -> Option<SymbolType>
    decreases scope.len(),
{
    if scope.len() == 0 {
        None
    } else if scope.last().0 == name {
        Some(scope.last().1)
    } else {
        lookup_in_scope(scope.drop_last(), name)
    }
}

/// What a name is bound to, searching from the innermost scope outwards.
pub open spec fn lookup(scopes: Seq<ScopeModel>, name: Seq<char>) -> Option<SymbolType>
    decreases scopes.len(),
{
    if scopes.len() == 0 {
        None
    } else {
        match lookup_in_scope(scopes.last(), name) {
            Some(symbol) => Some(symbol),
            None => lookup(scopes.drop_last(), name),
        }
    }
}

/// The position of a name in the builtin table.
pub open spec fn builtin_position(names: Seq<Seq<char>>, name: Seq<char>) -> Option<int>
    decreases names.len(),
{
    if names.len() == 0 {
        None
    } else if names.last() == name {
        Some(names.len() - 1)
    } else {
        builtin_position(names.drop_last(), name)
    }
}

/// The entry registered for an overload, if any.
pub open spec fn find_overload(functions: Seq<FunctionModel>, id: u32, parameters: Seq<Kind>) -> Option<Function>
    decreases functions.len(),
{
    if functions.len() == 0 {
        None
    } else if functions.last().0 == id && functions.last().1 == parameters {
        Some(functions.last().2)
    } else {
        find_overload(functions.drop_last(), id, parameters)
    }
}

/// The position of the first relative reference to a station.
pub open spec fn find_reference(pipeline: Seq<RelativeReference>, station: u16) -> Option<int>
    decreases pipeline.len(),
{
    if pipeline.len() == 0 {
        None
    } else {
        match find_reference(pipeline.drop_last(), station) {
            Some(i) => Some(i),
            None => if pipeline.last().index_in_stations == station {
                Some(pipeline.len() - 1)
            } else {
                None
            },
        }
    }
}

/// No name is bound twice in one scope.
pub open spec fn scope_distinct(scope: ScopeModel) -> bool {
    forall|i: int, j: int| 0 <= i < j < scope.len() ==> scope[i].0 != scope[j].0
}

/// No overload is registered twice.
pub open spec fn overloads_distinct(functions: Seq<FunctionModel>) -> bool {
    forall|i: int, j: int|
        0 <= i < j < functions.len() ==> !(functions[i].0 == functions[j].0 && functions[i].1 == functions[j].1)
}

/// `scope` with `name` bound to `symbol`, as a hash map insertion leaves it.
pub open spec fn bind(scope: ScopeModel, name: Seq<char>, symbol: SymbolType) -> ScopeModel {
    scope.push((name, symbol))
}

/// `functions` with the overload `(id, parameters)` set to `function`.
pub open spec fn register(functions: Seq<FunctionModel>, id: u32, parameters: Seq<Kind>, function: Function) -> Seq<FunctionModel> {
    match overload_position(functions, id, parameters) {
        Some(i) => functions.update(i, (id, parameters, function)),
        None => functions.push((id, parameters, function)),
    }
}

/// Where the overload `(id, parameters)` is registered.
pub open spec fn overload_position(functions: Seq<FunctionModel>, id: u32, parameters: Seq<Kind>) -> Option<int>
    decreases functions.len(),
{
    if functions.len() == 0 {
        None
    } else if functions.last().0 == id && functions.last().1 == parameters {
        Some(functions.len() - 1)
    } else {
        overload_position(functions.drop_last(), id, parameters)
    }
}

/// Whether registering `name` with these parameter kinds in the innermost
/// scope is refused: the name is bound there to something other than a
/// function, or that very overload is registered already.
pub open spec fn function_clash(scope: ScopeModel, functions: Seq<FunctionModel>, name: Seq<char>, parameters: Seq<Kind>) -> bool {
    match lookup_in_scope(scope, name) {
        Some(SymbolType::FunctionScope(id)) => find_overload(functions, id, parameters) is Some,
        Some(_) => true,
        None => false,
    }
}

proof fn lemma_lookup_in_scope_index(scope: ScopeModel, name: Seq<char>)
    ensures
        lookup_in_scope(scope, name) is None <==> forall|i: int| 0 <= i < scope.len() ==> scope[i].0 != name,
        lookup_in_scope(scope, name) is Some ==> exists|i: int| 0 <= i < scope.len() && scope[i].0 == name
            && lookup_in_scope(scope, name) == Some(scope[i].1),
    decreases scope.len(),
{
    if scope.len() > 0 {
        lemma_lookup_in_scope_index(scope.drop_last(), name);
        if scope.last().0 == name {
            assert(scope[scope.len() - 1].0 == name);
        } else {
            assert forall|i: int| 0 <= i < scope.drop_last().len() implies scope.drop_last()[i] == scope[i] by {}
        }
    }
}

proof fn lemma_find_overload(functions: Seq<FunctionModel>, id: u32, parameters: Seq<Kind>)
    ensures
        find_overload(functions, id, parameters) is None <==> overload_position(functions, id, parameters) is None,
        overload_position(functions, id, parameters) matches Some(i) ==> 0 <= i < functions.len()
            && functions[i].0 == id && functions[i].1 == parameters
            && find_overload(functions, id, parameters) == Some(functions[i].2),
        overload_position(functions, id, parameters) is None ==> forall|i: int|
            0 <= i < functions.len() ==> !(functions[i].0 == id && functions[i].1 == parameters),
    decreases functions.len(),
{
    if functions.len() > 0 {
        lemma_find_overload(functions.drop_last(), id, parameters);
        if overload_position(functions, id, parameters) is None {
            assert forall|i: int| 0 <= i < functions.len() implies !(#[trigger] functions[i].0 == id && functions[i].1 == parameters) by {
                if i < functions.len() - 1 {
                    assert(functions.drop_last()[i] == functions[i]);
                }
            }
        }
    }
}

proof fn lemma_find_overload_distinct(functions: Seq<FunctionModel>, i: int)
    requires
        overloads_distinct(functions),
        0 <= i < functions.len(),
    ensures
        overload_position(functions, functions[i].0, functions[i].1) == Some(i),
    decreases functions.len(),
{
    if i < functions.len() - 1 {
        lemma_find_overload_distinct(functions.drop_last(), i);
    }
}

proof fn lemma_lookup_in_scope_push(scope: ScopeModel, name: Seq<char>, symbol: SymbolType, other: Seq<char>)
    ensures
        lookup_in_scope(bind(scope, name, symbol), other)
            == (if other == name { Some(symbol) } else { lookup_in_scope(scope, other) }),
{
    assert(bind(scope, name, symbol).drop_last() == scope);
}

proof fn lemma_builtin_position(names: Seq<Seq<char>>, name: Seq<char>)
    ensures
        builtin_position(names, name) matches Some(i) ==> 0 <= i < names.len() && names[i] == name,
        builtin_position(names, name) is None ==> forall|i: int| 0 <= i < names.len() ==> names[i] != name,
    decreases names.len(),
{
    if names.len() > 0 {
        lemma_builtin_position(names.drop_last(), name);
        if builtin_position(names, name) is None {
            assert forall|i: int| 0 <= i < names.len() implies #[trigger] names[i] != name by {
                if i < names.len() - 1 {
                    assert(names.drop_last()[i] == names[i]);
                }
            }
        }
    }
}

/// The builtin table names each builtin once, so a name stands for at most
/// one builtin.
pub proof fn law_builtin_names_distinct()
    ensures
        forall|i: int, j: int| 0 <= i < j < builtin_names().len() ==> builtin_names()[i] != builtin_names()[j],
{
    reveal_strlit("+");
    reveal_strlit("-");
    reveal_strlit("*");
    reveal_strlit("print");
    reveal_strlit("to_string");
    reveal_strlit("to_integer");
    reveal_strlit("to_float");
    reveal_strlit("to_boolean");
    reveal_strlit("==");
    reveal_strlit("<");
    reveal_strlit(">");
    reveal_strlit("<=");
    reveal_strlit(">=");
    reveal_strlit("!=");
    reveal_strlit("length");
    reveal_strlit("push");
    reveal_strlit("pop");
    let n = builtin_names();
    assert forall|i: int, j: int| 0 <= i < j < n.len() implies n[i] != n[j] by {
        if n[i] == n[j] {
            assert(n[i].len() == n[j].len());
            assert(n[i][0] == n[j][0]);
            if n[i].len() > 1 {
                assert(n[i][1] == n[j][1]);
            }
            if n[i].len() > 3 {
                assert(n[i][3] == n[j][3]);
            }
            if n[i].len() > 8 {
                assert(n[i][8] == n[j][8]);
            }
        }
    }
}

fn symbol_of(entry: &ScopeEntry) -> (symbol: SymbolType)
    ensures
        symbol == entry.symbol,
{
    entry.symbol
}

impl SymbolTable {
    /// The scopes, outermost first.
    pub open spec fn scopes_view(&self) -> Seq<ScopeModel> {
        self.scopes@.map_values(|scope: Vec<ScopeEntry>| scope@.map_values(|e: ScopeEntry| (e.name@, e.symbol)))
    }

    /// The registered overloads of user functions.
    pub open spec fn functions_view(&self) -> Seq<FunctionModel> {
        self.functions@.map_values(|f: FunctionEntry| (f.id, f.parameters_kind@, f.function))
    }

    /// The builtin names, by table position.
    pub open spec fn builtins_view(&self) -> Seq<Seq<char>> {
        self.builtins@.map_values(|name: String| name@)
    }

    /// The innermost scope.
    pub open spec fn innermost(&self) -> ScopeModel {
        self.scopes_view().last()
    }

    /// The builtins are those of the table, no scope binds a name twice and
    /// no overload is registered twice.
    pub open spec fn wf(&self) -> bool {
        &&& self.builtins_view() == builtin_names()
        &&& forall|k: int| 0 <= k < self.scopes_view().len() ==> #[trigger] scope_distinct(self.scopes_view()[k])
        &&& overloads_distinct(self.functions_view())
    }

    /// A table with the builtins and one empty scope.
    pub fn with_builtins() -> (table: Self)
        ensures
            table.wf(),
            table.scopes_view() == seq![Seq::<(Seq<char>, SymbolType)>::empty()],
            table.functions_view() == Seq::<FunctionModel>::empty(),
            table.all_variable@ == Seq::<Kind>::empty(),
            table.pipeline@ == Seq::<RelativeReference>::empty(),
    {
        let mut builtins: Vec<String> = Vec::new();
        let mut index: u16 = 0;
        while index < BUILTIN_COUNT
            invariant
                index <= BUILTIN_COUNT,
                builtins@.map_values(|name: String| name@) == builtin_names().take(index as int),
            decreases BUILTIN_COUNT - index,
        {
            let name = get_builtin_name(index);
            let ghost before = builtins@;
            builtins.push(name.to_owned());
            assert(builtins@.map_values(|name: String| name@) =~= before.map_values(|name: String| name@).push(builtin_name(index as int)));
            index += 1;
            assert(builtin_names().take(index as int) =~= builtin_names().take(index - 1).push(builtin_name(index - 1)));
        }
        assert(builtin_names().take(17) =~= builtin_names());
        let mut scopes: Vec<Vec<ScopeEntry>> = Vec::new();
        scopes.push(Vec::new());
        let table = SymbolTable {
            builtins,
            scopes,
            all_variable: Vec::new(),
            functions: Vec::new(),
            pipeline: Vec::new(),
        };
        assert(table.scopes_view() =~~= seq![Seq::<(Seq<char>, SymbolType)>::empty()]);
        assert(table.functions_view() =~= Seq::<FunctionModel>::empty());
        table
    }

    /// Opens a new innermost scope.
    pub fn new_scope(&mut self)
        requires
            old(self).wf(),
        ensures
            final(self).wf(),
            final(self).scopes_view() == old(self).scopes_view().push(Seq::empty()),
            final(self).functions_view() == old(self).functions_view(),
            final(self).builtins_view() == old(self).builtins_view(),
            final(self).all_variable == old(self).all_variable,
            final(self).pipeline == old(self).pipeline,
    {
        self.scopes.push(Vec::new());
        assert(self.scopes_view() =~~= old(self).scopes_view().push(Seq::empty()));
    }

    /// Closes the innermost scope, if there is one.
    pub fn pop_scope(&mut self)
        requires
            old(self).wf(),
        ensures
            final(self).wf(),
            final(self).scopes_view() == (if old(self).scopes_view().len() == 0 {
                old(self).scopes_view()
            } else {
                old(self).scopes_view().drop_last()
            }),
            final(self).functions_view() == old(self).functions_view(),
            final(self).builtins_view() == old(self).builtins_view(),
            final(self).all_variable == old(self).all_variable,
            final(self).pipeline == old(self).pipeline,
    {
        let _ = self.scopes.pop();
        assert(self.scopes_view() =~= (if old(self).scopes_view().len() == 0 {
            old(self).scopes_view()
        } else {
            old(self).scopes_view().drop_last()
        }));
    }

    fn position_in_innermost(&self, name: &String) -> (position: Option<usize>)
        requires
            self.scopes@.len() > 0,
        ensures
            self.innermost().len() == self.scopes@.last()@.len(),
            match position {
                Some(i) => i < self.innermost().len() && self.innermost()[i as int].0 == name@
                    && self.scopes@.last()@[i as int].symbol == self.innermost()[i as int].1,
                None => forall|i: int| 0 <= i < self.innermost().len() ==> self.innermost()[i].0 != name@,
            },
    {
        let last = self.scopes.len() - 1;
        let scope = &self.scopes[last];
        let mut i: usize = 0;
        while i < scope.len()
            invariant
                scope == self.scopes@[last as int],
                last == self.scopes@.len() - 1,
                i <= scope@.len(),
                forall|k: int| 0 <= k < i ==> self.innermost()[k].0 != name@,
            decreases scope@.len() - i,
        {
            if scope[i].name == *name {
                return Some(i);
            }
            i += 1;
        }
        None
    }

    /// Binds a variable in the innermost scope. A name bound there already
    /// is refused with what it is bound to, and nothing changes.
    pub fn add_variable(&mut self, variable: String, kind: Kind) -> (result: Result<SymbolType, SymbolType>)
        requires
            old(self).wf(),
            old(self).scopes_view().len() > 0,
        ensures
            final(self).wf(),
            match lookup_in_scope(old(self).innermost(), variable@) {
                Some(existing) => {
                    &&& result == Err::<SymbolType, SymbolType>(existing)
                    &&& final(self).scopes_view() == old(self).scopes_view()
                    &&& final(self).all_variable@ == old(self).all_variable@
                },
                None => {
                    let symbol = SymbolType::VariableScope(
                        old(self).innermost().len() as u16,
                        old(self).all_variable@.len() as u32,
                    );
                    &&& result == Ok::<SymbolType, SymbolType>(symbol)
                    &&& final(self).scopes_view() == old(self).scopes_view().drop_last().push(
                        bind(old(self).innermost(), variable@, symbol))
                    &&& final(self).all_variable@ == old(self).all_variable@.push(kind)
                },
            },
            final(self).functions_view() == old(self).functions_view(),
            final(self).builtins_view() == old(self).builtins_view(),
            final(self).pipeline == old(self).pipeline,
    {
        proof {
            lemma_lookup_in_scope_index(self.innermost(), variable@);
        }
        match self.position_in_innermost(&variable) {
            Some(i) => {
                let last = self.scopes.len() - 1;
                let symbol = symbol_of(&self.scopes[last][i]);
                proof {
                    let scope = self.innermost();
                    if lookup_in_scope(scope, variable@) matches Some(s) {
                        let j = choose|j: int| 0 <= j < scope.len() && scope[j].0 == variable@
                            && lookup_in_scope(scope, variable@) == Some(scope[j].1);
                        assert(scope_distinct(self.scopes_view()[self.scopes_view().len() - 1]));
                        assert(j == i);
                    }
                }
                Err(symbol)
            },
            None => {
                let ghost old_scopes = self.scopes_view();
                let mut scope = self.scopes.pop().unwrap();
                let index = scope.len() as u16;
                let variable_index = self.all_variable.len() as u32;
                self.all_variable.push(kind);
                let symbol = SymbolType::VariableScope(index, variable_index);
                let ghost before = scope@;
                scope.push(ScopeEntry { name: variable, symbol });
                self.scopes.push(scope);
                proof {
                    let inner = old_scopes.last();
                    assert(old_scopes.len() > 0);
                    assert(self.scopes_view() =~~= old_scopes.drop_last().push(bind(inner, variable@, symbol)));
                    assert forall|k: int| 0 <= k < self.scopes_view().len() implies #[trigger] scope_distinct(self.scopes_view()[k]) by {
                        if k < self.scopes_view().len() - 1 {
                            assert(self.scopes_view()[k] == old_scopes[k]);
                        } else {
                            assert(scope_distinct(old_scopes[k]));
                        }
                    }
                }
                Ok(symbol)
            },
        }
    }

    /// The variable that captures station `index_in_stations` of the current
    /// pipeline: the one made for it earlier, or a new one of `kind`.
    pub fn add_relative_reference(&mut self, index_in_stations: u16, kind: Kind) -> (symbol: SymbolType)
        ensures
            match find_reference(old(self).pipeline@, index_in_stations) {
                Some(i) => {
                    &&& symbol == SymbolType::VariableScope(i as u16, old(self).pipeline@[i].variable_index)
                    &&& final(self).pipeline@ == old(self).pipeline@
                    &&& final(self).all_variable@ == old(self).all_variable@
                },
                None => {
                    let variable_index = old(self).all_variable@.len() as u32;
                    &&& symbol == SymbolType::VariableScope(old(self).pipeline@.len() as u16, variable_index)
                    &&& final(self).pipeline@ == old(self).pipeline@.push(
                        RelativeReference { index_in_stations, variable_index })
                    &&& final(self).all_variable@ == old(self).all_variable@.push(kind)
                },
            },
            final(self).scopes_view() == old(self).scopes_view(),
            final(self).functions_view() == old(self).functions_view(),
            final(self).builtins_view() == old(self).builtins_view(),
            final(self).wf() == old(self).wf(),
    {
        let mut index: usize = 0;
        while index < self.pipeline.len()
            invariant
                index <= self.pipeline@.len(),
                find_reference(self.pipeline@.take(index as int), index_in_stations) is None,
            decreases self.pipeline@.len() - index,
        {
            let reference = self.pipeline[index];
            assert(self.pipeline@.take(index + 1).drop_last() =~= self.pipeline@.take(index as int));
            if reference.index_in_stations == index_in_stations {
                proof {
                    lemma_find_reference_prefix(self.pipeline@, index + 1);
                }
                return SymbolType::VariableScope(index as u16, reference.variable_index);
            }
            index += 1;
        }
        assert(self.pipeline@.take(index as int) =~= self.pipeline@);
        let position = self.pipeline.len() as u16;
        let variable_index = self.all_variable.len() as u32;
        self.pipeline.push(RelativeReference { index_in_stations, variable_index });
        self.all_variable.push(kind);
        SymbolType::VariableScope(position, variable_index)
    }

    /// Whether `add_function` refuses these arguments: `name` is bound in the
    /// innermost scope to something other than a function, or to a function
    /// that already has an overload with these parameter kinds.
    pub fn function_clashes(&self, name: &String, parameters_kind: &Vec<Kind>) -> (clash: bool)
        requires
            self.wf(),
            self.scopes_view().len() > 0,
        ensures
            clash == function_clash(self.innermost(), self.functions_view(), name@, parameters_kind@),
    {
        proof {
            lemma_lookup_in_scope_index(self.innermost(), name@);
        }
        match self.position_in_innermost(name) {
            None => false,
            Some(i) => {
                let last = self.scopes.len() - 1;
                let symbol = symbol_of(&self.scopes[last][i]);
                proof {
                    let scope = self.innermost();
                    let j = choose|j: int| 0 <= j < scope.len() && scope[j].0 == name@
                        && lookup_in_scope(scope, name@) == Some(scope[j].1);
                    assert(scope_distinct(self.scopes_view()[self.scopes_view().len() - 1]));
                    assert(j == i);
                }
                match symbol {
                    SymbolType::FunctionScope(id) => self.overload_index(id, parameters_kind).is_some(),
                    _ => true,
                }
            },
        }
    }

    fn overload_index(&self, id: u32, parameters_kind: &Vec<Kind>) -> (position: Option<usize>)
        ensures
            position matches Some(i) ==> overload_position(self.functions_view(), id, parameters_kind@) == Some(i as int),
            position is None <==> overload_position(self.functions_view(), id, parameters_kind@) is None,
            position matches Some(i) ==> i < self.functions@.len(),
            find_overload(self.functions_view(), id, parameters_kind@) is None <==> position is None,
            position matches Some(i) ==> find_overload(self.functions_view(), id, parameters_kind@)
                == Some(self.functions@[i as int].function),
    {
        proof {
            lemma_find_overload(self.functions_view(), id, parameters_kind@);
        }
        let mut i: usize = self.functions.len();
        assert(self.functions_view().take(i as int) =~= self.functions_view());
        while i > 0
            invariant
                i <= self.functions@.len(),
                overload_position(self.functions_view(), id, parameters_kind@)
                    == overload_position(self.functions_view().take(i as int), id, parameters_kind@),
            decreases i,
        {
            let entry = &self.functions[i - 1];
            assert(self.functions_view().take(i as int).drop_last() =~= self.functions_view().take(i - 1));
            if entry.id == id && kinds_equal(&entry.parameters_kind, parameters_kind) {
                assert(self.functions_view()[i - 1] == (entry.id, entry.parameters_kind@, entry.function));
                assert(self.functions_view().take(i as int).last() == self.functions_view()[i - 1]);
                proof {
                    lemma_find_overload(self.functions_view(), id, parameters_kind@);
                }
                return Some(i - 1);
            }
            i -= 1;
        }
        None
    }

    /// Registers an overload of the user function `function_name`. A name not
    /// bound in the innermost scope gets a new function identifier there; a
    /// name bound to a function gets one more overload.
    pub fn add_function(&mut self, function_name: String, parameters_kind: Vec<Kind>, result: Kind)
        requires
            old(self).wf(),
            old(self).scopes_view().len() > 0,
            !function_clash(old(self).innermost(), old(self).functions_view(), function_name@, parameters_kind@),
        ensures
            final(self).wf(),
            ({
                let function_index = old(self).functions_view().len() as u32;
                let function = Function { index: function_index, result };
                match lookup_in_scope(old(self).innermost(), function_name@) {
                    Some(SymbolType::FunctionScope(id)) => {
                        &&& final(self).functions_view() == register(old(self).functions_view(), id, parameters_kind@, function)
                        &&& final(self).scopes_view() == old(self).scopes_view()
                    },
                    _ => {
                        &&& final(self).functions_view() == register(old(self).functions_view(), function_index, parameters_kind@, function)
                        &&& final(self).scopes_view() == old(self).scopes_view().drop_last().push(
                            bind(old(self).innermost(), function_name@, SymbolType::FunctionScope(function_index)))
                    },
                }
            }),
            final(self).builtins_view() == old(self).builtins_view(),
            final(self).all_variable == old(self).all_variable,
            final(self).pipeline == old(self).pipeline,
    {
        let function_index = self.functions.len() as u32;
        let function = Function { index: function_index, result };
        proof {
            lemma_lookup_in_scope_index(self.innermost(), function_name@);
        }
        match self.position_in_innermost(&function_name) {
            Some(i) => {
                let last = self.scopes.len() - 1;
                let symbol = symbol_of(&self.scopes[last][i]);
                proof {
                    let scope = self.innermost();
                    let j = choose|j: int| 0 <= j < scope.len() && scope[j].0 == function_name@
                        && lookup_in_scope(scope, function_name@) == Some(scope[j].1);
                    assert(scope_distinct(self.scopes_view()[self.scopes_view().len() - 1]));
                    assert(j == i);
                }
                if let SymbolType::FunctionScope(id) = symbol {
                    self.insert_overload(id, parameters_kind, function);
                }
            },
            None => {
                let ghost old_scopes = self.scopes_view();
                self.insert_overload(function_index, parameters_kind, function);
                let mut scope = self.scopes.pop().unwrap();
                let symbol = SymbolType::FunctionScope(function_index);
                scope.push(ScopeEntry { name: function_name, symbol });
                self.scopes.push(scope);
                proof {
                    let inner = old_scopes.last();
                    assert(self.scopes_view() =~~= old_scopes.drop_last().push(bind(inner, function_name@, symbol)));
                    assert forall|k: int| 0 <= k < self.scopes_view().len() implies #[trigger] scope_distinct(self.scopes_view()[k]) by {
                        if k < self.scopes_view().len() - 1 {
                            assert(self.scopes_view()[k] == old_scopes[k]);
                        } else {
                            assert(scope_distinct(old_scopes[k]));
                        }
                    }
                }
            },
        }
    }

    fn insert_overload(&mut self, id: u32, parameters_kind: Vec<Kind>, function: Function)
        requires
            old(self).wf(),
        ensures
            final(self).wf(),
            final(self).functions_view() == register(old(self).functions_view(), id, parameters_kind@, function),
            final(self).scopes_view() == old(self).scopes_view(),
            final(self).builtins_view() == old(self).builtins_view(),
            final(self).all_variable == old(self).all_variable,
            final(self).pipeline == old(self).pipeline,
    {
        let ghost old_functions = self.functions_view();
        proof {
            lemma_find_overload(old_functions, id, parameters_kind@);
            lemma_register_distinct(old_functions, id, parameters_kind@, function);
        }
        match self.overload_index(id, &parameters_kind) {
            Some(i) => {
                let ghost params = parameters_kind@;
                let mut entries = Vec::new();
                std::mem::swap(&mut entries, &mut self.functions);
                entries.set(i, FunctionEntry { id, parameters_kind, function });
                self.functions = entries;
                proof {
                    assert(self.functions_view() =~= old_functions.update(i as int, (id, params, function)));
                    assert(overload_position(old_functions, id, params) == Some(i as int));
                    assert(self.functions_view() == register(old_functions, id, params, function));
                    assert(overloads_distinct(self.functions_view()));
                    assert(self.scopes_view() == old(self).scopes_view());
                    assert(self.builtins_view() == old(self).builtins_view());
                }
            },
            None => {
                let ghost params = parameters_kind@;
                self.functions.push(FunctionEntry { id, parameters_kind, function });
                proof {
                    assert(self.functions_view() =~= old_functions.push((id, params, function)));
                    assert(self.functions_view() == register(old_functions, id, params, function));
                }
            },
        }
    }

    /// The overload of function `id` whose parameters have these kinds.
    pub fn find_function(&self, id: u32, parameters_kind: Vec<Kind>) -> (found: Result<Function, TypeError>)
        ensures
            match find_overload(self.functions_view(), id, parameters_kind@) {
                Some(function) => found == Ok::<Function, TypeError>(function),
                None => found matches Err(e) && e.kind matches TypeErrorType::NoFunctionFound(kinds)
                    && kinds@ == parameters_kind@,
            },
    {
        match self.overload_index(id, &parameters_kind) {
            Some(i) => Ok(self.functions[i].function),
            None => Err(TypeError { kind: TypeErrorType::NoFunctionFound(parameters_kind) }),
        }
    }

    /// What `name` stands for: its binding in the innermost scope that has
    /// one, else the builtin of that name.
    pub fn resolve(&self, name: &str) -> (resolved: Result<SymbolType, SemanticError>)
        requires
            self.wf(),
        ensures
            match lookup(self.scopes_view(), name@) {
                Some(symbol) => resolved == Ok::<SymbolType, SemanticError>(symbol),
                None => match builtin_position(builtin_names(), name@) {
                    Some(i) => resolved == Ok::<SymbolType, SemanticError>(SymbolType::Builtin(i as u16)),
                    None => resolved matches Err(e) && e.kind matches SemanticErrorType::UndefinedIdentifier(n)
                        && n@ == name@,
                },
            },
    {
        let owned = name.to_owned();
        let mut depth: usize = self.scopes.len();
        assert(self.scopes_view().take(depth as int) =~= self.scopes_view());
        while depth > 0
            invariant
                owned@ == name@,
                depth <= self.scopes@.len(),
                lookup(self.scopes_view(), name@) == lookup(self.scopes_view().take(depth as int), name@),
            decreases depth,
        {
            let scope = &self.scopes[depth - 1];
            assert(self.scopes_view().take(depth as int).drop_last() =~= self.scopes_view().take(depth - 1));
            assert(self.scopes_view().take(depth as int).last() == self.scopes_view()[depth - 1]);
            let mut i: usize = scope.len();
            assert(self.scopes_view()[depth - 1].take(i as int) =~= self.scopes_view()[depth - 1]);
            while i > 0
                invariant
                    owned@ == name@,
                    0 < depth <= self.scopes@.len(),
                    lookup(self.scopes_view(), name@) == lookup(self.scopes_view().take(depth as int), name@),
                    self.scopes_view().take(depth as int).last() == self.scopes_view()[depth - 1],
                    scope == self.scopes@[depth - 1],
                    i <= scope@.len(),
                    lookup_in_scope(self.scopes_view()[depth - 1], name@)
                        == lookup_in_scope(self.scopes_view()[depth - 1].take(i as int), name@),
                decreases i,
            {
                let ghost sv = self.scopes_view()[depth - 1];
                assert(sv.take(i as int).drop_last() =~= sv.take(i - 1));
                if scope[i - 1].name == owned {
                    proof {
                        assert(sv.take(i as int).last() == sv[i - 1]);
                        assert(sv[i - 1] == (scope@[i - 1].name@, scope@[i - 1].symbol));
                    }
                    return Ok(scope[i - 1].symbol);
                }
                i -= 1;
            }
            assert(self.scopes_view()[depth - 1].take(0) =~= Seq::<(Seq<char>, SymbolType)>::empty());
            depth -= 1;
        }
        assert(self.scopes_view().take(0) =~= Seq::<ScopeModel>::empty());
        let mut index: usize = self.builtins.len();
        assert(builtin_names().take(index as int) =~= builtin_names());
        while index > 0
            invariant
                owned@ == name@,
                lookup(self.scopes_view(), name@) is None,
                index <= self.builtins@.len(),
                self.builtins_view() == builtin_names(),
                builtin_position(builtin_names(), name@) == builtin_position(builtin_names().take(index as int), name@),
            decreases index,
        {
            assert(builtin_names().take(index as int).drop_last() =~= builtin_names().take(index - 1));
            assert(self.builtins@[index - 1]@ == self.builtins_view()[index - 1]);
            if self.builtins[index - 1] == owned {
                assert(builtin_names().take(index as int).last() == builtin_names()[index - 1]);
                return Ok(SymbolType::Builtin((index - 1) as u16));
            }
            index -= 1;
        }
        assert(builtin_names().take(0) =~= Seq::<Seq<char>>::empty());
        Err(SemanticError { kind: SemanticErrorType::UndefinedIdentifier(owned) })
    }
}

proof fn lemma_find_reference_prefix(pipeline: Seq<RelativeReference>, n: int)
    requires
        0 < n <= pipeline.len(),
        find_reference(pipeline.take(n - 1), pipeline[n - 1].index_in_stations) is None,
    ensures
        find_reference(pipeline, pipeline[n - 1].index_in_stations) == Some(n - 1),
    decreases pipeline.len(),
{
    let station = pipeline[n - 1].index_in_stations;
    assert(pipeline.take(n).drop_last() =~= pipeline.take(n - 1));
    if n < pipeline.len() {
        assert(pipeline.drop_last().take(n - 1) =~= pipeline.take(n - 1));
        lemma_find_reference_prefix(pipeline.drop_last(), n);
        assert(pipeline.drop_last()[n - 1] == pipeline[n - 1]);
    } else {
        assert(pipeline.drop_last() =~= pipeline.take(n - 1));
    }
}

proof fn lemma_register_distinct(functions: Seq<FunctionModel>, id: u32, parameters: Seq<Kind>, function: Function)
    requires
        overloads_distinct(functions),
    ensures
        overloads_distinct(register(functions, id, parameters, function)),
{
    lemma_find_overload(functions, id, parameters);
    let r = register(functions, id, parameters, function);
    match overload_position(functions, id, parameters) {
        Some(p) => {
            assert forall|i: int, j: int| 0 <= i < j < r.len() implies !(r[i].0 == r[j].0 && r[i].1 == r[j].1) by {
                if i != p && j != p {
                    assert(r[i] == functions[i] && r[j] == functions[j]);
                } else if i == p {
                    assert(r[j] == functions[j]);
                } else {
                    assert(r[i] == functions[i]);
                }
            }
        },
        None => {
            assert forall|i: int, j: int| 0 <= i < j < r.len() implies !(r[i].0 == r[j].0 && r[i].1 == r[j].1) by {
                assert(r[i] == functions[i]);
                if j < functions.len() {
                    assert(r[j] == functions[j]);
                }
            }
        },
    }
}

/// A name just bound in the innermost scope resolves to what it was bound
/// to, whatever outer scopes bind it to.
pub proof fn law_bound_name_resolves(scopes: Seq<ScopeModel>, name: Seq<char>, symbol: SymbolType)
    requires
        scopes.len() > 0,
    ensures
        lookup(scopes.drop_last().push(bind(scopes.last(), name, symbol)), name) == Some(symbol),
{
    let s = scopes.drop_last().push(bind(scopes.last(), name, symbol));
    assert(s.last() == bind(scopes.last(), name, symbol));
    lemma_lookup_in_scope_push(scopes.last(), name, symbol, name);
}

/// Binding a name leaves every other name resolving as before.
pub proof fn law_binding_keeps_other_names(scopes: Seq<ScopeModel>, name: Seq<char>, symbol: SymbolType, other: Seq<char>)
    requires
        scopes.len() > 0,
        other != name,
    ensures
        lookup(scopes.drop_last().push(bind(scopes.last(), name, symbol)), other) == lookup(scopes, other),
{
    let s = scopes.drop_last().push(bind(scopes.last(), name, symbol));
    assert(s.drop_last() =~= scopes.drop_last());
    lemma_lookup_in_scope_push(scopes.last(), name, symbol, other);
}

/// Opening a scope and closing it again leaves every name resolving as
/// before.
pub proof fn law_scope_round_trip(scopes: Seq<ScopeModel>, name: Seq<char>)
    ensures
        scopes.push(Seq::empty()).drop_last() == scopes,
        lookup(scopes.push(Seq::empty()), name) == lookup(scopes, name),
{
    assert(scopes.push(Seq::empty()).drop_last() =~= scopes);
}

/// The scopes after `bindings` are made, in order, in the innermost scope.
pub open spec fn bound_in_innermost(scopes: Seq<ScopeModel>, bindings: Seq<(Seq<char>, SymbolType)>) -> Seq<ScopeModel>
    decreases bindings.len(),
{
    if bindings.len() == 0 {
        scopes
    } else {
        let before = bound_in_innermost(scopes, bindings.drop_last());
        before.drop_last().push(bind(before.last(), bindings.last().0, bindings.last().1))
    }
}

/// Whatever is bound in a scope opened on top of `scopes` goes when it
/// closes: the scopes are as before, and every name resolves as before.
pub proof fn law_scope_closes_over_bindings(scopes: Seq<ScopeModel>, bindings: Seq<(Seq<char>, SymbolType)>, name: Seq<char>)
    ensures
        bound_in_innermost(scopes.push(Seq::empty()), bindings).len() == scopes.len() + 1,
        bound_in_innermost(scopes.push(Seq::empty()), bindings).drop_last() == scopes,
        lookup(bound_in_innermost(scopes.push(Seq::empty()), bindings).drop_last(), name) == lookup(scopes, name),
    decreases bindings.len(),
{
    if bindings.len() == 0 {
        assert(scopes.push(Seq::empty()).drop_last() =~= scopes);
    } else {
        law_scope_closes_over_bindings(scopes, bindings.drop_last(), name);
        let before = bound_in_innermost(scopes.push(Seq::empty()), bindings.drop_last());
        let after = before.drop_last().push(bind(before.last(), bindings.last().0, bindings.last().1));
        assert(after.drop_last() =~= before.drop_last());
    }
}

/// After a station gets its capturing variable, asking for that station
/// again finds the same entry, so no second variable is made.
pub proof fn law_relative_reference_reused(pipeline: Seq<RelativeReference>, station: u16, variable_index: u32)
    requires
        find_reference(pipeline, station) is None,
    ensures
        find_reference(pipeline.push(RelativeReference { index_in_stations: station, variable_index }), station)
            == Some(pipeline.len() as int),
{
    let p = pipeline.push(RelativeReference { index_in_stations: station, variable_index });
    assert(p.drop_last() =~= pipeline);
}

/// A registered overload is found again by its identifier and parameter
/// kinds, and other overloads keep their entries.
pub proof fn law_registered_overload_found(functions: Seq<FunctionModel>, id: u32, parameters: Seq<Kind>, function: Function, other_id: u32, other_parameters: Seq<Kind>)
    ensures
        find_overload(register(functions, id, parameters, function), id, parameters) == Some(function),
        !(other_id == id && other_parameters == parameters) ==>
            find_overload(register(functions, id, parameters, function), other_id, other_parameters)
                == find_overload(functions, other_id, other_parameters),
    decreases functions.len(),
{
    let r = register(functions, id, parameters, function);
    if functions.len() == 0 {
        assert(r == seq![(id, parameters, function)]);
        assert(r.drop_last() =~= Seq::<FunctionModel>::empty());
        assert(r.last() == (id, parameters, function));
        assert(!(other_id == id && other_parameters == parameters) ==> find_overload(r, other_id, other_parameters) == find_overload(functions, other_id, other_parameters));
    } else {
        let last = functions.last();
        if last.0 == id && last.1 == parameters {
            assert(r == functions.update(functions.len() - 1, (id, parameters, function)));
            assert(r.drop_last() =~= functions.drop_last());
            assert(r.last() == (id, parameters, function));
            assert(!(other_id == id && other_parameters == parameters) ==> find_overload(r, other_id, other_parameters) == find_overload(functions, other_id, other_parameters));
        } else {
            law_registered_overload_found(functions.drop_last(), id, parameters, function, other_id, other_parameters);
            match overload_position(functions.drop_last(), id, parameters) {
                Some(i) => {
                    lemma_find_overload(functions.drop_last(), id, parameters);
                    assert(overload_position(functions, id, parameters) == Some(i));
                    assert(r.drop_last() =~= register(functions.drop_last(), id, parameters, function));
                    assert(r.last() == last);
                    assert(!(other_id == id && other_parameters == parameters) ==> find_overload(r, other_id, other_parameters) == find_overload(functions, other_id, other_parameters));
                },
                None => {
                    assert(r.drop_last() =~= functions);
                    assert(r.last() == (id, parameters, function));
                    assert(!(other_id == id && other_parameters == parameters) ==> find_overload(r, other_id, other_parameters) == find_overload(functions, other_id, other_parameters));
                },
            }
        }
    }
}

fn kinds_equal(a: &Vec<Kind>, b: &Vec<Kind>) -> (equal: bool)
    ensures
        equal == (a@ == b@),
{
    if a.len() != b.len() {
        return false;
    }
    let mut i: usize = 0;
    while i < a.len()
        invariant
            a@.len() == b@.len(),
            i <= a@.len(),
            forall|k: int| 0 <= k < i ==> a@[k] == b@[k],
        decreases a@.len() - i,
    {
        if a[i] != b[i] {
            return false;
        }
        i += 1;
    }
    assert(a@ =~= b@);
    true
}

/// The overload table made by registering each overload of `history` in
/// turn, from an empty table.
pub open spec fn registrations(history: Seq<FunctionModel>) -> Seq<FunctionModel>
    decreases history.len(),
{
    if history.len() == 0 {
        Seq::empty()
    } else {
        register(registrations(history.drop_last()), history.last().0, history.last().1, history.last().2)
    }
}

/// Looking an overload up in a table built by registrations finds what the
/// latest registration of that identifier and those parameter kinds gave,
/// and nothing where none was made.
pub proof fn law_overload_lookup_follows_history(history: Seq<FunctionModel>, id: u32, parameters: Seq<Kind>)
    ensures
        find_overload(registrations(history), id, parameters) == find_overload(history, id, parameters),
    decreases history.len(),
{
    if history.len() > 0 {
        law_overload_lookup_follows_history(history.drop_last(), id, parameters);
        let last = history.last();
        law_registered_overload_found(registrations(history.drop_last()), last.0, last.1, last.2, id, parameters);
    }
}

} // verus!
