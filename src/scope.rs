use vstd::prelude::*;

verus! {

/// How a scope was opened; bookkeeping only, name resolution ignores it.
#[derive(Clone, Copy, Debug, PartialEq, Eq, Structural)]
pub enum ScopeCategory {
    Root,
    Sequential,
    Transparent,
    Isolated,
}

/// The instruction kind that opened a scope.
#[derive(Clone, Copy, Debug, PartialEq, Eq, Structural)]
pub enum ScopeAction {
    If,
    Elif,
    Else,
    Function,
    Loop,
}

/// Right-hand side of an assignment, a print argument or a guard.
#[derive(Clone, Debug)]
pub enum Expr {
    Num(i64),
    Var(String),
}

#[derive(Clone, Copy, Debug, PartialEq, Eq, Structural)]
pub enum AssignmentMethod {
    Replace,
    Add,
    Sub,
    Mul,
    Div,
}

/// One guarded arm of a conditional: its guard and the scope it runs.
#[derive(Clone, Debug)]
pub struct ConditionStructure {
    pub scope_pointer: usize,
    pub condition: Expr,
}

/// An if / elif* / else? chain as it sits in a scope's block.
#[derive(Clone, Debug)]
pub struct ConditionBlock {
    pub if_arm: ConditionStructure,
    pub elif_arms: Vec<ConditionStructure>,
    pub else_arm: Option<usize>,
}

#[derive(Clone, Debug)]
pub enum InstructionEnum {
    Print(Vec<Expr>),
    VariableDeclaration(String, Expr, AssignmentMethod),
    Repeat { repeat_count: i64, scope_pointer: usize },
    Function { name: String, args: Vec<String>, scope_pointer: usize },
    CallFunction { name: String, args: Vec<Expr> },
    Break,
    Continue,
    IfBlock { condition: Expr },
    ElifBlock { condition: Expr },
    ElseBlock,
    Condition(ConditionBlock),
}

/// A declared function: its parameter names and the scope of its body.
#[derive(Clone, Debug)]
pub struct FunctionRecord {
    pub args: Vec<String>,
    pub scope_pointer: usize,
}

pub struct Scope {
    pub parent: Option<usize>,
    pub category: ScopeCategory,
    pub action: Option<ScopeAction>,
    pub block: Vec<InstructionEnum>,
    pub variables: Vec<(String, i64)>,
    pub functions: Vec<(String, FunctionRecord)>,
}

/// The mathematical picture of one scope node.
pub ghost struct ScopeView {
    pub parent: Option<usize>,
    pub category: ScopeCategory,
    pub action: Option<ScopeAction>,
    pub block: Seq<InstructionEnum>,
    pub vars: Seq<(Seq<char>, i64)>,
    pub funcs: Seq<(Seq<char>, usize)>,
    /// Parameter names of each function, in the order of `funcs`.
    pub params: Seq<Seq<Seq<char>>>,
}

pub open spec fn vars_view(v: Seq<(String, i64)>) -> Seq<(Seq<char>, i64)> {
    v.map_values(|p: (String, i64)| (p.0@, p.1))
}

pub open spec fn funcs_view(v: Seq<(String, FunctionRecord)>) -> Seq<(Seq<char>, usize)> {
    v.map_values(|p: (String, FunctionRecord)| (p.0@, p.1.scope_pointer))
}

pub open spec fn args_view(a: Seq<String>) -> Seq<Seq<char>> {
    a.map_values(|x: String| x@)
}

pub open spec fn params_view(v: Seq<(String, FunctionRecord)>) -> Seq<Seq<Seq<char>>> {
    v.map_values(|p: (String, FunctionRecord)| args_view(p.1.args@))
}

impl Scope {
    pub open spec fn view(&self) -> ScopeView {
        ScopeView {
            parent: self.parent,
            category: self.category,
            action: self.action,
            block: self.block@,
            vars: vars_view(self.variables@),
            funcs: funcs_view(self.functions@),
            params: params_view(self.functions@),
        }
    }
}

/// The arena that owns every scope; a handle is an index into it.
pub struct ScopeManager {
    pub scopes: Vec<Scope>,
}

/// Index of the first binding of `name` in `vars`, searching from `j`.
pub open spec fn find_from<V>(vars: Seq<(Seq<char>, V)>, name: Seq<char>, j: int) -> Option<int>
    decreases vars.len() - j,
{
    if j < 0 || j >= vars.len() {
        None
    } else if vars[j].0 == name {
        Some(j)
    } else {
        find_from(vars, name, j + 1)
    }
}

pub open spec fn find_name<V>(vars: Seq<(Seq<char>, V)>, name: Seq<char>) -> Option<int> {
    find_from(vars, name, 0)
}

/// No name is bound twice.
pub open spec fn unique_names<V>(v: Seq<(Seq<char>, V)>) -> bool {
    forall|a: int, b: int| 0 <= a < b < v.len() ==> (#[trigger] v[a]).0 != (#[trigger] v[b]).0
}

pub proof fn lemma_find_none<V>(v: Seq<(Seq<char>, V)>, name: Seq<char>, j: int)
    requires
        0 <= j,
        find_from(v, name, j) is None,
    ensures
        forall|k: int| j <= k < v.len() ==> (#[trigger] v[k]).0 != name,
    decreases v.len() - j,
{
    if j < v.len() {
        lemma_find_none(v, name, j + 1);
    }
}

/// Binding a name keeps names unique.
pub proof fn lemma_bind_unique<V>(v: Seq<(Seq<char>, V)>, name: Seq<char>, x: V)
    requires
        unique_names(v),
    ensures
        unique_names(bind(v, name, x)),
{
    lemma_find_range(v, name, 0);
    if find_name(v, name) is None {
        lemma_find_none(v, name, 0);
        let w = bind(v, name, x);
        assert forall|a: int, b: int| 0 <= a < b < w.len() implies (#[trigger] w[a]).0 != (#[trigger] w[b]).0 by {
            if b == v.len() {
                assert(v[a].0 != name);
            } else {
                assert(w[a] == v[a] && w[b] == v[b]);
            }
        }
    } else {
        let k = find_name(v, name)->Some_0;
        let w = bind(v, name, x);
        assert forall|a: int, b: int| 0 <= a < b < w.len() implies (#[trigger] w[a]).0 != (#[trigger] w[b]).0 by {
            assert(w[a].0 == v[a].0 && w[b].0 == v[b].0);
        }
    }
}

/// `v` with `name` bound to `x`: the existing binding replaced, or a new one appended.
pub open spec fn bind<V>(v: Seq<(Seq<char>, V)>, name: Seq<char>, x: V) -> Seq<(Seq<char>, V)> {
    match find_name(v, name) {
        Some(k) => v.update(k, (name, x)),
        None => v.push((name, x)),
    }
}

pub proof fn lemma_find_update<V>(vars: Seq<(Seq<char>, V)>, name: Seq<char>, k: int, v: V, j: int)
    requires
        0 <= k < vars.len(),
        vars[k].0 == name,
    ensures
        find_from(vars.update(k, (name, v)), name, j) == find_from(vars, name, j),
    decreases vars.len() - j,
{
    if 0 <= j < vars.len() {
        lemma_find_update(vars, name, k, v, j + 1);
    }
}

pub proof fn lemma_find_push<V>(vars: Seq<(Seq<char>, V)>, name: Seq<char>, v: V, j: int)
    requires
        0 <= j,
        find_from(vars, name, j) is None,
    ensures
        find_from(vars.push((name, v)), name, j) == (if j <= vars.len() { Some(vars.len() as int) } else { None::<int> }),
    decreases vars.len() + 1 - j,
{
    if j < vars.len() {
        lemma_find_push(vars, name, v, j + 1);
    }
}

pub open spec fn parent_of(m: Seq<ScopeView>, s: int) -> Option<int> {
    if 0 <= s < m.len() {
        match m[s].parent {
            Some(p) => if p < s { Some(p as int) } else { None },
            None => None,
        }
    } else {
        None
    }
}

/// Distance from `s` to the root of its tree.
pub open spec fn depth(m: Seq<ScopeView>, s: int) -> nat
    decreases s,
{
    match parent_of(m, s) {
        Some(p) => if 0 <= p < s { 1 + depth(m, p) } else { 0 },
        None => 0,
    }
}

/// The nearest scope, walking up from `s` (inclusive), that binds variable `name`.
pub open spec fn var_owner(m: Seq<ScopeView>, s: int, name: Seq<char>) -> Option<int>
    decreases s,
{
    if !(0 <= s < m.len()) {
        None
    } else if find_name(m[s].vars, name) is Some {
        Some(s)
    } else {
        match parent_of(m, s) {
            Some(p) => if 0 <= p < s { var_owner(m, p, name) } else { None },
            None => None,
        }
    }
}

/// The value a read of `name` from scope `s` sees.
pub open spec fn read_var(m: Seq<ScopeView>, s: int, name: Seq<char>) -> Option<i64> {
    match var_owner(m, s, name) {
        Some(o) => Some(m[o].vars[find_name(m[o].vars, name)->Some_0].1),
        None => None,
    }
}

/// Chain write: mutate the nearest binding, or create one in `s` itself.
pub open spec fn write_var(m: Seq<ScopeView>, s: int, name: Seq<char>, v: i64) -> Seq<ScopeView> {
    match var_owner(m, s, name) {
        Some(o) => {
            let k = find_name(m[o].vars, name)->Some_0;
            m.update(o, ScopeView { vars: m[o].vars.update(k, (name, v)), ..m[o] })
        },
        None => m.update(s, ScopeView { vars: m[s].vars.push((name, v)), ..m[s] }),
    }
}

/// The body of the nearest function called `name`, walking up from `s`.
pub open spec fn resolve_function(m: Seq<ScopeView>, s: int, name: Seq<char>) -> Option<usize>
    decreases s,
{
    if !(0 <= s < m.len()) {
        None
    } else if let Some(k) = find_name(m[s].funcs, name) {
        Some(m[s].funcs[k].1)
    } else {
        match parent_of(m, s) {
            Some(p) => if 0 <= p < s { resolve_function(m, p, name) } else { None },
            None => None,
        }
    }
}

pub open spec fn cond_ptrs_ok(c: ConditionBlock, n: nat) -> bool {
    &&& c.if_arm.scope_pointer < n
    &&& forall|j: int| 0 <= j < c.elif_arms@.len() ==> #[trigger] c.elif_arms@[j].scope_pointer < n
    &&& match c.else_arm {
        Some(e) => e < n,
        None => true,
    }
}

/// Every scope handle held by the instruction denotes one of `n` scopes.
pub open spec fn instr_ptrs_ok(i: InstructionEnum, n: nat) -> bool {
    match i {
        InstructionEnum::Repeat { scope_pointer, .. } => scope_pointer < n,
        InstructionEnum::Function { scope_pointer, .. } => scope_pointer < n,
        InstructionEnum::Condition(c) => cond_ptrs_ok(c, n),
        _ => true,
    }
}

pub open spec fn view_wf(m: Seq<ScopeView>) -> bool {
    forall|i: int| 0 <= i < m.len() ==> {
        &&& (match #[trigger] m[i].parent {
            Some(p) => p < i,
            None => true,
        })
        &&& forall|k: int| 0 <= k < m[i].block.len() ==> instr_ptrs_ok(#[trigger] m[i].block[k], m.len())
        &&& forall|k: int| 0 <= k < m[i].funcs.len() ==> (#[trigger] m[i].funcs[k]).1 < m.len()
        &&& unique_names(m[i].vars)
        &&& unique_names(m[i].funcs)
    }
}

impl ScopeManager {
    pub open spec fn view(&self) -> Seq<ScopeView> {
        self.scopes@.map_values(|s: Scope| s.view())
    }

    pub open spec fn wf(&self) -> bool {
        view_wf(self@)
    }

    pub fn new() -> (r: ScopeManager)
        ensures
            r@ == Seq::<ScopeView>::empty(),
            r.wf(),
    {
        let r = ScopeManager { scopes: Vec::new() };
        assert(r@ =~= Seq::<ScopeView>::empty());
        r
    }

    fn new_node(&mut self, parent: Option<usize>, category: ScopeCategory, action: Option<ScopeAction>) -> (r: usize)
        requires
            old(self).wf(),
            match parent {
                Some(p) => p < old(self)@.len(),
                None => true,
            },
        ensures
            final(self).wf(),
            r == old(self)@.len(),
            final(self)@ == old(self)@.push(
                ScopeView {
                    parent,
                    category,
                    action,
                    block: Seq::empty(),
                    vars: Seq::empty(),
                    funcs: Seq::empty(),
                    params: Seq::empty(),
                },
            ),
    {
        let r = self.scopes.len();
        let sc = Scope {
            parent,
            category,
            action,
            block: Vec::new(),
            variables: Vec::new(),
            functions: Vec::new(),
        };
        self.scopes.push(sc);
        proof {
            assert(sc.view().vars =~= Seq::empty());
            assert(sc.view().funcs =~= Seq::empty());
            assert(sc.view().params =~= Seq::empty());
            assert(self@ =~= old(self)@.push(sc.view()));
        }
        r
    }

    /// A new scope under `parent` (a root when absent): sequential, or the root category.
    pub fn create_scope(&mut self, parent: Option<usize>, action: Option<ScopeAction>) -> (r: usize)
        requires
            old(self).wf(),
            match parent {
                Some(p) => p < old(self)@.len(),
                None => true,
            },
        ensures
            final(self).wf(),
            r == old(self)@.len(),
            final(self)@ == old(self)@.push(
                ScopeView {
                    parent,
                    category: if parent is Some { ScopeCategory::Sequential } else { ScopeCategory::Root },
                    action,
                    block: Seq::empty(),
                    vars: Seq::empty(),
                    funcs: Seq::empty(),
                    params: Seq::empty(),
                },
            ),
    {
        let cat = if parent.is_some() { ScopeCategory::Sequential } else { ScopeCategory::Root };
        self.new_node(parent, cat, action)
    }

    /// A new if/elif/else arm scope under `parent`.
    pub fn create_transparent_scope(&mut self, parent: usize, action: Option<ScopeAction>) -> (r: usize)
        requires
            old(self).wf(),
            parent < old(self)@.len(),
        ensures
            final(self).wf(),
            r == old(self)@.len(),
            final(self)@ == old(self)@.push(
                ScopeView {
                    parent: Some(parent),
                    category: ScopeCategory::Transparent,
                    action,
                    block: Seq::empty(),
                    vars: Seq::empty(),
                    funcs: Seq::empty(),
                    params: Seq::empty(),
                },
            ),
    {
        self.new_node(Some(parent), ScopeCategory::Transparent, action)
    }

    /// A new function-body scope under `parent`.
    pub fn create_isolated_scope(&mut self, parent: usize, action: Option<ScopeAction>) -> (r: usize)
        requires
            old(self).wf(),
            parent < old(self)@.len(),
        ensures
            final(self).wf(),
            r == old(self)@.len(),
            final(self)@ == old(self)@.push(
                ScopeView {
                    parent: Some(parent),
                    category: ScopeCategory::Isolated,
                    action,
                    block: Seq::empty(),
                    vars: Seq::empty(),
                    funcs: Seq::empty(),
                    params: Seq::empty(),
                },
            ),
    {
        self.new_node(Some(parent), ScopeCategory::Isolated, action)
    }

    pub fn get_parent(&self, id: usize) -> (r: Option<usize>)
        requires
            self.wf(),
            id < self@.len(),
        ensures
            r == self@[id as int].parent,
            r matches Some(p) ==> p < id,
    {
        self.scopes[id].parent
    }

    pub fn get_depth(&self, id: usize) -> (r: usize)
        requires
            self.wf(),
            id < self@.len(),
        ensures
            r == depth(self@, id as int),
    {
        let mut cur: usize = id;
        let mut d: usize = 0;
        proof { lemma_depth_bound(self@, id as int); }
        loop
            invariant
                self.wf(),
                cur < self@.len(),
                depth(self@, id as int) == d + depth(self@, cur as int),
                d + cur <= id,
            decreases cur,
        {
            match self.scopes[cur].parent {
                Some(p) => {
                    assert(self@[cur as int].parent == Some(p));
                    cur = p;
                    d = d + 1;
                },
                None => {
                    assert(self@[cur as int].parent is None);
                    return d;
                },
            }
        }
    }

    /// Appends an instruction to the block of scope `id`.
    pub fn push_code_to_scope(&mut self, id: usize, instr: InstructionEnum)
        requires
            old(self).wf(),
            id < old(self)@.len(),
            instr_ptrs_ok(instr, old(self)@.len() as nat),
        ensures
            final(self).wf(),
            final(self)@ == old(self)@.update(
                id as int,
                ScopeView { block: old(self)@[id as int].block.push(instr), ..old(self)@[id as int] },
            ),
    {
        self.scopes[id].block.push(instr);
        proof {
            let nv = ScopeView { block: old(self)@[id as int].block.push(instr), ..old(self)@[id as int] };
            assert(self.scopes@[id as int].view() =~= nv);
            assert(self@ =~= old(self)@.update(id as int, nv));
            lemma_wf_block_change(old(self)@, self@, id as int);
        }
    }
}

impl ScopeManager {
    /// Removes and returns the last instruction of scope `id`'s block.
    pub fn pop_code_from_scope(&mut self, id: usize) -> (r: Option<InstructionEnum>)
        requires
            old(self).wf(),
            id < old(self)@.len(),
        ensures
            final(self).wf(),
            old(self)@[id as int].block.len() == 0 ==> r is None && final(self)@ == old(self)@,
            old(self)@[id as int].block.len() > 0 ==> r == Some(old(self)@[id as int].block.last())
                && final(self)@ == old(self)@.update(
                id as int,
                ScopeView { block: old(self)@[id as int].block.drop_last(), ..old(self)@[id as int] },
            ),
    {
        let r = self.scopes[id].block.pop();
        proof {
            let m = old(self)@;
            if m[id as int].block.len() == 0 {
                assert(self.scopes@[id as int].view() =~= m[id as int]);
                assert(self@ =~= m);
            } else {
                let nv = ScopeView { block: m[id as int].block.drop_last(), ..m[id as int] };
                assert(self.scopes@[id as int].view() =~= nv);
                assert(self@ =~= m.update(id as int, nv));
                assert forall|k: int| 0 <= k < self@[id as int].block.len() implies instr_ptrs_ok(
                    #[trigger] self@[id as int].block[k],
                    self@.len(),
                ) by {
                    assert(self@[id as int].block[k] == m[id as int].block[k]);
                }
                lemma_wf_block_change(m, self@, id as int);
            }
        }
        r
    }
}

/// Depth only depends on parent links: keeping them (and adding scopes) keeps it.
pub proof fn lemma_depth_stable(m1: Seq<ScopeView>, m2: Seq<ScopeView>, s: int)
    requires
        0 <= s < m1.len() <= m2.len(),
        forall|i: int| 0 <= i < m1.len() ==> (#[trigger] m2[i]).parent == m1[i].parent,
    ensures
        depth(m2, s) == depth(m1, s),
    decreases s,
{
    if let Some(p) = parent_of(m1, s) {
        if 0 <= p < s {
            lemma_depth_stable(m1, m2, p);
        }
    }
}

/// Position of the first binding of `name` in a scope's variable list.
fn find_var(vars: &Vec<(String, i64)>, name: &String) -> (r: Option<usize>)
    ensures
        r matches Some(k) ==> k < vars@.len(),
        r matches Some(k) ==> find_name(vars_view(vars@), name@) == Some(k as int),
        r is None ==> find_name(vars_view(vars@), name@) is None,
{
    let ghost vs = vars_view(vars@);
    let mut j: usize = 0;
    while j < vars.len()
        invariant
            j <= vars@.len(),
            vs == vars_view(vars@),
            find_from(vs, name@, 0) == find_from(vs, name@, j as int),
        decreases vars@.len() - j,
    {
        if vars[j].0 == *name {
            return Some(j);
        }
        j = j + 1;
    }
    None
}

/// Position of the first binding of `name` in a scope's function list.
fn find_fn(fs: &Vec<(String, FunctionRecord)>, name: &String) -> (r: Option<usize>)
    ensures
        r matches Some(k) ==> k < fs@.len(),
        r matches Some(k) ==> find_name(funcs_view(fs@), name@) == Some(k as int),
        r is None ==> find_name(funcs_view(fs@), name@) is None,
{
    let ghost vs = funcs_view(fs@);
    let mut j: usize = 0;
    while j < fs.len()
        invariant
            j <= fs@.len(),
            vs == funcs_view(fs@),
            find_from(vs, name@, 0) == find_from(vs, name@, j as int),
        decreases fs@.len() - j,
    {
        if fs[j].0 == *name {
            return Some(j);
        }
        j = j + 1;
    }
    None
}

impl ScopeManager {
    /// The nearest scope from `id` upward that binds `name`, and the binding's position.
    fn locate_var(&self, id: usize, name: &String) -> (r: Option<(usize, usize)>)
        requires
            self.wf(),
            id < self@.len(),
        ensures
            match var_owner(self@, id as int, name@) {
                Some(o) => r matches Some((ro, k)) && ro == o && ro < self@.len()
                    && k == find_name(self@[o].vars, name@)->Some_0 && k < self@[o].vars.len(),
                None => r is None,
            },
    {
        let mut cur: usize = id;
        loop
            invariant
                self.wf(),
                cur < self@.len(),
                var_owner(self@, id as int, name@) == var_owner(self@, cur as int, name@),
            decreases cur,
        {
            assert(self@[cur as int].vars == vars_view(self.scopes@[cur as int].variables@));
            match find_var(&self.scopes[cur].variables, name) {
                Some(k) => {
                    assert(self@[cur as int].vars.len() == self.scopes@[cur as int].variables@.len());
                    assert(find_name(self@[cur as int].vars, name@) == Some(k as int));
                    assert(var_owner(self@, cur as int, name@) == Some(cur as int));
                    return Some((cur, k));
                },
                None => {
                    match self.scopes[cur].parent {
                        Some(p) => {
                            assert(self@[cur as int].parent == Some(p));
                            cur = p;
                        },
                        None => {
                            return None;
                        },
                    }
                },
            }
        }
    }

    /// Reads `name` as seen from scope `id` (nearest binding up the chain).
    pub fn get_var(&self, id: usize, name: &String) -> (r: Option<i64>)
        requires
            self.wf(),
            id < self@.len(),
        ensures
            r == read_var(self@, id as int, name@),
    {
        match self.locate_var(id, name) {
            Some((o, k)) => Some(self.scopes[o].variables[k].1),
            None => None,
        }
    }

    pub fn does_var_exists(&self, id: usize, name: &String) -> (r: bool)
        requires
            self.wf(),
            id < self@.len(),
        ensures
            r == (var_owner(self@, id as int, name@) is Some),
    {
        self.locate_var(id, name).is_some()
    }

    /// Chain write: mutates the nearest binding of `name`, else binds it in `id`.
    pub fn set_var(&mut self, id: usize, name: String, value: i64)
        requires
            old(self).wf(),
            id < old(self)@.len(),
        ensures
            final(self).wf(),
            final(self)@ == write_var(old(self)@, id as int, name@, value),
    {
        match self.locate_var(id, &name) {
            Some((o, k)) => {
                let ghost nm = name@;
                self.scopes[o].variables.set(k, (name, value));
                proof {
                    let m = old(self)@;
                    let nv = ScopeView { vars: m[o as int].vars.update(k as int, (nm, value)), ..m[o as int] };
                    assert(self.scopes@[o as int].view().vars =~= nv.vars);
                    assert(self@ =~= m.update(o as int, nv));
                    lemma_var_owner_range(m, id as int, nm);
                    lemma_bind_unique(m[o as int].vars, nm, value);
                    assert(nv.vars == bind(m[o as int].vars, nm, value));
                    lemma_wf_block_change(m, self@, o as int);
                }
            },
            None => {
                let ghost nm = name@;
                self.scopes[id].variables.push((name, value));
                proof {
                    let m = old(self)@;
                    let nv = ScopeView { vars: m[id as int].vars.push((nm, value)), ..m[id as int] };
                    assert(self.scopes@[id as int].view().vars =~= nv.vars);
                    assert(self@ =~= m.update(id as int, nv));
                    assert(find_name(m[id as int].vars, nm) is None);
                    lemma_bind_unique(m[id as int].vars, nm, value);
                    lemma_wf_block_change(m, self@, id as int);
                }
            },
        }
    }

    /// Registers a function in scope `id` only (no chain walk); a function of the same name
    /// declared there before is replaced.
    pub fn declare_function(&mut self, id: usize, name: String, args: Vec<String>, scope_pointer: usize)
        requires
            old(self).wf(),
            id < old(self)@.len(),
            scope_pointer < old(self)@.len(),
        ensures
            final(self).wf(),
            final(self)@ == old(self)@.update(
                id as int,
                ScopeView {
                    funcs: bind(old(self)@[id as int].funcs, name@, scope_pointer),
                    params: match find_name(old(self)@[id as int].funcs, name@) {
                        Some(k) => old(self)@[id as int].params.update(k, args_view(args@)),
                        None => old(self)@[id as int].params.push(args_view(args@)),
                    },
                    ..old(self)@[id as int]
                },
            ),
            resolve_function(final(self)@, id as int, name@) == Some(scope_pointer),
    {
        let ghost nm = name@;
        let ghost av = args_view(args@);
        let ghost m = old(self)@;
        assert(m[id as int].funcs == funcs_view(self.scopes@[id as int].functions@));
        let found = find_fn(&self.scopes[id].functions, &name);
        match found {
            Some(k) => {
                self.scopes[id].functions.set(k, (name, FunctionRecord { args, scope_pointer }));
            },
            None => {
                self.scopes[id].functions.push((name, FunctionRecord { args, scope_pointer }));
            },
        }
        proof {
            let nf = bind(m[id as int].funcs, nm, scope_pointer);
            let np = match find_name(m[id as int].funcs, nm) {
                Some(k) => m[id as int].params.update(k, av),
                None => m[id as int].params.push(av),
            };
            let nv = ScopeView { funcs: nf, params: np, ..m[id as int] };
            assert(self.scopes@[id as int].view().funcs =~= nf);
            assert(self.scopes@[id as int].view().params =~= np);
            assert(self@ =~= m.update(id as int, nv));
            match found {
                Some(k) => {
                    lemma_find_range(m[id as int].funcs, nm, 0);
                    lemma_find_update(m[id as int].funcs, nm, k as int, scope_pointer, 0);
                },
                None => {
                    lemma_find_push(m[id as int].funcs, nm, scope_pointer, 0);
                },
            }
            lemma_find_range(nf, nm, 0);
            lemma_bind_unique(m[id as int].funcs, nm, scope_pointer);
            assert(view_wf(self@)) by {
                assert forall|i: int| 0 <= i < self@.len() implies {
                    &&& (match #[trigger] self@[i].parent {
                        Some(p) => p < i,
                        None => true,
                    })
                    &&& forall|k: int| 0 <= k < self@[i].block.len() ==> instr_ptrs_ok(#[trigger] self@[i].block[k], self@.len())
                    &&& forall|k: int| 0 <= k < self@[i].funcs.len() ==> (#[trigger] self@[i].funcs[k]).1 < self@.len()
                    &&& unique_names(self@[i].vars)
                    &&& unique_names(self@[i].funcs)
                } by {
                    if i != id {
                        assert(m[i] == self@[i]);
                    } else {
                        assert forall|k: int| 0 <= k < self@[i].funcs.len() implies (#[trigger] self@[i].funcs[k]).1 < self@.len() by {
                            if k < m[i].funcs.len() && nf[k] != (nm, scope_pointer) {
                                assert(nf[k] == m[i].funcs[k]);
                            }
                        }
                    }
                }
            }
        }
    }

    /// The body scope of the nearest function called `name`, walking up from `id`.
    pub fn get_function(&self, id: usize, name: &String) -> (r: Option<usize>)
        requires
            self.wf(),
            id < self@.len(),
        ensures
            r == resolve_function(self@, id as int, name@),
            r matches Some(b) ==> b < self@.len(),
    {
        let mut cur: usize = id;
        loop
            invariant
                self.wf(),
                cur < self@.len(),
                resolve_function(self@, id as int, name@) == resolve_function(self@, cur as int, name@),
            decreases cur,
        {
            assert(self@[cur as int].funcs == funcs_view(self.scopes@[cur as int].functions@));
            match find_fn(&self.scopes[cur].functions, name) {
                Some(k) => {
                    assert(self@[cur as int].funcs[k as int].1 == self.scopes@[cur as int].functions@[k as int].1.scope_pointer);
                    return Some(self.scopes[cur].functions[k].1.scope_pointer);
                },
                None => {
                    match self.scopes[cur].parent {
                        Some(p) => {
                            assert(self@[cur as int].parent == Some(p));
                            cur = p;
                        },
                        None => {
                            return None;
                        },
                    }
                },
            }
        }
    }
}

pub proof fn lemma_var_owner_range(m: Seq<ScopeView>, s: int, name: Seq<char>)
    ensures
        var_owner(m, s, name) matches Some(o) ==> 0 <= o < m.len() && 0 <= find_name(m[o].vars, name)->Some_0 < m[o].vars.len()
            && find_name(m[o].vars, name) is Some,
    decreases s,
{
    if 0 <= s < m.len() {
        if find_name(m[s].vars, name) is Some {
            lemma_find_range(m[s].vars, name, 0);
        } else if let Some(p) = parent_of(m, s) {
            if 0 <= p < s {
                lemma_var_owner_range(m, p, name);
            }
        }
    }
}

pub proof fn lemma_find_range<V>(vars: Seq<(Seq<char>, V)>, name: Seq<char>, j: int)
    ensures
        find_from(vars, name, j) matches Some(k) ==> j <= k < vars.len() && vars[k].0 == name,
    decreases vars.len() - j,
{
    if 0 <= j < vars.len() && vars[j].0 != name {
        lemma_find_range(vars, name, j + 1);
    }
}

pub proof fn lemma_depth_bound(m: Seq<ScopeView>, s: int)
    ensures
        depth(m, s) <= if s < 0 { 0 } else { s },
    decreases s,
{
    if let Some(p) = parent_of(m, s) {
        if 0 <= p < s {
            lemma_depth_bound(m, p);
        }
    }
}

proof fn lemma_wf_block_change(m1: Seq<ScopeView>, m2: Seq<ScopeView>, id: int)
    requires
        view_wf(m1),
        m1.len() == m2.len(),
        0 <= id < m1.len(),
        forall|i: int| 0 <= i < m1.len() && i != id ==> m1[i] == m2[i],
        m2[id].parent == m1[id].parent,
        m2[id].funcs == m1[id].funcs,
        unique_names(m2[id].vars),
        forall|k: int| 0 <= k < m2[id].block.len() ==> instr_ptrs_ok(#[trigger] m2[id].block[k], m2.len()),
    ensures
        view_wf(m2),
{
    assert forall|i: int| 0 <= i < m2.len() implies {
        &&& (match #[trigger] m2[i].parent {
            Some(p) => p < i,
            None => true,
        })
        &&& forall|k: int| 0 <= k < m2[i].block.len() ==> instr_ptrs_ok(#[trigger] m2[i].block[k], m2.len())
        &&& forall|k: int| 0 <= k < m2[i].funcs.len() ==> (#[trigger] m2[i].funcs[k]).1 < m2.len()
        &&& unique_names(m2[i].vars)
        &&& unique_names(m2[i].funcs)
    } by {
        if i != id {
            assert(m1[i] == m2[i]);
        }
    }
}

} // verus!
