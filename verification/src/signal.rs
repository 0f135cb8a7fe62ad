//! The signals of a module and the custom properties that stand for them.

use std::collections::{BTreeMap, BTreeSet};

use vstd::prelude::*;

use crate::error::Error;
use crate::ir::{AssignDestination, Declaration, Statement, VarKind, Variable};
use crate::names::{in_order, insert_name};
use crate::order::views;
use crate::text::{chars_of, texts};

verus! {

broadcast use vstd::std_specs::btree::group_btree_axioms;

/// What follows the last dot of a path; the whole path where it has none.
pub open spec fn last_segment(path: Seq<char>) -> Seq<char>
    decreases path.len(),
{
    if path.len() == 0 || path.last() == '.' {
        Seq::empty()
    } else {
        last_segment(path.drop_last()).push(path.last())
    }
}

/// The last segment of a hierarchical name.
pub fn last_path_segment(path: &str) -> (r: Result<String, Error>)
    ensures
        r matches Ok(segment) && segment@ == last_segment(path@),
{
    let chars = chars_of(path);
    let mut segment = String::new();
    for i in 0..chars.len()
        invariant
            chars@ == path@,
            segment@ == last_segment(path@.take(i as int)),
    {
        assert(path@.take(i + 1).drop_last() == path@.take(i as int));
        if chars[i] == '.' {
            segment = String::new();
        } else {
            segment.push(chars[i]);
        }
    }
    assert(path@.take(path@.len() as int) == path@);
    Ok(segment)
}

/// The custom property of a variable. Ports are known by their name alone, variables of the
/// module by the module's name too; parameters and constants have none.
pub open spec fn css_name(variable: Variable, module: Seq<char>) -> Option<Seq<char>> {
    match variable.kind {
        VarKind::Input | VarKind::Output | VarKind::Inout => Some(
            "--"@ + last_segment(variable.path@),
        ),
        VarKind::Variable | VarKind::Let => Some(
            "--"@ + module + "-"@ + last_segment(variable.path@),
        ),
        VarKind::Param | VarKind::Const => None,
    }
}

/// The name of a variable's custom property.
pub fn variable_css_name(variable: &Variable, module_name: &str) -> (r: Result<
    Option<String>,
    Error,
>)
    ensures
        match css_name(*variable, module_name@) {
            Some(name) => r matches Ok(Some(css)) && css@ == name,
            None => r matches Ok(None),
        },
{
    let signal = last_path_segment(&variable.path)?;
    Ok(
        match variable.kind {
            VarKind::Input | VarKind::Output | VarKind::Inout => {
                let mut name = "--".to_owned();
                name.append(&signal);
                Some(name)
            },
            VarKind::Variable | VarKind::Let => {
                let mut name = "--".to_owned();
                name.append(module_name);
                name.append("-");
                name.append(&signal);
                Some(name)
            },
            VarKind::Param | VarKind::Const => None,
        },
    )
}

/// Whether a variable holds a signed number of 32 bits.
pub open spec fn is_i32_like(variable: Variable) -> bool {
    variable.type_text@ == "signed bit<32>"@
}

/// Why a variable that does not hold a signed number of 32 bits is refused.
pub open spec fn type_message(variable: Variable) -> Seq<char> {
    "only `signed bit<32>` variables are supported, got `"@ + variable.type_text@ + "` for `"@
        + variable.path@ + "`"@
}

/// Accepts a variable that holds a signed number of 32 bits.
pub fn ensure_i32_like(variable: &Variable) -> (r: Result<(), Error>)
    ensures
        is_i32_like(*variable) ==> r is Ok,
        !is_i32_like(*variable) ==> (r matches Err(error) && error.message@ == type_message(
            *variable,
        )),
{
    if variable.type_text == "signed bit<32>".to_owned() {
        Ok(())
    } else {
        let mut message = "only `signed bit<32>` variables are supported, got `".to_owned();
        message.append(&variable.type_text);
        message.append("` for `");
        message.append(&variable.path);
        message.append("`");
        Err(Error { message })
    }
}

/// The variables that an assignment writes to.
pub open spec fn dst_ids(dst: Seq<AssignDestination>) -> Set<u32> {
    dst.map_values(|d: AssignDestination| d.id).to_set()
}

/// The variables that a statement assigns, wherever inside it.
pub open spec fn statement_ids(stmt: Statement) -> Set<u32>
    decreases stmt,
{
    match stmt {
        Statement::Assign(assign) => dst_ids(assign.dst@),
        Statement::If(s) => assigned_ids(s.true_side@) + assigned_ids(s.false_side@),
        Statement::IfReset(s) => assigned_ids(s.true_side@) + assigned_ids(s.false_side@),
        Statement::Null => Set::empty(),
        Statement::Other(_) => Set::empty(),
    }
}

/// The variables that statements assign, wherever inside them.
pub open spec fn assigned_ids(stmts: Seq<Statement>) -> Set<u32>
    decreases stmts,
{
    if stmts.len() == 0 {
        Set::empty()
    } else {
        assigned_ids(stmts.drop_last()) + statement_ids(stmts.last())
    }
}

/// Adds the variables that statements assign, wherever inside them.
pub fn collect_assigned_ids(statements: &Vec<Statement>, ids: &mut BTreeSet<u32>)
    ensures
        final(ids)@ == old(ids)@ + assigned_ids(statements@),
    decreases statements,
{
    let ghost before = ids@;
    assert(before + assigned_ids(statements@.take(0)) == before);
    for i in 0..statements.len()
        invariant
            ids@ == before + assigned_ids(statements@.take(i as int)),
    {
        let ghost prior = ids@;
        proof {
            assert(statements@.take(i + 1).drop_last() == statements@.take(i as int));
            assert(statements@.take(i + 1).last() == statements@[i as int]);
        }
        match &statements[i] {
            Statement::Assign(assign) => {
                assert(prior + dst_ids(assign.dst@.take(0)) == prior);
                for k in 0..assign.dst.len()
                    invariant
                        ids@ == prior + dst_ids(assign.dst@.take(k as int)),
                {
                    ids.insert(assign.dst[k].id);
                    proof {
                        let written = assign.dst@.map_values(|d: AssignDestination| d.id);
                        assert(assign.dst@.take(k as int).map_values(|d: AssignDestination| d.id)
                            == written.take(k as int));
                        assert(assign.dst@.take(k + 1).map_values(|d: AssignDestination| d.id)
                            == written.take(k as int).push(written[k as int]));
                        written.take(k as int).lemma_push_to_set_commute(written[k as int]);
                        assert(ids@ == prior + dst_ids(assign.dst@.take(k + 1)));
                    }
                }
                assert(assign.dst@.take(assign.dst@.len() as int) == assign.dst@);
                assert(ids@ == prior + statement_ids(statements@[i as int]));
            },
            Statement::If(s) => {
                collect_assigned_ids(&s.true_side, ids);
                collect_assigned_ids(&s.false_side, ids);
                assert(ids@ == prior + statement_ids(statements@[i as int]));
            },
            Statement::IfReset(s) => {
                collect_assigned_ids(&s.true_side, ids);
                collect_assigned_ids(&s.false_side, ids);
                assert(ids@ == prior + statement_ids(statements@[i as int]));
            },
            Statement::Null => {
                assert(ids@ == prior + statement_ids(statements@[i as int]));
            },
            Statement::Other(_) => {
                assert(ids@ == prior + statement_ids(statements@[i as int]));
            },
        }
        assert(ids@ == before + assigned_ids(statements@.take(i + 1)));
    }
    assert(statements@.take(statements@.len() as int) == statements@);
}

/// The variables that the `always_ff` blocks of a module single out.
pub struct FfRoles {
    pub clocks: Set<u32>,
    pub resets: Set<u32>,
    /// The variables that are assigned.
    pub assigned: Set<u32>,
}

/// The variables that the `always_ff` blocks among some declarations single out.
pub open spec fn ff_roles(decls: Seq<Declaration>) -> FfRoles
    decreases decls.len(),
{
    if decls.len() == 0 {
        FfRoles { clocks: Set::empty(), resets: Set::empty(), assigned: Set::empty() }
    } else {
        let before = ff_roles(decls.drop_last());
        match decls.last() {
            Declaration::Ff(ff) => FfRoles {
                clocks: before.clocks.insert(ff.clock),
                resets: match ff.reset {
                    Some(reset) => before.resets.insert(reset),
                    None => before.resets,
                },
                assigned: before.assigned + assigned_ids(ff.statements@),
            },
            _ => before,
        }
    }
}

/// The variables that the `always_ff` blocks of a module single out.
pub struct FfIds {
    pub clock_ids: BTreeSet<u32>,
    pub reset_ids: BTreeSet<u32>,
    pub ff_assigned_ids: BTreeSet<u32>,
}

impl View for FfIds {
    type V = FfRoles;

    open spec fn view(&self) -> FfRoles {
        FfRoles {
            clocks: self.clock_ids@,
            resets: self.reset_ids@,
            assigned: self.ff_assigned_ids@,
        }
    }
}

/// Collects the variables that the `always_ff` blocks among some declarations single out.
pub fn collect_ff_ids(declarations: &Vec<Declaration>) -> (ids: FfIds)
    ensures
        ids@ == ff_roles(declarations@),
{
    let mut ids = FfIds {
        clock_ids: BTreeSet::new(),
        reset_ids: BTreeSet::new(),
        ff_assigned_ids: BTreeSet::new(),
    };
    for i in 0..declarations.len()
        invariant
            ids@ == ff_roles(declarations@.take(i as int)),
    {
        proof {
            assert(declarations@.take(i + 1).drop_last() == declarations@.take(i as int));
            assert(declarations@.take(i + 1).last() == declarations@[i as int]);
        }
        if let Declaration::Ff(ff) = &declarations[i] {
            ids.clock_ids.insert(ff.clock);
            if let Some(reset) = ff.reset {
                ids.reset_ids.insert(reset);
            }
            collect_assigned_ids(&ff.statements, &mut ids.ff_assigned_ids);
        }
        assert(ids@ == ff_roles(declarations@.take(i + 1)));
    }
    assert(declarations@.take(declarations@.len() as int) == declarations@);
    ids
}

/// The custom properties of a register. The public one alone is registered: the others pass the
/// state on as it is written, from `next` by way of `captured` and `hoist`.
pub struct FfReg {
    pub current: Seq<char>,
    pub next: Seq<char>,
    pub captured: Seq<char>,
    pub hoist: Seq<char>,
}

/// The custom properties of a register.
pub struct FfRegInfo {
    pub current: String,
    pub next: String,
    pub captured: String,
    pub hoist: String,
}

impl View for FfRegInfo {
    type V = FfReg;

    open spec fn view(&self) -> FfReg {
        FfReg {
            current: self.current@,
            next: self.next@,
            captured: self.captured@,
            hoist: self.hoist@,
        }
    }
}

/// The views of the registers in a map.
pub open spec fn reg_views(m: Map<u32, FfRegInfo>) -> Map<u32, FfReg> {
    m.map_values(|info: FfRegInfo| info@)
}

/// The custom properties of a register, given the public one.
pub open spec fn ff_reg(current: Seq<char>, module: Seq<char>, signal: Seq<char>) -> FfReg {
    let base = "--"@ + module + "-"@ + signal;
    FfReg {
        current,
        next: base + "-next"@,
        captured: base + "-captured"@,
        hoist: base + "-hoist"@,
    }
}

/// The custom properties of a module.
pub struct SignalMap {
    /// The public custom property of each signal.
    pub names: Map<u32, Seq<char>>,
    /// The custom properties of each register.
    pub regs: Map<u32, FfReg>,
    /// The public custom properties.
    pub public: Set<Seq<char>>,
}

/// The custom properties after one more variable. Clocks, parameters and constants have none. The
/// type of a reset does not matter, and a reset is no register.
pub open spec fn add_signal(
    map: SignalMap,
    id: u32,
    variable: Variable,
    module: Seq<char>,
    roles: FfRoles,
) -> Result<SignalMap, Seq<char>> {
    if roles.clocks.contains(id) {
        Ok(map)
    } else if !roles.resets.contains(id) && !is_i32_like(variable) {
        Err(type_message(variable))
    } else {
        match css_name(variable, module) {
            None => Ok(map),
            Some(name) => Ok(
                SignalMap {
                    names: map.names.insert(id, name),
                    regs: if roles.assigned.contains(id) && !roles.resets.contains(id) {
                        map.regs.insert(id, ff_reg(name, module, last_segment(variable.path@)))
                    } else {
                        map.regs
                    },
                    public: map.public.insert(name),
                },
            ),
        }
    }
}

/// The custom properties of a module's variables; the first refused variable decides the error.
pub open spec fn signal_map(
    variables: Seq<(u32, Variable)>,
    module: Seq<char>,
    roles: FfRoles,
) -> Result<SignalMap, Seq<char>>
    decreases variables.len(),
{
    if variables.len() == 0 {
        Ok(SignalMap { names: Map::empty(), regs: Map::empty(), public: Set::empty() })
    } else {
        match signal_map(variables.drop_last(), module, roles) {
            Err(message) => Err(message),
            Ok(map) => add_signal(
                map,
                variables.last().0,
                variables.last().1,
                module,
                roles,
            ),
        }
    }
}

proof fn lemma_signal_error(
    variables: Seq<(u32, Variable)>,
    k: int,
    module: Seq<char>,
    roles: FfRoles,
)
    requires
        0 <= k <= variables.len(),
        signal_map(variables.take(k), module, roles) is Err,
    ensures
        signal_map(variables, module, roles) == signal_map(variables.take(k), module, roles),
    decreases variables.len(),
{
    if k == variables.len() {
        assert(variables.take(k) == variables);
    } else {
        assert(variables.drop_last().take(k) == variables.take(k));
        lemma_signal_error(variables.drop_last(), k, module, roles);
    }
}

/// The custom properties of a module.
pub struct Signals {
    pub names: BTreeMap<u32, String>,
    pub ff_regs: BTreeMap<u32, FfRegInfo>,
    /// The public custom properties, in alphabetical order.
    pub public_css_vars: Vec<String>,
}

impl Signals {
    /// Whether the public custom properties stand in order.
    pub open spec fn wf(self) -> bool {
        in_order(texts(self.public_css_vars@))
    }
}

impl View for Signals {
    type V = SignalMap;

    open spec fn view(&self) -> SignalMap {
        SignalMap {
            names: views(self.names@),
            regs: reg_views(self.ff_regs@),
            public: texts(self.public_css_vars@).to_set(),
        }
    }
}

/// Names the custom properties of a register.
fn name_reg(current: &str, module_name: &str, signal: &str) -> (info: FfRegInfo)
    ensures
        info@ == ff_reg(current@, module_name@, signal@),
{
    let mut base = "--".to_owned();
    base.append(module_name);
    base.append("-");
    base.append(signal);
    let mut next = base.clone();
    next.append("-next");
    let mut captured = base.clone();
    captured.append("-captured");
    let mut hoist = base;
    hoist.append("-hoist");
    FfRegInfo { current: current.to_owned(), next, captured, hoist }
}

/// Names the custom properties of a module's variables.
///
/// Only public signals, which are ports and variables of the module, are to be registered. The
/// custom properties between the states of a register stay unregistered: they are to be passed
/// on at keyframe boundaries as they are written, not interpolated as typed values.
pub fn collect_signals(
    variables: &Vec<(u32, Variable)>,
    module_name: &str,
    ids: &FfIds,
) -> (r: Result<Signals, Error>)
    ensures
        match signal_map(variables@, module_name@, ids@) {
            Ok(map) => r matches Ok(signals) && signals.wf() && signals@ == map,
            Err(message) => r matches Err(error) && error.message@ == message,
        },
{
    let ghost module = module_name@;
    let ghost roles = ids@;
    let mut signals = Signals {
        names: BTreeMap::new(),
        ff_regs: BTreeMap::new(),
        public_css_vars: Vec::new(),
    };
    let ghost mut map = SignalMap {
        names: Map::empty(),
        regs: Map::empty(),
        public: Set::empty(),
    };
    proof {
        assert(signals@.names == map.names);
        assert(signals@.regs == map.regs);
        assert(signals@.public == map.public);
    }
    for i in 0..variables.len()
        invariant
            module == module_name@,
            roles == ids@,
            signal_map(variables@.take(i as int), module, roles) == Ok::<SignalMap, Seq<char>>(
                map,
            ),
            signals.wf(),
            signals@ == map,
    {
        let ghost upto = variables@.take(i + 1);
        proof {
            assert(upto.drop_last() == variables@.take(i as int));
            assert(upto.last() == variables@[i as int]);
            if signal_map(upto, module, roles) is Err {
                lemma_signal_error(variables@, i + 1, module, roles);
            }
        }
        let (id, variable) = &variables[i];
        if !ids.clock_ids.contains(id) {
            let is_reset = ids.reset_ids.contains(id);
            if !is_reset {
                ensure_i32_like(variable)?;
            }
            if let Some(css_name) = variable_css_name(variable, module_name)? {
                let ghost prior = signals@;
                if ids.ff_assigned_ids.contains(id) && !is_reset {
                    let signal = last_path_segment(&variable.path)?;
                    let info = name_reg(&css_name, module_name, &signal);
                    let ghost reg = info@;
                    signals.ff_regs.insert(*id, info);
                    assert(reg_views(signals.ff_regs@) == prior.regs.insert(*id, reg));
                }
                insert_name(&mut signals.public_css_vars, &css_name);
                let ghost name = css_name@;
                signals.names.insert(*id, css_name);
                proof {
                    assert(views(signals.names@) == prior.names.insert(*id, name));
                    map = add_signal(map, *id, *variable, module, roles)->Ok_0;
                    assert(signals@.names == map.names);
                    assert(signals@.regs == map.regs);
                    assert(signals@.public == map.public);
                }
            }
        }
    }
    assert(variables@.take(variables@.len() as int) == variables@);
    Ok(signals)
}

/// Law: a variable is a clock, a reset or assigned among the `always_ff` blocks of a module if and
/// only if some `always_ff` block, wherever it stands, has it as its clock, has it as its reset or
/// assigns it.
pub proof fn law_ff_roles(decls: Seq<Declaration>, id: u32)
    ensures
        ff_roles(decls).clocks.contains(id) <==> exists|i: int|
            0 <= i < decls.len() && (#[trigger] decls[i] matches Declaration::Ff(ff) && ff.clock
                == id),
        ff_roles(decls).resets.contains(id) <==> exists|i: int|
            0 <= i < decls.len() && (#[trigger] decls[i] matches Declaration::Ff(ff) && ff.reset
                == Some(id)),
        ff_roles(decls).assigned.contains(id) <==> exists|i: int|
            0 <= i < decls.len() && (#[trigger] decls[i] matches Declaration::Ff(ff)
                && assigned_ids(ff.statements@).contains(id)),
    decreases decls.len(),
{
    if decls.len() > 0 {
        let rest = decls.drop_last();
        let k = decls.len() - 1;
        law_ff_roles(rest, id);
        let before = ff_roles(rest);
        let now = ff_roles(decls);
        assert(decls[k] == decls.last());
        assert forall|i: int| 0 <= i < k implies #[trigger] rest[i] == decls[i] by {}
        if before.clocks.contains(id) {
            let i = choose|i: int|
                0 <= i < rest.len() && (#[trigger] rest[i] matches Declaration::Ff(ff) && ff.clock
                    == id);
            assert(decls[i] == rest[i]);
        }
        if before.resets.contains(id) {
            let i = choose|i: int|
                0 <= i < rest.len() && (#[trigger] rest[i] matches Declaration::Ff(ff) && ff.reset
                    == Some(id));
            assert(decls[i] == rest[i]);
        }
        if before.assigned.contains(id) {
            let i = choose|i: int|
                0 <= i < rest.len() && (#[trigger] rest[i] matches Declaration::Ff(ff)
                    && assigned_ids(ff.statements@).contains(id));
            assert(decls[i] == rest[i]);
        }
        if exists|i: int|
            0 <= i < decls.len() && (#[trigger] decls[i] matches Declaration::Ff(ff) && ff.clock
                == id) {
            let i = choose|i: int|
                0 <= i < decls.len() && (#[trigger] decls[i] matches Declaration::Ff(ff) && ff.clock
                    == id);
            if i < k {
                assert(rest[i] == decls[i]);
            }
            assert(now.clocks.contains(id));
        }
        if exists|i: int|
            0 <= i < decls.len() && (#[trigger] decls[i] matches Declaration::Ff(ff) && ff.reset
                == Some(id)) {
            let i = choose|i: int|
                0 <= i < decls.len() && (#[trigger] decls[i] matches Declaration::Ff(ff) && ff.reset
                    == Some(id));
            if i < k {
                assert(rest[i] == decls[i]);
            }
            assert(now.resets.contains(id));
        }
        if exists|i: int|
            0 <= i < decls.len() && (#[trigger] decls[i] matches Declaration::Ff(ff)
                && assigned_ids(ff.statements@).contains(id)) {
            let i = choose|i: int|
                0 <= i < decls.len() && (#[trigger] decls[i] matches Declaration::Ff(ff)
                    && assigned_ids(ff.statements@).contains(id));
            if i < k {
                assert(rest[i] == decls[i]);
            }
            assert(now.assigned.contains(id));
        }
    }
}

/// Law: statements assign a variable if and only if one of them does, wherever it stands: an
/// assignment that has it among its destinations, or a conditional statement one of whose sides
/// assigns it.
pub proof fn law_assigned_ids(stmts: Seq<Statement>, id: u32)
    ensures
        assigned_ids(stmts).contains(id) <==> exists|i: int|
            0 <= i < stmts.len() && (match #[trigger] stmts[i] {
                Statement::Assign(assign) => exists|k: int|
                    0 <= k < assign.dst@.len() && (#[trigger] assign.dst@[k]).id == id,
                Statement::If(s) => assigned_ids(s.true_side@).contains(id) || assigned_ids(
                    s.false_side@,
                ).contains(id),
                Statement::IfReset(s) => assigned_ids(s.true_side@).contains(id) || assigned_ids(
                    s.false_side@,
                ).contains(id),
                _ => false,
            }),
    decreases stmts.len(),
{
    if stmts.len() > 0 {
        let rest = stmts.drop_last();
        let k = stmts.len() - 1;
        law_assigned_ids(rest, id);
        assert(stmts[k] == stmts.last());
        let last = statement_ids(stmts.last());
        lemma_statement_ids(stmts.last(), id);
        assert forall|i: int| 0 <= i < k implies #[trigger] rest[i] == stmts[i] by {}
        if assigned_ids(rest).contains(id) {
            let i = choose|i: int|
                0 <= i < rest.len() && (match #[trigger] rest[i] {
                    Statement::Assign(assign) => exists|k: int|
                        0 <= k < assign.dst@.len() && (#[trigger] assign.dst@[k]).id == id,
                    Statement::If(s) => assigned_ids(s.true_side@).contains(id) || assigned_ids(
                        s.false_side@,
                    ).contains(id),
                    Statement::IfReset(s) => assigned_ids(s.true_side@).contains(id)
                        || assigned_ids(s.false_side@).contains(id),
                    _ => false,
                });
            assert(stmts[i] == rest[i]);
        }
        if exists|i: int|
            0 <= i < stmts.len() && (match #[trigger] stmts[i] {
                Statement::Assign(assign) => exists|k: int|
                    0 <= k < assign.dst@.len() && (#[trigger] assign.dst@[k]).id == id,
                Statement::If(s) => assigned_ids(s.true_side@).contains(id) || assigned_ids(
                    s.false_side@,
                ).contains(id),
                Statement::IfReset(s) => assigned_ids(s.true_side@).contains(id) || assigned_ids(
                    s.false_side@,
                ).contains(id),
                _ => false,
            }) {
            let i = choose|i: int|
                0 <= i < stmts.len() && (match #[trigger] stmts[i] {
                    Statement::Assign(assign) => exists|k: int|
                        0 <= k < assign.dst@.len() && (#[trigger] assign.dst@[k]).id == id,
                    Statement::If(s) => assigned_ids(s.true_side@).contains(id) || assigned_ids(
                        s.false_side@,
                    ).contains(id),
                    Statement::IfReset(s) => assigned_ids(s.true_side@).contains(id)
                        || assigned_ids(s.false_side@).contains(id),
                    _ => false,
                });
            if i < k {
                assert(rest[i] == stmts[i]);
            }
        }
    }
}

proof fn lemma_statement_ids(stmt: Statement, id: u32)
    ensures
        statement_ids(stmt).contains(id) <==> (match stmt {
            Statement::Assign(assign) => exists|k: int|
                0 <= k < assign.dst@.len() && (#[trigger] assign.dst@[k]).id == id,
            Statement::If(s) => assigned_ids(s.true_side@).contains(id) || assigned_ids(
                s.false_side@,
            ).contains(id),
            Statement::IfReset(s) => assigned_ids(s.true_side@).contains(id) || assigned_ids(
                s.false_side@,
            ).contains(id),
            _ => false,
        }),
{
    if let Statement::Assign(assign) = stmt {
        let written = assign.dst@.map_values(|d: AssignDestination| d.id);
        if written.contains(id) {
            let k = written.index_of(id);
            assert(assign.dst@[k].id == id);
        }
        if exists|k: int| 0 <= k < assign.dst@.len() && (#[trigger] assign.dst@[k]).id == id {
            let k = choose|k: int| 0 <= k < assign.dst@.len() && (#[trigger] assign.dst@[k]).id == id;
            assert(written[k] == id);
        }
    }
}

/// Law: the last segment of a path is the end of it, has no dot, and stands behind a dot or is the
/// whole path.
pub proof fn law_last_segment(path: Seq<char>)
    ensures
        ({
            let segment = last_segment(path);
            let before = path.len() - segment.len();
            &&& 0 <= before
            &&& path.skip(before) == segment
            &&& !segment.contains('.')
            &&& before > 0 ==> path[before - 1] == '.'
        }),
    decreases path.len(),
{
    let segment = last_segment(path);
    if path.len() > 0 && path.last() != '.' {
        let rest = path.drop_last();
        law_last_segment(rest);
        let inner = last_segment(rest);
        let before = rest.len() - inner.len();
        assert(path.skip(before) == rest.skip(before).push(path.last()));
        if segment.contains('.') {
            let k = segment.index_of('.');
            if k < inner.len() {
                assert(inner[k] == '.');
            }
        }
    } else {
        assert(path.skip(path.len() as int) == Seq::<char>::empty());
    }
}

/// Law: the views of a map's registers are those of all of them, under the same keys.
pub proof fn law_reg_views(m: Map<u32, FfRegInfo>, id: u32)
    ensures
        reg_views(m).contains_key(id) <==> m.contains_key(id),
        m.contains_key(id) ==> {
            &&& reg_views(m)[id].current == m[id].current@
            &&& reg_views(m)[id].next == m[id].next@
            &&& reg_views(m)[id].captured == m[id].captured@
            &&& reg_views(m)[id].hoist == m[id].hoist@
        },
{
}

} // verus!
