//! Which custom properties a module has.

use vstd::prelude::*;

use crate::css::cond_name;
use crate::ir::{Module, VarKind, Variable};
use crate::module::module_css;
use crate::names::{in_order, lemma_name_list_holds};
use crate::signal::{ff_reg, ff_roles, last_segment, signal_map, FfReg, FfRoles, SignalMap};
use crate::text::{lemma_nat_text_digits, nat_text};

verus! {

/// Whether no variable is listed twice.
pub open spec fn distinct_ids(variables: Seq<(u32, Variable)>) -> bool {
    forall|i: int, j: int|
        0 <= i < j < variables.len() ==> (#[trigger] variables[i]).0 != (#[trigger] variables[j]).0
}

/// Whether a variable may be part of a module: a clock, a reset or a signed number of 32 bits.
pub open spec fn is_accepted(entry: (u32, Variable), roles: FfRoles) -> bool {
    roles.clocks.contains(entry.0) || roles.resets.contains(entry.0) || entry.1.type_text@
        == "signed bit<32>"@
}

/// The public custom property of a variable: its name behind two dashes for a port, with the name
/// of the module in between for any other signal. Clocks, parameters and constants have none.
pub open spec fn public_name(entry: (u32, Variable), module: Seq<char>, roles: FfRoles) -> Option<
    Seq<char>,
> {
    let signal = last_segment(entry.1.path@);
    let kind = entry.1.kind;
    if roles.clocks.contains(entry.0) || kind == VarKind::Param || kind == VarKind::Const {
        None
    } else if kind == VarKind::Variable || kind == VarKind::Let {
        Some("--"@ + module + "-"@ + signal)
    } else {
        Some("--"@ + signal)
    }
}

/// Whether a variable is a register: assigned in an `always_ff` block, and no reset.
pub open spec fn is_register(id: u32, roles: FfRoles) -> bool {
    roles.assigned.contains(id) && !roles.resets.contains(id)
}

/// Whether a register shows its state under the given name, and passes it on under names that
/// start with another.
pub open spec fn passes_on(reg: FfReg, name: Seq<char>, base: Seq<char>) -> bool {
    &&& reg.current == name
    &&& reg.next == base + "-next"@
    &&& reg.captured == base + "-captured"@
    &&& reg.hoist == base + "-hoist"@
}

/// Whether custom properties are those of the given variables and of no others.
pub open spec fn describes(
    map: SignalMap,
    variables: Seq<(u32, Variable)>,
    module: Seq<char>,
    roles: FfRoles,
) -> bool {
    &&& forall|i: int|
        0 <= i < variables.len() ==> match public_name(#[trigger] variables[i], module, roles) {
            Some(name) => {
                let (id, variable) = variables[i];
                &&& map.names.contains_key(id)
                &&& map.names[id] == name
                &&& map.public.contains(name)
                &&& map.regs.contains_key(id) <==> is_register(id, roles)
                &&& is_register(id, roles) ==> passes_on(
                    map.regs[id],
                    name,
                    "--"@ + module + "-"@ + last_segment(variable.path@),
                )
            },
            None => true,
        }
    &&& forall|id: u32| #[trigger]
        map.names.contains_key(id) ==> exists|i: int|
            0 <= i < variables.len() && (#[trigger] variables[i]).0 == id && public_name(
                variables[i],
                module,
                roles,
            ) is Some
    &&& forall|id: u32| #[trigger] map.regs.contains_key(id) ==> map.names.contains_key(id)
    &&& forall|name: Seq<char>| #[trigger]
        map.public.contains(name) ==> exists|i: int|
            0 <= i < variables.len() && public_name(#[trigger] variables[i], module, roles) == Some(
                name,
            )
}

/// Law: a module's variables are accepted if and only if each of them is. Each has the custom
/// properties that follow from its kind and its role, and there are no others; so clocks,
/// parameters and constants have none.
pub proof fn law_signal_map(variables: Seq<(u32, Variable)>, module: Seq<char>, roles: FfRoles)
    requires
        distinct_ids(variables),
    ensures
        signal_map(variables, module, roles) is Ok <==> (forall|i: int|
            0 <= i < variables.len() ==> is_accepted(#[trigger] variables[i], roles)),
        signal_map(variables, module, roles) matches Ok(map) ==> describes(
            map,
            variables,
            module,
            roles,
        ),
    decreases variables.len(),
{
    if variables.len() > 0 {
        let rest = variables.drop_last();
        let k = variables.len() - 1;
        let (id, variable) = variables.last();
        assert forall|i: int, j: int| 0 <= i < j < rest.len() implies (#[trigger] rest[i]).0 != (
        #[trigger] rest[j]).0 by {
            assert(variables[i].0 != variables[j].0);
        }
        law_signal_map(rest, module, roles);
        assert(variables[k] == variables.last());
        assert forall|i: int| 0 <= i < rest.len() implies #[trigger] rest[i] == variables[i] by {}
        if signal_map(variables, module, roles) is Ok {
            let before = signal_map(rest, module, roles)->Ok_0;
            let map = signal_map(variables, module, roles)->Ok_0;
            assert forall|i: int| 0 <= i < variables.len() implies is_accepted(
                #[trigger] variables[i],
                roles,
            ) by {
                if i < k {
                    assert(is_accepted(rest[i], roles));
                }
            }
            assert(!before.names.contains_key(id)) by {
                if before.names.contains_key(id) {
                    let i = choose|i: int|
                        0 <= i < rest.len() && (#[trigger] rest[i]).0 == id && public_name(
                            rest[i],
                            module,
                            roles,
                        ) is Some;
                    assert(variables[i].0 != variables[k].0);
                }
            }
            assert forall|i: int| 0 <= i < variables.len() implies match public_name(
                #[trigger] variables[i],
                module,
                roles,
            ) {
                Some(name) => {
                    let (id, variable) = variables[i];
                    &&& map.names.contains_key(id)
                    &&& map.names[id] == name
                    &&& map.public.contains(name)
                    &&& map.regs.contains_key(id) <==> is_register(id, roles)
                    &&& is_register(id, roles) ==> passes_on(
                        map.regs[id],
                        name,
                        "--"@ + module + "-"@ + last_segment(variable.path@),
                    )
                },
                None => true,
            } by {
                if i < k {
                    assert(rest[i] == variables[i]);
                    assert(variables[i].0 != variables[k].0);
                }
            }
            assert forall|x: u32| #[trigger] map.names.contains_key(x) implies exists|i: int|
                0 <= i < variables.len() && (#[trigger] variables[i]).0 == x && public_name(
                    variables[i],
                    module,
                    roles,
                ) is Some by {
                if before.names.contains_key(x) {
                    let i = choose|i: int|
                        0 <= i < rest.len() && (#[trigger] rest[i]).0 == x && public_name(
                            rest[i],
                            module,
                            roles,
                        ) is Some;
                    assert(variables[i].0 == x);
                } else {
                    assert(variables[k].0 == x);
                }
            }
            assert forall|x: u32| #[trigger] map.regs.contains_key(x) implies map.names.contains_key(
                x,
            ) by {
                if before.regs.contains_key(x) {
                    assert(before.names.contains_key(x));
                }
            }
            assert forall|name: Seq<char>| #[trigger] map.public.contains(name) implies exists|
                i: int,
            |
                0 <= i < variables.len() && public_name(#[trigger] variables[i], module, roles)
                    == Some(name) by {
                if before.public.contains(name) {
                    let i = choose|i: int|
                        0 <= i < rest.len() && public_name(#[trigger] rest[i], module, roles)
                            == Some(name);
                    assert(public_name(variables[i], module, roles) == Some(name));
                } else {
                    assert(public_name(variables[k], module, roles) == Some(name));
                }
            }
        } else if forall|i: int|
            0 <= i < variables.len() ==> is_accepted(#[trigger] variables[i], roles) {
            assert forall|i: int| 0 <= i < rest.len() implies is_accepted(
                #[trigger] rest[i],
                roles,
            ) by {
                assert(is_accepted(variables[i], roles));
            }
            assert(is_accepted(variables[k], roles));
        }
    }
}

/// Whether two lists hold the same variables.
pub open spec fn same_variables(a: Seq<(u32, Variable)>, b: Seq<(u32, Variable)>) -> bool {
    forall|entry: (u32, Variable)| a.contains(entry) <==> b.contains(entry)
}

/// One half of the equality of custom properties of the same variables.
proof fn lemma_names_carry_over(
    p: SignalMap,
    q: SignalMap,
    a: Seq<(u32, Variable)>,
    b: Seq<(u32, Variable)>,
    module: Seq<char>,
    roles: FfRoles,
)
    requires
        same_variables(a, b),
        describes(p, a, module, roles),
        describes(q, b, module, roles),
    ensures
        forall|id: u32| #[trigger]
            p.names.contains_key(id) ==> q.names.contains_key(id) && q.names[id] == p.names[id]
                && (p.regs.contains_key(id) <==> q.regs.contains_key(id)) && (p.regs.contains_key(
                id,
            ) ==> p.regs[id] == q.regs[id]),
        forall|name: Seq<char>| #[trigger] p.public.contains(name) ==> q.public.contains(name),
{
    assert forall|id: u32| #[trigger] p.names.contains_key(id) implies q.names.contains_key(id)
        && q.names[id] == p.names[id] && (p.regs.contains_key(id) <==> q.regs.contains_key(id)) && (
    p.regs.contains_key(id) ==> p.regs[id] == q.regs[id]) by {
        let i = choose|i: int|
            0 <= i < a.len() && (#[trigger] a[i]).0 == id && public_name(
                a[i],
                module,
                roles,
            ) is Some;
        assert(a.contains(a[i]));
        assert(b.contains(a[i]));
        let j = b.index_of(a[i]);
        assert(b[j] == a[i]);
    }
    assert forall|name: Seq<char>| #[trigger] p.public.contains(name) implies q.public.contains(
        name,
    ) by {
        let i = choose|i: int|
            0 <= i < a.len() && public_name(#[trigger] a[i], module, roles) == Some(name);
        assert(a.contains(a[i]));
        assert(b.contains(a[i]));
        let j = b.index_of(a[i]);
        assert(b[j] == a[i]);
    }
}

/// Variables that are accepted in one order are accepted in another.
proof fn lemma_accepted_in_any_order(
    a: Seq<(u32, Variable)>,
    b: Seq<(u32, Variable)>,
    roles: FfRoles,
)
    requires
        same_variables(a, b),
        forall|i: int| 0 <= i < a.len() ==> is_accepted(#[trigger] a[i], roles),
    ensures
        forall|i: int| 0 <= i < b.len() ==> is_accepted(#[trigger] b[i], roles),
{
    assert forall|i: int| 0 <= i < b.len() implies is_accepted(#[trigger] b[i], roles) by {
        assert(b.contains(b[i]));
        assert(a.contains(b[i]));
        let j = a.index_of(b[i]);
        assert(a[j] == b[i]);
    }
}

/// Whether variables are accepted does not depend on their order.
proof fn lemma_acceptance_order(
    a: Seq<(u32, Variable)>,
    b: Seq<(u32, Variable)>,
    module: Seq<char>,
    roles: FfRoles,
)
    requires
        same_variables(a, b),
        distinct_ids(a),
        distinct_ids(b),
    ensures
        signal_map(a, module, roles) is Ok <==> signal_map(b, module, roles) is Ok,
{
    law_signal_map(a, module, roles);
    law_signal_map(b, module, roles);
    if signal_map(a, module, roles) is Ok {
        lemma_accepted_in_any_order(a, b, roles);
    }
    if signal_map(b, module, roles) is Ok {
        lemma_accepted_in_any_order(b, a, roles);
    }
}

/// Law: whether a module has a style sheet does not depend on the order in which its variables are
/// walked, and neither does the style sheet.
pub proof fn law_walk_order(a: Module, b: Module)
    requires
        a.name@ == b.name@,
        a.declarations@ == b.declarations@,
        same_variables(a.variables@, b.variables@),
        distinct_ids(a.variables@),
        distinct_ids(b.variables@),
    ensures
        module_css(a) is Ok <==> module_css(b) is Ok,
        module_css(a) is Ok ==> module_css(a) == module_css(b),
{
    let roles = ff_roles(a.declarations@);
    let module = a.name@;
    lemma_acceptance_order(a.variables@, b.variables@, module, roles);
    if signal_map(a.variables@, module, roles) is Ok {
        law_signal_map(a.variables@, module, roles);
        law_signal_map(b.variables@, module, roles);
        let p = signal_map(a.variables@, module, roles)->Ok_0;
        let q = signal_map(b.variables@, module, roles)->Ok_0;
        lemma_names_carry_over(p, q, a.variables@, b.variables@, module, roles);
        lemma_names_carry_over(q, p, b.variables@, a.variables@, module, roles);
        assert(p.names == q.names);
        assert forall|id: u32| p.regs.contains_key(id) <==> q.regs.contains_key(id) by {
            if p.regs.contains_key(id) {
                assert(p.names.contains_key(id));
            }
            if q.regs.contains_key(id) {
                assert(q.names.contains_key(id));
            }
        }
        assert(p.regs == q.regs) by {
            assert forall|id: u32| p.regs.contains_key(id) implies p.regs[id] == q.regs[id] by {
                assert(p.names.contains_key(id));
            }
        }
        assert(p.public == q.public);
    }
}

/// The public custom properties are finitely many.
proof fn lemma_public_finite(variables: Seq<(u32, Variable)>, module: Seq<char>, roles: FfRoles)
    ensures
        signal_map(variables, module, roles) matches Ok(map) ==> map.public.finite(),
    decreases variables.len(),
{
    if variables.len() > 0 {
        lemma_public_finite(variables.drop_last(), module, roles);
    }
}

/// Law: the custom properties that a style sheet registers are those of the public signals, each
/// of them once and in alphabetical order.
pub proof fn law_registered(module: Module)
    requires
        distinct_ids(module.variables@),
        module_css(module) is Ok,
    ensures
        ({
            let properties = module_css(module)->Ok_0.properties;
            let roles = ff_roles(module.declarations@);
            &&& in_order(properties)
            &&& forall|name: Seq<char>| #[trigger]
                properties.contains(name) <==> exists|i: int|
                    0 <= i < module.variables@.len() && public_name(
                        #[trigger] module.variables@[i],
                        module.name@,
                        roles,
                    ) == Some(name)
        }),
{
    let variables = module.variables@;
    let roles = ff_roles(module.declarations@);
    let properties = module_css(module)->Ok_0.properties;
    let map = signal_map(variables, module.name@, roles)->Ok_0;
    lemma_public_finite(variables, module.name@, roles);
    lemma_name_list_holds(map.public);
    law_signal_map(variables, module.name@, roles);
    assert forall|name: Seq<char>| #[trigger] properties.contains(name) <==> exists|i: int|
        0 <= i < variables.len() && public_name(#[trigger] variables[i], module.name@, roles)
            == Some(name) by {
        assert(properties.contains(name) <==> properties.to_set().contains(name));
        assert(properties.contains(name) <==> map.public.contains(name));
    }
}

/// How many dashes a name has.
pub open spec fn dashes(s: Seq<char>) -> nat
    decreases s.len(),
{
    if s.len() == 0 {
        0
    } else {
        dashes(s.drop_last()) + if s.last() == '-' {
            1nat
        } else {
            0
        }
    }
}

pub proof fn lemma_dashes_add(a: Seq<char>, b: Seq<char>)
    ensures
        dashes(a + b) == dashes(a) + dashes(b),
    decreases b.len(),
{
    if b.len() == 0 {
        assert(a + b == a);
    } else {
        assert((a + b).drop_last() == a + b.drop_last());
        lemma_dashes_add(a, b.drop_last());
    }
}

/// Whether no name in a module has a dash, as is the case for identifiers.
pub open spec fn dashless(variables: Seq<(u32, Variable)>, module: Seq<char>) -> bool {
    &&& dashes(module) == 0
    &&& forall|i: int|
        0 <= i < variables.len() ==> dashes(last_segment((#[trigger] variables[i]).1.path@)) == 0
}

pub proof fn lemma_literal_dashes()
    ensures
        dashes("--"@) == 2,
        dashes("-"@) == 1,
        dashes("-next"@) == 1,
        dashes("-captured"@) == 1,
        dashes("-hoist"@) == 1,
{
    reveal_strlit("--");
    reveal_strlit("-");
    reveal_strlit("-next");
    reveal_strlit("-captured");
    reveal_strlit("-hoist");
    reveal_with_fuel(dashes, 10);
}

/// A public name has two or three dashes.
pub proof fn lemma_public_dashes(
    variables: Seq<(u32, Variable)>,
    i: int,
    module: Seq<char>,
    roles: FfRoles,
)
    requires
        dashless(variables, module),
        0 <= i < variables.len(),
    ensures
        public_name(variables[i], module, roles) matches Some(name) ==> 2 <= dashes(name) <= 3,
{
    lemma_literal_dashes();
    let signal = last_segment(variables[i].1.path@);
    lemma_dashes_add("--"@, signal);
    lemma_dashes_add("--"@, module);
    lemma_dashes_add("--"@ + module, "-"@);
    lemma_dashes_add("--"@ + module + "-"@, signal);
}

/// The names between the states of a register have four dashes.
pub proof fn lemma_reg_dashes(current: Seq<char>, module: Seq<char>, signal: Seq<char>)
    requires
        dashes(module) == 0,
        dashes(signal) == 0,
    ensures
        dashes(ff_reg(current, module, signal).next) == 4,
        dashes(ff_reg(current, module, signal).captured) == 4,
        dashes(ff_reg(current, module, signal).hoist) == 4,
{
    lemma_literal_dashes();
    let base = "--"@ + module + "-"@ + signal;
    lemma_dashes_add("--"@, module);
    lemma_dashes_add("--"@ + module, "-"@);
    lemma_dashes_add("--"@ + module + "-"@, signal);
    lemma_dashes_add(base, "-next"@);
    lemma_dashes_add(base, "-captured"@);
    lemma_dashes_add(base, "-hoist"@);
}

/// Law: the custom properties between the states of a register are never registered, where no
/// name has a dash.
pub proof fn law_intermediates_unregistered(module: Module, id: u32)
    requires
        distinct_ids(module.variables@),
        dashless(module.variables@, module.name@),
        module_css(module) is Ok,
        ({
            let map = signal_map(
                module.variables@,
                module.name@,
                ff_roles(module.declarations@),
            )->Ok_0;
            map.regs.contains_key(id)
        }),
    ensures
        ({
            let map = signal_map(
                module.variables@,
                module.name@,
                ff_roles(module.declarations@),
            )->Ok_0;
            let properties = module_css(module)->Ok_0.properties;
            &&& !properties.contains(map.regs[id].next)
            &&& !properties.contains(map.regs[id].captured)
            &&& !properties.contains(map.regs[id].hoist)
            &&& properties.contains(map.regs[id].current)
        }),
{
    let variables = module.variables@;
    let roles = ff_roles(module.declarations@);
    let properties = module_css(module)->Ok_0.properties;
    let map = signal_map(variables, module.name@, roles)->Ok_0;
    law_signal_map(variables, module.name@, roles);
    law_registered(module);
    assert(map.names.contains_key(id));
    let i = choose|i: int|
        0 <= i < variables.len() && (#[trigger] variables[i]).0 == id && public_name(
            variables[i],
            module.name@,
            roles,
        ) is Some;
    let name = public_name(variables[i], module.name@, roles)->0;
    lemma_reg_dashes(name, module.name@, last_segment(variables[i].1.path@));
    assert forall|x: Seq<char>| #[trigger] properties.contains(x) implies dashes(x) <= 3 by {
        let k = choose|k: int|
            0 <= k < variables.len() && public_name(
                #[trigger] variables[k],
                module.name@,
                roles,
            ) == Some(x);
        lemma_public_dashes(variables, k, module.name@, roles);
    }
    assert(properties.contains(name));
}

/// A numeral has no dash, and ends in a digit.
proof fn lemma_numeral_dashes(n: nat)
    ensures
        dashes(nat_text(n)) == 0,
        '0' <= nat_text(n).last() <= '9',
    decreases n,
{
    if n < 10 {
        assert(nat_text(n).drop_last() == Seq::<char>::empty());
        assert(dashes(Seq::<char>::empty()) == 0);
    } else {
        lemma_numeral_dashes(n / 10);
        assert(nat_text(n).drop_last() == nat_text(n / 10));
    }
}

/// Law: the custom property of a condition is neither registered nor one of a register, where no
/// name has a dash.
pub proof fn law_conditions_apart(module: Module, id: u32, n: nat)
    requires
        distinct_ids(module.variables@),
        dashless(module.variables@, module.name@),
        module_css(module) is Ok,
    ensures
        !module_css(module)->Ok_0.properties.contains(cond_name(n)),
        ({
            let map = signal_map(
                module.variables@,
                module.name@,
                ff_roles(module.declarations@),
            )->Ok_0;
            map.regs.contains_key(id) ==> {
                &&& cond_name(n) != map.regs[id].next
                &&& cond_name(n) != map.regs[id].captured
                &&& cond_name(n) != map.regs[id].hoist
            }
        }),
{
    let variables = module.variables@;
    let roles = ff_roles(module.declarations@);
    let properties = module_css(module)->Ok_0.properties;
    let map = signal_map(variables, module.name@, roles)->Ok_0;
    let name = cond_name(n);
    assert(dashes("--veryl-cond-"@) == 4) by {
        reveal_strlit("--veryl-cond-");
        reveal_with_fuel(dashes, 14);
    }
    lemma_numeral_dashes(n);
    lemma_nat_text_digits(n);
    lemma_dashes_add("--veryl-cond-"@, nat_text(n));
    assert(name.last() == nat_text(n).last());
    law_registered(module);
    if properties.contains(name) {
        let k = choose|k: int|
            0 <= k < variables.len() && public_name(
                #[trigger] variables[k],
                module.name@,
                roles,
            ) == Some(name);
        lemma_public_dashes(variables, k, module.name@, roles);
    }
    if map.regs.contains_key(id) {
        law_signal_map(variables, module.name@, roles);
        assert(map.names.contains_key(id));
        let i = choose|i: int|
            0 <= i < variables.len() && (#[trigger] variables[i]).0 == id && public_name(
                variables[i],
                module.name@,
                roles,
            ) is Some;
        reveal_strlit("-next");
        reveal_strlit("-captured");
        reveal_strlit("-hoist");
        let base = "--"@ + module.name@ + "-"@ + last_segment(variables[i].1.path@);
        assert((base + "-next"@).last() == 't');
        assert((base + "-captured"@).last() == 'd');
        assert((base + "-hoist"@).last() == 't');
    }
}

} // verus!
