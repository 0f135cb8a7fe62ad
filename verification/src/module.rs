//! Modules, turned into style sheets.

use std::collections::BTreeMap;

use vstd::prelude::*;

use crate::branch::lemma_conds_add;
use crate::context::Ctx;
use crate::css::{
    block_css, comp_fns, comp_functions_css, css_block, css_comp_functions, css_keyframes,
    css_property, keyframes_css, line_texts, property_css, CompFn, CssCond, CssLine, CssValue,
};
use crate::error::Error;
use crate::ir::{Component, Declaration, Ir, Module, Statement};
use crate::names::{lemma_name_list, name_list};
use crate::order::{ascending, lemma_ascending, sorted_keys, views};
use crate::signal::{
    collect_ff_ids, collect_signals, ff_roles, reg_views, signal_map, FfReg, FfRegInfo, SignalMap,
};
use crate::statement::{
    comb_statement_css, declaration, emit_comb_statement, emit_ff_statement, ff_statement_css,
    Block,
};
use crate::text::{nat_text, texts, u128_text};

verus! {

broadcast use vstd::std_specs::btree::group_btree_axioms;

/// A generated style sheet.
pub struct Output {
    pub css: String,
}

/// What the statements of an `always_comb` block come to, conditions being numbered from `n` on.
pub open spec fn comb_css(stmts: Seq<Statement>, names: Map<u32, Seq<char>>, n: nat) -> Result<
    Block,
    Seq<char>,
>
    decreases stmts.len(),
{
    if stmts.len() == 0 {
        Ok(Block { conds: Seq::empty(), lines: Seq::empty() })
    } else {
        match comb_css(stmts.drop_last(), names, n) {
            Err(message) => Err(message),
            Ok(before) => match comb_statement_css(stmts.last(), names, n + before.conds.len()) {
                Err(message) => Err(message),
                Ok(block) => Ok(
                    Block {
                        conds: before.conds + block.conds,
                        lines: before.lines + block.lines,
                    },
                ),
            },
        }
    }
}

/// What the statements of an `always_ff` block come to, conditions being numbered from `n` on.
pub open spec fn ff_css(
    stmts: Seq<Statement>,
    names: Map<u32, Seq<char>>,
    next: Map<u32, Seq<char>>,
    n: nat,
) -> Result<Block, Seq<char>>
    decreases stmts.len(),
{
    if stmts.len() == 0 {
        Ok(Block { conds: Seq::empty(), lines: Seq::empty() })
    } else {
        match ff_css(stmts.drop_last(), names, next, n) {
            Err(message) => Err(message),
            Ok(before) => match ff_statement_css(
                stmts.last(),
                names,
                next,
                n + before.conds.len(),
            ) {
                Err(message) => Err(message),
                Ok(block) => Ok(
                    Block {
                        conds: before.conds + block.conds,
                        lines: before.lines + block.lines,
                    },
                ),
            },
        }
    }
}

/// What the declarations of a module come to: the conditions they need, in the order of their
/// numbers, and the declarations of `always_comb` and of `always_ff` blocks.
pub struct Body {
    pub conds: Seq<CssCond>,
    pub comb: Seq<CssLine>,
    pub ff: Seq<CssLine>,
}

/// What declarations come to; the first refused one decides the error.
pub open spec fn declarations_css(
    decls: Seq<Declaration>,
    names: Map<u32, Seq<char>>,
    next: Map<u32, Seq<char>>,
) -> Result<Body, Seq<char>>
    decreases decls.len(),
{
    if decls.len() == 0 {
        Ok(Body { conds: Seq::empty(), comb: Seq::empty(), ff: Seq::empty() })
    } else {
        match declarations_css(decls.drop_last(), names, next) {
            Err(message) => Err(message),
            Ok(before) => match decls.last() {
                Declaration::Comb(comb) => match comb_css(
                    comb.statements@,
                    names,
                    before.conds.len(),
                ) {
                    Err(message) => Err(message),
                    Ok(block) => Ok(
                        Body {
                            conds: before.conds + block.conds,
                            comb: before.comb + block.lines,
                            ff: before.ff,
                        },
                    ),
                },
                Declaration::Ff(ff) => match ff_css(
                    ff.statements@,
                    names,
                    next,
                    before.conds.len(),
                ) {
                    Err(message) => Err(message),
                    Ok(block) => Ok(
                        Body {
                            conds: before.conds + block.conds,
                            comb: before.comb,
                            ff: before.ff + block.lines,
                        },
                    ),
                },
                Declaration::Null => Ok(before),
                Declaration::Other(text) => Err("unsupported declaration: "@ + text@),
            },
        }
    }
}

/// Whether there is an `always_ff` block.
pub open spec fn has_ff(decls: Seq<Declaration>) -> bool {
    exists|i: int| 0 <= i < decls.len() && #[trigger] decls[i] is Ff
}

/// Whether there is an `always_comb` block.
pub open spec fn has_comb(decls: Seq<Declaration>) -> bool {
    exists|i: int| 0 <= i < decls.len() && #[trigger] decls[i] is Comb
}

/// The custom property of each register's next state.
pub open spec fn next_names(regs: Map<u32, FfReg>) -> Map<u32, Seq<char>> {
    regs.map_values(|reg: FfReg| reg.next)
}

/// The declarations by which registers show their states, 0 before the first cycle.
pub open spec fn current_lines(regs: Map<u32, FfReg>) -> Seq<CssLine> {
    ascending(regs.dom()).map_values(
        |id: u32| CssLine::Assign(regs[id].current, CssValue::VarOrZero(regs[id].hoist)),
    )
}

/// The declarations that bring captured states up, 0 before the first cycle.
pub open spec fn hoist_lines(regs: Map<u32, FfReg>) -> Seq<CssLine> {
    ascending(regs.dom()).map_values(
        |id: u32| CssLine::Assign(regs[id].hoist, CssValue::VarOrZero(regs[id].captured)),
    )
}

/// The declarations that capture the next states.
pub open spec fn capture_lines(regs: Map<u32, FfReg>) -> Seq<CssLine> {
    ascending(regs.dom()).map_values(
        |id: u32| CssLine::Assign(regs[id].captured, CssValue::Var(regs[id].next)),
    )
}

/// The registrations of custom properties.
pub open spec fn properties_css(vars: Seq<Seq<char>>) -> Seq<char>
    decreases vars.len(),
{
    if vars.len() == 0 {
        Seq::empty()
    } else {
        properties_css(vars.drop_last()) + property_css(vars.last())
    }
}

/// The style sheet of a module.
pub struct Sheet {
    /// The comparisons whose functions are declared.
    pub functions: Set<CompFn>,
    /// The custom properties that are registered, in alphabetical order.
    pub properties: Seq<Seq<char>>,
    /// Whether the module has states, and hence animations.
    pub has_ff: bool,
    /// The declarations of the rule that computes.
    pub body: Seq<CssLine>,
    /// The declarations of the animation that brings captured states up.
    pub hoist: Seq<CssLine>,
    /// The declarations of the animation that captures the next states.
    pub capture: Seq<CssLine>,
}

impl Sheet {
    /// How the style sheet is written. A module with states computes on `body`, where its
    /// animations run, since values are inherited from parents to children only.
    pub open spec fn text(self) -> Seq<char> {
        let head = "/* generated by veryl-css */\n\n"@ + comp_functions_css(self.functions)
            + properties_css(self.properties);
        if self.has_ff {
            head + block_css("body"@, line_texts(self.body)) + keyframes_css(
                "hoist"@,
                line_texts(self.hoist),
            ) + keyframes_css("capture"@, line_texts(self.capture))
        } else {
            head + block_css(":root"@, line_texts(self.body))
        }
    }
}

/// The style sheet of a module with the given custom properties.
pub open spec fn sheet_css(decls: Seq<Declaration>, map: SignalMap) -> Result<Sheet, Seq<char>> {
    match declarations_css(decls, map.names, next_names(map.regs)) {
        Err(message) => Err(message),
        Ok(body) => if !has_ff(decls) && !has_comb(decls) {
            Err("no comb or ff declaration found"@)
        } else {
            Ok(
                Sheet {
                    functions: comp_fns(body.conds),
                    properties: name_list(map.public),
                    has_ff: has_ff(decls),
                    body: if has_ff(decls) {
                        current_lines(map.regs) + body.comb + body.ff
                    } else {
                        body.comb
                    },
                    hoist: hoist_lines(map.regs),
                    capture: capture_lines(map.regs),
                },
            )
        },
    }
}

/// The style sheet of a module, or why it has none.
pub open spec fn module_css(module: Module) -> Result<Sheet, Seq<char>> {
    match signal_map(module.variables@, module.name@, ff_roles(module.declarations@)) {
        Err(message) => Err(message),
        Ok(map) => sheet_css(module.declarations@, map),
    }
}

/// The modules among some components.
pub open spec fn modules_of(components: Seq<Component>) -> Seq<Module>
    decreases components.len(),
{
    if components.len() == 0 {
        Seq::empty()
    } else {
        match components.last() {
            Component::Module(module) => modules_of(components.drop_last()).push(module),
            _ => modules_of(components.drop_last()),
        }
    }
}

/// The style sheet of a design, which has to consist of one module.
pub open spec fn ir_css(ir: Ir) -> Result<Sheet, Seq<char>> {
    let modules = modules_of(ir.components@);
    if modules.len() == 1 {
        module_css(modules[0])
    } else {
        Err("expected exactly one top module, found "@ + nat_text(modules.len()))
    }
}

/// A style sheet as it is written, or the message of an error.
pub open spec fn sheet_outcome(sheet: Result<Sheet, Seq<char>>) -> Result<Seq<char>, Seq<char>> {
    match sheet {
        Ok(sheet) => Ok(sheet.text()),
        Err(message) => Err(message),
    }
}

/// An output or the message of an error, both taken by their views.
pub open spec fn output_outcome(result: Result<Output, Error>) -> Result<Seq<char>, Seq<char>> {
    match result {
        Ok(output) => Ok(output.css@),
        Err(error) => Err(error.message@),
    }
}

proof fn lemma_comb_error(stmts: Seq<Statement>, k: int, names: Map<u32, Seq<char>>, n: nat)
    requires
        0 <= k <= stmts.len(),
        comb_css(stmts.take(k), names, n) is Err,
    ensures
        comb_css(stmts, names, n) == comb_css(stmts.take(k), names, n),
    decreases stmts.len(),
{
    if k == stmts.len() {
        assert(stmts.take(k) == stmts);
    } else {
        assert(stmts.drop_last().take(k) == stmts.take(k));
        lemma_comb_error(stmts.drop_last(), k, names, n);
    }
}

proof fn lemma_ff_error(
    stmts: Seq<Statement>,
    k: int,
    names: Map<u32, Seq<char>>,
    next: Map<u32, Seq<char>>,
    n: nat,
)
    requires
        0 <= k <= stmts.len(),
        ff_css(stmts.take(k), names, next, n) is Err,
    ensures
        ff_css(stmts, names, next, n) == ff_css(stmts.take(k), names, next, n),
    decreases stmts.len(),
{
    if k == stmts.len() {
        assert(stmts.take(k) == stmts);
    } else {
        assert(stmts.drop_last().take(k) == stmts.take(k));
        lemma_ff_error(stmts.drop_last(), k, names, next, n);
    }
}

proof fn lemma_declarations_error(
    decls: Seq<Declaration>,
    k: int,
    names: Map<u32, Seq<char>>,
    next: Map<u32, Seq<char>>,
)
    requires
        0 <= k <= decls.len(),
        declarations_css(decls.take(k), names, next) is Err,
    ensures
        declarations_css(decls, names, next) == declarations_css(decls.take(k), names, next),
    decreases decls.len(),
{
    if k == decls.len() {
        assert(decls.take(k) == decls);
    } else {
        assert(decls.drop_last().take(k) == decls.take(k));
        lemma_declarations_error(decls.drop_last(), k, names, next);
    }
}

/// There is a clock if and only if there is an `always_ff` block.
proof fn lemma_clock_of_ff(decls: Seq<Declaration>)
    ensures
        ff_roles(decls).clocks.is_empty() <==> !has_ff(decls),
    decreases decls.len(),
{
    if decls.len() > 0 {
        let rest = decls.drop_last();
        lemma_clock_of_ff(rest);
        if let Declaration::Ff(ff) = decls.last() {
            assert(decls[decls.len() - 1] is Ff);
            assert(ff_roles(decls).clocks.contains(ff.clock));
        } else {
            if has_ff(rest) {
                let i = choose|i: int| 0 <= i < rest.len() && #[trigger] rest[i] is Ff;
                assert(decls[i] is Ff);
            }
            if has_ff(decls) {
                let i = choose|i: int| 0 <= i < decls.len() && #[trigger] decls[i] is Ff;
                assert(rest[i] is Ff);
            }
        }
    }
}

proof fn lemma_lines_add(a: Seq<CssLine>, b: Seq<CssLine>)
    ensures
        line_texts(a + b) == line_texts(a) + line_texts(b),
{
}

/// Writes the statements of an `always_comb` block.
fn emit_comb(statements: &Vec<Statement>, ctx: &mut Ctx, out: &mut Vec<String>) -> (r: Result<
    (),
    Error,
>)
    requires
        old(ctx).wf(),
    ensures
        final(ctx).wf(),
        final(ctx).names == old(ctx).names,
        match comb_css(statements@, views(old(ctx).names@), old(ctx).cond_counter@) {
            Ok(block) => {
                &&& r is Ok
                &&& final(ctx).cond_counter@ == old(ctx).cond_counter@ + block.conds.len()
                &&& final(ctx).used_comp_fns@ == old(ctx).used_comp_fns@ + comp_fns(block.conds)
                &&& texts(final(out)@) == texts(old(out)@) + line_texts(block.lines)
            },
            Err(message) => r matches Err(error) && error.message@ == message,
        },
{
    let ghost names = views(ctx.names@);
    let ghost n = ctx.cond_counter@;
    let ghost used = ctx.used_comp_fns@;
    let ghost lines = texts(out@);
    let ghost mut done = Block { conds: Seq::empty(), lines: Seq::empty() };
    proof {
        assert(comp_fns(done.conds) == Set::<CompFn>::empty());
        assert(used + comp_fns(done.conds) == used);
        assert(lines + line_texts(done.lines) == lines);
    }
    for i in 0..statements.len()
        invariant
            ctx.wf(),
            ctx.names == old(ctx).names,
            names == views(old(ctx).names@),
            n == old(ctx).cond_counter@,
            comb_css(statements@.take(i as int), names, n) == Ok::<Block, Seq<char>>(done),
            ctx.cond_counter@ == n + done.conds.len(),
            ctx.used_comp_fns@ == used + comp_fns(done.conds),
            texts(out@) == lines + line_texts(done.lines),
    {
        let ghost upto = statements@.take(i + 1);
        proof {
            assert(upto.drop_last() == statements@.take(i as int));
            assert(upto.last() == statements@[i as int]);
            if comb_css(upto, names, n) is Err {
                lemma_comb_error(statements@, i + 1, names, n);
            }
        }
        emit_comb_statement(&statements[i], ctx, out)?;
        proof {
            let block = comb_statement_css(statements@[i as int], names, n + done.conds.len())->Ok_0;
            lemma_conds_add(n, done.conds, block.conds);
            lemma_lines_add(done.lines, block.lines);
            done = Block { conds: done.conds + block.conds, lines: done.lines + block.lines };
        }
    }
    assert(statements@.take(statements@.len() as int) == statements@);
    Ok(())
}

/// Writes the statements of an `always_ff` block.
fn emit_ff(
    statements: &Vec<Statement>,
    ctx: &mut Ctx,
    ff_next_names: &BTreeMap<u32, String>,
    out: &mut Vec<String>,
) -> (r: Result<(), Error>)
    requires
        old(ctx).wf(),
    ensures
        final(ctx).wf(),
        final(ctx).names == old(ctx).names,
        match ff_css(
            statements@,
            views(old(ctx).names@),
            views(ff_next_names@),
            old(ctx).cond_counter@,
        ) {
            Ok(block) => {
                &&& r is Ok
                &&& final(ctx).cond_counter@ == old(ctx).cond_counter@ + block.conds.len()
                &&& final(ctx).used_comp_fns@ == old(ctx).used_comp_fns@ + comp_fns(block.conds)
                &&& texts(final(out)@) == texts(old(out)@) + line_texts(block.lines)
            },
            Err(message) => r matches Err(error) && error.message@ == message,
        },
{
    let ghost names = views(ctx.names@);
    let ghost next = views(ff_next_names@);
    let ghost n = ctx.cond_counter@;
    let ghost used = ctx.used_comp_fns@;
    let ghost lines = texts(out@);
    let ghost mut done = Block { conds: Seq::empty(), lines: Seq::empty() };
    proof {
        assert(comp_fns(done.conds) == Set::<CompFn>::empty());
        assert(used + comp_fns(done.conds) == used);
        assert(lines + line_texts(done.lines) == lines);
    }
    for i in 0..statements.len()
        invariant
            ctx.wf(),
            ctx.names == old(ctx).names,
            names == views(old(ctx).names@),
            next == views(ff_next_names@),
            n == old(ctx).cond_counter@,
            ff_css(statements@.take(i as int), names, next, n) == Ok::<Block, Seq<char>>(done),
            ctx.cond_counter@ == n + done.conds.len(),
            ctx.used_comp_fns@ == used + comp_fns(done.conds),
            texts(out@) == lines + line_texts(done.lines),
    {
        let ghost upto = statements@.take(i + 1);
        proof {
            assert(upto.drop_last() == statements@.take(i as int));
            assert(upto.last() == statements@[i as int]);
            if ff_css(upto, names, next, n) is Err {
                lemma_ff_error(statements@, i + 1, names, next, n);
            }
        }
        emit_ff_statement(&statements[i], ctx, ff_next_names, out)?;
        proof {
            let block = ff_statement_css(
                statements@[i as int],
                names,
                next,
                n + done.conds.len(),
            )->Ok_0;
            lemma_conds_add(n, done.conds, block.conds);
            lemma_lines_add(done.lines, block.lines);
            done = Block { conds: done.conds + block.conds, lines: done.lines + block.lines };
        }
    }
    assert(statements@.take(statements@.len() as int) == statements@);
    Ok(())
}

/// The declarations that pass the states of registers on.
struct RegLines {
    current: Vec<String>,
    hoist: Vec<String>,
    capture: Vec<String>,
    next_names: BTreeMap<u32, String>,
}

/// Writes the value that a custom property holds, with a default.
fn var_or_zero(name: &str) -> (s: String)
    ensures
        s@ == CssValue::VarOrZero(name@).text(),
{
    let mut s = "var(".to_owned();
    s.append(name);
    s.append(", 0)");
    s
}

/// Writes the declarations that pass the states of registers on.
fn emit_registers(ff_regs: &BTreeMap<u32, FfRegInfo>) -> (lines: RegLines)
    ensures
        texts(lines.current@) == line_texts(current_lines(reg_views(ff_regs@))),
        texts(lines.hoist@) == line_texts(hoist_lines(reg_views(ff_regs@))),
        texts(lines.capture@) == line_texts(capture_lines(reg_views(ff_regs@))),
        views(lines.next_names@) == next_names(reg_views(ff_regs@)),
{
    let ghost regs = reg_views(ff_regs@);
    let ids = sorted_keys(ff_regs);
    let mut current: Vec<String> = Vec::new();
    let mut hoist: Vec<String> = Vec::new();
    let mut capture: Vec<String> = Vec::new();
    let mut next: BTreeMap<u32, String> = BTreeMap::new();
    proof {
        assert(regs.dom() == ff_regs@.dom());
        lemma_ascending(regs.dom());
        assert(ids@.take(0).to_set() == Set::<u32>::empty());
        assert(views(next@) == next_names(regs).restrict(ids@.take(0).to_set()));
    }
    for i in 0..ids.len()
        invariant
            regs == reg_views(ff_regs@),
            ids@ == ascending(regs.dom()),
            forall|id: u32| #[trigger] ids@.contains(id) <==> ff_regs@.contains_key(id),
            texts(current@) == line_texts(current_lines(regs)).take(i as int),
            texts(hoist@) == line_texts(hoist_lines(regs)).take(i as int),
            texts(capture@) == line_texts(capture_lines(regs)).take(i as int),
            views(next@) == next_names(regs).restrict(ids@.take(i as int).to_set()),
    {
        let id: u32 = ids[i];
        assert(ids@.contains(id));
        if let Some(info) = ff_regs.get(&id) {
            assert(info@ == regs[id]);
            let ghost c = texts(current@);
            let ghost h = texts(hoist@);
            let ghost p = texts(capture@);
            let ghost prior = views(next@);
            let line = declaration(&info.current, &var_or_zero(&info.hoist));
            assert(line@ == line_texts(current_lines(regs))[i as int]);
            current.push(line);
            assert(texts(current@) == c.push(line@));
            let line = declaration(&info.hoist, &var_or_zero(&info.captured));
            assert(line@ == line_texts(hoist_lines(regs))[i as int]);
            hoist.push(line);
            assert(texts(hoist@) == h.push(line@));
            let mut value = "var(".to_owned();
            value.append(&info.next);
            value.append(")");
            let line = declaration(&info.captured, &value);
            assert(line@ == line_texts(capture_lines(regs))[i as int]);
            capture.push(line);
            assert(texts(capture@) == p.push(line@));
            next.insert(id, info.next.clone());
            proof {
                assert(views(next@) == prior.insert(id, regs[id].next));
                let s = ids@.take(i as int);
                let t = ids@.take(i + 1);
                assert(t == s.push(id));
                s.lemma_push_to_set_commute(id);
                assert(next_names(regs).restrict(t.to_set()) == next_names(regs).restrict(
                    s.to_set(),
                ).insert(id, regs[id].next));
            }
        }
    }
    proof {
        assert(ids@.take(ids@.len() as int) == ids@);
        assert(next_names(regs).restrict(ids@.to_set()) == next_names(regs));
    }
    RegLines { current, hoist, capture, next_names: next }
}

/// What has been written for the declarations of a module.
struct BodyLines {
    comb: Vec<String>,
    ff: Vec<String>,
    saw_comb: bool,
}

/// Writes the declarations of a module.
fn emit_declarations(
    declarations: &Vec<Declaration>,
    ctx: &mut Ctx,
    ff_next_names: &BTreeMap<u32, String>,
) -> (r: Result<BodyLines, Error>)
    requires
        old(ctx).wf(),
        old(ctx).cond_counter@ == 0,
        old(ctx).used_comp_fns@ == Set::<CompFn>::empty(),
    ensures
        match declarations_css(declarations@, views(old(ctx).names@), views(ff_next_names@)) {
            Ok(body) => {
                &&& r matches Ok(lines)
                &&& texts(lines.comb@) == line_texts(body.comb)
                &&& texts(lines.ff@) == line_texts(body.ff)
                &&& lines.saw_comb == has_comb(declarations@)
                &&& final(ctx).used_comp_fns@ == comp_fns(body.conds)
            },
            Err(message) => r matches Err(error) && error.message@ == message,
        },
{
    let ghost names = views(ctx.names@);
    let ghost next = views(ff_next_names@);
    let mut comb_lines: Vec<String> = Vec::new();
    let mut ff_lines: Vec<String> = Vec::new();
    let mut saw_comb = false;
    let ghost mut done = Body { conds: Seq::empty(), comb: Seq::empty(), ff: Seq::empty() };
    proof {
        assert(comp_fns(done.conds) == Set::<CompFn>::empty());
        assert(texts(comb_lines@) == line_texts(done.comb));
        assert(texts(ff_lines@) == line_texts(done.ff));
    }
    for i in 0..declarations.len()
        invariant
            ctx.wf(),
            ctx.names == old(ctx).names,
            names == views(old(ctx).names@),
            next == views(ff_next_names@),
            declarations_css(declarations@.take(i as int), names, next) == Ok::<Body, Seq<char>>(
                done,
            ),
            ctx.cond_counter@ == done.conds.len(),
            ctx.used_comp_fns@ == comp_fns(done.conds),
            texts(comb_lines@) == line_texts(done.comb),
            texts(ff_lines@) == line_texts(done.ff),
            saw_comb == has_comb(declarations@.take(i as int)),
    {
        let ghost upto = declarations@.take(i + 1);
        let ghost prior = declarations@.take(i as int);
        proof {
            assert(upto.drop_last() == prior);
            assert(upto.last() == declarations@[i as int]);
            if declarations_css(upto, names, next) is Err {
                lemma_declarations_error(declarations@, i + 1, names, next);
            }
            if has_comb(prior) {
                let k = choose|k: int| 0 <= k < prior.len() && #[trigger] prior[k] is Comb;
                assert(upto[k] is Comb);
            }
            if has_comb(upto) {
                let k = choose|k: int| 0 <= k < upto.len() && #[trigger] upto[k] is Comb;
                assert(k < i ==> prior[k] is Comb);
            }
        }
        match &declarations[i] {
            Declaration::Comb(comb) => {
                saw_comb = true;
                assert(upto[i as int] is Comb);
                emit_comb(&comb.statements, ctx, &mut comb_lines)?;
                proof {
                    let block = comb_css(comb.statements@, names, done.conds.len())->Ok_0;
                    lemma_conds_add(0, done.conds, block.conds);
                    lemma_lines_add(done.comb, block.lines);
                    done = Body {
                        conds: done.conds + block.conds,
                        comb: done.comb + block.lines,
                        ff: done.ff,
                    };
                }
            },
            Declaration::Ff(ff) => {
                emit_ff(&ff.statements, ctx, ff_next_names, &mut ff_lines)?;
                proof {
                    let block = ff_css(ff.statements@, names, next, done.conds.len())->Ok_0;
                    lemma_conds_add(0, done.conds, block.conds);
                    lemma_lines_add(done.ff, block.lines);
                    done = Body {
                        conds: done.conds + block.conds,
                        comb: done.comb,
                        ff: done.ff + block.lines,
                    };
                }
            },
            Declaration::Null => {},
            Declaration::Other(text) => {
                return Err(Error::about("unsupported declaration: ", text));
            },
        }
    }
    assert(declarations@.take(declarations@.len() as int) == declarations@);
    Ok(BodyLines { comb: comb_lines, ff: ff_lines, saw_comb })
}

/// Turns a module into a style sheet.
///
/// The rules that start the animations and control their phases are not part of it: they belong
/// to the page, as its clock.
pub fn emit_module(module: &Module) -> (r: Result<Output, Error>)
    ensures
        output_outcome(r) == sheet_outcome(module_css(*module)),
{
    let ghost decls = module.declarations@;
    let ids = collect_ff_ids(&module.declarations);
    let has_ff = !ids.clock_ids.is_empty();
    proof {
        lemma_clock_of_ff(decls);
    }
    let signals = collect_signals(&module.variables, &module.name, &ids)?;
    let ghost map = signals@;
    let regs = emit_registers(&signals.ff_regs);
    let mut ctx = Ctx::new(&signals.names);
    let mut lines = emit_declarations(&module.declarations, &mut ctx, &regs.next_names)?;
    if !has_ff && !lines.saw_comb {
        return Err(Error::new("no comb or ff declaration found"));
    }
    let ghost sheet = module_css(*module)->Ok_0;
    assert(module_css(*module) is Ok);
    let mut css = "/* generated by veryl-css */\n\n".to_owned();
    let functions = css_comp_functions(&ctx.used_comp_fns);
    css.append(&functions);
    let ghost head = css@;
    let ghost vars = texts(signals.public_css_vars@);
    proof {
        lemma_name_list(vars, map.public);
    }
    let mut properties = String::new();
    for i in 0..signals.public_css_vars.len()
        invariant
            vars == texts(signals.public_css_vars@),
            properties@ == properties_css(vars.take(i as int)),
    {
        assert(vars.take(i + 1).drop_last() == vars.take(i as int));
        let property = css_property(&signals.public_css_vars[i]);
        properties.append(&property);
    }
    assert(vars.take(vars.len() as int) == vars);
    css.append(&properties);
    if has_ff {
        let mut body = regs.current;
        body.append(&mut lines.comb);
        body.append(&mut lines.ff);
        proof {
            let parts = declarations_css(decls, map.names, next_names(map.regs))->Ok_0;
            lemma_lines_add(current_lines(map.regs), parts.comb);
            lemma_lines_add(current_lines(map.regs) + parts.comb, parts.ff);
            assert(texts(body@) == line_texts(sheet.body));
        }
        css.append(&css_block("body", body.as_slice()));
        css.append(&css_keyframes("hoist", regs.hoist.as_slice()));
        css.append(&css_keyframes("capture", regs.capture.as_slice()));
    } else {
        css.append(&css_block(":root", lines.comb.as_slice()));
    }
    assert(css@ == sheet.text());
    Ok(Output { css })
}

/// Turns a design that consists of one module into a style sheet.
pub fn emit(ir: &Ir) -> (r: Result<Output, Error>)
    ensures
        output_outcome(r) == sheet_outcome(ir_css(*ir)),
{
    let ghost components = ir.components@;
    let mut count: usize = 0;
    let mut top: usize = 0;
    for i in 0..ir.components.len()
        invariant
            components == ir.components@,
            count <= i,
            count == modules_of(components.take(i as int)).len(),
            count > 0 ==> top < i && components[top as int] == Component::Module(
                modules_of(components.take(i as int)).last(),
            ),
    {
        assert(components.take(i + 1).drop_last() == components.take(i as int));
        assert(components.take(i + 1).last() == components[i as int]);
        if let Component::Module(_) = &ir.components[i] {
            count += 1;
            top = i;
        }
    }
    assert(components.take(components.len() as int) == components);
    if count == 1 {
        if let Component::Module(module) = &ir.components[top] {
            return emit_module(module);
        }
    }
    Err(Error::about("expected exactly one top module, found ", &u128_text(count as u128)))
}

} // verus!
