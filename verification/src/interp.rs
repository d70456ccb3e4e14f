//! The executor: a depth-first walk over a program that commits direct
//! writes to the world, opens branches and merges them.

use vstd::prelude::*;
use crate::branch::{fits, merged, Branch, BranchModel};
use crate::value::{inserted, Val, Value};
use crate::world::{World, WorldState};

verus! {

/// What a print statement shows.
#[derive(Debug)]
pub enum PrintTarget {
    Variable(String),
    Value(Value),
}

/// One statement of a program.
#[derive(Debug)]
pub enum AstNode {
    Let { name: String, value: Value },
    Branch { variable: String, body: Vec<AstNode> },
    Merge { variable: String },
    Print { target: PrintTarget },
    Input { prompt: Option<String>, variable: String },
    ListPush { variable: String, value: Value },
    SetInsert { variable: String, value: Value },
}

/// The mathematical model of a [`PrintTarget`].
pub ghost enum PrintModel {
    Variable(Seq<char>),
    Value(Val),
}

/// The mathematical model of an [`AstNode`].
pub ghost enum AstModel {
    Let { name: Seq<char>, value: Val },
    Branch { variable: Seq<char>, body: Seq<AstModel> },
    Merge { variable: Seq<char> },
    Print { target: PrintModel },
    Input { prompt: Option<Seq<char>>, variable: Seq<char> },
    ListPush { variable: Seq<char>, value: Val },
    SetInsert { variable: Seq<char>, value: Val },
}

impl View for PrintTarget {
    type V = PrintModel;

    open spec fn view(&self) -> PrintModel {
        match self {
            PrintTarget::Variable(name) => PrintModel::Variable(name@),
            PrintTarget::Value(v) => PrintModel::Value(v@),
        }
    }
}

/// The models of a sequence of statements, position by position.
pub open spec fn ast_models(ast: Seq<AstNode>) -> Seq<AstModel>
    decreases ast,
{
    Seq::new(
        ast.len(),
        |i: int|
            if 0 <= i < ast.len() {
                ast[i].view()
            } else {
                AstModel::Merge { variable: Seq::empty() }
            },
    )
}

impl View for AstNode {
    type V = AstModel;

    open spec fn view(&self) -> AstModel
        decreases self,
    {
        match self {
            AstNode::Let { name, value } => AstModel::Let { name: name@, value: value@ },
            AstNode::Branch { variable, body } => AstModel::Branch {
                variable: variable@,
                body: ast_models(body@),
            },
            AstNode::Merge { variable } => AstModel::Merge { variable: variable@ },
            AstNode::Print { target } => AstModel::Print { target: target@ },
            AstNode::Input { prompt, variable } => AstModel::Input {
                prompt: match prompt {
                    Some(text) => Some(text@),
                    None => None,
                },
                variable: variable@,
            },
            AstNode::ListPush { variable, value } => AstModel::ListPush {
                variable: variable@,
                value: value@,
            },
            AstNode::SetInsert { variable, value } => AstModel::SetInsert {
                variable: variable@,
                value: value@,
            },
        }
    }
}

/// One thing a program hands to the terminal.
#[derive(Debug)]
pub enum Output {
    /// A value that a print statement shows.
    Shown(Value),
    /// A print statement named a variable that is not bound.
    Undefined(String),
    /// The prompt of an input statement.
    Prompt(String),
}

/// The mathematical model of an [`Output`].
pub ghost enum OutputModel {
    Shown(Val),
    Undefined(Seq<char>),
    Prompt(Seq<char>),
}

impl View for Output {
    type V = OutputModel;

    open spec fn view(&self) -> OutputModel {
        match self {
            Output::Shown(v) => OutputModel::Shown(v@),
            Output::Undefined(name) => OutputModel::Undefined(name@),
            Output::Prompt(text) => OutputModel::Prompt(text@),
        }
    }
}

/// The terminal as the executor sees it: the lines that input statements
/// will read, how many of them were read, and what was handed out so far.
#[derive(Debug)]
pub struct Console {
    pub inputs: Vec<String>,
    pub next: usize,
    pub outputs: Vec<Output>,
}

/// The models of a sequence of outputs.
pub open spec fn output_models(outs: Seq<Output>) -> Seq<OutputModel> {
    Seq::new(outs.len(), |i: int| outs[i]@)
}

/// The texts of a sequence of lines.
pub open spec fn texts(lines: Seq<String>) -> Seq<Seq<char>> {
    Seq::new(lines.len(), |i: int| lines[i]@)
}

/// The models of the slots of a registry.
pub open spec fn pending_models(slots: Seq<Option<Branch>>) -> Seq<Option<BranchModel>> {
    Seq::new(
        slots.len(),
        |i: int|
            match slots[i] {
                Some(b) => Some(b@),
                None => None,
            },
    )
}

/// The state of a run. `pending` is the registry of branches that were
/// opened and not yet merged, in opening order; a slot whose branch was
/// merged or replaced stays behind as `None`. `fits` says that no commit so
/// far took a generation past the largest number a machine word holds.
pub ghost struct Run {
    pub world: WorldState,
    pub pending: Seq<Option<BranchModel>>,
    pub used: nat,
    pub outputs: Seq<OutputModel>,
    pub fits: bool,
}

/// The branches that `slots` still holds, in order.
pub open spec fn live(slots: Seq<Option<BranchModel>>) -> Seq<BranchModel>
    decreases slots.len(),
{
    if slots.len() == 0 {
        Seq::empty()
    } else {
        match slots[0] {
            Some(b) => seq![b] + live(slots.skip(1)),
            None => live(slots.skip(1)),
        }
    }
}

/// The position of the branch opened last among those that `slots` holds
/// for `name`; -1 where it holds none.
pub open spec fn last_live(slots: Seq<Option<BranchModel>>, name: Seq<char>) -> int
    decreases slots.len(),
{
    if slots.len() == 0 {
        -1
    } else if slots.last() is Some && slots.last().unwrap().variable == name {
        slots.len() - 1
    } else {
        last_live(slots.drop_last(), name)
    }
}

/// `slots` without the branch it holds for `name`, if it holds one.
pub open spec fn retire(slots: Seq<Option<BranchModel>>, name: Seq<char>) -> Seq<
    Option<BranchModel>,
> {
    let i = last_live(slots, name);
    if i < 0 {
        slots
    } else {
        slots.update(i, None)
    }
}

/// What a print statement hands out in world `w`.
pub open spec fn shown(target: PrintModel, w: WorldState) -> OutputModel {
    match target {
        PrintModel::Variable(name) => match w.value_of(name) {
            Some(v) => OutputModel::Shown(v),
            None => OutputModel::Undefined(name),
        },
        PrintModel::Value(v) => OutputModel::Shown(v),
    }
}

/// The state after one statement. `inputs` are the lines that input
/// statements read, in order; once they are used up, an input statement
/// reads the empty line.
pub open spec fn step(node: AstModel, s: Run, inputs: Seq<Seq<char>>) -> Run
    decreases node, 0nat,
{
    match node {
        AstModel::Let { name, value } => Run { world: s.world.set(name, value), ..s },
        AstModel::Branch { variable, body } => {
            let t = run_upto(body, body.len(), s, inputs);
            let base = s.pending.len() as int;
            let opened = BranchModel {
                variable,
                delta: None,
                generation: s.world.generation_of(variable),
                nested: live(t.pending.skip(base)),
            };
            Run {
                pending: retire(t.pending.take(base), variable).push(Some(opened)),
                fits: s.fits && t.fits,
                ..t
            }
        },
        AstModel::Merge { variable } => {
            let i = last_live(s.pending, variable);
            if i < 0 {
                s
            } else {
                let b = s.pending[i].unwrap();
                Run {
                    world: merged(s.world, b),
                    pending: s.pending.update(i, None),
                    fits: s.fits && fits(s.world, b),
                    ..s
                }
            }
        },
        AstModel::Print { target } => Run { outputs: s.outputs.push(shown(target, s.world)), ..s },
        AstModel::Input { prompt, variable } => {
            let outputs = match prompt {
                Some(text) => s.outputs.push(OutputModel::Prompt(text)),
                None => s.outputs,
            };
            let line = if s.used < inputs.len() {
                inputs[s.used as int]
            } else {
                Seq::empty()
            };
            let used = if s.used < inputs.len() {
                s.used + 1
            } else {
                s.used
            };
            Run { world: s.world.set(variable, Val::Str(line)), used, outputs, ..s }
        },
        AstModel::ListPush { variable, value } => match s.world.value_of(variable) {
            Some(Val::List(xs)) => Run {
                world: s.world.set(variable, Val::List(xs.push(value))),
                ..s
            },
            _ => s,
        },
        AstModel::SetInsert { variable, value } => match s.world.value_of(variable) {
            Some(Val::Members(xs)) => Run {
                world: s.world.set(variable, Val::Members(inserted(xs, value))),
                ..s
            },
            _ => s,
        },
    }
}

/// The state after the first `n` statements of `ast`, in program order.
pub open spec fn run_upto(ast: Seq<AstModel>, n: nat, s: Run, inputs: Seq<Seq<char>>) -> Run
    decreases ast, n,
{
    if n == 0 || n > ast.len() {
        s
    } else {
        step(ast[n - 1], run_upto(ast, (n - 1) as nat, s, inputs), inputs)
    }
}

/// The state of a run as the executor holds it.
pub open spec fn snapshot(world: World, branches: Vec<Option<Branch>>, console: Console) -> Run {
    Run {
        world: world@,
        pending: pending_models(branches@),
        used: console.next as nat,
        outputs: output_models(console.outputs@),
        fits: true,
    }
}

/// A statement cannot mend a run that did not fit before it.
pub proof fn lemma_step_keeps_misfit(node: AstModel, s: Run, inputs: Seq<Seq<char>>)
    ensures
        step(node, s, inputs).fits ==> s.fits,
{
}

/// Where a run fits, it fitted after each of its statements.
pub proof fn lemma_run_fits_prefix(
    ast: Seq<AstModel>,
    n: nat,
    k: nat,
    s: Run,
    inputs: Seq<Seq<char>>,
)
    requires
        run_upto(ast, n, s, inputs).fits,
        k <= n <= ast.len(),
    ensures
        run_upto(ast, k, s, inputs).fits,
    decreases n,
{
    if k < n {
        lemma_step_keeps_misfit(ast[n - 1], run_upto(ast, (n - 1) as nat, s, inputs), inputs);
        lemma_run_fits_prefix(ast, (n - 1) as nat, k, s, inputs);
    }
}

fn find_live(branches: &Vec<Option<Branch>>, name: &String) -> (r: Option<usize>)
    ensures
        match r {
            Some(i) => i == last_live(pending_models(branches@), name@) && i < branches.len()
                && branches@[i as int] is Some,
            None => last_live(pending_models(branches@), name@) < 0,
        },
{
    let ghost slots = pending_models(branches@);
    let mut i: usize = branches.len();
    assert(slots.take(i as int) =~= slots);
    while i > 0
        invariant
            i <= branches.len(),
            slots == pending_models(branches@),
            last_live(slots, name@) == last_live(slots.take(i as int), name@),
        decreases i,
    {
        i -= 1;
        assert(slots.take(i + 1).drop_last() =~= slots.take(i as int));
        assert(slots.take(i + 1).last() == slots[i as int]);
        match &branches[i] {
            Some(b) => {
                if b.variable == *name {
                    return Some(i);
                }
            },
            None => {},
        }
    }
    None
}

fn retire_named(branches: &mut Vec<Option<Branch>>, name: &String)
    ensures
        final(branches).len() == old(branches).len(),
        pending_models(final(branches)@) == retire(pending_models(old(branches)@), name@),
{
    match find_live(branches, name) {
        Some(i) => {
            branches.set(i, None);
            assert(pending_models(branches@) =~= retire(pending_models(old(branches)@), name@));
        },
        None => {},
    }
}

fn collect_live(slots: Vec<Option<Branch>>) -> (r: Vec<Branch>)
    ensures
        crate::branch::models(r@) == live(pending_models(slots@)),
{
    let ghost all = pending_models(slots@);
    let mut rest = slots;
    let mut out: Vec<Branch> = Vec::new();
    assert(crate::branch::models(out@) =~= Seq::empty());
    while rest.len() > 0
        invariant
            crate::branch::models(out@) + live(pending_models(rest@)) == live(all),
        decreases rest.len(),
    {
        let ghost before = pending_models(rest@);
        let ghost done = crate::branch::models(out@);
        let slot = rest.remove(0);
        assert(pending_models(rest@) =~= before.skip(1));
        match slot {
            Some(b) => {
                out.push(b);
                assert(crate::branch::models(out@) =~= done + seq![b@]);
                assert(before[0] == Some(b@));
                assert((done + seq![b@]) + live(before.skip(1)) =~= done + (seq![b@] + live(
                    before.skip(1),
                )));
            },
            None => {
                assert(before[0] is None);
            },
        }
    }
    assert(live(pending_models(rest@)) =~= Seq::empty());
    assert(crate::branch::models(out@) + Seq::<BranchModel>::empty() =~= crate::branch::models(
        out@,
    ));
    out
}

/// Runs one statement against the world, the registry of open branches and
/// the console.
pub fn execute_node(
    node: &AstNode,
    world: &mut World,
    branches: &mut Vec<Option<Branch>>,
    console: &mut Console,
)
    requires
        old(world).wf(),
        step(
            node@,
            snapshot(*old(world), *old(branches), *old(console)),
            texts(old(console).inputs@),
        ).fits,
    ensures
        final(world).wf(),
        final(console).inputs@ == old(console).inputs@,
        final(branches).len() >= old(branches).len(),
        snapshot(*final(world), *final(branches), *final(console)) == step(
            node@,
            snapshot(*old(world), *old(branches), *old(console)),
            texts(old(console).inputs@),
        ),
    decreases node,
{
    let ghost s = snapshot(*world, *branches, *console);
    let ghost inputs = texts(console.inputs@);
    match node {
        AstNode::Let { name, value } => {
            world.set(name, value.duplicate());
        },
        AstNode::Branch { variable, body } => {
            let generation = world.get_generation(variable);
            let base = branches.len();
            execute_ast(body, world, branches, console);
            let ghost t = snapshot(*world, *branches, *console);
            let tail = branches.split_off(base);
            assert(pending_models(tail@) =~= t.pending.skip(base as int));
            assert(pending_models(branches@) =~= t.pending.take(base as int));
            let children = collect_live(tail);
            retire_named(branches, variable);
            let opened = Branch {
                variable: variable.clone(),
                delta: None,
                generation,
                nested: children,
            };
            let ghost kept = pending_models(branches@);
            branches.push(Some(opened));
            assert(pending_models(branches@) =~= kept.push(Some(opened@)));
        },
        AstNode::Merge { variable } => {
            match find_live(branches, variable) {
                Some(i) => {
                    match &branches[i] {
                        Some(b) => {
                            b.merge_into(world);
                        },
                        None => {},
                    }
                    branches.set(i, None);
                    assert(pending_models(branches@) =~= s.pending.update(i as int, None));
                },
                None => {},
            }
        },
        AstNode::Print { target } => {
            let ghost before = output_models(console.outputs@);
            let shown_now = match target {
                PrintTarget::Variable(name) => match world.get(name) {
                    Some(v) => Output::Shown(v.duplicate()),
                    None => Output::Undefined(name.clone()),
                },
                PrintTarget::Value(v) => Output::Shown(v.duplicate()),
            };
            console.outputs.push(shown_now);
            assert(output_models(console.outputs@) =~= before.push(shown_now@));
        },
        AstNode::Input { prompt, variable } => {
            match prompt {
                Some(text) => {
                    let ghost before = output_models(console.outputs@);
                    let out = Output::Prompt(text.clone());
                    console.outputs.push(out);
                    assert(output_models(console.outputs@) =~= before.push(out@));
                },
                None => {},
            }
            if console.next < console.inputs.len() {
                let line = console.inputs[console.next].clone();
                console.next = console.next + 1;
                world.set(variable, Value::Str(line));
            } else {
                world.set(variable, Value::Str(String::new()));
            }
        },
        AstNode::ListPush { variable, value } => {
            let updated = match world.get(variable) {
                Some(current) => current.with_pushed(value),
                None => None,
            };
            match updated {
                Some(v) => {
                    world.set(variable, v);
                },
                None => {},
            }
        },
        AstNode::SetInsert { variable, value } => {
            let updated = match world.get(variable) {
                Some(current) => current.with_inserted(value),
                None => None,
            };
            match updated {
                Some(v) => {
                    world.set(variable, v);
                },
                None => {},
            }
        },
    }
}

/// Runs the statements of `ast` in program order against the world, the
/// registry of open branches and the console.
pub fn execute_ast(
    ast: &Vec<AstNode>,
    world: &mut World,
    branches: &mut Vec<Option<Branch>>,
    console: &mut Console,
)
    requires
        old(world).wf(),
        run_upto(
            ast_models(ast@),
            ast@.len(),
            snapshot(*old(world), *old(branches), *old(console)),
            texts(old(console).inputs@),
        ).fits,
    ensures
        final(world).wf(),
        final(console).inputs@ == old(console).inputs@,
        final(branches).len() >= old(branches).len(),
        snapshot(*final(world), *final(branches), *final(console)) == run_upto(
            ast_models(ast@),
            ast@.len(),
            snapshot(*old(world), *old(branches), *old(console)),
            texts(old(console).inputs@),
        ),
    decreases ast,
{
    let ghost s = snapshot(*world, *branches, *console);
    let ghost inputs = texts(console.inputs@);
    let ghost len0 = branches.len();
    let mut i: usize = 0;
    while i < ast.len()
        invariant
            i <= ast.len(),
            world.wf(),
            console.inputs@ == old(console).inputs@,
            inputs == texts(console.inputs@),
            branches.len() >= len0,
            run_upto(ast_models(ast@), ast@.len(), s, inputs).fits,
            snapshot(*world, *branches, *console) == run_upto(
                ast_models(ast@),
                i as nat,
                s,
                inputs,
            ),
        decreases ast.len() - i,
    {
        proof {
            lemma_run_fits_prefix(ast_models(ast@), ast@.len(), (i + 1) as nat, s, inputs);
        }
        execute_node(&ast[i], world, branches, console);
        i += 1;
    }
}

} // verus!
