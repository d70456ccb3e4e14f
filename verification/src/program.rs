//! When a run is sure to fit, and the run of a whole program.

use vstd::prelude::*;
use crate::branch::{law_merge_growth, lemma_room_fits, size, size_among, Branch, BranchModel};
use crate::interp::{
    ast_models, execute_ast, last_live, live, output_models, retire, run_upto, snapshot, step,
    texts, AstModel, AstNode, Console, Output, Run,
};
use crate::world::{World, WorldState};

verus! {

/// The number of branches that the slots hold, nested ones included.
pub open spec fn pending_size(p: Seq<Option<BranchModel>>) -> nat
    decreases p.len(),
{
    if p.len() == 0 {
        0
    } else {
        pending_size(p.drop_last()) + match p.last() {
            Some(b) => size(b),
            None => 0,
        }
    }
}

/// The number of `branch` statements in a statement, at any depth.
pub open spec fn opens(node: AstModel) -> nat
    decreases node, 0nat,
{
    match node {
        AstModel::Branch { variable, body } => 1 + opens_upto(body, body.len()),
        _ => 0,
    }
}

/// The number of `branch` statements in the first `n` statements of `ast`.
pub open spec fn opens_upto(ast: Seq<AstModel>, n: nat) -> nat
    decreases ast, n,
{
    if n == 0 || n > ast.len() {
        0
    } else {
        opens_upto(ast, (n - 1) as nat) + opens(ast[n - 1])
    }
}

/// Every generation of the state leaves room for the commits of all
/// pending branches and of `extra` more.
pub open spec fn room(s: Run, extra: nat) -> bool {
    forall|name: Seq<char>| #[trigger]
        s.world.generation_of(name) + pending_size(s.pending) + extra <= usize::MAX
}

/// From `s` to `t`, no generation together with the pending branches grew
/// by more than `extra`, and no slot of the registry was given up.
pub open spec fn within(t: Run, s: Run, extra: nat) -> bool {
    &&& t.pending.len() >= s.pending.len()
    &&& forall|name: Seq<char>| #[trigger]
        t.world.generation_of(name) + pending_size(t.pending) <= s.world.generation_of(name)
            + pending_size(s.pending) + extra
}

proof fn lemma_size_split(p: Seq<Option<BranchModel>>, k: int)
    requires
        0 <= k <= p.len(),
    ensures
        pending_size(p) == pending_size(p.take(k)) + pending_size(p.skip(k)),
    decreases p.len(),
{
    if k == p.len() {
        assert(p.take(k) =~= p);
        assert(p.skip(k).len() == 0);
    } else {
        let q = p.drop_last();
        lemma_size_split(q, k);
        assert(q.take(k) =~= p.take(k));
        assert(p.skip(k).drop_last() =~= q.skip(k));
        assert(p.skip(k).last() == p.last());
    }
}

proof fn lemma_size_cleared(p: Seq<Option<BranchModel>>, i: int)
    requires
        0 <= i < p.len(),
    ensures
        pending_size(p) == pending_size(p.update(i, None)) + match p[i] {
            Some(b) => size(b),
            None => 0,
        },
    decreases p.len(),
{
    let q = p.update(i, None);
    if i == p.len() - 1 {
        assert(q.drop_last() =~= p.drop_last());
    } else {
        lemma_size_cleared(p.drop_last(), i);
        assert(q.drop_last() =~= p.drop_last().update(i, None));
        assert(q.last() == p.last());
    }
}

proof fn lemma_last_live(p: Seq<Option<BranchModel>>, name: Seq<char>)
    ensures
        last_live(p, name) < p.len(),
        last_live(p, name) >= 0 ==> p[last_live(p, name)] is Some,
        last_live(p, name) >= -1,
    decreases p.len(),
{
    if p.len() > 0 {
        lemma_last_live(p.drop_last(), name);
    }
}

proof fn lemma_size_among_prefix(s: Seq<BranchModel>, b: BranchModel, k: nat)
    requires
        k <= s.len(),
    ensures
        size_among(s.push(b), k) == size_among(s, k),
    decreases k,
{
    if k > 0 {
        lemma_size_among_prefix(s, b, (k - 1) as nat);
        assert(s.push(b)[k - 1] == s[k - 1]);
    }
}

proof fn lemma_live_push(p: Seq<Option<BranchModel>>, x: Option<BranchModel>)
    ensures
        live(p.push(x)) == match x {
            Some(b) => live(p).push(b),
            None => live(p),
        },
    decreases p.len(),
{
    let q = p.push(x);
    if p.len() == 0 {
        assert(q.skip(1) =~= Seq::empty());
        assert(live(q.skip(1)) =~= Seq::empty());
        match x {
            Some(b) => {
                assert(seq![b] + Seq::<BranchModel>::empty() =~= live(p).push(b));
            },
            None => {},
        }
    } else {
        lemma_live_push(p.skip(1), x);
        assert(q.skip(1) =~= p.skip(1).push(x));
        assert(q[0] == p[0]);
        match (p[0], x) {
            (Some(a), Some(b)) => {
                assert(seq![a] + live(p.skip(1)).push(b) =~= (seq![a] + live(p.skip(1))).push(b));
            },
            _ => {},
        }
    }
}

proof fn lemma_live_size(p: Seq<Option<BranchModel>>)
    ensures
        size_among(live(p), live(p).len()) == pending_size(p),
    decreases p.len(),
{
    if p.len() > 0 {
        let q = p.drop_last();
        lemma_live_size(q);
        lemma_live_push(q, p.last());
        assert(q.push(p.last()) =~= p);
        match p.last() {
            Some(b) => {
                lemma_size_among_prefix(live(q), b, live(q).len());
            },
            None => {},
        }
    } else {
        assert(live(p) =~= Seq::empty());
    }
}

/// A statement fits, and keeps within its number of `branch` statements,
/// wherever the state it starts from leaves room for that many commits.
pub proof fn law_step_fits(node: AstModel, s: Run, inputs: Seq<Seq<char>>)
    requires
        s.fits,
        room(s, opens(node)),
    ensures
        step(node, s, inputs).fits,
        within(step(node, s, inputs), s, opens(node)),
    decreases node, 0nat,
{
    let t = step(node, s, inputs);
    match node {
        AstModel::Branch { variable, body } => {
            law_run_fits(body, body.len(), s, inputs);
            let u = run_upto(body, body.len(), s, inputs);
            let base = s.pending.len() as int;
            let kept = u.pending.take(base);
            let tail = u.pending.skip(base);
            lemma_size_split(u.pending, base);
            lemma_live_size(tail);
            lemma_last_live(kept, variable);
            let i = last_live(kept, variable);
            if i >= 0 {
                lemma_size_cleared(kept, i);
            }
            let cleared = retire(kept, variable);
            assert(t.pending == cleared.push(t.pending.last()));
            assert(t.pending.drop_last() =~= cleared);
            assert forall|name: Seq<char>| #[trigger]
                t.world.generation_of(name) + pending_size(t.pending) <= s.world.generation_of(
                    name,
                ) + pending_size(s.pending) + opens(node) by {
                assert(u.world.generation_of(name) + pending_size(u.pending) <= s.world.generation_of(
                    name,
                ) + pending_size(s.pending) + opens_upto(body, body.len()));
            }
        },
        AstModel::Merge { variable } => {
            lemma_last_live(s.pending, variable);
            let i = last_live(s.pending, variable);
            if i >= 0 {
                let b = s.pending[i].unwrap();
                lemma_size_cleared(s.pending, i);
                assert forall|name: Seq<char>| #[trigger]
                    s.world.generation_of(name) + size(b) <= usize::MAX by {
                    assert(s.world.generation_of(name) + pending_size(s.pending) + opens(node)
                        <= usize::MAX);
                }
                lemma_room_fits(s.world, b);
                assert forall|name: Seq<char>| #[trigger]
                    t.world.generation_of(name) + pending_size(t.pending) <= s.world.generation_of(
                        name,
                    ) + pending_size(s.pending) + opens(node) by {
                    law_merge_growth(s.world, b, name);
                }
            }
        },
        _ => {},
    }
}

/// A run of statements fits, and keeps within its number of `branch`
/// statements, wherever the state it starts from leaves room for that many
/// commits. From an empty world and an empty registry that is every
/// program.
pub proof fn law_run_fits(ast: Seq<AstModel>, n: nat, s: Run, inputs: Seq<Seq<char>>)
    requires
        s.fits,
        n <= ast.len(),
        room(s, opens_upto(ast, n)),
    ensures
        run_upto(ast, n, s, inputs).fits,
        within(run_upto(ast, n, s, inputs), s, opens_upto(ast, n)),
    decreases ast, n,
{
    if n > 0 {
        let m = (n - 1) as nat;
        assert forall|name: Seq<char>| #[trigger]
            s.world.generation_of(name) + pending_size(s.pending) + opens_upto(ast, m)
                <= usize::MAX by {
            assert(s.world.generation_of(name) + pending_size(s.pending) + opens_upto(ast, n)
                <= usize::MAX);
        }
        law_run_fits(ast, m, s, inputs);
        let u = run_upto(ast, m, s, inputs);
        assert forall|name: Seq<char>| #[trigger]
            u.world.generation_of(name) + pending_size(u.pending) + opens(ast[n - 1])
                <= usize::MAX by {
            assert(u.world.generation_of(name) + pending_size(u.pending) <= s.world.generation_of(
                name,
            ) + pending_size(s.pending) + opens_upto(ast, m));
            assert(s.world.generation_of(name) + pending_size(s.pending) + opens_upto(ast, n)
                <= usize::MAX);
        }
        law_step_fits(ast[n - 1], u, inputs);
        let t = step(ast[n - 1], u, inputs);
        assert forall|name: Seq<char>| #[trigger]
            t.world.generation_of(name) + pending_size(t.pending) <= s.world.generation_of(name)
                + pending_size(s.pending) + opens_upto(ast, n) by {
            assert(t.world.generation_of(name) + pending_size(t.pending) <= u.world.generation_of(
                name,
            ) + pending_size(u.pending) + opens(ast[n - 1]));
            assert(u.world.generation_of(name) + pending_size(u.pending) <= s.world.generation_of(
                name,
            ) + pending_size(s.pending) + opens_upto(ast, m));
        }
    }
}

/// The state in which every run of a whole program starts: nothing bound,
/// nothing pending, nothing read or handed out.
pub open spec fn start() -> Run {
    Run {
        world: WorldState::empty(),
        pending: Seq::empty(),
        used: 0,
        outputs: Seq::empty(),
        fits: true,
    }
}

/// The count of `branch` statements only grows along a program.
pub proof fn lemma_opens_grow(ast: Seq<AstModel>, k: nat, n: nat)
    requires
        k <= n <= ast.len(),
    ensures
        opens_upto(ast, k) <= opens_upto(ast, n),
    decreases n,
{
    if k < n {
        lemma_opens_grow(ast, k, (n - 1) as nat);
    }
}

/// The number of `branch` statements in a program, at any depth; `None`
/// where a machine word cannot hold it.
pub fn count_opens(ast: &Vec<AstNode>) -> (r: Option<usize>)
    ensures
        match r {
            Some(n) => n == opens_upto(ast_models(ast@), ast@.len()),
            None => opens_upto(ast_models(ast@), ast@.len()) > usize::MAX,
        },
    decreases ast,
{
    let mut total: usize = 0;
    let mut i: usize = 0;
    while i < ast.len()
        invariant
            i <= ast.len(),
            total == opens_upto(ast_models(ast@), i as nat),
        decreases ast.len() - i,
    {
        proof {
            lemma_opens_grow(ast_models(ast@), (i + 1) as nat, ast@.len());
            assert(opens_upto(ast_models(ast@), (i + 1) as nat) == opens_upto(
                ast_models(ast@),
                i as nat,
            ) + opens(ast@[i as int]@));
        }
        match &ast[i] {
            AstNode::Branch { variable, body } => {
                assert(opens(ast@[i as int]@) == 1 + opens_upto(ast_models(body@), body@.len()));
                match count_opens(body) {
                    Some(k) => {
                        if k >= usize::MAX - total {
                            return None;
                        }
                        total = total + k + 1;
                    },
                    None => {
                        return None;
                    },
                }
            },
            _ => {},
        }
        i += 1;
    }
    Some(total)
}

/// Runs a whole program from an empty world, with `inputs` as the lines
/// that its input statements read, and hands back the world it leaves and
/// what it handed out. `None`, with nothing run, for a program with more
/// `branch` statements than a machine word counts.
pub fn run(ast: &Vec<AstNode>, inputs: Vec<String>) -> (r: Option<(World, Vec<Output>)>)
    ensures
        r is Some == (opens_upto(ast_models(ast@), ast@.len()) <= usize::MAX),
        match r {
            Some((world, outputs)) => {
                let end = run_upto(ast_models(ast@), ast@.len(), start(), texts(inputs@));
                &&& world.wf()
                &&& world@ == end.world
                &&& output_models(outputs@) == end.outputs
                &&& end.fits
            },
            None => true,
        },
{
    match count_opens(ast) {
        Some(_) => {
            let mut world = World::new();
            let mut branches: Vec<Option<Branch>> = Vec::new();
            let mut console = Console { inputs, next: 0, outputs: Vec::new() };
            proof {
                let s = snapshot(world, branches, console);
                assert(s.pending =~= Seq::empty());
                assert(s.outputs =~= Seq::empty());
                assert(s == start());
                assert(pending_size(s.pending) == 0);
                law_run_fits(ast_models(ast@), ast@.len(), s, texts(inputs@));
            }
            execute_ast(ast, &mut world, &mut branches, &mut console);
            Some((world, console.outputs))
        },
        None => None,
    }
}

} // verus!
