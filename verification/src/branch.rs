//! Speculative branches and the merge protocol that commits them.

use vstd::prelude::*;
use crate::value::{Val, Value};
use crate::world::{World, WorldState};

verus! {

/// A speculative change record for one variable.
#[derive(Debug)]
pub struct Branch {
    /// The name the branch watches.
    pub variable: String,
    /// The value the branch intends to bind, if any.
    pub delta: Option<Value>,
    /// The generation of the watched variable when the branch was opened.
    pub generation: usize,
    /// The branches opened while the body of this one ran, in opening order.
    pub nested: Vec<Branch>,
}

/// The mathematical model of a [`Branch`].
pub ghost struct BranchModel {
    pub variable: Seq<char>,
    pub delta: Option<Val>,
    pub generation: nat,
    pub nested: Seq<BranchModel>,
}

/// The model of an optional value.
pub open spec fn delta_model(delta: Option<Value>) -> Option<Val> {
    match delta {
        Some(v) => Some(v@),
        None => None,
    }
}

/// The models of a sequence of branches, position by position.
pub open spec fn models(bs: Seq<Branch>) -> Seq<BranchModel>
    decreases bs,
{
    Seq::new(
        bs.len(),
        |i: int|
            if 0 <= i < bs.len() {
                bs[i].view()
            } else {
                BranchModel {
                    variable: Seq::empty(),
                    delta: None,
                    generation: 0,
                    nested: Seq::empty(),
                }
            },
    )
}

impl View for Branch {
    type V = BranchModel;

    open spec fn view(&self) -> BranchModel
        decreases self,
    {
        BranchModel {
            variable: self.variable@,
            delta: delta_model(self.delta),
            generation: self.generation as nat,
            nested: models(self.nested@),
        }
    }
}

/// A branch is stale in a world where the generation of its variable is no
/// longer the one it was opened at.
pub open spec fn stale(w: WorldState, b: BranchModel) -> bool {
    w.generation_of(b.variable) != b.generation
}

/// The branch's own commit: its delta, where it has one, is bound to its
/// variable, and the variable's generation goes up by one.
pub open spec fn committed(w: WorldState, b: BranchModel) -> WorldState {
    match b.delta {
        Some(v) => w.set(b.variable, v).advance(b.variable),
        None => w.advance(b.variable),
    }
}

/// The world after `b` is merged into `w`: `w` itself where `b` is stale;
/// else the branch's own commit, followed by the merge of each nested
/// branch in opening order, each judged by its own generation.
pub open spec fn merged(w: WorldState, b: BranchModel) -> WorldState
    decreases b, 0nat,
{
    if stale(w, b) {
        w
    } else {
        merged_upto(committed(w, b), b.nested, b.nested.len())
    }
}

/// The world after the first `n` branches of `bs` are merged into `w`, one
/// after the other.
pub open spec fn merged_upto(w: WorldState, bs: Seq<BranchModel>, n: nat) -> WorldState
    decreases bs, n,
{
    if n == 0 || n > bs.len() {
        w
    } else {
        merged(merged_upto(w, bs, (n - 1) as nat), bs[n - 1])
    }
}

/// No commit made while `b` is merged into `w` takes a generation past the
/// largest number a machine word holds.
pub open spec fn fits(w: WorldState, b: BranchModel) -> bool
    decreases b, 0nat,
{
    stale(w, b) || (w.generation_of(b.variable) < usize::MAX && fits_upto(
        committed(w, b),
        b.nested,
        b.nested.len(),
    ))
}

/// [`fits`], for the first `n` branches of `bs` merged one after the other.
pub open spec fn fits_upto(w: WorldState, bs: Seq<BranchModel>, n: nat) -> bool
    decreases bs, n,
{
    n == 0 || n > bs.len() || (fits_upto(w, bs, (n - 1) as nat) && fits(
        merged_upto(w, bs, (n - 1) as nat),
        bs[n - 1],
    ))
}

/// Where a run of merges fits, every shorter run does.
pub proof fn lemma_fits_prefix(w: WorldState, bs: Seq<BranchModel>, n: nat, k: nat)
    requires
        fits_upto(w, bs, n),
        k <= n <= bs.len(),
    ensures
        fits_upto(w, bs, k),
    decreases n,
{
    if k < n {
        lemma_fits_prefix(w, bs, (n - 1) as nat, k);
    }
}

fn merge_each(bs: &Vec<Branch>, world: &mut World)
    requires
        old(world).wf(),
        fits_upto(old(world)@, models(bs@), bs.len() as nat),
    ensures
        final(world).wf(),
        final(world)@ == merged_upto(old(world)@, models(bs@), bs.len() as nat),
    decreases bs,
{
    let ghost start = world@;
    let ghost ms = models(bs@);
    let mut i: usize = 0;
    while i < bs.len()
        invariant
            i <= bs.len(),
            world.wf(),
            ms == models(bs@),
            fits_upto(start, ms, bs.len() as nat),
            world@ == merged_upto(start, ms, i as nat),
        decreases bs.len() - i,
    {
        proof {
            lemma_fits_prefix(start, ms, bs.len() as nat, (i + 1) as nat);
        }
        bs[i].merge_into(world);
        i += 1;
    }
}

impl Branch {
    /// A branch on `variable`, opened at `generation`, with no nested branch.
    pub fn new(variable: &String, delta: Option<Value>, generation: usize) -> (b: Branch)
        ensures
            b@ == (BranchModel {
                variable: variable@,
                delta: delta_model(delta),
                generation: generation as nat,
                nested: Seq::empty(),
            }),
    {
        let b = Branch { variable: variable.clone(), delta, generation, nested: Vec::new() };
        assert(b@.nested =~= Seq::empty());
        b
    }

    /// Merges the branch into `world`, as [`Branch::merge`] does, and leaves
    /// the branch to its owner.
    pub fn merge_into(&self, world: &mut World)
        requires
            old(world).wf(),
            fits(old(world)@, self@),
        ensures
            final(world).wf(),
            final(world)@ == merged(old(world)@, self@),
        decreases self,
    {
        if world.get_generation(&self.variable) != self.generation {
            return ;
        }
        match &self.delta {
            Some(v) => {
                world.set(&self.variable, v.duplicate());
            },
            None => {},
        }
        world.advance_generation(&self.variable);
        merge_each(&self.nested, world);
    }

    /// Merges the branch into `world` and consumes it. A stale branch leaves
    /// the world as it is. A fresh one binds its delta, where it has one,
    /// advances the generation of its variable, and then merges its nested
    /// branches in opening order.
    pub fn merge(self, world: &mut World)
        requires
            old(world).wf(),
            fits(old(world)@, self@),
        ensures
            final(world).wf(),
            final(world)@ == merged(old(world)@, self@),
    {
        self.merge_into(world);
    }
}

/// `b`, or a branch nested in it at any depth, watches `name`.
pub open spec fn watches(b: BranchModel, name: Seq<char>) -> bool
    decreases b, 0nat,
{
    b.variable == name || watches_among(b.nested, name, b.nested.len())
}

/// One of the first `n` branches of `bs` watches `name`, itself or through a
/// branch nested in it.
pub open spec fn watches_among(bs: Seq<BranchModel>, name: Seq<char>, n: nat) -> bool
    decreases bs, n,
{
    0 < n <= bs.len() && (watches_among(bs, name, (n - 1) as nat) || watches(bs[n - 1], name))
}

/// Merging a stale branch changes nothing: the world after is the world
/// before, whatever the branch intended.
pub proof fn law_stale_merge_is_noop(w: WorldState, b: BranchModel)
    requires
        stale(w, b),
    ensures
        merged(w, b) == w,
{
}

/// A merge leaves alone every name that neither the branch nor a branch
/// nested in it watches: its binding and its generation stay.
pub proof fn law_merge_frame(w: WorldState, b: BranchModel, name: Seq<char>)
    requires
        !watches(b, name),
    ensures
        merged(w, b).value_of(name) == w.value_of(name),
        merged(w, b).generation_of(name) == w.generation_of(name),
    decreases b, 0nat,
{
    if !stale(w, b) {
        law_merge_frame_among(committed(w, b), b.nested, name, b.nested.len());
    }
}

/// [`law_merge_frame`], for the first `n` branches of `bs` merged one after
/// the other.
pub proof fn law_merge_frame_among(w: WorldState, bs: Seq<BranchModel>, name: Seq<char>, n: nat)
    requires
        !watches_among(bs, name, n),
    ensures
        merged_upto(w, bs, n).value_of(name) == w.value_of(name),
        merged_upto(w, bs, n).generation_of(name) == w.generation_of(name),
    decreases bs, n,
{
    if 0 < n <= bs.len() {
        law_merge_frame_among(w, bs, name, (n - 1) as nat);
        law_merge_frame(merged_upto(w, bs, (n - 1) as nat), bs[n - 1], name);
    }
}

/// Merging a fresh branch whose delta is `x`, and in which no nested branch
/// watches the same variable, binds the variable to `x` and takes its
/// generation up by exactly one.
pub proof fn law_fresh_merge_applies(w: WorldState, b: BranchModel, x: Val)
    requires
        !stale(w, b),
        b.delta == Some(x),
        !watches_among(b.nested, b.variable, b.nested.len()),
    ensures
        merged(w, b).value_of(b.variable) == Some(x),
        merged(w, b).generation_of(b.variable) == w.generation_of(b.variable) + 1,
{
    law_merge_frame_among(committed(w, b), b.nested, b.variable, b.nested.len());
}

/// Merging a fresh branch without a delta still counts as a commit: where
/// no nested branch watches the same variable, the binding stays and the
/// generation goes up by exactly one.
pub proof fn law_fresh_merge_without_delta(w: WorldState, b: BranchModel)
    requires
        !stale(w, b),
        b.delta is None,
        !watches_among(b.nested, b.variable, b.nested.len()),
    ensures
        merged(w, b).value_of(b.variable) == w.value_of(b.variable),
        merged(w, b).generation_of(b.variable) == w.generation_of(b.variable) + 1,
{
    law_merge_frame_among(committed(w, b), b.nested, b.variable, b.nested.len());
}

/// Nested branches compose: merging a fresh branch `a` that holds one nested
/// branch `b` on another variable makes `a`'s own commit and then merges
/// `b`, which is judged by the generation of its own variable as it stood
/// before `a` was merged.
pub proof fn law_nested_merge_composes(w: WorldState, a: BranchModel, b: BranchModel)
    requires
        !stale(w, a),
        a.nested == seq![b],
        a.variable != b.variable,
    ensures
        merged(w, a) == merged(committed(w, a), b),
        stale(committed(w, a), b) == stale(w, b),
        !watches(b, a.variable) ==> merged(w, a).value_of(a.variable) == committed(
            w,
            a,
        ).value_of(a.variable),
{
    assert(a.nested.len() == 1);
    assert(a.nested[0] == b);
    assert(merged_upto(committed(w, a), a.nested, 0) == committed(w, a));
    assert(merged_upto(committed(w, a), a.nested, 1) == merged(
        merged_upto(committed(w, a), a.nested, 0),
        a.nested[0],
    ));
    if !watches(b, a.variable) {
        law_merge_frame(committed(w, a), b, a.variable);
    }
}

/// The number of branches in `b`, itself included.
pub open spec fn size(b: BranchModel) -> nat
    decreases b, 0nat,
{
    1 + size_among(b.nested, b.nested.len())
}

/// The number of branches in the first `n` branches of `bs`.
pub open spec fn size_among(bs: Seq<BranchModel>, n: nat) -> nat
    decreases bs, n,
{
    if n == 0 || n > bs.len() {
        0
    } else {
        size_among(bs, (n - 1) as nat) + size(bs[n - 1])
    }
}

/// Generations only grow: a merge lowers no generation, and raises none by
/// more than the number of branches merged.
pub proof fn law_merge_growth(w: WorldState, b: BranchModel, name: Seq<char>)
    ensures
        w.generation_of(name) <= merged(w, b).generation_of(name) <= w.generation_of(name) + size(
            b,
        ),
    decreases b, 0nat,
{
    if !stale(w, b) {
        law_merge_growth_among(committed(w, b), b.nested, b.nested.len(), name);
    }
}

/// [`law_merge_growth`], for the first `n` branches of `bs` merged one after
/// the other.
pub proof fn law_merge_growth_among(w: WorldState, bs: Seq<BranchModel>, n: nat, name: Seq<char>)
    ensures
        w.generation_of(name) <= merged_upto(w, bs, n).generation_of(name) <= w.generation_of(name)
            + size_among(bs, n),
    decreases bs, n,
{
    if 0 < n <= bs.len() {
        law_merge_growth_among(w, bs, (n - 1) as nat, name);
        law_merge_growth(merged_upto(w, bs, (n - 1) as nat), bs[n - 1], name);
    }
}

/// A merge fits wherever every generation of the world leaves room for as
/// many commits as the branch holds branches.
pub proof fn lemma_room_fits(w: WorldState, b: BranchModel)
    requires
        forall|name: Seq<char>| #[trigger] w.generation_of(name) + size(b) <= usize::MAX,
    ensures
        fits(w, b),
    decreases b, 0nat,
{
    if !stale(w, b) {
        let c = committed(w, b);
        assert(w.generation_of(b.variable) + size(b) <= usize::MAX);
        assert forall|name: Seq<char>| #[trigger]
            c.generation_of(name) + size_among(b.nested, b.nested.len()) <= usize::MAX by {
            assert(w.generation_of(name) + size(b) <= usize::MAX);
        }
        lemma_room_fits_among(c, b.nested, b.nested.len());
    }
}

/// [`lemma_room_fits`], for the first `n` branches of `bs` merged one after
/// the other.
pub proof fn lemma_room_fits_among(w: WorldState, bs: Seq<BranchModel>, n: nat)
    requires
        forall|name: Seq<char>| #[trigger] w.generation_of(name) + size_among(bs, n) <= usize::MAX,
    ensures
        fits_upto(w, bs, n),
    decreases bs, n,
{
    if 0 < n <= bs.len() {
        let before = merged_upto(w, bs, (n - 1) as nat);
        assert forall|name: Seq<char>| #[trigger]
            w.generation_of(name) + size_among(bs, (n - 1) as nat) <= usize::MAX by {
            assert(w.generation_of(name) + size_among(bs, n) <= usize::MAX);
        }
        lemma_room_fits_among(w, bs, (n - 1) as nat);
        assert forall|name: Seq<char>| #[trigger]
            before.generation_of(name) + size(bs[n - 1]) <= usize::MAX by {
            law_merge_growth_among(w, bs, (n - 1) as nat, name);
            assert(w.generation_of(name) + size_among(bs, n) <= usize::MAX);
        }
        lemma_room_fits(before, bs[n - 1]);
    }
}

} // verus!
