//! The code generator: each procedure's intermediate form becomes a
//! control-flow graph of basic blocks, which are analysed (liveness,
//! dominators, pinning) and then scheduled onto the EVM stack.

use vstd::prelude::*;
use std::collections::{HashMap, VecDeque};
use crate::analysis::{self, BlockLiveness, DefUse, Pinning, VarMap};
use crate::graph::{edges_in_range, idom, lists_view, predecessor_edges, walk, walk_children, EdgeArray, EntryNode, Graph, Idx, NodeOrder, NodeVisit, Predecessors, Successors, Tree};
use crate::ir;
use crate::isa::Instr;
use crate::stack::Stack;
use crate::{Id, IdGen, U256};

verus! {

broadcast use vstd::std_specs::hash::group_hash_axioms;

/// Why code could not be generated.
#[derive(Clone, Copy, PartialEq, Eq, Structural, Debug)]
pub enum CompileError {
    /// The program holds a local function, which the code generator does
    /// not place.
    LocalFunction,
    /// No identifier is left for a new label.
    TooManyIds,
    /// A shape of program the code generator does not handle.
    Unsupported,
}

/// A fresh identifier, or an error once they run out.
fn fresh(ids: &mut IdGen) -> (r: Result<Id, CompileError>)
    ensures
        match r {
            Ok(id) => id.0 == old(ids).next() && final(ids).next() == old(ids).next() + 1,
            Err(e) => e == CompileError::TooManyIds && *final(ids) == *old(ids),
        },
        r is Ok <==> old(ids).next() < usize::MAX,
{
    if ids.0 < usize::MAX {
        Ok(ids.generate())
    } else {
        Err(CompileError::TooManyIds)
    }
}

/// Where an instruction of a block stands: its input, one of its
/// bindings, or its continuation.
#[derive(Clone, Copy, Debug, PartialEq, Eq, Structural)]
pub enum InstrIdx {
    Input,
    Prior(usize),
    Cont,
}

/// How control leaves a basic block.
#[derive(PartialEq, Eq, Debug)]
pub enum Cont {
    /// Return to the caller, with the value, if any.
    Ret(Option<Id>),
    /// Stop the program, with the value, if any.
    Stop(Option<Id>),
    /// Jump to a label, passing values.
    Jump(Id, Vec<Id>),
    /// Jump to `then` if `cond` is nonzero, else fall through.
    JumpIf { cond: Id, then: Id },
}

/// A basic block: a range of a segment of bindings, its optional label and
/// input, and its continuation.
#[derive(PartialEq, Eq, Debug)]
pub struct BasicBlock {
    pub label: Option<Id>,
    pub input: Option<Id>,
    pub segment: usize,
    pub start: usize,
    pub end: usize,
    pub cont: Cont,
}

/// Identifies a block of a procedure's graph by its index.
#[derive(Clone, Copy, Debug, PartialEq, Eq, Hash, Structural)]
pub struct CfgId(pub usize);

/// The variables an expression reads.
pub open spec fn expr_uses(e: ir::Expr) -> Seq<Id> {
    match e {
        ir::Expr::Var(x) => seq![x],
        ir::Expr::Op(_, args) => args@,
        ir::Expr::Apply(_, args) => args@,
        ir::Expr::IfThenElse(c, _, _) => seq![c],
        _ => Seq::empty(),
    }
}

/// The variables a continuation reads.
pub open spec fn cont_uses(c: Cont) -> Seq<Id> {
    match c {
        Cont::Stop(Some(x)) | Cont::Ret(Some(x)) => seq![x],
        Cont::Jump(_, args) => args@,
        Cont::JumpIf { cond, .. } => seq![cond],
        _ => Seq::empty(),
    }
}

/// Uses of `xs`, all at place `at`.
pub open spec fn uses_at(at: InstrIdx, xs: Seq<Id>) -> Seq<(InstrIdx, (usize, DefUse))> {
    xs.map_values(|x: Id| (at, (x.0, DefUse::Use)))
}

/// What binding `i` defines, then what it reads.
pub open spec fn prior_instrs(p: (Option<Id>, ir::Expr), i: int) -> Seq<(InstrIdx, (usize, DefUse))> {
    let def = match p.0 {
        Some(x) => seq![(InstrIdx::Prior(i as usize), (x.0, DefUse::Def))],
        None => Seq::empty(),
    };
    def + uses_at(InstrIdx::Prior(i as usize), expr_uses(p.1))
}

/// The instructions of the first `n` bindings.
pub open spec fn priors_instrs(priors: Seq<(Option<Id>, ir::Expr)>, n: int) -> Seq<(InstrIdx, (usize, DefUse))>
    decreases n,
{
    if n <= 0 {
        Seq::empty()
    } else {
        priors_instrs(priors, n - 1) + prior_instrs(priors[n - 1], n - 1)
    }
}

/// Places and variables listed side by side, as `want` lists them paired.
pub open spec fn zipped(idxs: Seq<InstrIdx>, ins: Seq<(usize, DefUse)>, want: Seq<(InstrIdx, (usize, DefUse))>) -> bool {
    &&& idxs.len() == want.len()
    &&& ins.len() == want.len()
    &&& forall|k: int| #![trigger idxs[k]] 0 <= k < want.len() ==> idxs[k] == want[k].0
    &&& forall|k: int| #![trigger ins[k]] 0 <= k < want.len() ==> ins[k] == want[k].1
}

/// The variables a block defines and reads, in order, each with its place:
/// the input, then each binding, then the continuation.
pub open spec fn block_instrs(bb: BasicBlock, priors: Seq<(Option<Id>, ir::Expr)>) -> Seq<(InstrIdx, (usize, DefUse))> {
    let input = match bb.input {
        Some(x) => seq![(InstrIdx::Input, (x.0, DefUse::Def))],
        None => Seq::empty(),
    };
    input + priors_instrs(priors, priors.len() as int) + uses_at(InstrIdx::Cont, cont_uses(bb.cont))
}

/// A procedure as a control-flow graph. Blocks are in postorder: each
/// block's successors come before it, and the entry is the last block.
pub struct ProcCfg {
    blocks: Vec<BasicBlock>,
    segments: Vec<Vec<(Option<Id>, ir::Expr)>>,
    labeled_blocks: HashMap<usize, usize>,
    succs: Vec<Vec<usize>>,
    preds: EdgeArray,
}

impl ProcCfg {
    pub closed spec fn wf(&self) -> bool {
        &&& self.blocks@.len() > 0
        &&& self.succs@.len() == self.blocks@.len()
        &&& self.preds@.len() == self.blocks@.len()
        &&& edges_in_range(lists_view(self.succs@))
        &&& edges_in_range(self.preds@)
        &&& forall|b: int, j: int| 0 <= b < self.succs@.len() && 0 <= j < self.succs@[b]@.len()
            ==> #[trigger] self.succs@[b]@[j] < b
        &&& forall|w: int| 0 <= w < self.blocks@.len() ==> #[trigger] self.preds@[w]
            == crate::graph::predecessors(lists_view(self.succs@), w as usize)
        &&& forall|b: int| 0 <= b < self.blocks@.len() ==> {
            let bb = #[trigger] self.blocks@[b];
            &&& bb.segment < self.segments@.len()
            &&& bb.start <= bb.end <= self.segments@[bb.segment as int]@.len()
        }
    }

    pub closed spec fn block_count(&self) -> nat {
        self.blocks@.len()
    }

    /// The blocks, in postorder.
    pub closed spec fn blocks_view(&self) -> Seq<BasicBlock> {
        self.blocks@
    }

    /// The successor lists of the blocks.
    pub closed spec fn succ_lists(&self) -> Seq<Seq<usize>> {
        lists_view(self.succs@)
    }

    /// Each block's predecessors, as the successor lists give them.
    pub open spec fn pred_lists(&self) -> Seq<Seq<usize>> {
        Seq::new(self.block_count(), |w: int| crate::graph::predecessors(self.succ_lists(), w as usize))
    }

    /// The bindings of block `b`: its range of its segment.
    pub closed spec fn block_priors(&self, b: int) -> Seq<(Option<Id>, ir::Expr)> {
        let bb = self.blocks@[b];
        self.segments@[bb.segment as int]@.subrange(bb.start as int, bb.end as int)
    }

    pub fn len(&self) -> (n: usize)
        ensures
            n == self.block_count(),
    {
        self.blocks.len()
    }

    /// The block with the given index.
    pub fn block(&self, block_id: CfgId) -> (r: &BasicBlock)
        requires
            block_id.0 < self.block_count(),
        ensures
            *r == self.blocks_view()[block_id.0 as int],
    {
        &self.blocks[block_id.0]
    }

    /// The label of a block, if it has one.
    pub fn label(&self, block_id: CfgId) -> (r: Option<Id>)
        requires
            block_id.0 < self.block_count(),
        ensures
            r == self.blocks_view()[block_id.0 as int].label,
    {
        self.blocks[block_id.0].label
    }

    /// The block that follows in code order: the one before in postorder.
    pub fn fallthrough(&self, block_id: CfgId) -> (r: Option<CfgId>)
        ensures
            match r {
                Some(f) => block_id.0 > 0 && f.0 == block_id.0 - 1,
                None => block_id.0 == 0,
            },
    {
        if block_id.0 > 0 {
            Some(CfgId(block_id.0 - 1))
        } else {
            None
        }
    }

    /// The entry block: the last in postorder.
    pub fn entry(&self) -> (r: CfgId)
        requires
            self.wf(),
        ensures
            r.0 == self.block_count() - 1,
    {
        CfgId(self.blocks.len() - 1)
    }

    /// The successors of a block.
    pub fn successors(&self, block_id: CfgId) -> (r: &[usize])
        requires
            self.wf(),
            block_id.0 < self.block_count(),
        ensures
            r@ == self.succ_lists()[block_id.0 as int],
            forall|j: int| 0 <= j < r@.len() ==> r@[j] < block_id.0,
    {
        self.succs[block_id.0].as_slice()
    }

    /// The predecessors of a block.
    pub fn predecessors(&self, block_id: CfgId) -> (r: &[usize])
        requires
            self.wf(),
            block_id.0 < self.block_count(),
        ensures
            r@ == crate::graph::predecessors(self.succ_lists(), block_id.0),
    {
        self.preds.edges_from(block_id.0)
    }

    /// The bindings of a block.
    pub fn priors(&self, block_id: CfgId) -> (r: &[(Option<Id>, ir::Expr)])
        requires
            self.wf(),
            block_id.0 < self.block_count(),
        ensures
            r@ == self.block_priors(block_id.0 as int),
    {
        let bb = &self.blocks[block_id.0];
        let seg = &self.segments[bb.segment];
        vstd::slice::slice_subrange(seg.as_slice(), bb.start, bb.end)
    }

    /// The variables each instruction of a block defines or uses, in order,
    /// with the place of each.
    pub fn instructions(&self, block_id: CfgId) -> (r: (Vec<InstrIdx>, Vec<(usize, DefUse)>))
        requires
            self.wf(),
            block_id.0 < self.block_count(),
        ensures
            zipped(r.0@, r.1@, block_instrs(self.blocks_view()[block_id.0 as int], self.block_priors(block_id.0 as int))),
    {
        let bb = &self.blocks[block_id.0];
        let mut idxs: Vec<InstrIdx> = Vec::new();
        let mut ins: Vec<(usize, DefUse)> = Vec::new();
        let ghost input = match bb.input {
            Some(x) => seq![(InstrIdx::Input, (x.0, DefUse::Def))],
            None => Seq::<(InstrIdx, (usize, DefUse))>::empty(),
        };
        match bb.input {
            Some(x) => {
                push_instr(&mut idxs, &mut ins, InstrIdx::Input, x.0, DefUse::Def, Ghost(Seq::empty()));
                assert(Seq::<(InstrIdx, (usize, DefUse))>::empty().push((InstrIdx::Input, (x.0, DefUse::Def))) =~= input);
            },
            None => {},
        }
        let priors = self.priors(block_id);
        proof {
            assert(input + priors_instrs(priors@, 0) =~= input);
        }
        let mut i: usize = 0;
        while i < priors.len()
            invariant
                i <= priors@.len(),
                zipped(idxs@, ins@, input + priors_instrs(priors@, i as int)),
            decreases priors@.len() - i,
        {
            let ghost before = input + priors_instrs(priors@, i as int);
            let ghost def = match priors@[i as int].0 {
                Some(x) => seq![(InstrIdx::Prior(i as usize), (x.0, DefUse::Def))],
                None => Seq::<(InstrIdx, (usize, DefUse))>::empty(),
            };
            let (d, expr) = &priors[i];
            match d {
                Some(x) => {
                    push_instr(&mut idxs, &mut ins, InstrIdx::Prior(i), x.0, DefUse::Def, Ghost(before));
                    assert(before.push((InstrIdx::Prior(i), (x.0, DefUse::Def))) =~= before + def);
                },
                None => {
                    assert(before =~= before + def);
                },
            }
            let ghost mid = before + def;
            match expr {
                ir::Expr::Var(x) => {
                    push_instr(&mut idxs, &mut ins, InstrIdx::Prior(i), x.0, DefUse::Use, Ghost(mid));
                    assert(mid.push((InstrIdx::Prior(i), (x.0, DefUse::Use))) =~= mid + uses_at(InstrIdx::Prior(i), expr_uses(*expr)));
                },
                ir::Expr::Op(_, args) => push_uses(&mut idxs, &mut ins, InstrIdx::Prior(i), args.as_slice(), Ghost(mid)),
                ir::Expr::Apply(_, args) => push_uses(&mut idxs, &mut ins, InstrIdx::Prior(i), args.as_slice(), Ghost(mid)),
                ir::Expr::IfThenElse(c, _, _) => {
                    push_instr(&mut idxs, &mut ins, InstrIdx::Prior(i), c.0, DefUse::Use, Ghost(mid));
                    assert(mid.push((InstrIdx::Prior(i), (c.0, DefUse::Use))) =~= mid + uses_at(InstrIdx::Prior(i), expr_uses(*expr)));
                },
                _ => {
                    assert(mid =~= mid + uses_at(InstrIdx::Prior(i), expr_uses(*expr)));
                },
            }
            proof {
                assert(before + prior_instrs(priors@[i as int], i as int) =~= mid + uses_at(InstrIdx::Prior(i), expr_uses(*expr)));
                assert(input + priors_instrs(priors@, i + 1) =~= before + prior_instrs(priors@[i as int], i as int));
                assert(zipped(idxs@, ins@, mid + uses_at(InstrIdx::Prior(i), expr_uses(*expr))));
            }
            i = i + 1;
        }
        let ghost body = input + priors_instrs(priors@, priors@.len() as int);
        match &bb.cont {
            Cont::Stop(Some(x)) | Cont::Ret(Some(x)) => {
                push_instr(&mut idxs, &mut ins, InstrIdx::Cont, x.0, DefUse::Use, Ghost(body));
                assert(body.push((InstrIdx::Cont, (x.0, DefUse::Use))) =~= body + uses_at(InstrIdx::Cont, cont_uses(bb.cont)));
            },
            Cont::Jump(_, args) => push_uses(&mut idxs, &mut ins, InstrIdx::Cont, args.as_slice(), Ghost(body)),
            Cont::JumpIf { cond, .. } => {
                push_instr(&mut idxs, &mut ins, InstrIdx::Cont, cond.0, DefUse::Use, Ghost(body));
                assert(body.push((InstrIdx::Cont, (cond.0, DefUse::Use))) =~= body + uses_at(InstrIdx::Cont, cont_uses(bb.cont)));
            },
            _ => {
                assert(body =~= body + uses_at(InstrIdx::Cont, cont_uses(bb.cont)));
            },
        }
        proof {
            assert(zipped(idxs@, ins@, body + uses_at(InstrIdx::Cont, cont_uses(bb.cont))));
            assert(block_instrs(self.blocks_view()[block_id.0 as int], self.block_priors(block_id.0 as int))
                =~= body + uses_at(InstrIdx::Cont, cont_uses(bb.cont)));
        }
        (idxs, ins)
    }
}

fn push_instr(
    idxs: &mut Vec<InstrIdx>,
    ins: &mut Vec<(usize, DefUse)>,
    at: InstrIdx,
    var: usize,
    du: DefUse,
    Ghost(want): Ghost<Seq<(InstrIdx, (usize, DefUse))>>,
)
    requires
        zipped(old(idxs)@, old(ins)@, want),
    ensures
        zipped(final(idxs)@, final(ins)@, want.push((at, (var, du)))),
{
    let ghost i0 = idxs@;
    let ghost n0 = ins@;
    idxs.push(at);
    ins.push((var, du));
    proof {
        lemma_zipped_push(i0, n0, want, at, (var, du));
    }
}

proof fn lemma_zipped_push(
    i0: Seq<InstrIdx>,
    n0: Seq<(usize, DefUse)>,
    want: Seq<(InstrIdx, (usize, DefUse))>,
    at: InstrIdx,
    p: (usize, DefUse),
)
    requires
        zipped(i0, n0, want),
    ensures
        zipped(i0.push(at), n0.push(p), want.push((at, p))),
{
    let i1 = i0.push(at);
    let n1 = n0.push(p);
    let w1 = want.push((at, p));
    assert forall|k: int| 0 <= k < w1.len() implies #[trigger] i1[k] == w1[k].0 && n1[k] == w1[k].1 by {
        if k < want.len() {
            assert(i1[k] == i0[k]);
            assert(n1[k] == n0[k]);
            assert(w1[k] == want[k]);
            assert(i0[k] == want[k].0);
            assert(n0[k] == want[k].1);
        } else {
            assert(k == want.len());
            assert(i1[k] == at);
            assert(n1[k] == p);
            assert(w1[k] == (at, p));
        }
    }
    assert forall|k: int| 0 <= k < w1.len() implies #[trigger] n1[k] == w1[k].1 by {
        assert(i1[k] == w1[k].0);
    }
}

fn push_uses(idxs: &mut Vec<InstrIdx>, ins: &mut Vec<(usize, DefUse)>, at: InstrIdx, args: &[Id], Ghost(want): Ghost<Seq<(InstrIdx, (usize, DefUse))>>)
    requires
        zipped(old(idxs)@, old(ins)@, want),
    ensures
        zipped(final(idxs)@, final(ins)@, want + uses_at(at, args@)),
{
    let mut j: usize = 0;
    while j < args.len()
        invariant
            j <= args@.len(),
            zipped(idxs@, ins@, want + uses_at(at, args@.take(j as int))),
        decreases args@.len() - j,
    {
        push_instr(idxs, ins, at, args[j].0, DefUse::Use, Ghost(want + uses_at(at, args@.take(j as int))));
        proof {
            assert(want + uses_at(at, args@.take(j + 1)) =~= (want + uses_at(at, args@.take(j as int))).push((at, (args@[j as int].0, DefUse::Use))));
        }
        j = j + 1;
    }
    proof {
        assert(args@.take(args@.len() as int) =~= args@);
    }
}

/// A block being carved out of a segment: the bindings from `start` on,
/// then `tail`; control continues at `cont_label`, or leaves the
/// procedure.
struct Candidate {
    label: Option<Id>,
    input: Option<Id>,
    segment: usize,
    start: usize,
    tail: ir::TailExpr,
    cont_label: Option<Id>,
}

enum QueueItem {
    Finished(BasicBlock),
    Discovered(BasicBlock),
    Unvisited(Candidate),
}

/// In the body of the entry procedure, a call in tail position returns
/// its value to this procedure, which then stops.
fn normalize_tail(block: ir::Block, stop: Option<usize>, ids: &mut IdGen)
    -> (r: Result<(Vec<(Option<Id>, ir::Expr)>, ir::TailExpr), CompileError>)
    ensures
        match (stop, block.tail) {
            (Some(rets), ir::TailExpr::Apply(target, args)) => if rets > 1 {
                r == Err::<(Vec<(Option<Id>, ir::Expr)>, ir::TailExpr), CompileError>(CompileError::Unsupported)
                    && *final(ids) == *old(ids)
            } else if rets == 0 {
                &&& r matches Ok((p, t)) && p@ == block.priors@.push((None, ir::Expr::Apply(target, args)))
                    && t == ir::TailExpr::Unit
                &&& *final(ids) == *old(ids)
            } else if old(ids).next() < usize::MAX {
                &&& r matches Ok((p, t))
                    && p@ == block.priors@.push((Some(Id(old(ids).next() as usize)), ir::Expr::Apply(target, args)))
                    && t == ir::TailExpr::Var(Id(old(ids).next() as usize))
                &&& final(ids).next() == old(ids).next() + 1
            } else {
                r == Err::<(Vec<(Option<Id>, ir::Expr)>, ir::TailExpr), CompileError>(CompileError::TooManyIds)
                    && *final(ids) == *old(ids)
            },
            _ => r matches Ok((p, t)) && p@ == block.priors@ && t == block.tail && *final(ids) == *old(ids),
        },
{
    let ir::Block { mut priors, tail } = block;
    match (stop, tail) {
        (Some(rets), ir::TailExpr::Apply(target, args)) => {
            if rets > 1 {
                return Err(CompileError::Unsupported);
            }
            if rets == 0 {
                priors.push((None, ir::Expr::Apply(target, args)));
                Ok((priors, ir::TailExpr::Unit))
            } else {
                let res = match fresh(ids) {
                Ok(id) => id,
                Err(e) => return Err(e),
            };
                priors.push((Some(res), ir::Expr::Apply(target, args)));
                Ok((priors, ir::TailExpr::Var(res)))
            }
        },
        (_, tail) => Ok((priors, tail)),
    }
}

/// Splits a candidate at its first `if` binding: the candidate ends there
/// with the `if` as its tail, and a new candidate, labelled as the join
/// point, takes the rest.
fn split_at_control(
    cand: &mut Candidate,
    segments: &mut Vec<Vec<(Option<Id>, ir::Expr)>>,
    ids: &mut IdGen,
) -> (r: Result<Option<(usize, Candidate)>, CompileError>)
    requires
        old(cand).segment < old(segments)@.len(),
        old(cand).start <= old(segments)@[old(cand).segment as int]@.len(),
    ensures
        final(segments)@.len() == old(segments)@.len(),
        forall|k: int| 0 <= k < old(segments)@.len() ==> #[trigger] final(segments)@[k]@.len() == old(segments)@[k]@.len(),
        final(cand).segment == old(cand).segment,
        final(cand).start == old(cand).start,
        match r {
            Ok(Some((split, join))) => old(cand).start <= split < old(segments)@[old(cand).segment as int]@.len()
                && join.segment == old(cand).segment && join.start == split + 1,
            _ => true,
        },
        ({
            let seg = old(cand).segment as int;
            let ps = old(segments)@[seg]@;
            let found = exists|i: int| old(cand).start <= i < ps.len() && #[trigger] ps[i].1 is IfThenElse;
            &&& forall|k: int| 0 <= k < old(segments)@.len() && k != seg ==> #[trigger] final(segments)@[k]@
                == old(segments)@[k]@
            &&& !found ==> r == Ok::<Option<(usize, Candidate)>, CompileError>(None) && *final(cand) == *old(cand)
                && final(segments)@[seg]@ == ps && *final(ids) == *old(ids)
            &&& found && old(ids).next() == usize::MAX ==> r == Err::<Option<(usize, Candidate)>, CompileError>(
                CompileError::TooManyIds)
            &&& r is Err ==> r == Err::<Option<(usize, Candidate)>, CompileError>(CompileError::TooManyIds)
            &&& found && old(ids).next() < usize::MAX ==> (r matches Ok(Some((split, join))) && {
                let jl = Id(old(ids).next() as usize);
                &&& ps[split as int].1 is IfThenElse
                &&& forall|k: int| old(cand).start <= k < split ==> !(#[trigger] ps[k].1 is IfThenElse)
                &&& ps[split as int].1 matches ir::Expr::IfThenElse(c, t, f)
                    && final(cand).tail == ir::TailExpr::IfThenElse(c, t, f)
                &&& join.input == ps[split as int].0
                &&& join.label == Some(jl)
                &&& join.tail == old(cand).tail
                &&& join.cont_label == old(cand).cont_label
                &&& final(cand).cont_label == Some(jl)
                &&& final(cand).label == old(cand).label
                &&& final(cand).input == old(cand).input
                &&& forall|k: int| 0 <= k < ps.len() && k != split ==> #[trigger] final(segments)@[seg]@[k] == ps[k]
                &&& final(segments)@[seg]@[split as int].1 is Const
                &&& final(ids).next() == old(ids).next() + 1
            })
        }),
{
    let ghost ps = segments@[cand.segment as int]@;
    let ghost segs0 = segments@;
    let seg = cand.segment;
    let n = segments[seg].len();
    let mut i = cand.start;
    while i < n
        invariant
            cand.segment == seg,
            seg < segments@.len(),
            segments@ == segs0,
            ps == segments@[seg as int]@,
            n == ps.len(),
            cand.start <= i <= n,
            forall|k: int| cand.start <= k < i ==> !(#[trigger] ps[k].1 is IfThenElse),
        ensures
            cand.start <= i <= n,
            segments@ == segs0,
            forall|k: int| cand.start <= k < i ==> !(#[trigger] ps[k].1 is IfThenElse),
            i < n ==> ps[i as int].1 is IfThenElse,
        decreases n - i,
    {
        if let ir::Expr::IfThenElse(..) = &segments[seg][i].1 {
            break;
        }
        i = i + 1;
    }
    if i >= n {
        proof {
            assert(segments@ =~= segs0);
        }
        return Ok(None);
    }
    let split = i;
    proof {
        assert(ps[split as int].1 is IfThenElse);
    }
    let join_label = match fresh(ids) {
        Ok(l) => l,
        Err(e) => {
            return Err(e);
        },
    };
    let mut taken: (Option<Id>, ir::Expr) = (None, ir::Expr::Const(U256::from_u64(0)));
    std::mem::swap(&mut taken, &mut segments[seg][split]);
    let (split_output, expr) = taken;
    let (cond, then_block, else_block) = match expr {
        ir::Expr::IfThenElse(c, t, f) => (c, t, f),
        _ => return Err(CompileError::Unsupported),
    };
    let cont_label = cand.cont_label;
    cand.cont_label = Some(join_label);
    let mut tail = ir::TailExpr::IfThenElse(cond, then_block, else_block);
    std::mem::swap(&mut tail, &mut cand.tail);
    Ok(Some((split, Candidate {
        label: Some(join_label),
        input: split_output,
        segment: seg,
        start: split + 1,
        tail,
        cont_label,
    })))
}

/// `x`, or `usize::MAX` if it is more.
pub open spec fn capped(x: nat) -> usize {
    if x > usize::MAX { usize::MAX } else { x as usize }
}

/// How many `if`s an expression holds, at any depth.
pub open spec fn ifs_expr(e: ir::Expr) -> nat
    decreases e, 0nat, 0int,
{
    match e {
        ir::Expr::IfThenElse(_, t, f) => 1 + ifs_block(*t) + ifs_block(*f),
        ir::Expr::Join(_, _, b) => ifs_block(*b),
        _ => 0,
    }
}

/// How many `if`s the first `n` bindings hold.
pub open spec fn ifs_priors(p: Seq<(Option<Id>, ir::Expr)>, n: int) -> nat
    decreases p, 1nat, n,
{
    if n <= 0 || n > p.len() {
        0
    } else {
        ifs_priors(p, n - 1) + ifs_expr(p[n - 1].1)
    }
}

/// How many `if`s a tail holds.
pub open spec fn ifs_tail(t: ir::TailExpr) -> nat
    decreases t, 0nat, 0int,
{
    match t {
        ir::TailExpr::IfThenElse(_, a, b) => 1 + ifs_block(*a) + ifs_block(*b),
        _ => 0,
    }
}

/// How many `if`s a block holds, at any depth.
pub open spec fn ifs_block(b: ir::Block) -> nat
    decreases b, 2nat, 0int,
{
    ifs_priors(b.priors@, b.priors@.len() as int) + ifs_tail(b.tail)
}

/// How many `if`s a block holds, at any depth (saturating).
fn count_ifs(block: &ir::Block) -> (r: usize)
    ensures
        r == capped(ifs_block(*block)),
    decreases *block, 0nat,
{
    let mut count: usize = 0;
    let mut i: usize = 0;
    while i < block.priors.len()
        invariant
            i <= block.priors@.len(),
            count == capped(ifs_priors(block.priors@, i as int)),
        decreases block.priors@.len() - i,
    {
        match &block.priors[i].1 {
            ir::Expr::IfThenElse(_, t, f) => {
                count = count.saturating_add(1);
                count = count.saturating_add(count_ifs(t));
                count = count.saturating_add(count_ifs(f));
            },
            ir::Expr::Join(_, _, b) => {
                count = count.saturating_add(count_ifs(b));
            },
            _ => {},
        }
        proof {
            assert(ifs_priors(block.priors@, i + 1) == ifs_priors(block.priors@, i as int) + ifs_expr(block.priors@[i as int].1));
        }
        i = i + 1;
    }
    match &block.tail {
        ir::TailExpr::IfThenElse(_, t, f) => {
            count = count.saturating_add(1);
            count = count.saturating_add(count_ifs(t));
            count = count.saturating_add(count_ifs(f));
        },
        _ => {},
    }
    count
}

fn new_candidate(
    block: ir::Block,
    stop: Option<usize>,
    ids: &mut IdGen,
    segments: &mut Vec<Vec<(Option<Id>, ir::Expr)>>,
) -> (r: Result<Candidate, CompileError>)
    ensures
        final(segments)@.len() == old(segments)@.len() + 1,
        forall|k: int| 0 <= k < old(segments)@.len() ==> #[trigger] final(segments)@[k]@.len() == old(segments)@[k]@.len(),
        match r {
            Ok(c) => c.segment == old(segments)@.len() && c.start == 0 && c.label is None && c.input is None
                && c.cont_label is None,
            Err(_) => true,
        },
        simple_body(block, stop) && old(ids).next() < usize::MAX ==> (r matches Ok(c)
            && straight_candidate(c, final(segments)@, stop)),
        forall|k: int| 0 <= k < old(segments)@.len() ==> #[trigger] final(segments)@[k] == old(segments)@[k],
        old(ids).next() <= final(ids).next() <= old(ids).next() + 1,
        !(block.tail is Apply && stop is Some && stop->0 > 1) && old(ids).next() < usize::MAX ==> r is Ok,
        r matches Ok(c) ==> ifs_from(final(segments)@[c.segment as int]@, 0) + ifs_tail(c.tail) == ifs_block(block),
        r matches Ok(c) ==> forall|below: nat| carvable_priors(block.priors@, stop, below, block.priors@.len() as int)
            ==> #[trigger] carvable_from(final(segments)@[c.segment as int]@, 0, stop, below),
        r matches Ok(c) ==> (c.tail == block.tail || (stop is Some && block.tail is Apply && (c.tail is Unit || c.tail is Var)))
            && (stop is Some ==> !(c.tail is Apply)),
        !(block.tail is Apply) ==> (r matches Ok(c) ==> final(segments)@[c.segment as int]@ == block.priors@),
        r matches Ok(c) ==> 1 + nb_from(final(segments)@[c.segment as int]@, 0) + nb_tail(c.tail) == nb_block(block),
{
    let ghost p0 = block.priors@;
    let ghost t0 = block.tail;
    let (priors, tail) = match normalize_tail(block, stop, ids) {
        Ok(x) => x,
        Err(e) => {
            segments.push(Vec::new());
            return Err(e);
        },
    };
    proof {
        lemma_ifs_from_whole(p0, p0.len() as int);
        assert(ifs_from(p0, p0.len() as int) == 0);
        lemma_nb_from_whole(p0, p0.len() as int);
        assert(nb_from(p0, p0.len() as int) == 0);
        if priors@.len() > p0.len() {
            assert(nb_expr(priors@.last().1) == 0);
            lemma_nb_from_push(p0, priors@.last(), 0);
        }
        if priors@.len() > p0.len() {
            assert(priors@ == p0.push(priors@.last()));
            assert(ifs_expr(priors@.last().1) == 0);
            lemma_ifs_from_push(p0, priors@.last(), 0);
        }
        assert forall|below: nat| carvable_priors(p0, stop, below, p0.len() as int)
            implies #[trigger] carvable_from(priors@, 0, stop, below) by {
            lemma_carvable_priors(p0, stop, below, p0.len() as int);
            assert forall|k: int| 0 <= k < priors@.len() implies #[trigger] carvable_expr(priors@[k].1, stop, below) by {
                if k < p0.len() {
                    assert(priors@[k] == p0[k]);
                }
            }
        }
    }
    let segment = segments.len();
    segments.push(priors);
    Ok(Candidate { label: None, input: None, segment, start: 0, tail, cont_label: None })
}

/// Whether the code generator can carve a block into basic blocks: no local
/// function is called in tail position, and a call in tail position returns
/// at most one value from the entry procedure and, elsewhere, calls a
/// procedure numbered below `below` and ends the procedure rather than an
/// `if` whose value flows on (`joined`).
pub open spec fn carvable_block(b: ir::Block, stop: Option<usize>, joined: bool, below: nat) -> bool
    decreases b, 2nat, 0int,
{
    carvable_priors(b.priors@, stop, below, b.priors@.len() as int) && carvable_tail(b.tail, stop, joined, below)
}

/// Whether the first `n` bindings can be carved.
pub open spec fn carvable_priors(p: Seq<(Option<Id>, ir::Expr)>, stop: Option<usize>, below: nat, n: int) -> bool
    decreases p, 1nat, n,
{
    if n <= 0 || n > p.len() {
        true
    } else {
        carvable_priors(p, stop, below, n - 1) && carvable_expr(p[n - 1].1, stop, below)
    }
}

/// Whether a binding can be carved: the branches of an `if` flow on.
pub open spec fn carvable_expr(e: ir::Expr, stop: Option<usize>, below: nat) -> bool
    decreases e, 0nat, 0int,
{
    match e {
        ir::Expr::IfThenElse(_, t, f) => carvable_block(*t, stop, true, below) && carvable_block(*f, stop, true, below),
        _ => true,
    }
}

/// Whether a tail can be carved.
pub open spec fn carvable_tail(t: ir::TailExpr, stop: Option<usize>, joined: bool, below: nat) -> bool
    decreases t, 0nat, 0int,
{
    match t {
        ir::TailExpr::Jump(..) => false,
        ir::TailExpr::Apply(target, _) => match stop {
            Some(rets) => rets <= 1,
            None => !joined && target.0 < below,
        },
        ir::TailExpr::IfThenElse(_, a, b) => carvable_block(*a, stop, joined, below) && carvable_block(*b, stop, joined, below),
        _ => true,
    }
}

/// How many `if`s the bindings from `start` on hold.
pub open spec fn ifs_from(p: Seq<(Option<Id>, ir::Expr)>, start: int) -> nat
    decreases p.len() - start,
{
    if start < 0 || start >= p.len() {
        0
    } else {
        ifs_expr(p[start].1) + ifs_from(p, start + 1)
    }
}

/// Whether the bindings from `start` on can be carved.
pub open spec fn carvable_from(p: Seq<(Option<Id>, ir::Expr)>, start: int, stop: Option<usize>, below: nat) -> bool {
    forall|k: int| start <= k < p.len() ==> #[trigger] carvable_expr(p[k].1, stop, below)
}

proof fn lemma_carvable_priors(p: Seq<(Option<Id>, ir::Expr)>, stop: Option<usize>, below: nat, n: int)
    requires
        0 <= n <= p.len(),
    ensures
        carvable_priors(p, stop, below, n) <==> forall|k: int| 0 <= k < n ==> #[trigger] carvable_expr(p[k].1, stop, below),
    decreases n,
{
    if n > 0 {
        lemma_carvable_priors(p, stop, below, n - 1);
        assert(carvable_priors(p, stop, below, n) == (carvable_priors(p, stop, below, n - 1)
            && carvable_expr(p[n - 1].1, stop, below)));
        if forall|k: int| 0 <= k < n ==> #[trigger] carvable_expr(p[k].1, stop, below) {
            assert forall|k: int| 0 <= k < n - 1 implies #[trigger] carvable_expr(p[k].1, stop, below) by {
                assert(carvable_expr(p[k].1, stop, below));
            }
            assert(carvable_expr(p[n - 1].1, stop, below));
        }
    }
}

/// The `if`s from `start` on are those of the first `n` bindings taken
/// from the whole.
proof fn lemma_ifs_from_whole(p: Seq<(Option<Id>, ir::Expr)>, n: int)
    requires
        0 <= n <= p.len(),
    ensures
        ifs_from(p, 0) == ifs_priors(p, n) + ifs_from(p, n),
    decreases n,
{
    if n > 0 {
        lemma_ifs_from_whole(p, n - 1);
        assert(ifs_from(p, n - 1) == ifs_expr(p[n - 1].1) + ifs_from(p, n));
    }
}

/// Bindings that agree from `start` on hold as many `if`s from there.
proof fn lemma_ifs_from_agree(p: Seq<(Option<Id>, ir::Expr)>, q: Seq<(Option<Id>, ir::Expr)>, start: int)
    requires
        p.len() == q.len(),
        forall|k: int| start <= k < p.len() ==> #[trigger] p[k] == q[k],
    ensures
        ifs_from(p, start) == ifs_from(q, start),
    decreases p.len() - start,
{
    if 0 <= start < p.len() {
        lemma_ifs_from_agree(p, q, start + 1);
    } else if start < 0 {
    }
}

/// The `if`s from `start` on count at least those of binding `split` and
/// of the bindings after it.
proof fn lemma_ifs_from_split(p: Seq<(Option<Id>, ir::Expr)>, start: int, split: int)
    requires
        0 <= start <= split < p.len(),
    ensures
        ifs_from(p, start) >= ifs_expr(p[split].1) + ifs_from(p, split + 1),
    decreases split - start,
{
    if start < split {
        lemma_ifs_from_split(p, start + 1, split);
    }
}

/// Pushing a binding without an `if` adds none.
proof fn lemma_ifs_from_push(p: Seq<(Option<Id>, ir::Expr)>, x: (Option<Id>, ir::Expr), start: int)
    requires
        0 <= start <= p.len(),
        ifs_expr(x.1) == 0,
    ensures
        ifs_from(p.push(x), start) == ifs_from(p, start),
    decreases p.len() - start,
{
    if start < p.len() {
        lemma_ifs_from_push(p, x, start + 1);
        assert(p.push(x)[start] == p[start]);
    } else {
        assert(ifs_from(p.push(x), start + 1) == 0);
    }
}

/// What an item still owes in steps (or, with `ids_only`, in fresh
/// identifiers): four for each `if` left in a candidate, one for carving it,
/// one for a discovered block.
spec fn item_weight(item: QueueItem, segs: Seq<Vec<(Option<Id>, ir::Expr)>>, ids_only: bool) -> nat {
    match item {
        QueueItem::Finished(_) => 0,
        QueueItem::Discovered(_) => if ids_only { 0 } else { 1 },
        QueueItem::Unvisited(c) => 4 * (ifs_from(segs[c.segment as int]@, c.start as int) + ifs_tail(c.tail))
            + if ids_only { 0nat } else { 1nat },
    }
}

spec fn queue_weight(q: Seq<QueueItem>, segs: Seq<Vec<(Option<Id>, ir::Expr)>>, ids_only: bool) -> nat
    decreases q.len(),
{
    if q.len() == 0 {
        0
    } else {
        queue_weight(q.drop_last(), segs, ids_only) + item_weight(q.last(), segs, ids_only)
    }
}

proof fn lemma_queue_weight_concat(a: Seq<QueueItem>, b: Seq<QueueItem>, segs: Seq<Vec<(Option<Id>, ir::Expr)>>, f: bool)
    ensures
        queue_weight(a + b, segs, f) == queue_weight(a, segs, f) + queue_weight(b, segs, f),
    decreases b.len(),
{
    if b.len() == 0 {
        assert(a + b =~= a);
    } else {
        lemma_queue_weight_concat(a, b.drop_last(), segs, f);
        assert((a + b).drop_last() =~= a + b.drop_last());
        assert((a + b).last() == b.last());
    }
}

/// The segment a candidate reads, if the item is one.
spec fn seg_of(item: QueueItem) -> Option<usize> {
    match item {
        QueueItem::Unvisited(c) => Some(c.segment),
        _ => None,
    }
}

proof fn lemma_queue_weight_frame(q: Seq<QueueItem>, s1: Seq<Vec<(Option<Id>, ir::Expr)>>, s2: Seq<Vec<(Option<Id>, ir::Expr)>>, f: bool)
    requires
        forall|i: int| 0 <= i < q.len() ==> (#[trigger] seg_of(q[i]) matches Some(k) ==> s1[k as int]@ == s2[k as int]@),
    ensures
        queue_weight(q, s1, f) == queue_weight(q, s2, f),
    decreases q.len(),
{
    if q.len() > 0 {
        assert forall|i: int| 0 <= i < q.drop_last().len() implies (#[trigger] seg_of(q.drop_last()[i]) matches Some(k)
            ==> s1[k as int]@ == s2[k as int]@) by {
            assert(q.drop_last()[i] == q[i]);
        }
        lemma_queue_weight_frame(q.drop_last(), s1, s2, f);
        assert(seg_of(q[q.len() - 1]) == seg_of(q.last()));
    }
}

/// How many blocks a binding adds to the graph: an `if` ends its block and
/// adds the blocks of its branches and the block that joins them.
pub open spec fn nb_expr(e: ir::Expr) -> nat
    decreases e, 0nat, 0int,
{
    match e {
        ir::Expr::IfThenElse(_, t, f) => 1 + nb_block(*t) + nb_block(*f),
        _ => 0,
    }
}

/// How many blocks the first `n` bindings add.
pub open spec fn nb_priors(p: Seq<(Option<Id>, ir::Expr)>, n: int) -> nat
    decreases p, 1nat, n,
{
    if n <= 0 || n > p.len() {
        0
    } else {
        nb_priors(p, n - 1) + nb_expr(p[n - 1].1)
    }
}

/// How many blocks a tail adds: an `if` adds the blocks of its branches.
pub open spec fn nb_tail(t: ir::TailExpr) -> nat
    decreases t, 0nat, 0int,
{
    match t {
        ir::TailExpr::IfThenElse(_, a, b) => nb_block(*a) + nb_block(*b),
        _ => 0,
    }
}

/// How many blocks the graph of a body has.
pub open spec fn nb_block(b: ir::Block) -> nat
    decreases b, 2nat, 0int,
{
    1 + nb_priors(b.priors@, b.priors@.len() as int) + nb_tail(b.tail)
}

/// How many blocks the bindings from `start` on add.
pub open spec fn nb_from(p: Seq<(Option<Id>, ir::Expr)>, start: int) -> nat
    decreases p.len() - start,
{
    if start < 0 || start >= p.len() {
        0
    } else {
        nb_expr(p[start].1) + nb_from(p, start + 1)
    }
}

proof fn lemma_nb_from_whole(p: Seq<(Option<Id>, ir::Expr)>, n: int)
    requires
        0 <= n <= p.len(),
    ensures
        nb_from(p, 0) == nb_priors(p, n) + nb_from(p, n),
    decreases n,
{
    if n > 0 {
        lemma_nb_from_whole(p, n - 1);
        assert(nb_from(p, n - 1) == nb_expr(p[n - 1].1) + nb_from(p, n));
    }
}

proof fn lemma_nb_from_agree(p: Seq<(Option<Id>, ir::Expr)>, q: Seq<(Option<Id>, ir::Expr)>, start: int)
    requires
        p.len() == q.len(),
        forall|k: int| start <= k < p.len() ==> #[trigger] p[k] == q[k],
    ensures
        nb_from(p, start) == nb_from(q, start),
    decreases p.len() - start,
{
    if 0 <= start < p.len() {
        lemma_nb_from_agree(p, q, start + 1);
    }
}

/// Bindings without an `if` add no block.
proof fn lemma_nb_from_skip(p: Seq<(Option<Id>, ir::Expr)>, start: int, split: int)
    requires
        0 <= start <= split <= p.len(),
        forall|k: int| start <= k < split ==> !(#[trigger] p[k].1 is IfThenElse),
    ensures
        nb_from(p, start) == nb_from(p, split),
    decreases split - start,
{
    if start < split {
        lemma_nb_from_skip(p, start + 1, split);
    }
}

proof fn lemma_nb_from_push(p: Seq<(Option<Id>, ir::Expr)>, x: (Option<Id>, ir::Expr), start: int)
    requires
        0 <= start <= p.len(),
        nb_expr(x.1) == 0,
    ensures
        nb_from(p.push(x), start) == nb_from(p, start),
    decreases p.len() - start,
{
    if start < p.len() {
        lemma_nb_from_push(p, x, start + 1);
        assert(p.push(x)[start] == p[start]);
    } else {
        assert(nb_from(p.push(x), start + 1) == 0);
    }
}

/// How many blocks an item of the queue still makes.
#[verifier::opaque]
spec fn item_blocks(item: QueueItem, segs: Seq<Vec<(Option<Id>, ir::Expr)>>) -> nat {
    match item {
        QueueItem::Unvisited(c) => 1 + nb_from(segs[c.segment as int]@, c.start as int) + nb_tail(c.tail),
        _ => 1,
    }
}

#[verifier::opaque]
spec fn queue_blocks(q: Seq<QueueItem>, segs: Seq<Vec<(Option<Id>, ir::Expr)>>) -> nat
    decreases q.len(),
{
    if q.len() == 0 {
        0
    } else {
        queue_blocks(q.drop_last(), segs) + item_blocks(q.last(), segs)
    }
}

proof fn lemma_qb_concat(a: Seq<QueueItem>, b: Seq<QueueItem>, segs: Seq<Vec<(Option<Id>, ir::Expr)>>)
    ensures
        queue_blocks(a + b, segs) == queue_blocks(a, segs) + queue_blocks(b, segs),
    decreases b.len(),
{
    reveal(queue_blocks);
    reveal(item_blocks);
    if b.len() == 0 {
        assert(a + b =~= a);
    } else {
        lemma_qb_concat(a, b.drop_last(), segs);
        assert((a + b).drop_last() =~= a + b.drop_last());
        assert((a + b).last() == b.last());
    }
}

proof fn lemma_qb_single(x: QueueItem, segs: Seq<Vec<(Option<Id>, ir::Expr)>>)
    ensures
        queue_blocks(seq![x], segs) == item_blocks(x, segs),
{
    reveal(queue_blocks);
    reveal(item_blocks);
    let q = seq![x];
    assert(q.drop_last() =~= Seq::<QueueItem>::empty());
    assert(queue_blocks(q.drop_last(), segs) == 0);
    assert(q.last() == x);
}

proof fn lemma_qb_frame(q: Seq<QueueItem>, s1: Seq<Vec<(Option<Id>, ir::Expr)>>, s2: Seq<Vec<(Option<Id>, ir::Expr)>>)
    requires
        forall|i: int| 0 <= i < q.len() ==> (#[trigger] seg_of(q[i]) matches Some(k) ==> s1[k as int]@ == s2[k as int]@),
    ensures
        queue_blocks(q, s1) == queue_blocks(q, s2),
    decreases q.len(),
{
    reveal(queue_blocks);
    reveal(item_blocks);
    if q.len() > 0 {
        assert forall|i: int| 0 <= i < q.drop_last().len() implies (#[trigger] seg_of(q.drop_last()[i]) matches Some(k)
            ==> s1[k as int]@ == s2[k as int]@) by {
            assert(q.drop_last()[i] == q[i]);
        }
        lemma_qb_frame(q.drop_last(), s1, s2);
        assert(seg_of(q[q.len() - 1]) == seg_of(q.last()));
    }
}

/// When only the first item's segment changes, and segments are added
/// after the others, the rest of the queue makes as many blocks as before.
proof fn lemma_qb_rest(q: Seq<QueueItem>, s0: Seq<Vec<(Option<Id>, ir::Expr)>>, s1: Seq<Vec<(Option<Id>, ir::Expr)>>)
    requires
        q.len() >= 1,
        segs_apart(q, s0.len() as int),
        s1.len() >= s0.len(),
        forall|k: int| 0 <= k < s0.len() && Some(k as usize) != seg_of(q[0]) ==> #[trigger] s1[k]@ == s0[k]@,
    ensures
        queue_blocks(q.drop_first(), s1) == queue_blocks(q.drop_first(), s0),
{
    reveal(queue_blocks);
    reveal(item_blocks);
    let r = q.drop_first();
    assert forall|i: int| 0 <= i < r.len() implies (#[trigger] seg_of(r[i]) matches Some(k)
        ==> s1[k as int]@ == s0[k as int]@) by {
        assert(r[i] == q[i + 1]);
        if seg_of(q[i + 1]) is Some {
            assert(seg_of(q[0]) != seg_of(q[i + 1])) by {
                if seg_of(q[0]) is Some {
                    assert(seg_of(q[0]) != seg_of(q[i + 1]));
                }
            }
        }
    }
    lemma_qb_frame(r, s1, s0);
}

proof fn lemma_qb_end_item(sg0: Seq<Vec<(Option<Id>, ir::Expr)>>, cand0: Candidate)
    requires
        cand0.segment < sg0.len(),
        cand0.start <= sg0[cand0.segment as int]@.len(),
        forall|k: int| cand0.start <= k < sg0[cand0.segment as int]@.len()
            ==> !(#[trigger] sg0[cand0.segment as int]@[k].1 is IfThenElse),
        !(cand0.tail is IfThenElse),
    ensures
        item_blocks(QueueItem::Unvisited(cand0), sg0) == 1,
{
    reveal(queue_blocks);
    reveal(item_blocks);
    let ps = sg0[cand0.segment as int]@;
    lemma_nb_from_skip(ps, cand0.start as int, ps.len() as int);
}

proof fn lemma_qb_basics(bb: BasicBlock, segs: Seq<Vec<(Option<Id>, ir::Expr)>>)
    ensures
        queue_blocks(Seq::<QueueItem>::empty(), segs) == 0,
        item_blocks(QueueItem::Finished(bb), segs) == 1,
        item_blocks(QueueItem::Discovered(bb), segs) == 1,
{
    reveal(queue_blocks);
    reveal(item_blocks);
}

proof fn lemma_qb_empty(segs: Seq<Vec<(Option<Id>, ir::Expr)>>)
    ensures
        queue_blocks(Seq::<QueueItem>::empty(), segs) == 0,
{
    reveal(queue_blocks);
}

proof fn lemma_item_unvisited(c: Candidate, segs: Seq<Vec<(Option<Id>, ir::Expr)>>)
    ensures
        item_blocks(QueueItem::Unvisited(c), segs) == 1 + nb_from(segs[c.segment as int]@, c.start as int) + nb_tail(c.tail),
{
    reveal(item_blocks);
}

proof fn lemma_qb_first(q: Seq<QueueItem>, segs: Seq<Vec<(Option<Id>, ir::Expr)>>)
    requires
        q.len() >= 1,
    ensures
        queue_blocks(q, segs) == item_blocks(q[0], segs) + queue_blocks(q.drop_first(), segs),
{
    reveal(queue_blocks);
    reveal(item_blocks);
    assert(q =~= seq![q[0]] + q.drop_first());
    lemma_qb_concat(seq![q[0]], q.drop_first(), segs);
    lemma_qb_single(q[0], segs);
}

proof fn lemma_qb_three(a: QueueItem, b: QueueItem, c: QueueItem, segs: Seq<Vec<(Option<Id>, ir::Expr)>>)
    ensures
        queue_blocks(seq![a, b, c], segs) == item_blocks(a, segs) + item_blocks(b, segs) + item_blocks(c, segs),
{
    reveal(queue_blocks);
    reveal(item_blocks);
    assert(seq![a, b, c] =~= seq![a] + seq![b, c]);
    assert(seq![b, c] =~= seq![b] + seq![c]);
    lemma_qb_concat(seq![a], seq![b, c], segs);
    lemma_qb_concat(seq![b], seq![c], segs);
    lemma_qb_single(a, segs);
    lemma_qb_single(b, segs);
    lemma_qb_single(c, segs);
}

/// A step that replaces the first item by `front` and `back` keeps the
/// count of blocks to come when those make as many as the item did.
proof fn lemma_qb_step(q0: Seq<QueueItem>, newq: Seq<QueueItem>, front: Seq<QueueItem>, back: Seq<QueueItem>,
    s0: Seq<Vec<(Option<Id>, ir::Expr)>>, s1: Seq<Vec<(Option<Id>, ir::Expr)>>)
    requires
        q0.len() >= 1,
        segs_apart(q0, s0.len() as int),
        s1.len() >= s0.len(),
        forall|k: int| 0 <= k < s0.len() && Some(k as usize) != seg_of(q0[0]) ==> #[trigger] s1[k]@ == s0[k]@,
        newq == front + q0.drop_first() + back,
        queue_blocks(front, s1) + queue_blocks(back, s1) == item_blocks(q0[0], s0),
    ensures
        queue_blocks(newq, s1) == queue_blocks(q0, s0),
{
    reveal(queue_blocks);
    reveal(item_blocks);
    lemma_qb_concat(front + q0.drop_first(), back, s1);
    lemma_qb_concat(front, q0.drop_first(), s1);
    lemma_qb_rest(q0, s0, s1);
    lemma_qb_first(q0, s0);
}

/// The blocks to come stay as many when a candidate ends in an `if`: its
/// block, the branches and (after a split) the join make what it did.
proof fn lemma_qb_if(q0: Seq<QueueItem>, sg0: Seq<Vec<(Option<Id>, ir::Expr)>>, sg1: Seq<Vec<(Option<Id>, ir::Expr)>>,
    segs2: Seq<Vec<(Option<Id>, ir::Expr)>>, s1: Seq<Vec<(Option<Id>, ir::Expr)>>, cand0: Candidate,
    jopt: Option<Candidate>, split_at: int, tb: ir::Block, fb: ir::Block, th: Candidate, el: Candidate,
    bb: BasicBlock, newq: Seq<QueueItem>)
    requires
        q0.len() >= 1,
        q0[0] == QueueItem::Unvisited(cand0),
        segs_apart(q0, sg0.len() as int),
        cand0.segment < sg0.len(),
        cand0.start <= sg0[cand0.segment as int]@.len(),
        sg1.len() == sg0.len(),
        forall|k: int| 0 <= k < sg0.len() && k != cand0.segment ==> #[trigger] sg1[k]@ == sg0[k]@,
        sg1[cand0.segment as int]@.len() == sg0[cand0.segment as int]@.len(),
        jopt is None ==> sg1[cand0.segment as int]@ == sg0[cand0.segment as int]@
            && (forall|k: int| cand0.start <= k < sg0[cand0.segment as int]@.len()
                ==> !(#[trigger] sg0[cand0.segment as int]@[k].1 is IfThenElse))
            && (cand0.tail matches ir::TailExpr::IfThenElse(_, t, f) && *t == tb && *f == fb),
        jopt matches Some(j) ==> {
            let ps = sg0[cand0.segment as int]@;
            &&& cand0.start <= split_at < ps.len()
            &&& forall|k: int| cand0.start <= k < split_at ==> !(#[trigger] ps[k].1 is IfThenElse)
            &&& ps[split_at].1 matches ir::Expr::IfThenElse(_, t, f) && *t == tb && *f == fb
            &&& forall|k: int| 0 <= k < ps.len() && k != split_at ==> #[trigger] sg1[cand0.segment as int]@[k] == ps[k]
            &&& j.segment == cand0.segment
            &&& j.start == split_at + 1
            &&& j.tail == cand0.tail
        },
        segs2.len() == sg1.len() + 1,
        forall|k: int| 0 <= k < sg1.len() ==> #[trigger] segs2[k] == sg1[k],
        el.segment == sg1.len(),
        el.start == 0,
        1 + nb_from(segs2[el.segment as int]@, 0) + nb_tail(el.tail) == nb_block(fb),
        s1.len() == segs2.len() + 1,
        forall|k: int| 0 <= k < segs2.len() ==> #[trigger] s1[k] == segs2[k],
        th.segment == segs2.len(),
        th.start == 0,
        1 + nb_from(s1[th.segment as int]@, 0) + nb_tail(th.tail) == nb_block(tb),
        newq == (match jopt {
            Some(j) => seq![QueueItem::Unvisited(j)],
            None => Seq::<QueueItem>::empty(),
        }) + seq![QueueItem::Unvisited(th), QueueItem::Unvisited(el), QueueItem::Discovered(bb)] + q0.drop_first(),
    ensures
        queue_blocks(newq, s1) == queue_blocks(q0, sg0),
{
    reveal(queue_blocks);
    reveal(item_blocks);
    let seg = cand0.segment as int;
    let ps = sg0[seg]@;
    let head = match jopt {
        Some(j) => seq![QueueItem::Unvisited(j)],
        None => Seq::<QueueItem>::empty(),
    };
    let tail3 = seq![QueueItem::Unvisited(th), QueueItem::Unvisited(el), QueueItem::Discovered(bb)];
    lemma_qb_three(QueueItem::Unvisited(th), QueueItem::Unvisited(el), QueueItem::Discovered(bb), s1);
    assert(s1[el.segment as int] == segs2[el.segment as int]);
    lemma_qb_concat(head, tail3, s1);
    match jopt {
        Some(j) => {
            lemma_qb_single(QueueItem::Unvisited(j), s1);
            assert(s1[seg] == sg1[seg]);
            lemma_nb_from_agree(sg1[seg]@, ps, split_at + 1);
            lemma_nb_from_skip(ps, cand0.start as int, split_at);
            assert(nb_from(ps, split_at) == nb_expr(ps[split_at].1) + nb_from(ps, split_at + 1));
        },
        None => {
            assert(head =~= Seq::<QueueItem>::empty());
            assert(queue_blocks(head, s1) == 0);
            lemma_nb_from_skip(ps, cand0.start as int, ps.len() as int);
        },
    }
    assert forall|k: int| 0 <= k < sg0.len() && Some(k as usize) != seg_of(q0[0]) implies #[trigger] s1[k]@ == sg0[k]@ by {
        assert(s1[k] == segs2[k]);
        assert(segs2[k] == sg1[k]);
    }
    assert(queue_blocks(Seq::<QueueItem>::empty(), s1) == 0);
    lemma_qb_step(q0, newq, head + tail3, Seq::<QueueItem>::empty(), sg0, s1);
}

/// Whether the rest of a candidate can be carved.
spec fn item_carvable(item: QueueItem, segs: Seq<Vec<(Option<Id>, ir::Expr)>>, stop: Option<usize>, below: nat) -> bool {
    match item {
        QueueItem::Unvisited(c) => carvable_from(segs[c.segment as int]@, c.start as int, stop, below)
            && carvable_tail(c.tail, stop, c.cont_label is Some, below)
            && (stop is Some ==> !(c.tail is Apply)),
        _ => true,
    }
}

/// `o` names a label from `base` on.
spec fn high_label(o: Option<Id>, base: nat) -> bool {
    o matches Some(l) && l.0 >= base
}

/// The label an item gives its first block.
spec fn item_def(item: QueueItem) -> Option<Id> {
    match item {
        QueueItem::Unvisited(c) => c.label,
        QueueItem::Discovered(bb) => bb.label,
        QueueItem::Finished(bb) => bb.label,
    }
}

/// The label an item's block continues at, or jumps to.
spec fn item_ref(item: QueueItem) -> Option<Id> {
    match item {
        QueueItem::Unvisited(c) => c.cont_label,
        QueueItem::Discovered(bb) => match bb.cont {
            Cont::Jump(t, _) => Some(t),
            Cont::JumpIf { then, .. } => Some(then),
            _ => None,
        },
        QueueItem::Finished(bb) => match bb.cont {
            Cont::Jump(t, _) => Some(t),
            Cont::JumpIf { then, .. } => Some(then),
            _ => None,
        },
    }
}

/// The labels an item refers to are labels of this procedure where they
/// must be: a continuation label, and the target of a conditional jump.
spec fn refs_high(item: QueueItem, base: nat) -> bool {
    match item {
        QueueItem::Unvisited(c) => c.cont_label matches Some(l) ==> l.0 >= base,
        QueueItem::Discovered(bb) => bb.cont matches Cont::JumpIf { then, .. } ==> then.0 >= base,
        QueueItem::Finished(bb) => bb.cont matches Cont::JumpIf { then, .. } ==> then.0 >= base,
    }
}

/// The label item `i` refers to, if it is one of this procedure, belongs
/// to a block that comes out first: a finished one before it, or, for an
/// item not yet finished, one ahead of it or finished already.
spec fn ref_ok(q: Seq<QueueItem>, i: int, base: nat) -> bool {
    high_label(item_ref(q[i]), base) ==> exists|k: int| 0 <= k < q.len()
        && #[trigger] item_def(q[k]) == item_ref(q[i])
        && (if q[i] is Finished { k < i && q[k] is Finished } else { k < i || q[k] is Finished })
}

/// The labels of the queue: fresh, each on one item, and every reference
/// resolved in time.
spec fn lab_inv(q: Seq<QueueItem>, base: nat, next: nat) -> bool {
    &&& forall|i: int| 0 <= i < q.len() ==> (#[trigger] item_def(q[i]) matches Some(l) ==> base <= l.0 < next)
    &&& forall|i: int, j: int| 0 <= i < j < q.len() && (#[trigger] item_def(q[i])) is Some ==> item_def(q[i]) != #[trigger] item_def(q[j])
    &&& forall|i: int| 0 <= i < q.len() ==> #[trigger] refs_high(q[i], base)
    &&& forall|i: int| 0 <= i < q.len() ==> #[trigger] ref_ok(q, i, base)
}

/// Taking the front item `q[0]` off and putting new items before the rest
/// (not finished) and after it (finished) keeps the labels in order, when
/// the new items take over its label, bring only fresh ones, and refer to
/// labels that come out in time.
proof fn lemma_lab_step(q: Seq<QueueItem>, front: Seq<QueueItem>, back: Seq<QueueItem>, base: nat, next0: nat, next1: nat)
    requires
        q.len() >= 1,
        !(q[0] is Finished),
        lab_inv(q, base, next0),
        base <= next0 <= next1,
        forall|p: int| 0 <= p < front.len() ==> !(#[trigger] front[p] is Finished),
        forall|p: int| 0 <= p < back.len() ==> #[trigger] back[p] is Finished,
        back.len() <= 1,
        forall|p: int| 0 <= p < (front + back).len() ==> (#[trigger] item_def((front + back)[p]) matches Some(l)
            ==> (Some(l) == item_def(q[0]) || next0 <= l.0 < next1)),
        forall|p: int, p2: int| 0 <= p < p2 < (front + back).len() && (#[trigger] item_def((front + back)[p])) is Some
            ==> item_def((front + back)[p]) != #[trigger] item_def((front + back)[p2]),
        item_def(q[0]) is Some ==> exists|p: int| 0 <= p < (front + back).len() && #[trigger] item_def((front + back)[p]) == item_def(q[0]),
        forall|p: int| 0 <= p < front.len() ==> #[trigger] refs_high(front[p], base),
        forall|p: int| 0 <= p < back.len() ==> #[trigger] refs_high(back[p], base),
        forall|p: int| 0 <= p < front.len() ==> (high_label(item_ref(#[trigger] front[p]), base) ==>
            (exists|k: int| 0 <= k < p && #[trigger] item_def(front[k]) == item_ref(front[p]))
            || (exists|k: int| 1 <= k < q.len() && q[k] is Finished && #[trigger] item_def(q[k]) == item_ref(front[p]))),
        forall|p: int| 0 <= p < back.len() ==> (high_label(item_ref(#[trigger] back[p]), base) ==>
            exists|k: int| 1 <= k < q.len() && q[k] is Finished && #[trigger] item_def(q[k]) == item_ref(back[p])),
    ensures
        lab_inv(front + q.drop_first() + back, base, next1),
{
    let r = q.drop_first();
    let q2 = front + r + back;
    let fl = front.len() as int;
    let rl = r.len() as int;
    assert forall|i: int| 0 <= i < q2.len() implies (if i < fl { q2[i] == front[i] } else if i < fl + rl { q2[i] == q[i - fl + 1] }
        else { q2[i] == back[i - fl - rl] && q2[i] == (front + back)[i - rl] }) by {
        if i >= fl + rl {
            assert((front + back)[i - rl] == back[i - fl - rl]);
        }
    }
    assert forall|p: int| 0 <= p < fl implies (front + back)[p] == front[p] by {}
    // ranges
    assert forall|i: int| 0 <= i < q2.len() implies (#[trigger] item_def(q2[i]) matches Some(l) ==> base <= l.0 < next1) by {
        if i < fl {
            assert(item_def((front + back)[i]) == item_def(q2[i]));
            assert(item_def(q[0]) matches Some(l0) ==> base <= l0.0 < next0);
        } else if i < fl + rl {
            assert(item_def(q[i - fl + 1]) == item_def(q2[i]));
        } else {
            assert(item_def((front + back)[i - rl]) == item_def(q2[i]));
            assert(item_def(q[0]) matches Some(l0) ==> base <= l0.0 < next0);
        }
    }
    // distinct
    assert forall|i: int, j: int| 0 <= i < j < q2.len() && (#[trigger] item_def(q2[i])) is Some
        implies item_def(q2[i]) != #[trigger] item_def(q2[j]) by {
        let ni = if i < fl { i } else if i < fl + rl { -1 } else { i - rl };
        let nj = if j < fl { j } else if j < fl + rl { -1 } else { j - rl };
        if ni >= 0 && nj >= 0 {
            assert(item_def((front + back)[ni]) == item_def(q2[i]));
            assert(item_def((front + back)[nj]) == item_def(q2[j]));
        } else if ni < 0 && nj < 0 {
            assert(item_def(q[i - fl + 1]) != item_def(q[j - fl + 1]));
        } else if ni >= 0 {
            let oj = j - fl + 1;
            assert(item_def(q[oj]) == item_def(q2[j]));
            assert(item_def((front + back)[ni]) == item_def(q2[i]));
            if item_def(q2[i]) == item_def(q[0]) {
                assert(item_def(q[0]) != item_def(q[oj]));
            } else {
                assert(item_def(q[oj]) matches Some(l) ==> l.0 < next0);
            }
        } else {
            let oi = i - fl + 1;
            assert(item_def(q[oi]) == item_def(q2[i]));
            assert(item_def((front + back)[nj]) == item_def(q2[j]));
            if item_def(q2[j]) == item_def(q[0]) {
                assert(item_def(q[0]) != item_def(q[oi]));
            } else {
                assert(item_def(q[oi]) matches Some(l) ==> l.0 < next0);
            }
        }
    }
    assert forall|i: int| 0 <= i < q2.len() implies #[trigger] refs_high(q2[i], base) by {
        if fl <= i < fl + rl {
            assert(refs_high(q[i - fl + 1], base));
        } else if i >= fl + rl {
            assert(refs_high(back[i - fl - rl], base));
        } else {
            assert(refs_high(front[i], base));
        }
    }
    assert forall|i: int| 0 <= i < q2.len() implies #[trigger] ref_ok(q2, i, base) by {
        if high_label(item_ref(q2[i]), base) {
            let l = item_ref(q2[i])->0;
            if i < fl {
                assert(item_ref(front[i]) == item_ref(q2[i]));
                if exists|k: int| 0 <= k < i && #[trigger] item_def(front[k]) == Some(l) {
                    let k = choose|k: int| 0 <= k < i && #[trigger] item_def(front[k]) == Some(l);
                    assert(item_def(q2[k]) == Some(l));
                } else {
                    let k = choose|k: int| 1 <= k < q.len() && q[k] is Finished && #[trigger] item_def(q[k]) == Some(l);
                    assert(q2[k - 1 + fl] == q[k]);
                    assert(item_def(q2[k - 1 + fl]) == Some(l));
                }
            } else if i < fl + rl {
                let oi = i - fl + 1;
                assert(q2[i] == q[oi]);
                assert(ref_ok(q, oi, base));
                let k = choose|k: int| 0 <= k < q.len() && #[trigger] item_def(q[k]) == Some(l)
                    && (if q[oi] is Finished { k < oi && q[k] is Finished } else { k < oi || q[k] is Finished });
                if k == 0 {
                    let p = choose|p: int| 0 <= p < (front + back).len() && #[trigger] item_def((front + back)[p]) == item_def(q[0]);
                    if p < fl {
                        assert(q2[p] == front[p]);
                        assert(item_def(q2[p]) == Some(l));
                    } else {
                        let p2 = p + rl;
                        assert(q2[p2] == (front + back)[p]);
                        assert(q2[p2] == back[p - fl]);
                        assert(item_def(q2[p2]) == Some(l));
                    }
                } else {
                    assert(q2[k - 1 + fl] == q[k]);
                    assert(item_def(q2[k - 1 + fl]) == Some(l));
                }
            } else {
                assert(q2[i] == back[i - fl - rl]);
                let k = choose|k: int| 1 <= k < q.len() && q[k] is Finished && #[trigger] item_def(q[k]) == Some(l);
                assert(q2[k - 1 + fl] == q[k]);
                assert(item_def(q2[k - 1 + fl]) == Some(l));
            }
        }
    }
}

proof fn lemma_qw_single(a: QueueItem, segs: Seq<Vec<(Option<Id>, ir::Expr)>>, f: bool)
    ensures
        queue_weight(seq![a], segs, f) == item_weight(a, segs, f),
{
    assert(seq![a].drop_last() =~= Seq::<QueueItem>::empty());
    assert(queue_weight(Seq::<QueueItem>::empty(), segs, f) == 0);
    assert(seq![a].last() == a);
}

/// The queue keeps its unfinished items ahead of its finished ones.
spec fn finished_last(q: Seq<QueueItem>) -> bool {
    forall|i: int, j: int| 0 <= i <= j < q.len() && (#[trigger] q[i]) is Finished ==> (#[trigger] q[j]) is Finished
}

/// No two candidates read the same segment, and each reads one that exists.
spec fn segs_apart(q: Seq<QueueItem>, n: int) -> bool {
    &&& forall|i: int| 0 <= i < q.len() ==> (#[trigger] seg_of(q[i]) matches Some(k) ==> k < n)
    &&& forall|i: int, j: int| 0 <= i < j < q.len() && (#[trigger] seg_of(q[i])) is Some ==> seg_of(q[i]) != #[trigger] seg_of(q[j])
}

/// What the queue owes, and may take, when the body can be carved.
spec fn queue_fine(q: Seq<QueueItem>, segs: Seq<Vec<(Option<Id>, ir::Expr)>>, stop: Option<usize>, base: nat, next: nat,
    steps: nat, ifs0: nat) -> bool {
    &&& steps + queue_weight(q, segs, false) <= 4 * ifs0 + 1
    &&& next + queue_weight(q, segs, true) <= base + 1 + 4 * ifs0
    &&& forall|i: int| 0 <= i < q.len() ==> #[trigger] item_carvable(q[i], segs, stop, base)
    &&& lab_inv(q, base, next)
}

/// Replacing the front of the queue keeps candidates apart and ordered,
/// and passes weight, carving and labels from the rest unchanged.
proof fn lemma_queue_rest(q: Seq<QueueItem>, front: Seq<QueueItem>, back: Seq<QueueItem>,
    s0: Seq<Vec<(Option<Id>, ir::Expr)>>, s1: Seq<Vec<(Option<Id>, ir::Expr)>>, stop: Option<usize>, base: nat, good: bool)
    requires
        q.len() >= 1,
        !(q[0] is Finished),
        finished_last(q),
        segs_apart(q, s0.len() as int),
        s0.len() <= s1.len(),
        forall|k: int| 0 <= k < s0.len() && Some(k as usize) != seg_of(q[0]) ==> #[trigger] s1[k]@ == s0[k]@,
        forall|p: int| 0 <= p < front.len() ==> !(#[trigger] front[p] is Finished),
        forall|p: int| 0 <= p < back.len() ==> #[trigger] back[p] is Finished,
        forall|p: int| 0 <= p < front.len() ==> (#[trigger] seg_of(front[p]) matches Some(k) ==> k < s1.len()
            && (Some(k) == seg_of(q[0]) || k >= s0.len())),
        forall|p: int, p2: int| 0 <= p < p2 < front.len() && (#[trigger] seg_of(front[p])) is Some
            ==> seg_of(front[p]) != #[trigger] seg_of(front[p2]),
        forall|p: int| 0 <= p < back.len() ==> seg_of(#[trigger] back[p]) is None,
        good ==> forall|i: int| 0 <= i < q.len() ==> #[trigger] item_carvable(q[i], s0, stop, base),
        good ==> forall|p: int| 0 <= p < front.len() ==> #[trigger] item_carvable(front[p], s1, stop, base),
    ensures
        finished_last(front + q.drop_first() + back),
        segs_apart(front + q.drop_first() + back, s1.len() as int),
        queue_weight(q.drop_first(), s1, false) == queue_weight(q.drop_first(), s0, false),
        queue_weight(q.drop_first(), s1, true) == queue_weight(q.drop_first(), s0, true),
        queue_weight(q, s0, false) == item_weight(q[0], s0, false) + queue_weight(q.drop_first(), s0, false),
        queue_weight(q, s0, true) == item_weight(q[0], s0, true) + queue_weight(q.drop_first(), s0, true),
        queue_weight(front + q.drop_first() + back, s1, false) == queue_weight(front, s1, false)
            + queue_weight(q.drop_first(), s1, false) + queue_weight(back, s1, false),
        queue_weight(front + q.drop_first() + back, s1, true) == queue_weight(front, s1, true)
            + queue_weight(q.drop_first(), s1, true) + queue_weight(back, s1, true),
        good ==> forall|i: int| 0 <= i < (front + q.drop_first() + back).len()
            ==> #[trigger] item_carvable((front + q.drop_first() + back)[i], s1, stop, base),
{
    let r = q.drop_first();
    let q2 = front + r + back;
    let fl = front.len() as int;
    let rl = r.len() as int;
    assert(q =~= seq![q[0]] + r);
    lemma_queue_weight_concat(seq![q[0]], r, s0, false);
    lemma_queue_weight_concat(seq![q[0]], r, s0, true);
    lemma_qw_single(q[0], s0, false);
    lemma_qw_single(q[0], s0, true);
    lemma_queue_weight_concat(front + r, back, s1, false);
    lemma_queue_weight_concat(front + r, back, s1, true);
    lemma_queue_weight_concat(front, r, s1, false);
    lemma_queue_weight_concat(front, r, s1, true);
    assert forall|i: int| 0 <= i < r.len() implies (#[trigger] seg_of(r[i]) matches Some(k) ==> s0[k as int]@ == s1[k as int]@) by {
        assert(r[i] == q[i + 1]);
        if seg_of(r[i]) is Some {
            assert(seg_of(q[0]) != seg_of(q[i + 1]) || seg_of(q[0]) is None);
        }
    }
    lemma_queue_weight_frame(r, s0, s1, false);
    lemma_queue_weight_frame(r, s0, s1, true);
    assert forall|i: int| 0 <= i < q2.len() implies (if i < fl { q2[i] == front[i] } else if i < fl + rl { q2[i] == q[i - fl + 1] }
        else { q2[i] == back[i - fl - rl] }) by {}
    assert forall|i: int, j: int| 0 <= i <= j < q2.len() && (#[trigger] q2[i]) is Finished implies (#[trigger] q2[j]) is Finished by {
        if j < fl + rl {
            assert(i >= fl);
            assert(q[i - fl + 1] is Finished);
        }
    }
    assert forall|i: int| 0 <= i < q2.len() implies (#[trigger] seg_of(q2[i]) matches Some(k) ==> k < s1.len()) by {
        if fl <= i < fl + rl {
            assert(seg_of(q[i - fl + 1]) == seg_of(q2[i]));
        } else if i >= fl + rl {
            assert(seg_of(back[i - fl - rl]) is None);
        }
    }
    assert forall|i: int, j: int| 0 <= i < j < q2.len() && (#[trigger] seg_of(q2[i])) is Some
        implies seg_of(q2[i]) != #[trigger] seg_of(q2[j]) by {
        if j >= fl + rl {
            assert(seg_of(back[j - fl - rl]) is None);
        } else if i >= fl {
            assert(seg_of(q[i - fl + 1]) != seg_of(q[j - fl + 1]));
        } else if j < fl {
        } else {
            let oj = j - fl + 1;
            assert(seg_of(q2[j]) == seg_of(q[oj]));
            if seg_of(q[oj]) is Some {
                assert(seg_of(q[0]) != seg_of(q[oj]) || seg_of(q[0]) is None);
            }
        }
    }
    if good {
    assert forall|i: int| 0 <= i < q2.len() implies #[trigger] item_carvable(q2[i], s1, stop, base) by {
        if fl <= i < fl + rl {
            let oi = i - fl + 1;
            assert(item_carvable(q[oi], s0, stop, base));
            if seg_of(q[oi]) is Some {
                assert(seg_of(q[0]) != seg_of(q[oi]) || seg_of(q[0]) is None);
                let k = seg_of(q[oi])->0;
                assert(s1[k as int]@ == s0[k as int]@);
            }
        } else if i >= fl + rl {
            assert(q2[i] is Finished);
        }
    }
    }
}

proof fn lemma_qw_cons(a: QueueItem, t: Seq<QueueItem>, segs: Seq<Vec<(Option<Id>, ir::Expr)>>, f: bool)
    ensures
        queue_weight(seq![a] + t, segs, f) == item_weight(a, segs, f) + queue_weight(t, segs, f),
{
    lemma_queue_weight_concat(seq![a], t, segs, f);
    lemma_qw_single(a, segs, f);
}

/// A candidate without an `if` left ends in one finished block, pushed
/// at the back with the candidate's label.
proof fn lemma_end_step(q0: Seq<QueueItem>, q1: Seq<QueueItem>, sg0: Seq<Vec<(Option<Id>, ir::Expr)>>,
    sg1: Seq<Vec<(Option<Id>, ir::Expr)>>, stop: Option<usize>, base: nat, ifs0: nat, n0: nat, n1: nat, steps0: nat,
    good: bool, cand0: Candidate, bb: BasicBlock)
    requires
        q0.len() >= 1,
        q0[0] == QueueItem::Unvisited(cand0),
        finished_last(q0),
        segs_apart(q0, sg0.len() as int),
        q1 == q0.drop_first().push(QueueItem::Finished(bb)),
        sg1.len() == sg0.len(),
        forall|k: int| 0 <= k < sg0.len() ==> #[trigger] sg1[k]@ == sg0[k]@,
        n1 == n0,
        n0 >= base,
        bb.label == cand0.label,
        !(bb.cont is JumpIf),
        bb.cont matches Cont::Jump(t, _) ==> (cand0.cont_label == Some(t)
            || (cand0.tail matches ir::TailExpr::Apply(t2, _) && t2 == t && cand0.cont_label is None)),
        good ==> queue_fine(q0, sg0, stop, base, n0, steps0, ifs0),
    ensures
        q1.len() >= 1,
        finished_last(q1),
        segs_apart(q1, sg1.len() as int),
        good ==> queue_fine(q1, sg1, stop, base, n1, steps0 + 1, ifs0),
{
    let front = Seq::<QueueItem>::empty();
    let back = seq![QueueItem::Finished(bb)];
    assert(item_def((front + back)[0]) == item_def(back[0]));
    assert(q1 =~= front + q0.drop_first() + back);
    assert(seg_of(back[0]) is None);
    lemma_queue_rest(q0, front, back, sg0, sg1, stop, base, good);
    if good {
        lemma_qw_single(back[0], sg1, false);
        lemma_qw_single(back[0], sg1, true);
        assert(queue_weight(front, sg1, false) == 0);
        assert(queue_weight(front, sg1, true) == 0);
        assert(front + back =~= back);
        assert(item_carvable(q0[0], sg0, stop, base));
        assert(ref_ok(q0, 0, base));
        assert(item_def(back[0]) == item_def(q0[0]));
        if high_label(item_ref(back[0]), base) {
            let t = item_ref(back[0])->0;
            if cand0.cont_label == Some(t) {
                assert(item_ref(q0[0]) == Some(t));
                let k = choose|k: int| 0 <= k < q0.len() && #[trigger] item_def(q0[k]) == item_ref(q0[0])
                    && (k < 0 || q0[k] is Finished);
                assert(k >= 1);
            } else {
                assert(t.0 < base);
            }
        }
        lemma_lab_step(q0, front, back, base, n0, n1);
    }
}

/// The blocks an `if` carves: the candidate's own block ending in the
/// conditional jump, the two branches, and, for an `if` binding, the rest
/// of the bindings as the join block, all put at the front.
#[verifier::rlimit(40)]
proof fn lemma_if_step(q0: Seq<QueueItem>, q1: Seq<QueueItem>, sg0: Seq<Vec<(Option<Id>, ir::Expr)>>,
    sg1: Seq<Vec<(Option<Id>, ir::Expr)>>, sge: Seq<Vec<(Option<Id>, ir::Expr)>>, s3: Seq<Vec<(Option<Id>, ir::Expr)>>,
    stop: Option<usize>, base: nat, ifs0: nat, n0: nat, n1: nat, ne: nat, n3: nat, steps0: nat, good: bool,
    cand0: Candidate, cand1: Candidate, jopt: Option<Candidate>, sp: int, tb: ir::Block, fb: ir::Block, cond: Id,
    then_cand: Candidate, else_cand: Candidate, bb: BasicBlock, tl: Id)
    requires
        q0.len() >= 1,
        q0[0] == QueueItem::Unvisited(cand0),
        finished_last(q0),
        segs_apart(q0, sg0.len() as int),
        n0 >= base,
        good ==> n0 + 7 <= usize::MAX,
        good ==> queue_fine(q0, sg0, stop, base, n0, steps0, ifs0),
        q1 == (match jopt {
            Some(j) => seq![QueueItem::Unvisited(j)] + seq![QueueItem::Unvisited(then_cand), QueueItem::Unvisited(else_cand),
                QueueItem::Discovered(bb)],
            None => seq![QueueItem::Unvisited(then_cand), QueueItem::Unvisited(else_cand), QueueItem::Discovered(bb)],
        }) + q0.drop_first(),
        cand0.segment < sg0.len(),
        cand0.start <= sg0[cand0.segment as int]@.len(),
        sg1.len() == sg0.len(),
        forall|k: int| 0 <= k < sg0.len() && k != cand0.segment ==> #[trigger] sg1[k]@ == sg0[k]@,
        jopt is None ==> cand1 == cand0 && sg1[cand0.segment as int]@ == sg0[cand0.segment as int]@ && n1 == n0,
        jopt is Some ==> ({
            let ps = sg0[cand0.segment as int]@;
            let j = jopt->0;
            &&& cand0.start <= sp < ps.len()
            &&& ps[sp].1 == ir::Expr::IfThenElse(cond, Box::new(tb), Box::new(fb))
            &&& j.label == Some(Id(n0 as usize))
            &&& j.tail == cand0.tail
            &&& j.cont_label == cand0.cont_label
            &&& j.segment == cand0.segment
            &&& j.start == sp + 1
            &&& cand1.cont_label == Some(Id(n0 as usize))
            &&& cand1.label == cand0.label
            &&& n1 == n0 + 1
            &&& sg1[cand0.segment as int]@.len() == ps.len()
            &&& forall|k: int| 0 <= k < ps.len() && k != sp ==> #[trigger] sg1[cand0.segment as int]@[k] == ps[k]
        }),
        cand1.tail == ir::TailExpr::IfThenElse(cond, Box::new(tb), Box::new(fb)),
        tl == Id(n1 as usize),
        bb.label == cand1.label,
        bb.cont == (Cont::JumpIf { cond, then: tl }),
        sge.len() == sg1.len() + 1,
        forall|k: int| 0 <= k < sg1.len() ==> #[trigger] sge[k] == sg1[k],
        else_cand.segment == sg1.len(),
        else_cand.start == 0,
        else_cand.label is None,
        else_cand.cont_label == cand1.cont_label,
        ifs_from(sge[else_cand.segment as int]@, 0) + ifs_tail(else_cand.tail) == ifs_block(fb),
        forall|below: nat| carvable_priors(fb.priors@, stop, below, fb.priors@.len() as int)
            ==> #[trigger] carvable_from(sge[else_cand.segment as int]@, 0, stop, below),
        (else_cand.tail == fb.tail || (stop is Some && fb.tail is Apply && (else_cand.tail is Unit || else_cand.tail is Var)))
            && (stop is Some ==> !(else_cand.tail is Apply)),
        n1 + 1 <= ne <= n1 + 2,
        s3.len() == sge.len() + 1,
        forall|k: int| 0 <= k < sge.len() ==> #[trigger] s3[k] == sge[k],
        then_cand.segment == sge.len(),
        then_cand.start == 0,
        then_cand.label == Some(tl),
        then_cand.cont_label == cand1.cont_label,
        ifs_from(s3[then_cand.segment as int]@, 0) + ifs_tail(then_cand.tail) == ifs_block(tb),
        forall|below: nat| carvable_priors(tb.priors@, stop, below, tb.priors@.len() as int)
            ==> #[trigger] carvable_from(s3[then_cand.segment as int]@, 0, stop, below),
        (then_cand.tail == tb.tail || (stop is Some && tb.tail is Apply && (then_cand.tail is Unit || then_cand.tail is Var)))
            && (stop is Some ==> !(then_cand.tail is Apply)),
        ne <= n3 <= ne + 1,
    ensures
        q1.len() >= 1,
        finished_last(q1),
        segs_apart(q1, s3.len() as int),
        good ==> queue_fine(q1, s3, stop, base, n3, steps0 + 1, ifs0),
{
    let seg = cand0.segment as int;
    let ps = sg0[seg]@;
    let st = cand0.start as int;
    let th = QueueItem::Unvisited(then_cand);
    let el = QueueItem::Unvisited(else_cand);
    let disc = QueueItem::Discovered(bb);
    let tail3 = seq![th, el, disc];
    let front = match jopt {
        Some(j) => seq![QueueItem::Unvisited(j)] + tail3,
        None => tail3,
    };
    let back = Seq::<QueueItem>::empty();
    assert(q1 =~= front + q0.drop_first() + back);
    let es = else_cand.segment as int;
    let ts = then_cand.segment as int;
    assert(s3[es] == sge[es]);
    assert forall|k: int| 0 <= k < sg0.len() && Some(k as usize) != seg_of(q0[0]) implies #[trigger] s3[k]@ == sg0[k]@ by {
        assert(s3[k] == sge[k]);
        assert(sge[k] == sg1[k]);
    }
    assert(s3[seg] == sg1[seg]) by {
        assert(s3[seg] == sge[seg]);
        assert(sge[seg] == sg1[seg]);
    }
    let fl = front.len() as int;
    let off: int = if jopt is Some { 1 } else { 0 };
    assert(front[off] == th && front[off + 1] == el && front[off + 2] == disc);
    assert(fl == off + 3);
    if jopt is Some {
        assert(front[0] == QueueItem::Unvisited(jopt->0));
    }
    assert forall|p: int| 0 <= p < front.len() implies !(#[trigger] front[p] is Finished) by {}
    assert forall|p: int| 0 <= p < front.len() implies (#[trigger] seg_of(front[p]) matches Some(k) ==> k < s3.len()
        && (Some(k) == seg_of(q0[0]) || k >= sg0.len())) by {}
    assert forall|p: int, p2: int| 0 <= p < p2 < front.len() && (#[trigger] seg_of(front[p])) is Some
        implies seg_of(front[p]) != #[trigger] seg_of(front[p2]) by {}
    // the carving facts the branches inherit
    let joined = cand1.cont_label is Some;
    if good {
        assert(queue_fine(q0, sg0, stop, base, n0, steps0, ifs0));
        assert(item_carvable(q0[0], sg0, stop, base));
        assert(carvable_block(tb, stop, joined, base) && carvable_block(fb, stop, joined, base)) by {
            if jopt is Some {
                assert(carvable_expr(ps[sp].1, stop, base));
            } else {
                assert(carvable_tail(cand0.tail, stop, cand0.cont_label is Some, base));
            }
        }
        assert(carvable_from(s3[ts]@, 0, stop, base));
        assert(carvable_from(sge[es]@, 0, stop, base));
        assert forall|p: int| 0 <= p < front.len() implies #[trigger] item_carvable(front[p], s3, stop, base) by {
            if jopt is Some && p == 0 {
                let j = jopt->0;
                assert forall|k: int| j.start <= k < s3[seg]@.len() implies #[trigger] carvable_expr(s3[seg]@[k].1, stop, base) by {
                    assert(s3[seg]@[k] == ps[k]);
                    assert(carvable_expr(ps[k].1, stop, base));
                }
            }
        }
    }
    lemma_queue_rest(q0, front, back, sg0, s3, stop, base, good);
    if good {
        // weights
        lemma_qw_cons(th, seq![el, disc], s3, false);
        lemma_qw_cons(th, seq![el, disc], s3, true);
        lemma_qw_cons(el, seq![disc], s3, false);
        lemma_qw_cons(el, seq![disc], s3, true);
        lemma_qw_single(disc, s3, false);
        lemma_qw_single(disc, s3, true);
        assert(tail3 =~= seq![th] + seq![el, disc]);
        assert(seq![el, disc] =~= seq![el] + seq![disc]);
        assert(queue_weight(back, s3, false) == 0);
        assert(queue_weight(back, s3, true) == 0);
        let w_t = ifs_block(tb);
        let w_f = ifs_block(fb);
        assert(item_weight(el, s3, false) == 4 * w_f + 1);
        assert(item_weight(th, s3, false) == 4 * w_t + 1);
        if jopt is Some {
            let j = jopt->0;
            lemma_qw_cons(QueueItem::Unvisited(j), tail3, s3, false);
            lemma_qw_cons(QueueItem::Unvisited(j), tail3, s3, true);
            lemma_ifs_from_split(ps, st, sp);
            lemma_ifs_from_agree(s3[seg]@, ps, sp + 1);
            assert(ifs_expr(ps[sp].1) == 1 + w_t + w_f);
        } else {
            assert(ifs_tail(cand0.tail) == 1 + w_t + w_f);
        }
        // labels
        let j0 = Id(n0 as usize);
        assert(lab_inv(q0, base, n0));
        assert(refs_high(q0[0], base));
        assert(ref_ok(q0, 0, base));
        assert(item_def(q0[0]) matches Some(l) ==> base <= l.0 < n0);
        assert(front + back =~= front);
        assert forall|p: int| 0 <= p < (front + back).len() implies (#[trigger] item_def((front + back)[p]) matches Some(l)
            ==> (Some(l) == item_def(q0[0]) || n0 <= l.0 < n3)) by {
            assert((front + back)[p] == front[p]);
            if p == off + 2 {
                assert(item_def(front[p]) == item_def(q0[0]));
            } else if p == off {
                assert(item_def(front[p]) == Some(tl));
                assert(tl.0 == n1);
            } else if p == off + 1 {
                assert(item_def(front[p]) is None);
            } else {
                assert(item_def(front[p]) == Some(j0));
                assert(j0.0 == n0);
            }
        }
        assert(tl.0 == n1);
        assert(j0.0 == n0);
        assert forall|p: int, p2: int| 0 <= p < p2 < (front + back).len() && (#[trigger] item_def((front + back)[p])) is Some
            implies item_def((front + back)[p]) != #[trigger] item_def((front + back)[p2]) by {
            assert((front + back)[p] == front[p]);
            assert((front + back)[p2] == front[p2]);
            if p2 == off + 2 {
                assert(item_def(front[p2]) == item_def(q0[0]));
            }
        }
        if item_def(q0[0]) is Some {
            assert((front + back)[off + 2] == disc);
            assert(item_def((front + back)[off + 2]) == item_def(q0[0]));
        }
        assert forall|p: int| 0 <= p < front.len() implies #[trigger] refs_high(front[p], base) by {}
        assert forall|p: int| 0 <= p < front.len() implies (high_label(item_ref(#[trigger] front[p]), base) ==>
            (exists|k: int| 0 <= k < p && #[trigger] item_def(front[k]) == item_ref(front[p]))
            || (exists|k: int| 1 <= k < q0.len() && q0[k] is Finished && #[trigger] item_def(q0[k]) == item_ref(front[p]))) by {
            if high_label(item_ref(front[p]), base) {
                if item_ref(front[p]) == cand0.cont_label {
                    assert(item_ref(q0[0]) == cand0.cont_label);
                    let k = choose|k: int| 0 <= k < q0.len() && #[trigger] item_def(q0[k]) == item_ref(q0[0])
                        && (k < 0 || q0[k] is Finished);
                    assert(k >= 1);
                } else if p == off + 2 {
                    assert(item_def(front[off]) == Some(tl));
                } else {
                    assert(jopt is Some);
                    assert(item_def(front[0]) == Some(j0));
                }
            }
        }
        lemma_lab_step(q0, front, back, base, n0, n3);
    }
}

/// The branches of the `if` a candidate was cut at can be carved, each
/// flowing on when the candidate's block does.
proof fn lemma_if_branches(q0: Seq<QueueItem>, sg0: Seq<Vec<(Option<Id>, ir::Expr)>>, stop: Option<usize>, base: nat,
    ifs0: nat, n0: nat, steps0: nat, cand0: Candidate, cand1: Candidate, jopt: Option<Candidate>, sp: int,
    tb: ir::Block, fb: ir::Block, cond: Id)
    requires
        q0.len() >= 1,
        q0[0] == QueueItem::Unvisited(cand0),
        queue_fine(q0, sg0, stop, base, n0, steps0, ifs0),
        jopt is None ==> cand1 == cand0,
        jopt is Some ==> ({
            let ps = sg0[cand0.segment as int]@;
            &&& cand0.start <= sp < ps.len()
            &&& ps[sp].1 == ir::Expr::IfThenElse(cond, Box::new(tb), Box::new(fb))
            &&& cand1.cont_label is Some
        }),
        cand1.tail == ir::TailExpr::IfThenElse(cond, Box::new(tb), Box::new(fb)),
    ensures
        carvable_block(tb, stop, cand1.cont_label is Some, base),
        carvable_block(fb, stop, cand1.cont_label is Some, base),
        !(tb.tail is Apply && stop is Some && stop->0 > 1),
        !(fb.tail is Apply && stop is Some && stop->0 > 1),
{
    assert(item_carvable(q0[0], sg0, stop, base));
    if jopt is Some {
        assert(carvable_expr(sg0[cand0.segment as int]@[sp].1, stop, base));
    } else {
        assert(carvable_tail(cand0.tail, stop, cand0.cont_label is Some, base));
    }
    assert(carvable_tail(tb.tail, stop, cand1.cont_label is Some, base));
    assert(carvable_tail(fb.tail, stop, cand1.cont_label is Some, base));
}

/// The join candidate of a split, if any.
spec fn split_join(s: Option<(usize, Candidate)>) -> Option<Candidate> {
    match s {
        Some(p) => Some(p.1),
        None => None,
    }
}

/// Where a split cut, if it did.
spec fn split_index(s: Option<(usize, Candidate)>) -> int {
    match s {
        Some(p) => p.0 as int,
        None => 0,
    }
}

/// Whether the item at the front of the queue is a finished block.
fn front_finished(queue: &VecDeque<QueueItem>) -> (r: bool)
    ensures
        r == (queue@.len() == 0 || queue@[0] is Finished),
{
    if queue.len() == 0 {
        return true;
    }
    match &queue[0] {
        QueueItem::Finished(_) => true,
        _ => false,
    }
}

/// Each label in `m` is the position of a block with that label, and
/// every labelled block's label is in `m`.
pub open spec fn labels_indexed(blocks: Seq<BasicBlock>, m: Map<usize, usize>) -> bool {
    &&& forall|k: int| 0 <= k < blocks.len() ==> ((#[trigger] blocks[k]).label matches Some(l) ==> m.contains_key(l.0))
    &&& forall|l: usize| #[trigger] m.contains_key(l) ==> m[l] < blocks.len() && blocks[m[l] as int].label == Some(Id(l))
}

/// The successors of block `b` follow from its continuation: none after a
/// stop or return; after a jump, a block with the target label, or none
/// when no block has it (a call to another procedure); after a
/// conditional jump, a block with the `then` label and the block before
/// `b`, into which control falls.
pub open spec fn cont_succs(blocks: Seq<BasicBlock>, b: int, row: Seq<usize>) -> bool {
    match blocks[b].cont {
        Cont::Stop(_) => row.len() == 0,
        Cont::Ret(_) => row.len() == 0,
        Cont::Jump(t, _) => (row.len() == 0 && forall|k: int| 0 <= k < blocks.len() ==> (#[trigger] blocks[k]).label != Some(t))
            || (row.len() == 1 && row[0] < blocks.len() && blocks[row[0] as int].label == Some(t)),
        Cont::JumpIf { then, .. } => row.len() == 2 && row[0] < blocks.len() && blocks[row[0] as int].label == Some(then)
            && row[1] == b - 1,
    }
}

/// A body with no `if` and no local function at its top level, whose
/// tail call, in the entry procedure, returns at most one value: its graph
/// is one block.
/// A program the code generator is shown to accept: no procedures, and an
/// entry block that binds constants only and ends in a variable or unit.
pub open spec fn consts_only(m: ir::ProgramM) -> bool {
    &&& m.procs.len() == 0
    &&& forall|k: int| 0 <= k < m.main.priors.len() ==> #[trigger] m.main.priors[k].1 is Const
    &&& (m.main.tail is Unit || m.main.tail is Var)
}

proof fn lemma_model_priors_at(p: Seq<(Option<Id>, ir::Expr)>, n: int)
    requires
        0 <= n <= p.len(),
    ensures
        ir::model_priors(p, n).len() == n,
        forall|k: int| 0 <= k < n ==> #[trigger] ir::model_priors(p, n)[k] == (p[k].0, ir::model_expr(p[k].1)),
    decreases n,
{
    if n > 0 {
        lemma_model_priors_at(p, n - 1);
    }
}

proof fn lemma_model_procs_len(p: Seq<(Id, ir::Proc)>, n: int)
    requires
        0 <= n,
    ensures
        ir::model_procs(p, n).len() == n,
    decreases n,
{
    if n > 0 {
        lemma_model_procs_len(p, n - 1);
    }
}

/// What `consts_only` says of a program's model, said of the program.
proof fn lemma_consts_only(p: ir::Program)
    requires
        consts_only(ir::model_program(p)),
    ensures
        p.procs@.len() == 0,
        const_priors(p.main.priors@),
        simple_body(p.main, Some(p.rets)),
        !(p.main.tail is Apply),
{
    lemma_model_procs_len(p.procs@, p.procs@.len() as int);
    lemma_model_priors_at(p.main.priors@, p.main.priors@.len() as int);
    let m = ir::model_program(p);
    assert forall|k: int| 0 <= k < p.main.priors@.len() implies #[trigger] p.main.priors@[k].1 is Const by {
        assert(m.main.priors[k] == (p.main.priors@[k].0, ir::model_expr(p.main.priors@[k].1)));
        assert(m.main.priors[k].1 is Const);
    }
}

/// An item that covers the whole of the first segment, of length `len`.
spec fn whole_item(item: QueueItem, len: nat) -> bool {
    match item {
        QueueItem::Unvisited(c) => c.segment == 0 && c.start == 0,
        QueueItem::Discovered(bb) => bb.segment == 0 && bb.start == 0 && bb.end == len,
        QueueItem::Finished(bb) => bb.segment == 0 && bb.start == 0 && bb.end == len,
    }
}

/// The pushes of the constants that `p` binds, in order.
pub open spec fn pushes_of(p: Seq<(Option<Id>, ir::Expr)>) -> Seq<Instr> {
    Seq::new(p.len(), |i: int| match p[i].1 {
        ir::Expr::Const(c) => Instr::Push(c),
        _ => Instr::Stop,
    })
}

/// The code of a block that binds the constants `p` and stops: their
/// pushes, then stack moves only, then the stop.
pub open spec fn consts_code(c: Seq<Instr>, pushes: Seq<Instr>) -> bool {
    &&& pushes.len() + 1 <= c.len() <= 4 * pushes.len() + 4
    &&& c.subrange(0, pushes.len() as int) == pushes
    &&& shallow_tidy(c.drop_last(), pushes.len() as int, pushes.len() + 1int)
    &&& c.last() == Instr::Stop
}

/// The pushes of the constants that the bindings `p` of a program's model
/// bind, in order.
pub open spec fn model_pushes(p: Seq<(Option<Id>, ir::ExprM)>) -> Seq<Instr> {
    Seq::new(p.len(), |i: int| match p[i].1 {
        ir::ExprM::Const(c) => Instr::Push(c),
        _ => Instr::Stop,
    })
}

/// The code of at most fifteen constants and the stop can be assembled:
/// it marks and pushes no label, swaps reach no deeper than sixteen, and
/// it is small.
pub proof fn lemma_consts_code_assemblable(c: Seq<Instr>, pushes: Seq<Instr>)
    requires
        consts_code(c, pushes),
        pushes.len() <= 15,
        forall|j: int| 0 <= j < pushes.len() ==> #[trigger] pushes[j] is Push,
    ensures
        crate::assemble::assemblable(c),
{
    let k = pushes.len() as int;
    assert forall|j: int| 0 <= j < c.len() implies !(#[trigger] c[j] is JumpDest) && !(c[j] is PushLabel)
        && !(c[j] is Dup) && (c[j] matches Instr::Swap(d) ==> 1 <= d <= 16) by {
        if j < k {
            assert(c.subrange(0, k)[j] == c[j]);
            assert(pushes[j] is Push);
        } else if j < c.len() - 1 {
            assert(c.drop_last()[j] == c[j]);
        }
    }
    crate::assemble::lemma_size_upto_bound(c, c.len() as int);
}

/// Every binding of `p` is a constant.
pub open spec fn const_priors(p: Seq<(Option<Id>, ir::Expr)>) -> bool {
    forall|k: int| 0 <= k < p.len() ==> #[trigger] p[k].1 is Const
}

pub open spec fn simple_body(b: ir::Block, stop: Option<usize>) -> bool {
    &&& forall|k: int| 0 <= k < b.priors@.len() ==> !(#[trigger] b.priors@[k].1 is IfThenElse)
    &&& !(b.tail is IfThenElse)
    &&& !(b.tail is Jump)
    &&& (stop is Some && b.tail is Apply ==> stop->0 <= 1)
}

/// A candidate that makes one block: unlabelled, continuing nowhere inside
/// the procedure, with no `if` left in its segment or tail.
spec fn straight_candidate(c: Candidate, segments: Seq<Vec<(Option<Id>, ir::Expr)>>, stop: Option<usize>) -> bool {
    &&& c.label is None
    &&& c.cont_label is None
    &&& c.start == 0
    &&& c.segment < segments.len()
    &&& forall|k: int| 0 <= k < segments[c.segment as int]@.len()
        ==> !(#[trigger] segments[c.segment as int]@[k].1 is IfThenElse)
    &&& !(c.tail is IfThenElse)
    &&& !(c.tail is Jump)
    &&& (stop is Some ==> !(c.tail is Apply))
}

spec fn unvisited_straight(item: QueueItem, segments: Seq<Vec<(Option<Id>, ir::Expr)>>, stop: Option<usize>) -> bool {
    match item {
        QueueItem::Unvisited(c) => straight_candidate(c, segments, stop),
        _ => false,
    }
}

spec fn finished_straight(item: QueueItem, stop: Option<usize>) -> bool {
    match item {
        QueueItem::Finished(bb) => straight_block(bb, stop),
        _ => false,
    }
}

/// An unlabelled block that ends by stopping, in the entry procedure, and
/// else by returning or by a jump.
spec fn straight_block(bb: BasicBlock, stop: Option<usize>) -> bool {
    &&& bb.label is None
    &&& stop is Some ==> bb.cont is Stop
    &&& stop is None ==> (bb.cont is Ret || bb.cont is Jump)
}

/// Whether every item is a block that stays within its segment.
pub open spec fn blocks_in(items: Seq<BasicBlock>, segments: Seq<Vec<(Option<Id>, ir::Expr)>>) -> bool {
    forall|b: int| 0 <= b < items.len() ==> {
        let bb = #[trigger] items[b];
        &&& bb.segment < segments.len()
        &&& bb.start <= bb.end <= segments[bb.segment as int]@.len()
    }
}

spec fn item_ok(item: QueueItem, segments: Seq<Vec<(Option<Id>, ir::Expr)>>) -> bool {
    match item {
        QueueItem::Finished(bb) | QueueItem::Discovered(bb) => bb.segment < segments.len()
            && bb.start <= bb.end <= segments[bb.segment as int]@.len(),
        QueueItem::Unvisited(c) => c.segment < segments.len() && c.start <= segments[c.segment as int]@.len(),
    }
}

/// Builds the graph of a procedure body. `stop` is the number of values the
/// program returns when this is the entry procedure.
#[verifier::loop_isolation(false)]
#[verifier::rlimit(100)]
#[verifier::spinoff_prover]
pub fn build_cfg(body: ir::Block, stop: Option<usize>, ids: &mut IdGen) -> (r: Result<ProcCfg, CompileError>)
    ensures
        match r {
            Ok(cfg) => cfg.wf(),
            Err(_) => true,
        },
        r matches Ok(cfg) ==> forall|b: int| 0 <= b < cfg.block_count()
            ==> #[trigger] cont_succs(cfg.blocks_view(), b, cfg.succ_lists()[b]),
        simple_body(body, stop) && old(ids).next() < usize::MAX ==> (r matches Ok(cfg) && cfg.block_count() == 1
            && cfg.blocks_view()[0].label is None
            && (stop is Some ==> cfg.blocks_view()[0].cont is Stop)
            && (stop is None ==> (cfg.blocks_view()[0].cont is Ret || cfg.blocks_view()[0].cont is Jump))),
        carvable_block(body, stop, false, old(ids).next()) && old(ids).next() + 4 * ifs_block(body) + 8 <= usize::MAX
            ==> r is Ok,
        simple_body(body, stop) && old(ids).next() < usize::MAX && const_priors(body.priors@) && !(body.tail is Apply)
            ==> (r matches Ok(cfg) && cfg.block_priors(0) == body.priors@),
        r matches Ok(cfg) ==> cfg.block_count() == nb_block(body),
{
    let ghost simple = simple_body(body, stop) && old(ids).next() < usize::MAX;
    let ghost cst = simple && const_priors(body.priors@) && !(body.tail is Apply);
    let ghost base: nat = old(ids).next();
    let ghost ifs0: nat = ifs_block(body);
    let ghost good = carvable_block(body, stop, false, base) && base + 4 * ifs0 + 8 <= usize::MAX;
    let ghost body0 = body;
    let ifs = count_ifs(&body);
    let bound: usize = if ifs < usize::MAX / 8 { ifs * 4 + 4 } else { usize::MAX };
    let mut segments: Vec<Vec<(Option<Id>, ir::Expr)>> = Vec::new();
    let mut queue: VecDeque<QueueItem> = VecDeque::new();
    proof {
        if good {
            assert(!(body0.tail is Apply && stop is Some && stop->0 > 1));
        }
    }
    let first = new_candidate(body, stop, ids, &mut segments)?;
    queue.push_front(QueueItem::Unvisited(first));
    proof {
        assert(queue@ =~= seq![QueueItem::Unvisited(first)]);
        lemma_qb_single(QueueItem::Unvisited(first), segments@);
        lemma_item_unvisited(first, segments@);
        assert(seg_of(queue@[0]) == Some(first.segment));
        if good {
            lemma_qw_single(QueueItem::Unvisited(first), segments@, false);
            lemma_qw_single(QueueItem::Unvisited(first), segments@, true);
            assert(carvable_priors(body0.priors@, stop, base, body0.priors@.len() as int));
            assert(carvable_from(segments@[first.segment as int]@, 0, stop, base));
            assert(item_carvable(queue@[0], segments@, stop, base));
            assert(ref_ok(queue@, 0, base));
            assert(lab_inv(queue@, base, ids.next()));
        }
    }
    let mut steps: usize = 0;
    while !front_finished(&queue)
        invariant
            forall|k: int| 0 <= k < queue@.len() ==> #[trigger] item_ok(queue@[k], segments@),
            bound >= 4,
            simple ==> queue@.len() == 1,
            simple ==> (steps == 0 && unvisited_straight(queue@[0], segments@, stop)) || finished_straight(queue@[0], stop),
            queue@.len() >= 1,
            finished_last(queue@),
            segs_apart(queue@, segments@.len() as int),
            ids.next() >= base,
            good ==> ifs as nat == ifs0,
            good ==> queue_fine(queue@, segments@, stop, base, ids.next(), steps as nat, ifs0),
            cst ==> simple,
            cst ==> forall|k: int| 0 <= k < segments@.len() ==> #[trigger] const_priors(segments@[k]@),
            cst ==> segments@.len() == 1 && segments@[0]@ == body0.priors@,
            cst ==> whole_item(queue@[0], body0.priors@.len()),
            queue_blocks(queue@, segments@) == nb_block(body0),
        decreases bound - steps,
    {
        let ghost q0 = queue@;
        let ghost sg0 = segments@;
        let ghost n0 = ids.next();
        let ghost steps0: nat = steps as nat;
        proof {
            if good {
                assert(queue_fine(q0, sg0, stop, base, n0, steps0, ifs0));
                assert(n0 + queue_weight(q0, sg0, true) <= base + 1 + 4 * ifs0);
                assert(base + 4 * ifs0 + 8 <= usize::MAX);
                assert(n0 + 7 <= usize::MAX);
            }
        }
        proof {
            if simple {
                assert(!finished_straight(q0[0], stop));
                assert(steps == 0);
                assert(unvisited_straight(q0[0], segments@, stop));
            }
            assert(q0 =~= seq![q0[0]] + q0.drop_first());
            lemma_queue_weight_concat(seq![q0[0]], q0.drop_first(), sg0, false);
            lemma_qw_single(q0[0], sg0, false);
        }
        if steps >= bound {
            return Err(CompileError::Unsupported);
        }
        steps = steps + 1;
        assert(item_ok(queue@[0], segments@));
        let item = match queue.pop_front() {
            Some(item) => item,
            None => return Err(CompileError::Unsupported),
        };
        proof {
            assert(item == q0[0]);
            assert(queue@ =~= q0.drop_first());
        }
        match item {
            QueueItem::Finished(_) => return Err(CompileError::Unsupported),
            QueueItem::Discovered(bb) => {
                queue.push_back(QueueItem::Finished(bb));
                proof {
                    let front = Seq::<QueueItem>::empty();
                    let back = seq![QueueItem::Finished(bb)];
                    assert(queue@ =~= front + q0.drop_first() + back);
                    assert(seg_of(back[0]) is None);
                    if good {
                        lemma_queue_rest(q0, front, back, sg0, segments@, stop, base, good);
                        lemma_qw_single(back[0], segments@, false);
                        lemma_qw_single(back[0], segments@, true);
                        assert(queue_weight(front, segments@, false) == 0);
                        assert(queue_weight(front, segments@, true) == 0);
                        assert(front + back =~= back);
                        assert(item_def((front + back)[0]) == item_def(back[0]));
                        assert(refs_high(q0[0], base));
                        assert(ref_ok(q0, 0, base));
                        assert(item_ref(back[0]) == item_ref(q0[0]));
                        lemma_lab_step(q0, front, back, base, n0, n0);
                    } else {
                        lemma_queue_rest(q0, front, back, sg0, segments@, stop, base, good);
                    }
                    assert(queue_blocks(queue@, segments@) == queue_blocks(q0, sg0)) by {
                        lemma_qb_basics(bb, segments@);
                        lemma_qb_single(back[0], segments@);
                        assert(back =~= seq![back[0]]);
                        assert(queue_blocks(front, segments@) == 0);
                        lemma_qb_step(q0, queue@, front, back, sg0, segments@);
                    }
                }
            },
            QueueItem::Unvisited(mut cand) => {
                let ghost cand0 = cand;
                let ghost segs0 = segments@;
                proof {
                    if good {
                        assert(item_carvable(q0[0], sg0, stop, base));
                    }
                }
                let split = split_at_control(&mut cand, &mut segments, ids)?;
                proof {
                    assert forall|k: int| 0 <= k < queue@.len() implies #[trigger] item_ok(queue@[k], segments@) by {
                        assert(item_ok(queue@[k], segs0));
                    }
                }
                let ghost sg1 = segments@;
                let ghost n1 = ids.next();
                let ghost jopt: Option<Candidate> = split_join(split);
                let ghost split_at: int = split_index(split);
                let (end, join) = match split {
                    Some((end, join)) => (end, Some(join)),
                    None => (segments[cand.segment].len(), None),
                };
                let ghost cand1 = cand;
                let Candidate { label, input, segment, start, tail, cont_label } = cand;
                match tail {
                    ir::TailExpr::IfThenElse(cond, then_block, else_block) => {
                        let ghost tb = *then_block;
                        let ghost fb = *else_block;
                        proof {
                            if good {
                                lemma_if_branches(q0, sg0, stop, base, ifs0, n0, steps0, cand0, cand1, jopt,
                                    split_at, tb, fb, cond);
                            }
                        }
                        let then_label = fresh(ids)?;
                        let bb = BasicBlock {
                            label,
                            input,
                            segment,
                            start,
                            end,
                            cont: Cont::JumpIf { cond, then: then_label },
                        };
                        let ghost disc = QueueItem::Discovered(bb);
                        queue.push_front(QueueItem::Discovered(bb));
                        let ghost segs1 = segments@;
                        let mut else_cand = new_candidate(*else_block, stop, ids, &mut segments)?;
                        else_cand.cont_label = cont_label;
                        let ghost segs2 = segments@;
                        let ghost ne = ids.next();
                        let mut then_cand = new_candidate(*then_block, stop, ids, &mut segments)?;
                        then_cand.label = Some(then_label);
                        then_cand.cont_label = cont_label;
                        proof {
                            assert forall|k: int| 0 <= k < queue@.len() implies #[trigger] item_ok(queue@[k], segments@) by {
                                assert(item_ok(queue@[k], segs1));
                                assert(item_ok(queue@[k], segs2));
                            }
                        }
                        queue.push_front(QueueItem::Unvisited(else_cand));
                        queue.push_front(QueueItem::Unvisited(then_cand));
                        match join {
                            Some(j) => queue.push_front(QueueItem::Unvisited(j)),
                            None => {},
                        }
                        proof {
                            let th = QueueItem::Unvisited(then_cand);
                            let el = QueueItem::Unvisited(else_cand);
                            let tail3 = seq![th, el, disc];
                            let front = match jopt {
                                Some(j) => seq![QueueItem::Unvisited(j)] + tail3,
                                None => tail3,
                            };
                            let back = Seq::<QueueItem>::empty();
                            assert(queue@ =~= front + q0.drop_first() + back);
                            lemma_if_step(q0, queue@, sg0, sg1, segs2, segments@, stop, base, ifs0,
                                n0, n1, ne, ids.next(), steps0, good, cand0, cand1, jopt, split_at, tb, fb, cond,
                                then_cand, else_cand, bb, then_label);
                            assert(queue_blocks(queue@, segments@) == queue_blocks(q0, sg0)) by {
                                let head = match jopt {
                                    Some(j) => seq![QueueItem::Unvisited(j)],
                                    None => Seq::<QueueItem>::empty(),
                                };
                                assert(queue@ =~= head + tail3 + q0.drop_first());
                                lemma_qb_if(q0, sg0, sg1, segs2, segments@, cand0, jopt, split_at, tb, fb, then_cand,
                                    else_cand, bb, queue@);
                            }
                        }
                    },
                    ir::TailExpr::Apply(target, args) => {
                        if cont_label.is_some() {
                            return Err(CompileError::Unsupported);
                        }
                        let bb = BasicBlock {
                            label,
                            input,
                            segment,
                            start,
                            end,
                            cont: Cont::Jump(target, args),
                        };
                        queue.push_back(QueueItem::Finished(bb));
                        proof {
                            lemma_end_step(q0, queue@, sg0, segments@, stop, base, ifs0, n0, ids.next(), steps0,
                                good, cand0, bb);
                            assert(queue_blocks(queue@, segments@) == queue_blocks(q0, sg0)) by {
                                lemma_qb_basics(bb, segments@);
                                let ps = sg0[cand0.segment as int]@;
                                assert(forall|k: int| cand0.start <= k < ps.len() ==> !(#[trigger] ps[k].1 is IfThenElse));
                                lemma_qb_end_item(sg0, cand0);
                                lemma_qb_single(QueueItem::Finished(bb), segments@);
                                assert(queue_blocks(Seq::<QueueItem>::empty(), segments@) == 0);
                                assert(queue@ =~= Seq::<QueueItem>::empty() + q0.drop_first() + seq![QueueItem::Finished(bb)]);
                                lemma_qb_step(q0, queue@, Seq::<QueueItem>::empty(), seq![QueueItem::Finished(bb)], sg0, segments@);
                            }
                        }
                    },
                    ir::TailExpr::Jump(_, _) => {
                        return Err(CompileError::LocalFunction);
                    },
                    ir::TailExpr::Unit => {
                        let cont = match cont_label {
                            Some(c) => Cont::Jump(c, Vec::new()),
                            None => if stop.is_some() { Cont::Stop(None) } else { Cont::Ret(None) },
                        };
                        let bb = BasicBlock { label, input, segment, start, end, cont };
                        queue.push_back(QueueItem::Finished(bb));
                        proof {
                            lemma_end_step(q0, queue@, sg0, segments@, stop, base, ifs0, n0, ids.next(), steps0,
                                good, cand0, bb);
                            assert(queue_blocks(queue@, segments@) == queue_blocks(q0, sg0)) by {
                                lemma_qb_basics(bb, segments@);
                                let ps = sg0[cand0.segment as int]@;
                                assert(forall|k: int| cand0.start <= k < ps.len() ==> !(#[trigger] ps[k].1 is IfThenElse));
                                lemma_qb_end_item(sg0, cand0);
                                lemma_qb_single(QueueItem::Finished(bb), segments@);
                                assert(queue_blocks(Seq::<QueueItem>::empty(), segments@) == 0);
                                assert(queue@ =~= Seq::<QueueItem>::empty() + q0.drop_first() + seq![QueueItem::Finished(bb)]);
                                lemma_qb_step(q0, queue@, Seq::<QueueItem>::empty(), seq![QueueItem::Finished(bb)], sg0, segments@);
                            }
                        }
                    },
                    ir::TailExpr::Var(x) => {
                        let cont = match cont_label {
                            Some(c) => {
                                let mut args: Vec<Id> = Vec::new();
                                args.push(x);
                                Cont::Jump(c, args)
                            },
                            None => if stop.is_some() { Cont::Stop(Some(x)) } else { Cont::Ret(Some(x)) },
                        };
                        let bb = BasicBlock { label, input, segment, start, end, cont };
                        queue.push_back(QueueItem::Finished(bb));
                        proof {
                            lemma_end_step(q0, queue@, sg0, segments@, stop, base, ifs0, n0, ids.next(), steps0,
                                good, cand0, bb);
                            assert(queue_blocks(queue@, segments@) == queue_blocks(q0, sg0)) by {
                                lemma_qb_basics(bb, segments@);
                                let ps = sg0[cand0.segment as int]@;
                                assert(forall|k: int| cand0.start <= k < ps.len() ==> !(#[trigger] ps[k].1 is IfThenElse));
                                lemma_qb_end_item(sg0, cand0);
                                lemma_qb_single(QueueItem::Finished(bb), segments@);
                                assert(queue_blocks(Seq::<QueueItem>::empty(), segments@) == 0);
                                assert(queue@ =~= Seq::<QueueItem>::empty() + q0.drop_first() + seq![QueueItem::Finished(bb)]);
                                lemma_qb_step(q0, queue@, Seq::<QueueItem>::empty(), seq![QueueItem::Finished(bb)], sg0, segments@);
                            }
                        }
                    },
                }
            },
        }
    }
    let mut blocks: Vec<BasicBlock> = Vec::new();
    let mut labeled_blocks: HashMap<usize, usize> = HashMap::new();
    let ghost fq = queue@;
    let ghost next_end = ids.next();
    proof {
        if simple {
            assert(finished_straight(queue@[0], stop));
        }
        assert(queue@[0] is Finished);
        assert forall|i: int| 0 <= i < fq.len() implies #[trigger] fq[i] is Finished by {
            assert(fq[0] is Finished);
        }
        assert(queue@ =~= fq.subrange(0, fq.len() as int));
    }
    while queue.len() > 0
        invariant
            forall|k: int| 0 <= k < queue@.len() ==> #[trigger] item_ok(queue@[k], segments@),
            fq.len() >= 1,
            forall|i: int| 0 <= i < fq.len() ==> #[trigger] fq[i] is Finished,
            blocks@.len() + queue@.len() == fq.len(),
            queue@ == fq.subrange(blocks@.len() as int, fq.len() as int),
            forall|i: int| 0 <= i < blocks@.len() ==> #[trigger] fq[i] == QueueItem::Finished(blocks@[i]),
            blocks_in(blocks@, segments@),
            simple ==> queue@.len() + blocks@.len() == 1,
            simple ==> (queue@.len() == 1 ==> finished_straight(queue@[0], stop)),
            simple ==> forall|k: int| 0 <= k < blocks@.len() ==> #[trigger] straight_block(blocks@[k], stop),
            simple ==> labeled_blocks@ == Map::<usize, usize>::empty(),
            labels_indexed(blocks@, labeled_blocks@),
            cst ==> simple,
            cst ==> forall|k: int| 0 <= k < segments@.len() ==> #[trigger] const_priors(segments@[k]@),
            cst ==> segments@.len() == 1 && segments@[0]@ == body0.priors@,
            cst ==> (queue@.len() == 1 ==> whole_item(queue@[0], body0.priors@.len())),
            cst ==> forall|k: int| 0 <= k < blocks@.len() ==> #[trigger] whole_item(QueueItem::Finished(blocks@[k]), body0.priors@.len()),
            queue_blocks(queue@, segments@) + blocks@.len() == nb_block(body0),
        decreases queue@.len(),
    {
        assert(item_ok(queue@[0], segments@));
        let ghost q0 = queue@;
        let item = match queue.pop_front() {
            Some(item) => item,
            None => return Err(CompileError::Unsupported),
        };
        proof {
            assert(item == q0[0]);
            if simple {
                assert(finished_straight(item, stop));
            }
        }
        match item {
            QueueItem::Finished(bb) => {
                let ghost b0 = blocks@;
                let ghost m0 = labeled_blocks@;
                match bb.label {
                    Some(l) => {
                        labeled_blocks.insert(l.0, blocks.len());
                    },
                    None => {},
                }
                blocks.push(bb);
                proof {
                    assert(queue_blocks(queue@, segments@) + blocks@.len() == nb_block(body0)) by {
                        assert(queue@ =~= q0.drop_first());
                        lemma_qb_first(q0, segments@);
                        lemma_qb_basics(bb, segments@);
                    }
                    assert(q0[0] == fq[b0.len() as int]);
                    assert(queue@ =~= fq.subrange(blocks@.len() as int, fq.len() as int));
                    assert forall|i: int| 0 <= i < blocks@.len() implies #[trigger] fq[i] == QueueItem::Finished(blocks@[i]) by {
                        if i < b0.len() {
                            assert(blocks@[i] == b0[i]);
                        }
                    }
                    assert forall|k: int| 0 <= k < blocks@.len() implies (#[trigger] blocks@[k]).label matches Some(l)
                        ==> labeled_blocks@.contains_key(l.0) by {
                        if k < b0.len() {
                            assert(blocks@[k] == b0[k]);
                        }
                    }
                    assert forall|l: usize| #[trigger] labeled_blocks@.contains_key(l) implies labeled_blocks@[l] < blocks@.len()
                        && blocks@[labeled_blocks@[l] as int].label == Some(Id(l)) by {
                        if m0.contains_key(l) && labeled_blocks@[l] == m0[l] {
                            assert(blocks@[m0[l] as int] == b0[m0[l] as int]);
                        }
                    }
                }
            },
            _ => return Err(CompileError::Unsupported),
        }
    }
    proof {
        assert(blocks@.len() == nb_block(body0)) by {
            assert(queue@ =~= Seq::<QueueItem>::empty());
            lemma_qb_empty(segments@);
        }
    }
    let n = blocks.len();
    if n == 0 {
        return Err(CompileError::Unsupported);
    }
    let mut succs: Vec<Vec<usize>> = Vec::new();
    let mut b: usize = 0;
    while b < n
        invariant
            n == blocks@.len(),
            b <= n,
            succs@.len() == b,
            simple ==> n == 1,
            simple ==> forall|k: int| 0 <= k < blocks@.len() ==> #[trigger] straight_block(blocks@[k], stop),
            simple ==> labeled_blocks@ == Map::<usize, usize>::empty(),
            forall|v: int, j: int| 0 <= v < b && 0 <= j < succs@[v]@.len() ==> #[trigger] succs@[v]@[j] < v,
            labels_indexed(blocks@, labeled_blocks@),
            forall|v: int| 0 <= v < b ==> #[trigger] cont_succs(blocks@, v, succs@[v]@),
            fq.len() == n,
            forall|i: int| 0 <= i < n ==> #[trigger] fq[i] == QueueItem::Finished(blocks@[i]),
            good ==> lab_inv(fq, base, next_end),
        decreases n - b,
    {
        let mut row: Vec<usize> = Vec::new();
        proof {
            if simple {
                assert(straight_block(blocks@[b as int], stop));
            }
            if good {
                let bi = b as int;
                assert(fq[bi] == QueueItem::Finished(blocks@[bi]));
                assert(ref_ok(fq, bi, base));
                assert(refs_high(fq[bi], base));
                let l0 = item_ref(fq[bi]);
                if high_label(l0, base) {
                    let k = choose|k: int| 0 <= k < fq.len() && #[trigger] item_def(fq[k]) == l0
                        && (if fq[bi] is Finished { k < bi && fq[k] is Finished } else { k < bi || fq[k] is Finished });
                    assert(fq[k] == QueueItem::Finished(blocks@[k]));
                    assert(blocks@[k].label == l0);
                    let l = l0->0;
                    assert(labeled_blocks@.contains_key(l.0));
                    let i = labeled_blocks@[l.0];
                    assert(blocks@[i as int].label == Some(Id(l.0)));
                    assert(fq[i as int] == QueueItem::Finished(blocks@[i as int]));
                    if (i as int) != k {
                        if (i as int) < k {
                            assert(item_def(fq[i as int]) != item_def(fq[k]));
                        } else {
                            assert(item_def(fq[k]) != item_def(fq[i as int]));
                        }
                    }
                    assert(labeled_blocks@[l.0] < b);
                } else {
                    match blocks@[bi].cont {
                        Cont::Jump(t, _) => {
                            if labeled_blocks@.contains_key(t.0) {
                                let i = labeled_blocks@[t.0];
                                assert(blocks@[i as int].label == Some(Id(t.0)));
                                assert(fq[i as int] == QueueItem::Finished(blocks@[i as int]));
                                assert(item_def(fq[i as int]) == Some(t));
                            }
                        },
                        _ => {},
                    }
                }
            }
        }
        match &blocks[b].cont {
            Cont::Stop(_) | Cont::Ret(_) => {},
            Cont::Jump(target, _) => {
                match labeled_blocks.get(&target.0) {
                    Some(i) => {
                        if *i >= b {
                            return Err(CompileError::Unsupported);
                        }
                        row.push(*i);
                    },
                    None => {},
                }
            },
            Cont::JumpIf { then, .. } => {
                match labeled_blocks.get(&then.0) {
                    Some(i) => {
                        if *i >= b || b == 0 {
                            return Err(CompileError::Unsupported);
                        }
                        row.push(*i);
                        row.push(b - 1);
                    },
                    None => return Err(CompileError::Unsupported),
                }
            },
        }
        proof {
            match blocks@[b as int].cont {
                Cont::Jump(t, _) => {
                    if !labeled_blocks@.contains_key(t.0) {
                        assert forall|k: int| 0 <= k < blocks@.len() implies (#[trigger] blocks@[k]).label != Some(t) by {
                            if blocks@[k].label == Some(t) {
                                assert(labeled_blocks@.contains_key(t.0));
                            }
                        }
                    }
                },
                _ => {},
            }
            assert(cont_succs(blocks@, b as int, row@));
        }
        let ghost s0 = succs@;
        succs.push(row);
        proof {
            assert forall|v: int| 0 <= v < b + 1 implies #[trigger] cont_succs(blocks@, v, succs@[v]@) by {
                if v < b {
                    assert(succs@[v] == s0[v]);
                }
            }
        }
        b = b + 1;
    }
    proof {
        assert forall|v: int, j: int| 0 <= v < lists_view(succs@).len() && 0 <= j < lists_view(succs@)[v].len()
            implies #[trigger] lists_view(succs@)[v][j] < lists_view(succs@).len() by {
            assert(succs@[v]@[j] < v);
        }
    }
    let preds = predecessor_edges(&succs);
    proof {
        assert forall|p: int, i: int| 0 <= p < preds@.len() && 0 <= i < preds@[p].len()
            implies #[trigger] preds@[p][i] < preds@.len() by {
            crate::graph::lemma_predecessors_in_range(lists_view(succs@), p as usize);
        }
    }
    proof {
        if simple {
            assert(straight_block(blocks@[0], stop));
        }
    }
    let cfg = ProcCfg { blocks, segments, labeled_blocks, succs, preds };
    assert(cfg.blocks_view() == blocks@);
    proof {
        assert(cfg.block_count() == nb_block(body0));
        if cst {
            let bb = blocks@[0];
            assert(whole_item(QueueItem::Finished(blocks@[0]), body0.priors@.len()));
            assert(cfg.block_priors(0) =~= body0.priors@);
        }
        assert forall|b: int| 0 <= b < cfg.block_count() implies #[trigger] cont_succs(cfg.blocks_view(), b, cfg.succ_lists()[b]) by {
            assert(cfg.succ_lists()[b] == cfg.succs@[b]@);
        }
    }
    Ok(cfg)
}


/// What the code generator knows of a procedure: each block's liveness and
/// pinning, and the dominator tree.
/// The variables every block defines and reads, in order.
pub open spec fn instr_table(proc: &ProcCfg) -> Seq<Seq<(usize, DefUse)>> {
    Seq::new(proc.block_count(), |b: int| block_instrs(proc.blocks_view()[b], proc.block_priors(b))
        .map_values(|x: (InstrIdx, (usize, DefUse))| x.1))
}

pub struct ProcAnalysis {
    liveness: Vec<BlockLiveness>,
    pinning: Vec<Pinning>,
    dom_tree: Tree,
}

impl ProcAnalysis {
    pub closed spec fn wf(&self, n: nat) -> bool {
        &&& self.liveness@.len() == n
        &&& self.pinning@.len() == n
        &&& forall|b: int| 0 <= b < n ==> #[trigger] self.liveness@[b].wf()
        &&& forall|b: int| 0 <= b < n ==> #[trigger] self.pinning@[b].wf()
        &&& self.dom_tree.wf()
        &&& self.dom_tree.parents().len() == n
    }

    pub closed spec fn liveness_at(&self, b: int) -> BlockLiveness {
        self.liveness@[b]
    }

    pub closed spec fn pinning_at(&self, b: int) -> Pinning {
        self.pinning@[b]
    }

    pub closed spec fn tree(&self) -> Tree {
        self.dom_tree
    }

    pub fn liveness(&self, block_id: CfgId) -> (r: &BlockLiveness)
        requires
            self.wf(self.tree().parents().len()),
            block_id.0 < self.tree().parents().len(),
        ensures
            *r == self.liveness_at(block_id.0 as int),
            r.wf(),
    {
        &self.liveness[block_id.0]
    }

    pub fn pinning(&self, block_id: CfgId) -> (r: &Pinning)
        requires
            self.wf(self.tree().parents().len()),
            block_id.0 < self.tree().parents().len(),
        ensures
            *r == self.pinning_at(block_id.0 as int),
            r.wf(),
    {
        &self.pinning[block_id.0]
    }

    pub fn dom_tree(&self) -> (r: &Tree)
        ensures
            *r == self.tree(),
    {
        &self.dom_tree
    }
}

/// Liveness, dominator tree and pinning of a procedure's graph, with the
/// blocks taken in their own (post)order.
#[verifier::spinoff_prover]
pub fn analyze(proc: &ProcCfg) -> (r: Result<ProcAnalysis, CompileError>)
    requires
        proc.wf(),
    ensures
        match r {
            Ok(a) => {
                &&& a.wf(proc.block_count())
                &&& a.tree().root() == proc.block_count() - 1
                &&& exists|order: NodeOrder| {
                    &&& order.wf()
                    &&& order@ == Seq::new(proc.block_count(), |i: int| i as usize)
                    &&& forall|b: int| 0 <= b < proc.block_count() ==> (#[trigger] a.liveness_at(b).vars(), a.liveness_at(b).used())
                        == analysis::block_live(proc.succ_lists(), instr_table(proc), &order, b)
                }
                &&& exists|pins: Seq<bool>| {
                    &&& #[trigger] analysis::pins_solution(proc.succ_lists(), &a.tree(), pins, proc.block_count())
                    &&& analysis::pins_least(proc.succ_lists(), &a.tree(), pins, proc.block_count())
                    &&& forall|b: int| 0 <= b < proc.block_count() ==> #[trigger] a.pinning_at(b)@
                        == analysis::pinned_upto(&a.tree(), pins, proc.block_count(), Seq::new(proc.block_count(),
                            |t: int| a.liveness_at(t)), b, proc.block_count() as int)
                }
                &&& proc.block_count() <= usize::MAX - 64
                &&& (forall|v: int| 0 <= v < proc.block_count() - 1 ==> #[trigger] proc.pred_lists()[v].len() > 0)
                    ==> forall|v: usize| (v as int) < proc.block_count() - 1
                    ==> (#[trigger] a.tree().parents()[v as int] matches Some(u)
                        && crate::graph::immediate_dominator(proc.pred_lists(), (proc.block_count() - 1) as usize, u, v))
            },
            Err(e) => e == CompileError::Unsupported && proc.block_count() > usize::MAX - 64,
        },
{
    let n = proc.blocks.len();
    let order = NodeOrder::identity(n);
    proof {
        order.lemma_pos();
        assert forall|v: usize| (v as int) < n implies #[trigger] order.pos(v) == v as int by {
            assert(order@[order.pos(v)] == v);
        }
    }
    let mut instrs: Vec<Vec<(usize, DefUse)>> = Vec::new();
    let mut b: usize = 0;
    while b < n
        invariant
            proc.wf(),
            n == proc.block_count(),
            b <= n,
            instrs@.len() == b,
            forall|c: int| 0 <= c < b ==> #[trigger] instrs@[c]@ == instr_table(proc)[c],
        decreases n - b,
    {
        let (idxs, ins) = proc.instructions(CfgId(b));
        proof {
            let want = block_instrs(proc.blocks_view()[b as int], proc.block_priors(b as int));
            assert(ins@ =~= want.map_values(|x: (InstrIdx, (usize, DefUse))| x.1));
        }
        instrs.push(ins);
        b = b + 1;
    }
    proof {
        assert(analysis::lists_view_pairs(instrs@) =~= instr_table(proc));
    }
    proof {
        assert forall|v: int, j: int| 0 <= v < lists_view(proc.succs@).len() && 0 <= j < lists_view(proc.succs@)[v].len()
            implies order.pos(#[trigger] lists_view(proc.succs@)[v][j]) < order.pos(v as usize) by {
            assert(proc.succs@[v]@[j] < v);
            assert(order.pos(v as usize) == v);
            assert(order.pos(proc.succs@[v]@[j]) == proc.succs@[v]@[j]);
        }
    }
    let liveness = analysis::liveness(&proc.succs, &instrs, &order);
    let entry = n - 1;
    let ghost all_reached = forall|v: int| 0 <= v < n - 1 ==> #[trigger] proc.pred_lists()[v].len() > 0;
    proof {
        assert(proc.preds@ =~= proc.pred_lists());
        assert forall|v: usize, i: int| (v as int) < proc.preds@.len() && 0 <= i < proc.preds@[v as int].len()
            implies order.pos(v) < order.pos(#[trigger] proc.preds@[v as int][i]) by {
            let u = proc.preds@[v as int][i];
            assert(proc.preds@[v as int].contains(u));
            crate::graph::lemma_predecessors_contains(lists_view(proc.succs@), v, u);
            let j = choose|j: int| 0 <= j < lists_view(proc.succs@)[u as int].len() && lists_view(proc.succs@)[u as int][j] == v;
            assert(proc.succs@[u as int]@[j] < u);
            assert(order.pos(v) == v);
            assert(order.pos(u) == u);
        }
        assert(crate::graph::preds_later(proc.preds@, &order));
        if all_reached {
            assert forall|v: usize| (v as int) < order@.len() && v != entry
                implies #[trigger] crate::graph::has_later_source(proc.preds@, &order, v) by {
                assert(proc.pred_lists()[v as int].len() > 0);
                let u = proc.preds@[v as int][0];
                assert(proc.preds@[v as int].contains(u));
                assert(order.pos(v) < order.pos(proc.preds@[v as int][0]));
                assert((u as int) < n);
            }
            assert(order@[n - 1] == entry);
            assert(crate::graph::spanning_order(proc.preds@, entry, &order));
        }
    }
    let parents = idom(&proc.preds, entry, &order);
    let dom_tree = Tree::new(entry, parents);
    if n > usize::MAX - 64 {
        return Err(CompileError::Unsupported);
    }
    proof {
        assert forall|t: int| 0 <= t < n implies #[trigger] liveness@[t].wf() by {
            assert(liveness@[t as usize as int].wf());
        }
    }
    let pinning = analysis::pinning(&proc.succs, &proc.preds, &order, &dom_tree, &liveness);
    proof {
        let pins = choose|pins: Seq<bool>| {
            &&& #[trigger] analysis::pins_solution(lists_view(proc.succs@), &dom_tree, pins, proc.succs@.len())
            &&& forall|b: int| 0 <= b < proc.succs@.len() ==> #[trigger] pinning@[b].wf()
                && pinning@[b]@ == analysis::pinned_upto(&dom_tree, pins, proc.succs@.len(), liveness@, b, proc.succs@.len() as int)
        };
        assert forall|b: int| 0 <= b < n implies #[trigger] pinning@[b].wf() by {}
        assert forall|b: int| 0 <= b < n implies #[trigger] liveness@[b].wf() by {
            assert(liveness@[b as usize as int].wf());
        }
    }
    let a = ProcAnalysis { liveness, pinning, dom_tree };
    proof {
        assert forall|b: int| 0 <= b < n implies (#[trigger] a.liveness_at(b).vars(), a.liveness_at(b).used())
            == analysis::block_live(proc.succ_lists(), instr_table(proc), &order, b) by {
            assert(order.pos(b as usize) == b);
            assert(liveness@[b as usize as int].wf());
            assert(a.liveness_at(b) == liveness@[b as usize as int]);
        }
        assert(Seq::new(proc.block_count(), |t: int| a.liveness_at(t)) =~= a.liveness@);
        assert(a.tree().root() == proc.block_count() - 1);
        assert(order@ =~= Seq::new(proc.block_count(), |i: int| i as usize));
        let pins = choose|pins: Seq<bool>| {
            &&& #[trigger] analysis::pins_solution(lists_view(proc.succs@), &dom_tree, pins, proc.succs@.len())
            &&& analysis::pins_least(lists_view(proc.succs@), &dom_tree, pins, proc.succs@.len())
            &&& forall|b: int| 0 <= b < proc.succs@.len() ==> #[trigger] pinning@[b].wf()
                && pinning@[b]@ == analysis::pinned_upto(&dom_tree, pins, proc.succs@.len(), liveness@, b, proc.succs@.len() as int)
        };
        assert(analysis::pins_solution(proc.succ_lists(), &a.tree(), pins, proc.block_count()));
        assert(analysis::pins_least(proc.succ_lists(), &a.tree(), pins, proc.block_count()));
        assert forall|b: int| 0 <= b < proc.block_count() implies #[trigger] a.pinning_at(b)@
            == analysis::pinned_upto(&a.tree(), pins, proc.block_count(), Seq::new(proc.block_count(),
                |t: int| a.liveness_at(t)), b, proc.block_count() as int) by {
            assert(pinning@[b].wf());
        }
    }
    Ok(a)
}

/// `k` is the last position of `w` at which variable `x` is defined or
/// used.
pub open spec fn last_at(w: Seq<(InstrIdx, (usize, DefUse))>, x: usize, k: int) -> bool {
    &&& 0 <= k < w.len()
    &&& w[k].1.0 == x
    &&& forall|j: int| k < j < w.len() ==> #[trigger] w[j].1.0 != x
}

/// Each variable's last instruction in a block.
fn collect_last_use(proc: &ProcCfg, block_id: CfgId) -> (r: VarMap<InstrIdx>)
    requires
        proc.wf(),
        block_id.0 < proc.block_count(),
    ensures
        r.wf(),
        ({
            let w = block_instrs(proc.blocks_view()[block_id.0 as int], proc.block_priors(block_id.0 as int));
            &&& forall|x: usize| #[trigger] r@.contains_key(x) <==> exists|k: int| 0 <= k < w.len() && w[k].1.0 == x
            &&& forall|x: usize| #[trigger] r@.contains_key(x) ==> exists|k: int| last_at(w, x, k) && w[k].0 == r@[x]
        }),
{
    let (idxs, ins) = proc.instructions(block_id);
    let ghost w = block_instrs(proc.blocks_view()[block_id.0 as int], proc.block_priors(block_id.0 as int));
    let mut last_use: VarMap<InstrIdx> = VarMap::new();
    let mut i = ins.len();
    while i > 0
        invariant
            last_use.wf(),
            i <= ins@.len(),
            zipped(idxs@, ins@, w),
            forall|x: usize| #[trigger] last_use@.contains_key(x) <==> exists|k: int| i <= k < w.len() && w[k].1.0 == x,
            forall|x: usize| #[trigger] last_use@.contains_key(x) ==> exists|k: int| last_at(w, x, k) && w[k].0 == last_use@[x],
        decreases i,
    {
        i = i - 1;
        let x = ins[i].0;
        proof {
            assert(ins@[i as int] == w[i as int].1);
            assert(idxs@[i as int] == w[i as int].0);
        }
        let ghost m0 = last_use@;
        if !last_use.contains_key(x) {
            last_use.insert(x, idxs[i]);
            proof {
                assert(last_at(w, x, i as int)) by {
                    assert forall|j: int| i < j < w.len() implies #[trigger] w[j].1.0 != x by {
                        if w[j].1.0 == x {
                            assert(m0.contains_key(x));
                        }
                    }
                }
            }
        }
        proof {
            assert forall|y: usize| #[trigger] last_use@.contains_key(y) <==> exists|k: int| i <= k < w.len() && w[k].1.0 == y by {
                if y == x {
                    assert(w[i as int].1.0 == y);
                } else if exists|k: int| i <= k < w.len() && w[k].1.0 == y {
                    let k = choose|k: int| i <= k < w.len() && w[k].1.0 == y;
                    assert(k > i);
                    assert(m0.contains_key(y));
                }
            }
            assert forall|y: usize| #[trigger] last_use@.contains_key(y) implies exists|k: int| last_at(w, y, k) && w[k].0 == last_use@[y] by {
                if y == x && !m0.contains_key(x) {
                    assert(last_at(w, x, i as int) && w[i as int].0 == last_use@[x]);
                } else {
                    assert(m0.contains_key(y));
                }
            }
        }
    }
    last_use
}

/// Where a slot stands when control leaves a block.
#[derive(Clone, Copy, Debug, PartialEq, Eq, Structural)]
pub enum ContMoveKind {
    /// Pinned at exit only: may move, but must stay.
    PinOut,
    /// Needed later, not pinned.
    Unpinned,
    /// Not needed any more.
    Dead,
}

/// Whether `x` is used for the last time at instruction `at` of the block.
fn is_last_use(liveness: &BlockLiveness, last_use: &VarMap<InstrIdx>, x: Id, at: InstrIdx) -> (r: Result<bool, CompileError>)
    requires
        liveness.wf(),
        last_use.wf(),
    ensures
        r == (if liveness.vars().contains_key(x.0) && liveness.vars()[x.0].live_out {
            Ok::<bool, CompileError>(false)
        } else if last_use@.contains_key(x.0) {
            Ok::<bool, CompileError>(last_use@[x.0] == at)
        } else {
            Err::<bool, CompileError>(CompileError::Unsupported)
        }),
{
    if liveness.live_out(x.0) {
        return Ok(false);
    }
    match last_use.get(x.0) {
        Some(i) => Ok(i == at),
        None => Err(CompileError::Unsupported),
    }
}

/// Whether the top of the stack holds a value pinned through the block.
fn is_stack_top_pinned(stack: &Stack<Id>, pinning: &Pinning) -> (r: bool)
    requires
        pinning.wf(),
    ensures
        r == (stack@.len() > 0 && pinned_through(pinning, stack@.last())),
{
    match stack.read(0) {
        Some(y) => pinning.is_pinned(y.0),
        None => false,
    }
}

proof fn lemma_prefix_trans(a: Seq<Instr>, b: Seq<Instr>, c: Seq<Instr>)
    requires
        a.is_prefix_of(b),
        b.is_prefix_of(c),
    ensures
        a.is_prefix_of(c),
        forall|i: int| 0 <= i < b.len() ==> #[trigger] c[i] == b[i],
{
    assert forall|i: int| 0 <= i < b.len() implies #[trigger] c[i] == b[i] by {
        assert(c.subrange(0, b.len() as int)[i] == c[i]);
    }
    assert(c.subrange(0, a.len() as int) =~= a) by {
        assert forall|i: int| 0 <= i < a.len() implies c.subrange(0, a.len() as int)[i] == a[i] by {
            assert(b.subrange(0, a.len() as int)[i] == b[i]);
        }
    }
}

proof fn lemma_prefix_push(a: Seq<Instr>, b: Seq<Instr>, x: Instr)
    requires
        a.is_prefix_of(b),
    ensures
        a.is_prefix_of(b.push(x)),
{
    assert(b.is_prefix_of(b.push(x))) by {
        assert(b.push(x).subrange(0, b.len() as int) =~= b);
    }
    lemma_prefix_trans(a, b, b.push(x));
}

/// `s` with its top slot and the slot `d` below the top exchanged.
pub open spec fn swapped(s: Seq<Option<Id>>, d: int) -> Seq<Option<Id>> {
    s.update(s.len() - 1 - d, s.last()).update(s.len() - 1, s[s.len() - 1 - d])
}

/// The uppermost slot of `s` that holds `x` is `d` below the top.
pub open spec fn topmost(s: Seq<Option<Id>>, x: Id, d: int) -> bool {
    &&& 0 <= d < s.len()
    &&& s[s.len() - 1 - d] == Some(x)
    &&& forall|j: int| s.len() - 1 - d < j < s.len() ==> s[j] != Some(x)
}

/// The stack after `compile_var` brings the value `d` below the top up,
/// named `name` (moved: taken out of its slot; else copied), and sinks it
/// `td` slots.
pub open spec fn var_placed(s: Seq<Option<Id>>, d: int, name: Option<Id>, td: int, mv: bool) -> Seq<Option<Id>> {
    let s1 = if mv {
        (if d > 0 { swapped(s, d) } else { s }).drop_last()
    } else {
        s
    };
    let s2 = s1.push(name);
    if td > 0 { swapped(s2, td) } else { s2 }
}

/// The instructions `compile_var` emits for that.
pub open spec fn var_code(d: int, td: int, mv: bool) -> Seq<Instr> {
    (if mv {
        if d > 0 { seq![Instr::Swap(d as usize)] } else { Seq::empty() }
    } else {
        seq![Instr::Dup(d as usize)]
    }) + (if td > 0 { seq![Instr::Swap(td as usize)] } else { Seq::empty() })
}

/// Every instruction of `c` from `from` on only rearranges the stack: a
/// swap, a copy or a pop.
pub open spec fn stack_moves(c: Seq<Instr>, from: int) -> bool {
    forall|i: int| from <= i < c.len() ==> (#[trigger] c[i] is Swap || c[i] is Dup || c[i] is Pop)
}

/// How far below the top the uppermost slot holding `x` is, if any does.
fn find_depth(stack: &Stack<Id>, x: Id) -> (r: Option<usize>)
    ensures
        match r {
            Some(d) => topmost(stack@, x, d as int),
            None => !stack@.contains(Some(x)),
        },
{
    let contents = stack.contents();
    let n = contents.len();
    let mut i = n;
    while i > 0
        invariant
            i <= n,
            n == stack@.len(),
            contents@ == stack@,
            forall|j: int| i <= j < n ==> stack@[j] != Some(x),
        decreases i,
    {
        match contents[i - 1] {
            Some(y) => {
                if y.0 == x.0 {
                    return Some(n - i);
                }
            },
            None => {},
        }
        i = i - 1;
    }
    None
}

fn swap_checked(stack: &mut Stack<Id>, depth: usize, code: &mut Vec<Instr>) -> (r: Result<(), CompileError>)
    requires
        old(stack).wf(),
    ensures
        final(stack).wf(),
        final(stack).saved() == old(stack).saved(),
        r is Ok <==> depth < old(stack)@.len(),
        r is Ok ==> final(stack)@ == swapped(old(stack)@, depth as int)
            && final(code)@ == old(code)@.push(Instr::Swap(depth)),
        r matches Err(e) ==> e == CompileError::Unsupported && final(stack)@ == old(stack)@
            && final(code)@ == old(code)@,
        old(code)@.is_prefix_of(final(code)@),
{
    proof {
        assert(code@.subrange(0, code@.len() as int) =~= code@);
        assert(code@.push(Instr::Swap(depth)).subrange(0, code@.len() as int) =~= code@);
    }
    if depth >= stack.len() {
        return Err(CompileError::Unsupported);
    }
    code.push(Instr::Swap(depth));
    stack.swap(depth);
    Ok(())
}

fn popn_checked(stack: &mut Stack<Id>, count: usize) -> (r: Result<(), CompileError>)
    requires
        old(stack).wf(),
    ensures
        final(stack).wf(),
        final(stack).saved() == old(stack).saved(),
        r is Ok <==> count <= old(stack)@.len(),
        r is Ok ==> final(stack)@ == old(stack)@.take(old(stack)@.len() - count),
        r matches Err(e) ==> e == CompileError::Unsupported && final(stack)@ == old(stack)@,
{
    if count > stack.len() {
        return Err(CompileError::Unsupported);
    }
    stack.popn(count);
    Ok(())
}

fn push_output(stack: &mut Stack<Id>, output: Option<Id>)
    requires
        old(stack).wf(),
    ensures
        final(stack).wf(),
        final(stack).saved() == old(stack).saved(),
        final(stack)@ == (match output {
            Some(y) => old(stack)@.push(Some(y)),
            None => old(stack)@,
        }),
{
    match output {
        Some(y) => stack.push(Some(y)),
        None => {},
    }
}

/// Brings `x` to the top of the stack, named `name`: moved if
/// `should_move`, else copied; then sunk `target_depth` slots.
fn compile_var(
    x: Id,
    name: Option<Id>,
    target_depth: usize,
    should_move: bool,
    stack: &mut Stack<Id>,
    code: &mut Vec<Instr>,
) -> (r: Result<(), CompileError>)
    requires
        old(stack).wf(),
    ensures
        final(stack).wf(),
        final(stack).saved() == old(stack).saved(),
        r is Ok <==> old(stack)@.contains(Some(x)) && (target_depth == 0
            || target_depth < old(stack)@.len() + if should_move { 0int } else { 1int }),
        r is Ok ==> exists|d: int| #[trigger] topmost(old(stack)@, x, d)
            && final(stack)@ == var_placed(old(stack)@, d, name, target_depth as int, should_move)
            && final(code)@ == old(code)@ + var_code(d, target_depth as int, should_move),
        r matches Err(e) ==> e == CompileError::Unsupported,
        old(code)@.is_prefix_of(final(code)@),
{
    let ghost s0 = stack@;
    let ghost c0 = code@;
    let depth = match find_depth(stack, x) {
        Some(d) => d,
        None => {
            assert(c0.is_prefix_of(code@)) by {
                assert(code@.subrange(0, c0.len() as int) =~= c0);
            }
            return Err(CompileError::Unsupported);
        },
    };
    proof {
        assert(s0.contains(Some(x))) by {
            assert(s0[s0.len() - 1 - depth] == Some(x));
        }
    }
    if should_move {
        if depth > 0 {
            match swap_checked(stack, depth, code) {
                Ok(()) => {},
                Err(e) => return Err(e),
            }
        }
        match popn_checked(stack, 1) {
            Ok(()) => {},
            Err(e) => return Err(e),
        }
    } else {
        code.push(Instr::Dup(depth));
    }
    let ghost s1 = stack@;
    let ghost c1 = code@;
    stack.push(name);
    if target_depth > 0 {
        match swap_checked(stack, target_depth, code) {
            Ok(()) => {},
            Err(e) => {
                assert(c0.is_prefix_of(code@)) by {
                    assert(code@.subrange(0, c0.len() as int) =~= c0);
                }
                return Err(e);
            },
        }
    }
    proof {
        assert(topmost(s0, x, depth as int));
        assert(stack@ == var_placed(s0, depth as int, name, target_depth as int, should_move));
        assert(code@ =~= c0 + var_code(depth as int, target_depth as int, should_move));
        assert(code@.subrange(0, c0.len() as int) =~= c0);
    }
    Ok(())
}

/// Whether every argument in `args` is on the stack `s` and either lives on
/// past the block or has a recorded last use.
pub open spec fn args_available(
    args: Seq<Id>,
    s: Seq<Option<Id>>,
    liveness: &BlockLiveness,
    last_use: &VarMap<InstrIdx>,
) -> bool {
    forall|k: int| 0 <= k < args.len() ==> s.contains(Some(#[trigger] args[k]))
        && ((liveness.vars().contains_key(args[k].0) && liveness.vars()[args[k].0].live_out)
            || last_use@.contains_key(args[k].0))
}

/// How many entries of `s` are `true`.
pub open spec fn count_true(s: Seq<bool>) -> nat
    decreases s.len(),
{
    if s.len() == 0 {
        0
    } else {
        count_true(s.drop_last()) + if s.last() { 1nat } else { 0nat }
    }
}

/// Bringing a value up as `compile_var` does keeps every other value on
/// the stack, and a moved value's slot is the only one it empties.
proof fn lemma_var_placed_keeps(s: Seq<Option<Id>>, x: Id, d: int, td: int, mv: bool, v: Option<Id>)
    requires
        topmost(s, x, d),
        s.contains(v),
        mv ==> v != Some(x),
        td == 0 || 0 < td < s.len() + (if mv { 0int } else { 1int }),
    ensures
        var_placed(s, d, None, td, mv).contains(v),
        var_placed(s, d, None, td, mv).len() == s.len() + (if mv { 0int } else { 1int }),
{
    let s0 = if mv && d > 0 { swapped(s, d) } else { s };
    if mv && d > 0 {
        lemma_swapped_contains(s, d);
        assert(s0 == swapped(s, d));
    }
    assert(s0.contains(v));
    assert(s0.len() == s.len());
    let s1 = if mv { s0.drop_last() } else { s0 };
    assert(s1.contains(v)) by {
        if mv {
            assert(s0[s0.len() - 1] == Some(x));
            let i = choose|i: int| 0 <= i < s0.len() && s0[i] == v;
            assert(i != s0.len() - 1);
            assert(s1[i] == s0[i]);
        }
    }
    let s2 = s1.push(None::<Id>);
    assert(s2.contains(v)) by {
        let i = choose|i: int| 0 <= i < s1.len() && s1[i] == v;
        assert(s2[i] == v);
    }
    if td > 0 {
        lemma_swapped_contains(s2, td);
    }
}

/// Puts the arguments on the stack, the first on top, moving those used
/// for the last time where that keeps pinned values in place; a return
/// label, if given, goes below them.
fn compile_args(
    args: &[Id],
    ret_label: Option<Id>,
    at: InstrIdx,
    liveness: &BlockLiveness,
    last_use: &VarMap<InstrIdx>,
    pinning: &Pinning,
    stack: &mut Stack<Id>,
    code: &mut Vec<Instr>,
) -> (r: Result<(), CompileError>)
    requires
        old(stack).wf(),
        liveness.wf(),
        last_use.wf(),
        pinning.wf(),
    ensures
        final(stack).wf(),
        final(stack).saved() == old(stack).saved(),
        old(code)@.is_prefix_of(final(code)@),
        r is Ok ==> old(stack)@.len() + (if ret_label is Some { 1int } else { 0int }) <= final(stack)@.len()
            <= old(stack)@.len() + (if ret_label is Some { 1int } else { 0int }) + args@.len(),
        r is Ok ==> (ret_label matches Some(l) ==> final(code)@.len() > old(code)@.len()
            && final(code)@[old(code)@.len() as int] == Instr::PushLabel(l)),
        args_available(args@, old(stack)@, liveness, last_use) ==> r is Ok
            && final(stack)@.len() >= args@.len() + (if ret_label is Some { 1int } else { 0int }),
        r is Ok && ret_label is None ==> stack_moves(final(code)@, old(code)@.len() as int),
{
    let ghost c0 = code@;
    let ghost s_in = stack@;
    let ghost all_ok = args_available(args@, s_in, liveness, last_use);
    let ghost mut moved: Seq<Option<Id>> = Seq::empty();
    let ghost mut midx: Seq<int> = Seq::empty();
    let mut should_moves: Vec<bool> = Vec::new();
    let mut target_depths: Vec<usize> = Vec::new();
    let mut move_count: usize = 0;
    let mut allow_moves = true;
    let mut i: usize = 0;
    proof {
        s_in.lemma_cardinality_of_set();
    }
    while i < args.len()
        invariant
            i <= args@.len(),
            should_moves@.len() == i,
            target_depths@.len() == i,
            move_count <= i,
            liveness.wf(),
            last_use.wf(),
            pinning.wf(),
            stack.wf(),
            stack.saved() == old(stack).saved(),
            stack@ == s_in,
            s_in == old(stack)@,
            code@ == c0,
            all_ok == args_available(args@, s_in, liveness, last_use),
            s_in.to_set().len() <= s_in.len(),
            move_count == count_true(should_moves@),
            moved.len() == move_count,
            midx.len() == move_count,
            moved.no_duplicates(),
            forall|m: int| 0 <= m < moved.len() ==> 0 <= #[trigger] midx[m] < i
                && moved[m] == Some(args@[midx[m]]),
            all_ok ==> move_count <= s_in.len(),
            forall|k: int| 0 <= k < i ==> #[trigger] target_depths@[k] + (if should_moves@[k] { 1int } else { 0int })
                <= move_count,
            forall|k: int, l: int| #![trigger should_moves@[k], args@[l]] 0 <= l < k < i && should_moves@[k] ==> args@[l].0 != args@[k].0,
        decreases args@.len() - i,
    {
        let arg = args[i];
        let target_depth = move_count;
        let mut seen_before = false;
        let mut k: usize = 0;
        while k < i
            invariant
                k <= i,
                i < args@.len(),
                arg == args@[i as int],
                seen_before == exists|l: int| 0 <= l < k && (#[trigger] args@[l]).0 == arg.0,
            decreases i - k,
        {
            if args[k].0 == arg.0 {
                seen_before = true;
            }
            k = k + 1;
        }
        proof {
            if all_ok {
                assert(s_in.contains(Some(args@[i as int])));
            }
        }
        let can_move = allow_moves && is_last_use(liveness, last_use, arg, at)? && !seen_before;
        let should_move = can_move && match stack.read(move_count) {
            Some(y) => !pinning.is_pinned(y.0),
            None => true,
        };
        if can_move && !should_move {
            allow_moves = false;
        }
        let ghost sm0 = should_moves@;
        should_moves.push(should_move);
        target_depths.push(target_depth);
        proof {
            assert(should_moves@.drop_last() =~= sm0);
        }
        if should_move {
            proof {
                assert forall|m: int| 0 <= m < moved.len() implies moved[m] != Some(arg) by {
                    assert(args@[midx[m]].0 != arg.0);
                }
                let old_moved = moved;
                moved = moved.push(Some(arg));
                midx = midx.push(i as int);
                assert forall|a: int, b: int| 0 <= a < b < moved.len() implies moved[a] != moved[b] by {
                    if b < old_moved.len() {
                        assert(old_moved[a] != old_moved[b]);
                    }
                }
                if all_ok {
                    assert forall|v: Option<Id>| moved.to_set().contains(v) implies s_in.to_set().contains(v) by {
                        let m = choose|m: int| 0 <= m < moved.len() && moved[m] == v;
                        assert(s_in.contains(Some(args@[midx[m]])));
                    }
                    moved.unique_seq_to_set();
                    vstd::seq_lib::seq_to_set_is_finite(s_in);
                    vstd::set_lib::lemma_len_subset(moved.to_set(), s_in.to_set());
                }
            }
            move_count = move_count + 1;
        }
        i = i + 1;
    }
    assert(code@ == c0);
    let ghost s0 = stack@;
    match ret_label {
        Some(ret) => {
            code.push(Instr::PushLabel(ret));
            stack.push(None);
            if move_count > 0 {
                match swap_checked(stack, move_count, code) {
                    Ok(()) => {},
                    Err(e) => {
                        proof {
                            lemma_prefix_push(c0, code@.drop_last(), code@.last());
                            assert(code@.drop_last().push(code@.last()) =~= code@);
                        }
                        return Err(e);
                    },
                }
            }
        },
        None => {},
    }
    let ghost base = stack@.len();
    proof {
        assert(c0.is_prefix_of(code@)) by {
            assert(code@.subrange(0, c0.len() as int) =~= c0);
        }
        assert(base == s0.len() + if ret_label is Some { 1int } else { 0int });
        if all_ok {
            assert forall|k: int| 0 <= k < args@.len() implies stack@.contains(Some(#[trigger] args@[k])) by {
                assert(s0.contains(Some(args@[k])));
                if ret_label is Some {
                    let t = s0.push(None::<Id>);
                    let w = choose|w: int| 0 <= w < s0.len() && s0[w] == Some(args@[k]);
                    assert(t[w] == Some(args@[k]));
                    if move_count > 0 {
                        lemma_swapped_contains(t, move_count as int);
                    }
                }
            }
        }
        assert(should_moves@.take(args@.len() as int) =~= should_moves@);
    }
    let ghost mut md: int = 0;
    let mut j = args.len();
    while j > 0
        invariant
            j <= args@.len(),
            should_moves@.len() == args@.len(),
            target_depths@.len() == args@.len(),
            stack.wf(),
            stack.saved() == old(stack).saved(),
            c0 == old(code)@,
            c0.is_prefix_of(code@),
            base <= stack@.len() <= base + (args@.len() - j),
            ret_label matches Some(l) ==> code@.len() > c0.len() && code@[c0.len() as int] == Instr::PushLabel(l),
            all_ok == args_available(args@, s_in, liveness, last_use),
            s_in == old(stack)@,
            base >= s_in.len(),
            all_ok ==> move_count <= s_in.len(),
            forall|k: int| 0 <= k < args@.len() ==> #[trigger] target_depths@[k] + (if should_moves@[k] { 1int } else { 0int })
                <= move_count,
            forall|k: int, l: int| #![trigger should_moves@[k], args@[l]] 0 <= l < k < args@.len() && should_moves@[k] ==> args@[l].0 != args@[k].0,
            all_ok ==> forall|k: int| 0 <= k < j ==> stack@.contains(Some(#[trigger] args@[k])),
            ret_label is None ==> stack_moves(code@, c0.len() as int),
            md + count_true(should_moves@.take(j as int)) == move_count,
            stack@.len() + md == base + (args@.len() - j),
            0 <= md,
        decreases j,
    {
        j = j - 1;
        let ghost cp = code@;
        let ghost sp = stack@;
        proof {
            assert(should_moves@.take(j + 1).drop_last() =~= should_moves@.take(j as int));
            if all_ok {
                assert(sp.contains(Some(args@[j as int])));
            }
        }
        let rv = compile_var(args[j], None, target_depths[j], should_moves[j], stack, code);
        proof {
            lemma_prefix_trans(c0, cp, code@);
            if ret_label is None && rv is Ok {
                let d = choose|d: int| #[trigger] topmost(sp, args@[j as int], d)
                    && code@ == cp + var_code(d, target_depths@[j as int] as int, should_moves@[j as int]);
                assert forall|i: int| c0.len() <= i < code@.len() implies (#[trigger] code@[i] is Swap
                    || code@[i] is Dup || code@[i] is Pop) by {
                    if i >= cp.len() {
                        assert(code@[i] == var_code(d, target_depths@[j as int] as int, should_moves@[j as int])[i - cp.len()]);
                    }
                }
            }
        }
        match rv {
            Ok(()) => {
                proof {
                    let d = choose|d: int| #[trigger] topmost(sp, args@[j as int], d)
                        && stack@ == var_placed(sp, d, None, target_depths@[j as int] as int, should_moves@[j as int]);
                    assert(stack@.len() == sp.len() + if should_moves@[j as int] { 0int } else { 1int });
                    if should_moves@[j as int] {
                        md = md + 1;
                    }
                    if all_ok {
                        assert forall|k: int| 0 <= k < j implies stack@.contains(Some(#[trigger] args@[k])) by {
                            assert(sp.contains(Some(args@[k])));
                            if should_moves@[j as int] {
                                assert(args@[k].0 != args@[j as int].0);
                            }
                            lemma_var_placed_keeps(sp, args@[j as int], d, target_depths@[j as int] as int,
                                should_moves@[j as int], Some(args@[k]));
                        }
                    }
                }
            },
            Err(e) => {
                proof {
                    if all_ok {
                        assert(target_depths@[j as int] + (if should_moves@[j as int] { 1int } else { 0int }) <= sp.len());
                    }
                }
                return Err(e);
            },
        }
    }
    proof {
        assert(should_moves@.take(0) =~= Seq::<bool>::empty());
    }
    Ok(())
}

/// What compiling a binding of `output` to `e` did, when it succeeded,
/// from stack `s0` and code `c0` to `s1` and `c1`: a constant is pushed; a
/// variable is brought up as `compile_var` does; an operation ends with its
/// opcode, and a call with the jump to the procedure and the return label
/// (the next fresh identifier), each leaving the result on top in place of
/// the arguments.
pub open spec fn expr_compiled(
    e: ir::Expr,
    output: Option<Id>,
    s0: Seq<Option<Id>>,
    s1: Seq<Option<Id>>,
    c0: Seq<Instr>,
    c1: Seq<Instr>,
    next: nat,
) -> bool {
    let o: int = if output is Some { 1 } else { 0 };
    match e {
        ir::Expr::Const(c) => s1 == s0.push(output) && c1 == c0.push(Instr::Push(c)),
        ir::Expr::Var(x) => exists|d: int, mv: bool| #![trigger var_placed(s0, d, output, 0, mv)] topmost(s0, x, d)
            && s1 == var_placed(s0, d, output, 0, mv) && c1 == c0 + var_code(d, 0, mv),
        ir::Expr::Op(op, args) => {
            &&& c1.len() > c0.len() && c1.last() == Instr::Op(op)
            &&& s0.len() - args@.len() + o <= s1.len() <= s0.len() + o
            &&& output matches Some(y) ==> s1.last() == Some(y)
        },
        ir::Expr::Apply(target, args) => {
            &&& c1.len() >= c0.len() + 4
            &&& c1[c1.len() - 3] == Instr::PushLabel(target)
            &&& c1[c1.len() - 2] == Instr::Jump
            &&& c1.last() == Instr::JumpDest(Id(next as usize))
            &&& c1[c0.len() as int] == Instr::PushLabel(Id(next as usize))
            &&& s0.len() - args@.len() + o <= s1.len() <= s0.len() + o
            &&& output matches Some(y) ==> s1.last() == Some(y)
        },
        _ => false,
    }
}

/// Generates the code of one binding.
fn compile_expr(
    expr: &ir::Expr,
    output: Option<Id>,
    at: InstrIdx,
    liveness: &BlockLiveness,
    last_use: &VarMap<InstrIdx>,
    pinning: &Pinning,
    ids: &mut IdGen,
    stack: &mut Stack<Id>,
    code: &mut Vec<Instr>,
) -> (r: Result<(), CompileError>)
    requires
        old(stack).wf(),
        liveness.wf(),
        last_use.wf(),
        pinning.wf(),
    ensures
        final(stack).wf(),
        final(stack).saved() == old(stack).saved(),
        old(code)@.is_prefix_of(final(code)@),
        r is Ok ==> expr_compiled(*expr, output, old(stack)@, final(stack)@, old(code)@, final(code)@, old(ids).next()),
        *expr is Join ==> r == Err::<(), CompileError>(CompileError::LocalFunction),
        (*expr is Unit || *expr is IfThenElse) ==> r == Err::<(), CompileError>(CompileError::Unsupported),
        *expr is Const ==> r is Ok,
        (*expr matches ir::Expr::Var(x) && args_available(seq![x], old(stack)@, liveness, last_use)) ==> r is Ok,
        (*expr matches ir::Expr::Op(_, args) && args_available(args@, old(stack)@, liveness, last_use)) ==> r is Ok,
        (*expr matches ir::Expr::Apply(_, args) && args_available(args@, old(stack)@, liveness, last_use)
            && old(ids).next() < usize::MAX) ==> r is Ok,
{
    let ghost s0 = stack@;
    let ghost c0 = code@;
    match expr {
        ir::Expr::Const(c) => {
            code.push(Instr::Push(*c));
            stack.push(output);
            proof {
                assert(code@.subrange(0, c0.len() as int) =~= c0);
            }
            Ok(())
        },
        ir::Expr::Var(x) => {
            proof {
                if args_available(seq![*x], s0, liveness, last_use) {
                    assert(seq![*x][0] == *x);
                }
            }
            let should_move = match is_last_use(liveness, last_use, *x, at) {
                Ok(b) => b,
                Err(e) => {
                    proof {
                        assert(code@.subrange(0, c0.len() as int) =~= c0);
                    }
                    return Err(e);
                },
            } && !is_stack_top_pinned(stack, pinning);
            let rv = compile_var(*x, output, 0, should_move, stack, code);
            proof {
                if rv is Ok {
                    let d = choose|d: int| #[trigger] topmost(s0, *x, d)
                        && stack@ == var_placed(s0, d, output, 0, should_move)
                        && code@ == c0 + var_code(d, 0, should_move);
                    assert(expr_compiled(*expr, output, s0, stack@, c0, code@, old(ids).next()));
                }
            }
            rv
        },
        ir::Expr::Op(op, args) => {
            match compile_args(args.as_slice(), None, at, liveness, last_use, pinning, stack, code) {
                Ok(()) => {},
                Err(e) => return Err(e),
            }
            let ghost c1 = code@;
            code.push(Instr::Op(*op));
            proof {
                lemma_prefix_push(c0, c1, Instr::Op(*op));
            }
            match popn_checked(stack, args.len()) {
                Ok(()) => {},
                Err(e) => return Err(e),
            }
            push_output(stack, output);
            Ok(())
        },
        ir::Expr::Apply(target, args) => {
            let ret = match fresh(ids) {
                Ok(id) => id,
                Err(e) => {
                    proof {
                        assert(code@.subrange(0, c0.len() as int) =~= c0);
                    }
                    return Err(e);
                },
            };
            match compile_args(args.as_slice(), Some(ret), at, liveness, last_use, pinning, stack, code) {
                Ok(()) => {},
                Err(e) => return Err(e),
            }
            let ghost c1 = code@;
            code.push(Instr::PushLabel(*target));
            code.push(Instr::Jump);
            code.push(Instr::JumpDest(ret));
            proof {
                lemma_prefix_push(c0, c1, Instr::PushLabel(*target));
                lemma_prefix_push(c0, c1.push(Instr::PushLabel(*target)), Instr::Jump);
                lemma_prefix_push(c0, c1.push(Instr::PushLabel(*target)).push(Instr::Jump), Instr::JumpDest(ret));
            }
            if args.len() >= stack.len() {
                return Err(CompileError::Unsupported);
            }
            match popn_checked(stack, args.len() + 1) {
                Ok(()) => {},
                Err(e) => return Err(e),
            }
            push_output(stack, output);
            Ok(())
        },
        ir::Expr::Join(..) => {
            proof {
                assert(code@.subrange(0, c0.len() as int) =~= c0);
            }
            Err(CompileError::LocalFunction)
        },
        ir::Expr::Unit | ir::Expr::IfThenElse(..) => {
            proof {
                assert(code@.subrange(0, c0.len() as int) =~= c0);
            }
            Err(CompileError::Unsupported)
        },
    }
}

/// Whether the slot holds a value pinned through the block: such a slot
/// never moves.
pub open spec fn pinned_through(pinning: &Pinning, slot: Option<Id>) -> bool {
    slot matches Some(x) && pinning@.contains_key(x.0) && pinning@[x.0] == analysis::PinState::PinThrough
}

/// Where a slot that is not pinned through stands when control leaves the
/// block: pinned at exit, still needed (live out, or read by the
/// continuation), or dead.
pub open spec fn cont_slot_kind(
    slot: Option<Id>,
    liveness: &BlockLiveness,
    pinning: &Pinning,
    last_use: &VarMap<InstrIdx>,
) -> ContMoveKind {
    match slot {
        None => ContMoveKind::Dead,
        Some(x) => if pinning@.contains_key(x.0) {
            ContMoveKind::PinOut
        } else if (liveness.vars().contains_key(x.0) && liveness.vars()[x.0].live_out)
            || (last_use@.contains_key(x.0) && last_use@[x.0] == InstrIdx::Cont) {
            ContMoveKind::Unpinned
        } else {
            ContMoveKind::Dead
        },
    }
}

/// No slot above position `i` of `s` is pinned through.
pub open spec fn clear_above(s: Seq<Option<Id>>, pinning: &Pinning, i: int) -> bool {
    forall|j: int| i < j < s.len() ==> !#[trigger] pinned_through(pinning, s[j])
}

/// The smaller of two numbers.
pub open spec fn min_nat(a: nat, b: nat) -> nat {
    if a <= b { a } else { b }
}

/// The slot may take a value that has to move: it holds no value pinned at
/// exit or through the block.
pub open spec fn movable(pinning: &Pinning, slot: Option<Id>) -> bool {
    !(slot matches Some(x) && pinning@.contains_key(x.0))
}

/// How many slots in `lo..hi` are movable.
pub open spec fn free_slots(s: Seq<Option<Id>>, pinning: &Pinning, lo: int, hi: int) -> nat
    decreases hi - lo,
{
    if lo >= hi {
        0
    } else {
        (if movable(pinning, s[lo]) { 1nat } else { 0nat }) + free_slots(s, pinning, lo + 1, hi)
    }
}

/// How many listed slots are pinned at exit.
pub open spec fn count_pinouts(r: Seq<(ContMoveKind, usize)>) -> nat
    decreases r.len(),
{
    if r.len() == 0 {
        0
    } else {
        count_pinouts(r.drop_last()) + if r.last().0 == ContMoveKind::PinOut { 1nat } else { 0nat }
    }
}

/// How many listed slots lie below position `t`.
pub open spec fn count_under(r: Seq<(ContMoveKind, usize)>, t: int) -> nat
    decreases r.len(),
{
    if r.len() == 0 {
        0
    } else {
        count_under(r.drop_last(), t) + if (r.last().1 as int) < t { 1nat } else { 0nat }
    }
}

/// The state of the scan of `collect_cont_move_candidates` at `index`
/// below the topmost slot pinned through, at `ft`, once it has been
/// passed: each listed slot below it fills a slot pinned at exit above
/// it, and every movable slot scanned below it is listed.
pub open spec fn below_ok(
    s: Seq<Option<Id>>,
    pinning: &Pinning,
    out: Seq<(ContMoveKind, usize)>,
    index: int,
    ft: int,
    below: bool,
    unmatched: int,
) -> bool {
    &&& !below ==> unmatched == count_pinouts(out)
    &&& below ==> {
        &&& index <= ft < s.len()
        &&& pinned_through(pinning, s[ft])
        &&& clear_above(s, pinning, ft)
        &&& unmatched + count_under(out, ft) == count_pinouts(out)
        &&& count_under(out, ft) == free_slots(s, pinning, index, ft)
        &&& forall|j: int| index <= j < ft && #[trigger] movable(pinning, s[j]) ==> listed(out, j)
    }
}

proof fn lemma_counts_push(r: Seq<(ContMoveKind, usize)>, e: (ContMoveKind, usize), t: int)
    ensures
        count_pinouts(r.push(e)) == count_pinouts(r) + if e.0 == ContMoveKind::PinOut { 1nat } else { 0nat },
        count_under(r.push(e), t) == count_under(r, t) + if (e.1 as int) < t { 1nat } else { 0nat },
{
    assert(r.push(e).drop_last() =~= r);
}

proof fn lemma_count_under_none(r: Seq<(ContMoveKind, usize)>, t: int)
    requires
        forall|k: int| 0 <= k < r.len() ==> (#[trigger] r[k].1 as int) >= t,
    ensures
        count_under(r, t) == 0,
    decreases r.len(),
{
    if r.len() > 0 {
        lemma_count_under_none(r.drop_last(), t);
    }
}

proof fn lemma_free_slots_mono(s: Seq<Option<Id>>, pinning: &Pinning, lo: int, mid: int, hi: int)
    requires
        lo <= mid,
    ensures
        free_slots(s, pinning, mid, hi) <= free_slots(s, pinning, lo, hi),
    decreases mid - lo,
{
    if lo < mid {
        lemma_free_slots_mono(s, pinning, lo + 1, mid, hi);
    }
}

/// Position `i` is listed in `r`.
pub open spec fn listed(r: Seq<(ContMoveKind, usize)>, i: int) -> bool {
    exists|k: int| 0 <= k < r.len() && #[trigger] r[k].1 == i
}

/// The slots that may have to move before control leaves the block, from
/// the top down, each with where it stands: every slot above the topmost
/// one pinned through, then, below that one, as many slots that are not
/// pinned at exit as there are slots pinned at exit above still to fill.
fn collect_cont_move_candidates(
    stack: &Stack<Id>,
    liveness: &BlockLiveness,
    pinning: &Pinning,
    last_use: &VarMap<InstrIdx>,
) -> (r: Vec<(ContMoveKind, usize)>)
    requires
        liveness.wf(),
        pinning.wf(),
        last_use.wf(),
    ensures
        forall|k: int| 0 <= k < r@.len() ==> {
            &&& #[trigger] r@[k].1 < stack@.len()
            &&& !pinned_through(pinning, stack@[r@[k].1 as int])
            &&& r@[k].0 == cont_slot_kind(stack@[r@[k].1 as int], liveness, pinning, last_use)
            &&& !clear_above(stack@, pinning, r@[k].1 as int) ==> r@[k].0 != ContMoveKind::PinOut
        },
        forall|k: int, l: int| 0 <= k < l < r@.len() ==> #[trigger] r@[k].1 > #[trigger] r@[l].1,
        forall|i: int| 0 <= i < stack@.len() && !pinned_through(pinning, #[trigger] stack@[i])
            && clear_above(stack@, pinning, i) ==> listed(r@, i),
        forall|t: int| 0 <= t < stack@.len() && #[trigger] pinned_through(pinning, stack@[t])
            && clear_above(stack@, pinning, t) ==> {
            &&& count_under(r@, t) == min_nat(count_pinouts(r@), free_slots(stack@, pinning, 0, t))
            &&& forall|j: int, k: int| 0 <= j < t && #[trigger] movable(pinning, stack@[j]) && 0 <= k < r@.len()
                && #[trigger] r@[k].1 <= j ==> listed(r@, j)
        },
{
    let contents = stack.contents();
    let ghost sv = stack@;
    let ghost mut ft: int = -1;
    let mut out: Vec<(ContMoveKind, usize)> = Vec::new();
    let mut unmatched_pinouts: usize = 0;
    let mut below_pinned_through = false;
    let mut index = contents.len();
    while index > 0
        invariant
            index <= contents@.len(),
            contents@ == stack@,
            sv == stack@,
            liveness.wf(),
            pinning.wf(),
            last_use.wf(),
            unmatched_pinouts <= contents@.len() - index,
            forall|k: int| 0 <= k < out@.len() ==> {
                &&& #[trigger] out@[k].1 < sv.len()
                &&& out@[k].1 >= index
                &&& !pinned_through(pinning, sv[out@[k].1 as int])
                &&& out@[k].0 == cont_slot_kind(sv[out@[k].1 as int], liveness, pinning, last_use)
                &&& !clear_above(sv, pinning, out@[k].1 as int) ==> out@[k].0 != ContMoveKind::PinOut
            },
            forall|k: int, l: int| 0 <= k < l < out@.len() ==> #[trigger] out@[k].1 > #[trigger] out@[l].1,
            below_pinned_through == !clear_above(sv, pinning, index - 1),
            forall|i: int| index <= i < sv.len() && !pinned_through(pinning, #[trigger] sv[i])
                && clear_above(sv, pinning, i) ==> listed(out@, i),
            below_ok(sv, pinning, out@, index as int, ft, below_pinned_through, unmatched_pinouts as int),
        ensures
            below_ok(sv, pinning, out@, index as int, ft, below_pinned_through, unmatched_pinouts as int),
            below_pinned_through ==> index == 0 || unmatched_pinouts == 0,
            !below_pinned_through ==> index == 0,
            below_pinned_through == !clear_above(sv, pinning, index - 1),
            forall|k: int| 0 <= k < out@.len() ==> out@[k].1 >= index,
            index == 0 || !clear_above(sv, pinning, index - 1),
            index <= sv.len(),
            forall|k: int| 0 <= k < out@.len() ==> {
                &&& #[trigger] out@[k].1 < sv.len()
                &&& !pinned_through(pinning, sv[out@[k].1 as int])
                &&& out@[k].0 == cont_slot_kind(sv[out@[k].1 as int], liveness, pinning, last_use)
                &&& !clear_above(sv, pinning, out@[k].1 as int) ==> out@[k].0 != ContMoveKind::PinOut
            },
            forall|k: int, l: int| 0 <= k < l < out@.len() ==> #[trigger] out@[k].1 > #[trigger] out@[l].1,
            forall|i: int| index <= i < sv.len() && !pinned_through(pinning, #[trigger] sv[i])
                && clear_above(sv, pinning, i) ==> listed(out@, i),
        decreases index,
    {
        if below_pinned_through && unmatched_pinouts == 0 {
            break;
        }
        let ghost out0 = out@;
        let ghost below0 = below_pinned_through;
        let ghost um0 = unmatched_pinouts as int;
        index = index - 1;
        let slot = contents[index];
        let mut skip = false;
        let mut kind = ContMoveKind::Dead;
        match slot {
            Some(x) => {
                if pinning.is_pinned(x.0) {
                    below_pinned_through = true;
                    skip = true;
                } else if pinning.is_pinned_out(x.0) {
                    if below_pinned_through {
                        skip = true;
                    } else {
                        unmatched_pinouts = unmatched_pinouts + 1;
                        kind = ContMoveKind::PinOut;
                    }
                } else {
                    if below_pinned_through && unmatched_pinouts > 0 {
                        unmatched_pinouts = unmatched_pinouts - 1;
                    }
                    let needed = liveness.live_out(x.0) || match last_use.get(x.0) {
                        Some(i) => i == InstrIdx::Cont,
                        None => false,
                    };
                    kind = if needed { ContMoveKind::Unpinned } else { ContMoveKind::Dead };
                }
            },
            None => {
                if below_pinned_through && unmatched_pinouts > 0 {
                    unmatched_pinouts = unmatched_pinouts - 1;
                }
                kind = ContMoveKind::Dead;
            },
        }
        if !skip {
            out.push((kind, index));
        }
        proof {
            let ii = index as int;
            assert(sv[ii] == slot);
            if !skip {
                lemma_counts_push(out0, (kind, index), ft);
                assert(out@ == out0.push((kind, index)));
            } else {
                assert(out@ == out0);
            }
            if !below0 && below_pinned_through {
                lemma_count_under_none(out@, ii);
                ft = ii;
            }
            if below0 {
                assert(free_slots(sv, pinning, ii, ft) == (if movable(pinning, sv[ii]) { 1nat } else { 0nat })
                    + free_slots(sv, pinning, ii + 1, ft));
            }
            if below0 {
                assert forall|j: int| ii <= j < ft && #[trigger] movable(pinning, sv[j]) implies listed(out@, j) by {
                    if j > ii {
                        assert(listed(out0, j));
                        let k = choose|k: int| 0 <= k < out0.len() && #[trigger] out0[k].1 == j;
                        assert(out@[k] == out0[k]);
                    } else {
                        assert(!skip);
                        assert(out@[out@.len() - 1].1 == ii);
                    }
                }
                assert(count_under(out@, ft) == free_slots(sv, pinning, ii, ft));
                assert(unmatched_pinouts + count_under(out@, ft) == count_pinouts(out@));
            } else if below_pinned_through {
                assert(clear_above(sv, pinning, ii));
                assert(free_slots(sv, pinning, ii, ft) == 0);
            } else {
                assert(unmatched_pinouts == count_pinouts(out@));
            }
            assert(below_ok(sv, pinning, out@, ii, ft, below_pinned_through, unmatched_pinouts as int));
            if !skip {
                assert(out@[out@.len() - 1].1 == index);
                assert(listed(out@, ii)) by {
                    assert(out@[out@.len() - 1].1 == ii);
                }
            }
            assert forall|i: int| index <= i < sv.len() && !pinned_through(pinning, #[trigger] sv[i])
                && clear_above(sv, pinning, i) implies listed(out@, i) by {
                if i > ii {
                    let k = choose|k: int| 0 <= k < out0.len() && #[trigger] out0[k].1 == i;
                    assert(out@[k] == out0[k]);
                }
            }
        }
    }
    proof {
        assert forall|i: int| 0 <= i < sv.len() && !pinned_through(pinning, #[trigger] sv[i])
            && clear_above(sv, pinning, i) implies listed(out@, i) by {
            if i < index {
                assert(!clear_above(sv, pinning, index - 1));
                let j = choose|j: int| index - 1 < j < sv.len() && #[trigger] pinned_through(pinning, sv[j]);
                assert(i < j);
            }
        }
        assert forall|t: int| 0 <= t < sv.len() && #[trigger] pinned_through(pinning, sv[t])
            && clear_above(sv, pinning, t) implies {
            &&& count_under(out@, t) == min_nat(count_pinouts(out@), free_slots(sv, pinning, 0, t))
            &&& forall|j: int, k: int| 0 <= j < t && #[trigger] movable(pinning, sv[j]) && 0 <= k < out@.len()
                && #[trigger] out@[k].1 <= j ==> listed(out@, j)
        } by {
            if !below_pinned_through {
                assert(!clear_above(sv, pinning, -1));
            }
            assert(below_pinned_through);
            if ft < t {
                assert(!clear_above(sv, pinning, ft));
            } else if t < ft {
                assert(!clear_above(sv, pinning, t));
            }
            assert(t == ft);
            lemma_free_slots_mono(sv, pinning, 0, index as int, ft);
        }
    }
    out
}

/// The code `c` ends, after position `from`, as a block's continuation
/// `cont` makes it end: with the stop, the return jump (after moving a
/// returned value below the return address), the jump to the target
/// unless the target is the next block `fall`, or the conditional jump.
pub open spec fn cont_ending(c: Seq<Instr>, from: int, cont: Cont, fall: Option<Id>) -> bool {
    let n = c.len() as int;
    match cont {
        Cont::Stop(_) => n >= from + 1 && c[n - 1] == Instr::Stop,
        Cont::Ret(x) => n >= from + 1 && c[n - 1] == Instr::Jump
            && (x is Some ==> n >= from + 2 && c[n - 2] == Instr::Swap(1)),
        Cont::Jump(t, _) => fall != Some(t) ==> n >= from + 2 && c[n - 2] == Instr::PushLabel(t)
            && c[n - 1] == Instr::Jump,
        Cont::JumpIf { then, .. } => n >= from + 2 && c[n - 2] == Instr::PushLabel(then)
            && c[n - 1] == Instr::JumpIf,
    }
}

/// Bringing the slot at `f` to the top (by a swap, unless it is there)
/// keeps which values the stack holds, and the slots below `f`.
proof fn lemma_bring_up(sa: Seq<Option<Id>>, f: int, sb: Seq<Option<Id>>)
    requires
        0 <= f < sa.len(),
        sb == (if f < sa.len() - 1 { swapped(sa, sa.len() - 1 - f) } else { sa }),
    ensures
        sb.len() == sa.len(),
        sb.last() == sa[f],
        forall|i: int| 0 <= i < f ==> sb[i] == sa[i],
        forall|v: Option<Id>| sa.contains(v) ==> #[trigger] sb.contains(v),
{
    if f < sa.len() - 1 {
        lemma_swapped_contains(sa, sa.len() - 1 - f);
    }
}

proof fn lemma_swapped_contains(s: Seq<Option<Id>>, d: int)
    requires
        0 <= d < s.len(),
    ensures
        forall|v: Option<Id>| s.contains(v) ==> #[trigger] swapped(s, d).contains(v),
        swapped(s, d).len() == s.len(),
{
    let t = swapped(s, d);
    assert forall|v: Option<Id>| s.contains(v) implies #[trigger] t.contains(v) by {
        let i = choose|i: int| 0 <= i < s.len() && s[i] == v;
        if i == s.len() - 1 {
            assert(t[s.len() - 1 - d] == v);
        } else if i == s.len() - 1 - d {
            assert(t[s.len() - 1] == v);
        } else {
            assert(t[i] == v);
        }
    }
}

/// Popping a slot whose value is dead at the exit keeps every value that
/// is still needed there.
proof fn lemma_pop_keeps(
    sb: Seq<Option<Id>>,
    sc: Seq<Option<Id>>,
    s0: Seq<Option<Id>>,
    liveness: &BlockLiveness,
    pinning: &Pinning,
    last_use: &VarMap<InstrIdx>,
)
    requires
        sb.len() > 0,
        sc == sb.take(sb.len() - 1),
        cont_slot_kind(sb.last(), liveness, pinning, last_use) == ContMoveKind::Dead,
        forall|x: Id| s0.contains(Some(x)) && cont_slot_kind(Some(x), liveness, pinning, last_use) != ContMoveKind::Dead
            ==> #[trigger] sb.contains(Some(x)),
    ensures
        forall|x: Id| s0.contains(Some(x)) && cont_slot_kind(Some(x), liveness, pinning, last_use) != ContMoveKind::Dead
            ==> #[trigger] sc.contains(Some(x)),
{
    assert forall|x: Id| s0.contains(Some(x)) && cont_slot_kind(Some(x), liveness, pinning, last_use) != ContMoveKind::Dead
        implies #[trigger] sc.contains(Some(x)) by {
        assert(sb.contains(Some(x)));
        let i = choose|i: int| 0 <= i < sb.len() && sb[i] == Some(x);
        assert(i != sb.len() - 1);
        assert(sc[i] == Some(x));
    }
}

/// The code from `from` on pops, or swaps the top with a slot at most
/// `below - 1` deep (and at least one).
pub open spec fn shallow_tidy(c: Seq<Instr>, from: int, below: int) -> bool {
    forall|j: int| from <= j < c.len() ==> (#[trigger] c[j] is Pop
        || (c[j] matches Instr::Swap(d) && 1 <= d < below))
}

/// Strictly falling positions below `n` are at most `n` many.
proof fn lemma_falling_len(r: Seq<(ContMoveKind, usize)>, n: int)
    requires
        0 <= n,
        forall|k: int| 0 <= k < r.len() ==> (#[trigger] r[k]).1 < n,
        forall|k: int, l: int| 0 <= k < l < r.len() ==> #[trigger] r[k].1 > #[trigger] r[l].1,
    ensures
        r.len() <= n,
    decreases r.len(),
{
    if r.len() > 0 {
        let q = r.drop_first();
        assert forall|k: int| 0 <= k < q.len() implies (#[trigger] q[k]).1 < r[0].1 by {
            assert(q[k] == r[k + 1]);
            assert(r[0].1 > r[k + 1].1);
        }
        assert forall|k: int, l: int| 0 <= k < l < q.len() implies #[trigger] q[k].1 > #[trigger] q[l].1 by {
            assert(q[k] == r[k + 1] && q[l] == r[l + 1]);
        }
        lemma_falling_len(q, r[0].1 as int);
        assert(r[0].1 < n);
        assert(r.len() == q.len() + 1);
    }
}

/// The slots of `s` that hold a dead value (or none) and stand above every
/// slot pinned through the block: the tidying before a block's exit pops
/// each of them.
pub open spec fn dead_above(
    s: Seq<Option<Id>>,
    liveness: &BlockLiveness,
    pinning: &Pinning,
    last_use: &VarMap<InstrIdx>,
) -> Set<int> {
    Set::new(|i: int| 0 <= i < s.len() && clear_above(s, pinning, i) && !pinned_through(pinning, s[i])
        && cont_slot_kind(s[i], liveness, pinning, last_use) == ContMoveKind::Dead)
}

/// Generates the code that leaves a block: first the stack is tidied
/// (dead values popped, values pinned at exit moved into free slots), then
/// the continuation itself.
fn compile_cont(
    cont: &Cont,
    fallthrough_label: Option<Id>,
    liveness: &BlockLiveness,
    pinning: &Pinning,
    last_use: &VarMap<InstrIdx>,
    stack: &mut Stack<Id>,
    code: &mut Vec<Instr>,
) -> (r: Result<(), CompileError>)
    requires
        old(stack).wf(),
        liveness.wf(),
        last_use.wf(),
        pinning.wf(),
    ensures
        final(stack).wf(),
        final(stack).saved() == old(stack).saved(),
        old(code)@.is_prefix_of(final(code)@),
        r is Ok ==> cont_ending(final(code)@, old(code)@.len() as int, *cont, fallthrough_label),
        (*cont is Stop || *cont is Ret) ==> r is Ok,
        (*cont matches Cont::JumpIf { cond, .. } && old(stack)@.contains(Some(cond))
            && ((liveness.vars().contains_key(cond.0) && liveness.vars()[cond.0].live_out)
                || (last_use@.contains_key(cond.0) && last_use@[cond.0] == InstrIdx::Cont))) ==> r is Ok,
        (*cont matches Cont::Jump(_, args) && forall|k: int| 0 <= k < args@.len()
            ==> old(stack)@.contains(Some(#[trigger] args@[k]))
                && ((liveness.vars().contains_key(args@[k].0) && liveness.vars()[args@[k].0].live_out)
                    || (last_use@.contains_key(args@[k].0) && last_use@[args@[k].0] == InstrIdx::Cont))) ==> r is Ok,
        (*cont matches Cont::Jump(t, _) && fallthrough_label == Some(t) && r is Ok)
            ==> stack_moves(final(code)@, old(code)@.len() as int),
        (*cont is Stop || *cont is Ret) ==> final(stack)@.len()
            + dead_above(old(stack)@, liveness, pinning, last_use).len() <= old(stack)@.len(),
        *cont is Stop ==> stack_moves(final(code)@.drop_last(), old(code)@.len() as int),
        *cont is Stop ==> shallow_tidy(final(code)@.drop_last(), old(code)@.len() as int, old(stack)@.len() as int)
            && final(code)@.len() <= old(code)@.len() + 3 * old(stack)@.len() + 1,
        (*cont is Stop || *cont is Ret) ==> forall|x: Id| old(stack)@.contains(Some(x))
            && cont_slot_kind(Some(x), liveness, pinning, last_use) != ContMoveKind::Dead
            ==> #[trigger] final(stack)@.contains(Some(x)),
{
    let ghost s0 = stack@;
    let ghost mut popped: Set<int> = Set::empty();
    let ghost c0 = code@;
    proof {
        assert(c0.subrange(0, c0.len() as int) =~= c0);
    }
    let cands = collect_cont_move_candidates(stack, liveness, pinning, last_use);
    let mut lo: usize = 0;
    let mut hi: usize = cands.len();
    while lo < hi
        invariant
            lo <= hi <= cands@.len(),
            stack.wf(),
            stack.saved() == old(stack).saved(),
            c0 == old(code)@,
            c0.is_prefix_of(code@),
            forall|k: int| lo <= k < hi ==> (#[trigger] cands@[k]).1 < stack@.len(),
            forall|k: int, l: int| 0 <= k < l < cands@.len() ==> #[trigger] cands@[k].1 > #[trigger] cands@[l].1,
            s0 == old(stack)@,
            forall|k: int| 0 <= k < cands@.len() ==> (#[trigger] cands@[k]).1 < s0.len()
                && cands@[k].0 == cont_slot_kind(s0[cands@[k].1 as int], liveness, pinning, last_use),
            forall|k: int| lo <= k < hi ==> stack@[(#[trigger] cands@[k]).1 as int] == s0[cands@[k].1 as int],
            forall|x: Id| s0.contains(Some(x)) && cont_slot_kind(Some(x), liveness, pinning, last_use) != ContMoveKind::Dead
                ==> #[trigger] stack@.contains(Some(x)),
            stack_moves(code@, c0.len() as int),
            popped.finite(),
            stack@.len() + popped.len() == s0.len(),
            forall|k: int| (0 <= k < lo || hi <= k < cands@.len()) && (#[trigger] cands@[k]).0 == ContMoveKind::Dead
                ==> popped.contains(cands@[k].1 as int),
            forall|i: int, k: int| #![trigger popped.contains(i), cands@[k]] popped.contains(i) && lo <= k < hi ==> i != cands@[k].1,
            stack@.len() <= s0.len(),
            shallow_tidy(code@, c0.len() as int, s0.len() as int),
            code@.len() <= c0.len() + 3 * (lo + (cands@.len() - hi)),
        decreases hi - lo,
    {
        let ghost lo0 = lo;
        let ghost hi_start = hi;
        let (from_kind, from_index) = cands[lo];
        lo = lo + 1;
        if from_kind == ContMoveKind::Dead {
            if stack.len() == 0 {
                return Err(CompileError::Unsupported);
            }
            let top_index = stack.len() - 1;
            let ghost sa = stack@;
            if from_index < top_index {
                let ghost cp = code@;
                let rv = swap_checked(stack, top_index - from_index, code);
                proof {
                    lemma_prefix_trans(c0, cp, code@);
                }
                match rv {
                    Ok(()) => {},
                    Err(e) => return Err(e),
                }
            }
            proof {
                lemma_prefix_push(c0, code@, Instr::Pop);
                lemma_bring_up(sa, from_index as int, stack@);
            }
            let ghost sb = stack@;
            code.push(Instr::Pop);
            popn_checked(stack, 1)?;
            proof {
                lemma_pop_keeps(sb, stack@, s0, liveness, pinning, last_use);
                assert forall|k: int| lo <= k < hi implies stack@[(#[trigger] cands@[k]).1 as int] == s0[cands@[k].1 as int] by {
                    assert(cands@[lo0 as int].1 > cands@[k].1);
                    assert(sb[cands@[k].1 as int] == sa[cands@[k].1 as int]);
                }
                let ghost i0 = cands@[lo0 as int].1 as int;
                assert(!popped.contains(i0));
                popped = popped.insert(i0);
                assert forall|i: int, k: int| #![trigger popped.contains(i), cands@[k]] popped.contains(i) && lo <= k < hi implies i != cands@[k].1 by {
                    if i == i0 {
                        assert(cands@[lo0 as int].1 > cands@[k].1);
                    }
                }
            }
        } else if from_kind == ContMoveKind::PinOut {
            let mut found: Option<(ContMoveKind, usize)> = None;
            let ghost hi0 = hi;
            while lo < hi
                invariant_except_break
                    found is None,
                    forall|k: int| hi <= k < hi0 ==> (#[trigger] cands@[k]).0 == ContMoveKind::PinOut,
                invariant
                    lo <= hi <= hi0,
                    hi0 <= cands@.len(),
                ensures
                    lo <= hi <= hi0,
                    found matches Some(c) ==> hi < hi0 && c == cands@[hi as int]
                        && c.0 != ContMoveKind::PinOut,
                    found matches Some(c) ==> forall|k: int| hi < k < hi0 ==> (#[trigger] cands@[k]).0 == ContMoveKind::PinOut,
                    found is None ==> lo == hi && forall|k: int| hi <= k < hi0 ==> (#[trigger] cands@[k]).0 == ContMoveKind::PinOut,
                decreases hi - lo,
            {
                hi = hi - 1;
                let c = cands[hi];
                if c.0 != ContMoveKind::PinOut {
                    found = Some(c);
                    break;
                }
            }
            match found {
                Some((to_kind, to_index)) => {
                    if stack.len() == 0 {
                        return Err(CompileError::Unsupported);
                    }
                    let top_index = stack.len() - 1;
                    let ghost sa = stack@;
                    if from_index < top_index {
                        let ghost cp = code@;
                        let rv = swap_checked(stack, top_index - from_index, code);
                        proof {
                            lemma_prefix_trans(c0, cp, code@);
                        }
                        match rv {
                            Ok(()) => {},
                            Err(e) => return Err(e),
                        }
                    }
                    proof {
                        assert(cands@[lo0 as int].1 > cands@[hi as int].1);
                    }
                    if to_index > top_index {
                        return Err(CompileError::Unsupported);
                    }
                    let ghost sm = stack@;
                    proof {
                        lemma_bring_up(sa, from_index as int, sm);
                    }
                    let ghost cp = code@;
                    let rv = swap_checked(stack, top_index - to_index, code);
                    proof {
                        lemma_prefix_trans(c0, cp, code@);
                    }
                    match rv {
                        Ok(()) => {},
                        Err(e) => return Err(e),
                    }
                    let ghost sb = stack@;
                    proof {
                        lemma_swapped_contains(sm, (top_index - to_index) as int);
                        assert(sm[to_index as int] == sa[to_index as int]);
                        assert(sb.last() == sa[to_index as int]);
                        assert forall|k: int| lo <= k < hi implies stack@[(#[trigger] cands@[k]).1 as int] == s0[cands@[k].1 as int] by {
                            assert(cands@[lo0 as int].1 > cands@[k].1);
                            assert(cands@[k].1 > cands@[hi as int].1);
                        }
                    }
                    if to_kind == ContMoveKind::Dead {
                        proof {
                            lemma_prefix_push(c0, code@, Instr::Pop);
                        }
                        code.push(Instr::Pop);
                        popn_checked(stack, 1)?;
                        proof {
                            lemma_pop_keeps(sb, stack@, s0, liveness, pinning, last_use);
                            let ghost i0 = cands@[hi as int].1 as int;
                            assert(!popped.contains(i0));
                            popped = popped.insert(i0);
                            assert forall|i: int, k: int| #![trigger popped.contains(i), cands@[k]] popped.contains(i) && lo <= k < hi implies i != cands@[k].1 by {
                                if i == i0 {
                                    assert(cands@[k].1 > cands@[hi as int].1);
                                }
                            }
                        }
                    }
                },
                None => {},
            }
        }
    }
    proof {
        lemma_falling_len(cands@, s0.len() as int);
        let da = dead_above(s0, liveness, pinning, last_use);
        assert forall|i: int| da.contains(i) implies popped.contains(i) by {
            assert(listed(cands@, i));
            let k = choose|k: int| 0 <= k < cands@.len() && #[trigger] cands@[k].1 == i;
            assert(cands@[k].0 == ContMoveKind::Dead);
        }
        vstd::set_lib::lemma_len_subset(da, popped);
    }
    match cont {
        Cont::Stop(_) => {
            proof {
                lemma_prefix_push(c0, code@, Instr::Stop);
            }
            let ghost cs = code@;
            code.push(Instr::Stop);
            proof {
                assert(code@.drop_last() =~= cs);
                assert(cs.len() <= c0.len() + 3 * s0.len());
            }
        },
        Cont::Ret(x) => {
            if x.is_some() {
                proof {
                    lemma_prefix_push(c0, code@, Instr::Swap(1));
                }
                code.push(Instr::Swap(1));
            }
            proof {
                lemma_prefix_push(c0, code@, Instr::Jump);
            }
            code.push(Instr::Jump);
        },
        Cont::Jump(target, args) => {
            let ghost cp = code@;
            proof {
                assert forall|k: int| 0 <= k < args@.len() && s0.contains(Some(#[trigger] args@[k]))
                    && ((liveness.vars().contains_key(args@[k].0) && liveness.vars()[args@[k].0].live_out)
                        || (last_use@.contains_key(args@[k].0) && last_use@[args@[k].0] == InstrIdx::Cont))
                    implies stack@.contains(Some(args@[k])) by {
                    assert(cont_slot_kind(Some(args@[k]), liveness, pinning, last_use) != ContMoveKind::Dead);
                }
            }
            let rv = compile_args(args.as_slice(), None, InstrIdx::Cont, liveness, last_use, pinning, stack, code);
            proof {
                lemma_prefix_trans(c0, cp, code@);
            }
            match rv {
                Ok(()) => {},
                Err(e) => return Err(e),
            }
            popn_checked(stack, args.len())?;
            let falls_through = match fallthrough_label {
                Some(l) => l.0 == target.0,
                None => false,
            };
            if !falls_through {
                proof {
                    lemma_prefix_push(c0, code@, Instr::PushLabel(*target));
                    lemma_prefix_push(c0, code@.push(Instr::PushLabel(*target)), Instr::Jump);
                }
                code.push(Instr::PushLabel(*target));
                code.push(Instr::Jump);
            }
        },
        Cont::JumpIf { cond, then } => {
            let should_move = match is_last_use(liveness, last_use, *cond, InstrIdx::Cont) {
                Ok(b) => b,
                Err(e) => return Err(e),
            } && !is_stack_top_pinned(stack, pinning);
            let ghost cp = code@;
            let rv = compile_var(*cond, None, 0, should_move, stack, code);
            proof {
                lemma_prefix_trans(c0, cp, code@);
            }
            match rv {
                Ok(()) => {},
                Err(e) => return Err(e),
            }
            proof {
                lemma_prefix_push(c0, code@, Instr::PushLabel(*then));
                lemma_prefix_push(c0, code@.push(Instr::PushLabel(*then)), Instr::JumpIf);
            }
            code.push(Instr::PushLabel(*then));
            code.push(Instr::JumpIf);
            popn_checked(stack, 1)?;
        },
    }
    Ok(())
}

/// Generates the code of one block, from its label to its continuation.
fn compile_block(
    proc: &ProcCfg,
    block_id: CfgId,
    fallthrough_label: Option<Id>,
    liveness: &BlockLiveness,
    pinning: &Pinning,
    last_use: &VarMap<InstrIdx>,
    ids: &mut IdGen,
    stack: &mut Stack<Id>,
    code: &mut Vec<Instr>,
) -> (r: Result<(), CompileError>)
    requires
        proc.wf(),
        block_id.0 < proc.block_count(),
        old(stack).wf(),
        liveness.wf(),
        last_use.wf(),
        pinning.wf(),
    ensures
        final(stack).wf(),
        final(stack).saved() == old(stack).saved(),
        old(code)@.is_prefix_of(final(code)@),
        r is Ok ==> (proc.blocks_view()[block_id.0 as int].label matches Some(l)
            ==> final(code)@.len() > old(code)@.len() && final(code)@[old(code)@.len() as int] == Instr::JumpDest(l)),
        r is Ok ==> cont_ending(final(code)@, old(code)@.len() as int, proc.blocks_view()[block_id.0 as int].cont,
            fallthrough_label),
        const_priors(proc.block_priors(block_id.0 as int)) && (proc.blocks_view()[block_id.0 as int].cont is Stop
            || proc.blocks_view()[block_id.0 as int].cont is Ret) ==> r is Ok,
        old(code)@.len() == 0 && old(stack)@.len() == 0 && const_priors(proc.block_priors(block_id.0 as int))
            && proc.blocks_view()[block_id.0 as int].label is None && proc.blocks_view()[block_id.0 as int].cont is Stop
            ==> consts_code(final(code)@, pushes_of(proc.block_priors(block_id.0 as int))),
{
    let ghost c0 = code@;
    let ghost allc = const_priors(proc.block_priors(block_id.0 as int));
    let block = proc.block(block_id);
    push_output(stack, block.input);
    match block.label {
        Some(label) => {
            proof {
                assert(c0.subrange(0, c0.len() as int) =~= c0);
                lemma_prefix_push(c0, code@, Instr::JumpDest(label));
            }
            code.push(Instr::JumpDest(label));
        },
        None => {},
    }
    proof {
        assert(c0.is_prefix_of(code@)) by {
            assert(code@.subrange(0, c0.len() as int) =~= c0);
        }
    }
    let priors = proc.priors(block_id);
    let mut i: usize = 0;
    while i < priors.len()
        invariant
            i <= priors@.len(),
            stack.wf(),
            stack.saved() == old(stack).saved(),
            liveness.wf(),
            last_use.wf(),
            pinning.wf(),
            c0 == old(code)@,
            c0.is_prefix_of(code@),
            block.label matches Some(l) ==> code@.len() > c0.len() && code@[c0.len() as int] == Instr::JumpDest(l),
            allc == const_priors(proc.block_priors(block_id.0 as int)),
            allc ==> const_priors(priors@),
            priors@ == proc.block_priors(block_id.0 as int),
            allc && c0.len() == 0 && block.label is None ==> code@ == pushes_of(priors@.take(i as int)),
            allc && old(stack)@.len() == 0 ==> stack@.len() == i + (if block.input is Some { 1int } else { 0int }),
        decreases priors@.len() - i,
    {
        let (x, expr) = &priors[i];
        proof {
            if allc {
                assert(priors@[i as int].1 is Const);
            }
        }
        let ghost cp = code@;
        let rv = compile_expr(expr, *x, InstrIdx::Prior(i), liveness, last_use, pinning, ids, stack, code);
        proof {
            lemma_prefix_trans(c0, cp, code@);
        }
        match rv {
            Ok(()) => {},
            Err(e) => return Err(e),
        }
        proof {
            if allc && c0.len() == 0 && block.label is None {
                assert(priors@.take(i + 1) =~= priors@.take(i as int).push(priors@[i as int]));
                assert(code@ =~= pushes_of(priors@.take(i + 1)));
            }
        }
        i = i + 1;
    }
    let ghost cp = code@;
    let rv = compile_cont(&block.cont, fallthrough_label, liveness, pinning, last_use, stack, code);
    proof {
        lemma_prefix_trans(c0, cp, code@);
        if allc && c0.len() == 0 && block.label is None && block.cont is Stop {
            assert(priors@.take(priors@.len() as int) =~= priors@);
            assert(pushes_of(priors@).len() == priors@.len());
            assert(cp.is_prefix_of(code@));
            assert(code@.subrange(0, priors@.len() as int) =~= cp);
        }
    }
    rv
}

/// A walk with no depth left visits nothing.
proof fn lemma_walk_children_no_fuel(ch: Seq<Seq<usize>>, cs: Seq<usize>, k: int)
    ensures
        walk_children(ch, cs, k, 0) == Seq::<NodeVisit>::empty(),
    decreases k,
{
    if k > 0 && k <= cs.len() {
        lemma_walk_children_no_fuel(ch, cs, k - 1);
        assert(walk(ch, cs[k - 1], 0) == Seq::<NodeVisit>::empty());
        assert(walk_children(ch, cs, k - 1, 0) + walk(ch, cs[k - 1], 0) =~= Seq::<NodeVisit>::empty());
    }
}

/// Generates the code of one procedure, block by block along the dominator
/// tree (each block starts from the stack its dominator left), laid out in
/// reverse postorder.
#[verifier::loop_isolation(false)]
fn compile_proc(
    body: ir::Block,
    args: &[Id],
    stop: Option<usize>,
    ids: &mut IdGen,
    code: &mut Vec<Instr>,
) -> (r: Result<(), CompileError>)
    ensures
        final(code)@.len() >= old(code)@.len(),
        final(code)@.subrange(0, old(code)@.len() as int) == old(code)@,
        simple_body(body, stop) && old(ids).next() < usize::MAX && r is Ok ==> final(code)@.len() > old(code)@.len()
            && final(code)@.last() == (if stop is Some { Instr::Stop } else { Instr::Jump }),
        stop is Some && args@.len() == 0 && simple_body(body, stop) && old(ids).next() < usize::MAX
            && const_priors(body.priors@) && !(body.tail is Apply) ==> r is Ok
            && consts_code(final(code)@.subrange(old(code)@.len() as int, final(code)@.len() as int), pushes_of(body.priors@)),
{
    let ghost simple = simple_body(body, stop) && old(ids).next() < usize::MAX;
    let ghost cst = stop is Some && args@.len() == 0 && simple && const_priors(body.priors@) && !(body.tail is Apply);
    let proc = build_cfg(body, stop, ids)?;
    let ghost cont0 = proc.blocks_view()[0].cont;
    proof {
        if cst {
            assert(proc.block_priors(0) == body.priors@);
            assert(const_priors(proc.block_priors(0)));
            assert(cont0 is Stop);
        }
    }
    let analysis = analyze(&proc)?;
    let n = proc.len();
    let mut block_code: Vec<Vec<Instr>> = Vec::new();
    let mut k: usize = 0;
    while k < n
        invariant
            k <= n,
            block_code@.len() == k,
        decreases n - k,
    {
        block_code.push(Vec::new());
        k = k + 1;
    }
    let mut stack: Stack<Id> = Stack::new();
    let mut j = args.len();
    while j > 0
        invariant
            j <= args@.len(),
            stack.wf(),
            stack.saved().len() == 0,
            args@.len() == 0 ==> stack@.len() == 0,
        decreases j,
    {
        j = j - 1;
        stack.push(Some(args[j]));
    }
    let dom_tree = analysis.dom_tree();
    proof {
        dom_tree.lemma_wf();
    }
    let visits = dom_tree.dfs();
    proof {
        if simple {
            lemma_walk_children_no_fuel(dom_tree.children(), dom_tree.children()[0], dom_tree.children()[0].len() as int);
            assert(visits@ =~= seq![NodeVisit { node: 0, exit: false }, NodeVisit { node: 0, exit: true }]);
        }
    }
    let mut open: usize = 0;
    let mut v: usize = 0;
    while v < visits.len()
        invariant
            proc.wf(),
            analysis.wf(proc.block_count()),
            n == proc.block_count(),
            block_code@.len() == n,
            stack.wf(),
            stack.saved().len() == open,
            v <= visits@.len(),
            simple ==> v >= 1 ==> cont_ending(block_code@[0]@, 0, cont0, None),
            simple ==> visits@ == seq![NodeVisit { node: 0, exit: false }, NodeVisit { node: 0, exit: true }],
            simple ==> n == 1,
            simple ==> (v == 0 ==> open == 0) && (v == 1 ==> open == 1),
            cst ==> simple && cont0 is Stop && const_priors(proc.block_priors(0)),
            cst ==> proc.block_priors(0) == body.priors@ && proc.blocks_view()[0].label is None,
            cst && v == 0 ==> stack@.len() == 0,
            cst && v >= 1 ==> consts_code(block_code@[0]@, pushes_of(body.priors@)),
            cont0 == proc.blocks_view()[0].cont,
        decreases visits@.len() - v,
    {
        let visit = visits[v];
        v = v + 1;
        if visit.exit {
            if open == 0 {
                return Err(CompileError::Unsupported);
            }
            stack.pop_checkpoint();
            open = open - 1;
            continue;
        }
        if open == usize::MAX || visit.node >= n {
            return Err(CompileError::Unsupported);
        }
        stack.push_checkpoint();
        open = open + 1;
        let block_id = CfgId(visit.node);
        let liveness = analysis.liveness(block_id);
        let pinning = analysis.pinning(block_id);
        let last_use = collect_last_use(&proc, block_id);
        if proc.predecessors(block_id).len() > 1 {
            let contents = stack.contents();
            let len = contents.len();
            let mut dead_count = len;
            let mut i = len;
            while i > 0
                invariant
                    i <= len,
                    len == contents@.len(),
                    dead_count <= len,
                    liveness.wf(),
                decreases i,
            {
                i = i - 1;
                match contents[i] {
                    Some(x) => {
                        if liveness.live_in(x.0) {
                            dead_count = len - 1 - i;
                            break;
                        }
                    },
                    None => {},
                }
            }
            popn_checked(&mut stack, dead_count)?;
        }
        let fallthrough_label = match proc.fallthrough(block_id) {
            Some(f) => proc.label(f),
            None => None,
        };
        let mut out: Vec<Instr> = Vec::new();
        compile_block(&proc, block_id, fallthrough_label, liveness, pinning, &last_use, ids, &mut stack, &mut out)?;
        block_code.set(block_id.0, out);
    }
    let mut b = n;
    while b > 0
        invariant
            b <= n,
            block_code@.len() == n,
            code@.len() >= old(code)@.len(),
            code@.subrange(0, old(code)@.len() as int) == old(code)@,
            simple ==> (b == n ==> code@ == old(code)@),
            simple ==> (b == 0 ==> code@ == old(code)@ + block_code@[0]@),
        decreases b,
    {
        b = b - 1;
        let ghost cb = code@;
        let mut c: usize = 0;
        while c < block_code[b].len()
            invariant
                b < n,
                block_code@.len() == n,
                c <= block_code@[b as int]@.len(),
                code@.len() >= old(code)@.len(),
                code@.subrange(0, old(code)@.len() as int) == old(code)@,
                code@ == cb + block_code@[b as int]@.take(c as int),
            decreases block_code@[b as int]@.len() - c,
        {
            code.push(block_code[b][c]);
            proof {
                assert(block_code@[b as int]@.take(c + 1) =~= block_code@[b as int]@.take(c as int).push(block_code@[b as int]@[c as int]));
            }
            c = c + 1;
        }
        proof {
            assert(block_code@[b as int]@.take(c as int) =~= block_code@[b as int]@);
        }
    }
    proof {
        if simple {
            let bc = block_code@[0]@;
            assert(cont_ending(bc, 0, cont0, None));
            assert(code@.last() == bc.last());
        }
        if cst {
            assert(code@.subrange(old(code)@.len() as int, code@.len() as int) =~= block_code@[0]@);
        }
    }
    Ok(())
}

/// Generates the code of a program: the entry block, then each procedure
/// under its label. A program of constant bindings alone compiles to their
/// pushes, the moves that drop what the stop leaves unread, and the stop.
pub fn compile(program: ir::Program, ids: &mut IdGen) -> (r: Result<Vec<Instr>, CompileError>)
    ensures
        r matches Ok(code) ==> forall|i: int| 0 <= i < program.procs@.len()
            ==> code@.contains(Instr::JumpDest(#[trigger] program.procs@[i].0)),
        consts_only(ir::model_program(program)) && old(ids).next() < usize::MAX
            ==> (r matches Ok(code) && consts_code(code@, model_pushes(ir::model_program(program).main.priors))),
{
    proof {
        if consts_only(ir::model_program(program)) {
            lemma_consts_only(program);
            let pp = program.main.priors@;
            lemma_model_priors_at(pp, pp.len() as int);
            assert(pushes_of(pp) =~= model_pushes(ir::model_program(program).main.priors));
        }
    }
    let ghost orig = program.procs@;
    let mut code: Vec<Instr> = Vec::new();
    let ir::Program { main, rets, procs } = program;
    compile_proc(main, &[], Some(rets), ids, &mut code)?;
    let ghost cm = code@;
    proof {
        assert(cm.subrange(0, cm.len() as int) =~= cm);
    }
    let mut rest = procs;
    let mut procs: Vec<(Id, ir::Proc)> = Vec::new();
    while rest.len() > 0
        invariant
            rest@.len() <= orig.len(),
            rest@ == orig.take(rest@.len() as int),
            procs@ == orig.skip(rest@.len() as int).reverse(),
            code@ == cm,
            orig == program.procs@,
        decreases rest@.len(),
    {
        let ghost r0 = rest@;
        let p = rest.pop().unwrap();
        procs.push(p);
        proof {
            assert(rest@ =~= orig.take(rest@.len() as int));
            assert(orig.skip(rest@.len() as int) =~= seq![p].add(orig.skip(r0.len() as int)));
            assert(procs@ =~= orig.skip(rest@.len() as int).reverse());
        }
    }
    proof {
        assert(orig.skip(0) =~= orig);
    }
    let ghost mut done: int = 0;
    while procs.len() > 0
        invariant
            0 <= done <= orig.len(),
            procs@ == orig.skip(done).reverse(),
            forall|i: int| 0 <= i < done ==> code@.contains(Instr::JumpDest(#[trigger] orig[i].0)),
            orig.len() == 0 ==> code@ == cm,
            orig == program.procs@,
        decreases procs@.len(),
    {
        proof {
            if orig.len() == 0 {
                assert(orig.skip(done).reverse().len() == 0);
            }
        }
        let ghost p0 = procs@;
        let (label, proc) = procs.pop().unwrap();
        proof {
            assert(label == orig[done].0);
        }
        let ghost c0 = code@;
        code.push(Instr::JumpDest(label));
        let ghost c1 = code@;
        proof {
            assert(c1[c1.len() - 1] == Instr::JumpDest(label));
        }
        let ir::Proc { args, rets: _, body } = proc;
        compile_proc(body, args.as_slice(), None, ids, &mut code)?;
        proof {
            assert forall|i: int| 0 <= i < done + 1 implies code@.contains(Instr::JumpDest(#[trigger] orig[i].0)) by {
                if i < done {
                    assert(c0.contains(Instr::JumpDest(orig[i].0)));
                    let k = choose|k: int| 0 <= k < c0.len() && c0[k] == Instr::JumpDest(orig[i].0);
                    assert(c1[k] == c0[k]);
                    assert(code@.subrange(0, c1.len() as int)[k] == c1[k]);
                    assert(code@[k] == c1[k]);
                } else {
                    assert(code@.subrange(0, c1.len() as int)[c1.len() - 1] == c1[c1.len() - 1]);
                    assert(code@[c1.len() - 1] == c1[c1.len() - 1]);
                }
            }
            done = done + 1;
            assert(procs@ =~= orig.skip(done).reverse());
        }
    }
    Ok(code)
}


impl Idx for CfgId {
    open spec fn idx_view(&self) -> usize {
        self.0
    }

    fn new(index: usize) -> (r: Self) {
        CfgId(index)
    }

    fn index(self) -> (r: usize) {
        self.0
    }
}

/// The blocks, as numbered nodes.
fn block_ids(ns: &[usize]) -> (r: Vec<CfgId>)
    ensures
        r@.len() == ns@.len(),
        forall|k: int| 0 <= k < r@.len() ==> #[trigger] r@[k].0 == ns@[k],
{
    let mut r: Vec<CfgId> = Vec::new();
    let mut k: usize = 0;
    while k < ns.len()
        invariant
            k <= ns@.len(),
            r@.len() == k,
            forall|j: int| 0 <= j < k ==> #[trigger] r@[j].0 == ns@[j],
        decreases ns@.len() - k,
    {
        r.push(CfgId(ns[k]));
        k = k + 1;
    }
    r
}

impl Graph for ProcCfg {
    type Node = CfgId;

    open spec fn graph_wf(&self) -> bool {
        self.wf()
    }

    open spec fn node_total(&self) -> nat {
        self.block_count()
    }

    fn node_count(&self) -> (n: usize) {
        self.len()
    }

    fn nodes(&self) -> (r: Vec<CfgId>) {
        let n = self.len();
        let mut r: Vec<CfgId> = Vec::new();
        let mut i: usize = 0;
        while i < n
            invariant
                i <= n,
                r@.len() == i,
                forall|k: int| 0 <= k < i ==> #[trigger] r@[k].0 == k,
            decreases n - i,
        {
            r.push(CfgId(i));
            i = i + 1;
        }
        r
    }
}

impl EntryNode for ProcCfg {
    open spec fn entry_view(&self) -> usize {
        (self.block_count() - 1) as usize
    }

    fn entry(&self) -> (r: CfgId) {
        ProcCfg::entry(self)
    }
}

impl Successors for ProcCfg {
    open spec fn succ_view(&self) -> Seq<Seq<usize>> {
        self.succ_lists()
    }

    fn successors(&self, node: CfgId) -> (r: Vec<CfgId>) {
        block_ids(ProcCfg::successors(self, node))
    }
}

impl Predecessors for ProcCfg {
    open spec fn pred_view(&self) -> Seq<Seq<usize>> {
        self.pred_lists()
    }

    fn predecessors(&self, node: CfgId) -> (r: Vec<CfgId>) {
        block_ids(ProcCfg::predecessors(self, node))
    }
}

impl analysis::Procedure for ProcCfg {
    type BlockId = CfgId;
    type VarId = usize;
    type InstrIdx = InstrIdx;
    type Flow = ProcCfg;

    open spec fn proc_wf(&self) -> bool {
        self.wf()
    }

    open spec fn cfg_view(&self) -> ProcCfg {
        *self
    }

    open spec fn instr_view(&self, b: usize) -> Seq<(InstrIdx, usize, DefUse)> {
        block_instrs(self.blocks_view()[b as int], self.block_priors(b as int))
            .map_values(|x: (InstrIdx, (usize, DefUse))| (x.0, x.1.0, x.1.1))
    }

    fn cfg(&self) -> (r: &ProcCfg) {
        self
    }

    fn instructions(&self, b: CfgId) -> (r: Vec<(InstrIdx, usize, DefUse)>) {
        let (idxs, ins) = ProcCfg::instructions(self, b);
        let ghost want = block_instrs(self.blocks_view()[b.0 as int], self.block_priors(b.0 as int));
        let mut r: Vec<(InstrIdx, usize, DefUse)> = Vec::new();
        let mut k: usize = 0;
        while k < idxs.len()
            invariant
                zipped(idxs@, ins@, want),
                k <= idxs@.len(),
                r@.len() == k,
                forall|j: int| 0 <= j < k ==> #[trigger] r@[j] == (want[j].0, want[j].1.0, want[j].1.1),
            decreases idxs@.len() - k,
        {
            r.push((idxs[k], ins[k].0, ins[k].1));
            k = k + 1;
        }
        proof {
            assert(r@ =~= want.map_values(|x: (InstrIdx, (usize, DefUse))| (x.0, x.1.0, x.1.1)));
        }
        r
    }
}

} // verus!
