//! The resumable evaluator: runs the steps of a script one at a time,
//! handing each call to the host.
use vstd::prelude::*;
use crate::ast::{Ast, AstStep, AstStatement, StructureError, header_of, header_from, nests_at, args_model, steps_model, script_steps, well_nested, lemma_wf_model};
use crate::stack::Value;
use crate::method_args::MethodArgs;
use crate::stack::Stack;

verus! {

/// What a script can call: the host implements every method a script uses.
pub trait Host {
    /// Performs the method `name`. The arguments are read through `args`;
    /// a result is bound in `stack` under the name that
    /// `ast.get_return_variable_name(stack)` gives.
    fn call(&mut self, name: &str, args: &mut MethodArgs, stack: &mut Stack, ast: &Ast);
}

/// Owns the host that scripts call into.
pub struct Engine<H: Host> {
    pub host: H,
}

/// How much a call of `execute` may run.
pub struct EvalOptions {
    /// The most steps to run; 0 runs until the script ends.
    pub cycles: usize,
}

impl Default for EvalOptions {
    fn default() -> (r: Self)
        ensures
            r.cycles == 0,
    {
        EvalOptions { cycles: 0 }
    }
}

/// The program counter after the step at `pc` has run. After the last
/// step of a block the counter goes back to the first step of the
/// enclosing `loop:` body.
pub open spec fn next_pc(steps: Seq<AstStep>, pc: nat) -> nat {
    if pc >= steps.len() {
        pc
    } else if steps[pc as int].statement is Loop {
        pc + 1
    } else {
        let d = steps[pc as int].ident;
        let nd = if pc + 1 < steps.len() { steps[pc + 1int].ident } else { 0 };
        if nd < d {
            (header_of(steps, pc as int) + 1) as nat
        } else {
            pc + 1
        }
    }
}

/// The program counter after up to `n` steps from `pc`; a finished
/// script stays finished.
pub open spec fn run_pc(steps: Seq<AstStep>, pc: nat, n: nat) -> nat
    decreases n,
{
    if n == 0 || pc >= steps.len() {
        pc
    } else {
        run_pc(steps, next_pc(steps, pc), (n - 1) as nat)
    }
}

/// One call handed to the host: the method name and the argument texts.
pub type HostCall = (Seq<char>, Seq<Seq<char>>);

/// The host call that the step at `pc` makes, if it is a call.
pub open spec fn step_call(steps: Seq<AstStep>, pc: nat) -> Seq<HostCall> {
    if pc < steps.len() {
        match steps[pc as int].statement {
            AstStatement::MethodCall { name, args, .. } => seq![(name@, args_model(args@))],
            AstStatement::Loop => seq![],
        }
    } else {
        seq![]
    }
}

/// The host calls that up to `n` steps from `pc` make, in order.
pub open spec fn calls_of(steps: Seq<AstStep>, pc: nat, n: nat) -> Seq<HostCall>
    decreases n,
{
    if n == 0 || pc >= steps.len() {
        seq![]
    } else {
        step_call(steps, pc) + calls_of(steps, next_pc(steps, pc), (n - 1) as nat)
    }
}

/// A running script: its steps, the engine, the frame and the host calls
/// made so far.
pub struct EvalContext<H: Host> {
    ast: Ast,
    pub engine: Engine<H>,
    stack: Stack,
    calls: Ghost<Seq<HostCall>>,
}

impl<H: Host> Engine<H> {
    pub fn new(host: H) -> (r: Self)
        ensures
            r.host == host,
    {
        Engine { host }
    }

    /// Parses `script` into steps and starts evaluating it at its first
    /// step. Fails if the steps are not well nested.
    pub fn start_eval(self, script: &str) -> (r: Result<EvalContext<H>, StructureError>)
        ensures
            r is Ok <==> well_nested(script_steps(script@)),
            r is Ok ==> r->Ok_0.inv() && r->Ok_0.pc() == 0 && steps_model(r->Ok_0.steps()) == script_steps(script@)
                && r->Ok_0.vars() =~= Map::empty() && r->Ok_0.calls() == Seq::<HostCall>::empty(),
    {
        match Ast::parse(script) {
            Ok(ast) => {
                proof {
                    lemma_wf_model(&ast);
                }
                EvalContext::new(self, ast)
            },
            Err(e) => Err(e),
        }
    }
}

impl<H: Host> EvalContext<H> {
    pub closed spec fn inv(&self) -> bool {
        &&& self.ast.wf()
        &&& self.stack.pc() <= self.ast.steps@.len()
    }

    /// The index of the next step to run.
    pub closed spec fn pc(&self) -> nat {
        self.stack.pc()
    }

    pub closed spec fn steps(&self) -> Seq<AstStep> {
        self.ast.steps@
    }

    /// The variables of the script's frame.
    pub closed spec fn vars(&self) -> Map<Seq<char>, Value> {
        self.stack.vars()
    }

    /// The host calls made so far, in order: method name and argument texts.
    pub closed spec fn calls(&self) -> Seq<HostCall> {
        self.calls@
    }

    pub open spec fn running(&self) -> bool {
        self.pc() < self.steps().len()
    }

    /// Starts evaluating `ast` at its first step, with no variables.
    pub fn new(engine: Engine<H>, ast: Ast) -> (r: Result<Self, StructureError>)
        ensures
            r is Ok <==> ast.wf(),
            r is Ok ==> r->Ok_0.inv() && r->Ok_0.pc() == 0 && r->Ok_0.steps() == ast.steps@
                && r->Ok_0.vars() =~= Map::empty() && r->Ok_0.calls() == Seq::<HostCall>::empty(),
    {
        match ast.check() {
            Ok(()) => Ok(EvalContext { ast, engine, stack: Stack::new(), calls: Ghost(Seq::empty()) }),
            Err(e) => Err(e),
        }
    }

    pub fn ast(&self) -> (r: &Ast)
        ensures
            r.steps@ == self.steps(),
    {
        &self.ast
    }

    /// The frame of the script.
    pub fn stack(&self) -> (r: &Stack)
        ensures
            r.pc() == self.pc(),
            r.vars() == self.vars(),
    {
        &self.stack
    }

    /// Whether steps are left to run.
    pub fn is_running(&self) -> (r: bool)
        ensures
            r == self.running(),
    {
        self.stack.ast_index() < self.ast.steps.len()
    }

    /// Runs the step at the program counter.
    fn step(&mut self)
        requires
            old(self).inv(),
            old(self).running(),
        ensures
            final(self).inv(),
            final(self).steps() == old(self).steps(),
            final(self).pc() == next_pc(old(self).steps(), old(self).pc()),
            final(self).calls() == old(self).calls() + step_call(old(self).steps(), old(self).pc()),
            old(self).steps()[old(self).pc() as int].statement is Loop ==> final(self).vars() == old(self).vars(),
    {
        let n = self.ast.steps.len();
        let pc = self.stack.ast_index();
        let stmt = &self.ast.steps[pc];
        match &stmt.statement {
            AstStatement::Loop => {
                self.stack.set_ast_index(pc + 1);
            },
            AstStatement::MethodCall { name, args, .. } => {
                let mut margs = MethodArgs::from(args);
                self.calls = Ghost(self.calls@.push((name@, args_model(args@))));
                self.engine.host.call(name.as_str(), &mut margs, &mut self.stack, &self.ast);
                // The counter is not the host's to move; keep it where the
                // call was made.
                self.stack.set_ast_index(pc);
                let next_ident = if pc + 1 < n {
                    self.ast.steps[pc + 1].ident
                } else {
                    0
                };
                if next_ident < stmt.ident {
                    let (idx, _) = self.ast.find_ident_stmt(pc);
                    self.stack.set_ast_index(idx + 1);
                } else {
                    self.stack.set_ast_index(pc + 1);
                }
            },
        }
    }

    /// Runs up to `options.cycles` steps, or, when that is 0, until the
    /// script ends (at most `usize::MAX` steps). Returns early when the
    /// script ends; a later call resumes where this one stopped.
    pub fn execute(&mut self, options: &EvalOptions)
        requires
            old(self).inv(),
        ensures
            final(self).inv(),
            final(self).steps() == old(self).steps(),
            options.cycles > 0 ==> final(self).pc() == run_pc(old(self).steps(), old(self).pc(), options.cycles as nat),
            options.cycles == 0 ==> final(self).pc() == run_pc(old(self).steps(), old(self).pc(), usize::MAX as nat),
            options.cycles > 0 ==> final(self).calls() == old(self).calls() + calls_of(old(self).steps(), old(self).pc(), options.cycles as nat),
            options.cycles == 0 ==> final(self).calls() == old(self).calls() + calls_of(old(self).steps(), old(self).pc(), usize::MAX as nat),
    {
        let budget = if options.cycles == 0 { usize::MAX } else { options.cycles };
        let mut done: usize = 0;
        while done < budget && self.is_running()
            invariant
                self.inv(),
                self.steps() == old(self).steps(),
                done <= budget,
                run_pc(old(self).steps(), old(self).pc(), budget as nat)
                    == run_pc(self.steps(), self.pc(), (budget - done) as nat),
                old(self).calls() + calls_of(old(self).steps(), old(self).pc(), budget as nat)
                    == self.calls() + calls_of(self.steps(), self.pc(), (budget - done) as nat),
            decreases budget - done,
        {
            let ghost before = self.calls();
            let ghost pc = self.pc();
            self.step();
            proof {
                assert(before + calls_of(self.steps(), pc, (budget - done) as nat)
                    =~= self.calls() + calls_of(self.steps(), self.pc(), (budget - done - 1) as nat));
            }
            done = done + 1;
        }
        proof {
            assert(self.calls() + calls_of(self.steps(), self.pc(), (budget - done) as nat) =~= self.calls());
        }
    }
}

proof fn lemma_header_before(steps: Seq<AstStep>, d: nat, j: int)
    requires
        -1 <= j < steps.len(),
    ensures
        -1 <= header_from(steps, d, j) <= j,
    decreases j + 1,
{
    if j >= 0 && steps[j].ident != d {
        lemma_header_before(steps, d, j - 1);
    }
}

/// In a well-nested script whose last step is an indented call, every
/// step leads to another step: the enclosing loop is re-entered and the
/// script never ends on its own.
pub proof fn lemma_loop_never_ends(steps: Seq<AstStep>, pc: nat, n: nat)
    requires
        forall|i: int| 0 <= i < steps.len() ==> #[trigger] nests_at(steps, i),
        steps.len() > 0,
        steps.last().ident > 0,
        steps.last().statement is MethodCall,
        pc < steps.len(),
    ensures
        run_pc(steps, pc, n) < steps.len(),
    decreases n,
{
    if n > 0 {
        if pc + 1 == steps.len() {
            assert(steps[pc as int] == steps.last());
        }
        if steps[pc as int].statement is MethodCall {
            let d = steps[pc as int].ident;
            let nd = if pc + 1 < steps.len() { steps[pc + 1int].ident } else { 0 };
            if nd < d {
                lemma_header_before(steps, (d - 1) as nat, pc - 1);
                assert(header_of(steps, pc as int) <= pc - 1);
                assert(next_pc(steps, pc) <= pc);
            } else {
                assert(pc + 1 < steps.len());
                assert(next_pc(steps, pc) == pc + 1);
            }
        } else {
            assert(pc + 1 < steps.len());
        }
        assert(next_pc(steps, pc) < steps.len());
        lemma_loop_never_ends(steps, next_pc(steps, pc), (n - 1) as nat);
    }
}

/// Running `a` steps and then `b` more reaches the program counter and
/// makes the host calls that running `a + b` steps at once does: how a
/// budget is split across calls of `execute` changes neither.
pub proof fn lemma_run_chunks(steps: Seq<AstStep>, pc: nat, a: nat, b: nat)
    ensures
        run_pc(steps, run_pc(steps, pc, a), b) == run_pc(steps, pc, a + b),
        calls_of(steps, pc, a) + calls_of(steps, run_pc(steps, pc, a), b) == calls_of(steps, pc, a + b),
    decreases a,
{
    if a == 0 {
        assert(seq![] + calls_of(steps, pc, b) =~= calls_of(steps, pc, b));
    } else if pc >= steps.len() {
        assert(seq![] + calls_of(steps, pc, b) =~= calls_of(steps, pc, a + b));
    } else {
        let next = next_pc(steps, pc);
        lemma_run_chunks(steps, next, (a - 1) as nat, b);
        assert((a - 1) as nat + b == (a + b - 1) as nat);
        assert(step_call(steps, pc) + calls_of(steps, next, (a - 1) as nat) + calls_of(steps, run_pc(steps, next, (a - 1) as nat), b)
            =~= step_call(steps, pc) + (calls_of(steps, next, (a - 1) as nat) + calls_of(steps, run_pc(steps, next, (a - 1) as nat), b)));
    }
}

/// Once a script has ended, further steps change nothing and make no host
/// call: a run to the end in one call of `execute` and one split into
/// smaller budgets agree.
pub proof fn lemma_run_finished(steps: Seq<AstStep>, pc: nat, n: nat, m: nat)
    requires
        run_pc(steps, pc, n) >= steps.len(),
        n <= m,
    ensures
        run_pc(steps, pc, m) == run_pc(steps, pc, n),
        calls_of(steps, pc, m) == calls_of(steps, pc, n),
    decreases n,
{
    if n > 0 && pc < steps.len() {
        lemma_run_finished(steps, next_pc(steps, pc), (n - 1) as nat, (m - 1) as nat);
    }
}

/// A `loop:` whose body is one call: every step from the body makes that
/// call again and comes back to it, so `n` steps make `n` such calls and
/// the script is still running.
pub proof fn lemma_loop_repeats_call(steps: Seq<AstStep>, n: nat)
    requires
        steps.len() == 2,
        steps[0].statement is Loop,
        steps[0].ident == 0,
        steps[1].statement is MethodCall,
        steps[1].ident == 1,
    ensures
        run_pc(steps, 1, n) == 1,
        calls_of(steps, 1, n) == Seq::new(n, |i: int| step_call(steps, 1)[0]),
    decreases n,
{
    assert(header_from(steps, 0, 0) == 0);
    assert(next_pc(steps, 1) == 1);
    if n > 0 {
        lemma_loop_repeats_call(steps, (n - 1) as nat);
        assert(step_call(steps, 1).len() == 1);
        assert(calls_of(steps, 1, n) =~= Seq::new(n, |i: int| step_call(steps, 1)[0]));
    } else {
        assert(calls_of(steps, 1, n) =~= Seq::new(n, |i: int| step_call(steps, 1)[0]));
    }
}

/// A script of calls at depth 0, run from `pc` with a budget of at least
/// the steps left, makes each remaining call once, in step order, and ends.
pub proof fn lemma_flat_calls_in_order(steps: Seq<AstStep>, pc: nat, n: nat)
    requires
        forall|i: int| 0 <= i < steps.len() ==> (#[trigger] steps[i]).statement is MethodCall && steps[i].ident == 0,
        pc <= steps.len(),
        n >= steps.len() - pc,
    ensures
        run_pc(steps, pc, n) == steps.len(),
        calls_of(steps, pc, n) == Seq::new((steps.len() - pc) as nat, |i: int| step_call(steps, (pc + i) as nat)[0]),
    decreases steps.len() - pc,
{
    if pc < steps.len() {
        assert(steps[pc as int].statement is MethodCall && steps[pc as int].ident == 0);
        assert(next_pc(steps, pc) == pc + 1);
        lemma_flat_calls_in_order(steps, pc + 1, (n - 1) as nat);
        assert(step_call(steps, pc).len() == 1);
        assert(calls_of(steps, pc, n) =~= Seq::new((steps.len() - pc) as nat, |i: int| step_call(steps, (pc + i) as nat)[0]));
    } else {
        assert(calls_of(steps, pc, n) =~= Seq::new((steps.len() - pc) as nat, |i: int| step_call(steps, (pc + i) as nat)[0]));
    }
}

/// A budget of `n` steps makes at most `n` host calls.
pub proof fn lemma_calls_bound(steps: Seq<AstStep>, pc: nat, n: nat)
    ensures
        calls_of(steps, pc, n).len() <= n,
    decreases n,
{
    if n > 0 && pc < steps.len() {
        lemma_calls_bound(steps, next_pc(steps, pc), (n - 1) as nat);
    }
}

} // verus!
