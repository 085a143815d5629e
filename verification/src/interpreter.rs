use vstd::prelude::*;
use vstd::pervasive::VecAdditionalExecFns;

use crate::parser::{
    lemma_stmt_nodes, stmt_node, stmt_nodes, IoMode, Statement, StatementKind, StmtNode, Value,
};

verus! {

/// The tape's fixed length: the number of cells a fresh machine owns.
pub const MEMORY_SIZE: usize = 30000;

/// How many loop passes, counted along any one nesting path, a run may
/// take before it is cut off.  Execution semantics put no bound on loop
/// passes, so the machine runs under this fuel; a host that needs a
/// tighter bound on run time hands its own to [`Vm::run_statements`].
pub const DEFAULT_FUEL: u64 = u64::MAX;

/// The machine's whole observable state: the tape, the data pointer,
/// the input bytes not yet consumed, and the output bytes emitted so
/// far.  Contracts speak of execution as transformations of this state.
#[verifier::ext_equal]
pub struct VmState {
    pub memory: Seq<u8>,
    pub index: int,
    pub input: Seq<u8>,
    pub output: Seq<u8>,
}

/// The data pointer stays on the tape.
pub open spec fn state_wf(st: VmState) -> bool {
    0 <= st.index < st.memory.len()
}

/// The cell under the data pointer.
pub open spec fn cell(st: VmState) -> u8 {
    st.memory[st.index]
}

/// A pointer move, clamped at the tape's ends: moving left at cell 0 or
/// right at the last cell leaves the pointer unchanged, silently.
pub open spec fn ptr_step(st: VmState, dir: Value) -> VmState {
    match dir {
        Value::Inc => if st.index + 1 < st.memory.len() {
            VmState { index: st.index + 1, ..st }
        } else {
            st
        },
        Value::Dec => if st.index > 0 {
            VmState { index: st.index - 1, ..st }
        } else {
            st
        },
    }
}

/// One more than a cell value, wrapping past the top to 0.
pub open spec fn wrap_inc(c: u8) -> u8 {
    if c == u8::MAX {
        0
    } else {
        (c + 1) as u8
    }
}

/// One less than a cell value, wrapping past 0 to the top.
pub open spec fn wrap_dec(c: u8) -> u8 {
    if c == 0 {
        u8::MAX
    } else {
        (c - 1) as u8
    }
}

/// Cell arithmetic on the cell under the pointer, with wraparound at
/// both numeric boundaries: a defined, observable behaviour, not an
/// error.
pub open spec fn math_step(st: VmState, dir: Value) -> VmState {
    let v = match dir {
        Value::Inc => wrap_inc(cell(st)),
        Value::Dec => wrap_dec(cell(st)),
    };
    VmState { memory: st.memory.update(st.index, v), ..st }
}

/// A byte of input or output.  Writing emits the cell under the pointer;
/// reading consumes the next input byte into that cell, or stores 0 when
/// the input is exhausted (end of stream, not an error).
pub open spec fn io_step(st: VmState, mode: IoMode) -> VmState {
    match mode {
        IoMode::Out => VmState { output: st.output.push(cell(st)), ..st },
        IoMode::In => if st.input.len() > 0 {
            VmState {
                memory: st.memory.update(st.index, st.input[0]),
                input: st.input.drop_first(),
                ..st
            }
        } else {
            VmState { memory: st.memory.update(st.index, 0u8), ..st }
        },
    }
}

/// What executing one statement does to the state.
///
/// A loop re-checks the cell under the pointer before every pass: while
/// it is non-zero the body runs in full and the check happens again, and
/// a zero cell skips or leaves the loop.  Every pass spends one unit of
/// fuel; `None` is the run that still wants a pass when the fuel is
/// exhausted.  The other statements spend nothing and always finish.
pub open spec fn run_stmt(s: StmtNode, st: VmState, fuel: nat) -> Option<VmState>
    decreases fuel, 0nat,
{
    match s {
        StmtNode::Ptr { dir } => Some(ptr_step(st, dir)),
        StmtNode::Math { dir } => Some(math_step(st, dir)),
        StmtNode::Io { mode } => Some(io_step(st, mode)),
        StmtNode::Loop { body } => if cell(st) == 0 {
            Some(st)
        } else if fuel == 0 {
            None
        } else {
            match run_stmts(body, st, (fuel - 1) as nat) {
                None => None,
                Some(st2) => run_stmt(s, st2, (fuel - 1) as nat),
            }
        },
    }
}

/// What executing a statement sequence does: each statement's effect in
/// order, left to right, stopping only for exhausted fuel.
pub open spec fn run_stmts(ss: Seq<StmtNode>, st: VmState, fuel: nat) -> Option<VmState>
    decreases fuel, ss.len(),
{
    if ss.len() == 0 {
        Some(st)
    } else {
        match run_stmt(ss[0], st, fuel) {
            None => None,
            Some(st2) => run_stmts(ss.drop_first(), st2, fuel),
        }
    }
}

/// Law: cell arithmetic wraps around.  Incrementing a cell at its
/// maximum value yields the minimum, and decrementing at the minimum
/// yields the maximum; neither is an error and neither stops the run.
pub proof fn lemma_cell_wraparound(st: VmState, fuel: nat)
    requires
        state_wf(st),
    ensures
        cell(st) == u8::MAX ==> run_stmt(StmtNode::Math { dir: Value::Inc }, st, fuel) == Some(
            (VmState { memory: st.memory.update(st.index, 0u8), ..st }),
        ),
        cell(st) == 0 ==> run_stmt(StmtNode::Math { dir: Value::Dec }, st, fuel) == Some(
            (VmState { memory: st.memory.update(st.index, u8::MAX), ..st }),
        ),
{
}

/// Law: pointer moves clamp at the tape's ends.  Moving left at cell 0,
/// or right at the last cell, leaves the whole state unchanged.
pub proof fn lemma_pointer_clamp(st: VmState, fuel: nat)
    requires
        state_wf(st),
    ensures
        st.index == 0 ==> run_stmt(StmtNode::Ptr { dir: Value::Dec }, st, fuel) == Some(st),
        st.index == st.memory.len() - 1 ==> run_stmt(StmtNode::Ptr { dir: Value::Inc }, st, fuel)
            == Some(st),
{
}

/// A prefix of a prefix is a prefix.
proof fn lemma_prefix_trans(a: Seq<u8>, b: Seq<u8>, c: Seq<u8>)
    requires
        a.is_prefix_of(b),
        b.is_prefix_of(c),
    ensures
        a.is_prefix_of(c),
{
    assert(c.subrange(0, b.len() as int).subrange(0, a.len() as int) =~= c.subrange(
        0,
        a.len() as int,
    ));
}

/// The tree-walking virtual machine: a parsed program, the bounded
/// zero-initialized tape it owns exclusively for one run, the data
/// pointer into that tape, and the two byte streams.  `input` from
/// `cursor` onward is what remains to be read; `output` collects every
/// byte written.
pub struct Vm {
    pub program: Vec<Statement>,
    pub memory: Vec<u8>,
    pub index: usize,
    pub input: Vec<u8>,
    pub cursor: usize,
    pub output: Vec<u8>,
}

impl Vm {
    /// The machine's observable state, as the execution semantics see it.
    pub open spec fn state(self) -> VmState {
        VmState {
            memory: self.memory@,
            index: self.index as int,
            input: self.input@.skip(self.cursor as int),
            output: self.output@,
        }
    }

    /// The pointer is on the tape and the input cursor within the input.
    pub open spec fn wf(self) -> bool {
        &&& self.index < self.memory@.len()
        &&& self.cursor <= self.input@.len()
    }

    /// A fresh machine for one parsed program: a zeroed tape of
    /// [`MEMORY_SIZE`] cells, the pointer at cell 0, no input and no
    /// output yet.  A host that feeds the program bytes fills `input`
    /// before running.
    pub fn new(ast: Vec<Statement>) -> (vm: Vm)
        ensures
            vm.wf(),
            vm.program == ast,
            vm.memory@.len() == MEMORY_SIZE,
            forall|i: int| 0 <= i < MEMORY_SIZE ==> vm.memory@[i] == 0u8,
            vm.index == 0,
            vm.input@ == Seq::<u8>::empty(),
            vm.cursor == 0,
            vm.output@ == Seq::<u8>::empty(),
    {
        Vm {
            program: ast,
            memory: vec![0u8; MEMORY_SIZE],
            index: 0,
            input: Vec::new(),
            cursor: 0,
            output: Vec::new(),
        }
    }

    /// A fresh machine as [`Vm::new`] makes one, but with a
    /// caller-chosen tape length.  The tape needs at least one cell for
    /// the data pointer to stand on.
    pub fn with_tape_size(ast: Vec<Statement>, tape_size: usize) -> (vm: Vm)
        requires
            tape_size >= 1,
        ensures
            vm.wf(),
            vm.program == ast,
            vm.memory@.len() == tape_size,
            forall|i: int| 0 <= i < tape_size ==> vm.memory@[i] == 0u8,
            vm.index == 0,
            vm.input@ == Seq::<u8>::empty(),
            vm.cursor == 0,
            vm.output@ == Seq::<u8>::empty(),
    {
        Vm {
            program: ast,
            memory: vec![0u8; tape_size],
            index: 0,
            input: Vec::new(),
            cursor: 0,
            output: Vec::new(),
        }
    }

    /// The cell under the data pointer.
    pub fn get_cell(&self) -> (c: u8)
        requires
            self.wf(),
        ensures
            c == cell(self.state()),
    {
        self.memory[self.index]
    }

    /// Overwrites the cell under the data pointer.
    pub fn set_cell(&mut self, value: u8)
        requires
            old(self).wf(),
        ensures
            final(self).wf(),
            final(self).memory@ == old(self).memory@.update(old(self).index as int, value),
            final(self).program == old(self).program,
            final(self).index == old(self).index,
            final(self).input == old(self).input,
            final(self).cursor == old(self).cursor,
            final(self).output == old(self).output,
    {
        self.memory.set(self.index, value);
    }

    /// Runs the whole program against the machine's state under the
    /// default fuel, leaving the program itself untouched.  Returns
    /// whether the run finished; a cut-off run reports `false` and the
    /// contract then promises nothing of the state it stopped in.
    pub fn run(&mut self) -> (done: bool)
        requires
            old(self).wf(),
        ensures
            final(self).wf(),
            final(self).program == old(self).program,
            final(self).memory@.len() == old(self).memory@.len(),
            final(self).input == old(self).input,
            old(self).cursor <= final(self).cursor,
            old(self).output@.is_prefix_of(final(self).output@),
            done == run_stmts(
                stmt_nodes(old(self).program@),
                old(self).state(),
                DEFAULT_FUEL as nat,
            ).is_some(),
            done ==> run_stmts(stmt_nodes(old(self).program@), old(self).state(), DEFAULT_FUEL as nat)
                == Some(final(self).state()),
    {
        let mut pg: Vec<Statement> = Vec::new();
        core::mem::swap(&mut pg, &mut self.program);
        let done = self.run_statements(&pg, DEFAULT_FUEL);
        core::mem::swap(&mut pg, &mut self.program);
        done
    }

    /// Executes a statement sequence against the machine's state, in
    /// order, exactly as [`run_stmts`] lays down: pointer moves clamped
    /// at the tape's ends, cell arithmetic with wraparound, reads that
    /// store 0 once input is exhausted, and loops that re-check the
    /// current cell before every pass.  Each loop pass spends one unit
    /// of `fuel` along its nesting path; `false` reports a run cut off
    /// by exhausted fuel, and only then.
    #[verifier::loop_isolation(false)]
    pub fn run_statements(&mut self, pg: &Vec<Statement>, fuel: u64) -> (done: bool)
        requires
            old(self).wf(),
        ensures
            final(self).wf(),
            final(self).program == old(self).program,
            final(self).memory@.len() == old(self).memory@.len(),
            final(self).input == old(self).input,
            old(self).cursor <= final(self).cursor,
            old(self).output@.is_prefix_of(final(self).output@),
            done == run_stmts(stmt_nodes(pg@), old(self).state(), fuel as nat).is_some(),
            done ==> run_stmts(stmt_nodes(pg@), old(self).state(), fuel as nat) == Some(
                final(self).state(),
            ),
        decreases fuel,
    {
        let ghost nodes = stmt_nodes(pg@);
        proof {
            lemma_stmt_nodes(pg@);
        }
        let ghost s0 = self.state();
        proof {
            assert(nodes.skip(0) =~= nodes);
            assert(self.output@.is_prefix_of(self.output@)) by {
                assert(self.output@.subrange(0, self.output@.len() as int) =~= self.output@);
            }
        }
        let mut idx: usize = 0;
        while idx < pg.len()
            invariant
                self.wf(),
                self.program == old(self).program,
                self.memory@.len() == old(self).memory@.len(),
                self.input == old(self).input,
                old(self).cursor <= self.cursor,
                old(self).output@.is_prefix_of(self.output@),
                idx <= pg@.len(),
                run_stmts(nodes, s0, fuel as nat) == run_stmts(
                    nodes.skip(idx as int),
                    self.state(),
                    fuel as nat,
                ),
            decreases pg@.len() - idx,
        {
            let ghost pre = self.state();
            let ghost node = stmt_node(pg@[idx as int]);
            proof {
                assert(nodes.skip(idx as int)[0] == nodes[idx as int]);
                assert(nodes.skip(idx as int).drop_first() =~= nodes.skip(idx as int + 1));
            }
            let st = &pg[idx];
            match &st.kind {
                StatementKind::Loop => {
                    let mut f = fuel;
                    while self.get_cell() != 0
                        invariant
                            self.wf(),
                            self.program == old(self).program,
                            self.memory@.len() == old(self).memory@.len(),
                            self.input == old(self).input,
                            old(self).cursor <= self.cursor,
                            old(self).output@.is_prefix_of(self.output@),
                            f <= fuel,
                            run_stmt(node, pre, fuel as nat) == run_stmt(
                                node,
                                self.state(),
                                f as nat,
                            ),
                        decreases f,
                    {
                        if f == 0 {
                            proof {
                                assert(run_stmt(node, self.state(), 0nat) is None);
                            }
                            return false;
                        }
                        let ghost mid = self.output@;
                        let done = self.run_statements(&st.children, f - 1);
                        proof {
                            lemma_prefix_trans(old(self).output@, mid, self.output@);
                        }
                        if !done {
                            return false;
                        }
                        f = f - 1;
                    }
                    proof {
                        assert(run_stmt(node, self.state(), f as nat) == Some(self.state()));
                    }
                },
                StatementKind::Ptr(v) => {
                    match v {
                        Value::Inc => {
                            if self.index < self.memory.len() - 1 {
                                self.index = self.index + 1;
                            }
                        },
                        Value::Dec => {
                            if self.index > 0 {
                                self.index = self.index - 1;
                            }
                        },
                    }
                    proof {
                        assert(self.state() =~~= ptr_step(pre, *v));
                    }
                },
                StatementKind::Math(v) => {
                    let c = self.get_cell();
                    let nv = match v {
                        Value::Inc => if c == u8::MAX {
                            0
                        } else {
                            c + 1
                        },
                        Value::Dec => if c == 0 {
                            u8::MAX
                        } else {
                            c - 1
                        },
                    };
                    self.set_cell(nv);
                    proof {
                        assert(self.state() =~~= math_step(pre, *v));
                    }
                },
                StatementKind::Io(m) => {
                    match m {
                        IoMode::Out => {
                            let c = self.get_cell();
                            let ghost mid = self.output@;
                            self.output.push(c);
                            proof {
                                assert(mid.is_prefix_of(self.output@)) by {
                                    assert(self.output@.subrange(0, mid.len() as int) =~= mid);
                                }
                                lemma_prefix_trans(old(self).output@, mid, self.output@);
                            }
                        },
                        IoMode::In => {
                            if self.cursor < self.input.len() {
                                let b = self.input[self.cursor];
                                self.cursor = self.cursor + 1;
                                self.set_cell(b);
                            } else {
                                self.set_cell(0);
                            }
                        },
                    }
                    proof {
                        assert(self.state() =~~= io_step(pre, *m));
                    }
                },
            }
            idx = idx + 1;
        }
        proof {
            assert(nodes.skip(pg@.len() as int) =~= Seq::<StmtNode>::empty());
        }
        true
    }
}

} // verus!
