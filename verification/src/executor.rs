//! The execution pass: a program counter walks the lines, writing a flat
//! memory array and keeping a call stack of return points in lock-step with a
//! stack of per-call activation frames.  Memory starts with one cell per
//! global variable; each local declared during a call appends a cell, and the
//! closing `}` of the call truncates those cells away again.

use vstd::pervasive::VecAdditionalExecFns;
use vstd::prelude::*;

use crate::analyzer::find_fn;
use crate::analyzer::fn_line;
use crate::analyzer::FnEntry;
use crate::analyzer::FnEntryV;
use crate::instr::classify;
use crate::instr::is_block_end;
use crate::instr::parse_i32_token;
use crate::instr::spec_classify;
use crate::instr::spec_parse_i32;
use crate::instr::Instr;
use crate::instr::InstrV;

verus! {

/// One binding of an activation frame: a local variable name and the memory
/// address handed to it for the duration of the call.
#[derive(Debug, Clone, PartialEq, Eq)]
pub struct LocalEntry {
    pub name: String,
    pub addr: usize,
}

/// The mathematical form of a frame binding.
pub struct LocalEntryV {
    pub name: Seq<char>,
    pub addr: int,
}

impl DeepView for LocalEntry {
    type V = LocalEntryV;

    open spec fn deep_view(&self) -> LocalEntryV {
        LocalEntryV { name: self.name@, addr: self.addr as int }
    }
}

/// One observable event of the execution, in line-processing order.
#[derive(Debug, Clone, PartialEq, Eq)]
pub enum Event {
    /// a local variable received a fresh memory cell
    LocalCreated { name: String, addr: usize },
    /// a variable write: which name, at which address, received which value
    Write { name: String, addr: usize, value: i32 },
    /// a call began: one call-stack entry and one empty frame were pushed
    CallEnter { name: String, caller_line: usize },
    /// a call ended: execution resumes at this line
    Return { target_line: usize },
    /// an activation frame was discarded, freeing this many memory cells
    FrameDropped { cells: usize },
    /// a call to a name the function table does not hold: a no-op
    UnknownFunction { name: String, line: usize },
    /// a `}` with no call to return to, or a function body never closed
    UnbalancedBlock { line: usize },
}

/// The mathematical form of an event.
pub enum EventV {
    LocalCreated { name: Seq<char>, addr: int },
    Write { name: Seq<char>, addr: int, value: i32 },
    CallEnter { name: Seq<char>, caller_line: usize },
    Return { target_line: usize },
    FrameDropped { cells: int },
    UnknownFunction { name: Seq<char>, line: usize },
    UnbalancedBlock { line: usize },
}

impl DeepView for Event {
    type V = EventV;

    open spec fn deep_view(&self) -> EventV {
        match self {
            Event::LocalCreated { name, addr } => EventV::LocalCreated {
                name: name@,
                addr: *addr as int,
            },
            Event::Write { name, addr, value } => EventV::Write {
                name: name@,
                addr: *addr as int,
                value: *value,
            },
            Event::CallEnter { name, caller_line } => EventV::CallEnter {
                name: name@,
                caller_line: *caller_line,
            },
            Event::Return { target_line } => EventV::Return { target_line: *target_line },
            Event::FrameDropped { cells } => EventV::FrameDropped { cells: *cells as int },
            Event::UnknownFunction { name, line } => EventV::UnknownFunction {
                name: name@,
                line: *line,
            },
            Event::UnbalancedBlock { line } => EventV::UnbalancedBlock { line: *line },
        }
    }
}

/// What the execution pass returns: the final memory, the two stacks (empty
/// for a well-formed program), the event trace, and whether the program
/// counter ran off the end of the text (rather than the step budget running
/// out first).
#[derive(Debug, Clone, PartialEq, Eq)]
pub struct Execution {
    pub memory: Vec<i32>,
    pub call_stack: Vec<usize>,
    pub frames: Vec<Vec<LocalEntry>>,
    pub events: Vec<Event>,
    pub halted: bool,
}

/// The mathematical state of the execution machine.
pub struct EStateV {
    pub pc: usize,
    pub memory: Seq<i32>,
    pub call_stack: Seq<usize>,
    pub frames: Seq<Seq<LocalEntryV>>,
    pub events: Seq<EventV>,
}

/// The memory address of a global variable: its index in the global table,
/// taking the first entry when a name repeats.
pub open spec fn global_index(globals: Seq<Seq<char>>, name: Seq<char>) -> Option<int>
    decreases globals.len(),
{
    if globals.len() == 0 {
        None
    } else if globals[0] == name {
        Some(0int)
    } else {
        match global_index(globals.drop_first(), name) {
            Some(i) => Some(i + 1),
            None => None,
        }
    }
}

/// The memory address a frame binds the given name to, taking the first
/// binding when a name repeats.
pub open spec fn frame_addr(frame: Seq<LocalEntryV>, name: Seq<char>) -> Option<int>
    decreases frame.len(),
{
    if frame.len() == 0 {
        None
    } else if frame[0].name == name {
        Some(frame[0].addr)
    } else {
        frame_addr(frame.drop_first(), name)
    }
}

/// Where an assignment writes: the current activation frame is consulted
/// first, then the global table.
pub open spec fn resolve_addr(
    globals: Seq<Seq<char>>,
    frames: Seq<Seq<LocalEntryV>>,
    name: Seq<char>,
) -> Option<int> {
    if frames.len() > 0 && frame_addr(frames.last(), name) is Some {
        frame_addr(frames.last(), name)
    } else {
        global_index(globals, name)
    }
}

/// The index of the first `}` line at or after line `i`, if any.
pub open spec fn find_close(lines: Seq<Seq<Seq<char>>>, i: int) -> Option<int>
    decreases lines.len() - i,
{
    if i < 0 || i >= lines.len() {
        None
    } else if spec_classify(lines[i]) is BlockEnd {
        Some(i)
    } else {
        find_close(lines, i + 1)
    }
}

/// How many memory cells the live activation frames own together.
pub open spec fn frames_cells(frames: Seq<Seq<LocalEntryV>>) -> int
    decreases frames.len(),
{
    if frames.len() == 0 {
        0
    } else {
        frames_cells(frames.drop_last()) + frames.last().len()
    }
}

/// The state execution starts from: the program counter at line zero, one
/// zeroed memory cell per global variable, and empty stacks.
pub open spec fn init_exec(globals_len: nat) -> EStateV {
    EStateV {
        pc: 0,
        memory: Seq::new(globals_len, |i: int| 0i32),
        call_stack: Seq::empty(),
        frames: Seq::empty(),
        events: Seq::empty(),
    }
}

/// How one step of execution changes the machine state.  A halted machine
/// (program counter at or past the end) does not change.
///
/// `var` at top level is a no-op; inside a call it appends one zeroed cell
/// and binds it in the top frame, unless the name is already global or
/// already bound there (the first binding is kept).  An assignment writes its
/// parsed value at the resolved address; an unparsable literal or an
/// unresolvable name makes it a no-op.  A `func` header met in straight-line
/// flow skips past its matching `}` (a body only runs via a call).  A call
/// pushes the caller line and one empty frame and resumes one line into the
/// function; a call to an undeclared name is a no-op.  A `}` discards the top
/// frame, truncates its cells off the end of memory, and returns to the line
/// after the saved caller line; with no saved call it is recorded as
/// unbalanced.
pub open spec fn exec_step(
    lines: Seq<Seq<Seq<char>>>,
    globals: Seq<Seq<char>>,
    functions: Seq<FnEntryV>,
    s: EStateV,
) -> EStateV {
    if s.pc >= lines.len() {
        s
    } else {
        let pc = s.pc;
        match spec_classify(lines[pc as int]) {
            InstrV::DeclareVar { name } => {
                if s.frames.len() > 0 && global_index(globals, name) is None && frame_addr(
                    s.frames.last(),
                    name,
                ) is None {
                    let addr = s.memory.len() as int;
                    EStateV {
                        pc: (pc + 1) as usize,
                        memory: s.memory.push(0i32),
                        frames: s.frames.update(
                            s.frames.len() - 1,
                            s.frames.last().push(LocalEntryV { name, addr }),
                        ),
                        events: s.events.push(EventV::LocalCreated { name, addr }),
                        ..s
                    }
                } else {
                    EStateV { pc: (pc + 1) as usize, ..s }
                }
            },
            InstrV::Assign { name, literal } => {
                match spec_parse_i32(literal) {
                    None => EStateV { pc: (pc + 1) as usize, ..s },
                    Some(v) => {
                        match resolve_addr(globals, s.frames, name) {
                            None => EStateV { pc: (pc + 1) as usize, ..s },
                            Some(a) => {
                                if 0 <= a < s.memory.len() {
                                    EStateV {
                                        pc: (pc + 1) as usize,
                                        memory: s.memory.update(a, v),
                                        events: s.events.push(
                                            EventV::Write { name, addr: a, value: v },
                                        ),
                                        ..s
                                    }
                                } else {
                                    EStateV { pc: (pc + 1) as usize, ..s }
                                }
                            },
                        }
                    },
                }
            },
            InstrV::FuncDecl { name } => {
                match find_close(lines, pc as int) {
                    Some(j) => EStateV { pc: (j + 1) as usize, ..s },
                    None => EStateV {
                        pc: lines.len() as usize,
                        events: s.events.push(EventV::UnbalancedBlock { line: pc }),
                        ..s
                    },
                }
            },
            InstrV::Call { name } => {
                match fn_line(functions, name) {
                    Some(l) => EStateV {
                        pc: if (l as int) < lines.len() {
                            (l + 1) as usize
                        } else {
                            lines.len() as usize
                        },
                        call_stack: s.call_stack.push(pc),
                        frames: s.frames.push(Seq::empty()),
                        events: s.events.push(EventV::CallEnter { name, caller_line: pc }),
                        ..s
                    },
                    None => EStateV {
                        pc: (pc + 1) as usize,
                        events: s.events.push(EventV::UnknownFunction { name, line: pc }),
                        ..s
                    },
                }
            },
            InstrV::BlockEnd => {
                let s1 = if s.frames.len() > 0 {
                    let k = s.frames.last().len() as int;
                    EStateV {
                        memory: if k <= s.memory.len() {
                            s.memory.take(s.memory.len() - k)
                        } else {
                            Seq::empty()
                        },
                        frames: s.frames.drop_last(),
                        events: s.events.push(EventV::FrameDropped { cells: k }),
                        ..s
                    }
                } else {
                    s
                };
                if s1.call_stack.len() > 0 {
                    let rl = s1.call_stack.last();
                    let target = if (rl as int) < lines.len() {
                        (rl + 1) as usize
                    } else {
                        lines.len() as usize
                    };
                    EStateV {
                        pc: target,
                        call_stack: s1.call_stack.drop_last(),
                        events: s1.events.push(EventV::Return { target_line: target }),
                        ..s1
                    }
                } else {
                    EStateV {
                        pc: (pc + 1) as usize,
                        events: s1.events.push(EventV::UnbalancedBlock { line: pc }),
                        ..s1
                    }
                }
            },
            InstrV::Blank => EStateV { pc: (pc + 1) as usize, ..s },
            InstrV::Malformed => EStateV { pc: (pc + 1) as usize, ..s },
        }
    }
}

/// The machine state after `k` steps from `s`.
pub open spec fn run(
    lines: Seq<Seq<Seq<char>>>,
    globals: Seq<Seq<char>>,
    functions: Seq<FnEntryV>,
    s: EStateV,
    k: nat,
) -> EStateV
    decreases k,
{
    if k == 0 {
        s
    } else {
        exec_step(lines, globals, functions, run(lines, globals, functions, s, (k - 1) as nat))
    }
}

/// A halted machine stays halted: further steps change nothing.
pub proof fn lemma_run_halted(
    lines: Seq<Seq<Seq<char>>>,
    globals: Seq<Seq<char>>,
    functions: Seq<FnEntryV>,
    s: EStateV,
    k: nat,
)
    requires
        s.pc >= lines.len(),
    ensures
        run(lines, globals, functions, s, k) == s,
    decreases k,
{
    if k > 0 {
        lemma_run_halted(lines, globals, functions, s, (k - 1) as nat);
    }
}

/// Running `a + b` steps is running `a` steps, then `b` more.
pub proof fn lemma_run_add(
    lines: Seq<Seq<Seq<char>>>,
    globals: Seq<Seq<char>>,
    functions: Seq<FnEntryV>,
    s: EStateV,
    a: nat,
    b: nat,
)
    ensures
        run(lines, globals, functions, s, a + b) == run(
            lines,
            globals,
            functions,
            run(lines, globals, functions, s, a),
            b,
        ),
    decreases b,
{
    if b > 0 {
        lemma_run_add(lines, globals, functions, s, a, (b - 1) as nat);
        assert(a + b - 1 == a + (b - 1) as nat);
    }
}

/// The frames own a non-negative number of cells.
pub proof fn lemma_frames_cells_nonneg(frames: Seq<Seq<LocalEntryV>>)
    ensures
        frames_cells(frames) >= 0,
    decreases frames.len(),
{
    if frames.len() > 0 {
        lemma_frames_cells_nonneg(frames.drop_last());
    }
}

/// A prefix of the frame stack owns at most as many cells as the whole.
pub proof fn lemma_frames_cells_take_le(frames: Seq<Seq<LocalEntryV>>, m: int)
    requires
        0 <= m <= frames.len(),
    ensures
        frames_cells(frames.take(m)) <= frames_cells(frames),
    decreases frames.len(),
{
    if m == frames.len() {
        assert(frames.take(m) =~= frames);
    } else {
        assert(frames.take(m) =~= frames.drop_last().take(m));
        lemma_frames_cells_take_le(frames.drop_last(), m);
    }
}

/// The machine's accounting invariant: memory is exactly the global cells
/// followed by the cells of the live frames, oldest frame first, and every
/// frame binding points below the cells of the frames above it.
pub open spec fn wf_exec(globals_len: int, s: EStateV) -> bool {
    &&& s.call_stack.len() == s.frames.len()
    &&& s.memory.len() == globals_len + frames_cells(s.frames)
    &&& forall|i: int, j: int|
        0 <= i < s.frames.len() && 0 <= j < s.frames[i].len() ==> (#[trigger] s.frames[i][j]).addr
            < globals_len + frames_cells(s.frames.take(i + 1))
}

/// The initial state satisfies the accounting invariant.
pub proof fn lemma_wf_init(globals_len: nat)
    ensures
        wf_exec(globals_len as int, init_exec(globals_len)),
{
}

/// Every address a frame binds is a live memory index.
pub proof fn lemma_frame_addrs_live(globals_len: int, s: EStateV, i: int, j: int)
    requires
        wf_exec(globals_len, s),
        0 <= i < s.frames.len(),
        0 <= j < s.frames[i].len(),
    ensures
        s.frames[i][j].addr < s.memory.len(),
{
    lemma_frames_cells_take_le(s.frames, i + 1);
}

/// A resolved frame address of the top frame is a live memory index.
pub proof fn lemma_top_frame_addr_live(globals_len: int, s: EStateV, name: Seq<char>)
    requires
        wf_exec(globals_len, s),
        s.frames.len() > 0,
        frame_addr(s.frames.last(), name) is Some,
    ensures
        frame_addr(s.frames.last(), name) matches Some(a) && a < s.memory.len(),
{
    let fr = s.frames.last();
    let a = lemma_frame_addr_is_entry(fr, name);
    lemma_frame_addrs_live(globals_len, s, s.frames.len() - 1, a);
    assert(s.frames[s.frames.len() - 1] == fr);
}

/// A successful frame lookup returns the address of some binding of the
/// frame; the returned value is the index of that binding.
pub proof fn lemma_frame_addr_is_entry(frame: Seq<LocalEntryV>, name: Seq<char>) -> (j: int)
    requires
        frame_addr(frame, name) is Some,
    ensures
        0 <= j < frame.len(),
        frame_addr(frame, name) == Some(frame[j].addr),
        frame[j].name == name,
    decreases frame.len(),
{
    if frame[0].name == name {
        0
    } else {
        let j0 = lemma_frame_addr_is_entry(frame.drop_first(), name);
        assert(frame.drop_first()[j0] == frame[j0 + 1]);
        j0 + 1
    }
}

/// A global address is an index of the global table.
pub proof fn lemma_global_index_in_range(globals: Seq<Seq<char>>, name: Seq<char>)
    requires
        global_index(globals, name) is Some,
    ensures
        global_index(globals, name) matches Some(i) && 0 <= i < globals.len(),
    decreases globals.len(),
{
    if globals.len() > 0 && globals[0] != name {
        if global_index(globals.drop_first(), name) is Some {
            lemma_global_index_in_range(globals.drop_first(), name);
        }
    }
}

/// One step preserves the accounting invariant.
pub proof fn lemma_step_preserves_wf(
    lines: Seq<Seq<Seq<char>>>,
    globals: Seq<Seq<char>>,
    functions: Seq<FnEntryV>,
    s: EStateV,
)
    requires
        wf_exec(globals.len() as int, s),
    ensures
        wf_exec(globals.len() as int, exec_step(lines, globals, functions, s)),
{
    let g = globals.len() as int;
    let t = exec_step(lines, globals, functions, s);
    if s.pc >= lines.len() {
        return ;
    }
    match spec_classify(lines[s.pc as int]) {
        InstrV::DeclareVar { name } => {
            if s.frames.len() > 0 && global_index(globals, name) is None && frame_addr(
                s.frames.last(),
                name,
            ) is None {
                let last = s.frames.len() - 1;
                let fr2 = s.frames.last().push(
                    LocalEntryV { name, addr: s.memory.len() as int },
                );
                assert(t.frames =~= s.frames.update(last, fr2));
                assert(t.frames.drop_last() =~= s.frames.drop_last());
                assert(t.frames.last() == fr2);
                assert(frames_cells(t.frames) == frames_cells(s.frames.drop_last())
                    + fr2.len());
                assert(frames_cells(t.frames) == frames_cells(s.frames) + 1);
                assert forall|i: int, j: int|
                    0 <= i < t.frames.len() && 0 <= j < t.frames[i].len() implies (
                #[trigger] t.frames[i][j]).addr < g + frames_cells(t.frames.take(i + 1)) by {
                    if i < last {
                        assert(t.frames[i] == s.frames[i]);
                        assert(t.frames.take(i + 1) =~= s.frames.take(i + 1));
                        assert(s.frames[i][j].addr < g + frames_cells(s.frames.take(i + 1)));
                    } else {
                        assert(t.frames.take(i + 1) =~= t.frames);
                        if j < fr2.len() - 1 {
                            assert(t.frames[i][j] == s.frames[last][j]);
                            assert(s.frames.take(last + 1) =~= s.frames);
                            assert(s.frames[last][j].addr < g + frames_cells(s.frames));
                        } else {
                            assert(t.frames[i][j].addr == s.memory.len() as int);
                        }
                    }
                }
            }
        },
        InstrV::Assign { name, literal } => {
        },
        InstrV::FuncDecl { name } => {
        },
        InstrV::Call { name } => {
            if fn_line(functions, name) is Some {
                assert(t.frames.drop_last() =~= s.frames);
                assert(frames_cells(t.frames) == frames_cells(s.frames));
                assert forall|i: int, j: int|
                    0 <= i < t.frames.len() && 0 <= j < t.frames[i].len() implies (
                #[trigger] t.frames[i][j]).addr < g + frames_cells(t.frames.take(i + 1)) by {
                    assert(i < s.frames.len());
                    assert(t.frames[i] == s.frames[i]);
                    assert(t.frames.take(i + 1) =~= s.frames.take(i + 1));
                    assert(s.frames[i][j].addr < g + frames_cells(s.frames.take(i + 1)));
                }
            }
        },
        InstrV::BlockEnd => {
            if s.frames.len() > 0 {
                let k = s.frames.last().len() as int;
                lemma_frames_cells_nonneg(s.frames.drop_last());
                assert(frames_cells(s.frames) == frames_cells(s.frames.drop_last()) + k);
                assert(k <= s.memory.len());
                assert(t.frames =~= s.frames.drop_last());
                assert(t.memory.len() == g + frames_cells(t.frames));
                assert forall|i: int, j: int|
                    0 <= i < t.frames.len() && 0 <= j < t.frames[i].len() implies (
                #[trigger] t.frames[i][j]).addr < g + frames_cells(t.frames.take(i + 1)) by {
                    assert(t.frames[i] == s.frames[i]);
                    assert(t.frames.take(i + 1) =~= s.frames.take(i + 1));
                    assert(s.frames[i][j].addr < g + frames_cells(s.frames.take(i + 1)));
                }
            }
        },
        InstrV::Blank => {
        },
        InstrV::Malformed => {
        },
    }
}

/// The first match of [`global_index`] lies in range, names its argument, and
/// nothing before it does; a `None` means no entry carries the name.
pub proof fn lemma_global_index_spec(globals: Seq<Seq<char>>, name: Seq<char>)
    ensures
        match global_index(globals, name) {
            Some(i) => 0 <= i < globals.len() && globals[i] == name && (forall|j: int|
                0 <= j < i ==> globals[j] != name),
            None => forall|j: int| 0 <= j < globals.len() ==> globals[j] != name,
        },
    decreases globals.len(),
{
    if globals.len() > 0 && globals[0] != name {
        lemma_global_index_spec(globals.drop_first(), name);
        match global_index(globals.drop_first(), name) {
            Some(i0) => {
                assert(globals[i0 + 1] == globals.drop_first()[i0]);
                assert forall|j: int| 0 <= j < i0 + 1 implies globals[j] != name by {
                    if j > 0 {
                        assert(globals[j] == globals.drop_first()[j - 1]);
                    }
                }
            },
            None => {
                assert forall|j: int| 0 <= j < globals.len() implies globals[j] != name by {
                    if j > 0 {
                        assert(globals[j] == globals.drop_first()[j - 1]);
                    }
                }
            },
        }
    }
}

/// Looks a variable name up in the global table; a global's address is its
/// index there.
pub fn find_global(globals: &Vec<String>, name: &String) -> (r: Option<usize>)
    ensures
        match r {
            Some(a) => global_index(globals.deep_view(), name@) == Some(a as int),
            None => global_index(globals.deep_view(), name@) is None,
        },
{
    let ghost gv = globals.deep_view();
    let mut k: usize = 0;
    while k < globals.len()
        invariant
            k <= globals.len(),
            gv == globals.deep_view(),
            forall|j: int| 0 <= j < k ==> gv[j] != name@,
        decreases globals.len() - k,
    {
        if globals[k] == *name {
            proof {
                lemma_global_index_spec(gv, name@);
                assert(gv[k as int] == name@);
            }
            return Some(k);
        }
        k = k + 1;
    }
    proof {
        lemma_global_index_spec(gv, name@);
    }
    None
}

/// Looks a variable name up in one activation frame.
pub fn find_local(frame: &Vec<LocalEntry>, name: &String) -> (r: Option<usize>)
    ensures
        match r {
            Some(a) => frame_addr(frame.deep_view(), name@) == Some(a as int),
            None => frame_addr(frame.deep_view(), name@) is None,
        },
{
    let ghost fv = frame.deep_view();
    proof {
        assert(fv.skip(0) =~= fv);
    }
    let mut k: usize = 0;
    while k < frame.len()
        invariant
            k <= frame.len(),
            fv == frame.deep_view(),
            frame_addr(fv, name@) == frame_addr(fv.skip(k as int), name@),
        decreases frame.len() - k,
    {
        let ghost rest = fv.skip(k as int);
        assert(rest[0] == fv[k as int]);
        if frame[k].name == *name {
            assert(frame_addr(rest, name@) == Some(fv[k as int].addr));
            return Some(frame[k].addr);
        }
        proof {
            assert(rest.drop_first() =~= fv.skip(k as int + 1));
        }
        k = k + 1;
    }
    assert(fv.skip(k as int).len() == 0);
    None
}

/// Runs the program for at most `fuel` steps of [`exec_step`], starting from
/// [`init_exec`]: one zeroed memory cell per global variable, everything else
/// empty.  `halted` reports whether the program counter left the text (rather
/// than the step budget running out first).
pub fn execute(
    lines: &Vec<Vec<String>>,
    globals: &Vec<String>,
    functions: &Vec<FnEntry>,
    fuel: u64,
) -> (r: Execution)
    ensures
        ({
            let fin = run(
                lines.deep_view(),
                globals.deep_view(),
                functions.deep_view(),
                init_exec(globals.deep_view().len()),
                fuel as nat,
            );
            &&& r.memory@ == fin.memory
            &&& r.call_stack@ == fin.call_stack
            &&& r.frames.deep_view() == fin.frames
            &&& r.events.deep_view() == fin.events
            &&& r.halted == (fin.pc >= lines.deep_view().len())
        }),
{
    let ghost lv = lines.deep_view();
    let ghost gv = globals.deep_view();
    let ghost fv = functions.deep_view();
    let ghost init = init_exec(gv.len());
    let n = lines.len();

    let mut memory: Vec<i32> = Vec::new();
    let mut gi: usize = 0;
    while gi < globals.len()
        invariant
            gi <= globals.len(),
            memory@.len() == gi,
            forall|j: int| 0 <= j < gi ==> memory@[j] == 0i32,
        decreases globals.len() - gi,
    {
        memory.push(0);
        gi = gi + 1;
    }
    let mut pc: usize = 0;
    let mut call_stack: Vec<usize> = Vec::new();
    let mut frames: Vec<Vec<LocalEntry>> = Vec::new();
    let mut events: Vec<Event> = Vec::new();
    let mut steps: u64 = 0;
    proof {
        assert(memory@ =~= init.memory);
        assert(call_stack@ =~= init.call_stack);
        assert(frames.deep_view() =~= init.frames);
        assert(events.deep_view() =~= init.events);
        lemma_wf_init(gv.len());
    }

    while pc < n && steps < fuel
        invariant
            n == lines@.len(),
            lv == lines.deep_view(),
            gv == globals.deep_view(),
            fv == functions.deep_view(),
            init == init_exec(gv.len()),
            steps <= fuel,
            (EStateV {
                pc,
                memory: memory@,
                call_stack: call_stack@,
                frames: frames.deep_view(),
                events: events.deep_view(),
            }) == run(lv, gv, fv, init, steps as nat),
            wf_exec(
                gv.len() as int,
                (EStateV {
                    pc,
                    memory: memory@,
                    call_stack: call_stack@,
                    frames: frames.deep_view(),
                    events: events.deep_view(),
                }),
            ),
        decreases fuel - steps,
    {
        let ghost pre = EStateV {
            pc,
            memory: memory@,
            call_stack: call_stack@,
            frames: frames.deep_view(),
            events: events.deep_view(),
        };
        assert(lv[pc as int] == lines@[pc as int].deep_view());
        let ins: Instr = classify(&lines[pc]);
        match ins {
            Instr::DeclareVar { name } => {
                let mut created: bool = false;
                if frames.len() > 0 {
                    if find_global(globals, &name).is_none() {
                        let li = frames.len() - 1;
                        assert(frames.deep_view()[li as int] == frames@[li as int].deep_view());
                        assert(frames.deep_view()[li as int] == pre.frames.last());
                        if find_local(&frames[li], &name).is_none() {
                            let addr = memory.len();
                            memory.push(0);
                            match frames.pop() {
                                Some(mut fr) => {
                                    fr.push(LocalEntry { name: name.clone(), addr });
                                    frames.push(fr);
                                },
                                None => {},
                            }
                            events.push(Event::LocalCreated { name, addr });
                            created = true;
                            proof {
                                let entry = LocalEntryV {
                                    name: lv[pc as int][1],
                                    addr: pre.memory.len() as int,
                                };
                                assert(frames.deep_view()[li as int] =~= pre.frames.last().push(
                                    entry,
                                ));
                                assert(frames.deep_view() =~= pre.frames.update(
                                    pre.frames.len() - 1,
                                    pre.frames.last().push(entry),
                                ));
                                assert(events.deep_view() =~= pre.events.push(
                                    EventV::LocalCreated {
                                        name: lv[pc as int][1],
                                        addr: pre.memory.len() as int,
                                    },
                                ));
                            }
                        }
                    }
                }
                pc = pc + 1;
                proof {
                    assert((EStateV {
                        pc,
                        memory: memory@,
                        call_stack: call_stack@,
                        frames: frames.deep_view(),
                        events: events.deep_view(),
                    }) == exec_step(lv, gv, fv, pre));
                }
            },
            Instr::Assign { name, literal } => {
                match parse_i32_token(&literal) {
                    None => {
                        pc = pc + 1;
                    },
                    Some(v) => {
                        let mut target: Option<usize> = None;
                        if frames.len() > 0 {
                            let li = frames.len() - 1;
                            assert(frames.deep_view()[li as int] == pre.frames.last());
                            target = find_local(&frames[li], &name);
                        }
                        if target.is_none() {
                            target = find_global(globals, &name);
                        }
                        match target {
                            None => {
                                assert(resolve_addr(gv, pre.frames, name@) is None);
                                pc = pc + 1;
                            },
                            Some(a) => {
                                proof {
                                    assert(resolve_addr(gv, pre.frames, name@) == Some(a as int));
                                    if pre.frames.len() > 0 && frame_addr(
                                        pre.frames.last(),
                                        name@,
                                    ) is Some {
                                        lemma_top_frame_addr_live(gv.len() as int, pre, name@);
                                    } else {
                                        lemma_global_index_in_range(gv, name@);
                                        lemma_frames_cells_nonneg(pre.frames);
                                    }
                                    assert((a as int) < pre.memory.len());
                                }
                                memory.set(a, v);
                                events.push(Event::Write { name, addr: a, value: v });
                                pc = pc + 1;
                                proof {
                                    assert(memory@ =~= pre.memory.update(a as int, v));
                                    assert(events.deep_view() =~= pre.events.push(
                                        EventV::Write {
                                            name: lv[pc as int - 1][0],
                                            addr: a as int,
                                            value: v,
                                        },
                                    ));
                                }
                            },
                        }
                    },
                }
                proof {
                    assert((EStateV {
                        pc,
                        memory: memory@,
                        call_stack: call_stack@,
                        frames: frames.deep_view(),
                        events: events.deep_view(),
                    }) == exec_step(lv, gv, fv, pre));
                }
            },
            Instr::FuncDecl { name: _ } => {
                let mut j: usize = pc;
                let mut found: bool = false;
                while !found && j < n
                    invariant
                        pc <= j <= n,
                        n == lines@.len(),
                        lv == lines.deep_view(),
                        found ==> j < n,
                        find_close(lv, pc as int) == (if found {
                            Some(j as int)
                        } else {
                            find_close(lv, j as int)
                        }),
                    decreases n - j + (if found {
                        0int
                    } else {
                        1int
                    }),
                {
                    assert(lv[j as int] == lines@[j as int].deep_view());
                    let ins2 = classify(&lines[j]);
                    if is_block_end(&ins2) {
                        found = true;
                    } else {
                        j = j + 1;
                    }
                }
                if found {
                    pc = j + 1;
                } else {
                    assert(find_close(lv, pc as int) is None);
                    events.push(Event::UnbalancedBlock { line: pc });
                    proof {
                        assert(events.deep_view() =~= pre.events.push(
                            EventV::UnbalancedBlock { line: pre.pc },
                        ));
                    }
                    pc = n;
                }
                proof {
                    assert((EStateV {
                        pc,
                        memory: memory@,
                        call_stack: call_stack@,
                        frames: frames.deep_view(),
                        events: events.deep_view(),
                    }) == exec_step(lv, gv, fv, pre));
                }
            },
            Instr::Call { name } => {
                match find_fn(functions, &name) {
                    Some(l) => {
                        events.push(Event::CallEnter { name, caller_line: pc });
                        call_stack.push(pc);
                        let fresh: Vec<LocalEntry> = Vec::new();
                        proof {
                            assert(fresh.deep_view() =~= Seq::<LocalEntryV>::empty());
                        }
                        frames.push(fresh);
                        proof {
                            assert(events.deep_view() =~= pre.events.push(
                                EventV::CallEnter { name: lv[pc as int][0], caller_line: pre.pc },
                            ));
                            assert(call_stack@ =~= pre.call_stack.push(pre.pc));
                            assert(frames.deep_view() =~= pre.frames.push(
                                Seq::<LocalEntryV>::empty(),
                            ));
                        }
                        if l < n {
                            pc = l + 1;
                        } else {
                            pc = n;
                        }
                    },
                    None => {
                        events.push(Event::UnknownFunction { name, line: pc });
                        proof {
                            assert(events.deep_view() =~= pre.events.push(
                                EventV::UnknownFunction { name: lv[pc as int][0], line: pre.pc },
                            ));
                        }
                        pc = pc + 1;
                    },
                }
                proof {
                    assert((EStateV {
                        pc,
                        memory: memory@,
                        call_stack: call_stack@,
                        frames: frames.deep_view(),
                        events: events.deep_view(),
                    }) == exec_step(lv, gv, fv, pre));
                }
            },
            Instr::BlockEnd => {
                if frames.len() > 0 {
                    proof {
                        lemma_frames_cells_nonneg(pre.frames.drop_last());
                    }
                    match frames.pop() {
                        Some(fr) => {
                            let k = fr.len();
                            assert(fr.deep_view() == pre.frames.last());
                            assert(k <= memory.len());
                            let newlen = memory.len() - k;
                            memory.truncate(newlen);
                            events.push(Event::FrameDropped { cells: k });
                            proof {
                                assert(frames.deep_view() =~= pre.frames.drop_last());
                                assert(memory@ =~= pre.memory.take(
                                    pre.memory.len() - pre.frames.last().len(),
                                ));
                                assert(events.deep_view() =~= pre.events.push(
                                    EventV::FrameDropped { cells: pre.frames.last().len() as int },
                                ));
                            }
                        },
                        None => {},
                    }
                }
                let ghost evs_mid = events.deep_view();
                let ghost cs_mid = call_stack@;
                if call_stack.len() > 0 {
                    match call_stack.pop() {
                        Some(rl) => {
                            let target = if rl < n {
                                rl + 1
                            } else {
                                n
                            };
                            events.push(Event::Return { target_line: target });
                            pc = target;
                            proof {
                                assert(call_stack@ =~= cs_mid.drop_last());
                                assert(events.deep_view() =~= evs_mid.push(
                                    EventV::Return { target_line: target },
                                ));
                            }
                        },
                        None => {},
                    }
                } else {
                    events.push(Event::UnbalancedBlock { line: pc });
                    proof {
                        assert(events.deep_view() =~= evs_mid.push(
                            EventV::UnbalancedBlock { line: pre.pc },
                        ));
                    }
                    pc = pc + 1;
                }
                proof {
                    assert((EStateV {
                        pc,
                        memory: memory@,
                        call_stack: call_stack@,
                        frames: frames.deep_view(),
                        events: events.deep_view(),
                    }) == exec_step(lv, gv, fv, pre));
                }
            },
            Instr::Blank => {
                pc = pc + 1;
                proof {
                    assert((EStateV {
                        pc,
                        memory: memory@,
                        call_stack: call_stack@,
                        frames: frames.deep_view(),
                        events: events.deep_view(),
                    }) == exec_step(lv, gv, fv, pre));
                }
            },
            Instr::Malformed => {
                pc = pc + 1;
                proof {
                    assert((EStateV {
                        pc,
                        memory: memory@,
                        call_stack: call_stack@,
                        frames: frames.deep_view(),
                        events: events.deep_view(),
                    }) == exec_step(lv, gv, fv, pre));
                }
            },
        }
        proof {
            lemma_step_preserves_wf(lv, gv, fv, pre);
        }
        steps = steps + 1;
    }
    let halted = pc >= n;
    proof {
        let cur = EStateV {
            pc,
            memory: memory@,
            call_stack: call_stack@,
            frames: frames.deep_view(),
            events: events.deep_view(),
        };
        if pc >= n {
            lemma_run_halted(lv, gv, fv, cur, (fuel - steps) as nat);
            lemma_run_add(lv, gv, fv, init, steps as nat, (fuel - steps) as nat);
            assert(steps as nat + (fuel - steps) as nat == fuel as nat);
        }
    }
    Execution { memory, call_stack, frames, events, halted }
}

} // verus!
