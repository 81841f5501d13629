//! General laws of the interpreter, proved once and for all inputs: how
//! declarations assign addresses, what redefinitions and unknown references
//! do and do not change, how calls and block ends balance the stacks and the
//! memory, and how straight-line flow skips function bodies.

use vstd::prelude::*;

use crate::analyzer::analyze_step;
use crate::analyzer::analyze_upto;
use crate::analyzer::contains_name;
use crate::analyzer::fn_line;
use crate::analyzer::AStateV;
use crate::analyzer::DiagnosticV;
use crate::analyzer::FnEntryV;
use crate::executor::exec_step;
use crate::executor::find_close;
use crate::executor::frame_addr;
use crate::executor::global_index;
use crate::executor::init_exec;
use crate::executor::lemma_frame_addrs_live;
use crate::executor::lemma_frames_cells_nonneg;
use crate::executor::lemma_global_index_spec;
use crate::executor::lemma_step_preserves_wf;
use crate::executor::resolve_addr;
use crate::executor::run;
use crate::executor::wf_exec;
use crate::executor::EStateV;
use crate::executor::EventV;
use crate::executor::LocalEntryV;
use crate::instr::spec_classify;
use crate::instr::InstrV;

verus! {

/// A line that declares a variable or is blank: the only shapes a program of
/// top-level declarations contains.
pub open spec fn toplevel_decl_line(toks: Seq<Seq<char>>) -> bool {
    spec_classify(toks) is DeclareVar || spec_classify(toks) is Blank
}

/// The names the first `n` lines declare, first occurrence of each, in
/// declaration order.
pub open spec fn first_decls(lines: Seq<Seq<Seq<char>>>, n: int) -> Seq<Seq<char>>
    decreases n,
{
    if n <= 0 {
        Seq::empty()
    } else {
        let prev = first_decls(lines, n - 1);
        match spec_classify(lines[n - 1]) {
            InstrV::DeclareVar { name } => if contains_name(prev, name) {
                prev
            } else {
                prev.push(name)
            },
            _ => prev,
        }
    }
}

/// No name occurs twice among the first declarations.
pub proof fn lemma_first_decls_distinct(lines: Seq<Seq<Seq<char>>>, n: int)
    ensures
        forall|i: int, j: int|
            0 <= i < j < first_decls(lines, n).len() ==> first_decls(lines, n)[i] != first_decls(
                lines,
                n,
            )[j],
    decreases n,
{
    if n > 0 {
        lemma_first_decls_distinct(lines, n - 1);
        let prev = first_decls(lines, n - 1);
        let cur = first_decls(lines, n);
        match spec_classify(lines[n - 1]) {
            InstrV::DeclareVar { name } => {
                if !contains_name(prev, name) {
                    assert forall|i: int, j: int| 0 <= i < j < cur.len() implies cur[i]
                        != cur[j] by {
                        if j < prev.len() {
                            assert(cur[i] == prev[i] && cur[j] == prev[j]);
                        } else {
                            assert(cur[j] == name && cur[i] == prev[i]);
                            if cur[i] == name {
                                assert(contains_name(prev, name));
                            }
                        }
                    }
                }
            },
            _ => {},
        }
    }
}

/// In a table of pairwise-distinct names, the address of the `k`-th name is
/// exactly `k`: addresses are dense, in declaration order.
pub proof fn lemma_global_addresses_dense(globals: Seq<Seq<char>>, k: int)
    requires
        0 <= k < globals.len(),
        forall|i: int, j: int| 0 <= i < j < globals.len() ==> globals[i] != globals[j],
    ensures
        global_index(globals, globals[k]) == Some(k),
{
    lemma_global_index_spec(globals, globals[k]);
    match global_index(globals, globals[k]) {
        Some(i) => {
            if i < k {
                assert(globals[i] != globals[k]);
            }
        },
        None => {
            assert(globals[k] == globals[k]);
        },
    }
}

/// Analyzing a program of only top-level declarations and blank lines builds
/// exactly the first-occurrence name table, no functions, no leftover locals.
pub proof fn lemma_toplevel_analysis(lines: Seq<Seq<Seq<char>>>, n: int)
    requires
        0 <= n <= lines.len(),
        forall|i: int| 0 <= i < lines.len() ==> toplevel_decl_line(#[trigger] lines[i]),
    ensures
        analyze_upto(lines, n).globals == first_decls(lines, n),
        analyze_upto(lines, n).functions == Seq::<FnEntryV>::empty(),
        analyze_upto(lines, n).locals == Seq::<Seq<char>>::empty(),
        !analyze_upto(lines, n).in_function,
    decreases n,
{
    if n > 0 {
        lemma_toplevel_analysis(lines, n - 1);
    }
}

/// Executing a program of only top-level declarations and blank lines leaves
/// the machine exactly as it started, but for the program counter: memory
/// keeps one cell per global, both stacks stay empty, no event is emitted.
pub proof fn lemma_toplevel_execution(
    lines: Seq<Seq<Seq<char>>>,
    globals: Seq<Seq<char>>,
    functions: Seq<FnEntryV>,
    k: nat,
)
    requires
        forall|i: int| 0 <= i < lines.len() ==> toplevel_decl_line(#[trigger] lines[i]),
    ensures
        ({
            let t = run(lines, globals, functions, init_exec(globals.len()), k);
            &&& t.memory == init_exec(globals.len()).memory
            &&& t.call_stack == Seq::<usize>::empty()
            &&& t.frames == Seq::<Seq<LocalEntryV>>::empty()
            &&& t.events == Seq::<EventV>::empty()
        }),
    decreases k,
{
    if k > 0 {
        lemma_toplevel_execution(lines, globals, functions, (k - 1) as nat);
    }
}

/// For a program with only top-level `var` declarations and no functions, the
/// global symbol table is the first occurrence of each declared name in
/// declaration order, the address of the `j`-th name is `j`, and after any
/// number of execution steps memory holds exactly one cell per global and
/// both stacks are empty.
pub proof fn lemma_toplevel_program(lines: Seq<Seq<Seq<char>>>, k: nat)
    requires
        forall|i: int| 0 <= i < lines.len() ==> toplevel_decl_line(#[trigger] lines[i]),
    ensures
        ({
            let a = analyze_upto(lines, lines.len() as int);
            let t = run(lines, a.globals, a.functions, init_exec(a.globals.len()), k);
            &&& a.globals == first_decls(lines, lines.len() as int)
            &&& forall|j: int|
                0 <= j < a.globals.len() ==> global_index(a.globals, a.globals[j]) == Some(j)
            &&& t.memory.len() == a.globals.len()
            &&& t.call_stack.len() == 0
            &&& t.frames.len() == 0
        }),
{
    let a = analyze_upto(lines, lines.len() as int);
    lemma_toplevel_analysis(lines, lines.len() as int);
    lemma_first_decls_distinct(lines, lines.len() as int);
    assert forall|j: int| 0 <= j < a.globals.len() implies global_index(a.globals, a.globals[j])
        == Some(j) by {
        lemma_global_addresses_dense(a.globals, j);
    }
    lemma_toplevel_execution(lines, a.globals, a.functions, k);
}

/// For every program, the global table the analysis builds never holds a
/// name twice: redefinitions are refused, so the first binding is permanent.
pub proof fn lemma_analysis_globals_distinct(lines: Seq<Seq<Seq<char>>>, n: int)
    requires
        0 <= n,
    ensures
        forall|i: int, j: int|
            0 <= i < j < analyze_upto(lines, n).globals.len() ==> analyze_upto(lines, n).globals[i]
                != analyze_upto(lines, n).globals[j],
    decreases n,
{
    if n > 0 {
        lemma_analysis_globals_distinct(lines, n - 1);
        let prev = analyze_upto(lines, n - 1).globals;
        let cur = analyze_upto(lines, n).globals;
        match spec_classify(lines[n - 1]) {
            InstrV::DeclareVar { name } => {
                if !analyze_upto(lines, n - 1).in_function && !contains_name(prev, name) {
                    assert forall|i: int, j: int| 0 <= i < j < cur.len() implies cur[i]
                        != cur[j] by {
                        if j < prev.len() {
                            assert(cur[i] == prev[i] && cur[j] == prev[j]);
                        } else {
                            assert(cur[j] == name && cur[i] == prev[i]);
                            if cur[i] == name {
                                assert(contains_name(prev, name));
                            }
                        }
                    }
                }
            },
            _ => {},
        }
    }
}

/// For every program, the address of the `j`-th global the analysis declared
/// is exactly `j`: addresses are dense, in declaration order.
pub proof fn lemma_analysis_addresses_dense(lines: Seq<Seq<Seq<char>>>, n: int, j: int)
    requires
        0 <= n,
        0 <= j < analyze_upto(lines, n).globals.len(),
    ensures
        global_index(analyze_upto(lines, n).globals, analyze_upto(lines, n).globals[j]) == Some(j),
{
    lemma_analysis_globals_distinct(lines, n);
    lemma_global_addresses_dense(analyze_upto(lines, n).globals, j);
}

/// Every entry of the function table the analysis builds points back at a
/// `func` header line of the program carrying exactly that name, and a name
/// enters the table at most once.
pub proof fn lemma_function_table_sound(lines: Seq<Seq<Seq<char>>>, n: int)
    requires
        0 <= n <= lines.len(),
        n <= usize::MAX as int,
    ensures
        forall|k: int|
            0 <= k < analyze_upto(lines, n).functions.len() ==> {
                let e = #[trigger] analyze_upto(lines, n).functions[k];
                &&& e.line < n
                &&& spec_classify(lines[e.line as int]) == (InstrV::FuncDecl { name: e.name })
            },
    decreases n,
{
    if n > 0 {
        lemma_function_table_sound(lines, n - 1);
        let prev = analyze_upto(lines, n - 1).functions;
        let cur = analyze_upto(lines, n).functions;
        assert forall|k: int| 0 <= k < cur.len() implies {
            let e = #[trigger] cur[k];
            &&& e.line < n
            &&& spec_classify(lines[e.line as int]) == (InstrV::FuncDecl { name: e.name })
        } by {
            if k < prev.len() {
                assert(cur[k] == prev[k]);
            } else {
                match spec_classify(lines[n - 1]) {
                    InstrV::FuncDecl { name } => {
                        assert(cur[k] == (FnEntryV { name, line: (n - 1) as usize }));
                    },
                    _ => {},
                }
            }
        }
    }
}

/// Declaring a name twice in the same scope appends exactly one redefinition
/// diagnostic and changes nothing else: the binding of the first declaration
/// is kept.
pub proof fn lemma_redeclaration_keeps_first(
    s: AStateV,
    toks: Seq<Seq<char>>,
    line: usize,
    name: Seq<char>,
)
    requires
        spec_classify(toks) == (InstrV::DeclareVar { name }),
        if s.in_function {
            contains_name(s.locals, name) || contains_name(s.globals, name)
        } else {
            contains_name(s.globals, name)
        },
    ensures
        analyze_step(s, toks, line) == (AStateV {
            diagnostics: s.diagnostics.push(DiagnosticV::VarRedefined { line, name }),
            ..s
        }),
{
}

/// Assigning to a name no visible declaration binds appends exactly one
/// unknown-variable diagnostic to the analysis and changes nothing else.
pub proof fn lemma_unknown_variable_diagnosed(
    s: AStateV,
    toks: Seq<Seq<char>>,
    line: usize,
    name: Seq<char>,
    literal: Seq<char>,
)
    requires
        spec_classify(toks) == (InstrV::Assign { name, literal }),
        !contains_name(s.globals, name),
        !(s.in_function && contains_name(s.locals, name)),
    ensures
        analyze_step(s, toks, line) == (AStateV {
            diagnostics: s.diagnostics.push(DiagnosticV::VarUnknown { line, name }),
            ..s
        }),
{
}

/// At execution time an assignment to an unresolvable name does not alter
/// memory, the stacks or the trace: the program counter simply advances.
pub proof fn lemma_unknown_variable_write_is_noop(
    lines: Seq<Seq<Seq<char>>>,
    globals: Seq<Seq<char>>,
    functions: Seq<FnEntryV>,
    s: EStateV,
    name: Seq<char>,
    literal: Seq<char>,
)
    requires
        s.pc < lines.len(),
        spec_classify(lines[s.pc as int]) == (InstrV::Assign { name, literal }),
        resolve_addr(globals, s.frames, name) is None,
    ensures
        exec_step(lines, globals, functions, s) == (EStateV { pc: (s.pc + 1) as usize, ..s }),
{
}

/// A call to a declared function pushes exactly one call-stack entry (the
/// caller line) and exactly one activation frame, and that frame starts
/// empty; memory is untouched by the call itself.
pub proof fn lemma_call_pushes_one(
    lines: Seq<Seq<Seq<char>>>,
    globals: Seq<Seq<char>>,
    functions: Seq<FnEntryV>,
    s: EStateV,
    name: Seq<char>,
    l: usize,
)
    requires
        s.pc < lines.len(),
        spec_classify(lines[s.pc as int]) == (InstrV::Call { name }),
        fn_line(functions, name) == Some(l),
    ensures
        ({
            let t = exec_step(lines, globals, functions, s);
            &&& t.call_stack == s.call_stack.push(s.pc)
            &&& t.frames == s.frames.push(Seq::<LocalEntryV>::empty())
            &&& t.memory == s.memory
            &&& t.events == s.events.push(EventV::CallEnter { name, caller_line: s.pc })
        }),
{
}

/// The `}` closing a call pops exactly the one frame and the one call-stack
/// entry its call pushed, and memory shrinks by exactly the frame's cells:
/// its length returns to what it was immediately before the call.
pub proof fn lemma_block_end_pops_one(
    lines: Seq<Seq<Seq<char>>>,
    globals: Seq<Seq<char>>,
    functions: Seq<FnEntryV>,
    s: EStateV,
)
    requires
        s.pc < lines.len(),
        spec_classify(lines[s.pc as int]) is BlockEnd,
        s.frames.len() > 0,
        s.call_stack.len() > 0,
        wf_exec(globals.len() as int, s),
    ensures
        ({
            let t = exec_step(lines, globals, functions, s);
            &&& t.call_stack == s.call_stack.drop_last()
            &&& t.frames == s.frames.drop_last()
            &&& t.memory.len() == s.memory.len() - s.frames.last().len()
        }),
{
    lemma_frames_cells_nonneg(s.frames.drop_last());
}

/// Two states of the same machine whose frame stacks agree hold memories of
/// the same length: when a call has fully returned and the frames are back to
/// what they were, so is the memory length.
pub proof fn lemma_memory_restored_with_frames(globals_len: int, s: EStateV, t: EStateV)
    requires
        wf_exec(globals_len, s),
        wf_exec(globals_len, t),
        s.frames == t.frames,
    ensures
        s.memory.len() == t.memory.len(),
{
}

/// The accounting invariant holds of every state execution reaches.
pub proof fn lemma_run_preserves_wf(
    lines: Seq<Seq<Seq<char>>>,
    globals: Seq<Seq<char>>,
    functions: Seq<FnEntryV>,
    s: EStateV,
    k: nat,
)
    requires
        wf_exec(globals.len() as int, s),
    ensures
        wf_exec(globals.len() as int, run(lines, globals, functions, s, k)),
    decreases k,
{
    if k > 0 {
        lemma_run_preserves_wf(lines, globals, functions, s, (k - 1) as nat);
        lemma_step_preserves_wf(
            lines,
            globals,
            functions,
            run(lines, globals, functions, s, (k - 1) as nat),
        );
    }
}

/// While execution stays strictly deeper than `d` frames, the bottom `d`
/// frames and the bottom `d` saved return points are untouched: the machine
/// only ever works on the top of its stacks.
pub proof fn lemma_deep_execution_preserves_bottom(
    lines: Seq<Seq<Seq<char>>>,
    globals: Seq<Seq<char>>,
    functions: Seq<FnEntryV>,
    s: EStateV,
    d: int,
    k: nat,
)
    requires
        wf_exec(globals.len() as int, s),
        0 <= d <= s.frames.len(),
        forall|m: nat|
            m < k ==> (#[trigger] run(lines, globals, functions, s, m)).frames.len() > d,
    ensures
        ({
            let t = run(lines, globals, functions, s, k);
            &&& t.frames.len() >= d
            &&& t.frames.take(d) == s.frames.take(d)
            &&& t.call_stack.len() >= d
            &&& t.call_stack.take(d) == s.call_stack.take(d)
        }),
    decreases k,
{
    if k > 0 {
        lemma_deep_execution_preserves_bottom(lines, globals, functions, s, d, (k - 1) as nat);
        lemma_run_preserves_wf(lines, globals, functions, s, (k - 1) as nat);
        let u = run(lines, globals, functions, s, (k - 1) as nat);
        let t = run(lines, globals, functions, s, k);
        assert(u.frames.len() > d);
        assert(u.call_stack.len() == u.frames.len());
        if u.pc < lines.len() {
            match spec_classify(lines[u.pc as int]) {
                InstrV::DeclareVar { name } => {
                    if u.frames.len() > 0 && global_index(globals, name) is None && frame_addr(
                        u.frames.last(),
                        name,
                    ) is None {
                        assert(t.frames.take(d) =~= u.frames.take(d));
                    }
                },
                InstrV::Call { name } => {
                    if fn_line(functions, name) is Some {
                        assert(t.frames.take(d) =~= u.frames.take(d));
                        assert(t.call_stack.take(d) =~= u.call_stack.take(d));
                    }
                },
                InstrV::BlockEnd => {
                    assert(t.frames =~= u.frames.drop_last());
                    assert(t.frames.take(d) =~= u.frames.take(d));
                    assert(t.call_stack =~= u.call_stack.drop_last());
                    assert(t.call_stack.take(d) =~= u.call_stack.take(d));
                },
                _ => {},
            }
        }
    }
}

/// The balance law in full: a call to a declared function pushes exactly one
/// call-stack entry and one activation frame, and at the first later moment
/// the frame stack is back to its pre-call depth both are gone — the stacks
/// are exactly the pre-call stacks, and memory holds exactly as many cells
/// as immediately before the call.
pub proof fn lemma_call_fully_balanced(
    lines: Seq<Seq<Seq<char>>>,
    globals: Seq<Seq<char>>,
    functions: Seq<FnEntryV>,
    s0: EStateV,
    name: Seq<char>,
    l: usize,
    k: nat,
)
    requires
        wf_exec(globals.len() as int, s0),
        s0.pc < lines.len(),
        spec_classify(lines[s0.pc as int]) == (InstrV::Call { name }),
        fn_line(functions, name) == Some(l),
        forall|m: nat|
            m < k ==> (#[trigger] run(
                lines,
                globals,
                functions,
                exec_step(lines, globals, functions, s0),
                m,
            )).frames.len() > s0.frames.len(),
        run(lines, globals, functions, exec_step(lines, globals, functions, s0), k).frames.len()
            == s0.frames.len(),
    ensures
        ({
            let t = run(lines, globals, functions, exec_step(lines, globals, functions, s0), k);
            &&& t.frames == s0.frames
            &&& t.call_stack == s0.call_stack
            &&& t.memory.len() == s0.memory.len()
        }),
{
    let d = s0.frames.len() as int;
    let s1 = exec_step(lines, globals, functions, s0);
    lemma_call_pushes_one(lines, globals, functions, s0, name, l);
    lemma_step_preserves_wf(lines, globals, functions, s0);
    lemma_deep_execution_preserves_bottom(lines, globals, functions, s1, d, k);
    lemma_run_preserves_wf(lines, globals, functions, s1, k);
    let t = run(lines, globals, functions, s1, k);
    assert(s1.frames.take(d) =~= s0.frames);
    assert(t.frames =~= t.frames.take(d));
    assert(s1.call_stack.take(d) =~= s0.call_stack);
    assert(t.call_stack.len() == t.frames.len());
    assert(t.call_stack =~= t.call_stack.take(d));
    lemma_memory_restored_with_frames(globals.len() as int, s0, t);
}

/// A local declaration inside a function body never touches the global
/// table: the analysis keeps it out of scope for everyone else.
pub proof fn lemma_local_decl_stays_local(
    s: AStateV,
    toks: Seq<Seq<char>>,
    line: usize,
    name: Seq<char>,
)
    requires
        spec_classify(toks) == (InstrV::DeclareVar { name }),
        s.in_function,
    ensures
        analyze_step(s, toks, line).globals == s.globals,
{
}

/// A local variable created during a call receives a fresh address: the
/// current end of memory, beyond every global cell and distinct from the
/// address of every live local of every frame.  Re-entering a function thus
/// reassigns a fresh address each time.
pub proof fn lemma_local_gets_fresh_address(
    lines: Seq<Seq<Seq<char>>>,
    globals: Seq<Seq<char>>,
    functions: Seq<FnEntryV>,
    s: EStateV,
    name: Seq<char>,
)
    requires
        s.pc < lines.len(),
        spec_classify(lines[s.pc as int]) == (InstrV::DeclareVar { name }),
        s.frames.len() > 0,
        global_index(globals, name) is None,
        frame_addr(s.frames.last(), name) is None,
        wf_exec(globals.len() as int, s),
    ensures
        ({
            let t = exec_step(lines, globals, functions, s);
            &&& t.frames.last() == s.frames.last().push(
                LocalEntryV { name, addr: s.memory.len() as int },
            )
            &&& s.memory.len() >= globals.len()
            &&& forall|i: int, j: int|
                0 <= i < s.frames.len() && 0 <= j < s.frames[i].len()
                    ==> (#[trigger] s.frames[i][j]).addr != s.memory.len() as int
        }),
{
    lemma_frames_cells_nonneg(s.frames);
    let t = exec_step(lines, globals, functions, s);
    assert(t.frames.last() == s.frames.last().push(
        LocalEntryV { name, addr: s.memory.len() as int },
    ));
    assert forall|i: int, j: int|
        0 <= i < s.frames.len() && 0 <= j < s.frames[i].len() implies (
    #[trigger] s.frames[i][j]).addr != s.memory.len() as int by {
        lemma_frame_addrs_live(globals.len() as int, s, i, j);
    }
}

/// A call to an undeclared function is recorded and is otherwise a no-op at
/// execution time: memory and both stacks are untouched, the program counter
/// simply advances.
pub proof fn lemma_unknown_call_is_noop(
    lines: Seq<Seq<Seq<char>>>,
    globals: Seq<Seq<char>>,
    functions: Seq<FnEntryV>,
    s: EStateV,
    name: Seq<char>,
)
    requires
        s.pc < lines.len(),
        spec_classify(lines[s.pc as int]) == (InstrV::Call { name }),
        fn_line(functions, name) is None,
    ensures
        exec_step(lines, globals, functions, s) == (EStateV {
            pc: (s.pc + 1) as usize,
            events: s.events.push(EventV::UnknownFunction { name, line: s.pc }),
            ..s
        }),
{
}

/// In the analysis, a call to an undeclared function raises exactly one
/// unknown-function diagnostic and changes nothing else.
pub proof fn lemma_unknown_function_diagnosed(
    s: AStateV,
    toks: Seq<Seq<char>>,
    line: usize,
    name: Seq<char>,
)
    requires
        spec_classify(toks) == (InstrV::Call { name }),
        fn_line(s.functions, name) is None,
    ensures
        analyze_step(s, toks, line) == (AStateV {
            diagnostics: s.diagnostics.push(DiagnosticV::FuncUnknown { line, name }),
            ..s
        }),
{
}

/// What the forward scan for a closing `}` finds: the first block end at or
/// after the given line, with nothing resembling one in between.
pub proof fn lemma_find_close_spec(lines: Seq<Seq<Seq<char>>>, i: int)
    requires
        0 <= i,
    ensures
        match find_close(lines, i) {
            Some(j) => i <= j < lines.len() && spec_classify(lines[j]) is BlockEnd && (forall|
                m: int,
            | i <= m < j ==> !(spec_classify(#[trigger] lines[m]) is BlockEnd)),
            None => forall|m: int|
                i <= m < lines.len() ==> !(spec_classify(#[trigger] lines[m]) is BlockEnd),
        },
    decreases lines.len() - i,
{
    if 0 <= i < lines.len() && !(spec_classify(lines[i]) is BlockEnd) {
        lemma_find_close_spec(lines, i + 1);
    }
}

/// A function header met in straight-line flow is skipped whole: the program
/// counter jumps past the body's closing `}`, and memory, the stacks and the
/// trace are untouched — the body of a function that is never called never
/// mutates memory.
pub proof fn lemma_uncalled_function_skipped(
    lines: Seq<Seq<Seq<char>>>,
    globals: Seq<Seq<char>>,
    functions: Seq<FnEntryV>,
    s: EStateV,
    name: Seq<char>,
    j: int,
)
    requires
        s.pc < lines.len(),
        spec_classify(lines[s.pc as int]) == (InstrV::FuncDecl { name }),
        find_close(lines, s.pc as int) == Some(j),
    ensures
        exec_step(lines, globals, functions, s) == (EStateV { pc: (j + 1) as usize, ..s }),
        s.pc <= j < lines.len(),
        spec_classify(lines[j]) is BlockEnd,
{
    lemma_find_close_spec(lines, s.pc as int);
}

} // verus!
