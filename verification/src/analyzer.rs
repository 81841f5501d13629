//! The static analysis pass: one forward walk over the program lines that
//! builds the global symbol table and the function table, tracks the set of
//! locals declared in the function body currently open, and collects
//! diagnostics.  It never mutates memory and never halts on an error.

use vstd::prelude::*;

use crate::instr::classify;
use crate::instr::spec_classify;
use crate::instr::Instr;
use crate::instr::InstrV;

verus! {

/// One entry of the function table: a function name and the line index of
/// its `func … {` header.
#[derive(Debug, Clone, PartialEq, Eq)]
pub struct FnEntry {
    pub name: String,
    pub line: usize,
}

/// The mathematical form of a function-table entry.
pub struct FnEntryV {
    pub name: Seq<char>,
    pub line: usize,
}

impl DeepView for FnEntry {
    type V = FnEntryV;

    open spec fn deep_view(&self) -> FnEntryV {
        FnEntryV { name: self.name@, line: self.line }
    }
}

/// A diagnostic of the analysis pass, with the line it was raised on.
#[derive(Debug, Clone, PartialEq, Eq)]
pub enum Diagnostic {
    /// a `var` declaration whose name is already bound in the same scope
    VarRedefined { line: usize, name: String },
    /// an assignment to a name no declaration has bound
    VarUnknown { line: usize, name: String },
    /// a `func` header whose name is already in the function table
    FuncRedefined { line: usize, name: String },
    /// a call to a name no `func` header has declared
    FuncUnknown { line: usize, name: String },
    /// a non-empty line matching no recognized instruction shape
    MalformedLine { line: usize },
}

/// The mathematical form of a diagnostic.
pub enum DiagnosticV {
    VarRedefined { line: usize, name: Seq<char> },
    VarUnknown { line: usize, name: Seq<char> },
    FuncRedefined { line: usize, name: Seq<char> },
    FuncUnknown { line: usize, name: Seq<char> },
    MalformedLine { line: usize },
}

impl DeepView for Diagnostic {
    type V = DiagnosticV;

    open spec fn deep_view(&self) -> DiagnosticV {
        match self {
            Diagnostic::VarRedefined { line, name } => DiagnosticV::VarRedefined {
                line: *line,
                name: name@,
            },
            Diagnostic::VarUnknown { line, name } => DiagnosticV::VarUnknown {
                line: *line,
                name: name@,
            },
            Diagnostic::FuncRedefined { line, name } => DiagnosticV::FuncRedefined {
                line: *line,
                name: name@,
            },
            Diagnostic::FuncUnknown { line, name } => DiagnosticV::FuncUnknown {
                line: *line,
                name: name@,
            },
            Diagnostic::MalformedLine { line } => DiagnosticV::MalformedLine { line: *line },
        }
    }
}

/// What the analysis pass returns: the two tables, the leftover local
/// declaration set (empty unless the last function body was never closed),
/// whether the walk ended inside a function body, and the diagnostics.
///
/// A global variable's memory address is its index in `globals`: addresses
/// are handed out densely, starting at zero, in declaration order.
#[derive(Debug, Clone, PartialEq, Eq)]
pub struct Analysis {
    pub globals: Vec<String>,
    pub functions: Vec<FnEntry>,
    pub locals: Vec<String>,
    pub in_function: bool,
    pub diagnostics: Vec<Diagnostic>,
}

/// The mathematical state of the analysis pass.
pub struct AStateV {
    pub globals: Seq<Seq<char>>,
    pub functions: Seq<FnEntryV>,
    pub locals: Seq<Seq<char>>,
    pub in_function: bool,
    pub diagnostics: Seq<DiagnosticV>,
}

impl DeepView for Analysis {
    type V = AStateV;

    open spec fn deep_view(&self) -> AStateV {
        AStateV {
            globals: self.globals.deep_view(),
            functions: self.functions.deep_view(),
            locals: self.locals.deep_view(),
            in_function: self.in_function,
            diagnostics: self.diagnostics.deep_view(),
        }
    }
}

/// Whether a table of names holds the given name.
pub open spec fn contains_name(names: Seq<Seq<char>>, name: Seq<char>) -> bool {
    exists|k: int| 0 <= k < names.len() && names[k] == name
}

/// The header line of the first function-table entry with the given name.
pub open spec fn fn_line(fns: Seq<FnEntryV>, name: Seq<char>) -> Option<usize>
    decreases fns.len(),
{
    if fns.len() == 0 {
        None
    } else if fns[0].name == name {
        Some(fns[0].line)
    } else {
        fn_line(fns.drop_first(), name)
    }
}

/// The state the analysis starts from: everything empty, at top level.
pub open spec fn init_analysis() -> AStateV {
    AStateV {
        globals: Seq::empty(),
        functions: Seq::empty(),
        locals: Seq::empty(),
        in_function: false,
        diagnostics: Seq::empty(),
    }
}

/// How one line changes the analysis state.
///
/// A `var` at top level extends the global table unless the name is already
/// global; inside a function body it extends the local set unless the name is
/// already local or global; either redefinition keeps the first binding and
/// raises one diagnostic.  An assignment to a name bound in neither visible
/// scope raises one diagnostic.  A `func` header enters the function table
/// unless its name is taken, and opens a body either way.  A `}` discards the
/// local set and closes the body.  A call to an undeclared function raises
/// one diagnostic.  Blank lines do nothing; anything else is malformed.
pub open spec fn analyze_step(s: AStateV, toks: Seq<Seq<char>>, line: usize) -> AStateV {
    match spec_classify(toks) {
        InstrV::DeclareVar { name } => {
            if s.in_function {
                if contains_name(s.locals, name) || contains_name(s.globals, name) {
                    AStateV {
                        diagnostics: s.diagnostics.push(DiagnosticV::VarRedefined { line, name }),
                        ..s
                    }
                } else {
                    AStateV { locals: s.locals.push(name), ..s }
                }
            } else {
                if contains_name(s.globals, name) {
                    AStateV {
                        diagnostics: s.diagnostics.push(DiagnosticV::VarRedefined { line, name }),
                        ..s
                    }
                } else {
                    AStateV { globals: s.globals.push(name), ..s }
                }
            }
        },
        InstrV::Assign { name, literal } => {
            if contains_name(s.globals, name) || (s.in_function && contains_name(
                s.locals,
                name,
            )) {
                s
            } else {
                AStateV {
                    diagnostics: s.diagnostics.push(DiagnosticV::VarUnknown { line, name }),
                    ..s
                }
            }
        },
        InstrV::FuncDecl { name } => {
            if fn_line(s.functions, name) is Some {
                AStateV {
                    in_function: true,
                    diagnostics: s.diagnostics.push(DiagnosticV::FuncRedefined { line, name }),
                    ..s
                }
            } else {
                AStateV {
                    in_function: true,
                    functions: s.functions.push(FnEntryV { name, line }),
                    ..s
                }
            }
        },
        InstrV::Call { name } => {
            if fn_line(s.functions, name) is Some {
                s
            } else {
                AStateV {
                    diagnostics: s.diagnostics.push(DiagnosticV::FuncUnknown { line, name }),
                    ..s
                }
            }
        },
        InstrV::BlockEnd => AStateV { locals: Seq::empty(), in_function: false, ..s },
        InstrV::Blank => s,
        InstrV::Malformed => AStateV {
            diagnostics: s.diagnostics.push(DiagnosticV::MalformedLine { line }),
            ..s
        },
    }
}

/// The analysis state after the first `n` lines.
pub open spec fn analyze_upto(lines: Seq<Seq<Seq<char>>>, n: int) -> AStateV
    decreases n,
{
    if n <= 0 {
        init_analysis()
    } else {
        analyze_step(analyze_upto(lines, n - 1), lines[n - 1], (n - 1) as usize)
    }
}

/// Whether a vector of names holds the given name.
pub fn vec_contains_name(names: &Vec<String>, name: &String) -> (b: bool)
    ensures
        b == contains_name(names.deep_view(), name@),
{
    let mut k: usize = 0;
    while k < names.len()
        invariant
            k <= names.len(),
            forall|j: int| 0 <= j < k ==> names.deep_view()[j] != name@,
        decreases names.len() - k,
    {
        if names[k] == *name {
            assert(names.deep_view()[k as int] == name@);
            return true;
        }
        k = k + 1;
    }
    false
}

/// Looks a name up in the function table; returns the header line of the
/// first entry carrying it.
pub fn find_fn(fns: &Vec<FnEntry>, name: &String) -> (r: Option<usize>)
    ensures
        r == fn_line(fns.deep_view(), name@),
{
    let ghost fv = fns.deep_view();
    proof {
        assert(fv.skip(0) =~= fv);
    }
    let mut k: usize = 0;
    while k < fns.len()
        invariant
            k <= fns.len(),
            fv == fns.deep_view(),
            fn_line(fv, name@) == fn_line(fv.skip(k as int), name@),
        decreases fns.len() - k,
    {
        let ghost rest = fv.skip(k as int);
        assert(rest[0] == fv[k as int]);
        if fns[k].name == *name {
            assert(fn_line(rest, name@) == Some(fv[k as int].line));
            return Some(fns[k].line);
        }
        proof {
            assert(rest.drop_first() =~= fv.skip(k as int + 1));
        }
        k = k + 1;
    }
    assert(fv.skip(k as int).len() == 0);
    None
}

/// Analyzes the whole program: folds [`analyze_step`] over every line in
/// source order, starting from the empty state.
pub fn analyze(lines: &Vec<Vec<String>>) -> (r: Analysis)
    ensures
        r.deep_view() == analyze_upto(lines.deep_view(), lines.deep_view().len() as int),
{
    let ghost lv = lines.deep_view();
    let mut globals: Vec<String> = Vec::new();
    let mut functions: Vec<FnEntry> = Vec::new();
    let mut locals: Vec<String> = Vec::new();
    let mut in_function: bool = false;
    let mut diagnostics: Vec<Diagnostic> = Vec::new();
    proof {
        assert(globals.deep_view() =~= init_analysis().globals);
        assert(functions.deep_view() =~= init_analysis().functions);
        assert(locals.deep_view() =~= init_analysis().locals);
        assert(diagnostics.deep_view() =~= init_analysis().diagnostics);
    }
    let mut i: usize = 0;
    while i < lines.len()
        invariant
            i <= lines.len(),
            lv == lines.deep_view(),
            (AStateV {
                globals: globals.deep_view(),
                functions: functions.deep_view(),
                locals: locals.deep_view(),
                in_function: in_function,
                diagnostics: diagnostics.deep_view(),
            }) == analyze_upto(lv, i as int),
        decreases lines.len() - i,
    {
        let ghost pre = analyze_upto(lv, i as int);
        assert(lv[i as int] == lines@[i as int].deep_view());
        let ins: Instr = classify(&lines[i]);
        match ins {
            Instr::DeclareVar { name } => {
                if in_function {
                    if vec_contains_name(&locals, &name) || vec_contains_name(&globals, &name) {
                        diagnostics.push(Diagnostic::VarRedefined { line: i, name });
                        proof {
                            assert(diagnostics.deep_view() =~= pre.diagnostics.push(
                                DiagnosticV::VarRedefined { line: i, name: lv[i as int][1] },
                            ));
                        }
                    } else {
                        locals.push(name);
                        proof {
                            assert(locals.deep_view() =~= pre.locals.push(lv[i as int][1]));
                        }
                    }
                } else {
                    if vec_contains_name(&globals, &name) {
                        diagnostics.push(Diagnostic::VarRedefined { line: i, name });
                        proof {
                            assert(diagnostics.deep_view() =~= pre.diagnostics.push(
                                DiagnosticV::VarRedefined { line: i, name: lv[i as int][1] },
                            ));
                        }
                    } else {
                        globals.push(name);
                        proof {
                            assert(globals.deep_view() =~= pre.globals.push(lv[i as int][1]));
                        }
                    }
                }
            },
            Instr::Assign { name, literal } => {
                let known = vec_contains_name(&globals, &name) || (in_function
                    && vec_contains_name(&locals, &name));
                if !known {
                    diagnostics.push(Diagnostic::VarUnknown { line: i, name });
                    proof {
                        assert(diagnostics.deep_view() =~= pre.diagnostics.push(
                            DiagnosticV::VarUnknown { line: i, name: lv[i as int][0] },
                        ));
                    }
                }
            },
            Instr::FuncDecl { name } => {
                if find_fn(&functions, &name).is_some() {
                    diagnostics.push(Diagnostic::FuncRedefined { line: i, name });
                    proof {
                        assert(diagnostics.deep_view() =~= pre.diagnostics.push(
                            DiagnosticV::FuncRedefined { line: i, name: lv[i as int][1] },
                        ));
                    }
                } else {
                    functions.push(FnEntry { name, line: i });
                    proof {
                        assert(functions.deep_view() =~= pre.functions.push(
                            FnEntryV { name: lv[i as int][1], line: i },
                        ));
                    }
                }
                in_function = true;
            },
            Instr::Call { name } => {
                if find_fn(&functions, &name).is_none() {
                    diagnostics.push(Diagnostic::FuncUnknown { line: i, name });
                    proof {
                        assert(diagnostics.deep_view() =~= pre.diagnostics.push(
                            DiagnosticV::FuncUnknown { line: i, name: lv[i as int][0] },
                        ));
                    }
                }
            },
            Instr::BlockEnd => {
                locals.clear();
                in_function = false;
                proof {
                    assert(locals.deep_view() =~= Seq::<Seq<char>>::empty());
                }
            },
            Instr::Blank => {},
            Instr::Malformed => {
                diagnostics.push(Diagnostic::MalformedLine { line: i });
                proof {
                    assert(diagnostics.deep_view() =~= pre.diagnostics.push(
                        DiagnosticV::MalformedLine { line: i },
                    ));
                }
            },
        }
        proof {
            assert((AStateV {
                globals: globals.deep_view(),
                functions: functions.deep_view(),
                locals: locals.deep_view(),
                in_function: in_function,
                diagnostics: diagnostics.deep_view(),
            }) == analyze_step(pre, lv[i as int], i));
        }
        i = i + 1;
    }
    Analysis { globals, functions, locals, in_function, diagnostics }
}

} // verus!
