//! Classification of one tokenized source line into an instruction shape,
//! and parsing of integer literals.

use vstd::prelude::*;

verus! {

/// One source line, classified into the instruction shape its tokens match.
#[derive(Debug, Clone, PartialEq, Eq)]
pub enum Instr {
    /// `var <name>`
    DeclareVar { name: String },
    /// `<name> = <literal>`
    Assign { name: String, literal: String },
    /// `func <name> {`
    FuncDecl { name: String },
    /// `<name>` where the name ends in `()`
    Call { name: String },
    /// `}` alone on its line
    BlockEnd,
    /// a line with no tokens at all
    Blank,
    /// a non-empty line matching none of the recognized shapes
    Malformed,
}

/// The mathematical shape of an instruction: names as character sequences.
pub enum InstrV {
    DeclareVar { name: Seq<char> },
    Assign { name: Seq<char>, literal: Seq<char> },
    FuncDecl { name: Seq<char> },
    Call { name: Seq<char> },
    BlockEnd,
    Blank,
    Malformed,
}

impl DeepView for Instr {
    type V = InstrV;

    open spec fn deep_view(&self) -> InstrV {
        match self {
            Instr::DeclareVar { name } => InstrV::DeclareVar { name: name@ },
            Instr::Assign { name, literal } => InstrV::Assign {
                name: name@,
                literal: literal@,
            },
            Instr::FuncDecl { name } => InstrV::FuncDecl { name: name@ },
            Instr::Call { name } => InstrV::Call { name: name@ },
            Instr::BlockEnd => InstrV::BlockEnd,
            Instr::Blank => InstrV::Blank,
            Instr::Malformed => InstrV::Malformed,
        }
    }
}

/// A call statement is a single token whose last two characters are `(` `)`.
pub open spec fn is_call_token(t: Seq<char>) -> bool {
    t.len() >= 2 && t[t.len() - 2] == '(' && t[t.len() - 1] == ')'
}

/// How a tokenized line is classified, in declarative form.  Blank lines are
/// no-ops; one token is a block end or a call; two tokens declare a variable;
/// three tokens are an assignment or a function header; everything else is
/// malformed.
pub open spec fn spec_classify(toks: Seq<Seq<char>>) -> InstrV {
    if toks.len() == 0 {
        InstrV::Blank
    } else if toks.len() == 1 {
        if toks[0] == "}"@ {
            InstrV::BlockEnd
        } else if is_call_token(toks[0]) {
            InstrV::Call { name: toks[0] }
        } else {
            InstrV::Malformed
        }
    } else if toks.len() == 2 {
        if toks[0] == "var"@ {
            InstrV::DeclareVar { name: toks[1] }
        } else {
            InstrV::Malformed
        }
    } else if toks.len() == 3 {
        if toks[1] == "="@ {
            InstrV::Assign { name: toks[0], literal: toks[2] }
        } else if toks[0] == "func"@ && toks[2] == "{"@ {
            InstrV::FuncDecl { name: toks[1] }
        } else {
            InstrV::Malformed
        }
    } else {
        InstrV::Malformed
    }
}

/// Whether a token equals the given literal, compared character by character.
fn token_eq_lit(tok: &String, lit: &str) -> (b: bool)
    ensures
        b == (tok@ == lit@),
{
    let s: String = String::from_str(lit);
    *tok == s
}

/// Whether a token names a call, i.e. ends in `()`.
fn token_is_call(tok: &String) -> (b: bool)
    ensures
        b == is_call_token(tok@),
{
    let s: &str = tok.as_str();
    let n: usize = s.unicode_len();
    if n < 2 {
        false
    } else {
        let open: char = s.get_char(n - 2);
        let close: char = s.get_char(n - 1);
        open == '(' && close == ')'
    }
}

/// Classifies one tokenized line into the instruction shape it matches.
pub fn classify(tokens: &Vec<String>) -> (r: Instr)
    ensures
        r.deep_view() == spec_classify(tokens.deep_view()),
{
    let n = tokens.len();
    if n == 0 {
        Instr::Blank
    } else if n == 1 {
        if token_eq_lit(&tokens[0], "}") {
            Instr::BlockEnd
        } else if token_is_call(&tokens[0]) {
            Instr::Call { name: tokens[0].clone() }
        } else {
            Instr::Malformed
        }
    } else if n == 2 {
        if token_eq_lit(&tokens[0], "var") {
            Instr::DeclareVar { name: tokens[1].clone() }
        } else {
            Instr::Malformed
        }
    } else if n == 3 {
        if token_eq_lit(&tokens[1], "=") {
            Instr::Assign { name: tokens[0].clone(), literal: tokens[2].clone() }
        } else if token_eq_lit(&tokens[0], "func") && token_eq_lit(&tokens[2], "{") {
            Instr::FuncDecl { name: tokens[1].clone() }
        } else {
            Instr::Malformed
        }
    } else {
        Instr::Malformed
    }
}

/// Whether an instruction is the closing `}` of a block.
pub fn is_block_end(ins: &Instr) -> (b: bool)
    ensures
        b == (ins.deep_view() is BlockEnd),
{
    match ins {
        Instr::BlockEnd => true,
        _ => false,
    }
}

/// Whether a character is a decimal digit.
pub open spec fn is_digit(c: char) -> bool {
    ('0' as u32) <= (c as u32) && (c as u32) <= ('9' as u32)
}

/// The numeric value of one decimal digit.
pub open spec fn digit_val(c: char) -> int {
    (c as u32) - ('0' as u32)
}

/// Whether every character of the sequence is a decimal digit.
pub open spec fn all_digits(s: Seq<char>) -> bool {
    forall|i: int| 0 <= i < s.len() ==> is_digit(#[trigger] s[i])
}

/// The value of a sequence of decimal digits, most significant first.
pub open spec fn digits_val(s: Seq<char>) -> int
    decreases s.len(),
{
    if s.len() == 0 {
        0
    } else {
        digits_val(s.drop_last()) * 10 + digit_val(s.last())
    }
}

/// What parsing an integer literal yields: an optional sign, then at least
/// one decimal digit, and a value within the range of `i32`; anything else
/// fails.
pub open spec fn spec_parse_i32(s: Seq<char>) -> Option<i32> {
    let neg = s.len() > 0 && s[0] == '-';
    let digits = if s.len() > 0 && (s[0] == '-' || s[0] == '+') {
        s.subrange(1, s.len() as int)
    } else {
        s
    };
    if digits.len() == 0 || !all_digits(digits) {
        None
    } else {
        let v = digits_val(digits);
        if neg {
            if -v >= i32::MIN as int {
                Some((-v) as i32)
            } else {
                None
            }
        } else {
            if v <= i32::MAX as int {
                Some(v as i32)
            } else {
                None
            }
        }
    }
}

/// A digit sequence is worth at least zero.
proof fn lemma_digits_val_nonneg(s: Seq<char>)
    requires
        all_digits(s),
    ensures
        digits_val(s) >= 0,
    decreases s.len(),
{
    if s.len() > 0 {
        assert(all_digits(s.drop_last())) by {
            assert(forall|i: int| 0 <= i < s.len() - 1 ==> s.drop_last()[i] == s[i]);
        }
        lemma_digits_val_nonneg(s.drop_last());
        assert(digits_val(s.drop_last()) * 10 >= 0) by (nonlinear_arith)
            requires
                digits_val(s.drop_last()) >= 0,
        ;
    }
}

/// Extending a digit sequence never lowers its value: the value of a prefix
/// bounds the value of the whole from below.
proof fn lemma_digits_val_prefix_le(s: Seq<char>, k: int)
    requires
        0 <= k <= s.len(),
        all_digits(s),
    ensures
        digits_val(s.subrange(0, k)) <= digits_val(s),
    decreases s.len() - k,
{
    if k < s.len() {
        let t = s.subrange(0, k + 1);
        assert(t.drop_last() =~= s.subrange(0, k));
        assert(all_digits(s.subrange(0, k))) by {
            assert(forall|i: int| 0 <= i < k ==> s.subrange(0, k)[i] == s[i]);
        }
        lemma_digits_val_nonneg(s.subrange(0, k));
        let p = digits_val(s.subrange(0, k));
        assert(p * 10 >= p) by (nonlinear_arith)
            requires
                p >= 0,
        ;
        assert(digits_val(t) == p * 10 + digit_val(t.last()));
        assert(digits_val(s.subrange(0, k + 1)) >= digits_val(s.subrange(0, k)));
        lemma_digits_val_prefix_le(s, k + 1);
    } else {
        assert(s.subrange(0, k) =~= s);
    }
}

/// Parses a token as a signed 32-bit decimal integer.  Returns `None` on a
/// malformed literal or one whose value does not fit.
pub fn parse_i32_token(tok: &String) -> (r: Option<i32>)
    ensures
        r == spec_parse_i32(tok@),
{
    let s: &str = tok.as_str();
    let n: usize = s.unicode_len();
    if n == 0 {
        return None;
    }
    let first: char = s.get_char(0);
    let neg: bool = first == '-';
    let start: usize = if first == '-' || first == '+' {
        1
    } else {
        0
    };
    let ghost digits: Seq<char> = if start == 1 {
        tok@.subrange(1, tok@.len() as int)
    } else {
        tok@
    };
    if n == start {
        assert(digits.len() == 0);
        return None;
    }
    let mut i: usize = start;
    let mut acc: u64 = 0;
    while i < n
        invariant
            start <= i <= n,
            n == tok@.len(),
            tok@ == s@,
            start == 1 ==> digits == tok@.subrange(1, tok@.len() as int),
            start == 0 ==> digits == tok@,
            start <= 1,
            (start == 1) == (tok@.len() > 0 && (tok@[0] == '-' || tok@[0] == '+')),
            neg == (tok@.len() > 0 && tok@[0] == '-'),
            digits.len() == n - start,
            forall|k: int| 0 <= k < digits.len() ==> digits[k] == tok@[k + start],
            all_digits(digits.subrange(0, i - start)),
            acc == digits_val(digits.subrange(0, i - start)),
            acc <= 0x8000_0000,
        decreases n - i,
    {
        let c: char = s.get_char(i);
        let cv: u32 = c as u32;
        if cv < 0x30 || cv > 0x39 {
            assert(!is_digit(digits[i - start]));
            assert(!all_digits(digits));
            return None;
        }
        let d: u64 = (cv - 0x30) as u64;
        let acc2: u64 = acc * 10 + d;
        proof {
            let pre = digits.subrange(0, i - start + 1);
            assert(pre.drop_last() =~= digits.subrange(0, i - start));
            assert(pre.last() == digits[i - start]);
            assert(is_digit(digits[i - start]));
            assert(digit_val(digits[i - start]) == d);
            assert(acc2 == digits_val(pre));
            assert(all_digits(pre)) by {
                assert(forall|k: int| 0 <= k < pre.len() ==> pre[k] == digits[k]);
            }
        }
        if acc2 > 0x8000_0000 {
            proof {
                if all_digits(digits) {
                    lemma_digits_val_prefix_le(digits, i - start + 1);
                    assert(digits_val(digits) >= acc2);
                }
            }
            return None;
        }
        acc = acc2;
        i = i + 1;
    }
    proof {
        assert(digits.subrange(0, i - start) =~= digits);
    }
    if neg {
        if acc == 0x8000_0000 {
            Some(i32::MIN)
        } else {
            Some(-(acc as i32))
        }
    } else {
        if acc > 0x7fff_ffff {
            None
        } else {
            Some(acc as i32)
        }
    }
}

} // verus!

