//! The compiler: program text in, instruction sequence with resolved jump
//! targets out.
//!
//! Any character outside the recognized set is a comment and contributes no
//! instruction. Bracket matching is strictly LIFO: an opening bracket is
//! compiled to a placeholder and its output index is pushed on a stack; the
//! matching closing bracket pops it and patches both ends of the pair. An
//! unmatched closing bracket is rejected at compile time; an unmatched
//! opening bracket leaves its `Abort` placeholder in the output, which the
//! executor reports as a fatal condition if it is ever reached.

use crate::instruction::jump_targets_ok;
use crate::instruction::Instruction;
use vstd::prelude::*;

verus! {

/// Why compilation failed.
#[derive(Debug, PartialEq, Eq, Structural, Clone, Copy)]
pub enum ParseError {
    /// A closing bracket with no opening bracket before it.
    UnmatchedCloseBracket,
}

/// The compiler's state after some prefix of the source: the instructions
/// built so far, and the output indices of the opening brackets still waiting
/// for their match, innermost last.
pub struct ParseSt {
    pub out: Seq<Instruction>,
    pub stack: Seq<usize>,
}

/// The state the compiler starts from: nothing built, no pending brackets.
pub open spec fn initial_parse_state() -> ParseSt {
    ParseSt { out: Seq::empty(), stack: Seq::empty() }
}

/// A character is an instruction character; every other character is a
/// comment.
pub open spec fn is_instr_char(c: char) -> bool {
    c == '>' || c == '<' || c == '+' || c == '-' || c == '.' || c == ',' || c == '[' || c == ']'
}

/// How one source character transforms the compiler's state. `None` means an
/// unmatched closing bracket.
pub open spec fn parse_char(st: ParseSt, c: char) -> Option<ParseSt> {
    if c == '[' {
        Some(
            ParseSt {
                out: st.out.push(Instruction::Abort),
                stack: st.stack.push(st.out.len() as usize),
            },
        )
    } else if c == ']' {
        if st.stack.len() == 0 {
            None
        } else {
            let open = st.stack.last();
            Some(
                ParseSt {
                    out: st.out.update(
                        open as int,
                        Instruction::BeginLoop(st.out.len() as usize),
                    ).push(Instruction::EndLoop(open)),
                    stack: st.stack.drop_last(),
                },
            )
        }
    } else if c == '>' {
        Some(ParseSt { out: st.out.push(Instruction::GoRight), stack: st.stack })
    } else if c == '<' {
        Some(ParseSt { out: st.out.push(Instruction::GoLeft), stack: st.stack })
    } else if c == '+' {
        Some(ParseSt { out: st.out.push(Instruction::Increment), stack: st.stack })
    } else if c == '-' {
        Some(ParseSt { out: st.out.push(Instruction::Decrement), stack: st.stack })
    } else if c == '.' {
        Some(ParseSt { out: st.out.push(Instruction::Output), stack: st.stack })
    } else if c == ',' {
        Some(ParseSt { out: st.out.push(Instruction::Input), stack: st.stack })
    } else {
        Some(st)
    }
}

/// The compiler's state after a whole character sequence, processed left to
/// right from `st`.
pub open spec fn parse_chars(cs: Seq<char>, st: ParseSt) -> Option<ParseSt>
    decreases cs.len(),
{
    if cs.len() == 0 {
        Some(st)
    } else {
        match parse_chars(cs.drop_last(), st) {
            Some(mid) => parse_char(mid, cs.last()),
            None => None,
        }
    }
}

/// What compiling a character sequence yields: the instruction sequence, or
/// nothing when the source has an unmatched closing bracket.
pub open spec fn spec_parse(cs: Seq<char>) -> Option<Seq<Instruction>> {
    match parse_chars(cs, initial_parse_state()) {
        Some(st) => Some(st.out),
        None => None,
    }
}

/// The instruction characters of a source text, in order: what remains after
/// every comment character is dropped.
pub open spec fn instr_chars(cs: Seq<char>) -> Seq<char>
    decreases cs.len(),
{
    if cs.len() == 0 {
        Seq::empty()
    } else if is_instr_char(cs.last()) {
        instr_chars(cs.drop_last()).push(cs.last())
    } else {
        instr_chars(cs.drop_last())
    }
}

/// A comment character leaves the compiler's state alone, so compiling a
/// text is compiling only its instruction characters.
proof fn lemma_parse_chars_skips_comments(cs: Seq<char>, st: ParseSt)
    ensures
        parse_chars(cs, st) == parse_chars(instr_chars(cs), st),
    decreases cs.len(),
{
    if cs.len() > 0 {
        lemma_parse_chars_skips_comments(cs.drop_last(), st);
        if is_instr_char(cs.last()) {
            assert(instr_chars(cs).drop_last() =~= instr_chars(cs.drop_last()));
            assert(instr_chars(cs).last() == cs.last());
        }
    }
}

/// Comment-skipping law: inserting non-instruction characters anywhere in a
/// source text does not change what it compiles to. Any two texts with the
/// same instruction characters compile to the same result.
pub proof fn lemma_comment_skipping(a: Seq<char>, b: Seq<char>)
    requires
        instr_chars(a) == instr_chars(b),
    ensures
        spec_parse(a) == spec_parse(b),
{
    lemma_parse_chars_skips_comments(a, initial_parse_state());
    lemma_parse_chars_skips_comments(b, initial_parse_state());
}

/// Once some prefix of the source is rejected, the whole source is rejected.
proof fn lemma_parse_chars_none_extends(cs: Seq<char>, st: ParseSt, i: int)
    requires
        0 <= i <= cs.len(),
        parse_chars(cs.take(i), st) is None,
    ensures
        parse_chars(cs, st) is None,
    decreases cs.len() - i,
{
    if i < cs.len() {
        assert(cs.take(i + 1).drop_last() =~= cs.take(i));
        lemma_parse_chars_none_extends(cs, st, i + 1);
    } else {
        assert(cs.take(i) =~= cs);
    }
}

/// How many opening brackets a character sequence holds.
pub open spec fn open_brackets(cs: Seq<char>) -> int
    decreases cs.len(),
{
    if cs.len() == 0 {
        0
    } else {
        open_brackets(cs.drop_last()) + if cs.last() == '[' {
            1int
        } else {
            0int
        }
    }
}

/// How many closing brackets a character sequence holds.
pub open spec fn close_brackets(cs: Seq<char>) -> int
    decreases cs.len(),
{
    if cs.len() == 0 {
        0
    } else {
        close_brackets(cs.drop_last()) + if cs.last() == ']' {
            1int
        } else {
            0int
        }
    }
}

/// Brackets are balanced: no prefix closes more brackets than it opened, and
/// the whole text opens exactly as many as it closes.
pub open spec fn balanced(cs: Seq<char>) -> bool {
    open_brackets(cs) == close_brackets(cs) && forall|k: int|
        0 <= k <= cs.len() ==> open_brackets(#[trigger] cs.take(k)) >= close_brackets(cs.take(k))
}

/// The bracket pair through position `i` points both ways: a `BeginLoop` at
/// `i` targets a later `EndLoop` whose target is `i`, and an `EndLoop` at `i`
/// targets an earlier `BeginLoop` whose target is `i`.
pub open spec fn loop_pair_matched(prog: Seq<Instruction>, i: int) -> bool {
    match prog[i] {
        Instruction::BeginLoop(j) => i < j < prog.len() && prog[j as int] == Instruction::EndLoop(
            i as usize,
        ),
        Instruction::EndLoop(j) => 0 <= j < i && prog[j as int] == Instruction::BeginLoop(
            i as usize,
        ),
        _ => true,
    }
}

/// Every loop instruction of the program sits in a matched pair.
pub open spec fn loops_matched(prog: Seq<Instruction>) -> bool {
    forall|i: int| 0 <= i < prog.len() ==> #[trigger] loop_pair_matched(prog, i)
}

/// No `Abort` placeholder survives in the program.
pub open spec fn no_placeholder(prog: Seq<Instruction>) -> bool {
    forall|i: int| 0 <= i < prog.len() ==> #[trigger] prog[i] != Instruction::Abort
}

/// The compiler's internal invariant: every pair matched so far points both
/// ways, the pending opening brackets sit on the stack in strictly increasing
/// order, and the stack entries are exactly the placeholder positions.
pub open spec fn parse_inv(st: ParseSt) -> bool {
    &&& forall|i: int| 0 <= i < st.out.len() ==> #[trigger] loop_pair_matched(st.out, i)
    &&& forall|a: int, b: int|
        0 <= a < b < st.stack.len() ==> #[trigger] st.stack[a] < #[trigger] st.stack[b]
    &&& forall|a: int|
        0 <= a < st.stack.len() ==> (#[trigger] st.stack[a] as int) < st.out.len()
            && st.out[st.stack[a] as int] == Instruction::Abort
    &&& forall|i: int|
        0 <= i < st.out.len() && #[trigger] st.out[i] == Instruction::Abort ==> exists|a: int|
            0 <= a < st.stack.len() && (#[trigger] st.stack[a] as int) == i
}

/// Compiling preserves the compiler's invariant and never underflows the
/// bracket stack as long as no prefix closes more brackets than it opened;
/// the stack afterwards holds exactly the still-unclosed brackets.
proof fn lemma_parse_chars_preserves_inv(cs: Seq<char>, st: ParseSt)
    requires
        parse_inv(st),
        st.out.len() + cs.len() <= usize::MAX,
        forall|k: int|
            0 <= k <= cs.len() ==> st.stack.len() + open_brackets(#[trigger] cs.take(k))
                - close_brackets(cs.take(k)) >= 0,
    ensures
        parse_chars(cs, st) matches Some(st2) && parse_inv(st2) && st2.stack.len()
            == st.stack.len() + open_brackets(cs) - close_brackets(cs) && st2.out.len()
            <= st.out.len() + cs.len(),
    decreases cs.len(),
{
    if cs.len() == 0 {
    } else {
        let dl = cs.drop_last();
        let c = cs.last();
        assert forall|k: int| 0 <= k <= dl.len() implies st.stack.len() + open_brackets(
            #[trigger] dl.take(k),
        ) - close_brackets(dl.take(k)) >= 0 by {
            assert(dl.take(k) =~= cs.take(k));
        }
        lemma_parse_chars_preserves_inv(dl, st);
        let st1 = parse_chars(dl, st)->Some_0;
        assert(cs.take(cs.len() as int) =~= cs);
        if c == '[' {
            let st2 = parse_char(st1, c)->Some_0;
            assert forall|i: int| 0 <= i < st2.out.len() implies #[trigger] loop_pair_matched(
                st2.out,
                i,
            ) by {
                if i < st1.out.len() {
                    assert(loop_pair_matched(st1.out, i));
                }
            }
            assert forall|a: int, b: int|
                0 <= a < b < st2.stack.len() implies #[trigger] st2.stack[a] < #[trigger] st2.stack[b] by {
                if b == st2.stack.len() - 1 {
                    assert((st1.stack[a] as int) < st1.out.len());
                }
            }
            assert forall|i: int|
                0 <= i < st2.out.len() && #[trigger] st2.out[i] == Instruction::Abort implies exists|
                a: int,
            | 0 <= a < st2.stack.len() && (#[trigger] st2.stack[a] as int) == i by {
                if i < st1.out.len() {
                    let a = choose|a: int|
                        0 <= a < st1.stack.len() && (#[trigger] st1.stack[a] as int) == i;
                    assert((st2.stack[a] as int) == i);
                } else {
                    assert((st2.stack[st2.stack.len() - 1] as int) == i);
                }
            }
            assert(parse_inv(st2));
        } else if c == ']' {
            // the prefix condition at the whole of cs rules out an underflow
            assert(st1.stack.len() > 0);
            let open = st1.stack.last();
            let close = st1.out.len() as int;
            assert((open as int) < close && st1.out[open as int] == Instruction::Abort);
            let st2 = parse_char(st1, c)->Some_0;
            assert(st2.out[open as int] == Instruction::BeginLoop(close as usize));
            assert(st2.out[close] == Instruction::EndLoop(open));
            assert forall|i: int| 0 <= i < st2.out.len() implies #[trigger] loop_pair_matched(
                st2.out,
                i,
            ) by {
                if i == open as int {
                } else if i == close {
                } else {
                    assert(loop_pair_matched(st1.out, i));
                    match st1.out[i] {
                        Instruction::BeginLoop(j) => {
                            assert(st1.out[j as int] != Instruction::Abort);
                            assert(st2.out[j as int] == st1.out[j as int]);
                        },
                        Instruction::EndLoop(j) => {
                            assert(st1.out[j as int] != Instruction::Abort);
                            assert(st2.out[j as int] == st1.out[j as int]);
                        },
                        _ => {},
                    }
                }
            }
            // entries below the popped top are untouched placeholders
            assert forall|a: int|
                0 <= a < st2.stack.len() implies (#[trigger] st2.stack[a] as int) < st2.out.len()
                && st2.out[st2.stack[a] as int] == Instruction::Abort by {
                assert(st1.stack[a] < st1.stack[st1.stack.len() - 1]);
            }
            assert forall|i: int|
                0 <= i < st2.out.len() && #[trigger] st2.out[i] == Instruction::Abort implies exists|
                a: int,
            | 0 <= a < st2.stack.len() && (#[trigger] st2.stack[a] as int) == i by {
                assert(st1.out[i] == Instruction::Abort);
                let a = choose|a: int|
                    0 <= a < st1.stack.len() && (#[trigger] st1.stack[a] as int) == i;
                assert(a < st1.stack.len() - 1);
                assert((st2.stack[a] as int) == i);
            }
            assert(parse_inv(st2));
        } else if is_instr_char(c) {
            let st2 = parse_char(st1, c)->Some_0;
            assert forall|i: int| 0 <= i < st2.out.len() implies #[trigger] loop_pair_matched(
                st2.out,
                i,
            ) by {
                if i < st1.out.len() {
                    assert(loop_pair_matched(st1.out, i));
                }
            }
            assert(parse_inv(st2));
        }
    }
}

/// Bijection law: compiling a source text with balanced brackets succeeds,
/// and in the program that comes out the loop instructions form a perfect
/// matching — every `BeginLoop` at index `i` targets the `EndLoop` at some
/// index `j` and that `EndLoop` targets `i` back — with no placeholder left.
pub proof fn lemma_loop_bijection(cs: Seq<char>)
    requires
        balanced(cs),
        cs.len() <= usize::MAX,
    ensures
        spec_parse(cs) matches Some(prog) && loops_matched(prog) && no_placeholder(prog),
{
    lemma_parse_chars_preserves_inv(cs, initial_parse_state());
    let st2 = parse_chars(cs, initial_parse_state())->Some_0;
    // the stack ends empty, so no position can hold a placeholder
    assert(st2.stack.len() == 0);
    assert(no_placeholder(st2.out));
}

/// The source character an instruction renders back to. The `Abort`
/// placeholder stands in for an opening bracket whose match is pending, so it
/// renders as one.
pub open spec fn render_char(ins: Instruction) -> char {
    match ins {
        Instruction::GoRight => '>',
        Instruction::GoLeft => '<',
        Instruction::Increment => '+',
        Instruction::Decrement => '-',
        Instruction::Output => '.',
        Instruction::Input => ',',
        Instruction::BeginLoop(_) => '[',
        Instruction::EndLoop(_) => ']',
        Instruction::Abort => '[',
    }
}

/// The textual rendering of an instruction sequence: one character per
/// instruction, in order.
pub open spec fn render(prog: Seq<Instruction>) -> Seq<char>
    decreases prog.len(),
{
    if prog.len() == 0 {
        Seq::empty()
    } else {
        render(prog.drop_last()).push(render_char(prog.last()))
    }
}

/// Overwriting an instruction with one that renders to the same character
/// leaves the rendering unchanged.
proof fn lemma_render_update(prog: Seq<Instruction>, k: int, ins: Instruction)
    requires
        0 <= k < prog.len(),
        render_char(ins) == render_char(prog[k]),
    ensures
        render(prog.update(k, ins)) == render(prog),
    decreases prog.len(),
{
    if k == prog.len() - 1 {
        assert(prog.update(k, ins).drop_last() =~= prog.drop_last());
    } else {
        assert(prog.update(k, ins).drop_last() =~= prog.drop_last().update(k, ins));
        lemma_render_update(prog.drop_last(), k, ins);
        assert(prog.update(k, ins).last() == prog.last());
    }
}

/// Whatever the compiler emits renders back to exactly the instruction
/// characters it consumed: placeholders and their later patches both render
/// as the opening bracket they came from.
proof fn lemma_parse_chars_render(cs: Seq<char>, st: ParseSt)
    requires
        parse_inv(st),
        st.out.len() + cs.len() <= usize::MAX,
        forall|k: int|
            0 <= k <= cs.len() ==> st.stack.len() + open_brackets(#[trigger] cs.take(k))
                - close_brackets(cs.take(k)) >= 0,
    ensures
        parse_chars(cs, st) matches Some(st2) && render(st2.out) == render(st.out) + instr_chars(
            cs,
        ),
    decreases cs.len(),
{
    if cs.len() == 0 {
        assert(render(st.out) + instr_chars(cs) =~= render(st.out));
    } else {
        let dl = cs.drop_last();
        let c = cs.last();
        assert forall|k: int| 0 <= k <= dl.len() implies st.stack.len() + open_brackets(
            #[trigger] dl.take(k),
        ) - close_brackets(dl.take(k)) >= 0 by {
            assert(dl.take(k) =~= cs.take(k));
        }
        lemma_parse_chars_render(dl, st);
        lemma_parse_chars_preserves_inv(dl, st);
        let st1 = parse_chars(dl, st)->Some_0;
        assert(cs.take(cs.len() as int) =~= cs);
        if is_instr_char(c) {
            let st2 = parse_char(st1, c)->Some_0;
            if c == ']' {
                assert(st1.stack.len() > 0);
                let open = st1.stack.last();
                assert(st1.out[open as int] == Instruction::Abort);
                lemma_render_update(
                    st1.out,
                    open as int,
                    Instruction::BeginLoop(st1.out.len() as usize),
                );
                let patched = st1.out.update(
                    open as int,
                    Instruction::BeginLoop(st1.out.len() as usize),
                );
                assert(st2.out.drop_last() =~= patched);
            } else {
                assert(st2.out.drop_last() =~= st1.out);
            }
            assert(render(st2.out) == render(st1.out).push(c));
            assert(render(st.out) + instr_chars(dl).push(c) =~= (render(st.out) + instr_chars(
                dl,
            )).push(c));
        }
    }
}

/// Round-trip law: compile a source text with balanced brackets, render the
/// program back to text — each instruction to its character — and compile
/// that rendering: the same program comes out, jump targets included.
pub proof fn lemma_render_round_trip(cs: Seq<char>)
    requires
        balanced(cs),
        cs.len() <= usize::MAX,
    ensures
        spec_parse(cs) matches Some(prog) && spec_parse(render(prog)) == Some(prog),
{
    lemma_parse_chars_render(cs, initial_parse_state());
    let prog = spec_parse(cs)->Some_0;
    assert(render(prog) =~= instr_chars(cs));
    lemma_parse_chars_skips_comments(cs, initial_parse_state());
}

/// Compile program text into an instruction sequence.
///
/// Never fails on comment characters: only an unmatched closing bracket is
/// rejected. An unmatched opening bracket compiles to an `Abort` placeholder,
/// deferring the report to execution time, as the language's loop semantics
/// cannot run such a program anyway.
pub fn parse(code: &str) -> (r: Result<Vec<Instruction>, ParseError>)
    ensures
        (match r {
            Ok(prog) => spec_parse(code@) == Some(prog@) && jump_targets_ok(prog@),
            Err(e) => spec_parse(code@) is None && e == ParseError::UnmatchedCloseBracket,
        }),
{
    let n = code.unicode_len();
    let mut output: Vec<Instruction> = Vec::new();
    let mut loop_stack: Vec<usize> = Vec::new();
    let mut i: usize = 0;
    while i < n
        invariant
            i <= n,
            n == code@.len(),
            parse_chars(code@.take(i as int), initial_parse_state()) == Some(
                ParseSt { out: output@, stack: loop_stack@ },
            ),
            forall|k: int| 0 <= k < loop_stack@.len() ==> (loop_stack@[k] as int) < output@.len(),
            jump_targets_ok(output@),
        decreases n - i,
    {
        let c = code.get_char(i);
        let ghost prev = ParseSt { out: output@, stack: loop_stack@ };
        proof {
            assert(code@.take(i + 1).drop_last() =~= code@.take(i as int));
        }
        match c {
            '>' => {
                output.push(Instruction::GoRight);
            },
            '<' => {
                output.push(Instruction::GoLeft);
            },
            '+' => {
                output.push(Instruction::Increment);
            },
            '-' => {
                output.push(Instruction::Decrement);
            },
            '.' => {
                output.push(Instruction::Output);
            },
            ',' => {
                output.push(Instruction::Input);
            },
            '[' => {
                loop_stack.push(output.len());
                output.push(Instruction::Abort);
            },
            ']' => {
                match loop_stack.pop() {
                    Some(open_idx) => {
                        let close_idx = output.len();
                        output.set(open_idx, Instruction::BeginLoop(close_idx));
                        output.push(Instruction::EndLoop(open_idx));
                        proof {
                            assert(loop_stack@ =~= prev.stack.drop_last());
                        }
                    },
                    None => {
                        proof {
                            assert(parse_chars(code@.take(i + 1), initial_parse_state()) is None);
                            lemma_parse_chars_none_extends(code@, initial_parse_state(), i + 1);
                        }
                        return Err(ParseError::UnmatchedCloseBracket);
                    },
                }
            },
            _ => {},
        }
        proof {
            assert(parse_chars(code@.take(i + 1), initial_parse_state()) == Some(
                ParseSt { out: output@, stack: loop_stack@ },
            ));
        }
        i += 1;
    }
    proof {
        assert(code@.take(i as int) =~= code@);
    }
    Ok(output)
}

} // verus!
