//! Program representation: instructions with source positions, and
//! loop-bracket resolution over the instruction sequence.

use vstd::prelude::*;
use vstd::string::StringExecFns;

verus! {

/// A raw instruction of a program, one variant per instruction symbol.
#[derive(Debug, PartialEq, Eq, Structural, Copy, Clone)]
pub enum RawInstruction {
    /// Move the data pointer one cell to the left (`<`).
    MoveLeft,
    /// Move the data pointer one cell to the right (`>`).
    MoveRight,
    /// Wraparound-increment the cell at the data pointer (`+`).
    Increment,
    /// Wraparound-decrement the cell at the data pointer (`-`).
    Decrement,
    /// Read one byte of input into the cell at the data pointer (`,`).
    Input,
    /// Write the cell at the data pointer as one byte of output (`.`).
    Output,
    /// Loop start: taken together with its matching loop end (`[`).
    BeginLoop,
    /// Loop end: taken together with its matching loop start (`]`).
    EndLoop,
}

/// The instruction denoted by a character, or `None` for any character
/// outside the eight-symbol alphabet (such characters are comments).
pub open spec fn char_to_instruction(c: char) -> Option<RawInstruction> {
    match c {
        '<' => Some(RawInstruction::MoveLeft),
        '>' => Some(RawInstruction::MoveRight),
        '+' => Some(RawInstruction::Increment),
        '-' => Some(RawInstruction::Decrement),
        ',' => Some(RawInstruction::Input),
        '.' => Some(RawInstruction::Output),
        '[' => Some(RawInstruction::BeginLoop),
        ']' => Some(RawInstruction::EndLoop),
        _ => None,
    }
}

impl RawInstruction {
    /// Decode one source character, skipping every non-instruction character.
    pub fn from_char(c: char) -> (r: Option<RawInstruction>)
        ensures
            r == char_to_instruction(c),
    {
        match c {
            '<' => Some(RawInstruction::MoveLeft),
            '>' => Some(RawInstruction::MoveRight),
            '+' => Some(RawInstruction::Increment),
            '-' => Some(RawInstruction::Decrement),
            ',' => Some(RawInstruction::Input),
            '.' => Some(RawInstruction::Output),
            '[' => Some(RawInstruction::BeginLoop),
            ']' => Some(RawInstruction::EndLoop),
            _ => None,
        }
    }
}

/// An instruction together with its 1-based source row and column,
/// kept for diagnostics.
#[derive(Debug, PartialEq, Eq, Structural, Copy, Clone)]
pub struct Instruction {
    /// The raw instruction itself.
    pub instruction: RawInstruction,
    /// 1-based source row of the instruction character.
    pub row: usize,
    /// 1-based source column of the instruction character within its row.
    pub column: usize,
}

/// The instructions extracted from the source suffix starting at index `i`,
/// as (instruction, row, column) triples, when the character at `i` sits at
/// the given 1-based row and column. A newline moves to the next row and
/// resets the column; every other character advances the column, and only
/// the eight instruction characters contribute a triple.
pub open spec fn extract_from(s: Seq<char>, i: int, row: int, col: int) -> Seq<
    (RawInstruction, int, int),
>
    decreases s.len() - i,
{
    if i < 0 || i >= s.len() {
        Seq::empty()
    } else if s[i] == '\n' {
        extract_from(s, i + 1, row + 1, 1)
    } else {
        match char_to_instruction(s[i]) {
            Some(r) => seq![(r, row, col)] + extract_from(s, i + 1, row, col + 1),
            None => extract_from(s, i + 1, row, col + 1),
        }
    }
}

/// All instructions of a source text, in source order, with their
/// 1-based row and column positions.
pub open spec fn extracted_instructions(s: Seq<char>) -> Seq<(RawInstruction, int, int)> {
    extract_from(s, 0, 1, 1)
}

/// The (instruction, row, column) triples that a sequence of positioned
/// instructions denotes.
pub open spec fn positions_of(v: Seq<Instruction>) -> Seq<(RawInstruction, int, int)> {
    v.map(|k: int, inst: Instruction| (inst.instruction, inst.row as int, inst.column as int))
}

/// A syntax error found during loop-bracket resolution, carrying the
/// offending instruction for diagnostics.
#[derive(Debug, PartialEq, Eq, Structural, Copy, Clone)]
pub enum ProgramError {
    /// A loop start whose loop end is missing.
    UnclosedLoop(Instruction),
    /// A loop end with no pending loop start.
    UnopenedLoop(Instruction),
}

/// The character for one decimal digit.
pub open spec fn digit_char(d: nat) -> char {
    if d == 0 {
        '0'
    } else if d == 1 {
        '1'
    } else if d == 2 {
        '2'
    } else if d == 3 {
        '3'
    } else if d == 4 {
        '4'
    } else if d == 5 {
        '5'
    } else if d == 6 {
        '6'
    } else if d == 7 {
        '7'
    } else if d == 8 {
        '8'
    } else {
        '9'
    }
}

/// The decimal rendering of a number, most significant digit first,
/// without leading zeros (zero itself rendered as one digit).
pub open spec fn dec_digits(n: nat) -> Seq<char>
    decreases n,
{
    if n < 10 {
        seq![digit_char(n)]
    } else {
        dec_digits(n / 10) + seq![digit_char(n % 10)]
    }
}

/// The diagnostic message owed for a syntax error: its description and
/// the 1-based source position of the offending instruction.
pub open spec fn error_message(e: ProgramError) -> Seq<char> {
    match e {
        ProgramError::UnclosedLoop(i) => "Found unclosed bracket at row "@ + dec_digits(
            i.row as nat,
        ) + " column "@ + dec_digits(i.column as nat),
        ProgramError::UnopenedLoop(i) => {
            "Couldn't find matching opening bracket for bracket at row "@ + dec_digits(i.row as nat)
                + ", column "@ + dec_digits(i.column as nat)
        },
    }
}

/// The one-character string for a decimal digit.
fn digit_str(d: usize) -> (r: &'static str)
    requires
        d < 10,
    ensures
        r@ == seq![digit_char(d as nat)],
{
    match d {
        0 => {
            proof {
                reveal_strlit("0");
            }
            "0"
        },
        1 => {
            proof {
                reveal_strlit("1");
            }
            "1"
        },
        2 => {
            proof {
                reveal_strlit("2");
            }
            "2"
        },
        3 => {
            proof {
                reveal_strlit("3");
            }
            "3"
        },
        4 => {
            proof {
                reveal_strlit("4");
            }
            "4"
        },
        5 => {
            proof {
                reveal_strlit("5");
            }
            "5"
        },
        6 => {
            proof {
                reveal_strlit("6");
            }
            "6"
        },
        7 => {
            proof {
                reveal_strlit("7");
            }
            "7"
        },
        8 => {
            proof {
                reveal_strlit("8");
            }
            "8"
        },
        _ => {
            proof {
                reveal_strlit("9");
            }
            "9"
        },
    }
}

/// The decimal characters of the digits `ds` holds least significant
/// first, read back most significant first.
spec fn digits_reversed(ds: Seq<usize>) -> Seq<char> {
    Seq::new(ds.len(), |i: int| digit_char(ds[ds.len() - 1 - i] as nat))
}

/// Append the decimal rendering of `n` to a string.
fn append_decimal(s: &mut String, n: usize)
    ensures
        final(s)@ == old(s)@ + dec_digits(n as nat),
{
    let ghost orig = s@;
    let mut digits: Vec<usize> = Vec::new();
    let mut m: usize = n;
    digits.push(m % 10);
    m = m / 10;
    proof {
        assert(digits_reversed(digits@) =~= seq![digit_char((n % 10) as nat)]);
    }
    while m > 0
        invariant
            digits@.len() >= 1,
            forall|k: int| 0 <= k < digits@.len() ==> #[trigger] digits@[k] < 10,
            dec_digits(n as nat) == if m > 0 {
                dec_digits(m as nat) + digits_reversed(digits@)
            } else {
                digits_reversed(digits@)
            },
        decreases m,
    {
        let ghost before = digits@;
        let d = m % 10;
        digits.push(d);
        m = m / 10;
        proof {
            assert(digits_reversed(digits@) =~= seq![digit_char(d as nat)] + digits_reversed(
                before,
            ));
        }
    }
    let mut k = digits.len();
    proof {
        assert(orig + digits_reversed(digits@).take(0) =~= orig);
    }
    while k > 0
        invariant
            k <= digits@.len(),
            forall|j: int| 0 <= j < digits@.len() ==> #[trigger] digits@[j] < 10,
            s@ == orig + digits_reversed(digits@).take(digits@.len() - k),
            dec_digits(n as nat) == digits_reversed(digits@),
        decreases k,
    {
        k = k - 1;
        s.append(digit_str(digits[k]));
        proof {
            assert(s@ =~= orig + digits_reversed(digits@).take(digits@.len() - k));
        }
    }
    proof {
        assert(digits_reversed(digits@).take(digits@.len() as int) =~= digits_reversed(digits@));
    }
}

/// How one instruction changes the loop-nesting depth.
pub open spec fn bracket_delta(r: RawInstruction) -> int {
    match r {
        RawInstruction::BeginLoop => 1,
        RawInstruction::EndLoop => -1,
        _ => 0,
    }
}

/// Loop-nesting depth just before index `k`: loop starts in the prefix
/// minus loop ends in the prefix.
pub open spec fn depth(ins: Seq<Instruction>, k: int) -> int
    decreases k,
{
    if k <= 0 {
        0
    } else {
        depth(ins, k - 1) + bracket_delta(ins[k - 1].instruction)
    }
}

/// Whether an instruction is a loop bracket.
pub open spec fn is_bracket(r: RawInstruction) -> bool {
    r is BeginLoop || r is EndLoop
}

/// Indices `a < b` form a matching bracket pair: a loop start at `a`, a
/// loop end at `b`, the depth right after `b` back at the depth of `a`,
/// and the depth strictly greater everywhere in between.
pub open spec fn is_match_pair(ins: Seq<Instruction>, a: int, b: int) -> bool {
    &&& 0 <= a < b < ins.len()
    &&& ins[a].instruction is BeginLoop
    &&& ins[b].instruction is EndLoop
    &&& depth(ins, b + 1) == depth(ins, a)
    &&& forall|j: int| a < j <= b ==> depth(ins, j) > depth(ins, a)
}

/// A loop end at index `k` that has no pending loop start.
pub open spec fn is_unopened_end(ins: Seq<Instruction>, k: int) -> bool {
    ins[k].instruction is EndLoop && depth(ins, k) == 0
}

/// The first unopened loop end at or after index `k`, or the sequence
/// length when there is none.
pub open spec fn first_unopened_from(ins: Seq<Instruction>, k: int) -> int
    decreases ins.len() - k,
{
    if k < 0 || k >= ins.len() {
        ins.len() as int
    } else if is_unopened_end(ins, k) {
        k
    } else {
        first_unopened_from(ins, k + 1)
    }
}

/// The first unopened loop end, or the sequence length when every loop
/// end has a pending loop start.
pub open spec fn first_unopened(ins: Seq<Instruction>) -> int {
    first_unopened_from(ins, 0)
}

/// A loop start at index `i` that is never closed: the depth stays
/// strictly above its own depth for the rest of the sequence.
pub open spec fn is_unmatched_open(ins: Seq<Instruction>, i: int) -> bool {
    ins[i].instruction is BeginLoop && forall|j: int|
        i < j <= ins.len() ==> depth(ins, j) > depth(ins, i)
}

/// The last unmatched loop start at or before index `k`.
pub open spec fn last_unmatched_open_from(ins: Seq<Instruction>, k: int) -> int
    decreases k + 1,
{
    if k < 0 {
        0
    } else if is_unmatched_open(ins, k) {
        k
    } else {
        last_unmatched_open_from(ins, k - 1)
    }
}

/// The innermost still-open loop start: the last unmatched one.
pub open spec fn last_unmatched_open(ins: Seq<Instruction>) -> int {
    last_unmatched_open_from(ins, ins.len() - 1)
}

/// The outcome that bracket resolution owes for an instruction sequence:
/// the first unopened loop end is reported first; otherwise a positive
/// final depth means some loop start is never closed, and the innermost
/// one is reported; otherwise the sequence is balanced.
pub open spec fn syntax_result(ins: Seq<Instruction>) -> Result<(), ProgramError> {
    if first_unopened(ins) < ins.len() {
        Err(ProgramError::UnopenedLoop(ins[first_unopened(ins)]))
    } else if depth(ins, ins.len() as int) > 0 {
        Err(ProgramError::UnclosedLoop(ins[last_unmatched_open(ins)]))
    } else {
        Ok(())
    }
}

/// During the resolution scan, the stack entry at position `p` is a
/// pending loop start below the scan index `i`: it sits at nesting depth
/// `p`, and the depth stays strictly above `p` from just after it up to
/// `i`.
spec fn stack_entry_ok(ins: Seq<Instruction>, stk: Seq<usize>, i: int, p: int) -> bool {
    &&& stk[p] < i
    &&& ins[stk[p] as int].instruction is BeginLoop
    &&& depth(ins, stk[p] as int) == p
    &&& forall|j: int| stk[p] < j <= i ==> depth(ins, j) > p
}

/// During the resolution scan with scan index `i`, the state the jump
/// table owes for instruction index `t`: nothing recorded at or beyond
/// `i` or for a non-bracket; nothing yet for a pending loop start; and a
/// symmetric matching pair for every other bracket below `i`.
spec fn entry_inv(
    ins: Seq<Instruction>,
    tbl: Seq<Option<usize>>,
    stk: Seq<usize>,
    i: int,
    t: int,
) -> bool {
    if !(0 <= t < ins.len()) {
        true
    } else if t >= i {
        tbl[t] is None
    } else if ins[t].instruction is BeginLoop {
        if stk.contains(t as usize) {
            tbl[t] is None
        } else {
            tbl[t] matches Some(u) && t < u < i && is_match_pair(ins, t, u as int) && tbl[u as int]
                == Some(t as usize)
        }
    } else if ins[t].instruction is EndLoop {
        tbl[t] matches Some(u) && u < t && is_match_pair(ins, u as int, t) && tbl[u as int] == Some(
            t as usize,
        )
    } else {
        tbl[t] is None
    }
}

/// When no prefix index is an unopened loop end, the first unopened loop
/// end of the whole sequence is the first one at or after `k`.
proof fn lemma_first_unopened_prefix(ins: Seq<Instruction>, k: int)
    requires
        0 <= k <= ins.len(),
        forall|t: int| 0 <= t < k ==> !is_unopened_end(ins, t),
    ensures
        first_unopened(ins) == first_unopened_from(ins, k),
    decreases k,
{
    if k > 0 {
        lemma_first_unopened_prefix(ins, k - 1);
        assert(first_unopened_from(ins, k - 1) == first_unopened_from(ins, k));
    }
}

/// When `a` is an unmatched loop start and nothing after it up to `k`
/// is one, the last unmatched loop start at or before `k` is `a`.
proof fn lemma_last_unmatched_from(ins: Seq<Instruction>, k: int, a: int)
    requires
        0 <= a <= k < ins.len(),
        is_unmatched_open(ins, a),
        forall|t: int| a < t <= k ==> !is_unmatched_open(ins, t),
    ensures
        last_unmatched_open_from(ins, k) == a,
    decreases k - a,
{
    if k > a {
        lemma_last_unmatched_from(ins, k - 1, a);
    }
}

impl ProgramError {
    /// The diagnostic message: the error's description together with the
    /// 1-based row and column of the offending instruction.
    pub fn message(&self) -> (s: String)
        ensures
            s@ == error_message(*self),
    {
        let mut s = String::new();
        match self {
            ProgramError::UnclosedLoop(i) => {
                s.append("Found unclosed bracket at row ");
                append_decimal(&mut s, i.row);
                s.append(" column ");
                append_decimal(&mut s, i.column);
            },
            ProgramError::UnopenedLoop(i) => {
                s.append("Couldn't find matching opening bracket for bracket at row ");
                append_decimal(&mut s, i.row);
                s.append(", column ");
                append_decimal(&mut s, i.column);
            },
        }
        s
    }
}

/// A program: its instructions in source order, the loop-bracket jump
/// table filled in by successful resolution, and the originating filename
/// (diagnostic metadata only).
#[derive(Debug)]
pub struct Program {
    filename: String,
    instructions: Vec<Instruction>,
    loop_gotos: Vec<Option<usize>>,
}

impl Program {
    /// The instruction sequence.
    pub closed spec fn instrs(&self) -> Seq<Instruction> {
        self.instructions@
    }

    /// The partner recorded for instruction index `i`, if any.
    pub closed spec fn match_of(&self, i: int) -> Option<usize> {
        if 0 <= i < self.loop_gotos@.len() {
            self.loop_gotos@[i]
        } else {
            None
        }
    }

    /// The filename the program was loaded from.
    pub closed spec fn filename_spec(&self) -> Seq<char> {
        self.filename@
    }

    /// The jump table as a map from bracket index to partner index.
    pub open spec fn jumps(&self) -> Map<int, int> {
        Map::new(|i: int| self.match_of(i) is Some, |i: int| self.match_of(i)->Some_0 as int)
    }

    /// Every recorded partner is a valid instruction index.
    pub open spec fn wf(&self) -> bool {
        forall|i: int| #[trigger] self.match_of(i) matches Some(j) ==> j < self.instrs().len()
    }

    /// The jump table is exactly the matching of a balanced sequence:
    /// an entry for every bracket and nothing else, and each entry a
    /// matching pair.
    pub open spec fn resolved(&self) -> bool {
        &&& forall|i: int|
            0 <= i < self.instrs().len() ==> ((#[trigger] self.match_of(i)) is Some
                <==> is_bracket(self.instrs()[i].instruction))
        &&& forall|i: int|
            #[trigger] self.match_of(i) matches Some(j) ==> (is_match_pair(
                self.instrs(),
                i,
                j as int,
            ) || is_match_pair(self.instrs(), j as int, i))
    }

    /// Build a program from an already-extracted instruction sequence.
    /// The jump table starts empty: resolution has not run yet.
    pub fn new(filename: String, instructions: Vec<Instruction>) -> (p: Program)
        ensures
            p.instrs() == instructions@,
            p.filename_spec() == filename@,
            forall|i: int| #[trigger] p.match_of(i) is None,
            p.wf(),
    {
        Program { filename, instructions, loop_gotos: Vec::new() }
    }

    /// Scan source text row by row (rows numbered from 1) and column by
    /// column within a row (columns numbered from 1); keep the eight
    /// instruction characters with their positions and skip everything
    /// else.
    pub fn extract_instrunctions(program_string: String) -> (r: Vec<Instruction>)
        requires
            program_string@.len() < usize::MAX,
        ensures
            positions_of(r@) == extracted_instructions(program_string@),
    {
        let text = program_string.as_str();
        let n = text.unicode_len();
        let mut instructions: Vec<Instruction> = Vec::new();
        let mut i: usize = 0;
        let mut row: usize = 1;
        let mut col: usize = 1;
        while i < n
            invariant
                n == text@.len(),
                n < usize::MAX,
                i <= n,
                1 <= row,
                row <= i + 1,
                1 <= col,
                col <= i + 1,
                extracted_instructions(text@) == positions_of(instructions@) + extract_from(
                    text@,
                    i as int,
                    row as int,
                    col as int,
                ),
            decreases n - i,
        {
            let c = text.get_char(i);
            if c == '\n' {
                row = row + 1;
                col = 1;
            } else {
                let ghost before = instructions@;
                match RawInstruction::from_char(c) {
                    Some(instruction) => {
                        instructions.push(Instruction { instruction, row, column: col });
                        proof {
                            assert(positions_of(instructions@) =~= positions_of(before) + seq![
                                (instruction, row as int, col as int),
                            ]);
                        }
                    },
                    None => {},
                }
                col = col + 1;
            }
            i = i + 1;
        }
        proof {
            assert(extracted_instructions(text@) =~= positions_of(instructions@));
        }
        instructions
    }

    /// Build a program from source text; always succeeds, a program with
    /// zero instructions being valid.
    pub fn from_source(text: String, filename: String) -> (p: Program)
        requires
            text@.len() < usize::MAX,
        ensures
            positions_of(p.instrs()) == extracted_instructions(text@),
            p.filename_spec() == filename@,
            forall|i: int| #[trigger] p.match_of(i) is None,
            p.wf(),
    {
        let instructions = Self::extract_instrunctions(text);
        Program::new(filename, instructions)
    }

    /// The instructions of the program, in source order.
    pub fn instructions(&self) -> (r: &[Instruction])
        ensures
            r@ == self.instrs(),
    {
        self.instructions.as_slice()
    }

    /// The filename the program was loaded from.
    pub fn filename(&self) -> (r: &String)
        ensures
            r@ == self.filename_spec(),
    {
        &self.filename
    }

    /// Check the loop-bracket syntax of the program in one left-to-right
    /// scan over a stack of pending loop starts. On success the jump table
    /// is populated with the full bidirectional matching; on failure the
    /// program is left exactly as it was.
    pub fn check_syntax(&mut self) -> (r: Result<(), ProgramError>)
        requires
            old(self).wf(),
        ensures
            final(self).instrs() == old(self).instrs(),
            final(self).filename_spec() == old(self).filename_spec(),
            final(self).wf(),
            r == syntax_result(old(self).instrs()),
            r is Ok ==> final(self).resolved(),
            r is Err ==> forall|i: int|
                #[trigger] final(self).match_of(i) == old(self).match_of(i),
    {
        let ghost orig = *self;
        let ghost ins = self.instructions@;
        let n = self.instructions.len();
        let mut table: Vec<Option<usize>> = Vec::new();
        while table.len() < n
            invariant
                table@.len() <= n,
                forall|t: int| 0 <= t < table@.len() ==> table@[t] is None,
            decreases n - table@.len(),
        {
            table.push(None);
        }
        let mut stack: Vec<usize> = Vec::new();
        let mut index: usize = 0;
        while index < n
            invariant
                *self == orig,
                orig.wf(),
                ins == self.instructions@,
                n == ins.len(),
                index <= n,
                table@.len() == n,
                stack@.len() == depth(ins, index as int),
                forall|p: int|
                    0 <= p < stack@.len() ==> stack_entry_ok(ins, stack@, index as int, p),
                forall|p: int, q: int| 0 <= p < q < stack@.len() ==> stack@[p] < stack@[q],
                forall|k: int| 0 <= k <= index ==> depth(ins, k) >= 0,
                forall|t: int| 0 <= t < index ==> !is_unopened_end(ins, t),
                forall|t: int| 0 <= t < n ==> entry_inv(ins, table@, stack@, index as int, t),
            decreases n - index,
        {
            let current = self.instructions[index];
            let ghost i1 = index as int;
            let ghost i2 = i1 + 1;
            proof {
                assert(depth(ins, i2) == depth(ins, i1) + bracket_delta(ins[i1].instruction));
            }
            match current.instruction {
                RawInstruction::BeginLoop => {
                    let ghost pre_stack = stack@;
                    stack.push(index);
                    proof {
                        assert forall|p: int| 0 <= p < stack@.len() implies stack_entry_ok(
                            ins,
                            stack@,
                            i2,
                            p,
                        ) by {
                            if p < pre_stack.len() {
                                assert(stack_entry_ok(ins, pre_stack, i1, p));
                                assert(stack@[p] == pre_stack[p]);
                                assert forall|j: int| stack@[p] < j <= i2 implies depth(ins, j)
                                    > p by {
                                    if j <= i1 {
                                        assert(depth(ins, j) > p);
                                    } else {
                                        assert(j == i2);
                                        assert(depth(ins, i2) == pre_stack.len() + 1);
                                    }
                                }
                            } else {
                                assert(stack@[p] == index);
                                assert(depth(ins, i1) == p);
                                assert forall|j: int| stack@[p] < j <= i2 implies depth(ins, j)
                                    > p by {
                                    assert(j == i2);
                                }
                            }
                        }
                        assert forall|p: int, q: int| 0 <= p < q < stack@.len() implies stack@[p]
                            < stack@[q] by {
                            if q < pre_stack.len() {
                                assert(pre_stack[p] < pre_stack[q]);
                            } else {
                                assert(stack@[q] == index);
                                assert(stack_entry_ok(ins, pre_stack, i1, p));
                            }
                        }
                        assert forall|t: int| 0 <= t < n implies entry_inv(
                            ins,
                            table@,
                            stack@,
                            i2,
                            t,
                        ) by {
                            assert(entry_inv(ins, table@, pre_stack, i1, t));
                            if 0 <= t < i1 {
                                assert(stack@.contains(t as usize) <==> pre_stack.contains(
                                    t as usize,
                                )) by {
                                    if pre_stack.contains(t as usize) {
                                        let p = choose|p: int|
                                            0 <= p < pre_stack.len() && pre_stack[p] == t as usize;
                                        assert(stack@[p] == t as usize);
                                    }
                                    if stack@.contains(t as usize) {
                                        let p = choose|p: int|
                                            0 <= p < stack@.len() && stack@[p] == t as usize;
                                        if p < pre_stack.len() {
                                            assert(pre_stack[p] == t as usize);
                                        } else {
                                            assert(stack@[p] == index);
                                        }
                                    }
                                }
                            } else if t == i1 {
                                assert(stack@[stack@.len() - 1] == index);
                                assert(stack@.contains(index));
                            }
                        }
                    }
                },
                RawInstruction::EndLoop => {
                    let ghost pre_stack = stack@;
                    let ghost pre_table = table@;
                    match stack.pop() {
                        Some(beginloop_index) => {
                            let ghost a = beginloop_index as int;
                            let ghost b = i1;
                            proof {
                                assert(stack@ == pre_stack.subrange(0, pre_stack.len() - 1));
                                assert(beginloop_index == pre_stack[pre_stack.len() - 1]);
                                assert(stack_entry_ok(ins, pre_stack, b, pre_stack.len() - 1));
                                assert(is_match_pair(ins, a, b)) by {
                                    assert(depth(ins, a) == pre_stack.len() - 1);
                                    assert(depth(ins, b) == pre_stack.len());
                                    assert(depth(ins, b + 1) == pre_stack.len() - 1);
                                }
                            }
                            table[beginloop_index] = Some(index);
                            table[index] = Some(beginloop_index);
                            proof {
                                assert forall|p: int| 0 <= p < stack@.len() implies stack@[p]
                                    < beginloop_index by {
                                    assert(pre_stack[p] < pre_stack[pre_stack.len() - 1]);
                                    assert(stack@[p] == pre_stack[p]);
                                }
                                assert(!stack@.contains(beginloop_index)) by {
                                    if stack@.contains(beginloop_index) {
                                        let p = choose|p: int|
                                            0 <= p < stack@.len() && stack@[p] == beginloop_index;
                                        assert(stack@[p] < beginloop_index);
                                    }
                                }
                                assert forall|p: int| 0 <= p < stack@.len() implies stack_entry_ok(
                                    ins,
                                    stack@,
                                    i2,
                                    p,
                                ) by {
                                    assert(stack_entry_ok(ins, pre_stack, b, p));
                                    assert(stack@[p] == pre_stack[p]);
                                    assert forall|j: int| stack@[p] < j <= i2 implies depth(ins, j)
                                        > p by {
                                        if j <= i1 {
                                            assert(depth(ins, j) > p);
                                        } else {
                                            assert(j == i2);
                                            assert(depth(ins, i2) == pre_stack.len() - 1);
                                        }
                                    }
                                }
                                assert forall|p: int, q: int|
                                    0 <= p < q < stack@.len() implies stack@[p] < stack@[q] by {
                                    assert(pre_stack[p] < pre_stack[q]);
                                }
                                assert forall|t: int| 0 <= t < n implies entry_inv(
                                    ins,
                                    table@,
                                    stack@,
                                    i2,
                                    t,
                                ) by {
                                    assert(entry_inv(ins, pre_table, pre_stack, b, t));
                                    if t == a {
                                        assert(table@[a] == Some(index));
                                        assert(table@[b] == Some(beginloop_index));
                                    } else if t == b {
                                        assert(table@[b] == Some(beginloop_index));
                                        assert(table@[a] == Some(index));
                                    } else if 0 <= t < b {
                                        assert(table@[t] == pre_table[t]);
                                        assert(stack@.contains(t as usize) <==> pre_stack.contains(
                                            t as usize,
                                        )) by {
                                            if pre_stack.contains(t as usize) {
                                                let p = choose|p: int|
                                                    0 <= p < pre_stack.len() && pre_stack[p]
                                                        == t as usize;
                                                assert(p < pre_stack.len() - 1);
                                                assert(stack@[p] == t as usize);
                                            }
                                            if stack@.contains(t as usize) {
                                                let p = choose|p: int|
                                                    0 <= p < stack@.len() && stack@[p]
                                                        == t as usize;
                                                assert(pre_stack[p] == t as usize);
                                            }
                                        }
                                        if ins[t].instruction is BeginLoop && !pre_stack.contains(
                                            t as usize,
                                        ) {
                                            let u = pre_table[t]->Some_0;
                                            assert(pre_table[u as int] == Some(t as usize));
                                            assert(u as int != a && u as int != b);
                                            assert(table@[u as int] == pre_table[u as int]);
                                        } else if ins[t].instruction is EndLoop {
                                            let u = pre_table[t]->Some_0;
                                            assert(pre_table[u as int] == Some(t as usize));
                                            assert(u as int != a && u as int != b);
                                            assert(table@[u as int] == pre_table[u as int]);
                                        }
                                    } else {
                                        assert(table@[t] == pre_table[t]);
                                    }
                                }
                            }
                        },
                        None => {
                            proof {
                                assert(is_unopened_end(ins, i1));
                                lemma_first_unopened_prefix(ins, i1);
                            }
                            return Err(ProgramError::UnopenedLoop(current));
                        },
                    }
                },
                _ => {
                    proof {
                        assert forall|p: int| 0 <= p < stack@.len() implies stack_entry_ok(
                            ins,
                            stack@,
                            i2,
                            p,
                        ) by {
                            assert(stack_entry_ok(ins, stack@, i1, p));
                            assert forall|j: int| stack@[p] < j <= i2 implies depth(ins, j) > p by {
                                if j <= i1 {
                                    assert(depth(ins, j) > p);
                                } else {
                                    assert(j == i2);
                                    assert(depth(ins, i2) == stack@.len());
                                }
                            }
                        }
                        assert forall|t: int| 0 <= t < n implies entry_inv(
                            ins,
                            table@,
                            stack@,
                            i2,
                            t,
                        ) by {
                            assert(entry_inv(ins, table@, stack@, i1, t));
                        }
                    }
                },
            }
            index = index + 1;
        }
        proof {
            lemma_first_unopened_prefix(ins, n as int);
        }
        let ghost end_stack = stack@;
        match stack.pop() {
            Some(top) => {
                proof {
                    let a = top as int;
                    assert(top == end_stack[end_stack.len() - 1]);
                    assert(stack_entry_ok(ins, end_stack, n as int, end_stack.len() - 1));
                    assert(is_unmatched_open(ins, a));
                    assert forall|k: int| a < k < n implies !is_unmatched_open(ins, k) by {
                        if ins[k].instruction is BeginLoop {
                            assert(!end_stack.contains(k as usize)) by {
                                if end_stack.contains(k as usize) {
                                    let p = choose|p: int|
                                        0 <= p < end_stack.len() && end_stack[p] == k as usize;
                                    if p < end_stack.len() - 1 {
                                        assert(end_stack[p] < end_stack[end_stack.len() - 1]);
                                    }
                                }
                            }
                            assert(entry_inv(ins, table@, end_stack, n as int, k));
                            let u = table@[k]->Some_0;
                            assert(is_match_pair(ins, k, u as int));
                            assert(depth(ins, u + 1) == depth(ins, k));
                        }
                    }
                    lemma_last_unmatched_from(ins, n as int - 1, a);
                }
                Err(ProgramError::UnclosedLoop(self.instructions[top]))
            },
            None => {
                self.loop_gotos = table;
                proof {
                    assert forall|i: int| (#[trigger] self.match_of(i)) is Some implies {
                        let j = self.match_of(i)->Some_0;
                        &&& (is_match_pair(self.instrs(), i, j as int) || is_match_pair(
                            self.instrs(),
                            j as int,
                            i,
                        ))
                        &&& self.match_of(j as int) == Some(i as usize)
                    } by {
                        assert(entry_inv(ins, table@, end_stack, n as int, i));
                        let u = self.match_of(i)->Some_0;
                        assert(entry_inv(ins, table@, end_stack, n as int, u as int));
                    }
                    assert forall|i: int|
                        0 <= i < self.instrs().len() implies ((#[trigger] self.match_of(i)) is Some
                        <==> is_bracket(self.instrs()[i].instruction)) by {
                        assert(entry_inv(ins, table@, end_stack, n as int, i));
                    }
                }
                Ok(())
            },
        }
    }

    /// The recorded partner of the bracket at `instruction_index`:
    /// `None` when resolution has not run or the index is not a bracket.
    pub fn get_matching_bracket(&self, instruction_index: usize) -> (r: Option<usize>)
        ensures
            r == self.match_of(instruction_index as int),
    {
        if instruction_index < self.loop_gotos.len() {
            self.loop_gotos[instruction_index]
        } else {
            None
        }
    }
}

/// A loop start has at most one matching loop end.
proof fn lemma_match_pair_unique_end(ins: Seq<Instruction>, a: int, b1: int, b2: int)
    requires
        is_match_pair(ins, a, b1),
        is_match_pair(ins, a, b2),
    ensures
        b1 == b2,
{
    if b1 < b2 {
        assert(depth(ins, b1 + 1) > depth(ins, a));
    }
    if b2 < b1 {
        assert(depth(ins, b2 + 1) > depth(ins, a));
    }
}

/// A loop end has at most one matching loop start.
proof fn lemma_match_pair_unique_start(ins: Seq<Instruction>, a1: int, a2: int, b: int)
    requires
        is_match_pair(ins, a1, b),
        is_match_pair(ins, a2, b),
    ensures
        a1 == a2,
{
    if a1 < a2 {
        assert(depth(ins, a2) > depth(ins, a1));
    }
    if a2 < a1 {
        assert(depth(ins, a1) > depth(ins, a2));
    }
}

/// Law: on a resolved program the bracket matching is a perfect
/// involution — the recorded partner of the recorded partner of any
/// bracket index is that index again.
pub proof fn lemma_matching_involution(p: &Program, i: int)
    requires
        p.resolved(),
        p.match_of(i) is Some,
    ensures
        p.match_of(p.match_of(i)->Some_0 as int) == Some(i as usize),
{
    let ins = p.instrs();
    let j = p.match_of(i)->Some_0 as int;
    assert(is_match_pair(ins, i, j) || is_match_pair(ins, j, i));
    assert(0 <= j < ins.len() && is_bracket(ins[j].instruction));
    assert(p.match_of(j) is Some);
    let k = p.match_of(j)->Some_0 as int;
    if ins[i].instruction is BeginLoop {
        assert(is_match_pair(ins, i, j));
        assert(is_match_pair(ins, k, j));
        lemma_match_pair_unique_start(ins, i, k, j);
    } else {
        assert(is_match_pair(ins, j, i));
        assert(is_match_pair(ins, j, k));
        lemma_match_pair_unique_end(ins, j, i, k);
    }
}

/// 1-based row of the character at index `i`: one more than the number
/// of newlines before it.
pub open spec fn row_of(s: Seq<char>, i: int) -> int
    decreases i,
{
    if i <= 0 {
        1
    } else if s[i - 1] == '\n' {
        row_of(s, i - 1) + 1
    } else {
        row_of(s, i - 1)
    }
}

/// 1-based column of the character at index `i` within its row: one more
/// than the number of characters since the last newline before it.
pub open spec fn col_of(s: Seq<char>, i: int) -> int
    decreases i,
{
    if i <= 0 {
        1
    } else if s[i - 1] == '\n' {
        1
    } else {
        col_of(s, i - 1) + 1
    }
}

/// The indices at or after `i` whose characters are instruction symbols.
pub open spec fn instruction_indices_from(s: Seq<char>, i: int) -> Seq<int>
    decreases s.len() - i,
{
    if i < 0 || i >= s.len() {
        Seq::empty()
    } else if char_to_instruction(s[i]) is Some {
        seq![i] + instruction_indices_from(s, i + 1)
    } else {
        instruction_indices_from(s, i + 1)
    }
}

/// The indices of all instruction symbols of a source text, in order.
pub open spec fn instruction_indices(s: Seq<char>) -> Seq<int> {
    instruction_indices_from(s, 0)
}

/// The extracted suffix starting at `i`, with the true row and column of
/// `i`, lists exactly the instruction symbols at or after `i`, each with
/// the row and column of its own index.
proof fn lemma_extract_from_positions(s: Seq<char>, i: int)
    requires
        0 <= i <= s.len(),
    ensures
        extract_from(s, i, row_of(s, i), col_of(s, i)).len() == instruction_indices_from(
            s,
            i,
        ).len(),
        forall|k: int|
            0 <= k < instruction_indices_from(s, i).len() ==> {
                let idx = #[trigger] instruction_indices_from(s, i)[k];
                &&& 0 <= idx < s.len()
                &&& char_to_instruction(s[idx]) == Some(
                    extract_from(s, i, row_of(s, i), col_of(s, i))[k].0,
                )
                &&& extract_from(s, i, row_of(s, i), col_of(s, i))[k].1 == row_of(s, idx)
                &&& extract_from(s, i, row_of(s, i), col_of(s, i))[k].2 == col_of(s, idx)
            },
    decreases s.len() - i,
{
    if i < s.len() {
        lemma_extract_from_positions(s, i + 1);
        assert(row_of(s, i + 1) == if s[i] == '\n' {
            row_of(s, i) + 1
        } else {
            row_of(s, i)
        });
        assert(col_of(s, i + 1) == if s[i] == '\n' {
            1int
        } else {
            col_of(s, i) + 1
        });
        let cur = extract_from(s, i, row_of(s, i), col_of(s, i));
        let rest = extract_from(s, i + 1, row_of(s, i + 1), col_of(s, i + 1));
        let curidx = instruction_indices_from(s, i);
        let restidx = instruction_indices_from(s, i + 1);
        if char_to_instruction(s[i]) is Some {
            assert(cur == seq![
                (char_to_instruction(s[i])->Some_0, row_of(s, i), col_of(s, i)),
            ] + rest);
            assert(curidx == seq![i] + restidx);
            assert forall|k: int| 0 <= k < curidx.len() implies {
                let idx = #[trigger] curidx[k];
                &&& 0 <= idx < s.len()
                &&& char_to_instruction(s[idx]) == Some(cur[k].0)
                &&& cur[k].1 == row_of(s, idx)
                &&& cur[k].2 == col_of(s, idx)
            } by {
                if k > 0 {
                    assert(curidx[k] == restidx[k - 1]);
                    assert(cur[k] == rest[k - 1]);
                }
            }
        }
    }
}

/// Law: a source character outside the eight-symbol alphabet contributes
/// no instruction — the extracted instructions correspond one to one, in
/// order, to the instruction symbols of the text — and every extracted
/// instruction carries the 1-based row and column of its own character
/// in the original text.
pub proof fn lemma_extraction_faithful(s: Seq<char>)
    ensures
        extracted_instructions(s).len() == instruction_indices(s).len(),
        forall|k: int|
            0 <= k < instruction_indices(s).len() ==> {
                let idx = #[trigger] instruction_indices(s)[k];
                &&& 0 <= idx < s.len()
                &&& char_to_instruction(s[idx]) == Some(extracted_instructions(s)[k].0)
                &&& extracted_instructions(s)[k].1 == row_of(s, idx)
                &&& extracted_instructions(s)[k].2 == col_of(s, idx)
            },
{
    lemma_extract_from_positions(s, 0);
}

} // verus!

