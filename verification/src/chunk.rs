//! Bytecode instructions, and the line numbers of a chunk of them, kept as
//! runs of instructions on the same line.
use crate::tokens::LineNumber;
use vstd::prelude::*;

verus! {

#[derive(Debug, Clone, Copy, PartialEq, Eq, Structural)]
pub enum OpCode {
    Constant(u8),
    ConstantLong(u16),
    Null,
    True,
    False,
    Add,
    Subtract,
    Multiply,
    Divide,
    Negate,
    Not,
    Equal,
    Greater,
    Less,
    Pop,
    DefineGlobal(u8),
    GetGlobal(u8),
    SetGlobal(u8),
    Jump(u16),
    JumpIfFalse(u16),
    JumpIfNull(u16),
    Loop(u16),
    GetLocal(u8),
    SetLocal(u8),
    Return,
    Call(u8),
    Unknown,
}

pub type TokensOnLine = u16;

/// A line, and how many instructions in a row stand on it.
pub type Line = (LineNumber, TokensOnLine);

/// `n` instructions on `line`.
pub open spec fn repeat(line: LineNumber, n: nat) -> Seq<LineNumber> {
    Seq::new(n, |i: int| line)
}

/// The line of each instruction, from runs of instructions.
pub open spec fn decode(runs: Seq<Line>) -> Seq<LineNumber>
    decreases runs.len(),
{
    if runs.len() == 0 {
        Seq::empty()
    } else {
        decode(runs.subrange(0, runs.len() - 1)) + repeat(
            runs[runs.len() - 1].0,
            runs[runs.len() - 1].1 as nat,
        )
    }
}

/// How many instructions the first `k` runs hold.
pub open spec fn run_total(runs: Seq<Line>, k: int) -> int {
    decode(runs.subrange(0, k)).len() as int
}

proof fn lemma_decode_step(runs: Seq<Line>, k: int)
    requires
        0 <= k < runs.len(),
    ensures
        decode(runs.subrange(0, k + 1)) == decode(runs.subrange(0, k)) + repeat(
            runs[k].0,
            runs[k].1 as nat,
        ),
        run_total(runs, k + 1) == run_total(runs, k) + runs[k].1,
{
    assert(runs.subrange(0, k + 1).subrange(0, k) =~= runs.subrange(0, k));
}

/// The first `j` runs decode to a prefix of what all the runs decode to.
/// Runs only add instructions.
proof fn lemma_run_total_grows(runs: Seq<Line>, j: int, k: int)
    requires
        0 <= j <= k <= runs.len(),
    ensures
        run_total(runs, j) <= run_total(runs, k),
    decreases k - j,
{
    if j < k {
        lemma_decode_step(runs, j);
        lemma_run_total_grows(runs, j + 1, k);
    }
}

proof fn lemma_decode_prefix(runs: Seq<Line>, j: int)
    requires
        0 <= j <= runs.len(),
    ensures
        decode(runs.subrange(0, j)) =~= decode(runs).subrange(0, run_total(runs, j)),
        run_total(runs, j) <= decode(runs).len(),
    decreases runs.len() - j,
{
    if j == runs.len() {
        assert(runs.subrange(0, j) =~= runs);
    } else {
        lemma_decode_prefix(runs, j + 1);
        lemma_decode_step(runs, j);
        assert(decode(runs.subrange(0, j)) =~= decode(runs.subrange(0, j + 1)).subrange(
            0,
            run_total(runs, j),
        ));
    }
}

/// Collects the lines of instructions as they are written.
pub struct LineInfoBuilder {
    lines: Vec<Line>,
    last: LineNumber,
    repeated: TokensOnLine,
}

/// The lines of the instructions of a chunk.
#[derive(Clone, Debug)]
pub struct LineInfo {
    lines: Vec<Line>,
}

impl LineInfoBuilder {
    /// The line that an instruction written with line 0 takes.
    pub closed spec fn last_line(&self) -> LineNumber {
        self.last
    }

    /// How many instructions in a row stand on the last line.
    pub closed spec fn run(&self) -> nat {
        self.repeated as nat
    }

    pub fn new() -> (r: Self)
        ensures
            r@ == Seq::<LineNumber>::empty(),
            r.last_line() == 1,
            r.run() == 0,
    {
        Self { lines: Vec::new(), last: 1, repeated: 0 }
    }

    /// Records the line of the next instruction; line 0 stands for the
    /// line of the instruction before. A run that is full goes on in a new
    /// run of the same line.
    pub fn add(&mut self, line: LineNumber)
        ensures
            final(self)@ == old(self)@.push(
                if line == 0 {
                    old(self).last_line()
                } else {
                    line
                },
            ),
            final(self).last_line() == if line == 0 {
                old(self).last_line()
            } else {
                line
            },
            final(self).run() == if (line == 0 || line == old(self).last_line()) && old(self).run()
                < TokensOnLine::MAX {
                old(self).run() + 1
            } else {
                1
            },
    {
        let ghost before = self.lines@;
        if (line == 0 || line == self.last) && self.repeated < 65535 {
            self.repeated = self.repeated + 1;
            assert(repeat(self.last, self.repeated as nat) =~= repeat(self.last, (self.repeated - 1) as nat).push(self.last));
        } else {
            let next = if line == 0 {
                self.last
            } else {
                line
            };
            self.lines.push((self.last, self.repeated));
            assert(self.lines@.subrange(0, self.lines@.len() - 1) =~= before);
            proof {
                lemma_decode_step(self.lines@, before.len() as int);
                assert(self.lines@.subrange(0, before.len() as int) =~= before);
            }
            self.last = next;
            self.repeated = 1;
            assert(repeat(next, 1) =~= seq![next]);
        }
    }

    /// The lines of all the instructions written.
    pub fn finalize(&mut self) -> (r: LineInfo)
        ensures
            r@ == old(self)@,
            final(self)@ == old(self)@,
    {
        if self.repeated > 0 {
            let ghost before = self.lines@;
            self.lines.push((self.last, self.repeated));
            assert(self.lines@.subrange(0, self.lines@.len() - 1) =~= before);
            self.last = 0;
            self.repeated = 0;
            assert(repeat(0, 0) =~= Seq::<LineNumber>::empty());
        } else {
            assert(repeat(self.last, 0) =~= Seq::<LineNumber>::empty());
        }
        let mut lines: Vec<Line> = Vec::new();
        let mut i: usize = 0;
        while i < self.lines.len()
            invariant
                i <= self.lines@.len(),
                lines@ == self.lines@.subrange(0, i as int),
            decreases self.lines@.len() - i,
        {
            lines.push(self.lines[i]);
            i = i + 1;
            assert(lines@ =~= self.lines@.subrange(0, i as int));
        }
        assert(lines@ =~= self.lines@);
        LineInfo { lines }
    }
}

impl LineInfo {
    /// Counting the instructions of the runs up to the one that holds
    /// `position` stays within a `TokensOnLine`.
    pub closed spec fn countable(&self, position: int) -> bool {
        forall|j: int|
            0 <= j < self.lines@.len() && #[trigger] run_total(self.lines@, j) <= position ==> run_total(
                self.lines@,
                j + 1,
            ) <= TokensOnLine::MAX
    }

    /// The table holds no run of lines (it was finalized with no
    /// instruction written).
    pub closed spec fn no_runs(&self) -> bool {
        self.lines@.len() == 0
    }

    /// Whether `get` can read the line of the instruction at
    /// `opcode_position`: the instruction exists and counting up to it
    /// stays within a `TokensOnLine`.
    pub fn can_get(&self, opcode_position: usize) -> (r: bool)
        ensures
            r == (opcode_position < self@.len() && self.countable(opcode_position as int)),
    {
        let ghost runs = self.lines@;
        let length = self.lines.len();
        let mut total: usize = 0;
        let mut j: usize = 0;
        proof {
            assert(runs.subrange(0, 0) =~= Seq::<Line>::empty());
        }
        while j < length
            invariant
                runs == self.lines@,
                length == runs.len(),
                j <= length,
                total == run_total(runs, j as int),
                total <= TokensOnLine::MAX,
                forall|k: int|
                    0 <= k < j && #[trigger] run_total(runs, k) <= opcode_position ==> run_total(
                        runs,
                        k + 1,
                    ) <= TokensOnLine::MAX,
            ensures
                j <= length,
                total == run_total(runs, j as int),
                j < length ==> total > opcode_position,
                forall|k: int|
                    0 <= k < j && #[trigger] run_total(runs, k) <= opcode_position ==> run_total(
                        runs,
                        k + 1,
                    ) <= TokensOnLine::MAX,
            decreases length - j,
        {
            if total > opcode_position {
                break ;
            }
            let (_, repeated) = self.lines[j];
            proof {
                lemma_decode_step(runs, j as int);
            }
            let next = total + repeated as usize;
            if next > 65535 {
                return false;
            }
            total = next;
            j = j + 1;
        }
        proof {
            lemma_decode_prefix(runs, j as int);
            assert(runs.subrange(0, length as int) =~= runs);
            assert forall|k: int|
                0 <= k < runs.len() && #[trigger] run_total(runs, k) <= opcode_position implies run_total(
                runs,
                k + 1,
            ) <= TokensOnLine::MAX by {
                if k >= j {
                    lemma_run_total_grows(runs, j as int, k);
                }
            }
        }
        opcode_position < total
    }

    /// The line of the instruction at `opcode_position`; 0 when the table
    /// is empty.
    pub fn get(&self, opcode_position: usize) -> (r: LineNumber)
        requires
            self.no_runs() || (opcode_position < self@.len() && self.countable(
                opcode_position as int,
            )),
        ensures
            !self.no_runs() ==> r == self@[opcode_position as int],
            self.no_runs() ==> r == 0 && self@.len() == 0,
    {
        let ghost runs = self.lines@;
        let length = self.lines.len();
        if length == 0 {
            return 0;
        }
        let mut count: TokensOnLine = 0;
        let mut line: usize = 0;
        let mut found = false;
        proof {
            lemma_decode_prefix(runs, runs.len() as int);
            assert(runs.subrange(0, runs.len() as int) =~= runs);
            assert(runs.subrange(0, 0) =~= Seq::<Line>::empty());
        }
        while line < length && !found
            invariant
                runs == self.lines@,
                length == runs.len(),
                line <= length,
                opcode_position < decode(runs).len(),
                self.countable(opcode_position as int),
                run_total(runs, line as int) <= opcode_position,
                !found ==> count == run_total(runs, line as int),
                found ==> line < length && run_total(runs, line + 1) > opcode_position,
                run_total(runs, length as int) == decode(runs).len(),
            decreases length - line + if found {
                0int
            } else {
                1int
            },
        {
            let (_, repeated) = self.lines[line];
            proof {
                lemma_decode_step(runs, line as int);
            }
            count = count + repeated;
            if count as usize > opcode_position {
                found = true;
            } else {
                line = line + 1;
            }
        }
        if length == 0 {
            0
        } else {
            proof {
                lemma_decode_prefix(runs, line + 1);
                lemma_decode_step(runs, line as int);
            }
            self.lines[line].0
        }
    }
}

impl View for LineInfoBuilder {
    type V = Seq<LineNumber>;

    /// The line of each instruction written so far.
    closed spec fn view(&self) -> Seq<LineNumber> {
        decode(self.lines@) + repeat(self.last, self.repeated as nat)
    }
}

impl View for LineInfo {
    type V = Seq<LineNumber>;

    /// The line of each instruction.
    closed spec fn view(&self) -> Seq<LineNumber> {
        decode(self.lines@)
    }
}

/// What is read back of a chunk's lines is what was written: after the
/// instructions' lines are added in order and the builder is finalized,
/// each instruction's line is the line it was added with, or, for line 0,
/// the last line added before it that was not 0 (line 1 when there is
/// none).
pub proof fn law_lines_read_back(b: LineInfoBuilder, line: LineNumber, b2: LineInfoBuilder, info: LineInfo)
    requires
        b2@ == b@.push(
            if line == 0 {
                b.last_line()
            } else {
                line
            },
        ),
        info@ == b2@,
    ensures
        info@[b@.len() as int] == if line == 0 {
            b.last_line()
        } else {
            line
        },
        forall|i: int| 0 <= i < b@.len() ==> info@[i] == b@[i],
{
}


// ---------------------------------------------------------------------
// Constants, chunks and the builder that writes them
// ---------------------------------------------------------------------

/// A value that a chunk's constant table holds.
#[derive(Debug)]
pub enum Constant {
    /// A number, by its literal text written in its simplest form.
    Number(String),
    String(String),
    /// An item of a built-in module, by the module's name and the item's.
    Builtin { module: String, item: String },
    /// A function: its name, how many parameters it takes and its code.
    Function { name: String, arity: u8, chunk: Chunk },
}

/// A compiled piece of code: its instructions, the constants they refer to
/// and the line of each instruction.
#[derive(Debug)]
pub struct Chunk {
    pub name: String,
    pub code: Vec<OpCode>,
    pub constants: Vec<Constant>,
    lines: LineInfo,
}

/// A constant as a mathematical value.
pub enum ConstantModel {
    Number(Seq<char>),
    Text(Seq<char>),
    Builtin(Seq<char>, Seq<char>),
    Function(Seq<char>, u8, ChunkModel),
}

/// A chunk as a mathematical value.
pub struct ChunkModel {
    pub name: Seq<char>,
    pub code: Seq<OpCode>,
    pub constants: Seq<ConstantModel>,
    pub lines: Seq<LineNumber>,
}

/// The built-in items that are numbers rather than functions.
pub open spec fn builtin_number(module: Seq<char>, item: Seq<char>) -> bool {
    module == "maths"@ && (item == "PI"@ || item == "E"@ || item == "INFINITY"@)
}

/// Whether two constants stand for the same value, so that the table keeps
/// one entry for both: numbers written alike, equal strings, and the same
/// built-in number. Functions are never shared.
pub open spec fn same_value(a: ConstantModel, b: ConstantModel) -> bool {
    match (a, b) {
        (ConstantModel::Number(x), ConstantModel::Number(y)) => x == y,
        (ConstantModel::Text(x), ConstantModel::Text(y)) => x == y,
        (ConstantModel::Builtin(m, i), ConstantModel::Builtin(n, j)) => m == n && i == j
            && builtin_number(m, i),
        _ => false,
    }
}

/// The first entry of `cs` that stands for the same value as `c`, or -1.
pub open spec fn find_constant(cs: Seq<ConstantModel>, c: ConstantModel) -> int
    decreases cs.len(),
{
    if cs.len() == 0 {
        -1
    } else {
        let f = find_constant(cs.drop_last(), c);
        if f >= 0 {
            f
        } else if same_value(cs.last(), c) {
            cs.len() - 1
        } else {
            -1
        }
    }
}

impl Constant {
    pub closed spec fn model(&self) -> ConstantModel
        decreases self, 0nat,
    {
        match self {
            Constant::Number(t) => ConstantModel::Number(t@),
            Constant::String(t) => ConstantModel::Text(t@),
            Constant::Builtin { module, item } => ConstantModel::Builtin(module@, item@),
            Constant::Function { name, arity, chunk } => ConstantModel::Function(
                name@,
                *arity,
                chunk.model(),
            ),
        }
    }

    pub fn number(text: String) -> (r: Constant)
        ensures
            r.model() == ConstantModel::Number(text@),
    {
        Constant::Number(text)
    }

    pub fn string(text: String) -> (r: Constant)
        ensures
            r.model() == ConstantModel::Text(text@),
    {
        Constant::String(text)
    }

    pub fn builtin(module: String, item: String) -> (r: Constant)
        ensures
            r.model() == ConstantModel::Builtin(module@, item@),
    {
        Constant::Builtin { module, item }
    }

    pub fn function(name: String, arity: u8, chunk: Chunk) -> (r: Constant)
        ensures
            r.model() == ConstantModel::Function(name@, arity, chunk.model()),
    {
        Constant::Function { name, arity, chunk }
    }

    /// Whether the two constants stand for the same value.
    pub fn same_value(&self, other: &Constant) -> (r: bool)
        ensures
            r == same_value(self.model(), other.model()),
    {
        match (self, other) {
            (Constant::Number(x), Constant::Number(y)) => crate::text::same_chars(x.as_str(), y.as_str()),
            (Constant::String(x), Constant::String(y)) => crate::text::same_chars(x.as_str(), y.as_str()),
            (Constant::Builtin { module: m, item: i }, Constant::Builtin { module: n, item: j }) => {
                proof {
                    reveal_strlit("maths");
                    reveal_strlit("PI");
                    reveal_strlit("E");
                    reveal_strlit("INFINITY");
                }
                crate::text::same_chars(m.as_str(), n.as_str()) && crate::text::same_chars(
                    i.as_str(),
                    j.as_str(),
                ) && crate::text::same_chars(m.as_str(), "maths") && (crate::text::same_chars(
                    i.as_str(),
                    "PI",
                ) || crate::text::same_chars(i.as_str(), "E") || crate::text::same_chars(
                    i.as_str(),
                    "INFINITY",
                ))
            },
            _ => false,
        }
    }
}

/// The constants of a table, as mathematical values.
pub closed spec fn constants_model(cs: Seq<Constant>) -> Seq<ConstantModel>
    decreases cs, 0nat,
{
    if cs.len() == 0 {
        Seq::empty()
    } else {
        constants_model(cs.drop_last()).push(cs.last().model())
    }
}

proof fn lemma_constants_model(cs: Seq<Constant>)
    ensures
        constants_model(cs).len() == cs.len(),
        forall|i: int| 0 <= i < cs.len() ==> #[trigger] constants_model(cs)[i] == cs[i].model(),
    decreases cs.len(),
{
    if cs.len() > 0 {
        lemma_constants_model(cs.drop_last());
    }
}

proof fn lemma_constants_model_push(cs: Seq<Constant>, c: Constant)
    ensures
        constants_model(cs.push(c)) == constants_model(cs).push(c.model()),
{
    assert(cs.push(c).drop_last() =~= cs);
}

/// An entry found in the first `j` entries is the entry found in all.
proof fn lemma_find_constant_extends(cs: Seq<ConstantModel>, c: ConstantModel, j: int)
    requires
        0 <= j <= cs.len(),
        find_constant(cs.subrange(0, j), c) >= 0,
    ensures
        find_constant(cs, c) == find_constant(cs.subrange(0, j), c),
    decreases cs.len() - j,
{
    if j < cs.len() {
        assert(cs.subrange(0, j + 1).drop_last() =~= cs.subrange(0, j));
        lemma_find_constant_extends(cs, c, j + 1);
    } else {
        assert(cs.subrange(0, j) =~= cs);
    }
}

impl Chunk {
    pub closed spec fn model(&self) -> ChunkModel
        decreases self, 1nat,
    {
        ChunkModel {
            name: self.name@,
            code: self.code@,
            constants: constants_model(self.constants@),
            lines: self.lines@,
        }
    }

    /// The line table can be read at `position`: the instruction exists
    /// and counting the instructions up to it fits a `TokensOnLine`.
    pub closed spec fn line_readable(&self, position: int) -> bool {
        position < self.lines@.len() && self.lines.countable(position)
    }

    /// The instruction at `position`.
    pub fn get(&self, position: usize) -> (r: OpCode)
        requires
            position < self.model().code.len(),
        ensures
            r == self.model().code[position as int],
    {
        self.code[position]
    }

    /// The constant at `pointer`.
    pub fn get_constant(&self, pointer: usize) -> (r: &Constant)
        requires
            pointer < self.model().constants.len(),
        ensures
            r.model() == self.model().constants[pointer as int],
    {
        proof {
            lemma_constants_model(self.constants@);
        }
        &self.constants[pointer]
    }

    /// The line of the instruction at `opcode_position`, or 0 when it has
    /// none that can be read.
    pub fn get_line_number(&self, opcode_position: usize) -> (r: LineNumber)
        ensures
            self.line_readable(opcode_position as int) ==> r == self.model().lines[opcode_position as int],
    {
        if self.lines.can_get(opcode_position) {
            self.lines.get(opcode_position)
        } else {
            0
        }
    }
}

/// What a chunk builder holds: the instructions, the constants, the line
/// of each instruction and the line an instruction written with line 0
/// takes.
pub struct BuilderModel {
    pub code: Seq<OpCode>,
    pub constants: Seq<ConstantModel>,
    pub lines: Seq<LineNumber>,
    pub last: LineNumber,
}

/// The builder after `op` is written on `line` (0 for the line of the
/// instruction before).
pub open spec fn written(b: BuilderModel, op: OpCode, line: LineNumber) -> BuilderModel {
    let l = if line == 0 {
        b.last
    } else {
        line
    };
    BuilderModel { code: b.code.push(op), lines: b.lines.push(l), last: l, ..b }
}

/// The builder after `c` is looked up in, or added to, its constants.
pub open spec fn with_constant(b: BuilderModel, c: ConstantModel) -> BuilderModel {
    if find_constant(b.constants, c) >= 0 {
        b
    } else {
        BuilderModel { constants: b.constants.push(c), ..b }
    }
}

/// Where `c` stands in the constants of `with_constant(b, c)`.
pub open spec fn constant_index(b: BuilderModel, c: ConstantModel) -> int {
    if find_constant(b.constants, c) >= 0 {
        find_constant(b.constants, c)
    } else {
        b.constants.len() as int
    }
}

/// An empty builder.
pub open spec fn empty_builder() -> BuilderModel {
    BuilderModel { code: Seq::empty(), constants: Seq::empty(), lines: Seq::empty(), last: 1 }
}

/// Writes the instructions, constants and lines of a chunk.
pub struct ChunkBuilder {
    code: Vec<OpCode>,
    constants: Vec<Constant>,
    lines: LineInfoBuilder,
}

impl ChunkBuilder {
    pub closed spec fn model(&self) -> BuilderModel {
        BuilderModel {
            code: self.code@,
            constants: constants_model(self.constants@),
            lines: self.lines@,
            last: self.lines.last_line(),
        }
    }

    pub fn new() -> (r: Self)
        ensures
            r.model() == empty_builder(),
    {
        proof {
            assert(constants_model(Seq::<Constant>::empty()) =~= Seq::<ConstantModel>::empty());
        }
        Self { code: Vec::new(), constants: Vec::new(), lines: LineInfoBuilder::new() }
    }

    /// How many instructions have been written.
    pub fn length(&self) -> (r: usize)
        ensures
            r == self.model().code.len(),
    {
        self.code.len()
    }

    /// Writes an instruction on `line`; line 0 stands for the line of the
    /// instruction before.
    pub fn write_opcode(&mut self, code: OpCode, line: LineNumber)
        ensures
            final(self).model() == written(old(self).model(), code, line),
    {
        self.code.push(code);
        self.lines.add(line);
    }

    /// Replaces the instruction at `opcode_position`.
    pub fn patch_opcode(&mut self, opcode_position: usize, code: OpCode)
        requires
            opcode_position < old(self).model().code.len(),
        ensures
            final(self).model() == (BuilderModel {
                code: old(self).model().code.update(opcode_position as int, code),
                ..old(self).model()
            }),
    {
        self.code.set(opcode_position, code);
    }

    /// The instruction at `opcode_position`.
    pub fn opcode(&self, opcode_position: usize) -> (r: OpCode)
        requires
            opcode_position < self.model().code.len(),
        ensures
            r == self.model().code[opcode_position as int],
    {
        self.code[opcode_position]
    }

    /// Where the constant stands in the table: the first entry that stands
    /// for the same value, else a new entry at the end.
    pub fn add_constant(&mut self, value: Constant) -> (r: usize)
        ensures
            final(self).model() == with_constant(old(self).model(), value.model()),
            r == constant_index(old(self).model(), value.model()),
    {
        let ghost cs = self.constants@;
        let ghost c = value.model();
        proof {
            lemma_constants_model(cs);
            assert(cs.subrange(0, 0) =~= Seq::<Constant>::empty());
        }
        let mut i: usize = 0;
        while i < self.constants.len()
            invariant
                cs == self.constants@,
                c == value.model(),
                i <= cs.len(),
                constants_model(cs).len() == cs.len(),
                forall|k: int| 0 <= k < cs.len() ==> #[trigger] constants_model(cs)[k] == cs[k].model(),
                find_constant(constants_model(cs).subrange(0, i as int), c) == -1,
            decreases cs.len() - i,
        {
            let ghost m = constants_model(cs);
            assert(m.subrange(0, i + 1).drop_last() =~= m.subrange(0, i as int));
            if self.constants[i].same_value(&value) {
                proof {
                    assert(find_constant(m.subrange(0, i + 1), c) == i);
                    lemma_find_constant_extends(m, c, i + 1);
                }
                return i;
            }
            i = i + 1;
        }
        proof {
            assert(constants_model(cs).subrange(0, cs.len() as int) =~= constants_model(cs));
            lemma_constants_model_push(cs, value);
        }
        let n = self.constants.len();
        self.constants.push(value);
        n
    }

    /// Where the string constant stands in the table (see `add_constant`).
    pub fn add_constant_string(&mut self, string: &str) -> (r: usize)
        ensures
            final(self).model() == with_constant(old(self).model(), ConstantModel::Text(string@)),
            r == constant_index(old(self).model(), ConstantModel::Text(string@)),
    {
        self.add_constant(Constant::string(String::from_str(string)))
    }

    /// The chunk written, under `name`.
    pub fn finalize(self, name: String) -> (r: Chunk)
        ensures
            r.model() == (ChunkModel {
                name: name@,
                code: self.model().code,
                constants: self.model().constants,
                lines: self.model().lines,
            }),
    {
        let mut lines = self.lines;
        let info = lines.finalize();
        Chunk { name, code: self.code, constants: self.constants, lines: info }
    }
}

} // verus!
