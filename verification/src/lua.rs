use crate::text::{
    chars_of, find_char, find_pair, find_pair_in, first_index, starts_with, trim_space,
    trim_space_str,
};
use vstd::prelude::*;
use vstd::string::*;

verus! {

/// How a script ended, as the loader reports it.
#[derive(Debug, Clone, Copy, PartialEq, Eq, Structural)]
pub enum ExecutionStatus {
    Success,
    CompilationError,
    RuntimeError,
}

impl ExecutionStatus {
    /// The number that the loader returns for a status.
    pub open spec fn number(self) -> i64 {
        match self {
            ExecutionStatus::Success => 0,
            ExecutionStatus::CompilationError => 1,
            ExecutionStatus::RuntimeError => 2,
        }
    }

    /// The status that a number stands for, if it stands for one.
    pub open spec fn of(code: i64) -> Option<ExecutionStatus> {
        if code == 0 {
            Some(ExecutionStatus::Success)
        } else if code == 1 {
            Some(ExecutionStatus::CompilationError)
        } else if code == 2 {
            Some(ExecutionStatus::RuntimeError)
        } else {
            None
        }
    }

    /// The number of this status.
    pub fn code(&self) -> (code: i64)
        ensures
            code == self.number(),
            ExecutionStatus::of(code) == Some(*self),
    {
        match self {
            ExecutionStatus::Success => 0,
            ExecutionStatus::CompilationError => 1,
            ExecutionStatus::RuntimeError => 2,
        }
    }

    /// The status with this number.
    pub fn from_code(code: i64) -> (status: Option<ExecutionStatus>)
        ensures
            status == ExecutionStatus::of(code),
    {
        if code == 0 {
            Some(ExecutionStatus::Success)
        } else if code == 1 {
            Some(ExecutionStatus::CompilationError)
        } else if code == 2 {
            Some(ExecutionStatus::RuntimeError)
        } else {
            None
        }
    }
}

/// What a script returned, and how many instructions it had left.
#[derive(Debug)]
pub struct SuccessfulExecution {
    pub instructions_left: isize,
    pub result: String,
}

// ---------------------------------------------------------------------------
// The loader
// ---------------------------------------------------------------------------
/// Every stretch of `=` in the text is shorter than `level`.
pub open spec fn runs_below(text: Seq<char>, level: int) -> bool {
    forall|a: int, b: int| 0 <= a <= b <= text.len() && #[trigger] all_equals(text, a, b) ==> b - a < level
}

/// The text holds nothing but `=` from `a` up to `b`.
pub open spec fn all_equals(text: Seq<char>, a: int, b: int) -> bool {
    forall|j: int| a <= j < b ==> text[j] == '='
}

/// The text has a stretch of `=` that is `length` long.
pub open spec fn has_run(text: Seq<char>, length: int) -> bool {
    exists|a: int, b: int|
        0 <= a <= b <= text.len() && #[trigger] all_equals(text, a, b) && b - a == length
}

/// The least level that is above every stretch of `=` in the text: one
/// more than the length of its longest stretch.
pub open spec fn least_level(text: Seq<char>, level: int) -> bool {
    runs_below(text, level) && has_run(text, level - 1)
}

/// `level` times the character `=`.
pub open spec fn equals(level: nat) -> Seq<char> {
    Seq::new(level, |i: int| '=')
}

/// What closes a long string of the given level.
pub open spec fn closing(level: nat) -> Seq<char> {
    seq![']'] + equals(level) + seq![']']
}

/// What stands between the brackets of the loader's long string: the
/// script on a line of its own.
pub open spec fn quoted(code: Seq<char>) -> Seq<char> {
    "\n    "@ + code + seq!['\n']
}

/// The part of the loader that stands before the script.
pub open spec fn loader_head() -> Seq<char> {
    "\nlocal env = {}\n\nlocal function run(untrusted_code)\n  local untrusted_function, message = load(untrusted_code, nil, 't', env)\n  if not untrusted_function then\n    return 1, message\n  end\n  local status, result = pcall(untrusted_function)\n  if result == nil then\n    return \"nil\"\n  else\n    if status then\n      return 0, result\n    else\n      return 2, result\n    end\n  end\nend\n\nreturn run(["@
}

/// The program that runs a script in an empty environment under a
/// protected call. The script stands in it as a long string whose level
/// is `level`.
pub open spec fn loader(code: Seq<char>, level: nat) -> Seq<char> {
    loader_head() + equals(level) + seq!['['] + quoted(code) + closing(level) + ")\n"@
}

/// The text holds `part` at place `at`.
pub open spec fn holds_at(text: Seq<char>, part: Seq<char>, at: int) -> bool {
    0 <= at && at + part.len() <= text.len() && text.subrange(at, at + part.len()) == part
}

/// The long string of the loader ends where the loader ends it: nothing
/// in the script closes it earlier.
pub proof fn lemma_quoted_stays_closed(code: Seq<char>, level: nat, at: int)
    requires
        runs_below(code, level as int),
        0 <= at < quoted(code).len(),
    ensures
        !holds_at(quoted(code) + closing(level), closing(level), at),
{
    reveal_strlit("\n    ");
    let n: int = level as int;
    let inner = quoted(code);
    let text = inner + closing(level);
    let close = closing(level);
    if holds_at(text, close, at) {
        let part = text.subrange(at, at + close.len());
        assert(part[0] == close[0]);
        assert(text[at] == ']');
        assert(inner[inner.len() - 1] == '\n');
        assert(at < inner.len() - 1);
        assert(at >= 5) by {
            if at < 5 {
                assert(inner[at] == "\n    "@[at]);
            }
        }
        assert forall|j: int| at + 1 <= j < at + 1 + n implies text[j] == '=' by {
            assert(part[j - at] == close[j - at]);
            assert(close[j - at] == equals(level)[j - at - 1]);
        }
        assert(text[at + 1 + n] == ']') by {
            assert(part[1 + n] == close[1 + n]);
        }
        let end = inner.len() - 1;
        assert(text[end] == '\n');
        assert(end > at + 1 + n) by {
            if end <= at + 1 + n {
                if end == at + 1 + n {
                    assert(text[end] == ']');
                } else {
                    assert(text[end] == '=');
                }
            }
        }
        let a = at + 1 - 5;
        let b = a + n;
        assert forall|j: int| a <= j < b implies code[j] == '=' by {
            assert(text[j + 5] == inner[j + 5]);
            assert(inner[j + 5] == code[j]);
        }
        assert(all_equals(code, a, b));
        assert(false);
    }
}

/// The level that keeps the long string closed: one more than the
/// longest stretch of `=` in the script.
pub fn safe_level(code: &str) -> (level: u128)
    ensures
        least_level(code@, level as int),
{
    let chars = chars_of(code);
    let n = chars.len();
    let mut run: usize = 0;
    let mut best: usize = 0;
    let mut i: usize = 0;
    let ghost mut from: int = 0;
    let ghost mut to: int = 0;
    while i < n
        invariant
            n == chars.len(),
            chars@ == code@,
            i <= n,
            run <= best <= i,
            all_equals(chars@, i - run, i as int),
            0 <= from <= to <= i,
            all_equals(chars@, from, to),
            to - from == best,
            forall|a: int, b: int|
                0 <= a <= b <= i && #[trigger] all_equals(chars@, a, b) ==> b - a <= best,
            forall|a: int| 0 <= a <= i && #[trigger] all_equals(chars@, a, i as int) ==> i - a <= run,
        decreases n - i,
    {
        if chars[i] == '=' {
            run = run + 1;
            if run > best {
                best = run;
                proof {
                    from = i + 1 - run;
                    to = i + 1;
                }
            }
        } else {
            run = 0;
        }
        proof {
            assert(all_equals(chars@, i + 1 - run, i + 1));
            assert forall|a: int| 0 <= a <= i + 1 && #[trigger] all_equals(chars@, a, i + 1) implies i
                + 1 - a <= run by {
                if a <= i {
                    assert(chars@[i as int] == '=');
                    assert(all_equals(chars@, a, i as int));
                }
            }
            assert forall|a: int, b: int|
                0 <= a <= b <= i + 1 && #[trigger] all_equals(chars@, a, b) implies b - a <= best by {
                if b == i + 1 {
                    assert(all_equals(chars@, a, i + 1));
                }
            }
        }
        i = i + 1;
    }
    best as u128 + 1
}

/// The program that runs the given script in an empty environment under
/// a protected call.
pub fn sandbox(untrusted_code: &str) -> (program: String)
    ensures
        exists|level: nat|
            least_level(untrusted_code@, level as int) && #[trigger] loader(untrusted_code@, level)
                == program@,
{
    let level = safe_level(untrusted_code);
    let mut program = String::from_str(
        "\nlocal env = {}\n\nlocal function run(untrusted_code)\n  local untrusted_function, message = load(untrusted_code, nil, 't', env)\n  if not untrusted_function then\n    return 1, message\n  end\n  local status, result = pcall(untrusted_function)\n  if result == nil then\n    return \"nil\"\n  else\n    if status then\n      return 0, result\n    else\n      return 2, result\n    end\n  end\nend\n\nreturn run([",
    );
    let ghost head = program@;
    let mut i: u128 = 0;
    while i < level
        invariant
            i <= level,
            program@ == head + equals(i as nat),
        decreases level - i,
    {
        program.push('=');
        assert(program@ =~= head + equals((i + 1) as nat));
        i = i + 1;
    }
    program.push('[');
    program.append("\n    ");
    program.append(untrusted_code);
    program.push('\n');
    program.push(']');
    let ghost body = program@;
    let mut k: u128 = 0;
    while k < level
        invariant
            k <= level,
            program@ == body + equals(k as nat),
        decreases level - k,
    {
        program.push('=');
        assert(program@ =~= body + equals((k + 1) as nat));
        k = k + 1;
    }
    program.push(']');
    program.append(")\n");
    assert(program@ =~= loader(untrusted_code@, level as nat));
    program
}

// ---------------------------------------------------------------------------
// Error texts
// ---------------------------------------------------------------------------
/// An error text without the place in the script that it begins with: for
/// a text that begins with `[string`, what stands behind the first space
/// after the first `]:`, without the white space around it.
pub open spec fn stripped(text: Seq<char>) -> Seq<char> {
    if "[string"@.is_prefix_of(text) {
        let at = find_pair(text, ']', ':');
        if 0 <= at < text.len() {
            let rest = text.skip(at);
            let space = first_index(rest, ' ');
            if 0 <= space < rest.len() {
                trim_space(rest.skip(space))
            } else {
                text
            }
        } else {
            text
        }
    } else {
        text
    }
}

/// Takes the place in the script off the front of an error text.
pub fn strip_location<'a>(s: &'a str) -> (out: &'a str)
    ensures
        out@ == stripped(s@),
{
    if starts_with(s, "[string") {
        let chars = chars_of(s);
        let n = chars.len();
        let at = find_pair_in(&chars, ']', ':');
        if at < n {
            let rest = s.substring_char(at, n);
            assert(rest@ =~= s@.skip(at as int));
            let rest_chars = chars_of(rest);
            let space = find_char(&rest_chars, ' ');
            if space < rest_chars.len() {
                let tail = rest.substring_char(space, rest_chars.len());
                assert(tail@ =~= rest@.skip(space as int));
                return trim_space_str(tail);
            }
        }
    }
    s
}

// ---------------------------------------------------------------------------
// The instruction budget
// ---------------------------------------------------------------------------
/// A budget as plain values: how many instructions are left, and whether
/// the script has tried to run more than it had.
pub struct BudgetView {
    pub left: int,
    pub exceeded: bool,
}

impl BudgetView {
    /// A budget of `limit` instructions, none of them used.
    pub open spec fn fresh(limit: isize) -> BudgetView {
        BudgetView { left: limit as int, exceeded: false }
    }

    /// Whether one more instruction is one too many.
    pub open spec fn spent(self) -> bool {
        self.left < 1
    }

    /// The budget after one more instruction: one less is left, down to
    /// the least number there is, and a budget that was spent is exceeded.
    pub open spec fn ticked(self) -> BudgetView {
        BudgetView {
            left: if self.left > isize::MIN {
                self.left - 1
            } else {
                self.left
            },
            exceeded: self.exceeded || self.spent(),
        }
    }

    /// The budget after `n` more instructions.
    pub open spec fn ticked_times(self, n: nat) -> BudgetView
        decreases n,
    {
        if n == 0 {
            self
        } else {
            self.ticked_times((n - 1) as nat).ticked()
        }
    }
}

/// How many instructions a script may still run, and whether it has tried
/// to run more.
#[derive(Debug, Clone, Copy)]
pub struct InstructionBudget {
    left: isize,
    exceeded: bool,
}

impl View for InstructionBudget {
    type V = BudgetView;

    closed spec fn view(&self) -> BudgetView {
        BudgetView { left: self.left as int, exceeded: self.exceeded }
    }
}

impl InstructionBudget {
    /// A budget of `limit` instructions.
    pub fn new(limit: isize) -> (budget: InstructionBudget)
        ensures
            budget@ == BudgetView::fresh(limit),
    {
        InstructionBudget { left: limit, exceeded: false }
    }

    /// Counts one instruction and tells whether the script has to stop:
    /// it has to when nothing was left for this instruction.
    pub fn tick(&mut self) -> (stop: bool)
        ensures
            stop == old(self)@.spent(),
            final(self)@ == old(self)@.ticked(),
    {
        let stop = self.left < 1;
        if self.left > isize::MIN {
            self.left = self.left - 1;
        }
        if stop {
            self.exceeded = true;
        }
        stop
    }

    /// How many instructions are left.
    pub fn left(&self) -> (left: isize)
        ensures
            left == self@.left,
    {
        self.left
    }

    /// Whether the script has tried to run more than it may.
    pub fn exceeded(&self) -> (exceeded: bool)
        ensures
            exceeded == self@.exceeded,
    {
        self.exceeded
    }
}

/// The ceiling: of a budget of `limit` instructions the first `limit` pass
/// and the next one stops the script. The budget is exceeded exactly when
/// more than `limit` instructions were counted, and as long as it is not,
/// what is left is `limit` less the instructions counted, which is not
/// negative.
pub proof fn lemma_budget(limit: isize, n: nat)
    requires
        0 <= limit,
    ensures
        BudgetView::fresh(limit).ticked_times(n).exceeded <==> n > limit,
        n <= limit ==> BudgetView::fresh(limit).ticked_times(n).left == limit - n,
        !BudgetView::fresh(limit).ticked_times(n).exceeded ==> BudgetView::fresh(limit).ticked_times(
            n,
        ).left >= 0,
        BudgetView::fresh(limit).ticked_times(n).spent() <==> n >= limit,
    decreases n,
{
    if n > 0 {
        lemma_budget(limit, (n - 1) as nat);
    }
}

// ---------------------------------------------------------------------------
// The scripting engine
// ---------------------------------------------------------------------------
#[verifier::external_type_specification]
#[verifier::external_body]
pub struct ExLua(rlua::Lua);

/// What the engine made of a program.
#[derive(Debug)]
pub enum Evaluated {
    /// The program ran and returned a status number and a text.
    Returned(i64, String),
    /// The call of the program failed on the host's side, with this error.
    Failed(String),
    /// The program could not be loaded, with this error.
    Rejected(String),
}

/// What the engine made of a program, as plain values.
pub enum EvaluatedView {
    Returned(i64, Seq<char>),
    Failed(Seq<char>),
    Rejected(Seq<char>),
}

impl View for Evaluated {
    type V = EvaluatedView;

    open spec fn view(&self) -> EvaluatedView {
        match *self {
            Evaluated::Returned(code, text) => EvaluatedView::Returned(code, text@),
            Evaluated::Failed(text) => EvaluatedView::Failed(text@),
            Evaluated::Rejected(text) => EvaluatedView::Rejected(text@),
        }
    }
}

/// `rlua::Lua::new`: a fresh engine. Nothing is claimed of it.
#[verifier::external_body]
fn lua_new() -> rlua::Lua {
    rlua::Lua::new()
}

/// The memory ceiling that an engine has been given: the number of bytes
/// above which it refuses to allocate, or nothing for an engine without a
/// ceiling.
pub uninterp spec fn memory_ceiling(vm: rlua::Lua) -> Option<usize>;

/// `rlua::Lua::set_memory_limit`: gives the engine its memory ceiling.
/// The engine keeps the number and from then on refuses every allocation
/// that would bring the memory it uses above it.
#[verifier::external_body]
fn lua_set_memory_limit(vm: &mut rlua::Lua, limit: usize)
    ensures
        memory_ceiling(*final(vm)) == Some(limit),
{
    vm.set_memory_limit(Some(limit));
}

// ---------------------------------------------------------------------------
// What the user is told
// ---------------------------------------------------------------------------
/// A result as plain values.
pub struct SuccessView {
    pub instructions_left: isize,
    pub result: Seq<char>,
}

/// The view of what running a script gives.
pub open spec fn run_view(r: Result<SuccessfulExecution, String>) -> Result<SuccessView, Seq<char>> {
    match r {
        Ok(done) => Ok(SuccessView { instructions_left: done.instructions_left, result: done.result@ }),
        Err(text) => Err(text@),
    }
}

/// An error as the user sees it.
pub open spec fn error_text(text: Seq<char>) -> Seq<char> {
    "ERROR: "@ + text
}

/// What the user is told of a script, given what the engine made of the
/// loader, how many instructions were left, and whether the budget was
/// exceeded.
///
/// A success gives the text that the script returned. An error that the
/// loader reports is shown without the place in the script. Where the
/// call itself failed, an exceeded budget is reported as such, and any
/// other error is passed on; a status number that stands for nothing
/// counts as such a failure.
pub open spec fn concluded(evaluated: EvaluatedView, left: isize, exceeded: bool) -> Result<
    SuccessView,
    Seq<char>,
> {
    match evaluated {
        EvaluatedView::Returned(code, text) => match ExecutionStatus::of(code) {
            Some(ExecutionStatus::Success) => Ok(
                SuccessView { instructions_left: left, result: text },
            ),
            Some(_) => Err(error_text(stripped(text))),
            None => if exceeded {
                Err(error_text("instruction limit reached"@))
            } else {
                Err(error_text("unknown status"@))
            },
        },
        EvaluatedView::Failed(text) => if exceeded {
            Err(error_text("instruction limit reached"@))
        } else {
            Err(error_text(text))
        },
        EvaluatedView::Rejected(text) => Err(error_text(text)),
    }
}

fn error(text: &str) -> (out: String)
    ensures
        out@ == error_text(text@),
{
    let mut out = String::from_str("ERROR: ");
    out.append(text);
    out
}

/// Tells what the user is to see of a script that the engine has run.
pub fn conclude(evaluated: Evaluated, instructions_left: isize, exceeded: bool) -> (r: Result<
    SuccessfulExecution,
    String,
>)
    ensures
        run_view(r) == concluded(evaluated@, instructions_left, exceeded),
{
    match evaluated {
        Evaluated::Returned(code, text) => match ExecutionStatus::from_code(code) {
            Some(ExecutionStatus::Success) => Ok(
                SuccessfulExecution { instructions_left, result: text },
            ),
            Some(_) => Err(error(strip_location(text.as_str()))),
            None => if exceeded {
                Err(error("instruction limit reached"))
            } else {
                Err(error("unknown status"))
            },
        },
        Evaluated::Failed(text) => if exceeded {
            Err(error("instruction limit reached"))
        } else {
            Err(error(text.as_str()))
        },
        Evaluated::Rejected(text) => Err(error(text.as_str())),
    }
}

/// A fresh engine that may use at most `memory_limit` bytes of memory.
/// Its instruction hook is not set, and without one a script may never
/// end: whoever runs scripts on the engine first has it call
/// `InstructionBudget::tick` on a budget after every instruction, and
/// raise an error in the script when that returns `true`.
pub fn engine(memory_limit: usize) -> (vm: rlua::Lua)
    ensures
        memory_ceiling(vm) == Some(memory_limit),
{
    let mut vm = lua_new();
    lua_set_memory_limit(&mut vm, memory_limit);
    vm
}

} // verus!
