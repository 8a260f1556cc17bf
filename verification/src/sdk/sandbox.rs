//! The sandbox a Lua definition file runs in: the globals it can see, and its instruction
//! budget.
//!
//! Mods get no ability to hang the game: the VM counts instructions in fixed intervals, and
//! a script that goes past its budget is killed — an error its author can read, never
//! everyone else's frame drop. The VM and its hook live with the Lua runtime; the
//! accounting lives here.

use vstd::prelude::*;

verus! {

/// Instructions between budget checks.
pub const INSTRUCTION_CHECK_INTERVAL: u32 = 10_000;

/// Instruction budget for a single definition file.
pub const LOAD_INSTRUCTION_BUDGET: u64 = 1_000_000;

/// Instructions a script has executed, against the most it may.
#[derive(Debug, Clone, Copy, PartialEq, Eq, Structural)]
pub struct InstructionBudget {
    pub executed: u64,
    pub max_instructions: u64,
}

/// The count after `step` more instructions; saturates rather than wraps.
pub open spec fn charged(executed: u64, step: u64) -> u64 {
    if executed + step > u64::MAX {
        u64::MAX
    } else {
        (executed + step) as u64
    }
}

impl InstructionBudget {
    /// A fresh budget of `max_instructions`.
    pub fn new(max_instructions: u64) -> (budget: Self)
        ensures
            budget.executed == 0,
            budget.max_instructions == max_instructions,
    {
        InstructionBudget { executed: 0, max_instructions }
    }

    /// Counts one check interval's worth of instructions. `true` while the script is
    /// within its budget; `false` once it has gone past it, and the script must be killed.
    pub fn charge_interval(&mut self) -> (within: bool)
        ensures
            final(self).max_instructions == old(self).max_instructions,
            final(self).executed == charged(old(self).executed, INSTRUCTION_CHECK_INTERVAL as u64),
            within == (final(self).executed <= final(self).max_instructions),
    {
        self.executed = self.executed.saturating_add(INSTRUCTION_CHECK_INTERVAL as u64);
        self.executed <= self.max_instructions
    }
}

/// Law: a killed script stays killed — once over budget, every later check fails too.
pub proof fn lemma_over_budget_stays_over(budget: InstructionBudget)
    requires
        budget.executed > budget.max_instructions,
    ensures
        charged(budget.executed, INSTRUCTION_CHECK_INTERVAL as u64) > budget.max_instructions,
{
}

/// The globals a definition file can see: string, table and arithmetic helpers, and
/// nothing that reaches the host.
pub open spec fn definition_globals_spec() -> Seq<Seq<char>> {
    seq!["string"@, "table"@, "math"@, "pairs"@, "ipairs"@, "type"@, "tostring"@]
}

/// Globals that would let a script reach the filesystem, the process, other code, the
/// debugger or its own scheduling.
pub open spec fn host_globals() -> Seq<Seq<char>> {
    seq!["io"@, "os"@, "require"@, "package"@, "debug"@, "load"@, "loadfile"@, "dofile"@, "coroutine"@]
}

/// The names of the globals copied into a definition file's environment.
pub fn definition_globals() -> (names: Vec<&'static str>)
    ensures
        names@.map_values(|name: &str| name@) == definition_globals_spec(),
{
    let mut names: Vec<&'static str> = Vec::new();
    names.push("string");
    names.push("table");
    names.push("math");
    names.push("pairs");
    names.push("ipairs");
    names.push("type");
    names.push("tostring");
    proof {
        assert(names@.map_values(|name: &str| name@) =~= definition_globals_spec());
    }
    names
}

/// Law: a definition file cannot reach the host — none of the globals it can see is one
/// that opens files, runs processes, loads code, debugs or schedules.
pub proof fn lemma_definitions_cannot_reach_the_host()
    ensures
        forall|i: int| 0 <= i < definition_globals_spec().len() ==> !host_globals().contains(
            #[trigger] definition_globals_spec()[i],
        ),
{
    reveal_strlit("string");
    reveal_strlit("table");
    reveal_strlit("math");
    reveal_strlit("pairs");
    reveal_strlit("ipairs");
    reveal_strlit("type");
    reveal_strlit("tostring");
    reveal_strlit("io");
    reveal_strlit("os");
    reveal_strlit("require");
    reveal_strlit("package");
    reveal_strlit("debug");
    reveal_strlit("load");
    reveal_strlit("loadfile");
    reveal_strlit("dofile");
    reveal_strlit("coroutine");
    let visible = definition_globals_spec();
    let host = host_globals();
    assert forall|i: int| 0 <= i < visible.len() implies !host.contains(#[trigger] visible[i]) by {
        if host.contains(visible[i]) {
            let k = choose|k: int| 0 <= k < host.len() && host[k] == visible[i];
            assert(host[k][0] == visible[i][0]);
            assert(host[k].len() == visible[i].len());
        }
    }
}

} // verus!
