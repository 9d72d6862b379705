//! The script host: at most one cooperatively-scheduled script session at a
//! time, a buffer of commands the script emits, the fixed-rate auto-run
//! policy, and the application of flushed commands to the node color map.
//!
//! The interpreter itself lives outside this crate; the host records only
//! what the next decision needs: the command buffer, the running flag and
//! the stepping rate. The caller reports each resume's outcome and performs
//! the interpreter work.
use vstd::prelude::*;
use vstd::std_specs::hash::group_hash_axioms;
use std::collections::HashMap;
use crate::color::Color;
use crate::color::spec_color_from_hex;
use crate::graph::Graph;

verus! {

broadcast use group_hash_axioms;

/// The command vocabulary a script can emit: paint a node with a color
/// specification, or return it to the neutral base color.
#[derive(Clone, Debug)]
pub enum ScriptCommand {
    SetColor(u64, String),
    ResetColor(u64),
}

/// One loaded script session: the commands it has emitted and not yet
/// flushed, whether the auto-run policy drives it, and its stepping rate in
/// steps per second (at least one).
#[derive(Debug)]
pub struct LuaThreadState {
    pub event_buffer: Vec<ScriptCommand>,
    pub running: bool,
    pub speed: u32,
}

/// The script host: zero or one active session.
#[derive(Debug)]
pub struct LuaManager {
    pub active_script: Option<LuaThreadState>,
}

/// What one resume of the script's execution unit came to: it suspended
/// and can be resumed again, it had already finished, or it faulted.
#[derive(Clone, Copy, PartialEq, Eq, Structural, Debug)]
pub enum StepOutcome {
    Yielded,
    Finished,
    Errored,
}

impl LuaManager {
    /// Validity: an active session never has a zero stepping rate.
    pub open spec fn wf(self) -> bool {
        match self.active_script {
            Some(s) => s.speed >= 1,
            None => true,
        }
    }

    /// The commands buffered and not yet flushed (none when idle).
    pub open spec fn buffered(self) -> Seq<ScriptCommand> {
        match self.active_script {
            Some(s) => s.event_buffer@,
            None => Seq::empty(),
        }
    }

    /// An idle host.
    pub fn new() -> (m: LuaManager)
        ensures
            m.wf(),
            m.active_script is None,
    {
        LuaManager { active_script: None }
    }

    /// A script compiled: replace whatever session was active with a fresh
    /// one. The prior session's buffered commands are discarded — they can
    /// never reach a later flush — and the new session starts paused with
    /// an empty buffer at one step per second.
    pub fn load_script(&mut self)
        ensures
            final(self).wf(),
            final(self).active_script matches Some(s) && s.event_buffer@ == Seq::<
                ScriptCommand,
            >::empty() && !s.running && s.speed == 1,
            final(self).buffered() == Seq::<ScriptCommand>::empty(),
    {
        self.active_script = Some(
            LuaThreadState { event_buffer: Vec::new(), running: false, speed: 1 },
        );
    }

    /// A script failed to compile: the session never starts, and any prior
    /// session is gone with its buffer.
    pub fn load_failed(&mut self)
        ensures
            final(self).wf(),
            final(self).active_script is None,
    {
        self.active_script = None;
    }

    /// Record the outcome the caller observed when it advanced the script
    /// by one step. A suspension keeps the session; a finished or faulted
    /// script clears it, dropping any commands still buffered. With no
    /// active session a step is a no-op.
    pub fn step(&mut self, outcome: StepOutcome)
        requires
            old(self).wf(),
        ensures
            final(self).wf(),
            old(self).active_script is None ==> *final(self) == *old(self),
            old(self).active_script is Some ==> match outcome {
                StepOutcome::Yielded => *final(self) == *old(self),
                StepOutcome::Finished | StepOutcome::Errored => final(self).active_script
                    is None,
            },
    {
        if self.active_script.is_some() {
            match outcome {
                StepOutcome::Yielded => {},
                StepOutcome::Finished | StepOutcome::Errored => {
                    self.active_script = None;
                },
            }
        }
    }

    /// Append a command the script emitted to the active session's buffer;
    /// with no active session the command is dropped.
    pub fn push_command(&mut self, cmd: ScriptCommand)
        requires
            old(self).wf(),
        ensures
            final(self).wf(),
            old(self).active_script is None ==> *final(self) == *old(self),
            old(self).active_script matches Some(s) ==> final(self).active_script matches Some(t)
                && t.event_buffer@ == s.event_buffer@.push(cmd) && t.running == s.running
                && t.speed == s.speed,
            old(self).active_script is Some ==> final(self).buffered() == old(
                self,
            ).buffered().push(cmd),
    {
        match &mut self.active_script {
            Some(state) => {
                state.event_buffer.push(cmd);
            },
            None => {},
        }
    }

    /// Start or pause the active session's auto-run; idle hosts ignore it.
    pub fn set_running(&mut self, running: bool)
        requires
            old(self).wf(),
        ensures
            final(self).wf(),
            old(self).active_script is None ==> *final(self) == *old(self),
            old(self).active_script matches Some(s) ==> final(self).active_script matches Some(t)
                && t.running == running && t.event_buffer@ == s.event_buffer@ && t.speed
                == s.speed,
    {
        match &mut self.active_script {
            Some(state) => {
                state.running = running;
            },
            None => {},
        }
    }

    /// Change the active session's stepping rate; idle hosts ignore it.
    pub fn set_speed(&mut self, speed: u32)
        requires
            old(self).wf(),
            speed >= 1,
        ensures
            final(self).wf(),
            old(self).active_script is None ==> *final(self) == *old(self),
            old(self).active_script matches Some(s) ==> final(self).active_script matches Some(t)
                && t.speed == speed && t.event_buffer@ == s.event_buffer@ && t.running
                == s.running,
    {
        match &mut self.active_script {
            Some(state) => {
                state.speed = speed;
            },
            None => {},
        }
    }
}

/// Drain the active session's buffer and hand the commands over in emission
/// order; the buffer is empty afterwards. An idle host flushes nothing.
pub fn flush_lua_events(manager: &mut LuaManager) -> (drained: Vec<ScriptCommand>)
    requires
        old(manager).wf(),
    ensures
        final(manager).wf(),
        drained@ == old(manager).buffered(),
        final(manager).buffered() == Seq::<ScriptCommand>::empty(),
        old(manager).active_script is None ==> *final(manager) == *old(manager),
        old(manager).active_script matches Some(s) ==> final(manager).active_script matches Some(
            t,
        ) && t.running == s.running && t.speed == s.speed,
{
    match &mut manager.active_script {
        Some(state) => {
            let drained = state.event_buffer.split_off(0);
            proof {
                assert(drained@ =~= old(manager).buffered());
                assert(state.event_buffer@ =~= Seq::<ScriptCommand>::empty());
            }
            drained
        },
        None => Vec::new(),
    }
}

/// The fixed-rate stepping policy: with a running session, elapsed time
/// accumulates (saturating), and once it reaches `1 / speed` seconds the
/// accumulator resets and exactly one step is owed. Pauses and idle hosts
/// leave the accumulator alone and owe nothing. Times are in microseconds.
pub open spec fn spec_auto_run(m: LuaManager, acc_micros: u64, delta_micros: u64) -> (u64, bool) {
    match m.active_script {
        Some(s) => {
            if !s.running {
                (acc_micros, false)
            } else {
                let acc2 = if delta_micros > u64::MAX - acc_micros {
                    u64::MAX
                } else {
                    (acc_micros + delta_micros) as u64
                };
                if acc2 >= 1_000_000u64 / (s.speed as u64) {
                    (0u64, true)
                } else {
                    (acc2, false)
                }
            }
        },
        None => (acc_micros, false),
    }
}

/// Advance the auto-run clock by `delta_micros` and say whether one step is
/// due now. The returned accumulator replaces `acc_micros`.
pub fn auto_run(manager: &LuaManager, acc_micros: u64, delta_micros: u64) -> (r: (u64, bool))
    requires
        manager.wf(),
    ensures
        r == spec_auto_run(*manager, acc_micros, delta_micros),
{
    match &manager.active_script {
        Some(state) => {
            if !state.running {
                (acc_micros, false)
            } else {
                let acc2 = if delta_micros > u64::MAX - acc_micros {
                    u64::MAX
                } else {
                    acc_micros + delta_micros
                };
                if acc2 >= 1_000_000u64 / (state.speed as u64) {
                    (0, true)
                } else {
                    (acc2, false)
                }
            }
        },
        None => (acc_micros, false),
    }
}

/// The node color map: what each painted node currently shows. Nodes
/// outside the map show the neutral base color.
#[derive(Debug)]
pub struct NodeColors {
    pub colors: HashMap<u64, Color>,
}

impl NodeColors {
    /// An empty map: every node shows the neutral base color.
    pub fn new() -> (c: NodeColors)
        ensures
            c.colors@ == Map::<u64, Color>::empty(),
    {
        NodeColors { colors: HashMap::new() }
    }

    /// Record that node `id` now shows `color`.
    pub fn set(&mut self, id: u64, color: Color)
        ensures
            final(self).colors@ == old(self).colors@.insert(id, color),
    {
        self.colors.insert(id, color);
    }

    /// What node `id` currently shows.
    pub fn get(&self, id: u64) -> (c: Color)
        ensures
            c == if self.colors@.contains_key(id) {
                self.colors@[id]
            } else {
                Color::spec_black()
            },
    {
        match self.colors.get(&id) {
            Some(c) => *c,
            None => Color::black(),
        }
    }
}

/// What one flushed command does to the color map: a parsable `SetColor`
/// on a live node paints it; `ResetColor` on a live node paints it with the
/// neutral base color; a dead node or an unparsable specification changes
/// nothing.
pub open spec fn apply_command(g: Graph, cmd: ScriptCommand, m: Map<u64, Color>) -> Map<
    u64,
    Color,
> {
    match cmd {
        ScriptCommand::SetColor(n, s) => if g.spec_contains(n) {
            match spec_color_from_hex(s@) {
                Some(c) => m.insert(n, c),
                None => m,
            }
        } else {
            m
        },
        ScriptCommand::ResetColor(n) => if g.spec_contains(n) {
            m.insert(n, Color::spec_black())
        } else {
            m
        },
    }
}

/// What a whole flush does: the commands act on the map in emission order.
pub open spec fn apply_commands(g: Graph, cmds: Seq<ScriptCommand>, m: Map<u64, Color>) -> Map<
    u64,
    Color,
>
    decreases cmds.len(),
{
    if cmds.len() == 0 {
        m
    } else {
        apply_command(g, cmds.last(), apply_commands(g, cmds.drop_last(), m))
    }
}

pub broadcast proof fn lemma_apply_commands_push(
    g: Graph,
    cmds: Seq<ScriptCommand>,
    c: ScriptCommand,
    m: Map<u64, Color>,
)
    ensures
        #[trigger] apply_commands(g, cmds.push(c), m) == apply_command(
            g,
            c,
            apply_commands(g, cmds, m),
        ),
{
    assert(cmds.push(c).drop_last() =~= cmds);
}

/// Apply a batch of flushed commands to the color map, in emission order.
/// Commands naming dead nodes and unparsable color specifications are
/// skipped.
pub fn exec_lua_events(commands: &Vec<ScriptCommand>, graph: &Graph, colors: &mut NodeColors)
    ensures
        final(colors).colors@ == apply_commands(*graph, commands@, old(colors).colors@),
{
    broadcast use lemma_apply_commands_push;

    let n = commands.len();
    let mut i: usize = 0;
    while i < n
        invariant
            i <= n,
            n == commands@.len(),
            colors.colors@ == apply_commands(
                *graph,
                commands@.subrange(0, i as int),
                old(colors).colors@,
            ),
        decreases n - i,
    {
        let ghost prefix = commands@.subrange(0, i as int);
        let ghost m0 = colors.colors@;
        proof {
            assert(commands@.subrange(0, i + 1 as int) =~= prefix.push(commands@[i as int]));
            lemma_apply_commands_push(*graph, prefix, commands@[i as int], old(colors).colors@);
        }
        match &commands[i] {
            ScriptCommand::SetColor(node, spec_str) => {
                match crate::color::color_from_hex(spec_str.as_str()) {
                    Some(c) => {
                        if graph.contains_node(*node) {
                            colors.set(*node, c);
                        }
                    },
                    None => {},
                }
            },
            ScriptCommand::ResetColor(node) => {
                if graph.contains_node(*node) {
                    colors.set(*node, Color::black());
                }
            },
        }
        proof {
            assert(colors.colors@ == apply_command(*graph, commands@[i as int], m0));
        }
        i += 1;
    }
    proof {
        assert(commands@.subrange(0, n as int) =~= commands@);
    }
}

/// A replaced or abandoned session never leaks its commands: after a load
/// (which `load_script` ensures leaves a fresh empty buffer whatever was
/// buffered before) or after a finishing or faulting step (which `step`
/// ensures leaves no session at all), the host has nothing buffered, so
/// the next flush drains nothing and applying that flush leaves every
/// color map exactly as it was.
pub proof fn lemma_discarded_buffer_never_reaches_colors(
    g: Graph,
    m: LuaManager,
    colors: Map<u64, Color>,
)
    requires
        (m.active_script matches Some(s) && s.event_buffer@.len() == 0) || m.active_script
            is None,
    ensures
        m.buffered() == Seq::<ScriptCommand>::empty(),
        apply_commands(g, m.buffered(), colors) == colors,
{
    assert(m.buffered() =~= Seq::<ScriptCommand>::empty());
}

/// Returning a node to the neutral base color twice in a row leaves the
/// color map exactly as returning it once does.
pub proof fn lemma_reset_color_idempotent(g: Graph, n: u64, m: Map<u64, Color>)
    ensures
        apply_command(
            g,
            ScriptCommand::ResetColor(n),
            apply_command(g, ScriptCommand::ResetColor(n), m),
        ) == apply_command(g, ScriptCommand::ResetColor(n), m),
{
    if g.spec_contains(n) {
        assert(m.insert(n, Color::spec_black()).insert(n, Color::spec_black()) =~= m.insert(
            n,
            Color::spec_black(),
        ));
    }
}

} // verus!
