use grephite::color::Color;
use grephite::graph::Graph;
use grephite::script::LuaManager;
use grephite::script::NodeColors;
use grephite::script::ScriptCommand;
use grephite::script::StepOutcome;
use grephite::script::auto_run;
use grephite::script::exec_lua_events;
use grephite::script::flush_lua_events;

fn two_node_graph() -> (Graph, u64, u64) {
    let mut g = Graph::new();
    let a = g.insert_node();
    let b = g.insert_node();
    g.insert_edge(a, b, None);
    (g, a, b)
}

#[test]
fn flush_drains_in_emission_order() {
    let mut mgr = LuaManager::new();
    mgr.load_script();
    mgr.push_command(ScriptCommand::SetColor(1, "#f00".to_string()));
    mgr.push_command(ScriptCommand::ResetColor(1));
    mgr.push_command(ScriptCommand::SetColor(2, "#0f0".to_string()));
    let drained = flush_lua_events(&mut mgr);
    assert_eq!(drained.len(), 3);
    assert!(matches!(drained[0], ScriptCommand::SetColor(1, _)));
    assert!(matches!(drained[1], ScriptCommand::ResetColor(1)));
    assert!(matches!(drained[2], ScriptCommand::SetColor(2, _)));
    // A second flush has nothing left.
    assert_eq!(flush_lua_events(&mut mgr).len(), 0);
}

#[test]
fn loading_a_new_script_discards_buffered_commands() {
    let (g, a, _b) = two_node_graph();
    let mut colors = NodeColors::new();
    let mut mgr = LuaManager::new();
    // Script B is active and has emitted commands that were never flushed.
    mgr.load_script();
    mgr.push_command(ScriptCommand::SetColor(a, "#f00".to_string()));
    // Loading script A replaces the session; B's commands are gone.
    mgr.load_script();
    let drained = flush_lua_events(&mut mgr);
    assert_eq!(drained.len(), 0);
    exec_lua_events(&drained, &g, &mut colors);
    assert_eq!(colors.get(a), Color::black());
}

#[test]
fn erroring_on_first_resume_leaves_colors_untouched_and_goes_idle() {
    let (g, a, _b) = two_node_graph();
    let mut colors = NodeColors::new();
    let mut mgr = LuaManager::new();
    mgr.load_script();
    // The script emitted a command during the resume that then faulted.
    mgr.push_command(ScriptCommand::SetColor(a, "#f00".to_string()));
    mgr.step(StepOutcome::Errored);
    assert!(mgr.active_script.is_none());
    let drained = flush_lua_events(&mut mgr);
    assert_eq!(drained.len(), 0);
    exec_lua_events(&drained, &g, &mut colors);
    assert_eq!(colors.get(a), Color::black());
}

#[test]
fn finished_scripts_clear_the_session() {
    let mut mgr = LuaManager::new();
    mgr.load_script();
    mgr.step(StepOutcome::Yielded);
    assert!(mgr.active_script.is_some());
    mgr.step(StepOutcome::Finished);
    assert!(mgr.active_script.is_none());
    // A step with no session is a no-op.
    mgr.step(StepOutcome::Yielded);
    assert!(mgr.active_script.is_none());
}

#[test]
fn failed_compilation_never_starts_a_session() {
    let mut mgr = LuaManager::new();
    mgr.load_script();
    mgr.push_command(ScriptCommand::ResetColor(1));
    // A later script that fails to compile abandons the prior session too.
    mgr.load_failed();
    assert!(mgr.active_script.is_none());
    assert_eq!(flush_lua_events(&mut mgr).len(), 0);
}

#[test]
fn set_color_paints_live_nodes_only() {
    let (g, a, _b) = two_node_graph();
    let mut colors = NodeColors::new();
    let cmds = vec![
        ScriptCommand::SetColor(a, "#f00".to_string()),
        ScriptCommand::SetColor(999, "#0f0".to_string()),
    ];
    exec_lua_events(&cmds, &g, &mut colors);
    assert_eq!(colors.get(a), Color { r: 255, g: 0, b: 0, a: 255 });
    assert_eq!(colors.get(999), Color::black());
}

#[test]
fn unparsable_specification_is_a_no_op() {
    let (g, a, _b) = two_node_graph();
    let mut colors = NodeColors::new();
    let cmds = vec![
        ScriptCommand::SetColor(a, "#f00".to_string()),
        ScriptCommand::SetColor(a, "banana".to_string()),
    ];
    exec_lua_events(&cmds, &g, &mut colors);
    // The bad command left the earlier paint in place.
    assert_eq!(colors.get(a), Color { r: 255, g: 0, b: 0, a: 255 });
}

#[test]
fn reset_color_twice_equals_once() {
    let (g, a, b) = two_node_graph();
    let mut once = NodeColors::new();
    let mut twice = NodeColors::new();
    let paint = vec![
        ScriptCommand::SetColor(a, "#123456".to_string()),
        ScriptCommand::SetColor(b, "#abcdef".to_string()),
    ];
    exec_lua_events(&paint, &g, &mut once);
    exec_lua_events(&paint, &g, &mut twice);
    let reset_once = vec![ScriptCommand::ResetColor(a)];
    let reset_twice = vec![ScriptCommand::ResetColor(a), ScriptCommand::ResetColor(a)];
    exec_lua_events(&reset_once, &g, &mut once);
    exec_lua_events(&reset_twice, &g, &mut twice);
    assert_eq!(once.get(a), twice.get(a));
    assert_eq!(once.get(b), twice.get(b));
    assert_eq!(once.get(a), Color::black());
}

#[test]
fn commands_apply_in_order() {
    let (g, a, _b) = two_node_graph();
    let mut colors = NodeColors::new();
    let cmds = vec![
        ScriptCommand::SetColor(a, "#f00".to_string()),
        ScriptCommand::SetColor(a, "#00f".to_string()),
    ];
    exec_lua_events(&cmds, &g, &mut colors);
    assert_eq!(colors.get(a), Color { r: 0, g: 0, b: 255, a: 255 });
}

#[test]
fn auto_run_steps_at_the_configured_rate() {
    let mut mgr = LuaManager::new();
    mgr.load_script();
    mgr.set_running(true);
    mgr.set_speed(4);
    // A quarter second at four steps per second: one step exactly.
    let (acc, step) = auto_run(&mgr, 0, 250_000);
    assert!(step);
    assert_eq!(acc, 0);
    // A shorter slice only accumulates.
    let (acc, step) = auto_run(&mgr, 0, 100_000);
    assert!(!step);
    assert_eq!(acc, 100_000);
    let (acc, step) = auto_run(&mgr, acc, 100_000);
    assert!(!step);
    assert_eq!(acc, 200_000);
    let (acc, step) = auto_run(&mgr, acc, 100_000);
    assert!(step);
    assert_eq!(acc, 0);
}

#[test]
fn auto_run_is_idle_without_a_running_session() {
    let mut mgr = LuaManager::new();
    let (acc, step) = auto_run(&mgr, 5, 1_000_000);
    assert!(!step);
    assert_eq!(acc, 5);
    mgr.load_script();
    // Loaded but paused: time does not accumulate.
    let (acc, step) = auto_run(&mgr, 5, 1_000_000);
    assert!(!step);
    assert_eq!(acc, 5);
}
