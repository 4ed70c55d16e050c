//! Tests of parsed definitions, profiles and the registry.

use midiprog::command_parser::{Command, CommandParser};
use midiprog::config::{Config, ConfigError, RunOutcome};
use midiprog::midi_command::MidiParameter;
use midiprog::synth::Synth;

fn synth_definition() -> Command {
    let mut cs = Command::new(String::from("synth"));
    cs.add_parameter(String::from("id"), String::from("ju-2"));
    cs.add_parameter(String::from("name"), String::from("Juno-2"));
    cs.add_parameter(String::from("manufacturer"), String::from("Roland"));
    cs
}

fn command_definition(name: &str, midi: &str, params: &[&str], alias: &str) -> Command {
    let mut cc = Command::new(String::from("command"));
    cc.add_parameter(String::from("name"), String::from(name));
    cc.add_parameter(String::from("midi"), String::from(midi));
    for (i, p) in params.iter().enumerate() {
        cc.add_parameter(format!("parameter_{}", i), String::from(*p));
    }
    cc.add_parameter(String::from("alias"), String::from(alias));
    cc
}

#[test]
fn command_parameters_and_lookup() {
    let c = command_definition(
        "Program Parameter Request",
        "F0 42 3n 0B 10 p F7",
        &["n : 1 : Channel", "p : 2 : Parameter"],
        "pr",
    );
    assert_eq!(c.name, "command");
    assert!(c.has_parameter("name"));
    assert!(c.has_parameter("midi"));
    assert!(c.has_parameter("parameter_0"));
    assert!(c.has_parameter("parameter_1"));
    assert!(c.has_parameter("alias"));
    assert!(!c.has_parameter("parameter_2"));
    assert_eq!(c.get_parameter("alias"), Some(&String::from("pr")));
    assert!(c.has_numbered_parameter("parameter", 1));
    assert_eq!(
        c.get_numbered_parameter("parameter", 0),
        Some(&String::from("n : 1 : Channel"))
    );
    assert_eq!(
        c.get_parameter_from_index(0),
        Some(&String::from("Program Parameter Request"))
    );
}

#[test]
fn latest_binding_wins() {
    let mut c = Command::new(String::from("x"));
    c.add_parameter(String::from("k"), String::from("first"));
    c.add_parameter(String::from("k"), String::from("second"));
    assert_eq!(c.get_parameter("k"), Some(&String::from("second")));
    assert_eq!(c.get_parameter_from_index(0), Some(&String::from("first")));
}

#[test]
fn get_commands_groups_continuation_lines() {
    let text = String::from(
        "synth -id \"ju-2\"\n-name \"Juno-2\"\ncommand -name \"A\"\n  -alias \"a\"\n",
    );
    let commands = CommandParser::get_commands(text);
    assert_eq!(
        commands,
        vec![
            String::from("synth -id \"ju-2\"-name \"Juno-2\""),
            String::from("command -name \"A\"-alias \"a\""),
        ]
    );
}

#[test]
fn test_parser() {
    let c = CommandParser::parse_command(String::from("command -name \"Program Parameter Request\" -midi \"F0 42 3n 0B 10 p F7\" -@parameter \"n : 1 : Channel\" -@parameter \"p : 2 : Parameter\" -alias \"pr\"")).unwrap();
    assert_eq!(c.name, "command");
    assert!(c.has_parameter("name"));
    assert!(c.has_parameter("midi"));
    assert!(c.has_parameter("parameter_0"));
    assert!(c.has_parameter("parameter_1"));
    assert!(c.has_parameter("alias"));
    assert_eq!(c.get_parameter("alias"), Some(&String::from("pr")));
}

#[test]
fn test_config() {
    let cs = CommandParser::parse_command(String::from(
        "synth -id \"ju-2\" -name \"Juno-2\" -manufacturer \"Roland\"",
    ))
    .unwrap();
    let cc = CommandParser::parse_command(String::from("command -name \"Program Parameter Request\" -midi \"F0 42 3n 0B 10 p F7\" -@parameter \"n : 1 : Channel\" -@parameter \"p : 2 : Parameter\" -alias \"pr\"")).unwrap();
    let cp = CommandParser::parse_command(String::from("command -name \"Program Parameter Change\" -midi \"F0 41 3n 0B 10 p v F7\" -@parameter \"n : 1 : Channel\" -@parameter \"p : 2 : Parameter\" -@parameter \"v : 2 : Value\" -alias \"pc param-change\"")).unwrap();
    let mut conf = Config::new();

    conf.run_command(&cs).unwrap();
    conf.run_command(&cc).unwrap();
    conf.run_command(&cp).unwrap();

    let s: &Synth = conf.get_current_synth().expect("No synth loaded");
    assert_eq!(s.name, "Juno-2");
    assert_eq!(s.id, "ju-2");
    assert_eq!(s.manufacturer, "Roland");
    assert!(s.has_command("pr"));
    assert!(s.has_command("Program Parameter Request"));
    assert!(s.has_command("pc"));
    assert!(s.has_command("param-change"));
    assert!(s.has_command("Program Parameter Change"));
    assert!(!s.has_command("nothing"));
}

#[test]
fn test_config_command_parser() {
    let mut conf = Config::new();

    let lines = vec![
        String::from("synth -id \"ju-2\" -name \"Alpha Juno-2\" -manufacturer \"Roland\""),
        String::from("command -name \"Program Parameter Request\" -midi \"F0 42 3n 0B 10 p F7\" -@parameter \"n : 1 : Channel\" -@parameter \"p : 2 : Parameter\" -alias \"pr\""),
        String::from("command -name \"Program Parameter Change\" -midi \"F0 41 3n 0B 10 p v F7\" -@parameter \"n : 1 : Channel\" -@parameter \"p : 2 : Parameter\" -@parameter \"v : 2 : Value\" -alias \"pc param-change\""),
    ];
    for c in CommandParser::parse_commands(&lines) {
        conf.run_command(&c).unwrap();
    }

    let s: &Synth = conf.get_current_synth().expect("No synth loaded");
    assert_eq!(s.name, "Alpha Juno-2");
    assert_eq!(s.id, "ju-2");
    assert_eq!(s.manufacturer, "Roland");
    assert!(s.has_command("pr"));
    assert!(s.has_command("Program Parameter Request"));
    assert!(s.has_command("pc"));
    assert!(s.has_command("param-change"));
    assert!(s.has_command("Program Parameter Change"));
}

#[test]
fn parse_command_name_rules() {
    assert!(CommandParser::parse_command(String::from("no parameters here")).is_none());
    let c = CommandParser::parse_command(String::from("synth -id \"ju-2\"")).unwrap();
    assert_eq!(c.name, "synth");
    assert_eq!(c.get_parameter("id"), Some(&String::from("ju-2")));
    // a dash glued to the name still separates it
    let d = CommandParser::parse_command(String::from("synth-id \"x\" -id \"y\"")).unwrap();
    assert_eq!(d.name, "synth");
    assert_eq!(d.get_parameter("id"), Some(&String::from("y")));
}

#[test]
fn command_before_profile_is_rejected() {
    let mut conf = Config::new();
    let cc = command_definition("A", "F0 F7", &[], "a");
    assert!(matches!(
        conf.run_command(&cc),
        Err(ConfigError::NoCurrentProfile)
    ));
    assert!(conf.get_current_synth().is_none());
}

#[test]
fn synth_without_id_is_rejected() {
    let mut conf = Config::new();
    let cs = Command::new(String::from("synth"));
    assert!(matches!(
        conf.run_command(&cs),
        Err(ConfigError::MissingParameter)
    ));
}

#[test]
fn malformed_parameter_is_rejected() {
    let mut conf = Config::new();
    conf.run_command(&synth_definition()).unwrap();
    let cc = command_definition("A", "F0 0n F7", &["n : oops : Channel"], "a");
    assert!(matches!(
        conf.run_command(&cc),
        Err(ConfigError::MalformedParameter(_))
    ));
    // nothing was appended
    assert_eq!(conf.get_current_synth().unwrap().commands.len(), 0);
}

#[test]
fn source_definition_hands_back_the_path() {
    let mut conf = Config::new();
    let mut sc = Command::new(String::from("source"));
    sc.add_parameter(String::from("file"), String::from("data/midirc.cmd"));
    let outcome = conf.run_command(&sc).unwrap();
    assert!(matches!(outcome, RunOutcome::SourceFile(p) if p == "data/midirc.cmd"));
}

#[test]
fn folder_definition_checks_its_type() {
    let mut conf = Config::new();
    let mut fc = Command::new(String::from("folder"));
    fc.add_parameter(String::from("type"), String::from("sideways"));
    assert!(matches!(
        conf.run_command(&fc),
        Err(ConfigError::BadFolderType)
    ));
    let mut fr = Command::new(String::from("folder"));
    fr.add_parameter(String::from("type"), String::from("relative"));
    assert!(matches!(conf.run_command(&fr).unwrap(), RunOutcome::Handled));
}

#[test]
fn unknown_definitions_are_ignored(){
    let mut conf = Config::new();
    let odd = Command::new(String::from("mystery"));
    assert!(matches!(conf.run_command(&odd).unwrap(), RunOutcome::Handled));
}

#[test]
fn redefined_profile_replaces_whole() {
    let mut conf = Config::new();
    conf.run_command(&synth_definition()).unwrap();
    let cc = command_definition("A", "F0 F7", &[], "a");
    conf.run_command(&cc).unwrap();
    assert_eq!(conf.get_current_synth().unwrap().commands.len(), 1);
    // a second synth definition with the same id starts afresh
    conf.run_command(&synth_definition()).unwrap();
    assert_eq!(conf.get_current_synth().unwrap().commands.len(), 0);
    assert_eq!(conf.get_synth_list(), vec![String::from("ju-2")]);
}

#[test]
fn alias_resolution_prefers_later_command() {
    let mut conf = Config::new();
    conf.define_profile(
        String::from("ju-2"),
        String::from("Juno-2"),
        String::from("Roland"),
    );
    conf.define_command(String::from("A"), String::from("F0 F7"), String::from("x"), Vec::new())
        .unwrap();
    conf.define_command(
        String::from("B"),
        String::from("F0 00 F7"),
        String::from("x"),
        Vec::new(),
    )
    .unwrap();
    let table = conf.load_synth("ju-2").expect("profile exists");
    let hits: Vec<_> = table.iter().filter(|e| e.0 == "x").collect();
    assert_eq!(hits.len(), 1);
    assert_eq!(hits[0].1.name, "B");
    // canonical names resolve too
    assert!(table.iter().any(|e| e.0 == "A"));
    assert!(table.iter().any(|e| e.0 == "B"));
    assert!(conf.load_synth("nope").is_none());
}

#[test]
fn all_commands_are_flattened() {
    let mut conf = Config::new();
    conf.define_profile(String::from("one"), String::new(), String::new());
    conf.define_command(String::from("A"), String::from("F0 F7"), String::from("a"), Vec::new())
        .unwrap();
    conf.define_profile(String::from("two"), String::new(), String::new());
    conf.define_command(String::from("B"), String::from("F7"), String::from("b"), Vec::new())
        .unwrap();
    let all = conf.get_all_midi_commands();
    assert_eq!(all.len(), 2);
    assert_eq!(all[0].name, "A");
    assert_eq!(all[1].name, "B");
    assert!(conf.has_synth("one"));
    assert!(conf.has_synth("two"));
    assert!(!conf.has_synth("three"));
}

#[test]
fn synth_from_parts() {
    let s = Synth::new(
        String::from("Juno-2"),
        String::from("ju-2"),
        String::from("Roland"),
    );
    assert_eq!(s.id, "ju-2");
    let t = Synth::from_id(String::from("ju-2"));
    assert_eq!(t.name, "");
    assert_eq!(t.id, "ju-2");
    assert!(!t.has_command("anything"));
    assert!(t.get_command("anything").is_none());
}

#[test]
fn aliases_come_from_space_separated_words() {
    let mut c = midiprog::midi_command::MidiCommand::new(String::from("t"));
    c.add_aliases(String::from("pc  param-change"));
    assert_eq!(
        c.aliases,
        vec![String::from("pc"), String::from(""), String::from("param-change")]
    );
    let mut d = midiprog::midi_command::MidiCommand::new(String::from("t"));
    d.add_aliases_list(&[String::from(" a "), String::from("b")]);
    assert_eq!(d.aliases, vec![String::from("a"), String::from("b")]);
}

#[test]
fn numbered_parameters_stop_at_first_gap() {
    let mut conf = Config::new();
    conf.run_command(&synth_definition()).unwrap();
    let mut cc = Command::new(String::from("command"));
    cc.add_parameter(String::from("name"), String::from("A"));
    cc.add_parameter(String::from("midi"), String::from("F0 0n v F7"));
    cc.add_parameter(String::from("alias"), String::from("a"));
    cc.add_parameter(String::from("parameter_0"), String::from("n : 1 : Channel"));
    // parameter_2 without parameter_1 is never reached
    cc.add_parameter(String::from("parameter_2"), String::from("v : 2 : Value"));
    conf.run_command(&cc).unwrap();
    let s = conf.get_current_synth().unwrap();
    assert_eq!(s.commands[0].parameters.len(), 1);
    assert_eq!(s.commands[0].parameters[0].key, "n");
}

#[test]
fn parameter_is_kept_with_its_declaration() {
    let p = MidiParameter::new(String::from("n"), 1, String::from("Channel"));
    assert_eq!(p.key, "n");
    assert_eq!(p.characters(), 1);
    assert_eq!(p.name, "Channel");
}
