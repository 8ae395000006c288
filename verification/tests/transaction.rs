use ranger::args::{CallArgs, Command, GenerateCommand, ManualFormat, Privilege};
use ranger::transaction::{conclude, preflight_output, Preflight};
use ranger::Error;

#[test]
fn existing_nonempty_output_without_force_fails_before_anything_runs() {
    assert!(matches!(preflight_output(false, true, true), Preflight::Fail));
}

#[test]
fn missing_or_empty_output_without_force_proceeds() {
    assert!(matches!(preflight_output(false, false, false), Preflight::Proceed));
    assert!(matches!(preflight_output(false, true, false), Preflight::Proceed));
}

#[test]
fn force_removes_the_output_first() {
    assert!(matches!(preflight_output(true, true, true), Preflight::RemoveThenProceed));
    assert!(matches!(preflight_output(true, false, false), Preflight::RemoveThenProceed));
}

#[test]
fn failed_render_removes_output_and_temp() {
    let plan = conclude(false, true);
    assert!(plan.remove_output);
    assert!(plan.remove_temp);
}

#[test]
fn successful_render_keeps_output_and_removes_temp() {
    let plan = conclude(true, true);
    assert!(!plan.remove_output);
    assert!(plan.remove_temp);
}

#[test]
fn local_source_never_triggers_temp_removal() {
    let plan = conclude(false, false);
    assert!(plan.remove_output);
    assert!(!plan.remove_temp);
}

#[test]
fn every_command_validates_at_every_privilege() {
    let normal = CallArgs {
        privileges: Privilege::Normal,
        command: Command::Manual { path: "out".to_string(), format: ManualFormat::Markdown },
    };
    assert!(normal.validate().is_ok());
    let experimental = CallArgs {
        privileges: Privilege::Experimental,
        command: Command::Generate(GenerateCommand::Local {
            out: "o".to_string(),
            folder: "f".to_string(),
            vars: Vec::new(),
            interactive: false,
            force: false,
        }),
    };
    assert!(experimental.validate().is_ok());
}

#[test]
fn error_messages_carry_their_detail() {
    assert_eq!(Error::Argument("bad".to_string()).message(), "bad");
    assert_eq!(Error::Render("oops".to_string()).message(), "oops");
    assert_eq!(Error::UnknownCommand.message(), "unknown command");
    assert_eq!(Error::ExperimentalCommand("watch".to_string()).message(), "watch");
}
