use unnix::cli::{Command, EnvArgs, InitArgs, PrintArgs, PrintCommand, Step};

#[test]
fn command_steps() {
    assert_eq!(Command::Lock.steps(), vec![Step::Lock { refresh: false }]);
    assert_eq!(Command::Update.steps(), vec![Step::Lock { refresh: true }]);
    assert_eq!(Command::Cache.steps(), vec![Step::Lock { refresh: false }, Step::Pull]);
    assert_eq!(
        Command::Env(EnvArgs { command: None }).steps(),
        vec![Step::Lock { refresh: false }, Step::Pull, Step::Launch]
    );
    assert_eq!(
        Command::Print(PrintArgs { command: PrintCommand::Env }).steps(),
        vec![Step::Lock { refresh: false }, Step::Pull, Step::Print]
    );
    assert_eq!(
        Command::Init(InitArgs { packages: vec![], systems: vec![] }).steps(),
        vec![Step::Init]
    );
}
