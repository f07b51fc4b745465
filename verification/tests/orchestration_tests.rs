use hashline::cli::{Commands, PatchCmd, ReadCmd};
use hashline::orchestration::command_name;
use std::path::PathBuf;


#[test]
fn command_name_returns_read() {
    let cmd = Commands::Read(ReadCmd {
        file: PathBuf::from("demo.txt"),
        json: false,
        no_cache: false,
    });
    assert_eq!(command_name(&cmd), "read");
}

#[test]
fn command_name_returns_patch() {
    let cmd = Commands::Patch(PatchCmd {
        file: PathBuf::from("demo.txt"),
        patch: "".into(),
        dry_run: false,
        safe: false,
        json: false,
    });
    assert_eq!(command_name(&cmd), "patch");
}
