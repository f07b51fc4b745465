use hashline::cli::{Commands, FindBlockCmd, ReadCmd};
use hashline::context::{output_mode_for, OutputMode};
use std::path::PathBuf;


#[test]
fn uses_json_mode_when_read_json_flag() {
    let command = Commands::Read(ReadCmd {
        file: PathBuf::from("demo.txt"),
        json: true,
        no_cache: false,
    });

    assert_eq!(output_mode_for(&command), OutputMode::Json);
}

#[test]
fn uses_pretty_mode_when_json_flag_is_false() {
    let command = Commands::Read(ReadCmd {
        file: PathBuf::from("demo.txt"),
        json: false,
        no_cache: false,
    });

    assert_eq!(output_mode_for(&command), OutputMode::Pretty);
}

#[test]
fn find_block_json_mode() {
    let command = Commands::FindBlock(FindBlockCmd {
        file: PathBuf::from("demo.txt"),
        anchor: "1:aa".into(),
        json: true,
        pretty: false,
    });

    assert_eq!(output_mode_for(&command), OutputMode::Json);
}

#[test]
fn patch_defaults_to_pretty() {
    let command = Commands::Patch(hashline::cli::PatchCmd {
        file: PathBuf::from("demo.txt"),
        patch: "".into(),
        dry_run: false,
        safe: false,
        json: false,
    });

    assert_eq!(output_mode_for(&command), OutputMode::Pretty);
}

#[test]
fn serve_defaults_to_pretty() {
    let command = Commands::Serve(hashline::cli::ServeCmd {
        socket: None,
        http: None,
        detach: false,
        pid_file: None,
    });

    assert_eq!(output_mode_for(&command), OutputMode::Pretty);
}
