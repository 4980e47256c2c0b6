//! The process descriptor that starts the emulator with the editor in it.
use vstd::prelude::*;
use crate::document::names_of;

verus! {

/// The window class under which the emulator runs.
pub const CLASS_NAME: &'static str = "glrnvim";

/// What to start: the program, its arguments in order, and the directory to
/// start it in where that differs from the launcher's.
#[derive(Debug, PartialEq, Eq)]
pub struct ProcessDescriptor {
    pub program: String,
    pub args: Vec<String>,
    pub working_dir: Option<String>,
}

/// The arguments for the working directory: the flag and the directory, or
/// nothing where the directory is not known.
pub open spec fn directory_args(working_dir: Option<Seq<char>>) -> Seq<Seq<char>> {
    match working_dir {
        Some(dir) => seq!["--working-directory"@, dir],
        None => Seq::empty(),
    }
}

/// The emulator's arguments: the configuration file, the window class, the
/// working directory where it is known, the editor to execute, and behind
/// the editor's name its own start-up commands for full colour and a window
/// title.
pub open spec fn command_args(
    config_path: Seq<char>,
    working_dir: Option<Seq<char>>,
    inner_command: Seq<char>,
) -> Seq<Seq<char>> {
    seq!["--config-file"@, config_path, "--class"@, CLASS_NAME@] + directory_args(working_dir)
        + seq!["-e"@, inner_command, "+set termguicolors"@, "+set title"@]
}

/// Builds the descriptor of the emulator process. It never fails: a working
/// directory that is not known only leaves its flag out.
pub fn build_command(
    exe_path: &str,
    config_path: &str,
    working_dir_hint: Option<&str>,
    inner_command: &str,
) -> (r: ProcessDescriptor)
    ensures
        r.program@ == exe_path@,
        names_of(r.args) == command_args(
            config_path@,
            match working_dir_hint {
                Some(dir) => Some(dir@),
                None => None,
            },
            inner_command@,
        ),
        r.working_dir is None,
{
    let mut args: Vec<String> = Vec::new();
    args.push(String::from_str("--config-file"));
    args.push(String::from_str(config_path));
    args.push(String::from_str("--class"));
    args.push(String::from_str(CLASS_NAME));
    match working_dir_hint {
        Some(dir) => {
            args.push(String::from_str("--working-directory"));
            args.push(String::from_str(dir));
        },
        None => {},
    }
    args.push(String::from_str("-e"));
    args.push(String::from_str(inner_command));
    args.push(String::from_str("+set termguicolors"));
    args.push(String::from_str("+set title"));
    assert(names_of(args) =~= command_args(
        config_path@,
        match working_dir_hint {
            Some(dir) => Some(dir@),
            None => None,
        },
        inner_command@,
    ));
    ProcessDescriptor { program: String::from_str(exe_path), args, working_dir: None }
}

/// The required flags are never left out: whatever is known of the working
/// directory, the arguments start with the configuration file and the window
/// class and end with the editor to execute and its start-up commands.
/// Between the two stands the working directory with its flag, or nothing.
pub proof fn lemma_required_flags(
    config_path: Seq<char>,
    working_dir: Option<Seq<char>>,
    inner_command: Seq<char>,
)
    ensures
        ({
            let args = command_args(config_path, working_dir, inner_command);
            let n = args.len() as int;
            &&& n == (if working_dir is Some {
                10int
            } else {
                8int
            })
            &&& args[0] == "--config-file"@
            &&& args[1] == config_path
            &&& args[2] == "--class"@
            &&& args[3] == CLASS_NAME@
            &&& args[n - 4] == "-e"@
            &&& args[n - 3] == inner_command
            &&& args[n - 2] == "+set termguicolors"@
            &&& args[n - 1] == "+set title"@
            &&& working_dir matches Some(dir) ==> args[4] == "--working-directory"@ && args[5]
                == dir
        }),
        command_args(config_path, None, inner_command) == seq![
            "--config-file"@,
            config_path,
            "--class"@,
            CLASS_NAME@,
            "-e"@,
            inner_command,
            "+set termguicolors"@,
            "+set title"@,
        ],
{
    let args = command_args(config_path, working_dir, inner_command);
    assert(command_args(config_path, None, inner_command) =~= seq![
        "--config-file"@,
        config_path,
        "--class"@,
        CLASS_NAME@,
        "-e"@,
        inner_command,
        "+set termguicolors"@,
        "+set title"@,
    ]);
}

} // verus!
