//! The command line: files or one directory to open, an explicit settings
//! file, and the check and help modes. Arguments are referred to by their
//! position, so that paths that are not Unicode reach the filesystem intact.
use vstd::prelude::*;
use vstd::string::{StrSliceExecFns, StringExecFns};

verus! {

/// What the command line asks for; paths are positions in the arguments.
pub struct Cli {
    pub paths: Vec<usize>,
    pub config_path: Option<usize>,
    pub check: bool,
    pub help: bool,
}

/// Why a command line is refused.
#[derive(Clone, Copy, Debug, PartialEq, Eq, Structural)]
pub enum CliError {
    /// `--config` requires a path.
    ConfigNeedsPath,
    /// The argument at this position is an unknown option.
    UnknownArgument(usize),
}

pub struct CliV {
    pub paths: Seq<usize>,
    pub config_path: Option<usize>,
    pub check: bool,
    pub help: bool,
}

impl Cli {
    pub open spec fn view(&self) -> CliV {
        CliV { paths: self.paths@, config_path: self.config_path, check: self.check, help: self.help }
    }
}

pub open spec fn is_arg(a: Option<String>, w: Seq<char>) -> bool {
    a matches Some(s) && s@ == w
}

/// Reading the arguments from position `i` on. `--help` or `-h` stops at
/// once; `--config` takes the next argument, whatever it is; `--` makes every
/// later argument a path; any other argument starting with `-` is refused;
/// everything else, including arguments that are not Unicode, is a path.
pub open spec fn parse_from(args: Seq<Option<String>>, i: int, cli: CliV) -> Result<CliV, CliError>
    decreases args.len() - i,
{
    if i < 0 || i >= args.len() {
        Ok(cli)
    } else if is_arg(args[i], "--help"@) || is_arg(args[i], "-h"@) {
        Ok(CliV { help: true, ..cli })
    } else if is_arg(args[i], "--config"@) {
        if i + 1 < args.len() {
            parse_from(args, i + 2, CliV { config_path: Some((i + 1) as usize), ..cli })
        } else {
            Err(CliError::ConfigNeedsPath)
        }
    } else if is_arg(args[i], "--check-config"@) {
        parse_from(args, i + 1, CliV { check: true, ..cli })
    } else if is_arg(args[i], "--"@) {
        Ok(
            CliV {
                paths: cli.paths + Seq::new((args.len() - i - 1) as nat, |k: int| (i + 1 + k) as usize),
                ..cli
            },
        )
    } else if args[i] matches Some(s) && s@.len() > 0 && s@[0] == '-' {
        Err(CliError::UnknownArgument(i as usize))
    } else {
        parse_from(args, i + 1, CliV { paths: cli.paths.push(i as usize), ..cli })
    }
}

pub open spec fn spec_parse(args: Seq<Option<String>>) -> Result<CliV, CliError> {
    parse_from(args, 0, CliV { paths: Seq::empty(), config_path: None, check: false, help: false })
}

fn arg_is(a: &Option<String>, w: &str) -> (r: bool)
    ensures
        r == is_arg(*a, w@),
{
    match a {
        Some(s) => *s == w.to_owned(),
        None => false,
    }
}

/// Read the command line; `args` holds each argument, or nothing for one
/// that is not Unicode.
pub fn parse(args: &Vec<Option<String>>) -> (r: Result<Cli, CliError>)
    requires
        args@.len() + 2 < usize::MAX,
    ensures
        match r {
            Ok(c) => spec_parse(args@) == Ok::<_, CliError>(c.view()),
            Err(e) => spec_parse(args@) == Err::<CliV, _>(e),
        },
{
    let mut cli = Cli { paths: Vec::new(), config_path: None, check: false, help: false };
    let mut i: usize = 0;
    while i < args.len()
        invariant
            i <= args@.len() + 1,
            args@.len() + 2 < usize::MAX,
            parse_from(args@, i as int, cli.view()) == spec_parse(args@),
        decreases args.len() - i,
    {
        let a = &args[i];
        if arg_is(a, "--help") || arg_is(a, "-h") {
            cli.help = true;
            return Ok(cli);
        } else if arg_is(a, "--config") {
            if i + 1 < args.len() {
                cli.config_path = Some(i + 1);
                i = i + 2;
            } else {
                return Err(CliError::ConfigNeedsPath);
            }
        } else if arg_is(a, "--check-config") {
            cli.check = true;
            i = i + 1;
        } else if arg_is(a, "--") {
            let ghost p0 = cli.paths@;
            let ghost want = CliV {
                paths: p0 + Seq::new((args@.len() - i - 1) as nat, |j: int| (i + 1 + j) as usize),
                ..cli.view()
            };
            assert(spec_parse(args@) == Ok::<_, CliError>(want));
            let mut k = i + 1;
            while k < args.len()
                invariant
                    i < k <= args@.len(),
                    spec_parse(args@) == Ok::<_, CliError>(want),
                    want == (CliV {
                        paths: p0 + Seq::new((args@.len() - i - 1) as nat, |j: int| (i + 1 + j) as usize),
                        ..cli.view()
                    }),
                    cli.paths@ == p0 + Seq::new((k - i - 1) as nat, |j: int| (i + 1 + j) as usize),
                decreases args.len() - k,
            {
                cli.paths.push(k);
                assert(cli.paths@ =~= p0 + Seq::new((k + 1 - i - 1) as nat, |j: int| (i + 1 + j) as usize));
                k += 1;
            }
            assert(cli.view() == want);
            return Ok(cli);
        } else {
            let dash = match a {
                Some(s) => {
                    let n = s.as_str().unicode_len();
                    n > 0 && s.as_str().get_char(0) == '-'
                },
                None => false,
            };
            if dash {
                return Err(CliError::UnknownArgument(i));
            }
            cli.paths.push(i);
            i = i + 1;
        }
    }
    Ok(cli)
}

/// Why the paths of a command line cannot be opened.
#[derive(Clone, Copy, Debug, PartialEq, Eq, Structural)]
pub enum StartupError {
    /// A file path must not be empty.
    EmptyPath,
    /// A directory must be opened alone, not alongside files.
    DirectoryAmongFiles,
}

/// What to do with one path of the command line.
#[derive(Clone, Copy, Debug, PartialEq, Eq, Structural)]
pub enum StartupStep {
    /// Open it as a document.
    OpenFile,
    /// Browse it: it is the only path and a directory.
    OpenDirectory,
    /// Stop with this error.
    Refuse(StartupError),
}

pub open spec fn spec_startup_step(count: nat, empty: bool, is_directory: bool) -> StartupStep {
    if empty {
        StartupStep::Refuse(StartupError::EmptyPath)
    } else if is_directory {
        if count == 1 {
            StartupStep::OpenDirectory
        } else {
            StartupStep::Refuse(StartupError::DirectoryAmongFiles)
        }
    } else {
        StartupStep::OpenFile
    }
}

/// The step for one of `count` paths, given whether it is empty and whether
/// it names a directory.
pub fn startup_step(count: usize, empty: bool, is_directory: bool) -> (r: StartupStep)
    ensures
        r == spec_startup_step(count as nat, empty, is_directory),
{
    if empty {
        StartupStep::Refuse(StartupError::EmptyPath)
    } else if is_directory {
        if count == 1 {
            StartupStep::OpenDirectory
        } else {
            StartupStep::Refuse(StartupError::DirectoryAmongFiles)
        }
    } else {
        StartupStep::OpenFile
    }
}

} // verus!
