//! A plain reading of the command line: a command word and its flags, taken
//! apart without a parser library.
use crate::text::chars_of;
use vstd::prelude::*;

verus! {

#[derive(Debug, Clone, Copy, PartialEq, Eq, Structural)]
pub enum Command {
    Check,
    Publish { dry_run: bool },
}

#[derive(Debug, PartialEq, Eq)]
pub struct CliError {
    message: String,
}

impl View for CliError {
    type V = Seq<char>;

    closed spec fn view(&self) -> Seq<char> {
        self.message@
    }
}

impl CliError {
    pub(crate) fn new(message: String) -> (r: Self)
        ensures
            r@ == message@,
    {
        CliError { message }
    }

    /// The message of the error.
    pub fn message(&self) -> (r: String)
        ensures
            r@ == self@,
    {
        self.message.clone()
    }
}

pub open spec fn args_view(args: Seq<&str>) -> Seq<Seq<char>> {
    args.map_values(|a: &str| a@)
}

/// What `parse_command` makes of the arguments: `check` alone, or `publish`
/// followed by anything, `--dry-run` among it setting the flag.
pub open spec fn command_of(args: Seq<Seq<char>>) -> Result<Command, Seq<char>> {
    if args.len() == 1 && args[0] == "check"@ {
        Ok(Command::Check)
    } else if args.len() >= 1 && args[0] == "publish"@ {
        Ok(
            Command::Publish {
                dry_run: exists|k: int| 1 <= k < args.len() && args[k] == "--dry-run"@,
            },
        )
    } else if args.len() == 0 {
        Err("missing command: expected `check` or `publish`"@)
    } else {
        Err("unknown command or arguments: `"@ + args[0] + "`"@)
    }
}

fn same_text(a: &str, b: &str) -> (r: bool)
    ensures
        r == (a@ == b@),
{
    let x = chars_of(a);
    let y = chars_of(b);
    crate::text::chars_eq(&x, &y)
}

/// Reads the command from the arguments that follow the program name.
pub fn parse_command(args: &[&str]) -> (r: Result<Command, CliError>)
    ensures
        match command_of(args_view(args@)) {
            Ok(c) => r == Ok::<Command, CliError>(c),
            Err(m) => r matches Err(e) && e@ == m,
        },
{
    let ghost a = args_view(args@);
    if args.len() == 1 && same_text(args[0], "check") {
        return Ok(Command::Check);
    }
    if args.len() >= 1 && same_text(args[0], "publish") {
        let mut dry_run = false;
        let mut k: usize = 1;
        while k < args.len()
            invariant
                1 <= k <= args.len(),
                a == args_view(args@),
                dry_run == exists|j: int| 1 <= j < k && a[j] == "--dry-run"@,
            decreases args.len() - k,
        {
            if same_text(args[k], "--dry-run") {
                dry_run = true;
            }
            proof {
                assert(a[k as int] == args@[k as int]@);
            }
            k = k + 1;
        }
        proof {
            assert(a[0] == args@[0]@);
        }
        return Ok(Command::Publish { dry_run });
    }
    proof {
        if args.len() >= 1 {
            assert(a[0] == args@[0]@);
        }
    }
    if args.len() == 0 {
        return Err(CliError::new("missing command: expected `check` or `publish`".to_owned()));
    }
    let mut message = String::new();
    message.append("unknown command or arguments: `");
    message.append(args[0]);
    message.append("`");
    Err(CliError::new(message))
}

} // verus!
