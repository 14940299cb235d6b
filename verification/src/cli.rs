//! What the command line tool answers: its exit codes and its warnings.

use crate::lexer::unicode::chars_vec;
use crate::text::{same_text, text};
use vstd::prelude::*;
use vstd::string::*;

verus! {

/// The tool did what it was asked.
pub const EXIT_OK: i32 = 0;

/// The source was refused.
pub const EXIT_COMPILE: i32 = 1;

/// The linker failed.
pub const EXIT_LINK: i32 = 2;

/// A file could not be read or written.
pub const EXIT_IO: i32 = 3;

/// The compiler itself failed.
pub const EXIT_ICE: i32 = 4;

/// Does `part` stand in `s` at `i`?
pub open spec fn stands_at(s: Seq<char>, part: Seq<char>, i: int) -> bool {
    0 <= i && i + part.len() <= s.len() && s.subrange(i, i + part.len()) == part
}

/// Does `part` stand anywhere in `s`?
pub open spec fn mentions(s: Seq<char>, part: Seq<char>) -> bool {
    exists|i: int| stands_at(s, part, i)
}

/// Is a message about a file that could not be read or written?
pub open spec fn is_io_message(msg: Seq<char>) -> bool {
    mentions(msg, "cannot read"@) || mentions(msg, "cannot write"@) || mentions(
        msg,
        "No such file"@,
    ) || mentions(msg, "cannot open"@)
}

/// Is a message about the linker?
pub open spec fn is_link_message(msg: Seq<char>) -> bool {
    mentions(msg, "linker failed"@) || mentions(msg, "ld:"@)
}

/// Which of three codes a message stands for.
pub open spec fn message_code(msg: Seq<char>, compile: i32, link: i32, io: i32) -> i32 {
    if is_io_message(msg) {
        io
    } else if is_link_message(msg) {
        link
    } else {
        compile
    }
}

fn part_at(s: &Vec<char>, part: &Vec<char>, i: usize) -> (r: bool)
    requires
        i + part@.len() <= s@.len(),
    ensures
        r == stands_at(s@, part@, i as int),
{
    let n: usize = s.len();
    let mut k: usize = 0;
    while k < part.len()
        invariant
            k <= part@.len(),
            n == s@.len(),
            i + part@.len() <= s@.len(),
            forall|j: int| 0 <= j < k ==> s@[i + j] == #[trigger] part@[j],
        decreases part@.len() - k,
    {
        if s[i + k] != part[k] {
            proof {
                assert(s@.subrange(i as int, i + part@.len())[k as int] != part@[k as int]);
            }
            return false;
        }
        k = k + 1;
    }
    proof {
        assert(s@.subrange(i as int, i + part@.len()) =~= part@);
    }
    true
}

fn contains_text(s: &Vec<char>, part: &str) -> (r: bool)
    ensures
        r == mentions(s@, part@),
{
    let p = chars_vec(part);
    if p.len() > s.len() {
        return false;
    }
    let last: usize = s.len() - p.len();
    let mut i: usize = 0;
    while i <= last
        invariant
            p@ == part@,
            i <= last + 1,
            last + p@.len() == s@.len(),
            last < usize::MAX || p@.len() == 0,
            forall|k: int| 0 <= k < i ==> !#[trigger] stands_at(s@, part@, k),
        decreases last + 1 - i,
    {
        if part_at(s, &p, i) {
            return true;
        }
        if i == last {
            proof {
                assert forall|k: int| !#[trigger] stands_at(s@, part@, k) by {}
            }
            return false;
        }
        i = i + 1;
    }
    false
}

/// Which of three codes a message stands for.
pub fn classify_compile_error(msg: &str, compile: i32, link: i32, io: i32) -> (r: i32)
    ensures
        r == message_code(msg@, compile, link, io),
{
    let s = chars_vec(msg);
    if contains_text(&s, "cannot read") || contains_text(&s, "cannot write") || contains_text(
        &s,
        "No such file",
    ) || contains_text(&s, "cannot open") {
        io
    } else if contains_text(&s, "linker failed") || contains_text(&s, "ld:") {
        link
    } else {
        compile
    }
}

/// How a run of the tool came out.
pub enum CliOutcome {
    /// There was nothing to do, or only information was asked for.
    Information,
    /// The arguments were refused, with a message.
    BadArguments(String),
    /// Warnings were given, and count as errors.
    WarningsRefused,
    /// The source was compiled.
    Compiled,
    /// The source was not compiled, with a message.
    Failed(String),
    /// The compiler failed.
    Crashed,
}

/// The exit code of a run.
pub open spec fn outcome_code(o: CliOutcome) -> i32 {
    match o {
        CliOutcome::Information => EXIT_OK,
        CliOutcome::BadArguments(msg) => if msg@ == "no input file"@ {
            EXIT_OK
        } else {
            message_code(msg@, EXIT_COMPILE, EXIT_LINK, EXIT_IO)
        },
        CliOutcome::WarningsRefused => EXIT_COMPILE,
        CliOutcome::Compiled => EXIT_OK,
        CliOutcome::Failed(msg) => message_code(msg@, EXIT_COMPILE, EXIT_LINK, EXIT_IO),
        CliOutcome::Crashed => EXIT_ICE,
    }
}

/// The exit code of a run.
pub fn exit_code(o: &CliOutcome) -> (r: i32)
    ensures
        r == outcome_code(*o),
{
    match o {
        CliOutcome::Information => EXIT_OK,
        CliOutcome::BadArguments(msg) => if same_text(msg.as_str(), "no input file") {
            EXIT_OK
        } else {
            classify_compile_error(msg.as_str(), EXIT_COMPILE, EXIT_LINK, EXIT_IO)
        },
        CliOutcome::WarningsRefused => EXIT_COMPILE,
        CliOutcome::Compiled => EXIT_OK,
        CliOutcome::Failed(msg) => {
            classify_compile_error(msg.as_str(), EXIT_COMPILE, EXIT_LINK, EXIT_IO)
        },
        CliOutcome::Crashed => EXIT_ICE,
    }
}

/// A warning as it is printed.
pub open spec fn warning_line(program: Seq<char>, warning: Seq<char>, as_error: bool) -> Seq<char> {
    program + ": "@ + (if as_error {
        "error"@
    } else {
        "warning"@
    }) + ": "@ + warning
}

/// The warnings about the arguments as they are printed, and whether they end
/// the run.
pub fn cli_warning_lines(program: &str, warnings: &Vec<String>, warn_as_error: bool) -> (r: (
    Vec<String>,
    bool,
))
    ensures
        (r.0)@.len() == warnings@.len(),
        forall|i: int|
            0 <= i < warnings@.len() ==> (#[trigger] (r.0)@[i])@ == warning_line(
                program@,
                warnings@[i]@,
                warn_as_error,
            ),
        r.1 == (warnings@.len() > 0 && warn_as_error),
{
    let mut out: Vec<String> = Vec::new();
    let mut i: usize = 0;
    while i < warnings.len()
        invariant
            i <= warnings@.len(),
            out@.len() == i,
            forall|k: int|
                0 <= k < i ==> (#[trigger] out@[k])@ == warning_line(
                    program@,
                    warnings@[k]@,
                    warn_as_error,
                ),
        decreases warnings@.len() - i,
    {
        let mut line: String = text(program);
        line.append(": ");
        line.append(
            if warn_as_error {
                "error"
            } else {
                "warning"
            },
        );
        line.append(": ");
        line.append(warnings[i].as_str());
        proof {
            assert(line@ =~= warning_line(program@, warnings@[i as int]@, warn_as_error));
        }
        out.push(line);
        i = i + 1;
    }
    (out, warnings.len() > 0 && warn_as_error)
}

/// The exit code tells how a run ended: zero where it did what was asked, and a
/// code of its own for each way to fail. A message that a file could not be read
/// or written goes before one about the linker.
pub proof fn exit_codes_tell_how_a_run_ended(o: CliOutcome)
    ensures
        outcome_code(o) == 0 <==> (o is Information || o is Compiled || (o matches CliOutcome::BadArguments(
            msg,
        ) && msg@ == "no input file"@)),
        outcome_code(o) == 4 <==> o is Crashed,
        o is WarningsRefused ==> outcome_code(o) == 1,
        o matches CliOutcome::Failed(msg) ==> {
            let io = mentions(msg@, "cannot read"@) || mentions(msg@, "cannot write"@) || mentions(
                msg@,
                "cannot open"@,
            ) || mentions(msg@, "No such file"@);
            let link = mentions(msg@, "ld:"@) || mentions(msg@, "linker failed"@);
            &&& outcome_code(o) == 3 <==> io
            &&& outcome_code(o) == 2 <==> link && !io
            &&& outcome_code(o) == 1 <==> !link && !io
        },
{
}

} // verus!
