//! What to launch for a job, and how the way its process ended is read.
use vstd::prelude::*;
use crate::classify::{chars_of, command_judge, command_kind, split_on, split_spaces, CommandType};

verus! {

/// How the way a job's process ended is read.
#[derive(Clone, Copy, Debug, PartialEq, Eq, Structural)]
pub enum ExecutorExitCode {
    /// The process exited with code 0.
    Success,
    /// The program reported an error: exit code 1.
    Error,
    /// The user interrupted it: signal 2, or exit code 2.
    Cancel,
    /// Any other ending, a failed spawn, or none that could be read.
    Unknown,
}

/// Where the launcher of a job comes from.
#[derive(Clone, Copy, Debug, PartialEq, Eq, Structural)]
pub enum Launch {
    /// The executor given with the job, used as it stands.
    Override,
    /// A `bash` found on the search path.
    Bash,
    /// A `python3` found on the search path.
    Python3,
    /// The command's own first token.
    Direct,
}

/// The text that marks a job without an executor of its own.
pub open spec fn is_no_executor(e: Seq<char>) -> bool {
    e == seq!['n', 'u', 'l', 'l']
}

/// Where the launcher comes from for a command and its executor field.
pub open spec fn launch_of(command: Seq<char>, executor: Seq<char>) -> Launch {
    if !is_no_executor(executor) {
        Launch::Override
    } else {
        match command_kind(command) {
            CommandType::Shell => Launch::Bash,
            CommandType::Python => Launch::Python3,
            _ => Launch::Direct,
        }
    }
}

/// The launcher, given what the search path gave for an interpreter.
pub open spec fn launcher_of(command: Seq<char>, executor: Seq<char>, located: Seq<char>) -> Seq<
    char,
> {
    match launch_of(command, executor) {
        Launch::Override => executor,
        Launch::Bash | Launch::Python3 => located,
        Launch::Direct => split_spaces(command)[0],
    }
}

/// The program and its arguments: the launcher is put before the command's
/// tokens unless it is the command's first token itself.
pub open spec fn argv_of(command: Seq<char>, executor: Seq<char>, located: Seq<char>) -> Seq<
    Seq<char>,
> {
    let ts = split_spaces(command);
    let l = launcher_of(command, executor, located);
    if l != ts[0] {
        seq![l] + ts
    } else {
        ts
    }
}

/// The texts of a sequence of strings.
pub open spec fn texts(v: Seq<String>) -> Seq<Seq<char>> {
    v.map_values(|s: String| s@)
}

/// How a process's ending is read: exit code 0 is success, 1 a program
/// error, 2 or (without a code) signal 2 a cancel by the user, and anything
/// else unknown.
pub open spec fn outcome_of(code: Option<i32>, signal: Option<i32>) -> ExecutorExitCode {
    match code {
        Some(c) => if c == 0 {
            ExecutorExitCode::Success
        } else if c == 1 {
            ExecutorExitCode::Error
        } else if c == 2 {
            ExecutorExitCode::Cancel
        } else {
            ExecutorExitCode::Unknown
        },
        None => if signal == Some(2i32) {
            ExecutorExitCode::Cancel
        } else {
            ExecutorExitCode::Unknown
        },
    }
}

/// Reads how a job's process ended from its exit code, or, where it has none,
/// the signal that ended it. A process that could not be spawned has neither.
pub fn exit_outcome(code: Option<i32>, signal: Option<i32>) -> (r: ExecutorExitCode)
    ensures
        r == outcome_of(code, signal),
{
    match code {
        Some(c) => if c == 0 {
            ExecutorExitCode::Success
        } else if c == 1 {
            ExecutorExitCode::Error
        } else if c == 2 {
            ExecutorExitCode::Cancel
        } else {
            ExecutorExitCode::Unknown
        },
        None => match signal {
            Some(s) => if s == 2 {
                ExecutorExitCode::Cancel
            } else {
                ExecutorExitCode::Unknown
            },
            None => ExecutorExitCode::Unknown,
        },
    }
}

/// The tokens of a command split at each space, as `str::split(" ")` gives
/// them.
pub fn split_command(command: &str) -> (r: Vec<String>)
    ensures
        texts(r@) == split_spaces(command@),
{
    split_text(command, ' ')
}

/// The parts of a text split at each `sep`, as `str::split` gives them.
pub fn split_text(command: &str, sep: char) -> (r: Vec<String>)
    ensures
        texts(r@) == split_on(command@, sep),
{
    let cs = chars_of(command);
    let n = cs.len();
    let mut r: Vec<String> = Vec::new();
    let mut start: usize = 0;
    let mut i: usize = 0;
    proof {
        assert(cs@.subrange(0, 0) =~= Seq::<char>::empty());
    }
    while i < n
        invariant
            n == cs@.len(),
            cs@ == command@,
            0 <= start <= i <= n,
            split_on(cs@.subrange(0, i as int), sep).last() == cs@.subrange(
                start as int,
                i as int,
            ),
            split_on(cs@.subrange(0, i as int), sep).len() >= 1,
            texts(r@) == split_on(cs@.subrange(0, i as int), sep).drop_last(),
        decreases n - i,
    {
        let ghost prev = cs@.subrange(0, i as int);
        let ghost sp = split_on(prev, sep);
        let ghost next = cs@.subrange(0, i + 1);
        assert(next.drop_last() =~= prev);
        assert(next.last() == cs@[i as int]);
        if cs[i] == sep {
            let tok = command.substring_char(start, i).to_owned();
            let ghost prev_r = r@;
            r.push(tok);
            proof {
                assert(command@.subrange(start as int, i as int) == cs@.subrange(
                    start as int,
                    i as int,
                ));
                assert(texts(r@) =~= texts(prev_r).push(tok@));
                assert(sp.drop_last().push(sp.last()) =~= sp);
                assert(split_on(next, sep).drop_last() == sp);
                assert(cs@.subrange(i + 1, i + 1) =~= Seq::<char>::empty());
            }
            start = i + 1;
        } else {
            proof {
                assert(split_on(next, sep).drop_last() =~= sp.drop_last());
                assert(cs@.subrange(start as int, i + 1) =~= cs@.subrange(
                    start as int,
                    i as int,
                ).push(cs@[i as int]));
            }
        }
        i = i + 1;
    }
    let ghost sp = split_on(cs@.subrange(0, n as int), sep);
    assert(cs@.subrange(0, n as int) =~= cs@);
    let tok = command.substring_char(start, n).to_owned();
    let ghost prev_r = r@;
    r.push(tok);
    proof {
        assert(command@.subrange(start as int, n as int) == cs@.subrange(start as int, n as int));
        assert(texts(r@) =~= texts(prev_r).push(tok@));
        assert(sp.drop_last().push(sp.last()) =~= sp);
    }
    r
}

/// Whether an executor field marks a job without an executor of its own.
pub(crate) fn no_executor(e: &str) -> (r: bool)
    ensures
        r == is_no_executor(e@),
{
    let cs = chars_of(e);
    let r = cs.len() == 4 && cs[0] == 'n' && cs[1] == 'u' && cs[2] == 'l' && cs[3] == 'l';
    proof {
        if r {
            assert(e@ =~= seq!['n', 'u', 'l', 'l']);
        }
    }
    r
}

/// A job's command with the executor given for it (`null` when none was).
pub struct Executor {
    pub command: String,
    pub executor: String,
}

impl Executor {
    pub fn new(command: &str, executor: &str) -> (r: Executor)
        ensures
            r.command@ == command@,
            r.executor@ == executor@,
    {
        let command = command.to_owned();
        let executor = executor.to_owned();
        Executor { command, executor }
    }

    /// Where the launcher comes from: the executor given with the job if
    /// there is one; else `bash` for a shell script, `python3` for a Python
    /// script, and the command itself for anything else.
    pub fn launch(&self) -> (r: Launch)
        ensures
            r == launch_of(self.command@, self.executor@),
    {
        if !no_executor(self.executor.as_str()) {
            Launch::Override
        } else {
            match command_judge(self.command.as_str()) {
                CommandType::Shell => Launch::Bash,
                CommandType::Python => Launch::Python3,
                _ => Launch::Direct,
            }
        }
    }

    /// The program to spawn and its arguments. `located` is what the search
    /// path gave for the interpreter that `launch` names; it is not read for
    /// the other launches. The launcher is followed by the command's first
    /// token and the remaining tokens, or, where the launcher is that first
    /// token itself, the tokens alone.
    pub fn argv(&self, located: &str) -> (r: Vec<String>)
        ensures
            texts(r@) == argv_of(self.command@, self.executor@, located@),
    {
        let tokens = split_command(self.command.as_str());
        proof {
            crate::classify::lemma_split_nonempty(self.command@, ' ');
        }
        let launcher: String = match self.launch() {
            Launch::Override => self.executor.clone(),
            Launch::Bash | Launch::Python3 => located.to_owned(),
            Launch::Direct => tokens[0].clone(),
        };
        assert(tokens@[0]@ == split_spaces(self.command@)[0]);
        if launcher != tokens[0] {
            let mut r: Vec<String> = Vec::new();
            r.push(launcher);
            let mut i: usize = 0;
            while i < tokens.len()
                invariant
                    0 <= i <= tokens@.len(),
                    r@.len() == i + 1,
                    texts(r@) == seq![launcher_of(self.command@, self.executor@, located@)]
                        + texts(tokens@).subrange(0, i as int),
                decreases tokens@.len() - i,
            {
                let ghost prev = r@;
                let t = tokens[i].clone();
                r.push(t);
                assert(r@ == prev.push(t));
                assert(t@ == texts(tokens@)[i as int]);
                assert(texts(r@) =~= texts(prev).push(t@));
                assert(texts(r@) =~= seq![launcher_of(self.command@, self.executor@, located@)]
                    + texts(tokens@).subrange(0, i + 1));
                i = i + 1;
            }
            assert(texts(tokens@).subrange(0, tokens@.len() as int) =~= texts(tokens@));
            r
        } else {
            tokens
        }
    }
}

} // verus!
