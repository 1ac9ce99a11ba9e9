//! The run's configuration: which operation to perform on which files, how
//! much to log, and where to write the result.
use vstd::prelude::*;

verus! {

/// The operation to perform, with the files it reads.
#[derive(Debug)]
pub enum Command {
    /// Create a dictionary from a source file, and optionally a destination file.
    CreateDict { src: String, dst: Option<String> },
    /// Merge two dictionaries.
    MergeDict { dict1: String, dict2: String },
    /// Swap the source and destination of a dictionary.
    SwapDict { dict: String },
    /// Translate a source file with a dictionary.
    Translate { src: String, dict: String },
    /// No operation was asked for.
    Unspecified,
}

/// How much to log: each level also logs what the levels before it log.
#[derive(Clone, Copy, Debug, PartialEq, Eq)]
pub enum Verbosity {
    Warn,
    Info,
    Debug,
    Trace,
}

/// The values given on the command line.
pub struct CommandLine {
    /// The values of the create option: a source file, then optionally a
    /// destination file.
    pub create_dict: Option<Vec<String>>,
    /// The values of the merge option: two dictionaries.
    pub merge_dict: Option<Vec<String>>,
    /// The values of the swap option: a dictionary.
    pub swap_dict: Option<Vec<String>>,
    /// The values of the translate option: a source file, then a dictionary.
    pub translate: Option<Vec<String>>,
    /// How many times the verbosity flag was given.
    pub verbose: u64,
    /// The file to write the result to, if any.
    pub output: Option<String>,
}

impl CommandLine {
    /// Whether each option that was given has as many values as it takes.
    pub open spec fn well_formed(&self) -> bool {
        &&& self.create_dict matches Some(v) ==> 1 <= v.len() <= 2
        &&& self.merge_dict matches Some(v) ==> v.len() == 2
        &&& self.swap_dict matches Some(v) ==> v.len() == 1
        &&& self.translate matches Some(v) ==> v.len() == 2
    }
}

/// The command that a command line asks for; the first option given, in the
/// order create, merge, swap, translate, decides.
pub open spec fn command_of(line: CommandLine) -> Command {
    if line.create_dict is Some {
        let v = line.create_dict->0@;
        Command::CreateDict {
            src: v[0],
            dst: if v.len() > 1 {
                Some(v[1])
            } else {
                None
            },
        }
    } else if line.merge_dict is Some {
        let v = line.merge_dict->0@;
        Command::MergeDict { dict1: v[0], dict2: v[1] }
    } else if line.swap_dict is Some {
        Command::SwapDict { dict: line.swap_dict->0@[0] }
    } else if line.translate is Some {
        let v = line.translate->0@;
        Command::Translate { src: v[0], dict: v[1] }
    } else {
        Command::Unspecified
    }
}

/// The verbosity for a flag given `count` times.
pub open spec fn verbosity_of(count: u64) -> Verbosity {
    if count == 0 {
        Verbosity::Warn
    } else if count == 1 {
        Verbosity::Info
    } else if count == 2 {
        Verbosity::Debug
    } else {
        Verbosity::Trace
    }
}

/// The configuration of a run.
pub struct Options {
    command: Command,
    verbosity: Verbosity,
    output: Option<String>,
}

impl Options {
    pub closed spec fn spec_command(&self) -> Command {
        self.command
    }

    pub closed spec fn spec_verbosity(&self) -> Verbosity {
        self.verbosity
    }

    pub closed spec fn spec_output(&self) -> Option<String> {
        self.output
    }

    /// The configuration that a command line asks for.
    pub fn new(line: CommandLine) -> (r: Options)
        requires
            line.well_formed(),
        ensures
            r.spec_command() == command_of(line),
            r.spec_verbosity() == verbosity_of(line.verbose),
            r.spec_output() == line.output,
    {
        let ghost l = line;
        let CommandLine { create_dict, merge_dict, swap_dict, translate, verbose, output } = line;
        let command = if let Some(mut v) = create_dict {
            let src = v.remove(0);
            let dst = if v.len() > 0 {
                Some(v.remove(0))
            } else {
                None
            };
            Command::CreateDict { src, dst }
        } else if let Some(mut v) = merge_dict {
            let dict1 = v.remove(0);
            let dict2 = v.remove(0);
            Command::MergeDict { dict1, dict2 }
        } else if let Some(mut v) = swap_dict {
            let dict = v.remove(0);
            Command::SwapDict { dict }
        } else if let Some(mut v) = translate {
            let src = v.remove(0);
            let dict = v.remove(0);
            Command::Translate { src, dict }
        } else {
            Command::Unspecified
        };
        let verbosity = if verbose == 0 {
            Verbosity::Warn
        } else if verbose == 1 {
            Verbosity::Info
        } else if verbose == 2 {
            Verbosity::Debug
        } else {
            Verbosity::Trace
        };
        Options { command, verbosity, output }
    }

    /// How much to log.
    pub fn verbosity(&self) -> (r: Verbosity)
        ensures
            r == self.spec_verbosity(),
    {
        self.verbosity
    }

    /// The operation to perform.
    pub fn command(&self) -> (r: &Command)
        ensures
            *r == self.spec_command(),
    {
        &self.command
    }

    /// The file to write the result to; standard output when `None`.
    pub fn output(&self) -> (r: Option<&str>)
        ensures
            match r {
                Some(s) => self.spec_output() matches Some(o) && s@ == o@,
                None => self.spec_output() is None,
            },
    {
        match &self.output {
            Some(p) => Some(p.as_str()),
            None => None,
        }
    }
}

} // verus!
