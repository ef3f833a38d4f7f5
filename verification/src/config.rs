//! The run's configuration, taken from the command line.

use vstd::prelude::*;
use vstd::string::StringExecFns;

verus! {

/// Where to read the standard's documents, where to write the dictionary,
/// and which header template to use (empty: the built-in one).
#[derive(Clone, Debug, PartialEq, Eq)]
pub struct Configuration {
    pub input_dir_path: String,
    pub output_file_path: String,
    pub header_file_path: String,
}

impl Configuration {
    /// Whether the run uses the built-in header template: whether no header
    /// file was named.
    pub fn uses_builtin_header(&self) -> (builtin: bool)
        ensures
            builtin == (self.header_file_path@.len() == 0),
    {
        self.header_file_path.as_str().is_empty()
    }

    /// Reads the configuration from the program's arguments, the program's
    /// own name first: the input directory, the output file and, if given,
    /// the header file. Fewer than two arguments behind the name are an
    /// error.
    pub fn new(args: &[String]) -> (config: Result<Configuration, String>)
        ensures
            match config {
                Ok(c) => {
                    &&& args@.len() >= 3
                    &&& c.input_dir_path@ == args@[1]@
                    &&& c.output_file_path@ == args@[2]@
                    &&& c.header_file_path@ == if args@.len() > 3 {
                        args@[3]@
                    } else {
                        Seq::<char>::empty()
                    }
                },
                Err(message) => args@.len() < 3 && message@ == "Not enough arguments"@,
            },
    {
        let argc = args.len();
        if argc < 3 {
            return Err(String::from_str("Not enough arguments"));
        }
        Ok(
            Configuration {
                input_dir_path: args[1].clone(),
                output_file_path: args[2].clone(),
                header_file_path: if argc > 3 {
                    args[3].clone()
                } else {
                    String::new()
                },
            },
        )
    }
}

} // verus!
