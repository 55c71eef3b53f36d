use vstd::prelude::*;

verus! {

/// What the program was asked to do: the file to check.
pub struct Config {
    file_path: String,
}

impl View for Config {
    type V = Seq<char>;

    closed spec fn view(&self) -> Seq<char> {
        self.file_path@
    }
}

impl Config {
    /// Reads the command line: the first argument after the program's name is
    /// the file to check; without it there is no configuration.
    pub fn build(args: Vec<String>) -> (r: Option<Config>)
        ensures
            r is Some <==> args@.len() >= 2,
            r is Some ==> r->0@ == args@[1]@,
    {
        if args.len() >= 2 {
            Some(Config { file_path: args[1].clone() })
        } else {
            None
        }
    }

    /// The file to check.
    pub fn file_path(&self) -> (r: &str)
        ensures
            r@ == self@,
    {
        self.file_path.as_str()
    }
}

} // verus!
