//! The command surface: what the user asked for, as plain values.
use vstd::prelude::*;
use vstd::string::StrSliceExecFns;

verus! {

/// The whole invocation.
#[derive(Clone, Debug)]
pub struct App {
    pub command: Commands,
}

/// The two subcommands.
#[derive(Clone, Debug)]
pub enum Commands {
    /// Record stats.
    Record(Record),
    /// Plot stats.
    Plot(Plot),
}

/// Options of `record`.
#[derive(Clone, Debug)]
pub struct Record {
    /// Command to run; without one the whole host is sampled.
    pub cmd: Option<String>,
    /// Arguments of the command.
    pub args: Vec<String>,
    /// Only report this network interface.
    pub network_interface: Option<String>,
}

/// Options of `plot`.
#[derive(Clone, Debug)]
pub struct Plot {
    /// Where the recorded series are.
    pub source: SourceGroup,
    /// Lines that any of these regular expressions matches are left out.
    pub filter: Vec<String>,
    /// Plot the cumulative distribution function of each metric.
    pub cdf: bool,
    /// Plot each metric over time.
    pub graph: bool,
}

/// A file or a directory: exactly one of the two is given.
#[derive(Clone, Debug)]
pub struct SourceGroup {
    /// File path.
    pub file: Option<String>,
    /// Directory path.
    pub dir: Option<String>,
}

/// The input of `plot`, borrowed from its options.
pub enum Source<'a> {
    File(&'a str),
    Dir(&'a str),
}

impl SourceGroup {
    /// Exactly one of `file` and `dir` is given.
    pub open spec fn has_one(&self) -> bool {
        self.file.is_some() != self.dir.is_some()
    }

    /// The one source that was given.
    pub fn get_one(&self) -> (r: Source<'_>)
        requires
            self.has_one(),
        ensures
            self.dir matches Some(d) ==> r matches Source::Dir(p) && p@ == d@,
            self.file matches Some(f) ==> r matches Source::File(p) && p@ == f@,
    {
        match &self.dir {
            Some(dir) => Source::Dir(dir.as_str()),
            None => match &self.file {
                Some(file) => Source::File(file.as_str()),
                None => {
                    assert(false);
                    Source::File("")
                },
            },
        }
    }
}

impl<'a> Source<'a> {
    /// The path of this source.
    pub open spec fn path(&self) -> Seq<char> {
        match self {
            Source::File(f) => f@,
            Source::Dir(d) => d@,
        }
    }

    /// The path, as text to show.
    pub fn display(&self) -> (r: String)
        ensures
            r@ == self.path(),
    {
        match self {
            Source::File(f) => (*f).to_owned(),
            Source::Dir(d) => (*d).to_owned(),
        }
    }
}

/// A directory entry whose name starts with a dot is hidden.
pub fn is_hidden(name: &str) -> (r: bool)
    ensures
        r == (name@.len() > 0 && name@[0] == '.'),
{
    name.unicode_len() > 0 && name.get_char(0) == '.'
}

} // verus!
