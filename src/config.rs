use vstd::prelude::*;

verus! {

/// The smallest threshold, in lines, that a run accepts.
pub const MIN_LINES_FLOOR: u32 = 3;

/// Command line options.
pub struct Options {
    pub lines: u32,
    pub print: bool,
    pub json: bool,
    pub file_globs: Vec<String>,
    pub ignore: String,
    pub threads: usize,
}

/// Default values for the command line options.
impl Default for Options {
    fn default() -> (r: Options)
        ensures
            r.lines == 6,
            !r.print,
            !r.json,
            r.file_globs@.len() == 0,
            r.ignore@.len() == 0,
            r.threads == 4,
    {
        Options {
            lines: 6,
            print: false,
            json: false,
            file_globs: Vec::new(),
            ignore: String::new(),
            threads: 4,
        }
    }
}

impl Options {
    /// Whether the threshold is large enough for a run.
    pub fn lines_valid(&self) -> (r: bool)
        ensures
            r == (self.lines >= MIN_LINES_FLOOR),
    {
        self.lines >= MIN_LINES_FLOOR
    }
}

} // verus!
