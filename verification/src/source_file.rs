//! The primary input: its delimiter and the projection of its columns
//! that survives into each output line.

use crate::helpers::ConfigError;
use crate::helpers::lemma_parsed_ranges_wf;
use crate::helpers::match_ranges;
use crate::helpers::match_ranges_spec;
use crate::helpers::ranges_wf;
use crate::rows::split_spec;
use vstd::prelude::*;

verus! {

/// The source file's configuration: all columns outside the configured
/// match ranges are dropped from the output, not merely reordered.
pub struct SourceFile {
    pub filename: String,
    pub delimiter: char,
    pub target_match_ranges: Vec<(u32, u32)>,
}

impl SourceFile {
    /// Well-formedness: the projection intervals are ordered pairs.
    pub open spec fn inv(&self) -> bool {
        ranges_wf(self.target_match_ranges@)
    }

    /// Configure the source file, parsing its projection expression; a
    /// malformed expression is a fatal configuration error.
    pub fn new(filename: String, delimiter: char, target_match_ranges: String) -> (r: Result<
        SourceFile,
        ConfigError,
    >)
        ensures
            match r {
                Ok(s) => {
                    &&& s.inv()
                    &&& s.filename@ == filename@
                    &&& s.delimiter == delimiter
                    &&& match_ranges_spec(target_match_ranges@) == Ok::<
                        Seq<(u32, u32)>,
                        ConfigError,
                    >(s.target_match_ranges@)
                },
                Err(e) => match_ranges_spec(target_match_ranges@) == Err::<
                    Seq<(u32, u32)>,
                    ConfigError,
                >(e),
            },
    {
        let ranges = match match_ranges(target_match_ranges.as_str()) {
            Ok(v) => v,
            Err(e) => {
                return Err(e);
            },
        };
        proof {
            lemma_parsed_ranges_wf(split_spec(target_match_ranges@, ','), 0, ranges@);
        }
        Ok(SourceFile { filename, delimiter, target_match_ranges: ranges })
    }
}

} // verus!
