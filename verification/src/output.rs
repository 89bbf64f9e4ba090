//! The output-format vocabulary of the command-line surface.
//!
//! Rendering itself (CSV rows, JSON arrays) is a collaborator outside this
//! library; here lives only the recognized vocabulary and its parser, which
//! must reject an unrecognized format name eagerly, before any scanning.

use vstd::prelude::*;

verus! {

/// The recognized output formats.
#[derive(Clone, Copy, PartialEq, Eq, Structural, Debug)]
pub enum OutputType {
    CSV,
    JSON,
}

/// Returned when a string names no recognized output format.
#[derive(Clone, Copy, PartialEq, Eq, Structural, Debug)]
pub struct ParseOutputTypeError;

impl ParseOutputTypeError {
    /// The diagnostic text for this error.
    pub fn message(&self) -> (m: &'static str)
        ensures
            m@ == "provided string did not match any OutputType variant"@,
    {
        "provided string did not match any OutputType variant"
    }
}

impl OutputType {
    /// Parses a format name: exactly `"CSV"` and `"JSON"` are recognized,
    /// anything else is rejected.
    pub fn from_str(s: &str) -> (r: Result<OutputType, ParseOutputTypeError>)
        ensures
            r == Ok::<OutputType, ParseOutputTypeError>(OutputType::CSV) <==> s@ == "CSV"@,
            r == Ok::<OutputType, ParseOutputTypeError>(OutputType::JSON) <==> s@ == "JSON"@,
            r is Err <==> s@ != "CSV"@ && s@ != "JSON"@,
    {
        proof {
            reveal_strlit("CSV");
            reveal_strlit("JSON");
        }
        let n = s.unicode_len();
        if n == 3 && s.get_char(0) == 'C' && s.get_char(1) == 'S' && s.get_char(2) == 'V' {
            proof {
                assert(s@ =~= "CSV"@);
            }
            Ok(OutputType::CSV)
        } else if n == 4 && s.get_char(0) == 'J' && s.get_char(1) == 'S' && s.get_char(2) == 'O'
            && s.get_char(3) == 'N' {
            proof {
                assert(s@ =~= "JSON"@);
            }
            Ok(OutputType::JSON)
        } else {
            proof {
                assert(s@ != "CSV"@) by {
                    if s@ == "CSV"@ {
                        assert(s@.len() == 3);
                    }
                }
                assert(s@ != "JSON"@) by {
                    if s@ == "JSON"@ {
                        assert(s@.len() == 4);
                    }
                }
            }
            Err(ParseOutputTypeError)
        }
    }
}

} // verus!
