//! Per-file orchestration decisions.
//!
//! Reading a file, parsing it and writing the artifact are the callers'
//! business; the decisions live here: which files are candidates, what a
//! parse outcome yields (an artifact exactly when parsing succeeded — no
//! partial output for a failed file), and where the artifact goes.

use vstd::prelude::*;

use crate::json::{artifact_json, render_artifact};
use crate::markup::{collect, unit_texts, SourceUnit};
use vstd::string::StringExecFns;

verus! {

/// Why one file yields no artifact.  A failure concerns that file alone:
/// processing of other files goes on regardless.
#[derive(Debug)]
pub enum ExtractionError {
    /// The parser could not produce a tree for the file's content.
    ParseFailure { message: String },
    /// The file's content could not be read.
    UnreadableFile { message: String },
    /// The artifact could not be written beside the file.
    UnwritableOutput { message: String },
}

/// File-scoped orchestration: a successfully parsed unit yields exactly the
/// JSON artifact of its extracted text; a failed parse yields its error
/// unchanged and no artifact at all.
pub fn artifact_for(parsed: Result<SourceUnit, ExtractionError>) -> (r: Result<
    String,
    ExtractionError,
>)
    ensures
        (parsed matches Ok(unit) ==> r matches Ok(j) && j@ == artifact_json(unit_texts(unit))),
        (parsed matches Err(e) ==> r == Result::<String, ExtractionError>::Err(e)),
{
    match parsed {
        Ok(unit) => {
            let texts = collect(&unit);
            Ok(render_artifact(&texts))
        },
        Err(e) => Err(e),
    }
}

/// The artifact path derived from a source path: the path with `.json`
/// appended, so the artifact sits beside its source file.
pub fn output_path(path: &str) -> (r: String)
    ensures
        r@ == path@ + ".json"@,
{
    let mut r = String::from_str(path);
    r.append(".json");
    r
}

/// A path is a candidate for extraction when it ends in `.tsx`.
pub open spec fn has_tsx_extension(s: Seq<char>) -> bool {
    s.len() >= 4 && s.subrange(s.len() - 4, s.len() as int) == seq!['.', 't', 's', 'x']
}

/// Whether a file path names a candidate source file.
pub fn is_candidate_path(path: &str) -> (r: bool)
    ensures
        r == has_tsx_extension(path@),
{
    let n = path.unicode_len();
    if n < 4 {
        return false;
    }
    let c0 = path.get_char(n - 4);
    let c1 = path.get_char(n - 3);
    let c2 = path.get_char(n - 2);
    let c3 = path.get_char(n - 1);
    let r = c0 == '.' && c1 == 't' && c2 == 's' && c3 == 'x';
    proof {
        let s = path@;
        let t = s.subrange(s.len() - 4, s.len() as int);
        assert(t[0] == s[s.len() - 4]);
        assert(t[1] == s[s.len() - 3]);
        assert(t[2] == s[s.len() - 2]);
        assert(t[3] == s[s.len() - 1]);
        if r {
            assert(t =~= seq!['.', 't', 's', 'x']);
        }
    }
    r
}

} // verus!
