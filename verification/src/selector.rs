//! The folder-selection session: the folder listing and the accumulated
//! operator hints are turned into a classifier prompt, the classifier's
//! reply is parsed into the current target list, and the operator either
//! confirms the selection or adds hints for another round.  A reply that
//! cannot be parsed is fatal to the run.

use vstd::prelude::*;

use crate::text::{ci_equal, contains_seq, eq_ignore_case, range_contains, trim_spec, trim_str};
use crate::tree::strs_model;

verus! {

/// The classifier prompt: instructions, the folder listing, and the
/// operator's accumulated hints.
pub open spec fn folder_prompt_spec(folders: Seq<char>, extra: Seq<char>) -> Seq<char> {
    "Review the following folder names and filter out those likely to hold user-written source code. Return only a JSON object with the single key 'analysis_key', whose value is the array of folder names that qualify:\n"@
        + folders + "\n"@ + extra
}

pub fn folder_analysis_prompt(folders: &str, extra: &str) -> (r: String)
    ensures
        r@ == folder_prompt_spec(folders@, extra@),
{
    let mut s =
        "Review the following folder names and filter out those likely to hold user-written source code. Return only a JSON object with the single key 'analysis_key', whose value is the array of folder names that qualify:\n".to_owned();
    s.append(folders);
    s.append("\n");
    s.append(extra);
    s
}

/// The marker that the extracted object must contain.
pub open spec fn key_marker() -> Seq<char> {
    "\"analysis_key\":"@
}

/// A brace-delimited span at `i..=j` with no inner braces that mentions
/// the analysis key.
pub open spec fn block_at(s: Seq<char>, i: int, j: int) -> bool {
    &&& 0 <= i < j < s.len()
    &&& s[i] == '{'
    &&& s[j] == '}'
    &&& (forall|k: int| i < k < j ==> s[k] != '{' && s[k] != '}')
    &&& contains_seq(s.subrange(i + 1, j), key_marker())
}

pub open spec fn has_block_at(s: Seq<char>, i: int) -> bool {
    exists|j: int| block_at(s, i, j)
}

/// The first brace-delimited JSON object mentioning the analysis key,
/// taken out of a reply that may surround it with prose.
pub fn extract_analysis_block(text: &str) -> (r: Option<String>)
    ensures
        match r {
            Some(b) => exists|i: int, j: int|
                #[trigger] block_at(text@, i, j) && (forall|i2: int|
                    0 <= i2 < i ==> !has_block_at(text@, i2)) && b@ == text@.subrange(i, j + 1),
            None => forall|i: int| !has_block_at(text@, i),
        },
{
    let marker = "\"analysis_key\":";
    proof {
        reveal_strlit("\"analysis_key\":");
    }
    let len = text.unicode_len();
    let mut i: usize = 0;
    while i < len
        invariant
            i <= len,
            len == text@.len(),
            marker@ == key_marker(),
            forall|i2: int| 0 <= i2 < i ==> !has_block_at(text@, i2),
        decreases len - i,
    {
        if text.get_char(i) == '{' {
            // find the first brace after the opener
            let mut j: usize = i + 1;
            loop
                invariant
                    i < j <= len,
                    len == text@.len(),
                    forall|k: int| i < k < j ==> text@[k] != '{' && text@[k] != '}',
                ensures
                    i < j <= len,
                    forall|k: int| i < k < j ==> text@[k] != '{' && text@[k] != '}',
                    j < len ==> text@[j as int] == '{' || text@[j as int] == '}',
                decreases len - j,
            {
                if j == len {
                    break ;
                }
                let c = text.get_char(j);
                if c == '{' || c == '}' {
                    break ;
                }
                j = j + 1;
            }
            if j == len {
                // no brace follows: no opener at or after i can close
                proof {
                    assert forall|i2: int| !has_block_at(text@, i2) by {
                        if 0 <= i2 && has_block_at(text@, i2) {
                            let j2 = choose|j2: int| block_at(text@, i2, j2);
                            if i2 >= i {
                                if i2 == i {
                                    assert(text@[j2] == '}');
                                } else {
                                    assert(text@[i2] == '{');
                                }
                            }
                        }
                    }
                }
                return None;
            }
            let cj = text.get_char(j);
            if cj == '}' && range_contains(text, i + 1, j, marker) {
                let b = text.substring_char(i, j + 1).to_owned();
                proof {
                    assert(block_at(text@, i as int, j as int));
                    assert(b@ =~= text@.subrange(i as int, j as int + 1));
                }
                return Some(b);
            }
            proof {
                assert forall|j2: int| !block_at(text@, i as int, j2) by {
                    if block_at(text@, i as int, j2) {
                        if j2 < j {
                            assert(text@[j2] == '}');
                        } else if j2 > j {
                            assert(text@[j as int] != '{' && text@[j as int] != '}');
                        } else {
                            assert(text@[j2] == '}');
                            assert(contains_seq(
                                text@.subrange(i as int + 1, j as int),
                                key_marker(),
                            ));
                        }
                    }
                }
            }
        }
        i = i + 1;
    }
    proof {
        assert forall|i2: int| !has_block_at(text@, i2) by {
            if 0 <= i2 && has_block_at(text@, i2) {
                let j2 = choose|j2: int| block_at(text@, i2, j2);
            }
        }
    }
    None
}

/// What a classifier reply denotes: the array under its `analysis_key`
/// field, or `None` when the text is not a JSON object of that shape.
pub uninterp spec fn analysis_names_of(s: Seq<char>) -> Option<Seq<Seq<char>>>;

/// Relies on serde_json::from_str and serde_json::Value::get/as_array/
/// as_str: the parse of a reply depends on the reply text alone.
#[verifier::external_body]
fn parse_analysis_names(text: &str) -> (r: Option<Vec<String>>)
    ensures
        match r {
            Some(v) => analysis_names_of(text@) == Some(strs_model(v@)),
            None => analysis_names_of(text@) is None,
        },
{
    let v: serde_json::Value = match serde_json::from_str(text) {
        Ok(v) => v,
        Err(_) => return None,
    };
    let arr = v.get("analysis_key")?.as_array()?;
    let mut out = Vec::new();
    for x in arr {
        out.push(x.as_str()?.to_string());
    }
    Some(out)
}

/// A malformed classifier reply; fatal to the run.
pub struct MalformedReply {}

/// The state of the interactive folder-selection loop.
pub struct SelectorSession {
    pub hints: String,
    pub targets: Vec<String>,
    pub finalized: bool,
}

impl SelectorSession {
    pub fn new() -> (s: SelectorSession)
        ensures
            s.hints@.len() == 0,
            s.targets@.len() == 0,
            !s.finalized,
    {
        SelectorSession { hints: String::new(), targets: Vec::new(), finalized: false }
    }

    /// Take in a classifier reply: a well-formed one replaces the current
    /// target list, a malformed one is an error and changes nothing.
    pub fn classified(&mut self, reply: &str) -> (r: Result<(), MalformedReply>)
        ensures
            final(self).hints == old(self).hints,
            final(self).finalized == old(self).finalized,
            match analysis_names_of(reply@) {
                Some(names) => r is Ok && strs_model(final(self).targets@) == names,
                None => r is Err && final(self).targets == old(self).targets,
            },
    {
        match parse_analysis_names(reply) {
            Some(names) => {
                self.targets = names;
                Ok(())
            },
            None => Err(MalformedReply {}),
        }
    }

    /// Take in one operator line: the confirmation keyword finalizes the
    /// selection; anything else is appended to the hints for the next
    /// classification round.
    pub fn operator_says(&mut self, input: &str) -> (done: bool)
        ensures
            final(self).targets == old(self).targets,
            done == ci_equal(trim_spec(input@), "ok"@),
            done ==> final(self).finalized && final(self).hints == old(self).hints,
            !done ==> final(self).finalized == old(self).finalized && final(self).hints@ == old(
                self,
            ).hints@ + ", also consider "@ + trim_spec(input@),
    {
        let trimmed = trim_str(input);
        if eq_ignore_case(trimmed.as_str(), "ok") {
            self.finalized = true;
            true
        } else {
            self.hints.append(", also consider ");
            self.hints.append(trimmed.as_str());
            false
        }
    }
}

} // verus!
