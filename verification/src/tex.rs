//! Tex source validation and its error.
use vstd::prelude::*;
use vstd::string::*;

use crate::format::{decimal, decimal_string};

verus! {

/// Failure to compile Tex source.
#[derive(Clone, Debug)]
pub enum TexError {
    /// The parser rejected the source; `loc` is the byte offset it
    /// reported, when it reported one.
    Parse { message: String, loc: Option<usize> },
}

impl TexError {
    pub open spec fn spec_message(&self) -> Seq<char> {
        match self {
            TexError::Parse { message, loc } => "Tex parse error"@ + match loc {
                Some(p) => " at byte "@ + decimal(*p as nat),
                None => Seq::empty(),
            } + ": "@ + message@,
        }
    }

    /// Human-readable description of the error.
    pub fn message(&self) -> (s: String)
        ensures
            s@ == self.spec_message(),
    {
        match self {
            TexError::Parse { message, loc } => {
                let s = String::from_str("Tex parse error");
                let s = match loc {
                    Some(p) => {
                        let t = s.concat(" at byte ");
                        t.concat(decimal_string(*p as u64).as_str())
                    },
                    None => {
                        proof {
                            assert(s@ + Seq::<char>::empty() =~= s@);
                        }
                        s
                    },
                };
                let s = s.concat(": ");
                s.concat(message.as_str())
            },
        }
    }
}

/// What the Tex parser makes of `src`: `None` when it parses, otherwise
/// the parser's message and the start of the offending span, if given.
pub uninterp spec fn tex_parse_outcome(src: Seq<char>) -> Option<(Seq<char>, Option<usize>)>;

/// Run the Tex parser (`ratex_parser::parse`) on `src` and report its
/// error, if any, as message and start offset.
#[verifier::external_body]
fn parse_tex_source(src: &str) -> (r: Option<(String, Option<usize>)>)
    ensures
        match tex_parse_outcome(src@) {
            Some((m, loc)) => r.is_some() && r.unwrap().0@ == m && r.unwrap().1 == loc,
            None => r.is_none(),
        },
{
    match ratex_parser::parse(src) {
        Ok(_) => None,
        Err(e) => Some((e.message, e.loc.map(|l| l.start))),
    }
}

/// Check that `src` is Tex the parser accepts. Layout cannot fail, so
/// parsing is the whole check.
pub fn validate_tex(src: &str) -> (r: Result<(), TexError>)
    ensures
        match tex_parse_outcome(src@) {
            None => r is Ok,
            Some((m, loc)) => match r {
                Err(TexError::Parse { message, loc: l }) => message@ == m && l == loc,
                Ok(_) => false,
            },
        },
{
    match parse_tex_source(src) {
        None => Ok(()),
        Some((message, loc)) => Err(TexError::Parse { message, loc }),
    }
}

} // verus!
