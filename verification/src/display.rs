//! Small user-interface state types: the page selector and the belief
//! display mode with its parser.

use vstd::prelude::*;

verus! {

/// Which page of the surrounding editor is shown.
#[derive(Copy, Clone, Debug, PartialEq)]
pub enum Page {
    Idle,
    NodeEdit(usize),
    ComputeBeliefs,
    MutualInformation(Option<usize>),
    ExportJson,
    LoadJson,
    LoadExample,
    Help,
}

/// How computed beliefs are rendered.
#[derive(Copy, Clone, Debug, PartialEq)]
pub enum BeliefsDisplay {
    OddsRatio,
    RawBeliefs,
    Probabilities,
}

/// Whether `s` and `lit` spell the same characters.
fn str_eq(s: &str, lit: &str) -> (r: bool)
    ensures
        r == (s@ == lit@),
{
    let n = s.unicode_len();
    if n != lit.unicode_len() {
        proof {
            assert(s@ != lit@);
        }
        return false;
    }
    let mut i: usize = 0;
    while i < n
        invariant
            n == s@.len(),
            n == lit@.len(),
            i <= n,
            forall|k: int| 0 <= k < i ==> s@[k] == lit@[k],
        decreases n - i,
    {
        if s.get_char(i) != lit.get_char(i) {
            return false;
        }
        i = i + 1;
    }
    proof {
        assert(s@ =~= lit@);
    }
    true
}

impl BeliefsDisplay {
    /// The display mode named by `s`, if any.
    pub fn from_str(s: &str) -> (r: Option<BeliefsDisplay>)
        ensures
            r == (if s@ == "odds-ratios"@ {
                Some(BeliefsDisplay::OddsRatio)
            } else if s@ == "raw-beliefs"@ {
                Some(BeliefsDisplay::RawBeliefs)
            } else if s@ == "probabilities"@ {
                Some(BeliefsDisplay::Probabilities)
            } else {
                None::<BeliefsDisplay>
            }),
    {
        if str_eq(s, "odds-ratios") {
            Some(BeliefsDisplay::OddsRatio)
        } else if str_eq(s, "raw-beliefs") {
            Some(BeliefsDisplay::RawBeliefs)
        } else if str_eq(s, "probabilities") {
            Some(BeliefsDisplay::Probabilities)
        } else {
            None
        }
    }
}

} // verus!
