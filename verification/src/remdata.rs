//! Stores the REM data: a recent version, an edit date, and a success flag,
//! with its one- and multi-line textual forms.

use vstd::prelude::*;

verus! {

/// The textual form of the REM data.
pub open spec fn rem_text(r: Seq<char>, e: Seq<char>, m: bool, multiline: bool) -> Seq<char> {
    let flag = if m {
        "[successful]"@
    } else {
        "[unsuccessful]"@
    };
    if multiline {
        "  R: v"@ + r + "\n  E: "@ + e + "\n  M: "@ + flag
    } else {
        "R: v"@ + r + ", E: "@ + e + ", M: "@ + flag
    }
}

/// Stores the REM data.
pub struct RemData {
    pub r: String,
    pub e: String,
    pub m: bool,
}

impl RemData {
    /// Create a new RemData with the given parameters.
    pub fn new(recent_version: &str, edit_date: &str, morning_star: bool) -> (r: RemData)
        ensures
            r.r@ == recent_version@,
            r.e@ == edit_date@,
            r.m == morning_star,
    {
        RemData {
            r: String::from_str(recent_version),
            e: String::from_str(edit_date),
            m: morning_star,
        }
    }

    /// Format the RemData, on one line or three.
    pub fn fmt(&self, multiline: bool) -> (res: String)
        ensures
            res@ == rem_text(self.r@, self.e@, self.m, multiline),
    {
        let mut res: String;
        if multiline {
            res = String::from_str("  R: v");
            res.append(self.r.as_str());
            res.append("\n  E: ");
            res.append(self.e.as_str());
            res.append("\n  M: ");
        } else {
            res = String::from_str("R: v");
            res.append(self.r.as_str());
            res.append(", E: ");
            res.append(self.e.as_str());
            res.append(", M: ");
        }
        if self.m {
            res.append("[successful]");
        } else {
            res.append("[unsuccessful]");
        }
        res
    }
}

} // verus!
