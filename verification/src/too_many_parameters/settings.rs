use vstd::prelude::*;
use vstd::string::StringExecFns;

use crate::text::{decimal, decimal_string};

verus! {

/// Settings of the rule that limits how many parameters a procedure may declare.
#[derive(Clone, Debug)]
pub struct Settings {
    /// The largest number of parameters that is not reported.
    pub max_parameters: usize,
}

impl Default for Settings {
    /// Five parameters.
    fn default() -> (s: Settings)
        ensures
            s.max_parameters == 5,
    {
        Settings { max_parameters: 5 }
    }
}

impl Settings {
    /// The settings as the configuration listing shows them: one line per field, under the
    /// rule's namespace.
    pub fn display_text(&self) -> (r: String)
        ensures
            r@ == "check.too-many-parameters.max_parameters = "@ + decimal(self.max_parameters as nat)
                + "\n"@,
    {
        let mut r = "check.too-many-parameters.max_parameters = ".to_owned();
        let n = decimal_string(self.max_parameters);
        r.append(n.as_str());
        r.append("\n");
        r
    }
}

} // verus!
