use vstd::prelude::*;

verus! {

/// An error that carries a message.
#[derive(Debug)]
pub struct StandardError {
    details: String,
}

impl StandardError {
    /// The message.
    pub closed spec fn spec_details(&self) -> Seq<char> {
        self.details@
    }

    pub fn new(msg: &str) -> (r: StandardError)
        ensures
            r.spec_details() == msg@,
    {
        let details = msg.to_string();
        proof {
            vstd::string::to_string_from_display_ensures_for_str(msg, details);
        }
        StandardError { details }
    }

    /// The message.
    pub fn description(&self) -> (r: &str)
        ensures
            r@ == self.spec_details(),
    {
        self.details.as_str()
    }
}

} // verus!
