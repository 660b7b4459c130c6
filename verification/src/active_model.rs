//! The serve's active model: which served model a chat without an explicit model runs on.
//! Only a model the serve actually offers can be made active; an empty id clears it.
use vstd::prelude::*;
use vstd::string::*;

use crate::collections::string_views;
use crate::text::{str_eq, trim, trim_string};

verus! {

/// Why the active model could not be set.
#[derive(Debug, Clone, PartialEq, Eq)]
pub enum ActiveModelError {
    /// The id names no model in the served catalog.
    NotFound(String),
}

/// The active model selection.
#[derive(Debug, Clone, PartialEq, Eq)]
pub struct ActiveModel {
    active: Option<String>,
}

pub open spec fn opt_view(o: Option<String>) -> Option<Seq<char>> {
    match o {
        Some(s) => Some(s@),
        None => None,
    }
}

impl ActiveModel {
    /// The active id as plain text.
    pub closed spec fn current(&self) -> Option<Seq<char>> {
        opt_view(self.active)
    }

    /// No active model yet.
    pub fn new() -> (r: Self)
        ensures
            r.current() is None,
    {
        ActiveModel { active: None }
    }

    /// The active model, if one is set.
    pub fn get(&self) -> (r: Option<String>)
        ensures
            opt_view(r) == self.current(),
    {
        match &self.active {
            Some(s) => Some(s.clone()),
            None => None,
        }
    }

    /// Whether `id` is in the served catalog.
    pub fn is_served(id: &str, served: &[String]) -> (r: bool)
        ensures
            r == string_views(served@).contains(id@),
    {
        let mut i: usize = 0;
        while i < served.len()
            invariant
                i <= served.len(),
                forall|j: int| 0 <= j < i ==> (#[trigger] served@[j])@ != id@,
            decreases served.len() - i,
        {
            if str_eq(served[i].as_str(), id) {
                assert(string_views(served@)[i as int] == id@);
                return true;
            }
            i = i + 1;
        }
        proof {
            if string_views(served@).contains(id@) {
                let j = choose|j: int| 0 <= j < string_views(served@).len() && string_views(served@)[j] == id@;
                assert(served@[j]@ == id@);
            }
        }
        false
    }

    /// Sets the active model to `model_id` (trimmed) against the served catalog: an empty id
    /// clears the selection; an id the serve does not offer is refused and changes nothing.
    /// Returns the new selection.
    pub fn set(&mut self, model_id: &str, served: &[String]) -> (r: Result<Option<String>, ActiveModelError>)
        ensures
            ({
                let id = trim(model_id@);
                if id.len() == 0 {
                    r == Ok::<Option<String>, ActiveModelError>(None) && final(self).current() is None
                } else if !string_views(served@).contains(id) {
                    r matches Err(ActiveModelError::NotFound(m)) && m@ == "model not in the served catalog"@
                        && final(self).current() == old(self).current()
                } else {
                    r matches Ok(Some(s)) && s@ == id && final(self).current() == Some(id)
                }
            }),
    {
        let id = trim_string(model_id);
        if id.as_str().unicode_len() == 0 {
            self.active = None;
            return Ok(None);
        }
        if !Self::is_served(id.as_str(), served) {
            return Err(ActiveModelError::NotFound(String::from_str("model not in the served catalog")));
        }
        self.active = Some(id.clone());
        Ok(Some(id))
    }
}

} // verus!
