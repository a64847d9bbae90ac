use vstd::prelude::*;

verus! {

/// The state of the command prompt: whether it shows, what was typed, its
/// expansion, and the suggestions with the characters of each that match.
#[derive(Clone, Debug)]
pub struct CommandPrompt {
    pub visible: bool,
    pub input: String,
    pub expanded: String,
    pub suggestions: Vec<(String, Vec<bool>)>,
}

} // verus!
