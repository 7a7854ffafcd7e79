//! Pieces of the wire format used to import and export a whole memory.
use vstd::prelude::*;

verus! {

/// The version of the wire format written on export.
pub const CURRENT_VERSION: &'static str = "0.7.2";

/// One message of a conversation kept beside an exported memory.
pub struct ConversationMessage {
    pub role: String,
    pub content: String,
}

impl ConversationMessage {
    /// A message with the given role and content.
    pub fn new(role: String, content: String) -> (m: ConversationMessage)
        ensures
            m.role@ == role@,
            m.content@ == content@,
    {
        ConversationMessage { role, content }
    }
}

} // verus!
