//! Typed model requests and runtime accounting, independent of any provider SDK.
//! Every fragment requires a source and role. Estimates, tokenizer-measured
//! document budgets, and reported usage are distinct; none implies the others.
pub mod order;
pub mod request;
pub mod usage;

pub use request::{
    block_bytes, content_bytes, ContentBlock, ContentSource, BlockModel, FragmentModel,
    ModelRequest, ModelRequestBuilder, PromptFragment, RequestModel, SourceBytes, SourceModel,
    ThinkingLevel, ToolDefinition, ToolModel, TEXT_ONLY_IMAGE_NOTE,
};
pub use usage::{
    ByteEstimator, NonZeroUsize, ReportedUsage, RequestEstimate, RequestEstimateModel, SourceEstimate,
    SourceEstimateModel, TokenUsage,
};
use vstd::prelude::*;
use vstd::string::*;

verus! {

/// Message role; source attribution remains independent of role.
#[derive(Debug, Clone, Copy, PartialEq, Eq)]
pub enum Role {
    User,
    Assistant,
    System,
}

/// Opaque provider-neutral tool-call identity. The caller generates IDs;
/// HTMLP has no UUID, clock, or random-number dependency.
#[derive(Debug, PartialEq, Eq, Hash)]
pub struct ToolUseId(String);

impl View for ToolUseId {
    type V = Seq<char>;

    closed spec fn view(&self) -> Seq<char> {
        self.0@
    }
}

impl ToolUseId {
    pub fn from_string(value: String) -> (id: ToolUseId)
        ensures
            id@ == value@,
    {
        ToolUseId(value)
    }

    pub fn as_str(&self) -> (s: &str)
        ensures
            s@ == self@,
    {
        self.0.as_str()
    }

    /// The identity as text.
    pub fn to_string(&self) -> (s: String)
        ensures
            s@ == self@,
    {
        self.0.clone()
    }
}

impl Clone for ToolUseId {
    fn clone(&self) -> (r: ToolUseId)
        ensures
            r@ == self@,
    {
        ToolUseId(self.0.clone())
    }
}

} // verus!
