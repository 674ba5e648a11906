//! Content attribution enforced by construction.
//!
//! Everything that reaches the model flows through [`PromptFragment`], which is
//! only constructible with a [`ContentSource`] tag. [`ModelRequest`] is
//! assembled exclusively from fragments, so per-request byte attribution by
//! category is always available: there is no untagged path to the model.
use vstd::prelude::*;
use vstd::string::*;

use super::order::{lemma_source_less, same_source, source_before, source_less, sorted_sources};
use super::usage::{estimates, tools_fit, ByteEstimator, RequestEstimate};
use super::{Role, ToolUseId};
use crate::locations::{byte_len, byte_length};
use crate::rendered::RenderedPrompt;

verus! {

/// The origin category of a piece of model-bound content.
#[derive(Debug, PartialEq, Eq, PartialOrd, Ord, Hash)]
pub enum ContentSource {
    SystemPrompt,
    /// A typed context block (env details, rules, skills catalog, ...).
    ContextBlock { block_id: String },
    ToolDefinitions,
    UserMessage,
    SessionMessage,
    /// Prior assistant output replayed as history.
    AssistantHistory,
    ToolOutput { tool_name: String },
    /// Harness-injected content, distinct from user-authored messages.
    SystemReminder { origin: String },
    Hook { hook_name: String },
    CompactionSummary,
}

pub enum SourceModel {
    SystemPrompt,
    ContextBlock(Seq<char>),
    ToolDefinitions,
    UserMessage,
    SessionMessage,
    AssistantHistory,
    ToolOutput(Seq<char>),
    SystemReminder(Seq<char>),
    Hook(Seq<char>),
    CompactionSummary,
}

impl View for ContentSource {
    type V = SourceModel;

    open spec fn view(&self) -> SourceModel {
        match self {
            ContentSource::SystemPrompt => SourceModel::SystemPrompt,
            ContentSource::ContextBlock { block_id } => SourceModel::ContextBlock(block_id@),
            ContentSource::ToolDefinitions => SourceModel::ToolDefinitions,
            ContentSource::UserMessage => SourceModel::UserMessage,
            ContentSource::SessionMessage => SourceModel::SessionMessage,
            ContentSource::AssistantHistory => SourceModel::AssistantHistory,
            ContentSource::ToolOutput { tool_name } => SourceModel::ToolOutput(tool_name@),
            ContentSource::SystemReminder { origin } => SourceModel::SystemReminder(origin@),
            ContentSource::Hook { hook_name } => SourceModel::Hook(hook_name@),
            ContentSource::CompactionSummary => SourceModel::CompactionSummary,
        }
    }
}

impl Clone for ContentSource {
    fn clone(&self) -> (r: ContentSource)
        ensures
            r@ == self@,
    {
        match self {
            ContentSource::SystemPrompt => ContentSource::SystemPrompt,
            ContentSource::ContextBlock { block_id } => ContentSource::ContextBlock {
                block_id: block_id.clone(),
            },
            ContentSource::ToolDefinitions => ContentSource::ToolDefinitions,
            ContentSource::UserMessage => ContentSource::UserMessage,
            ContentSource::SessionMessage => ContentSource::SessionMessage,
            ContentSource::AssistantHistory => ContentSource::AssistantHistory,
            ContentSource::ToolOutput { tool_name } => ContentSource::ToolOutput {
                tool_name: tool_name.clone(),
            },
            ContentSource::SystemReminder { origin } => ContentSource::SystemReminder {
                origin: origin.clone(),
            },
            ContentSource::Hook { hook_name } => ContentSource::Hook { hook_name: hook_name.clone() },
            ContentSource::CompactionSummary => ContentSource::CompactionSummary,
        }
    }
}

/// Provider-neutral content block. Tool arguments are held as their compact
/// JSON text.
#[derive(Debug, PartialEq)]
pub enum ContentBlock {
    Text { text: String },
    /// Provider reasoning returned alongside an assistant message. Adapters
    /// that support preserved thinking replay this through their native
    /// field; other adapters deliberately omit it.
    Reasoning { text: String },
    Image { media_type: String, base64_data: String },
    ToolUse { tool_use_id: ToolUseId, tool_name: String, arguments: String },
    ToolResult { tool_use_id: ToolUseId, content: String, is_error: bool },
}

pub enum BlockModel {
    Text(Seq<char>),
    Reasoning(Seq<char>),
    Image(Seq<char>, Seq<char>),
    ToolUse(Seq<char>, Seq<char>, Seq<char>),
    ToolResult(Seq<char>, Seq<char>, bool),
}

impl View for ContentBlock {
    type V = BlockModel;

    open spec fn view(&self) -> BlockModel {
        match self {
            ContentBlock::Text { text } => BlockModel::Text(text@),
            ContentBlock::Reasoning { text } => BlockModel::Reasoning(text@),
            ContentBlock::Image { media_type, base64_data } => BlockModel::Image(
                media_type@,
                base64_data@,
            ),
            ContentBlock::ToolUse { tool_use_id, tool_name, arguments } => BlockModel::ToolUse(
                tool_use_id@,
                tool_name@,
                arguments@,
            ),
            ContentBlock::ToolResult { tool_use_id, content, is_error } => BlockModel::ToolResult(
                tool_use_id@,
                content@,
                *is_error,
            ),
        }
    }
}

impl Clone for ContentBlock {
    fn clone(&self) -> (r: ContentBlock)
        ensures
            r@ == self@,
    {
        match self {
            ContentBlock::Text { text } => ContentBlock::Text { text: text.clone() },
            ContentBlock::Reasoning { text } => ContentBlock::Reasoning { text: text.clone() },
            ContentBlock::Image { media_type, base64_data } => ContentBlock::Image {
                media_type: media_type.clone(),
                base64_data: base64_data.clone(),
            },
            ContentBlock::ToolUse { tool_use_id, tool_name, arguments } => ContentBlock::ToolUse {
                tool_use_id: tool_use_id.clone(),
                tool_name: tool_name.clone(),
                arguments: arguments.clone(),
            },
            ContentBlock::ToolResult { tool_use_id, content, is_error } => ContentBlock::ToolResult {
                tool_use_id: tool_use_id.clone(),
                content: content.clone(),
                is_error: *is_error,
            },
        }
    }
}

/// The payload bytes of a block: its text, image transport data, argument
/// JSON, or result content.
pub open spec fn block_bytes(b: BlockModel) -> int {
    match b {
        BlockModel::Text(t) => byte_len(t) as int,
        BlockModel::Reasoning(t) => byte_len(t) as int,
        BlockModel::Image(_, data) => byte_len(data) as int,
        BlockModel::ToolUse(_, _, arguments) => byte_len(arguments) as int,
        BlockModel::ToolResult(_, content, _) => byte_len(content) as int,
    }
}

pub open spec fn content_bytes(s: Seq<BlockModel>) -> int
    decreases s.len(),
{
    if s.len() == 0 {
        0
    } else {
        content_bytes(s.drop_last()) + block_bytes(s.last())
    }
}

pub proof fn lemma_content_bytes_prefix(s: Seq<BlockModel>, i: int)
    requires
        0 <= i <= s.len(),
    ensures
        0 <= content_bytes(s.take(i)) <= content_bytes(s),
    decreases s.len() - i,
{
    if i < s.len() {
        lemma_content_bytes_prefix(s, i + 1);
        assert(s.take(i + 1).drop_last() =~= s.take(i));
    } else {
        assert(s.take(i) =~= s);
    }
    lemma_content_bytes_nonnegative(s.take(i));
}

pub proof fn lemma_content_bytes_nonnegative(s: Seq<BlockModel>)
    ensures
        content_bytes(s) >= 0,
    decreases s.len(),
{
    if s.len() > 0 {
        lemma_content_bytes_nonnegative(s.drop_last());
    }
}

impl ContentBlock {
    pub fn byte_len(&self) -> (n: usize)
        ensures
            n == block_bytes(self@),
    {
        match self {
            ContentBlock::Text { text } => byte_length(text.as_str()),
            ContentBlock::Reasoning { text } => byte_length(text.as_str()),
            ContentBlock::Image { base64_data, .. } => byte_length(base64_data.as_str()),
            ContentBlock::ToolUse { arguments, .. } => byte_length(arguments.as_str()),
            ContentBlock::ToolResult { content, .. } => byte_length(content.as_str()),
        }
    }
}

pub open spec fn blocks_view(s: Seq<ContentBlock>) -> Seq<BlockModel> {
    s.map_values(|b: ContentBlock| b@)
}

fn copy_blocks(v: &Vec<ContentBlock>) -> (r: Vec<ContentBlock>)
    ensures
        blocks_view(r@) == blocks_view(v@),
{
    let mut r: Vec<ContentBlock> = Vec::new();
    let mut i: usize = 0;
    while i < v.len()
        invariant
            i <= v@.len(),
            r@.len() == i,
            forall|j: int| 0 <= j < i ==> #[trigger] r@[j]@ == v@[j]@,
        decreases v@.len() - i,
    {
        r.push(v[i].clone());
        i = i + 1;
    }
    assert(blocks_view(r@) =~= blocks_view(v@));
    r
}

/// A source-attributed piece of a model request. Fields are private; the only
/// constructors require attribution at the call site.
#[derive(Debug, PartialEq)]
pub struct PromptFragment {
    source: ContentSource,
    role: Role,
    content: Vec<ContentBlock>,
    byte_count: usize,
}

pub struct FragmentModel {
    pub source: SourceModel,
    pub role: Role,
    pub content: Seq<BlockModel>,
}

impl View for PromptFragment {
    type V = FragmentModel;

    closed spec fn view(&self) -> FragmentModel {
        FragmentModel { source: self.source@, role: self.role, content: blocks_view(self.content@) }
    }
}

impl PromptFragment {
    /// The byte count is the payload bytes of the content.
    #[verifier::type_invariant]
    closed spec fn counted(self) -> bool {
        self.byte_count == content_bytes(blocks_view(self.content@))
    }

    pub fn new(source: ContentSource, role: Role, content: Vec<ContentBlock>) -> (f: PromptFragment)
        requires
            content_bytes(blocks_view(content@)) <= usize::MAX,
        ensures
            f@ == (FragmentModel { source: source@, role, content: blocks_view(content@) }),
    {
        let ghost bs = blocks_view(content@);
        let mut total: usize = 0;
        let mut i: usize = 0;
        while i < content.len()
            invariant
                i <= content@.len(),
                bs == blocks_view(content@),
                bs.len() == content@.len(),
                content_bytes(bs) <= usize::MAX,
                total == content_bytes(bs.take(i as int)),
            decreases content@.len() - i,
        {
            proof {
                assert(bs.take(i + 1).drop_last() =~= bs.take(i as int));
                assert(bs[i as int] == content@[i as int]@);
                lemma_content_bytes_prefix(bs, i + 1);
            }
            let n = content[i].byte_len();
            total = total + n;
            i = i + 1;
        }
        assert(bs.take(content@.len() as int) =~= bs);
        PromptFragment { source, role, content, byte_count: total }
    }

    pub fn text(source: ContentSource, role: Role, text: &str) -> (f: PromptFragment)
        ensures
            f@ == (FragmentModel {
                source: source@,
                role,
                content: seq![BlockModel::Text(text@)],
            }),
    {
        let block = ContentBlock::Text { text: String::from_str(text) };
        let mut content: Vec<ContentBlock> = Vec::new();
        content.push(block);
        proof {
            assert(blocks_view(content@) =~= seq![BlockModel::Text(text@)]);
            assert(seq![BlockModel::Text(text@)].drop_last() =~= Seq::<BlockModel>::empty());
        }
        let n = byte_length(text);
        proof {
            let bs = seq![BlockModel::Text(text@)];
            assert(content_bytes(bs) == content_bytes(bs.drop_last()) + block_bytes(bs.last()));
            assert(content_bytes(bs) == n);
        }
        PromptFragment::new(source, role, content)
    }

    /// Construct a text fragment from immutable, fully checked HTMLP output.
    pub fn checked(source: ContentSource, role: Role, rendered: &RenderedPrompt) -> (f: PromptFragment)
        ensures
            f@ == (FragmentModel {
                source: source@,
                role,
                content: seq![BlockModel::Text(rendered@.text)],
            }),
    {
        PromptFragment::text(source, role, rendered.text())
    }

    pub fn source(&self) -> (s: &ContentSource)
        ensures
            s@ == self@.source,
    {
        &self.source
    }

    pub fn role(&self) -> (r: Role)
        ensures
            r == self@.role,
    {
        self.role
    }

    pub fn content(&self) -> (c: &[ContentBlock])
        ensures
            blocks_view(c@) == self@.content,
    {
        self.content.as_slice()
    }

    pub fn byte_count(&self) -> (n: usize)
        ensures
            n == content_bytes(self@.content),
    {
        proof {
            use_type_invariant(self);
        }
        self.byte_count
    }
}

impl Clone for PromptFragment {
    fn clone(&self) -> (r: PromptFragment)
        ensures
            r@ == self@,
    {
        proof {
            use_type_invariant(self);
        }
        PromptFragment {
            source: self.source.clone(),
            role: self.role,
            content: copy_blocks(&self.content),
            byte_count: self.byte_count,
        }
    }
}

/// A tool definition offered to the model, counted under
/// [`ContentSource::ToolDefinitions`]. The input schema is compact JSON text.
#[derive(Debug, PartialEq)]
pub struct ToolDefinition {
    pub name: String,
    pub description: String,
    pub input_schema: String,
}

pub struct ToolModel {
    pub name: Seq<char>,
    pub description: Seq<char>,
    pub input_schema: Seq<char>,
}

impl View for ToolDefinition {
    type V = ToolModel;

    open spec fn view(&self) -> ToolModel {
        ToolModel {
            name: self.name@,
            description: self.description@,
            input_schema: self.input_schema@,
        }
    }
}

/// The payload bytes of a tool: name, description and schema.
pub open spec fn tool_bytes(t: ToolModel) -> int {
    (byte_len(t.name) + byte_len(t.description) + byte_len(t.input_schema)) as int
}

impl ToolDefinition {
    pub fn byte_len(&self) -> (n: usize)
        requires
            tool_bytes(self@) <= usize::MAX,
        ensures
            n == tool_bytes(self@),
    {
        byte_length(self.name.as_str()) + byte_length(self.description.as_str()) + byte_length(
            self.input_schema.as_str(),
        )
    }
}

impl Clone for ToolDefinition {
    fn clone(&self) -> (r: ToolDefinition)
        ensures
            r@ == self@,
    {
        ToolDefinition {
            name: self.name.clone(),
            description: self.description.clone(),
            input_schema: self.input_schema.clone(),
        }
    }
}

/// Reasoning/thinking effort. Providers map this to their native knob.
#[derive(Debug, Clone, Copy, PartialEq, Eq)]
pub enum ThinkingLevel {
    Off,
    Low,
    Medium,
    High,
    /// Providers clamp to the model's max effort.
    XHigh,
    /// Provider-native maximum reasoning effort when distinct from xhigh.
    Max,
}

impl Default for ThinkingLevel {
    fn default() -> (l: ThinkingLevel)
        ensures
            l == ThinkingLevel::High,
    {
        ThinkingLevel::High
    }
}

pub open spec fn thinking_name(l: ThinkingLevel) -> Seq<char> {
    match l {
        ThinkingLevel::Off => "off"@,
        ThinkingLevel::Low => "low"@,
        ThinkingLevel::Medium => "medium"@,
        ThinkingLevel::High => "high"@,
        ThinkingLevel::XHigh => "xhigh"@,
        ThinkingLevel::Max => "max"@,
    }
}

impl ThinkingLevel {
    /// The canonical lowercase name, as text.
    pub fn to_string(&self) -> (s: String)
        ensures
            s@ == thinking_name(*self),
    {
        String::from_str(self.as_str())
    }

    /// The canonical lowercase name.
    pub fn as_str(&self) -> (s: &'static str)
        ensures
            s@ == thinking_name(*self),
    {
        match self {
            ThinkingLevel::Off => "off",
            ThinkingLevel::Low => "low",
            ThinkingLevel::Medium => "medium",
            ThinkingLevel::High => "high",
            ThinkingLevel::XHigh => "xhigh",
            ThinkingLevel::Max => "max",
        }
    }
}

/// Shown to the model in place of an image the active model cannot view.
pub const TEXT_ONLY_IMAGE_NOTE: &'static str = "[image not shown: this model does not support image input]";

pub struct RequestModel {
    pub fragments: Seq<FragmentModel>,
    pub tools: Seq<ToolModel>,
    pub model: Seq<char>,
    pub max_output_tokens: Option<u32>,
    pub thinking_level: ThinkingLevel,
}

pub open spec fn fragments_view(s: Seq<PromptFragment>) -> Seq<FragmentModel> {
    s.map_values(|f: PromptFragment| f@)
}

pub open spec fn tools_view(s: Seq<ToolDefinition>) -> Seq<ToolModel> {
    s.map_values(|t: ToolDefinition| t@)
}

/// A complete, attributed model request. Constructed only via [`ModelRequestBuilder`].
#[derive(Debug, PartialEq)]
pub struct ModelRequest {
    fragments: Vec<PromptFragment>,
    tools: Vec<ToolDefinition>,
    pub model: String,
    pub max_output_tokens: Option<u32>,
    pub thinking_level: ThinkingLevel,
}

impl View for ModelRequest {
    type V = RequestModel;

    closed spec fn view(&self) -> RequestModel {
        RequestModel {
            fragments: fragments_view(self.fragments@),
            tools: tools_view(self.tools@),
            model: self.model@,
            max_output_tokens: self.max_output_tokens,
            thinking_level: self.thinking_level,
        }
    }
}

pub struct ModelRequestBuilder {
    fragments: Vec<PromptFragment>,
    tools: Vec<ToolDefinition>,
    model: String,
    max_output_tokens: Option<u32>,
    thinking_level: ThinkingLevel,
}

impl View for ModelRequestBuilder {
    type V = RequestModel;

    closed spec fn view(&self) -> RequestModel {
        RequestModel {
            fragments: fragments_view(self.fragments@),
            tools: tools_view(self.tools@),
            model: self.model@,
            max_output_tokens: self.max_output_tokens,
            thinking_level: self.thinking_level,
        }
    }
}

fn copy_fragments(v: &Vec<PromptFragment>) -> (r: Vec<PromptFragment>)
    ensures
        fragments_view(r@) == fragments_view(v@),
{
    let mut r: Vec<PromptFragment> = Vec::new();
    let mut i: usize = 0;
    while i < v.len()
        invariant
            i <= v@.len(),
            r@.len() == i,
            forall|j: int| 0 <= j < i ==> #[trigger] r@[j]@ == v@[j]@,
        decreases v@.len() - i,
    {
        r.push(v[i].clone());
        i = i + 1;
    }
    assert(fragments_view(r@) =~= fragments_view(v@));
    r
}

fn copy_tools(v: &Vec<ToolDefinition>) -> (r: Vec<ToolDefinition>)
    ensures
        tools_view(r@) == tools_view(v@),
{
    let mut r: Vec<ToolDefinition> = Vec::new();
    let mut i: usize = 0;
    while i < v.len()
        invariant
            i <= v@.len(),
            r@.len() == i,
            forall|j: int| 0 <= j < i ==> #[trigger] r@[j]@ == v@[j]@,
        decreases v@.len() - i,
    {
        r.push(v[i].clone());
        i = i + 1;
    }
    assert(tools_view(r@) =~= tools_view(v@));
    r
}

impl Clone for ModelRequest {
    fn clone(&self) -> (r: ModelRequest)
        ensures
            r@ == self@,
    {
        ModelRequest {
            fragments: copy_fragments(&self.fragments),
            tools: copy_tools(&self.tools),
            model: self.model.clone(),
            max_output_tokens: self.max_output_tokens,
            thinking_level: self.thinking_level,
        }
    }
}

impl ModelRequestBuilder {
    /// The only way to add content: a pre-attributed fragment.
    pub fn fragment(self, fragment: PromptFragment) -> (b: ModelRequestBuilder)
        ensures
            b@ == (RequestModel { fragments: self@.fragments.push(fragment@), ..self@ }),
    {
        let mut b = self;
        let ghost before = b.fragments@;
        b.fragments.push(fragment);
        assert(fragments_view(b.fragments@) =~= fragments_view(before).push(fragment@));
        b
    }

    pub fn tool(self, tool: ToolDefinition) -> (b: ModelRequestBuilder)
        ensures
            b@ == (RequestModel { tools: self@.tools.push(tool@), ..self@ }),
    {
        let mut b = self;
        let ghost before = b.tools@;
        b.tools.push(tool);
        assert(tools_view(b.tools@) =~= tools_view(before).push(tool@));
        b
    }

    pub fn max_output_tokens(self, tokens: u32) -> (b: ModelRequestBuilder)
        ensures
            b@ == (RequestModel { max_output_tokens: Some(tokens), ..self@ }),
    {
        let mut b = self;
        b.max_output_tokens = Some(tokens);
        b
    }

    pub fn thinking_level(self, level: ThinkingLevel) -> (b: ModelRequestBuilder)
        ensures
            b@ == (RequestModel { thinking_level: level, ..self@ }),
    {
        let mut b = self;
        b.thinking_level = level;
        b
    }

    pub fn build(self) -> (r: ModelRequest)
        ensures
            r@ == self@,
    {
        ModelRequest {
            fragments: self.fragments,
            tools: self.tools,
            model: self.model,
            max_output_tokens: self.max_output_tokens,
            thinking_level: self.thinking_level,
        }
    }
}

// ---------------------------------------------------------------------------
// Byte attribution

/// Adds `n` bytes to source `s`.
pub open spec fn add_bytes(m: Map<SourceModel, int>, s: SourceModel, n: int) -> Map<SourceModel, int> {
    m.insert(
        s,
        (if m.dom().contains(s) {
            m[s]
        } else {
            0
        }) + n,
    )
}

/// The payload bytes of the fragments by source.
pub open spec fn fragment_bytes(fs: Seq<FragmentModel>) -> Map<SourceModel, int>
    decreases fs.len(),
{
    if fs.len() == 0 {
        Map::empty()
    } else {
        add_bytes(fragment_bytes(fs.drop_last()), fs.last().source, content_bytes(fs.last().content))
    }
}

pub open spec fn tools_bytes(ts: Seq<ToolModel>) -> int
    decreases ts.len(),
{
    if ts.len() == 0 {
        0
    } else {
        tools_bytes(ts.drop_last()) + tool_bytes(ts.last())
    }
}

/// Payload bytes by source; tool definitions count under their own source
/// when they hold any byte.
pub open spec fn bytes_map(r: RequestModel) -> Map<SourceModel, int> {
    let m = fragment_bytes(r.fragments);
    if tools_bytes(r.tools) > 0 {
        add_bytes(m, SourceModel::ToolDefinitions, tools_bytes(r.tools))
    } else {
        m
    }
}

/// Every payload byte of a request.
pub open spec fn request_bytes(r: RequestModel) -> int {
    fragments_total(r.fragments) + tools_bytes(r.tools)
}

pub open spec fn fragments_total(fs: Seq<FragmentModel>) -> int
    decreases fs.len(),
{
    if fs.len() == 0 {
        0
    } else {
        fragments_total(fs.drop_last()) + content_bytes(fs.last().content)
    }
}

/// The request's bytes fit in `usize` for every source.
pub open spec fn bytes_fit(r: RequestModel) -> bool {
    forall|s: SourceModel| #[trigger] bytes_map(r).dom().contains(s) ==> bytes_map(r)[s] <= usize::MAX
}

pub open spec fn keys_of<T>(v: Seq<(ContentSource, T)>) -> Seq<SourceModel> {
    v.map_values(|e: (ContentSource, T)| e.0@)
}

pub open spec fn entry_keys<V>(v: Seq<(SourceModel, V)>) -> Seq<SourceModel> {
    v.map_values(|e: (SourceModel, V)| e.0)
}

/// Entries sorted by source, each source once, standing for the map `m`.
pub open spec fn represents<V>(v: Seq<(SourceModel, V)>, m: Map<SourceModel, V>) -> bool {
    &&& sorted_sources(entry_keys(v))
    &&& forall|s: SourceModel| m.dom().contains(s) <==> exists|i: int| 0 <= i < v.len() && #[trigger] v[i].0 == s
    &&& forall|i: int| 0 <= i < v.len() ==> m.dom().contains(#[trigger] v[i].0) && m[v[i].0] == v[i].1
}

pub proof fn lemma_represents_empty<V>()
    ensures
        represents(Seq::<(SourceModel, V)>::empty(), Map::<SourceModel, V>::empty()),
{
    assert(entry_keys(Seq::<(SourceModel, V)>::empty()) =~= Seq::<SourceModel>::empty());
}

/// Replacing the value of an entry.
pub proof fn lemma_represents_update<V>(v: Seq<(SourceModel, V)>, m: Map<SourceModel, V>, i: int, x: V)
    requires
        represents(v, m),
        0 <= i < v.len(),
    ensures
        represents(v.update(i, (v[i].0, x)), m.insert(v[i].0, x)),
{
    let w = v.update(i, (v[i].0, x));
    assert(entry_keys(w) =~= entry_keys(v));
    let k = v[i].0;
    assert forall|j: int| 0 <= j < v.len() && j != i implies v[j].0 != k by {
        if j < i {
            assert(source_less(entry_keys(v)[j], entry_keys(v)[i]));
        } else {
            assert(source_less(entry_keys(v)[i], entry_keys(v)[j]));
        }
        lemma_source_less(v[j].0, k, k);
    }
    assert forall|s: SourceModel| m.insert(k, x).dom().contains(s) <==> exists|j: int| 0 <= j < w.len() && #[trigger] w[j].0 == s by {
        if m.insert(k, x).dom().contains(s) {
            if s == k {
                assert(w[i].0 == s);
            } else {
                let j = choose|j: int| 0 <= j < v.len() && #[trigger] v[j].0 == s;
                assert(w[j].0 == s);
            }
        }
        if exists|j: int| 0 <= j < w.len() && #[trigger] w[j].0 == s {
            let j = choose|j: int| 0 <= j < w.len() && #[trigger] w[j].0 == s;
            assert(v[j].0 == s);
        }
    }
}

/// Inserting a source in its place.
pub proof fn lemma_represents_insert<V>(v: Seq<(SourceModel, V)>, m: Map<SourceModel, V>, i: int, s: SourceModel, x: V)
    requires
        represents(v, m),
        0 <= i <= v.len(),
        forall|j: int| 0 <= j < i ==> source_less(#[trigger] v[j].0, s),
        forall|j: int| i <= j < v.len() ==> source_less(s, #[trigger] v[j].0),
    ensures
        represents(v.insert(i, (s, x)), m.insert(s, x)),
        !m.dom().contains(s),
{
    let w = v.insert(i, (s, x));
    assert forall|j: int| 0 <= j < v.len() implies v[j].0 != s by {
        lemma_source_less(v[j].0, s, s);
    }
    if m.dom().contains(s) {
        let j = choose|j: int| 0 <= j < v.len() && #[trigger] v[j].0 == s;
        assert(false);
    }
    let kw = entry_keys(w);
    let kv = entry_keys(v);
    assert forall|a: int, b: int| 0 <= a < b < kw.len() implies source_less(#[trigger] kw[a], #[trigger] kw[b]) by {
        if b < i {
            assert(source_less(kv[a], kv[b]));
        } else if b == i {
            assert(kw[a] == v[a].0);
        } else if a < i {
            assert(kw[a] == v[a].0);
            assert(kw[b] == v[b - 1].0);
            lemma_source_less(v[a].0, s, v[b - 1].0);
        } else if a == i {
            assert(kw[b] == v[b - 1].0);
        } else {
            assert(source_less(kv[a - 1], kv[b - 1]));
        }
    }
    assert forall|t: SourceModel| m.insert(s, x).dom().contains(t) <==> exists|j: int| 0 <= j < w.len() && #[trigger] w[j].0 == t by {
        if m.insert(s, x).dom().contains(t) {
            if t == s {
                assert(w[i].0 == t);
            } else {
                let j = choose|j: int| 0 <= j < v.len() && #[trigger] v[j].0 == t;
                if j < i {
                    assert(w[j].0 == t);
                } else {
                    assert(w[j + 1].0 == t);
                }
            }
        }
        if exists|j: int| 0 <= j < w.len() && #[trigger] w[j].0 == t {
            let j = choose|j: int| 0 <= j < w.len() && #[trigger] w[j].0 == t;
            if j < i {
                assert(v[j].0 == t);
            } else if j > i {
                assert(v[j - 1].0 == t);
            }
        }
    }
    assert forall|j: int| 0 <= j < w.len() implies m.insert(s, x).dom().contains(#[trigger] w[j].0) && m.insert(s, x)[w[j].0] == w[j].1 by {
        if j < i {
            assert(w[j] == v[j]);
        } else if j > i {
            assert(w[j] == v[j - 1]);
        }
    }
}

/// Bytes by source, sorted by source, each source once.
#[derive(Debug)]
pub struct SourceBytes {
    entries: Vec<(ContentSource, usize)>,
}

pub open spec fn byte_entries(v: Seq<(ContentSource, usize)>) -> Seq<(SourceModel, int)> {
    v.map_values(|e: (ContentSource, usize)| (e.0@, e.1 as int))
}

impl View for SourceBytes {
    type V = Seq<(SourceModel, int)>;

    closed spec fn view(&self) -> Seq<(SourceModel, int)> {
        byte_entries(self.entries@)
    }
}

/// Where `s` is among entries sorted by source: its index, or the index of
/// the first entry after it.
pub fn find_slot<T>(v: &Vec<(ContentSource, T)>, s: &ContentSource) -> (r: (usize, bool))
    requires
        sorted_sources(keys_of(v@)),
    ensures
        r.0 <= v@.len(),
        r.1 ==> r.0 < v@.len() && v@[r.0 as int].0@ == s@,
        !r.1 ==> (forall|j: int| 0 <= j < r.0 ==> source_less(#[trigger] v@[j].0@, s@)) && (forall|
            j: int,
        | r.0 <= j < v@.len() ==> source_less(s@, #[trigger] v@[j].0@)),
{
    let ghost ks = keys_of(v@);
    let mut i: usize = 0;
    while i < v.len()
        invariant
            i <= v@.len(),
            ks == keys_of(v@),
            sorted_sources(ks),
            forall|j: int| 0 <= j < i ==> source_less(#[trigger] v@[j].0@, s@),
        decreases v@.len() - i,
    {
        if same_source(&v[i].0, s) {
            return (i, true);
        }
        if source_before(s, &v[i].0) {
            proof {
                assert forall|j: int| i <= j < v@.len() implies source_less(s@, #[trigger] v@[j].0@) by {
                    if j > i {
                        assert(source_less(ks[i as int], ks[j]));
                        lemma_source_less(s@, v@[i as int].0@, v@[j].0@);
                    }
                }
            }
            return (i, false);
        }
        proof {
            lemma_source_less(v@[i as int].0@, s@, s@);
        }
        i = i + 1;
    }
    (i, false)
}

pub open spec fn entries_sum(v: Seq<(SourceModel, int)>) -> int
    decreases v.len(),
{
    if v.len() == 0 {
        0
    } else {
        entries_sum(v.drop_last()) + v.last().1
    }
}

proof fn lemma_sum_concat(a: Seq<(SourceModel, int)>, b: Seq<(SourceModel, int)>)
    ensures
        entries_sum(a + b) == entries_sum(a) + entries_sum(b),
    decreases b.len(),
{
    if b.len() == 0 {
        assert(a + b =~= a);
    } else {
        lemma_sum_concat(a, b.drop_last());
        assert((a + b).drop_last() =~= a + b.drop_last());
    }
}

proof fn lemma_sum_update(v: Seq<(SourceModel, int)>, i: int, e: (SourceModel, int))
    requires
        0 <= i < v.len(),
    ensures
        entries_sum(v.update(i, e)) == entries_sum(v) - v[i].1 + e.1,
{
    let a = v.take(i);
    let b = v.skip(i + 1);
    assert(v =~= a + seq![v[i]] + b);
    assert(v.update(i, e) =~= a + seq![e] + b);
    lemma_sum_concat(a + seq![v[i]], b);
    lemma_sum_concat(a, seq![v[i]]);
    lemma_sum_concat(a + seq![e], b);
    lemma_sum_concat(a, seq![e]);
    assert(seq![e].drop_last() =~= Seq::<(SourceModel, int)>::empty());
    assert(seq![v[i]].drop_last() =~= Seq::<(SourceModel, int)>::empty());
}

proof fn lemma_sum_insert(v: Seq<(SourceModel, int)>, i: int, e: (SourceModel, int))
    requires
        0 <= i <= v.len(),
    ensures
        entries_sum(v.insert(i, e)) == entries_sum(v) + e.1,
{
    let a = v.take(i);
    let b = v.skip(i);
    assert(v =~= a + b);
    assert(v.insert(i, e) =~= a + seq![e] + b);
    lemma_sum_concat(a + seq![e], b);
    lemma_sum_concat(a, seq![e]);
    lemma_sum_concat(a, b);
    assert(seq![e].drop_last() =~= Seq::<(SourceModel, int)>::empty());
    assert(entries_sum(seq![e]) == entries_sum(seq![e].drop_last()) + e.1);
}

/// Adds `n` bytes to source `s` in entries sorted by source.
fn add_entry(v: &mut Vec<(ContentSource, usize)>, s: &ContentSource, n: usize, Ghost(m): Ghost<Map<SourceModel, int>>)
    requires
        represents(byte_entries(old(v)@), m),
        add_bytes(m, s@, n as int)[s@] <= usize::MAX,
    ensures
        represents(byte_entries(final(v)@), add_bytes(m, s@, n as int)),
        entries_sum(byte_entries(final(v)@)) == entries_sum(byte_entries(old(v)@)) + n,
{
    let ghost es = byte_entries(v@);
    assert(keys_of(v@) =~= entry_keys(es));
    let (i, found) = find_slot(v, s);
    if found {
        let cur = v[i].1;
        proof {
            assert(es[i as int].0 == s@);
            assert(m.dom().contains(s@));
        }
        let e = (v[i].0.clone(), cur + n);
        v.set(i, e);
        proof {
            lemma_represents_update(es, m, i as int, cur + n);
            assert(byte_entries(v@) =~= es.update(i as int, (es[i as int].0, (cur + n) as int)));
            lemma_sum_update(es, i as int, (es[i as int].0, (cur + n) as int));
        }
    } else {
        let e = (s.clone(), n);
        v.insert(i, e);
        proof {
            assert forall|j: int| 0 <= j < i implies source_less(#[trigger] es[j].0, s@) by {
                assert(es[j].0 == v@[j].0@);
            }
            lemma_represents_insert(es, m, i as int, s@, n as int);
            assert(byte_entries(v@) =~= es.insert(i as int, (s@, n as int)));
            lemma_sum_insert(es, i as int, (s@, n as int));
        }
    }
}

proof fn lemma_fragment_bytes_grow(fs: Seq<FragmentModel>, k: int)
    requires
        0 <= k <= fs.len(),
    ensures
        forall|s: SourceModel| #[trigger] fragment_bytes(fs.take(k)).dom().contains(s) ==> fragment_bytes(
            fs,
        ).dom().contains(s) && fragment_bytes(fs.take(k))[s] <= fragment_bytes(fs)[s],
    decreases fs.len() - k,
{
    if k < fs.len() {
        lemma_fragment_bytes_grow(fs, k + 1);
        let t = fs.take(k + 1);
        assert(t.drop_last() =~= fs.take(k));
        assert(t.len() == k + 1);
        assert(t.last() == fs[k]);
        lemma_content_bytes_nonnegative(fs[k].content);
        assert forall|s: SourceModel| #[trigger] fragment_bytes(fs.take(k)).dom().contains(s) implies fragment_bytes(
            fs,
        ).dom().contains(s) && fragment_bytes(fs.take(k))[s] <= fragment_bytes(fs)[s] by {
            assert(fragment_bytes(t).dom().contains(s));
            assert(fragment_bytes(fs.take(k))[s] <= fragment_bytes(t)[s]);
        }
    } else {
        assert(fs.take(k) =~= fs);
    }
}

proof fn lemma_tools_bytes_grow(ts: Seq<ToolModel>, k: int)
    requires
        0 <= k <= ts.len(),
    ensures
        0 <= tools_bytes(ts.take(k)) <= tools_bytes(ts),
    decreases ts.len() - k,
{
    if k < ts.len() {
        lemma_tools_bytes_grow(ts, k + 1);
        assert(ts.take(k + 1).drop_last() =~= ts.take(k));
    } else {
        assert(ts.take(k) =~= ts);
    }
    lemma_tools_nonnegative(ts.take(k));
}

proof fn lemma_tools_nonnegative(ts: Seq<ToolModel>)
    ensures
        tools_bytes(ts) >= 0,
    decreases ts.len(),
{
    if ts.len() > 0 {
        lemma_tools_nonnegative(ts.drop_last());
    }
}

impl SourceBytes {
    /// The bytes attributed to `source`.
    pub fn get(&self, source: &ContentSource) -> (r: Option<usize>)
        ensures
            match r {
                Some(n) => exists|i: int| 0 <= i < self@.len() && #[trigger] self@[i].0 == source@ && self@[i].1 == n,
                None => forall|i: int| 0 <= i < self@.len() ==> #[trigger] self@[i].0 != source@,
            },
    {
        let mut i: usize = 0;
        while i < self.entries.len()
            invariant
                i <= self.entries@.len(),
                forall|j: int| 0 <= j < i ==> #[trigger] self@[j].0 != source@,
            decreases self.entries@.len() - i,
        {
            if same_source(&self.entries[i].0, source) {
                assert(self@[i as int].0 == source@);
                return Some(self.entries[i].1);
            }
            i = i + 1;
        }
        None
    }

    /// The byte counts in source order.
    pub fn values(&self) -> (r: Vec<usize>)
        ensures
            r@.len() == self@.len(),
            forall|i: int| 0 <= i < r@.len() ==> #[trigger] r@[i] == self@[i].1,
    {
        let mut r: Vec<usize> = Vec::new();
        let mut i: usize = 0;
        while i < self.entries.len()
            invariant
                i <= self.entries@.len(),
                r@.len() == i,
                forall|j: int| 0 <= j < i ==> #[trigger] r@[j] == self@[j].1,
            decreases self.entries@.len() - i,
        {
            r.push(self.entries[i].1);
            i = i + 1;
        }
        r
    }

    /// The number of sources.
    pub fn len(&self) -> (n: usize)
        ensures
            n == self@.len(),
    {
        self.entries.len()
    }
}

impl ModelRequest {
    pub fn builder(model: &str) -> (b: ModelRequestBuilder)
        ensures
            b@ == (RequestModel {
                fragments: Seq::empty(),
                tools: Seq::empty(),
                model: model@,
                max_output_tokens: None,
                thinking_level: ThinkingLevel::High,
            }),
    {
        let b = ModelRequestBuilder {
            fragments: Vec::new(),
            tools: Vec::new(),
            model: String::from_str(model),
            max_output_tokens: None,
            thinking_level: ThinkingLevel::default(),
        };
        assert(fragments_view(b.fragments@) =~= Seq::<FragmentModel>::empty());
        assert(tools_view(b.tools@) =~= Seq::<ToolModel>::empty());
        b
    }

    pub fn fragments(&self) -> (f: &[PromptFragment])
        ensures
            fragments_view(f@) == self@.fragments,
    {
        self.fragments.as_slice()
    }

    pub fn tools(&self) -> (t: &[ToolDefinition])
        ensures
            tools_view(t@) == self@.tools,
    {
        self.tools.as_slice()
    }

    /// Byte attribution by source category, including tool definitions.
    /// This is derivable for every request because no content can bypass
    /// fragment construction.
    pub fn bytes_by_source(&self) -> (b: SourceBytes)
        requires
            bytes_fit(self@),
        ensures
            represents(b@, bytes_map(self@)),
            entries_sum(b@) == request_bytes(self@),
    {
        let ghost fs = self@.fragments;
        let ghost ts = self@.tools;
        let mut entries: Vec<(ContentSource, usize)> = Vec::new();
        proof {
            lemma_represents_empty::<int>();
            assert(byte_entries(entries@) =~= Seq::<(SourceModel, int)>::empty());
            assert(fs.take(0) =~= Seq::<FragmentModel>::empty());
        }
        let mut i: usize = 0;
        while i < self.fragments.len()
            invariant
                i <= self.fragments@.len(),
                fs == self@.fragments,
                fs.len() == self.fragments@.len(),
                bytes_fit(self@),
                represents(byte_entries(entries@), fragment_bytes(fs.take(i as int))),
                entries_sum(byte_entries(entries@)) == fragments_total(fs.take(i as int)),
            decreases self.fragments@.len() - i,
        {
            let f = &self.fragments[i];
            let n = f.byte_count();
            proof {
                assert(fs.take(i + 1).drop_last() =~= fs.take(i as int));
                assert(fs[i as int] == f@);
                lemma_fragment_bytes_grow(fs, i + 1);
                let t = fs.take(i + 1);
                assert(t.len() == i + 1);
                assert(fragment_bytes(t).dom().contains(f@.source));
                assert(bytes_map(self@).dom().contains(f@.source));
                if tools_bytes(ts) > 0 {
                    lemma_tools_nonnegative(ts);
                }
            }
            add_entry(&mut entries, &f.source, n, Ghost(fragment_bytes(fs.take(i as int))));
            i = i + 1;
        }
        assert(fs.take(fs.len() as int) =~= fs);
        let mut tool_total: usize = 0;
        let mut k: usize = 0;
        proof {
            assert(ts.take(0) =~= Seq::<ToolModel>::empty());
            lemma_tools_bytes_grow(ts, 0);
        }
        while k < self.tools.len()
            invariant
                k <= self.tools@.len(),
                ts == self@.tools,
                fs == self@.fragments,
                ts.len() == self.tools@.len(),
                bytes_fit(self@),
                tool_total == tools_bytes(ts.take(k as int)),
            decreases self.tools@.len() - k,
        {
            proof {
                assert(ts.take(k + 1).drop_last() =~= ts.take(k as int));
                assert(ts[k as int] == self.tools@[k as int]@);
                lemma_tools_bytes_grow(ts, k + 1);
                lemma_tools_bytes_grow(ts, k as int);
                lemma_fragment_bytes_grow(fs, fs.len() as int);
                let t = ts.take(k + 1);
                assert(t.len() == k + 1);
                assert(t.last() == ts[k as int]);
                assert(tools_bytes(t) == tools_bytes(ts.take(k as int)) + tool_bytes(ts[k as int]));
                lemma_fragment_bytes_nonnegative(fs, SourceModel::ToolDefinitions);
                if tools_bytes(ts) > 0 {
                    assert(bytes_map(self@).dom().contains(SourceModel::ToolDefinitions));
                    let m = fragment_bytes(fs);
                    assert(bytes_map(self@) == add_bytes(m, SourceModel::ToolDefinitions, tools_bytes(ts)));
                    assert(add_bytes(m, SourceModel::ToolDefinitions, tools_bytes(ts))[SourceModel::ToolDefinitions]
                        == (if m.dom().contains(SourceModel::ToolDefinitions) {
                        m[SourceModel::ToolDefinitions]
                    } else {
                        0
                    }) + tools_bytes(ts));
                    assert(bytes_map(self@)[SourceModel::ToolDefinitions] >= tools_bytes(ts));
                }
                assert(tools_bytes(ts) <= usize::MAX);
            }
            let n = self.tools[k].byte_len();
            tool_total = tool_total + n;
            k = k + 1;
        }
        assert(ts.take(ts.len() as int) =~= ts);
        if tool_total > 0 {
            proof {
                assert(bytes_map(self@).dom().contains(SourceModel::ToolDefinitions));
            }
            let tools_source = ContentSource::ToolDefinitions;
            add_entry(&mut entries, &tools_source, tool_total, Ghost(fragment_bytes(fs)));
        }
        SourceBytes { entries }
    }

    /// Every payload byte of the request: the sum over its sources.
    pub fn total_bytes(&self) -> (n: usize)
        requires
            request_bytes(self@) <= usize::MAX,
        ensures
            n == request_bytes(self@),
    {
        proof {
            lemma_bytes_within_total(self@);
        }
        let bytes = self.bytes_by_source();
        let values = bytes.values();
        let ghost es = bytes@;
        let mut total: usize = 0;
        let mut i: usize = 0;
        while i < values.len()
            invariant
                i <= values@.len(),
                values@.len() == es.len(),
                forall|j: int| 0 <= j < values@.len() ==> #[trigger] values@[j] == es[j].1,
                entries_sum(es) == request_bytes(self@),
                request_bytes(self@) <= usize::MAX,
                total == entries_sum(es.take(i as int)),
            decreases values@.len() - i,
        {
            proof {
                assert(es.take(i + 1).drop_last() =~= es.take(i as int));
                assert forall|j: int| 0 <= j < es.len() implies #[trigger] es[j].1 >= 0 by {
                    assert(values@[j] == es[j].1);
                }
                lemma_sum_prefix(es, i + 1);
            }
            total = total + values[i];
            i = i + 1;
        }
        assert(es.take(es.len() as int) =~= es);
        total
    }
}

proof fn lemma_sum_prefix(v: Seq<(SourceModel, int)>, k: int)
    requires
        0 <= k <= v.len(),
        forall|j: int| 0 <= j < v.len() ==> #[trigger] v[j].1 >= 0,
    ensures
        0 <= entries_sum(v.take(k)) <= entries_sum(v),
    decreases v.len() - k,
{
    if k < v.len() {
        lemma_sum_prefix(v, k + 1);
        assert(v.take(k + 1).drop_last() =~= v.take(k));
    } else {
        assert(v.take(k) =~= v);
    }
    lemma_sum_nonnegative(v.take(k));
}

proof fn lemma_sum_nonnegative(v: Seq<(SourceModel, int)>)
    requires
        forall|j: int| 0 <= j < v.len() ==> #[trigger] v[j].1 >= 0,
    ensures
        entries_sum(v) >= 0,
    decreases v.len(),
{
    if v.len() > 0 {
        lemma_sum_nonnegative(v.drop_last());
    }
}

proof fn lemma_fragment_bytes_nonnegative(fs: Seq<FragmentModel>, s: SourceModel)
    ensures
        fragment_bytes(fs).dom().contains(s) ==> 0 <= fragment_bytes(fs)[s] <= fragments_total(fs),
        fragments_total(fs) >= 0,
    decreases fs.len(),
{
    if fs.len() > 0 {
        lemma_fragment_bytes_nonnegative(fs.drop_last(), s);
        lemma_content_bytes_nonnegative(fs.last().content);
    }
}

/// Every source's bytes are within the request's total.
proof fn lemma_bytes_within_total(r: RequestModel)
    ensures
        request_bytes(r) <= usize::MAX ==> bytes_fit(r),
{
    lemma_tools_nonnegative(r.tools);
    assert forall|s: SourceModel| #[trigger] bytes_map(r).dom().contains(s) implies bytes_map(r)[s] <= request_bytes(r) by {
        lemma_fragment_bytes_nonnegative(r.fragments, s);
    }
}

/// The note that stands in for an image block.
pub open spec fn replace_image(b: BlockModel) -> BlockModel {
    match b {
        BlockModel::Image(_, _) => BlockModel::Text(TEXT_ONLY_IMAGE_NOTE@),
        _ => b,
    }
}

pub open spec fn has_image(c: Seq<BlockModel>) -> bool {
    exists|i: int| 0 <= i < c.len() && #[trigger] c[i] is Image
}

pub open spec fn without_images(c: Seq<BlockModel>) -> Seq<BlockModel> {
    c.map_values(|b: BlockModel| replace_image(b))
}

/// A fragment with each image replaced by the note; one without images stays as it is.
pub open spec fn text_only(f: FragmentModel) -> FragmentModel {
    if has_image(f.content) {
        FragmentModel { content: without_images(f.content), ..f }
    } else {
        f
    }
}

/// The replaced content of every fragment fits the byte count.
pub open spec fn notes_fit(r: RequestModel) -> bool {
    forall|i: int|
        0 <= i < r.fragments.len() ==> content_bytes(without_images((#[trigger] r.fragments[i]).content))
            <= usize::MAX
}

fn replace_images(content: &[ContentBlock]) -> (r: (Vec<ContentBlock>, bool))
    ensures
        blocks_view(r.0@) == without_images(content@.map_values(|b: ContentBlock| b@)),
        r.1 == has_image(content@.map_values(|b: ContentBlock| b@)),
{
    let ghost bs = content@.map_values(|b: ContentBlock| b@);
    let mut out: Vec<ContentBlock> = Vec::new();
    let mut any = false;
    let mut i: usize = 0;
    while i < content.len()
        invariant
            i <= content@.len(),
            bs == content@.map_values(|b: ContentBlock| b@),
            out@.len() == i,
            forall|j: int| 0 <= j < i ==> #[trigger] out@[j]@ == replace_image(bs[j]),
            any == exists|j: int| 0 <= j < i && #[trigger] bs[j] is Image,
        decreases content@.len() - i,
    {
        assert(bs[i as int] == content@[i as int]@);
        match &content[i] {
            ContentBlock::Image { .. } => {
                out.push(ContentBlock::Text { text: String::from_str(TEXT_ONLY_IMAGE_NOTE) });
                any = true;
            },
            block => {
                out.push(block.clone());
            },
        }
        i = i + 1;
    }
    assert(blocks_view(out@) =~= without_images(bs));
    (out, any)
}

impl ModelRequest {
    /// Categorized heuristic estimate. Tokenizer counts and provider-reported
    /// usage are separate measurements; this does not count wire framing.
    pub fn estimate(&self) -> (r: RequestEstimate)
        requires
            tools_fit(self@),
        ensures
            r@.method.bytes_per_token@ == 4,
            r@.method.image_tokens == 8192,
            estimates(r@.method, self@, r@),
    {
        let e = ByteEstimator::default();
        e.estimate(self)
    }

    /// Prefix-cache pattern: the live request, unchanged, with one
    /// instruction appended as a suffix. Tool definitions are dropped:
    /// suffix requests want plain text back.
    pub fn with_suffix_instruction(&self, source: ContentSource, instruction: &str) -> (r: ModelRequest)
        ensures
            r@ == (RequestModel {
                fragments: self@.fragments.push(
                    FragmentModel {
                        source: source@,
                        role: Role::User,
                        content: seq![BlockModel::Text(instruction@)],
                    },
                ),
                tools: Seq::empty(),
                ..self@
            }),
    {
        let mut request = self.clone();
        request.tools = Vec::new();
        let ghost before = request.fragments@;
        let fragment = PromptFragment::text(source, Role::User, instruction);
        request.fragments.push(fragment);
        assert(fragments_view(request.fragments@) =~= fragments_view(before).push(fragment@));
        assert(tools_view(request.tools@) =~= Seq::<ToolModel>::empty());
        request
    }

    /// Cache-warm probe: the request unchanged, tool definitions kept, plus
    /// one throwaway user fragment after the cached prefix, with at most one
    /// output token.
    pub fn with_warm_probe(&self) -> (r: ModelRequest)
        ensures
            r@ == (RequestModel {
                fragments: self@.fragments.push(
                    FragmentModel {
                        source: SourceModel::SystemReminder("cache-warm"@),
                        role: Role::User,
                        content: seq![BlockModel::Text("ping"@)],
                    },
                ),
                max_output_tokens: Some(1),
                ..self@
            }),
    {
        let mut request = self.clone();
        request.max_output_tokens = Some(1);
        let ghost before = request.fragments@;
        let source = ContentSource::SystemReminder { origin: String::from_str("cache-warm") };
        let fragment = PromptFragment::text(source, Role::User, "ping");
        request.fragments.push(fragment);
        assert(fragments_view(request.fragments@) =~= fragments_view(before).push(fragment@));
        request
    }

    /// The request with every image block replaced by a text note, for
    /// models whose endpoint accepts text content only. Attribution is
    /// preserved per fragment; only the image bytes become the note's text.
    pub fn without_image_blocks(&self) -> (r: ModelRequest)
        requires
            notes_fit(self@),
        ensures
            r@ == (RequestModel {
                fragments: self@.fragments.map_values(|f: FragmentModel| text_only(f)),
                ..self@
            }),
    {
        let mut request = self.clone();
        let ghost fs = self@.fragments;
        let mut i: usize = 0;
        while i < request.fragments.len()
            invariant
                i <= request.fragments@.len(),
                fs == self@.fragments,
                notes_fit(self@),
                fs.len() == request.fragments@.len(),
                request@.tools == self@.tools,
                request@.model == self@.model,
                request@.max_output_tokens == self@.max_output_tokens,
                request@.thinking_level == self@.thinking_level,
                forall|j: int| 0 <= j < i ==> #[trigger] request.fragments@[j]@ == text_only(fs[j]),
                forall|j: int| i <= j < fs.len() ==> #[trigger] request.fragments@[j]@ == fs[j],
            decreases request.fragments@.len() - i,
        {
            let (replaced, any) = replace_images(request.fragments[i].content());
            proof {
                let f = request.fragments@[i as int]@;
                assert(request.fragments@[i as int]@ == fs[i as int]);
                assert(request.fragments@[i as int].content@.map_values(|b: ContentBlock| b@) =~= f.content);
            }
            if any {
                let source = request.fragments[i].source().clone();
                let role = request.fragments[i].role();
                let fragment = PromptFragment::new(source, role, replaced);
                request.fragments.set(i, fragment);
            }
            i = i + 1;
        }
        assert(fragments_view(request.fragments@) =~= fs.map_values(|f: FragmentModel| text_only(f)));
        request
    }
}


/// A block's payload bytes are the UTF-8 bytes of the string it carries:
/// text and reasoning as written, an image's base64 data, a tool use's
/// arguments, a tool result's content. Names, IDs, media types and flags add
/// nothing, and adding a block to a fragment adds exactly its payload.
pub proof fn law_payload_bytes(b: BlockModel, s: Seq<BlockModel>)
    ensures
        b matches BlockModel::Text(t) ==> block_bytes(b) == vstd::utf8::encode_utf8(t).len(),
        b matches BlockModel::Reasoning(t) ==> block_bytes(b) == vstd::utf8::encode_utf8(t).len(),
        b matches BlockModel::Image(_, data) ==> block_bytes(b) == vstd::utf8::encode_utf8(data).len(),
        b matches BlockModel::ToolUse(_, _, args) ==> block_bytes(b) == vstd::utf8::encode_utf8(args).len(),
        b matches BlockModel::ToolResult(_, content, _) ==> block_bytes(b) == vstd::utf8::encode_utf8(
            content,
        ).len(),
        content_bytes(s.push(b)) == content_bytes(s) + block_bytes(b),
        content_bytes(Seq::<BlockModel>::empty()) == 0,
{
    assert(s.push(b).drop_last() == s);
}
} // verus!
