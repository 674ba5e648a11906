//! Heuristic request estimates and provider-reported usage.
use vstd::prelude::*;

use super::order::{lemma_source_less, same_source, sorted_sources, source_less};
use super::request::{
    content_bytes,
    block_bytes, entry_keys, find_slot, fragments_view, keys_of, lemma_represents_empty,
    lemma_represents_insert, lemma_represents_update, represents, tool_bytes, tools_view, BlockModel,
    ContentBlock, ContentSource, FragmentModel, ModelRequest, RequestModel, SourceModel, ToolModel,
};

verus! {

/// A count that is never zero.
#[derive(Debug, Clone, Copy, PartialEq, Eq, Hash)]
pub struct NonZeroUsize {
    value: usize,
}

impl View for NonZeroUsize {
    type V = usize;

    closed spec fn view(&self) -> usize {
        self.value
    }
}

impl NonZeroUsize {
    #[verifier::type_invariant]
    closed spec fn positive(self) -> bool {
        self.value > 0
    }

    /// The count `n`, unless it is zero.
    pub fn new(n: usize) -> (r: Option<NonZeroUsize>)
        ensures
            match r {
                Some(v) => n > 0 && v@ == n,
                None => n == 0,
            },
    {
        if n == 0 {
            None
        } else {
            Some(NonZeroUsize { value: n })
        }
    }

    pub fn get(self) -> (n: usize)
        ensures
            n == self@,
            n > 0,
    {
        proof {
            use_type_invariant(&self);
        }
        self.value
    }
}

/// `x` clamped to the largest `usize`.
pub open spec fn clamp_usize(x: int) -> usize {
    if x > usize::MAX {
        usize::MAX
    } else {
        x as usize
    }
}

/// `x` clamped to the largest `u64`.
pub open spec fn clamp_u64(x: int) -> u64 {
    if x > u64::MAX {
        u64::MAX
    } else {
        x as u64
    }
}

fn saturating_mul(a: u64, b: u64) -> (r: u64)
    ensures
        r == clamp_u64(a * b),
{
    if a == 0 {
        assert(a * b == 0) by (nonlinear_arith)
            requires
                a == 0,
        ;
        return 0;
    }
    if b > u64::MAX / a {
        assert(a * b > u64::MAX) by (nonlinear_arith)
            requires
                a > 0,
                b > u64::MAX / a,
        ;
        u64::MAX
    } else {
        assert(a * b <= u64::MAX) by (nonlinear_arith)
            requires
                a > 0,
                b <= u64::MAX / a,
        ;
        a * b
    }
}

/// `n` divided by `d`, rounded up.
pub open spec fn div_ceil(n: int, d: int) -> int {
    n / d + if n % d == 0 {
        0int
    } else {
        1int
    }
}

/// Explicit heuristic policy. Image transport bytes are never treated as text.
/// This estimate excludes provider framing and is not a tokenizer count.
#[derive(Debug, Clone, Copy, PartialEq, Eq)]
pub struct ByteEstimator {
    pub bytes_per_token: NonZeroUsize,
    pub image_tokens: u64,
}

impl Default for ByteEstimator {
    fn default() -> (e: ByteEstimator)
        ensures
            e.bytes_per_token@ == 4,
            e.image_tokens == 8192,
    {
        let four = NonZeroUsize { value: 4 };
        ByteEstimator { bytes_per_token: four, image_tokens: 8192 }
    }
}

/// The tokens of `bytes` payload bytes at `per` bytes per token, rounded up.
pub open spec fn byte_tokens(per: usize, bytes: int) -> int {
    div_ceil(bytes, per as int)
}

impl ByteEstimator {
    fn byte_tokens(&self, bytes: usize) -> (t: u64)
        ensures
            t == byte_tokens(self.bytes_per_token@, bytes as int),
    {
        let per = self.bytes_per_token.get();
        let q = bytes / per;
        let r = bytes % per;
        assert(q <= bytes) by (nonlinear_arith)
            requires
                per > 0,
                q == bytes / per,
        ;
        if r == 0 {
            q as u64
        } else {
            assert(q < bytes) by (nonlinear_arith)
                requires
                    per > 0,
                    q == bytes / per,
                    r == bytes % per,
                    r != 0,
            ;
            (q + 1) as u64
        }
    }

    /// Round up so nonempty text never disappears from accounting.
    pub fn text_tokens(&self, text: &str) -> (t: u64)
        ensures
            t == byte_tokens(self.bytes_per_token@, crate::locations::byte_len(text@) as int),
    {
        self.byte_tokens(crate::locations::byte_length(text))
    }
}

/// Whether every tool's bytes fit in `usize`.
pub open spec fn tools_fit(r: RequestModel) -> bool {
    forall|i: int| 0 <= i < r.tools.len() ==> tool_bytes(#[trigger] r.tools[i]) <= usize::MAX
}

/// Adds one block to a source's (text bytes, images) tally, saturating.
pub open spec fn tally_block(t: (usize, u64), b: BlockModel) -> (usize, u64) {
    match b {
        BlockModel::Image(_, _) => (t.0, clamp_u64(t.1 + 1)),
        _ => (clamp_usize(t.0 + block_bytes(b)), t.1),
    }
}

pub open spec fn tally_blocks(t: (usize, u64), bs: Seq<BlockModel>) -> (usize, u64)
    decreases bs.len(),
{
    if bs.len() == 0 {
        t
    } else {
        tally_block(tally_blocks(t, bs.drop_last()), bs.last())
    }
}

pub open spec fn tally_or_zero(m: Map<SourceModel, (usize, u64)>, s: SourceModel) -> (usize, u64) {
    if m.dom().contains(s) {
        m[s]
    } else {
        (0, 0)
    }
}

/// Tallies by source over the fragments; a fragment's source is counted even
/// when it holds nothing.
pub open spec fn tally_fragments(fs: Seq<FragmentModel>) -> Map<SourceModel, (usize, u64)>
    decreases fs.len(),
{
    if fs.len() == 0 {
        Map::empty()
    } else {
        let m = tally_fragments(fs.drop_last());
        let f = fs.last();
        m.insert(f.source, tally_blocks(tally_or_zero(m, f.source), f.content))
    }
}

pub open spec fn tally_tools(b: usize, ts: Seq<ToolModel>) -> usize
    decreases ts.len(),
{
    if ts.len() == 0 {
        b
    } else {
        clamp_usize(tally_tools(b, ts.drop_last()) + tool_bytes(ts.last()))
    }
}

/// The tallies of a request, tool definitions under their own source when
/// the request has any.
pub open spec fn tally_map(r: RequestModel) -> Map<SourceModel, (usize, u64)> {
    let m = tally_fragments(r.fragments);
    if r.tools.len() > 0 {
        let t = tally_or_zero(m, SourceModel::ToolDefinitions);
        m.insert(SourceModel::ToolDefinitions, (tally_tools(t.0, r.tools), t.1))
    } else {
        m
    }
}

/// The tokens of one source: its text rounded up, plus the image reserve.
pub open spec fn source_tokens(e: ByteEstimator, t: (usize, u64)) -> u64 {
    clamp_u64(byte_tokens(e.bytes_per_token@, t.0 as int) + clamp_u64(t.1 * e.image_tokens))
}

/// One source's heuristic allocation, not provider-reported category usage.
#[derive(Debug, PartialEq, Eq)]
pub struct SourceEstimate {
    pub source: ContentSource,
    pub text_bytes: usize,
    pub images: u64,
    pub tokens: u64,
}

pub struct SourceEstimateModel {
    pub source: SourceModel,
    pub text_bytes: usize,
    pub images: u64,
    pub tokens: u64,
}

impl View for SourceEstimate {
    type V = SourceEstimateModel;

    open spec fn view(&self) -> SourceEstimateModel {
        SourceEstimateModel {
            source: self.source@,
            text_bytes: self.text_bytes,
            images: self.images,
            tokens: self.tokens,
        }
    }
}

impl Clone for SourceEstimate {
    fn clone(&self) -> (r: SourceEstimate)
        ensures
            r@ == self@,
    {
        SourceEstimate {
            source: self.source.clone(),
            text_bytes: self.text_bytes,
            images: self.images,
            tokens: self.tokens,
        }
    }
}

pub open spec fn estimates_view(s: Seq<SourceEstimate>) -> Seq<SourceEstimateModel> {
    s.map_values(|e: SourceEstimate| e@)
}

/// Categorized estimate. The total derives from the categories instead of
/// being a separately mutable field that could drift from them.
#[derive(Debug, PartialEq, Eq)]
pub struct RequestEstimate {
    method: ByteEstimator,
    sources: Vec<SourceEstimate>,
}

pub struct RequestEstimateModel {
    pub method: ByteEstimator,
    pub sources: Seq<SourceEstimateModel>,
}

impl View for RequestEstimate {
    type V = RequestEstimateModel;

    closed spec fn view(&self) -> RequestEstimateModel {
        RequestEstimateModel { method: self.method, sources: estimates_view(self.sources@) }
    }
}

pub open spec fn estimate_entries(s: Seq<SourceEstimateModel>) -> Seq<(SourceModel, (usize, u64))> {
    s.map_values(|x: SourceEstimateModel| (x.source, (x.text_bytes, x.images)))
}

/// `est` is the estimate of request `r` under policy `e`: one entry per
/// source in source order, each with its tally and tokens.
pub open spec fn estimates(e: ByteEstimator, r: RequestModel, est: RequestEstimateModel) -> bool {
    &&& est.method == e
    &&& represents(estimate_entries(est.sources), tally_map(r))
    &&& forall|i: int|
        0 <= i < est.sources.len() ==> (#[trigger] est.sources[i]).tokens == source_tokens(
            e,
            (est.sources[i].text_bytes, est.sources[i].images),
        )
}

pub open spec fn tally_entries(v: Seq<(ContentSource, (usize, u64))>) -> Seq<(SourceModel, (usize, u64))> {
    v.map_values(|e: (ContentSource, (usize, u64))| (e.0@, e.1))
}

impl Clone for RequestEstimate {
    fn clone(&self) -> (r: RequestEstimate)
        ensures
            r@ == self@,
    {
        let mut sources: Vec<SourceEstimate> = Vec::new();
        let mut i: usize = 0;
        while i < self.sources.len()
            invariant
                i <= self.sources@.len(),
                sources@.len() == i,
                forall|j: int| 0 <= j < i ==> #[trigger] sources@[j]@ == self.sources@[j]@,
            decreases self.sources@.len() - i,
        {
            sources.push(self.sources[i].clone());
            i = i + 1;
        }
        assert(estimates_view(sources@) =~= estimates_view(self.sources@));
        RequestEstimate { method: self.method, sources }
    }
}

/// Adds the blocks to a tally.
fn tally_content(t: (usize, u64), content: &[ContentBlock]) -> (r: (usize, u64))
    ensures
        r == tally_blocks(t, content@.map_values(|b: ContentBlock| b@)),
{
    let ghost bs = content@.map_values(|b: ContentBlock| b@);
    let mut t = t;
    let ghost t0 = t;
    let mut i: usize = 0;
    while i < content.len()
        invariant
            i <= content@.len(),
            bs == content@.map_values(|b: ContentBlock| b@),
            t == tally_blocks(t0, bs.take(i as int)),
        decreases content@.len() - i,
    {
        proof {
            assert(bs.take(i + 1).drop_last() =~= bs.take(i as int));
            assert(bs[i as int] == content@[i as int]@);
        }
        match &content[i] {
            ContentBlock::Image { .. } => {
                t = (t.0, t.1.saturating_add(1));
            },
            block => {
                let n = block.byte_len();
                t = (t.0.saturating_add(n), t.1);
            },
        }
        i = i + 1;
    }
    assert(bs.take(content@.len() as int) =~= bs);
    t
}

/// Puts `t` as the tally of `s`, found at `i` or inserted there.
fn put_tally(
    v: &mut Vec<(ContentSource, (usize, u64))>,
    i: usize,
    found: bool,
    s: &ContentSource,
    t: (usize, u64),
    Ghost(m): Ghost<Map<SourceModel, (usize, u64)>>,
)
    requires
        represents(tally_entries(old(v)@), m),
        i <= old(v)@.len(),
        found ==> i < old(v)@.len() && old(v)@[i as int].0@ == s@,
        !found ==> (forall|j: int| 0 <= j < i ==> source_less(#[trigger] old(v)@[j].0@, s@)) && (forall|
            j: int,
        | i <= j < old(v)@.len() ==> source_less(s@, #[trigger] old(v)@[j].0@)),
    ensures
        represents(tally_entries(final(v)@), m.insert(s@, t)),
{
    let ghost es = tally_entries(v@);
    let e = (s.clone(), t);
    if found {
        v.set(i, e);
        proof {
            lemma_represents_update(es, m, i as int, t);
            assert(tally_entries(v@) =~= es.update(i as int, (es[i as int].0, t)));
        }
    } else {
        v.insert(i, e);
        proof {
            assert forall|j: int| 0 <= j < i implies source_less(#[trigger] es[j].0, s@) by {
                assert(es[j].0 == old(v)@[j].0@);
            }
            assert forall|j: int| i <= j < es.len() implies source_less(s@, #[trigger] es[j].0) by {
                assert(es[j].0 == old(v)@[j].0@);
            }
            lemma_represents_insert(es, m, i as int, s@, t);
            assert(tally_entries(v@) =~= es.insert(i as int, (s@, t)));
        }
    }
}

/// The tally of `s` in the entries: its own, or zero when absent.
fn tally_at(v: &Vec<(ContentSource, (usize, u64))>, i: usize, found: bool, s: &ContentSource, Ghost(m): Ghost<Map<SourceModel, (usize, u64)>>) -> (t: (usize, u64))
    requires
        represents(tally_entries(v@), m),
        i <= v@.len(),
        found ==> i < v@.len() && v@[i as int].0@ == s@,
        !found ==> (forall|j: int| 0 <= j < i ==> source_less(#[trigger] v@[j].0@, s@)) && (forall|
            j: int,
        | i <= j < v@.len() ==> source_less(s@, #[trigger] v@[j].0@)),
    ensures
        t == tally_or_zero(m, s@),
{
    let ghost es = tally_entries(v@);
    if found {
        assert(es[i as int].0 == s@);
        v[i].1
    } else {
        proof {
            assert forall|j: int| 0 <= j < i implies source_less(#[trigger] es[j].0, s@) by {
                assert(es[j].0 == v@[j].0@);
            }
            assert forall|j: int| i <= j < es.len() implies source_less(s@, #[trigger] es[j].0) by {
                assert(es[j].0 == v@[j].0@);
            }
            lemma_represents_insert(es, m, i as int, s@, (0, 0));
        }
        (0, 0)
    }
}

impl ByteEstimator {
    /// Aggregate bytes by the full typed source before rounding each source
    /// once. The total is exactly the sum of these non-overlapping categories.
    pub fn estimate(&self, request: &ModelRequest) -> (r: RequestEstimate)
        requires
            tools_fit(request@),
        ensures
            estimates(*self, request@, r@),
    {
        let ghost rm = request@;
        let fragments = request.fragments();
        let ghost fs = rm.fragments;
        let mut tallies: Vec<(ContentSource, (usize, u64))> = Vec::new();
        proof {
            lemma_represents_empty::<(usize, u64)>();
            assert(tally_entries(tallies@) =~= Seq::<(SourceModel, (usize, u64))>::empty());
            assert(fs.take(0) =~= Seq::<FragmentModel>::empty());
        }
        let mut i: usize = 0;
        while i < fragments.len()
            invariant
                i <= fragments@.len(),
                fs == rm.fragments,
                fragments_view(fragments@) == fs,
                fs.len() == fragments@.len(),
                represents(tally_entries(tallies@), tally_fragments(fs.take(i as int))),
            decreases fragments@.len() - i,
        {
            let fragment = &fragments[i];
            let source = fragment.source();
            proof {
                assert(fs.take(i + 1).drop_last() =~= fs.take(i as int));
                assert(fs[i as int] == fragment@);
                let t = fs.take(i + 1);
                assert(t.len() == i + 1);
                assert(keys_of(tallies@) =~= entry_keys(tally_entries(tallies@)));
            }
            let ghost m = tally_fragments(fs.take(i as int));
            let (k, found) = find_slot(&tallies, source);
            let start = tally_at(&tallies, k, found, source, Ghost(m));
            let content = fragment.content();
            let t = tally_content(start, content);
            proof {
                assert(content@.map_values(|b: ContentBlock| b@) =~= fragment@.content);
            }
            put_tally(&mut tallies, k, found, source, t, Ghost(m));
            i = i + 1;
        }
        assert(fs.take(fs.len() as int) =~= fs);
        let tools = request.tools();
        if tools.len() > 0 {
            let ghost m = tally_fragments(fs);
            let definitions = ContentSource::ToolDefinitions;
            proof {
                assert(keys_of(tallies@) =~= entry_keys(tally_entries(tallies@)));
            }
            let (k, found) = find_slot(&tallies, &definitions);
            let start = tally_at(&tallies, k, found, &definitions, Ghost(m));
            let ghost ts = rm.tools;
            let mut bytes = start.0;
            let mut j: usize = 0;
            proof {
                assert(ts.take(0) =~= Seq::<ToolModel>::empty());
            }
            while j < tools.len()
                invariant
                    j <= tools@.len(),
                    ts == rm.tools,
                    tools_view(tools@) == ts,
                    ts.len() == tools@.len(),
                    tools_fit(rm),
                    bytes == tally_tools(start.0, ts.take(j as int)),
                decreases tools@.len() - j,
            {
                proof {
                    assert(ts.take(j + 1).drop_last() =~= ts.take(j as int));
                    assert(ts[j as int] == tools@[j as int]@);
                }
                let n = tools[j].byte_len();
                bytes = bytes.saturating_add(n);
                j = j + 1;
            }
            assert(ts.take(ts.len() as int) =~= ts);
            put_tally(&mut tallies, k, found, &definitions, (bytes, start.1), Ghost(m));
        }
        let ghost final_tallies = tally_entries(tallies@);
        let mut sources: Vec<SourceEstimate> = Vec::new();
        let mut n: usize = 0;
        while n < tallies.len()
            invariant
                n <= tallies@.len(),
                final_tallies == tally_entries(tallies@),
                sources@.len() == n,
                forall|q: int| 0 <= q < n ==> (#[trigger] sources@[q])@ == (SourceEstimateModel {
                    source: final_tallies[q].0,
                    text_bytes: final_tallies[q].1.0,
                    images: final_tallies[q].1.1,
                    tokens: source_tokens(*self, final_tallies[q].1),
                }),
            decreases tallies@.len() - n,
        {
            let (text_bytes, images) = tallies[n].1;
            let tokens = self.byte_tokens(text_bytes).saturating_add(saturating_mul(images, self.image_tokens));
            sources.push(SourceEstimate { source: tallies[n].0.clone(), text_bytes, images, tokens });
            n = n + 1;
        }
        let r = RequestEstimate { method: *self, sources };
        proof {
            assert(estimate_entries(r@.sources) =~= final_tallies);
        }
        r
    }
}

/// The sum of the source tokens, saturating.
pub open spec fn total_of(s: Seq<SourceEstimateModel>) -> u64
    decreases s.len(),
{
    if s.len() == 0 {
        0
    } else {
        clamp_u64(total_of(s.drop_last()) + s.last().tokens)
    }
}

/// The tokens of the first entry for `source`, zero when there is none.
pub open spec fn tokens_of(s: Seq<SourceEstimateModel>, source: SourceModel) -> u64
    decreases s.len(),
{
    if s.len() == 0 {
        0
    } else if s[0].source == source {
        s[0].tokens
    } else {
        tokens_of(s.drop_first(), source)
    }
}

impl RequestEstimate {
    pub fn method(&self) -> (m: ByteEstimator)
        ensures
            m == self@.method,
    {
        self.method
    }

    pub fn sources(&self) -> (s: &[SourceEstimate])
        ensures
            estimates_view(s@) == self@.sources,
    {
        self.sources.as_slice()
    }

    pub fn total_tokens(&self) -> (t: u64)
        ensures
            t == total_of(self@.sources),
    {
        let ghost s = self@.sources;
        let mut total: u64 = 0;
        let mut i: usize = 0;
        while i < self.sources.len()
            invariant
                i <= self.sources@.len(),
                s == estimates_view(self.sources@),
                total == total_of(s.take(i as int)),
            decreases self.sources@.len() - i,
        {
            proof {
                assert(s.take(i + 1).drop_last() =~= s.take(i as int));
                assert(s[i as int] == self.sources@[i as int]@);
            }
            total = total.saturating_add(self.sources[i].tokens);
            i = i + 1;
        }
        assert(s.take(s.len() as int) =~= s);
        total
    }

    pub fn tokens_for(&self, source: &ContentSource) -> (t: u64)
        ensures
            t == tokens_of(self@.sources, source@),
    {
        let ghost s = self@.sources;
        assert(s.skip(0) =~= s);
        let mut i: usize = 0;
        while i < self.sources.len()
            invariant
                i <= self.sources@.len(),
                s == estimates_view(self.sources@),
                tokens_of(s, source@) == tokens_of(s.skip(i as int), source@),
            decreases self.sources@.len() - i,
        {
            let ghost rest = s.skip(i as int);
            assert(rest[0] == self.sources@[i as int]@);
            if same_source(&self.sources[i].source, source) {
                return self.sources[i].tokens;
            }
            assert(rest.drop_first() =~= s.skip(i + 1));
            i = i + 1;
        }
        assert(s.skip(s.len() as int) =~= Seq::<SourceEstimateModel>::empty());
        0
    }
}

/// Provider-reported usage for one model call. Input/cache lanes are disjoint;
/// reasoning is a subset of output and must not be added to the output total.
#[derive(Debug, Clone, PartialEq, Eq)]
pub struct ReportedUsage {
    pub input_tokens: u64,
    pub output_tokens: u64,
    pub cache_read_tokens: u64,
    pub cache_write_tokens: u64,
    pub reasoning_tokens: u64,
}

impl Default for ReportedUsage {
    fn default() -> (u: ReportedUsage)
        ensures
            u == (ReportedUsage {
                input_tokens: 0,
                output_tokens: 0,
                cache_read_tokens: 0,
                cache_write_tokens: 0,
                reasoning_tokens: 0,
            }),
    {
        ReportedUsage {
            input_tokens: 0,
            output_tokens: 0,
            cache_read_tokens: 0,
            cache_write_tokens: 0,
            reasoning_tokens: 0,
        }
    }
}

/// The prompt fill of a call: uncached input and both cache lanes, saturating.
pub open spec fn prompt_of(u: ReportedUsage) -> u64 {
    clamp_u64(u.input_tokens + u.cache_read_tokens + u.cache_write_tokens)
}

pub open spec fn max_u64(a: u64, b: u64) -> u64 {
    if a >= b {
        a
    } else {
        b
    }
}

/// Field-wise maxima of two snapshots of one call.
pub open spec fn merged(a: ReportedUsage, b: ReportedUsage) -> ReportedUsage {
    ReportedUsage {
        input_tokens: max_u64(a.input_tokens, b.input_tokens),
        output_tokens: max_u64(a.output_tokens, b.output_tokens),
        cache_read_tokens: max_u64(a.cache_read_tokens, b.cache_read_tokens),
        cache_write_tokens: max_u64(a.cache_write_tokens, b.cache_write_tokens),
        reasoning_tokens: max_u64(a.reasoning_tokens, b.reasoning_tokens),
    }
}

/// Field-wise saturating sums of two calls.
pub open spec fn summed(a: ReportedUsage, b: ReportedUsage) -> ReportedUsage {
    ReportedUsage {
        input_tokens: clamp_u64(a.input_tokens + b.input_tokens),
        output_tokens: clamp_u64(a.output_tokens + b.output_tokens),
        cache_read_tokens: clamp_u64(a.cache_read_tokens + b.cache_read_tokens),
        cache_write_tokens: clamp_u64(a.cache_write_tokens + b.cache_write_tokens),
        reasoning_tokens: clamp_u64(a.reasoning_tokens + b.reasoning_tokens),
    }
}

fn max_of(a: u64, b: u64) -> (r: u64)
    ensures
        r == max_u64(a, b),
{
    if a >= b {
        a
    } else {
        b
    }
}

impl ReportedUsage {
    pub fn prompt_tokens(&self) -> (t: u64)
        ensures
            t == prompt_of(*self),
    {
        self.input_tokens.saturating_add(self.cache_read_tokens).saturating_add(self.cache_write_tokens)
    }

    /// Merge cumulative, partially populated snapshots of the SAME call.
    /// Do not use this to aggregate distinct requests.
    pub fn merge_snapshot(&mut self, snapshot: &ReportedUsage)
        ensures
            *final(self) == merged(*old(self), *snapshot),
    {
        self.input_tokens = max_of(self.input_tokens, snapshot.input_tokens);
        self.output_tokens = max_of(self.output_tokens, snapshot.output_tokens);
        self.cache_read_tokens = max_of(self.cache_read_tokens, snapshot.cache_read_tokens);
        self.cache_write_tokens = max_of(self.cache_write_tokens, snapshot.cache_write_tokens);
        self.reasoning_tokens = max_of(self.reasoning_tokens, snapshot.reasoning_tokens);
    }

    /// Sum distinct calls. Reasoning stays an explanatory subset of output.
    pub fn add_call(&mut self, call: &ReportedUsage)
        ensures
            *final(self) == summed(*old(self), *call),
    {
        self.input_tokens = self.input_tokens.saturating_add(call.input_tokens);
        self.output_tokens = self.output_tokens.saturating_add(call.output_tokens);
        self.cache_read_tokens = self.cache_read_tokens.saturating_add(call.cache_read_tokens);
        self.cache_write_tokens = self.cache_write_tokens.saturating_add(call.cache_write_tokens);
        self.reasoning_tokens = self.reasoning_tokens.saturating_add(call.reasoning_tokens);
    }
}

/// Usage for one call. `estimate: None` means source attribution is unavailable
/// (for example, a backend assembled the prompt), not zero category usage.
#[derive(Debug, Clone, PartialEq, Eq)]
pub struct TokenUsage {
    pub estimate: Option<RequestEstimate>,
    pub reported: Option<ReportedUsage>,
    pub context_window_tokens: u64,
}

impl Default for TokenUsage {
    fn default() -> (u: TokenUsage)
        ensures
            u.estimate is None,
            u.reported is None,
            u.context_window_tokens == 0,
    {
        TokenUsage { estimate: None, reported: None, context_window_tokens: 0 }
    }
}

impl TokenUsage {
    /// Best available prompt fill: reported input including cache lanes,
    /// otherwise the categorized estimate. None means no measurement exists.
    pub fn prompt_tokens(&self) -> (t: Option<u64>)
        ensures
            t == match self.reported {
                Some(u) => Some(prompt_of(u)),
                None => match self.estimate {
                    Some(e) => Some(total_of(e@.sources)),
                    None => None,
                },
            },
    {
        match &self.reported {
            Some(u) => Some(u.prompt_tokens()),
            None => match &self.estimate {
                Some(e) => Some(e.total_tokens()),
                None => None,
            },
        }
    }
}

// ---------------------------------------------------------------------------
// Laws

/// Rounding: empty payloads cost nothing, and a nonempty payload never
/// vanishes.
pub proof fn law_rounding_keeps_nonempty_text(e: ByteEstimator, bytes: usize)
    requires
        e.bytes_per_token@ > 0,
    ensures
        byte_tokens(e.bytes_per_token@, bytes as int) == 0 <==> bytes == 0,
        byte_tokens(e.bytes_per_token@, bytes as int) <= bytes,
{
    let per = e.bytes_per_token@ as int;
    let b = bytes as int;
    assert(b / per <= b && (b > 0 && b % per == 0 ==> b / per > 0) && (b / per == 0 ==> b % per == b))
        by (nonlinear_arith)
        requires
            per > 0,
            b >= 0,
    ;
    assert(b / per < b || b % per == 0 || b == 0) by (nonlinear_arith)
        requires
            per > 0,
            b >= 0,
    ;
}

/// The sum of the source tokens, without saturation.
pub open spec fn sum_of(s: Seq<SourceEstimateModel>) -> int
    decreases s.len(),
{
    if s.len() == 0 {
        0
    } else {
        sum_of(s.drop_last()) + s.last().tokens
    }
}

/// The total derives from the categories: it is their sum, saturated at the
/// largest `u64`.
pub proof fn law_total_is_the_sum_of_sources(s: Seq<SourceEstimateModel>)
    ensures
        total_of(s) == clamp_u64(sum_of(s)),
    decreases s.len(),
{
    if s.len() > 0 {
        law_total_is_the_sum_of_sources(s.drop_last());
        lemma_sum_nonnegative(s.drop_last());
    }
}

proof fn lemma_sum_nonnegative(s: Seq<SourceEstimateModel>)
    ensures
        sum_of(s) >= 0,
    decreases s.len(),
{
    if s.len() > 0 {
        lemma_sum_nonnegative(s.drop_last());
    }
}

/// Repeated snapshots: merging the same snapshot again changes nothing, and
/// the order of snapshots does not matter.
pub proof fn law_merge_is_idempotent_and_order_free(a: ReportedUsage, b: ReportedUsage, c: ReportedUsage)
    ensures
        merged(merged(a, b), b) == merged(a, b),
        merged(a, b) == merged(b, a),
        merged(merged(a, b), c) == merged(a, merged(b, c)),
{
}

/// Distinct calls add up: without saturation, the prompt fill of the sum of
/// two calls is the sum of their prompt fills, and reasoning stays within
/// output when it does in each call.
pub proof fn law_calls_add_up(a: ReportedUsage, b: ReportedUsage)
    requires
        a.input_tokens + a.cache_read_tokens + a.cache_write_tokens + b.input_tokens + b.cache_read_tokens
            + b.cache_write_tokens <= u64::MAX,
        a.output_tokens + b.output_tokens <= u64::MAX,
    ensures
        prompt_of(summed(a, b)) == prompt_of(a) + prompt_of(b),
        a.reasoning_tokens <= a.output_tokens && b.reasoning_tokens <= b.output_tokens ==> summed(
            a,
            b,
        ).reasoning_tokens <= summed(a, b).output_tokens,
{
}


pub open spec fn is_image(b: BlockModel) -> bool {
    b is Image
}

/// The blocks a source sends as text: every block but images.
pub open spec fn is_text_payload(b: BlockModel) -> bool {
    !(b is Image)
}

/// Images are counted one by one: tallying blocks adds the number of image
/// blocks among them to the image count (saturating at the largest `u64`),
/// and leaves the image count alone for every other block.
pub proof fn law_every_image_is_counted(t: (usize, u64), bs: Seq<BlockModel>)
    ensures
        tally_blocks(t, bs).1 == clamp_u64(t.1 + bs.filter(|b: BlockModel| is_image(b)).len()),
    decreases bs.len(),
{
    reveal_with_fuel(Seq::filter, 1);
    if bs.len() == 0 {
        assert(bs.filter(|b: BlockModel| is_image(b)).len() == 0);
    } else {
        law_every_image_is_counted(t, bs.drop_last());
        let n = bs.drop_last().filter(|b: BlockModel| is_image(b)).len();
        assert(bs.filter(|b: BlockModel| is_image(b)).len() == n + if is_image(bs.last()) {
            1int
        } else {
            0int
        });
    }
}

/// The image count of every source of an estimate: tallying a request's
/// fragments gives each source the number of image blocks in that source's
/// fragments (saturating).
pub proof fn law_source_images(fs: Seq<FragmentModel>, s: SourceModel)
    ensures
        tally_or_zero(tally_fragments(fs), s).1 == clamp_u64(source_images(fs, s)),
    decreases fs.len(),
{
    if fs.len() > 0 {
        law_source_images(fs.drop_last(), s);
        let m = tally_fragments(fs.drop_last());
        let f = fs.last();
        law_every_image_is_counted(tally_or_zero(m, f.source), f.content);
        lemma_source_images_nonneg(fs.drop_last(), s);
        let n = f.content.filter(|b: BlockModel| is_image(b)).len() as int;
        let prev = source_images(fs.drop_last(), s);
        let v = tally_blocks(tally_or_zero(m, f.source), f.content);
        assert(tally_fragments(fs) == m.insert(f.source, v));
        if f.source == s {
            assert(tally_or_zero(m.insert(f.source, v), s) == v);
            assert(clamp_u64(clamp_u64(prev) + n) == clamp_u64(prev + n));
        } else {
            assert(tally_or_zero(m.insert(f.source, v), s) == tally_or_zero(m, s));
        }
    }
}

proof fn lemma_source_images_nonneg(fs: Seq<FragmentModel>, s: SourceModel)
    ensures
        source_images(fs, s) >= 0,
    decreases fs.len(),
{
    if fs.len() > 0 {
        lemma_source_images_nonneg(fs.drop_last(), s);
    }
}

/// The number of image blocks in the fragments of source `s`.
pub open spec fn source_images(fs: Seq<FragmentModel>, s: SourceModel) -> int
    decreases fs.len(),
{
    if fs.len() == 0 {
        0
    } else {
        source_images(fs.drop_last(), s) + if fs.last().source == s {
            fs.last().content.filter(|b: BlockModel| is_image(b)).len() as int
        } else {
            0int
        }
    }
}

/// Every source of an estimate reserves one image cost per image block sent
/// under that source: its image count is the number of those blocks
/// (saturating), and its tokens are its text rounded up plus that many image
/// reserves.
pub proof fn law_estimate_counts_every_image(e: ByteEstimator, r: RequestModel, est: RequestEstimateModel)
    requires
        estimates(e, r, est),
    ensures
        forall|i: int|
            0 <= i < est.sources.len() ==> (#[trigger] est.sources[i]).images == clamp_u64(
                source_images(r.fragments, est.sources[i].source),
            ) && est.sources[i].tokens == clamp_u64(
                byte_tokens(e.bytes_per_token@, est.sources[i].text_bytes as int) + clamp_u64(
                    est.sources[i].images * e.image_tokens,
                ),
            ),
{
    assert forall|i: int| 0 <= i < est.sources.len() implies (#[trigger] est.sources[i]).images == clamp_u64(
        source_images(r.fragments, est.sources[i].source),
    ) by {
        let src = est.sources[i].source;
        let entries = estimate_entries(est.sources);
        assert(entries[i] == (src, (est.sources[i].text_bytes, est.sources[i].images)));
        let mm = tally_map(r);
        assert(mm.dom().contains(entries[i].0) && mm[entries[i].0] == entries[i].1);
        let m = tally_fragments(r.fragments);
        law_source_images(r.fragments, src);
        if r.tools.len() > 0 && src == SourceModel::ToolDefinitions {
            assert(mm[src].1 == tally_or_zero(m, SourceModel::ToolDefinitions).1);
        } else {
            assert(m.dom().contains(src));
            assert(mm[src] == m[src]);
        }
    }
}

/// Text is counted byte for byte: tallying blocks adds the payload bytes of
/// every block that is not an image to the text bytes (saturating at the
/// largest `usize`), and image data never counts as text.
pub proof fn law_text_bytes_are_counted(t: (usize, u64), bs: Seq<BlockModel>)
    ensures
        tally_blocks(t, bs).0 == clamp_usize(t.0 + content_bytes(bs.filter(|b: BlockModel| is_text_payload(b)))),
    decreases bs.len(),
{
    reveal_with_fuel(Seq::filter, 1);
    if bs.len() == 0 {
        assert(bs.filter(|b: BlockModel| is_text_payload(b)) =~= Seq::<BlockModel>::empty());
    } else {
        law_text_bytes_are_counted(t, bs.drop_last());
        let f0 = bs.drop_last().filter(|b: BlockModel| is_text_payload(b));
        lemma_content_bytes_nonneg(f0);
        if is_text_payload(bs.last()) {
            let f = f0.push(bs.last());
            assert(bs.filter(|b: BlockModel| is_text_payload(b)) == f);
            assert(f.drop_last() =~= f0);
            lemma_block_bytes_nonneg(bs.last());
        } else {
            assert(bs.filter(|b: BlockModel| is_text_payload(b)) == f0);
        }
    }
}

proof fn lemma_block_bytes_nonneg(b: BlockModel)
    ensures
        block_bytes(b) >= 0,
{
}

proof fn lemma_content_bytes_nonneg(s: Seq<BlockModel>)
    ensures
        content_bytes(s) >= 0,
    decreases s.len(),
{
    if s.len() > 0 {
        lemma_content_bytes_nonneg(s.drop_last());
    }
}
} // verus!
