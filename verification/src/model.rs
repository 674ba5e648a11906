use vstd::prelude::*;
use vstd::string::*;

use crate::assoc::{assoc_find, assoc_map, lemma_assoc_push};
use crate::parser::str_is;

verus! {

/// One-based Unicode-scalar line/column; zero-based UTF-8 byte offset.
/// Zero line/column denotes an unknown location or an in-memory node.
#[derive(Debug, Clone, Copy, PartialEq, Eq)]
pub struct Position {
    pub line: usize,
    pub column: usize,
    pub offset: usize,
}

impl Position {
    /// The position of an in-memory node: all zero.
    pub open spec fn zero() -> Position {
        Position { line: 0, column: 0, offset: 0 }
    }

    pub fn unknown() -> (p: Position)
        ensures
            p == Position::zero(),
    {
        Position { line: 0, column: 0, offset: 0 }
    }
}

impl Default for Position {
    fn default() -> (p: Position)
        ensures
            p == Position::zero(),
    {
        Position::unknown()
    }
}

/// The view of an optional string.
pub open spec fn opt_str(o: Option<String>) -> Option<Seq<char>> {
    match o {
        Some(s) => Some(s@),
        None => None,
    }
}

/// Syntax, budget, tokenizer, or binding failure. No partial AST is returned.
#[derive(Debug, Clone, PartialEq, Eq)]
pub struct Diagnostic {
    pub code: String,
    pub message: String,
    pub position: Position,
}

pub struct DiagnosticModel {
    pub code: Seq<char>,
    pub message: Seq<char>,
    pub position: Position,
}

pub open spec fn diag(code: Seq<char>, message: Seq<char>, position: Position) -> DiagnosticModel {
    DiagnosticModel { code, message, position }
}

impl View for Diagnostic {
    type V = DiagnosticModel;

    open spec fn view(&self) -> DiagnosticModel {
        DiagnosticModel { code: self.code@, message: self.message@, position: self.position }
    }
}

impl Diagnostic {
    pub(crate) fn new(code: &str, message: String, position: Position) -> (d: Diagnostic)
        ensures
            d@ == diag(code@, message@, position),
    {
        Diagnostic { code: String::from_str(code), message, position }
    }

    /// The diagnostic as `line:column: code: message`.
    pub fn to_string(&self) -> (s: String)
        ensures
            s@ == crate::format::decimal(self.position.line as nat) + seq![':']
                + crate::format::decimal(self.position.column as nat) + seq![':', ' ']
                + self.code@ + seq![':', ' '] + self.message@,
    {
        let mut s = crate::format::usize_text(self.position.line);
        s.append(":");
        let column = crate::format::usize_text(self.position.column);
        s.append(column.as_str());
        s.append(": ");
        s.append(self.code.as_str());
        s.append(": ");
        s.append(self.message.as_str());
        proof {
            reveal_strlit(":");
            reveal_strlit(": ");
        }
        s
    }

    pub fn copy(&self) -> (d: Diagnostic)
        ensures
            d@ == self@,
    {
        Diagnostic { code: self.code.clone(), message: self.message.clone(), position: self.position }
    }
}

/// Limits are tokens, stored as expanded integers (`1.5k` becomes 1500).
#[derive(Debug, Clone, PartialEq, Eq)]
pub struct Limits {
    pub max_tokens: Option<u64>,
    /// Applies to each direct child section; does not change grandchildren.
    pub per_item: Option<u64>,
    /// Required, nonblank rationale whenever either limit is declared.
    pub reason: Option<String>,
    /// Budget signature over the two local limits and the reason.
    pub sig: Option<String>,
}

pub struct LimitsModel {
    pub max_tokens: Option<u64>,
    pub per_item: Option<u64>,
    pub reason: Option<Seq<char>>,
    pub sig: Option<Seq<char>>,
}

impl LimitsModel {
    pub open spec fn none() -> LimitsModel {
        LimitsModel { max_tokens: None, per_item: None, reason: None, sig: None }
    }

    pub open spec fn declares_limit(self) -> bool {
        self.max_tokens is Some || self.per_item is Some
    }
}

impl View for Limits {
    type V = LimitsModel;

    open spec fn view(&self) -> LimitsModel {
        LimitsModel {
            max_tokens: self.max_tokens,
            per_item: self.per_item,
            reason: opt_str(self.reason),
            sig: opt_str(self.sig),
        }
    }
}

impl Default for Limits {
    fn default() -> (l: Limits)
        ensures
            l@ == LimitsModel::none(),
    {
        Limits { max_tokens: None, per_item: None, reason: None, sig: None }
    }
}

impl Limits {
    pub fn copy(&self) -> (l: Limits)
        ensures
            l@ == self@,
    {
        Limits {
            max_tokens: self.max_tokens,
            per_item: self.per_item,
            reason: crate::format::copy_opt(&self.reason),
            sig: crate::format::copy_opt(&self.sig),
        }
    }
}

/// Markdown stays literal text. These are the only content node kinds.
#[derive(Debug, PartialEq, Eq)]
pub enum Node {
    Text { value: String },
    Section(Section),
    Variable(Variable),
}

/// A semantic grouping. IDs have no provider-specific role or trust meaning.
#[derive(Debug, PartialEq, Eq)]
pub struct Section {
    pub id: Option<String>,
    pub limits: Limits,
    pub children: Vec<Node>,
    pub position: Position,
}

/// A named string slot: `{{question}}`. Variables have no limits.
#[derive(Debug, Clone, PartialEq, Eq)]
pub struct Variable {
    pub id: String,
    pub position: Position,
}

/// Portable AST. Use [`crate::parse`] or [`Document::new`] to create a document.
#[derive(Debug, PartialEq, Eq)]
pub struct Document {
    pub version: String,
    pub tokenizer: String,
    pub limits: Limits,
    pub children: Vec<Node>,
    pub position: Position,
}

pub struct VariableModel {
    pub id: Seq<char>,
    pub position: Position,
}

pub struct SectionModel {
    pub id: Option<Seq<char>>,
    pub limits: LimitsModel,
    pub children: Seq<NodeModel>,
    pub position: Position,
}

pub enum NodeModel {
    Text(Seq<char>),
    Section(SectionModel),
    Variable(VariableModel),
}

pub struct DocumentModel {
    pub version: Seq<char>,
    pub tokenizer: Seq<char>,
    pub limits: LimitsModel,
    pub children: Seq<NodeModel>,
    pub position: Position,
}

impl View for Variable {
    type V = VariableModel;

    open spec fn view(&self) -> VariableModel {
        VariableModel { id: self.id@, position: self.position }
    }
}

/// The view of one node, recursively.
pub open spec fn node_view(n: Node) -> NodeModel
    decreases n,
{
    match n {
        Node::Text { value } => NodeModel::Text(value@),
        Node::Section(s) => NodeModel::Section(
            SectionModel {
                id: opt_str(s.id),
                limits: s.limits@,
                children: nodes_view(s.children@),
                position: s.position,
            },
        ),
        Node::Variable(v) => NodeModel::Variable(v@),
    }
}

/// The view of a node sequence, element by element.
pub open spec fn nodes_view(s: Seq<Node>) -> Seq<NodeModel>
    decreases s,
{
    if s.len() == 0 {
        Seq::empty()
    } else {
        nodes_view(s.drop_last()).push(node_view(s.last()))
    }
}

impl View for Node {
    type V = NodeModel;

    open spec fn view(&self) -> NodeModel {
        node_view(*self)
    }
}

impl View for Section {
    type V = SectionModel;

    open spec fn view(&self) -> SectionModel {
        SectionModel {
            id: opt_str(self.id),
            limits: self.limits@,
            children: nodes_view(self.children@),
            position: self.position,
        }
    }
}

impl View for Document {
    type V = DocumentModel;

    open spec fn view(&self) -> DocumentModel {
        DocumentModel {
            version: self.version@,
            tokenizer: self.tokenizer@,
            limits: self.limits@,
            children: nodes_view(self.children@),
            position: self.position,
        }
    }
}

pub broadcast proof fn lemma_nodes_view(s: Seq<Node>)
    ensures
        #[trigger] nodes_view(s).len() == s.len(),
        forall|i: int| 0 <= i < s.len() ==> #[trigger] nodes_view(s)[i] == node_view(s[i]),
    decreases s.len(),
{
    if s.len() > 0 {
        lemma_nodes_view(s.drop_last());
    }
}

/// A copy of a node with the same view.
pub fn copy_node(n: &Node) -> (r: Node)
    ensures
        r@ == n@,
    decreases n,
{
    match n {
        Node::Text { value } => Node::Text { value: value.clone() },
        Node::Section(s) => Node::Section(copy_section(s)),
        Node::Variable(v) => Node::Variable(Variable { id: v.id.clone(), position: v.position }),
    }
}

pub fn copy_section(s: &Section) -> (r: Section)
    ensures
        r@ == s@,
    decreases s,
{
    Section {
        id: crate::format::copy_opt(&s.id),
        limits: s.limits.copy(),
        children: copy_nodes(&s.children),
        position: s.position,
    }
}

/// A copy of a node sequence with the same view.
pub fn copy_nodes(v: &Vec<Node>) -> (r: Vec<Node>)
    ensures
        nodes_view(r@) == nodes_view(v@),
    decreases v,
{
    let mut r: Vec<Node> = Vec::new();
    let mut i: usize = 0;
    while i < v.len()
        invariant
            i <= v.len(),
            nodes_view(r@) == nodes_view(v@.take(i as int)),
        decreases v.len() - i,
    {
        let ghost prev = r@;
        assert(decreases_to!(v => v@[i as int]));
        let n = copy_node(&v[i]);
        r.push(n);
        assert(r@.drop_last() == prev);
        assert(v@.take(i + 1).drop_last() == v@.take(i as int));
        i = i + 1;
    }
    assert(v@.take(v@.len() as int) == v@);
    r
}

impl Clone for Node {
    fn clone(&self) -> (r: Node)
        ensures
            r@ == self@,
    {
        copy_node(self)
    }
}

impl Clone for Section {
    fn clone(&self) -> (r: Section)
        ensures
            r@ == self@,
    {
        copy_section(self)
    }
}

impl Clone for Document {
    fn clone(&self) -> (r: Document)
        ensures
            r@ == self@,
    {
        Document {
            version: self.version.clone(),
            tokenizer: self.tokenizer.clone(),
            limits: self.limits.copy(),
            children: copy_nodes(&self.children),
            position: self.position,
        }
    }
}

/// Runtime values are strings; never expressions or reparsed markup. A later
/// binding for a name replaces an earlier one.
pub struct Bindings {
    entries: Vec<(String, String)>,
}

impl View for Bindings {
    type V = Map<Seq<char>, Seq<char>>;

    closed spec fn view(&self) -> Map<Seq<char>, Seq<char>> {
        assoc_map(self.entries@)
    }
}

impl Bindings {
    pub fn new() -> (b: Bindings)
        ensures
            b@ == Map::<Seq<char>, Seq<char>>::empty(),
    {
        Bindings { entries: Vec::new() }
    }

    /// Binds `key` to `value`, returning the value it replaces.
    pub fn insert(&mut self, key: String, value: String) -> (prev: Option<String>)
        ensures
            final(self)@ == old(self)@.insert(key@, value@),
            opt_str(prev) == (if old(self)@.dom().contains(key@) {
                Some(old(self)@[key@])
            } else {
                None
            }),
    {
        let prev = match assoc_find(&self.entries, key.as_str()) {
            Some(i) => Some(self.entries[i].1.clone()),
            None => None,
        };
        proof {
            lemma_assoc_push(self.entries@, (key, value));
        }
        self.entries.push((key, value));
        prev
    }

    /// The value bound to `key`.
    pub fn get(&self, key: &str) -> (r: Option<&String>)
        ensures
            match r {
                Some(v) => self@.dom().contains(key@) && self@[key@] == v@,
                None => !self@.dom().contains(key@),
            },
    {
        match assoc_find(&self.entries, key) {
            Some(i) => Some(&self.entries[i].1),
            None => None,
        }
    }
}

impl<const N: usize> From<[(String, String); N]> for Bindings {
    /// The pairs in order; a later pair for a name replaces an earlier one.
    fn from(pairs: [(String, String); N]) -> (b: Bindings)
        ensures
            b@ == assoc_map(pairs@),
    {
        let mut entries: Vec<(String, String)> = Vec::new();
        let mut i: usize = 0;
        while i < N
            invariant
                i <= N,
                pairs@.len() == N,
                assoc_map(entries@) == assoc_map(pairs@.take(i as int)),
            decreases N - i,
        {
            let (k, v) = &pairs[i];
            let entry = (k.clone(), v.clone());
            proof {
                lemma_assoc_push(entries@, entry);
            }
            let ghost before = entries@;
            entries.push(entry);
            assert(pairs@.take(i + 1).drop_last() == pairs@.take(i as int));
            assert(entries@.drop_last() == before);
            i = i + 1;
        }
        assert(pairs@.take(N as int) == pairs@);
        Bindings { entries }
    }
}

impl<const N: usize> vstd::std_specs::convert::FromSpecImpl<[(String, String); N]> for Bindings {
    open spec fn obeys_from_spec() -> bool {
        false
    }

    open spec fn from_spec(v: [(String, String); N]) -> Bindings {
        arbitrary()
    }
}

/// Per-element measurement. `tokens` is `None` and `deferred` is true when
/// unbound variables prevent an exact count. Render to enforce those budgets.
#[derive(Debug, Clone)]
pub struct Measurement {
    pub id: Option<String>,
    pub tokens: Option<u64>,
    pub limit: Option<u64>,
    pub deferred: bool,
    pub reason: Option<String>,
}

pub struct MeasurementModel {
    pub id: Option<Seq<char>>,
    pub tokens: Option<u64>,
    pub limit: Option<u64>,
    pub deferred: bool,
    pub reason: Option<Seq<char>>,
}

impl View for Measurement {
    type V = MeasurementModel;

    open spec fn view(&self) -> MeasurementModel {
        MeasurementModel {
            id: opt_str(self.id),
            tokens: self.tokens,
            limit: self.limit,
            deferred: self.deferred,
            reason: opt_str(self.reason),
        }
    }
}

/// Diagnostics and measurements of one check.
#[derive(Debug, Clone)]
pub struct Report {
    pub diagnostics: Vec<Diagnostic>,
    pub measurements: Vec<Measurement>,
}

pub struct ReportModel {
    pub diagnostics: Seq<DiagnosticModel>,
    pub measurements: Seq<MeasurementModel>,
}

pub open spec fn diags_view(s: Seq<Diagnostic>) -> Seq<DiagnosticModel> {
    s.map_values(|d: Diagnostic| d@)
}

pub open spec fn measurements_view(s: Seq<Measurement>) -> Seq<MeasurementModel> {
    s.map_values(|m: Measurement| m@)
}

impl View for Report {
    type V = ReportModel;

    open spec fn view(&self) -> ReportModel {
        ReportModel {
            diagnostics: diags_view(self.diagnostics@),
            measurements: measurements_view(self.measurements@),
        }
    }
}

impl ReportModel {
    pub open spec fn empty() -> ReportModel {
        ReportModel { diagnostics: Seq::empty(), measurements: Seq::empty() }
    }

    /// This report followed by `other`.
    pub open spec fn followed_by(self, other: ReportModel) -> ReportModel {
        ReportModel {
            diagnostics: self.diagnostics + other.diagnostics,
            measurements: self.measurements + other.measurements,
        }
    }
}

impl Default for Report {
    fn default() -> (r: Report)
        ensures
            r@ == ReportModel::empty(),
    {
        let r = Report { diagnostics: Vec::new(), measurements: Vec::new() };
        assert(r@.diagnostics == Seq::<DiagnosticModel>::empty());
        assert(r@.measurements == Seq::<MeasurementModel>::empty());
        r
    }
}

impl Report {
    /// No known errors; deferred measurements still require rendering.
    pub fn is_ok(&self) -> (b: bool)
        ensures
            b == (self@.diagnostics.len() == 0),
    {
        self.diagnostics.len() == 0
    }
}

/// A typed reference returned by ID lookup. Repeated variable names return
/// the first reference in source order.
#[derive(Debug, Clone, Copy)]
pub enum ElementRef<'a> {
    Section(&'a Section),
    Variable(&'a Variable),
}

pub enum ElementModel {
    Section(SectionModel),
    Variable(VariableModel),
}

impl<'a> View for ElementRef<'a> {
    type V = ElementModel;

    open spec fn view(&self) -> ElementModel {
        match *self {
            ElementRef::Section(s) => ElementModel::Section(s@),
            ElementRef::Variable(v) => ElementModel::Variable(v@),
        }
    }
}

/// The first section or variable with ID `id` in document order, a section
/// before its contents.
pub open spec fn lookup_node(n: NodeModel, id: Seq<char>) -> Option<ElementModel>
    decreases n,
{
    match n {
        NodeModel::Section(s) => if s.id == Some(id) {
            Some(ElementModel::Section(s))
        } else {
            lookup_nodes(s.children, id)
        },
        NodeModel::Variable(v) => if v.id == id {
            Some(ElementModel::Variable(v))
        } else {
            None
        },
        NodeModel::Text(_) => None,
    }
}

pub open spec fn lookup_nodes(ns: Seq<NodeModel>, id: Seq<char>) -> Option<ElementModel>
    decreases ns,
{
    if ns.len() == 0 {
        None
    } else {
        match lookup_nodes(ns.drop_last(), id) {
            Some(e) => Some(e),
            None => lookup_node(ns.last(), id),
        }
    }
}

/// Every section and variable below `n`, depth first in source order: a
/// section comes before its children.
pub open spec fn node_elements(n: NodeModel) -> Seq<ElementModel>
    decreases n,
{
    match n {
        NodeModel::Section(s) => seq![ElementModel::Section(s)] + nodes_elements(s.children),
        NodeModel::Variable(v) => seq![ElementModel::Variable(v)],
        NodeModel::Text(_) => Seq::empty(),
    }
}

pub open spec fn nodes_elements(ns: Seq<NodeModel>) -> Seq<ElementModel>
    decreases ns,
{
    if ns.len() == 0 {
        Seq::empty()
    } else {
        nodes_elements(ns.drop_last()) + node_elements(ns.last())
    }
}

/// The ID an element answers to: a section's ID, or a variable's name.
pub open spec fn element_id(e: ElementModel) -> Option<Seq<char>> {
    match e {
        ElementModel::Section(s) => s.id,
        ElementModel::Variable(v) => Some(v.id),
    }
}

/// The first element of `es` that answers to `id`.
pub open spec fn first_with_id(es: Seq<ElementModel>, id: Seq<char>) -> Option<ElementModel>
    decreases es.len(),
{
    if es.len() == 0 {
        None
    } else {
        match first_with_id(es.drop_last(), id) {
            Some(e) => Some(e),
            None => if element_id(es.last()) == Some(id) {
                Some(es.last())
            } else {
                None
            },
        }
    }
}

proof fn lemma_first_with_id_concat(a: Seq<ElementModel>, b: Seq<ElementModel>, id: Seq<char>)
    ensures
        first_with_id(a + b, id) == match first_with_id(a, id) {
            Some(e) => Some(e),
            None => first_with_id(b, id),
        },
    decreases b.len(),
{
    if b.len() == 0 {
        assert(a + b == a);
    } else {
        lemma_first_with_id_concat(a, b.drop_last(), id);
        assert((a + b).drop_last() == a + b.drop_last());
        assert((a + b).last() == b.last());
    }
}

proof fn lemma_first_with_id_one(e: ElementModel, id: Seq<char>)
    ensures
        first_with_id(seq![e], id) == if element_id(e) == Some(id) {
            Some(e)
        } else {
            None::<ElementModel>
        },
{
    let one = seq![e];
    assert(one.drop_last() =~= Seq::<ElementModel>::empty());
    assert(one.last() == e);
    assert(first_with_id(one.drop_last(), id) is None);
}

/// `first_with_id` is the first match: an element at some index that
/// answers to `id`, with none before it; `None` when none answers.
pub proof fn lemma_first_with_id_is_first(es: Seq<ElementModel>, id: Seq<char>)
    ensures
        first_with_id(es, id) matches Some(e) ==> exists|k: int|
            0 <= k < es.len() && es[k] == e && element_id(es[k]) == Some(id) && forall|j: int|
                0 <= j < k ==> element_id(#[trigger] es[j]) != Some(id),
        first_with_id(es, id) is None ==> forall|j: int| 0 <= j < es.len() ==> element_id(#[trigger] es[j]) != Some(id),
    decreases es.len(),
{
    if es.len() > 0 {
        let p = es.drop_last();
        lemma_first_with_id_is_first(p, id);
        if let Some(e) = first_with_id(p, id) {
            let k = choose|k: int|
                0 <= k < p.len() && p[k] == e && element_id(p[k]) == Some(id) && forall|j: int|
                    0 <= j < k ==> element_id(#[trigger] p[j]) != Some(id);
            assert(es[k] == p[k]);
            assert forall|j: int| 0 <= j < k implies element_id(#[trigger] es[j]) != Some(id) by {
                assert(es[j] == p[j]);
            }
        } else {
            assert forall|j: int| 0 <= j < es.len() - 1 implies element_id(#[trigger] es[j]) != Some(id) by {
                assert(es[j] == p[j]);
            }
            if element_id(es.last()) == Some(id) {
                let k = es.len() - 1;
                assert(es[k] == es.last());
            }
        }
    }
}

proof fn lemma_lookup_node_first(n: NodeModel, id: Seq<char>)
    ensures
        lookup_node(n, id) == first_with_id(node_elements(n), id),
    decreases n,
{
    match n {
        NodeModel::Section(s) => {
            lemma_lookup_nodes_first(s.children, id);
            lemma_first_with_id_concat(seq![ElementModel::Section(s)], nodes_elements(s.children), id);
            lemma_first_with_id_one(ElementModel::Section(s), id);
        },
        NodeModel::Variable(v) => {
            lemma_first_with_id_one(ElementModel::Variable(v), id);
        },
        NodeModel::Text(_) => {},
    }
}

proof fn lemma_lookup_nodes_first(ns: Seq<NodeModel>, id: Seq<char>)
    ensures
        lookup_nodes(ns, id) == first_with_id(nodes_elements(ns), id),
    decreases ns,
{
    if ns.len() > 0 {
        lemma_lookup_nodes_first(ns.drop_last(), id);
        lemma_lookup_node_first(ns.last(), id);
        lemma_first_with_id_concat(nodes_elements(ns.drop_last()), node_elements(ns.last()), id);
    }
}

/// Lookup by ID: `get_element_by_id` finds the first section or variable
/// answering to the ID in depth-first source order (a section before its
/// children), at any depth, and nothing when none answers.
pub proof fn law_lookup_is_first_in_source_order(ns: Seq<NodeModel>, id: Seq<char>)
    ensures
        lookup_nodes(ns, id) == first_with_id(nodes_elements(ns), id),
        lookup_nodes(ns, id) matches Some(e) ==> exists|k: int|
            0 <= k < nodes_elements(ns).len() && nodes_elements(ns)[k] == e && element_id(e) == Some(id)
                && forall|j: int| 0 <= j < k ==> element_id(#[trigger] nodes_elements(ns)[j]) != Some(id),
        lookup_nodes(ns, id) is None ==> forall|j: int|
            0 <= j < nodes_elements(ns).len() ==> element_id(#[trigger] nodes_elements(ns)[j]) != Some(id),
{
    lemma_lookup_nodes_first(ns, id);
    lemma_first_with_id_is_first(nodes_elements(ns), id);
}

pub open spec fn element_view(e: Option<ElementRef>) -> Option<ElementModel> {
    match e {
        Some(r) => Some(r@),
        None => None,
    }
}

/// The first `i + 1` items are the first `i` and item `i`.
pub proof fn lemma_take_next<T>(s: Seq<T>, i: int)
    requires
        0 <= i < s.len(),
    ensures
        s.take(i + 1).drop_last() == s.take(i),
        s.take(i + 1).last() == s[i],
{
    assert(s.take(i + 1).drop_last() =~= s.take(i));
}

proof fn lemma_lookup_rest(ns: Seq<NodeModel>, id: Seq<char>, k: int)
    requires
        0 <= k <= ns.len(),
        lookup_nodes(ns.take(k), id) is Some,
    ensures
        lookup_nodes(ns, id) == lookup_nodes(ns.take(k), id),
    decreases ns.len() - k,
{
    if k < ns.len() {
        lemma_take_next(ns, k);
        let t = ns.take(k + 1);
        assert(t.len() == k + 1);
        lemma_lookup_rest(ns, id, k + 1);
    } else {
        assert(ns.take(k) == ns);
    }
}

fn lookup<'a>(nodes: &'a Vec<Node>, id: &str) -> (r: Option<ElementRef<'a>>)
    ensures
        element_view(r) == lookup_nodes(nodes_view(nodes@), id@),
    decreases nodes,
{
    let ghost ns = nodes_view(nodes@);
    proof {
        lemma_nodes_view(nodes@);
    }
    let mut i: usize = 0;
    while i < nodes.len()
        invariant
            i <= nodes@.len(),
            ns == nodes_view(nodes@),
            ns.len() == nodes@.len(),
            lookup_nodes(ns.take(i as int), id@) is None,
        decreases nodes@.len() - i,
    {
        proof {
            lemma_take_next(ns, i as int);
            lemma_nodes_view(nodes@);
            assert(ns[i as int] == node_view(nodes@[i as int]));
            let t = ns.take(i + 1);
            assert(t.len() == i + 1);
            assert(lookup_nodes(t, id@) == lookup_node(ns[i as int], id@));
        }
        match &nodes[i] {
            Node::Section(s) => {
                let matched = match &s.id {
                    Some(sid) => str_is(sid.as_str(), id),
                    None => false,
                };
                if matched {
                    proof {
                        lemma_lookup_rest(ns, id@, i + 1);
                    }
                    return Some(ElementRef::Section(s));
                }
                assert(decreases_to!(nodes => nodes@[i as int]));
                match lookup(&s.children, id) {
                    Some(found) => {
                        proof {
                            lemma_lookup_rest(ns, id@, i + 1);
                        }
                        return Some(found);
                    },
                    None => {},
                }
            },
            Node::Variable(v) => {
                if str_is(v.id.as_str(), id) {
                    proof {
                        lemma_lookup_rest(ns, id@, i + 1);
                    }
                    return Some(ElementRef::Variable(v));
                }
            },
            Node::Text { .. } => {},
        }
        i = i + 1;
    }
    assert(ns.take(nodes@.len() as int) == ns);
    None
}

/// The sections directly among `ns`, in order.
pub open spec fn child_sections(ns: Seq<NodeModel>) -> Seq<SectionModel>
    decreases ns.len(),
{
    if ns.len() == 0 {
        Seq::empty()
    } else {
        let rest = child_sections(ns.drop_last());
        match ns.last() {
            NodeModel::Section(s) => rest.push(s),
            _ => rest,
        }
    }
}

pub open spec fn section_refs_view(v: Seq<&Section>) -> Seq<SectionModel> {
    v.map_values(|s: &Section| s@)
}

fn sections_of<'a>(nodes: &'a Vec<Node>) -> (r: Vec<&'a Section>)
    ensures
        section_refs_view(r@) == child_sections(nodes_view(nodes@)),
{
    let ghost ns = nodes_view(nodes@);
    proof {
        lemma_nodes_view(nodes@);
    }
    let mut r: Vec<&'a Section> = Vec::new();
    let mut i: usize = 0;
    while i < nodes.len()
        invariant
            i <= nodes@.len(),
            ns == nodes_view(nodes@),
            ns.len() == nodes@.len(),
            section_refs_view(r@) == child_sections(ns.take(i as int)),
        decreases nodes@.len() - i,
    {
        proof {
            lemma_take_next(ns, i as int);
            lemma_nodes_view(nodes@);
            assert(ns[i as int] == node_view(nodes@[i as int]));
            let t = ns.take(i + 1);
            assert(t.len() == i + 1);
        }
        let ghost before = r@;
        match &nodes[i] {
            Node::Section(s) => {
                r.push(s);
                assert(section_refs_view(r@) =~= section_refs_view(before).push(s@));
            },
            _ => {},
        }
        i = i + 1;
    }
    assert(ns.take(nodes@.len() as int) == ns);
    r
}

/// The text of `ns`: text as it is, the contents of sections, and each
/// variable as `{{id}}`.
pub open spec fn display_node(n: NodeModel) -> Seq<char>
    decreases n,
{
    match n {
        NodeModel::Text(t) => t,
        NodeModel::Section(s) => display_nodes(s.children),
        NodeModel::Variable(v) => "{{"@ + v.id + "}}"@,
    }
}

pub open spec fn display_nodes(ns: Seq<NodeModel>) -> Seq<char>
    decreases ns,
{
    if ns.len() == 0 {
        Seq::empty()
    } else {
        display_nodes(ns.drop_last()) + display_node(ns.last())
    }
}

fn variable_text(out: &mut String, id: &String)
    ensures
        final(out)@ == old(out)@ + ("{{"@ + id@ + "}}"@),
{
    out.append("{{");
    out.append(id.as_str());
    out.append("}}");
    assert(final(out)@ =~= old(out)@ + ("{{"@ + id@ + "}}"@));
}

fn display_into(out: &mut String, nodes: &Vec<Node>)
    ensures
        final(out)@ == old(out)@ + display_nodes(nodes_view(nodes@)),
    decreases nodes,
{
    let ghost ns = nodes_view(nodes@);
    proof {
        lemma_nodes_view(nodes@);
    }
    let ghost start = out@;
    let mut i: usize = 0;
    while i < nodes.len()
        invariant
            i <= nodes@.len(),
            ns == nodes_view(nodes@),
            ns.len() == nodes@.len(),
            out@ == start + display_nodes(ns.take(i as int)),
        decreases nodes@.len() - i,
    {
        proof {
            lemma_take_next(ns, i as int);
            lemma_nodes_view(nodes@);
            assert(ns[i as int] == node_view(nodes@[i as int]));
            let t = ns.take(i + 1);
            assert(t.len() == i + 1);
        }
        let ghost before = out@;
        proof {
            let t = ns.take(i + 1);
            assert(display_nodes(t) == display_nodes(ns.take(i as int)) + display_node(ns[i as int]));
        }
        match &nodes[i] {
            Node::Text { value } => out.append(value.as_str()),
            Node::Section(s) => {
                assert(decreases_to!(nodes => nodes@[i as int]));
                display_into(out, &s.children);
            },
            Node::Variable(v) => variable_text(out, &v.id),
        }
        assert(out@ =~= start + display_nodes(ns.take(i + 1)));
        i = i + 1;
    }
    assert(ns.take(nodes@.len() as int) == ns);
}

impl Document {
    /// Construct in memory without authoring HTMLP. [`crate::lint`] validates it.
    pub fn new(max_tokens: u64, reason: &str, children: Vec<Node>) -> (d: Document)
        ensures
            d@ == (DocumentModel {
                version: "0.2"@,
                tokenizer: "cl100k_base"@,
                limits: LimitsModel {
                    max_tokens: Some(max_tokens),
                    per_item: None,
                    reason: Some(reason@),
                    sig: None,
                },
                children: nodes_view(children@),
                position: Position::zero(),
            }),
    {
        Document {
            version: String::from_str("0.2"),
            tokenizer: String::from_str("cl100k_base"),
            limits: Limits {
                max_tokens: Some(max_tokens),
                per_item: None,
                reason: Some(String::from_str(reason)),
                sig: None,
            },
            children,
            position: Position::unknown(),
        }
    }

    pub fn get_element_by_id(&self, id: &str) -> (r: Option<ElementRef<'_>>)
        ensures
            element_view(r) == lookup_nodes(self@.children, id@),
    {
        lookup(&self.children, id)
    }

    pub fn sections(&self) -> (r: Vec<&Section>)
        ensures
            section_refs_view(r@) == child_sections(self@.children),
    {
        sections_of(&self.children)
    }

    /// The text of the document with each variable shown as `{{id}}`.
    pub fn to_string(&self) -> (s: String)
        ensures
            s@ == display_nodes(self@.children),
    {
        let mut s = String::new();
        display_into(&mut s, &self.children);
        s
    }
}

impl Section {
    pub fn new(id: &str, children: Vec<Node>) -> (s: Section)
        ensures
            s@ == (SectionModel {
                id: Some(id@),
                limits: LimitsModel::none(),
                children: nodes_view(children@),
                position: Position::zero(),
            }),
    {
        Section {
            id: Some(String::from_str(id)),
            limits: Limits::default(),
            children,
            position: Position::unknown(),
        }
    }

    pub fn get_element_by_id(&self, id: &str) -> (r: Option<ElementRef<'_>>)
        ensures
            element_view(r) == lookup_nodes(self@.children, id@),
    {
        lookup(&self.children, id)
    }

    pub fn sections(&self) -> (r: Vec<&Section>)
        ensures
            section_refs_view(r@) == child_sections(self@.children),
    {
        sections_of(&self.children)
    }

    /// The text of the section with each variable shown as `{{id}}`.
    pub fn to_string(&self) -> (s: String)
        ensures
            s@ == display_nodes(self@.children),
    {
        let mut s = String::new();
        display_into(&mut s, &self.children);
        s
    }
}

impl Node {
    pub fn text(value: &str) -> (n: Node)
        ensures
            n@ == NodeModel::Text(value@),
    {
        Node::Text { value: String::from_str(value) }
    }
}

impl<'a> ElementRef<'a> {
    /// A section's text, or a variable as `{{id}}`.
    pub fn to_string(&self) -> (s: String)
        ensures
            s@ == match self@ {
                ElementModel::Section(sm) => display_nodes(sm.children),
                ElementModel::Variable(vm) => "{{"@ + vm.id + "}}"@,
            },
    {
        match self {
            ElementRef::Section(s) => s.to_string(),
            ElementRef::Variable(v) => {
                let mut s = String::new();
                variable_text(&mut s, &v.id);
                assert(s@ =~= "{{"@ + v.id@ + "}}"@);
                s
            },
        }
    }
}

} // verus!
