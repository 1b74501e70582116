//! The document tree: values, labelled nodes, the document itself, and its
//! query and mutation operations.
//!
//! A `Json` owns an ordered sequence of nodes and a label index: the labels
//! of its entries in order of first occurrence, each held once. Every
//! operation keeps the index exactly in step with the entries
//! (`Json::wf`), so membership tests read the index alone.

use vstd::prelude::*;

use crate::model::{
    sp_find, sp_has, sp_index, valid_float_lexeme, lemma_find_at, lemma_find_spec,
    lemma_index_membership, lemma_index_same_labels, EntryM, ValueM,
};
use crate::strutil::eq_str;

verus! {

/// The content of one node: the tagged union of everything a value of the
/// grammar can be. `Float` holds the decimal text of the number (digits
/// with exactly one dot); `Json` holds a nested document.
#[derive(Debug, PartialEq)]
pub enum NodeContent {
    Str(String),
    Int(usize),
    Float(String),
    Bool(bool),
    List(Vec<NodeContent>),
    Json(Json),
    Null,
}

/// A pair of a label and a content. The label is stored verbatim;
/// escaping is the renderer's concern alone.
#[derive(Debug, PartialEq)]
pub struct Node {
    pub(crate) label: String,
    pub(crate) content: NodeContent,
}

/// A document: an ordered sequence of nodes plus the label index.
#[derive(Debug, PartialEq)]
pub struct Json {
    pub(crate) nodes: Vec<Node>,
    pub(crate) labels: Vec<String>,
}

// ===== views: the model a tree denotes =====

pub open(crate) spec fn value_view(c: NodeContent) -> ValueM
    decreases c,
{
    match c {
        NodeContent::Str(s) => ValueM::Str(s@),
        NodeContent::Int(n) => ValueM::Int(n),
        NodeContent::Float(lx) => ValueM::Float(lx@),
        NodeContent::Bool(b) => ValueM::Bool(b),
        NodeContent::List(items) => ValueM::List(values_view(items@)),
        NodeContent::Json(j) => ValueM::Obj(entries_view(j.nodes@)),
        NodeContent::Null => ValueM::Null,
    }
}

pub open(crate) spec fn values_view(items: Seq<NodeContent>) -> Seq<ValueM>
    decreases items,
{
    if items.len() == 0 {
        Seq::empty()
    } else {
        values_view(items.drop_last()).push(value_view(items.last()))
    }
}

pub open(crate) spec fn entry_view(n: Node) -> EntryM
    decreases n,
{
    EntryM { label: n.label@, value: value_view(n.content) }
}

pub open(crate) spec fn entries_view(ns: Seq<Node>) -> Seq<EntryM>
    decreases ns,
{
    if ns.len() == 0 {
        Seq::empty()
    } else {
        entries_view(ns.drop_last()).push(entry_view(ns.last()))
    }
}

/// The view of a sequence of values is pointwise.
pub proof fn lemma_values_view(items: Seq<NodeContent>)
    ensures
        values_view(items).len() == items.len(),
        forall|i: int|
            0 <= i < items.len() ==> values_view(items)[i] == value_view(#[trigger] items[i]),
    decreases items.len(),
{
    if items.len() > 0 {
        lemma_values_view(items.drop_last());
        assert forall|i: int|
            0 <= i < items.len() implies values_view(items)[i] == value_view(
            #[trigger] items[i],
        ) by {
            if i < items.len() - 1 {
                assert(items.drop_last()[i] == items[i]);
            }
        }
    }
}

/// The view of a sequence of nodes is pointwise.
pub proof fn lemma_entries_view(ns: Seq<Node>)
    ensures
        entries_view(ns).len() == ns.len(),
        forall|i: int| 0 <= i < ns.len() ==> entries_view(ns)[i] == entry_view(#[trigger] ns[i]),
    decreases ns.len(),
{
    if ns.len() > 0 {
        lemma_entries_view(ns.drop_last());
        assert forall|i: int|
            0 <= i < ns.len() implies entries_view(ns)[i] == entry_view(#[trigger] ns[i]) by {
            if i < ns.len() - 1 {
                assert(ns.drop_last()[i] == ns[i]);
            }
        }
    }
}

/// The labels of an index vector, as character sequences.
pub open(crate) spec fn labels_view(ls: Seq<String>) -> Seq<Seq<char>> {
    Seq::new(ls.len(), |i: int| ls[i]@)
}

impl View for NodeContent {
    type V = ValueM;

    open(crate) spec fn view(&self) -> ValueM {
        value_view(*self)
    }
}

impl DeepView for NodeContent {
    type V = ValueM;

    open(crate) spec fn deep_view(&self) -> ValueM {
        value_view(*self)
    }
}

impl View for Node {
    type V = EntryM;

    open(crate) spec fn view(&self) -> EntryM {
        entry_view(*self)
    }
}

impl DeepView for Node {
    type V = EntryM;

    open(crate) spec fn deep_view(&self) -> EntryM {
        entry_view(*self)
    }
}

impl View for Json {
    type V = Seq<EntryM>;

    open(crate) spec fn view(&self) -> Seq<EntryM> {
        entries_view(self.nodes@)
    }
}

impl DeepView for Json {
    type V = Seq<EntryM>;

    open(crate) spec fn deep_view(&self) -> Seq<EntryM> {
        entries_view(self.nodes@)
    }
}

// ===== well-formedness =====

/// A content is well formed when every float in it holds valid decimal
/// text and every nested document keeps its label index in step.
pub open(crate) spec fn content_wf(c: NodeContent) -> bool
    decreases c,
{
    match c {
        NodeContent::Float(lx) => valid_float_lexeme(lx@),
        NodeContent::List(items) => items_wf(items@),
        NodeContent::Json(j) => j.wf() && nodes_wf(j.nodes@),
        _ => true,
    }
}

pub open(crate) spec fn items_wf(items: Seq<NodeContent>) -> bool
    decreases items,
{
    if items.len() == 0 {
        true
    } else {
        items_wf(items.drop_last()) && content_wf(items.last())
    }
}

/// A node is well formed when its content is.
pub open(crate) spec fn node_wf(n: Node) -> bool
    decreases n,
{
    content_wf(n.content)
}

pub open(crate) spec fn nodes_wf(ns: Seq<Node>) -> bool
    decreases ns,
{
    if ns.len() == 0 {
        true
    } else {
        nodes_wf(ns.drop_last()) && node_wf(ns.last())
    }
}

/// Well-formedness of a sequence of contents is pointwise.
pub proof fn lemma_items_wf(items: Seq<NodeContent>)
    ensures
        items_wf(items) <==> (forall|i: int|
            0 <= i < items.len() ==> content_wf(#[trigger] items[i])),
    decreases items.len(),
{
    if items.len() > 0 {
        lemma_items_wf(items.drop_last());
        if items_wf(items) {
            assert forall|i: int| 0 <= i < items.len() implies content_wf(#[trigger] items[i]) by {
                if i < items.len() - 1 {
                    assert(items.drop_last()[i] == items[i]);
                }
            }
        } else {
            if forall|i: int| 0 <= i < items.len() ==> content_wf(#[trigger] items[i]) {
                assert forall|i: int|
                    0 <= i < items.drop_last().len() implies content_wf(
                    #[trigger] items.drop_last()[i],
                ) by {
                    assert(items.drop_last()[i] == items[i]);
                }
                assert(content_wf(items.last()));
                assert(false);
            }
        }
    }
}

/// Well-formedness of a sequence of nodes is pointwise.
pub proof fn lemma_nodes_wf(ns: Seq<Node>)
    ensures
        nodes_wf(ns) <==> (forall|i: int| 0 <= i < ns.len() ==> node_wf(#[trigger] ns[i])),
    decreases ns.len(),
{
    if ns.len() > 0 {
        lemma_nodes_wf(ns.drop_last());
        if nodes_wf(ns) {
            assert forall|i: int| 0 <= i < ns.len() implies node_wf(#[trigger] ns[i]) by {
                if i < ns.len() - 1 {
                    assert(ns.drop_last()[i] == ns[i]);
                }
            }
        } else {
            if forall|i: int| 0 <= i < ns.len() ==> node_wf(#[trigger] ns[i]) {
                assert forall|i: int|
                    0 <= i < ns.drop_last().len() implies node_wf(#[trigger] ns.drop_last()[i]) by {
                    assert(ns.drop_last()[i] == ns[i]);
                }
                assert(node_wf(ns.last()));
                assert(false);
            }
        }
    }
}

impl Json {
    /// The label index holds exactly the labels of the entries, in order of
    /// first occurrence.
    pub open(crate) spec fn wf(&self) -> bool {
        labels_view(self.labels@) == sp_index(self@)
    }

    /// The index invariant holds here and in every nested document.
    pub open(crate) spec fn deep_wf(&self) -> bool {
        self.wf() && nodes_wf(self.nodes@)
    }

    /// The label index, as character sequences.
    pub closed spec fn index(&self) -> Seq<Seq<char>> {
        labels_view(self.labels@)
    }
}

/// The label index of a well-formed document is a function of its entries,
/// so two well-formed documents with equal entries are equal through and
/// through, index included.
pub proof fn lemma_index_determined(a: Json, b: Json)
    requires
        a.wf(),
        b.wf(),
        a@ == b@,
    ensures
        a.index() == b.index(),
{
}

/// A well-formed content denotes a well-formed model value, so the
/// round-trip laws apply to any tree the library builds or parses.
pub proof fn lemma_content_wf_value(c: NodeContent)
    ensures
        content_wf(c) ==> crate::model::wf_value(value_view(c)),
    decreases c,
{
    if content_wf(c) {
        match c {
            NodeContent::List(items) => {
                lemma_items_wf(items@);
                lemma_values_view(items@);
                crate::model::lemma_wf_items_pointwise(values_view(items@));
                assert forall|i: int|
                    0 <= i < values_view(items@).len() implies crate::model::wf_value(
                    #[trigger] values_view(items@)[i],
                ) by {
                    assert(content_wf(items@[i]));
                    lemma_content_wf_value(items@[i]);
                    assert(values_view(items@)[i] == value_view(items@[i]));
                }
            },
            NodeContent::Json(j) => {
                lemma_nodes_wf(j.nodes@);
                lemma_entries_view(j.nodes@);
                crate::model::lemma_wf_entries_pointwise(entries_view(j.nodes@));
                assert forall|i: int|
                    0 <= i < entries_view(j.nodes@).len() implies crate::model::wf_value(
                    (#[trigger] entries_view(j.nodes@)[i]).value,
                ) by {
                    assert(node_wf(j.nodes@[i]));
                    lemma_content_wf_value(j.nodes@[i].content);
                    assert(entries_view(j.nodes@)[i] == entry_view(j.nodes@[i]));
                }
            },
            _ => {},
        }
    }
}

/// A document that is well formed down to every level denotes a
/// well-formed model document.
pub proof fn lemma_deep_wf_model(j: Json)
    ensures
        j.deep_wf() ==> crate::model::wf_entries(j@),
    decreases j,
{
    if j.deep_wf() {
        lemma_nodes_wf(j.nodes@);
        lemma_entries_view(j.nodes@);
        crate::model::lemma_wf_entries_pointwise(j@);
        assert forall|i: int|
            0 <= i < j@.len() implies crate::model::wf_value((#[trigger] j@[i]).value) by {
            assert(node_wf(j.nodes@[i]));
            lemma_content_wf_value(j.nodes@[i].content);
            assert(j@[i] == entry_view(j.nodes@[i]));
        }
    }
}

// ===== deep copies =====

/// Sequences of contents with pointwise equal views have equal views.
proof fn lemma_values_view_pointwise(a: Seq<NodeContent>, b: Seq<NodeContent>)
    requires
        a.len() == b.len(),
        forall|i: int| 0 <= i < a.len() ==> value_view(#[trigger] a[i]) == value_view(b[i]),
    ensures
        values_view(a) == values_view(b),
{
    lemma_values_view(a);
    lemma_values_view(b);
    assert forall|i: int| 0 <= i < a.len() implies values_view(a)[i] == values_view(b)[i] by {
        assert(value_view(a[i]) == value_view(b[i]));
    }
    assert(values_view(a) =~= values_view(b));
}

/// Sequences of nodes with pointwise equal views have equal views.
proof fn lemma_entries_view_pointwise(a: Seq<Node>, b: Seq<Node>)
    requires
        a.len() == b.len(),
        forall|i: int| 0 <= i < a.len() ==> entry_view(#[trigger] a[i]) == entry_view(b[i]),
    ensures
        entries_view(a) == entries_view(b),
{
    lemma_entries_view(a);
    lemma_entries_view(b);
    assert forall|i: int| 0 <= i < a.len() implies entries_view(a)[i] == entries_view(b)[i] by {
        assert(entry_view(a[i]) == entry_view(b[i]));
    }
    assert(entries_view(a) =~= entries_view(b));
}

fn clone_contents(items: &Vec<NodeContent>) -> (r: Vec<NodeContent>)
    ensures
        r@.len() == items@.len(),
        forall|i: int| 0 <= i < items@.len() ==> (#[trigger] r@[i])@ == items@[i]@,
        forall|i: int|
            0 <= i < items@.len() ==> (content_wf(items@[i]) ==> content_wf(#[trigger] r@[i])),
    decreases *items,
{
    let mut r: Vec<NodeContent> = Vec::new();
    let mut i: usize = 0;
    while i < items.len()
        invariant
            i <= items@.len(),
            r@.len() == i,
            forall|j: int| 0 <= j < i ==> (#[trigger] r@[j])@ == items@[j]@,
            forall|j: int|
                0 <= j < i ==> (content_wf(items@[j]) ==> content_wf(#[trigger] r@[j])),
        decreases items@.len() - i,
    {
        let c = items[i].clone();
        r.push(c);
        i = i + 1;
    }
    r
}

fn clone_nodes(ns: &Vec<Node>) -> (r: Vec<Node>)
    ensures
        r@.len() == ns@.len(),
        forall|i: int| 0 <= i < ns@.len() ==> (#[trigger] r@[i])@ == ns@[i]@,
        forall|i: int| 0 <= i < ns@.len() ==> (node_wf(ns@[i]) ==> node_wf(#[trigger] r@[i])),
    decreases *ns,
{
    let mut r: Vec<Node> = Vec::new();
    let mut i: usize = 0;
    while i < ns.len()
        invariant
            i <= ns@.len(),
            r@.len() == i,
            forall|j: int| 0 <= j < i ==> (#[trigger] r@[j])@ == ns@[j]@,
            forall|j: int| 0 <= j < i ==> (node_wf(ns@[j]) ==> node_wf(#[trigger] r@[j])),
        decreases ns@.len() - i,
    {
        let n = ns[i].clone();
        r.push(n);
        i = i + 1;
    }
    r
}

fn clone_labels(ls: &Vec<String>) -> (r: Vec<String>)
    ensures
        labels_view(r@) == labels_view(ls@),
{
    let mut r: Vec<String> = Vec::new();
    let mut i: usize = 0;
    while i < ls.len()
        invariant
            i <= ls@.len(),
            r@.len() == i,
            forall|j: int| 0 <= j < i ==> (#[trigger] r@[j])@ == ls@[j]@,
        decreases ls@.len() - i,
    {
        let s = ls[i].clone();
        r.push(s);
        i = i + 1;
    }
    proof {
        assert(labels_view(r@) =~= labels_view(ls@));
    }
    r
}

impl Clone for NodeContent {
    /// A deep copy denoting the same value.
    fn clone(&self) -> (r: Self)
        ensures
            r@ == self@,
            content_wf(*self) ==> content_wf(r),
        decreases *self,
    {
        match self {
            NodeContent::Str(s) => NodeContent::Str(s.clone()),
            NodeContent::Int(n) => NodeContent::Int(*n),
            NodeContent::Float(lx) => NodeContent::Float(lx.clone()),
            NodeContent::Bool(b) => NodeContent::Bool(*b),
            NodeContent::List(items) => {
                let cloned = clone_contents(items);
                proof {
                    lemma_values_view_pointwise(cloned@, items@);
                    lemma_items_wf(items@);
                    lemma_items_wf(cloned@);
                }
                NodeContent::List(cloned)
            },
            NodeContent::Json(j) => NodeContent::Json(j.clone()),
            NodeContent::Null => NodeContent::Null,
        }
    }
}

impl Clone for Node {
    /// A deep copy denoting the same entry.
    fn clone(&self) -> (r: Self)
        ensures
            r@ == self@,
            node_wf(*self) ==> node_wf(r),
        decreases *self,
    {
        Node { label: self.label.clone(), content: self.content.clone() }
    }
}

impl Clone for Json {
    /// A deep copy denoting the same document, index included.
    fn clone(&self) -> (r: Self)
        ensures
            r@ == self@,
            r.wf() == self.wf(),
            self.deep_wf() ==> r.deep_wf(),
        decreases *self,
    {
        let nodes = clone_nodes(&self.nodes);
        let labels = clone_labels(&self.labels);
        proof {
            lemma_entries_view_pointwise(nodes@, self.nodes@);
            lemma_nodes_wf(self.nodes@);
            lemma_nodes_wf(nodes@);
        }
        Json { nodes, labels }
    }
}

// ===== content accessors =====

impl NodeContent {
    /// The string content, when this is a string.
    pub fn toString(&self) -> (r: Option<String>)
        ensures
            self@ matches ValueM::Str(s) ==> r matches Some(x) && x@ == s,
            !(self@ is Str) ==> r is None,
    {
        match self {
            NodeContent::Str(s) => Some(s.clone()),
            _ => None,
        }
    }

    /// The integer content, when this is an integer.
    pub fn toUsize(&self) -> (r: Option<usize>)
        ensures
            self@ matches ValueM::Int(n) ==> r == Some(n),
            !(self@ is Int) ==> r is None,
    {
        match self {
            NodeContent::Int(n) => Some(*n),
            _ => None,
        }
    }

    /// The boolean content, when this is a boolean.
    pub fn toBool(&self) -> (r: Option<bool>)
        ensures
            self@ matches ValueM::Bool(b) ==> r == Some(b),
            !(self@ is Bool) ==> r is None,
    {
        match self {
            NodeContent::Bool(b) => Some(*b),
            _ => None,
        }
    }

    /// The decimal text of the number, when this is a float.
    pub fn toFloat(&self) -> (r: Option<String>)
        ensures
            self@ matches ValueM::Float(lx) ==> r matches Some(x) && x@ == lx,
            !(self@ is Float) ==> r is None,
    {
        match self {
            NodeContent::Float(lx) => Some(lx.clone()),
            _ => None,
        }
    }

    /// A copy of the nested document, when this is one.
    pub fn toJson(&self) -> (r: Option<Json>)
        ensures
            self@ matches ValueM::Obj(es) ==> r matches Some(j) && j@ == es && (content_wf(*self)
                ==> j.deep_wf()),
            !(self@ is Obj) ==> r is None,
    {
        match self {
            NodeContent::Json(j) => Some(j.clone()),
            _ => None,
        }
    }

    /// A copy of the elements, when this is a list.
    pub fn toList(&self) -> (r: Option<Vec<NodeContent>>)
        ensures
            self@ matches ValueM::List(vs) ==> r matches Some(items) && values_view(items@) == vs
                && (content_wf(*self) ==> items_wf(items@)),
            !(self@ is List) ==> r is None,
    {
        match self {
            NodeContent::List(items) => {
                let cloned = clone_contents(items);
                proof {
                    lemma_values_view_pointwise(cloned@, items@);
                    lemma_items_wf(items@);
                    lemma_items_wf(cloned@);
                }
                Some(cloned)
            },
            _ => None,
        }
    }

    /// Always nothing; no content converts to a node.
    pub fn toNull(&self) -> (r: Option<Node>)
        ensures
            r is None,
    {
        None
    }
}

// ===== nodes =====

impl Node {
    /// A node with this label and content. The label is stored verbatim;
    /// the renderer escapes it when text is produced.
    pub fn new(label: &str, content: NodeContent) -> (r: Node)
        ensures
            r@ == (EntryM { label: label@, value: content@ }),
            node_wf(r) == content_wf(content),
    {
        Node { label: label.to_owned(), content }
    }

    /// The label, as a copy.
    pub fn getLabel(&self) -> (r: String)
        ensures
            r@ == self@.label,
    {
        self.label.clone()
    }

    /// The content, as a deep copy.
    pub fn getContent(&self) -> (r: NodeContent)
        ensures
            r@ == self@.value,
            node_wf(*self) ==> content_wf(r),
    {
        self.content.clone()
    }
}

// ===== document queries =====

impl Json {
    /// An empty document.
    pub fn new() -> (r: Json)
        ensures
            r@ == Seq::<EntryM>::empty(),
            r.deep_wf(),
            r.wf(),
    {
        let r = Json { nodes: Vec::new(), labels: Vec::new() };
        proof {
            assert(labels_view(r.labels@) =~= sp_index(r@));
        }
        r
    }

    /// All nodes, as a deep copy, in order.
    pub fn getAllNodes(&self) -> (r: Vec<Node>)
        ensures
            entries_view(r@) == self@,
            self.deep_wf() ==> nodes_wf(r@),
    {
        let r = clone_nodes(&self.nodes);
        proof {
            lemma_entries_view_pointwise(r@, self.nodes@);
            lemma_nodes_wf(self.nodes@);
            lemma_nodes_wf(r@);
        }
        r
    }

    /// The content of the first node with this label, if any.
    pub fn get(&self, label: &str) -> (r: Option<&NodeContent>)
        ensures
            sp_find(self@, label@) matches Some(k) ==> r matches Some(c)
                && (*c)@ == self@[k as int].value && (self.deep_wf() ==> content_wf(*c)),
            sp_find(self@, label@) is None ==> r is None,
    {
        proof {
            lemma_entries_view(self.nodes@);
        }
        let n = self.nodes.len();
        let mut i: usize = 0;
        while i < n
            invariant
                i <= n,
                n == self.nodes@.len(),
                forall|j: int| 0 <= j < i ==> (#[trigger] self.nodes@[j]).label@ != label@,
            decreases n - i,
        {
            if eq_str(self.nodes[i].label.as_str(), label) {
                proof {
                    lemma_entries_view(self.nodes@);
                    assert forall|j: int| 0 <= j < i implies (#[trigger] self@[j].label) != label@ by {
                        assert(self@[j] == entry_view(self.nodes@[j]));
                    }
                    lemma_find_at(self@, label@, i as int);
                    lemma_nodes_wf(self.nodes@);
                }
                return Some(&self.nodes[i].content);
            }
            i = i + 1;
        }
        proof {
            lemma_entries_view(self.nodes@);
            assert forall|j: int| 0 <= j < self@.len() implies (#[trigger] self@[j].label)
                != label@ by {
                assert(self@[j] == entry_view(self.nodes@[j]));
            }
            assert(!sp_has(self@, label@));
            lemma_find_spec(self@, label@);
        }
        None
    }

    /// The first node with this label, if any.
    pub fn getNode(&self, label: &str) -> (r: Option<&Node>)
        ensures
            sp_find(self@, label@) matches Some(k) ==> r matches Some(nd)
                && (*nd)@ == self@[k as int] && (self.deep_wf() ==> node_wf(*nd)),
            sp_find(self@, label@) is None ==> r is None,
    {
        proof {
            lemma_entries_view(self.nodes@);
        }
        let n = self.nodes.len();
        let mut i: usize = 0;
        while i < n
            invariant
                i <= n,
                n == self.nodes@.len(),
                forall|j: int| 0 <= j < i ==> (#[trigger] self.nodes@[j]).label@ != label@,
            decreases n - i,
        {
            if eq_str(self.nodes[i].label.as_str(), label) {
                proof {
                    lemma_entries_view(self.nodes@);
                    assert forall|j: int| 0 <= j < i implies (#[trigger] self@[j].label) != label@ by {
                        assert(self@[j] == entry_view(self.nodes@[j]));
                    }
                    lemma_find_at(self@, label@, i as int);
                    lemma_nodes_wf(self.nodes@);
                }
                return Some(&self.nodes[i]);
            }
            i = i + 1;
        }
        proof {
            lemma_entries_view(self.nodes@);
            assert forall|j: int| 0 <= j < self@.len() implies (#[trigger] self@[j].label)
                != label@ by {
                assert(self@[j] == entry_view(self.nodes@[j]));
            }
            assert(!sp_has(self@, label@));
            lemma_find_spec(self@, label@);
        }
        None
    }

    /// Whether some entry carries this label. Reads the label index alone,
    /// which the invariant keeps in step with the entries.
    pub fn has(&self, label: &str) -> (r: bool)
        requires
            self.wf(),
        ensures
            r == sp_has(self@, label@),
    {
        proof {
            lemma_index_membership(self@, label@);
        }
        let n = self.labels.len();
        let mut i: usize = 0;
        while i < n
            invariant
                self.wf(),
                i <= n,
                n == self.labels@.len(),
                forall|j: int| 0 <= j < i ==> (#[trigger] self.labels@[j])@ != label@,
            decreases n - i,
        {
            if eq_str(self.labels[i].as_str(), label) {
                proof {
                    assert(labels_view(self.labels@)[i as int] == label@);
                    assert(sp_index(self@)[i as int] == label@);
                    assert(sp_index(self@).contains(label@));
                    lemma_index_membership(self@, label@);
                }
                return true;
            }
            i = i + 1;
        }
        proof {
            assert forall|j: int|
                0 <= j < labels_view(self.labels@).len() implies (#[trigger] labels_view(
                self.labels@,
            )[j]) != label@ by {
                assert(labels_view(self.labels@)[j] == self.labels@[j]@);
            }
            assert(!sp_index(self@).contains(label@));
        }
        false
    }
}

// ===== document mutations =====

/// Whether the index vector holds this label.
fn contains_label(ls: &Vec<String>, l: &str) -> (r: bool)
    ensures
        r == labels_view(ls@).contains(l@),
{
    let n = ls.len();
    let mut i: usize = 0;
    while i < n
        invariant
            i <= n,
            n == ls@.len(),
            forall|j: int| 0 <= j < i ==> (#[trigger] ls@[j])@ != l@,
        decreases n - i,
    {
        if eq_str(ls[i].as_str(), l) {
            proof {
                assert(labels_view(ls@)[i as int] == l@);
            }
            return true;
        }
        i = i + 1;
    }
    proof {
        assert forall|j: int|
            0 <= j < labels_view(ls@).len() implies (#[trigger] labels_view(ls@)[j]) != l@ by {
            assert(labels_view(ls@)[j] == ls@[j]@);
        }
    }
    false
}

/// The label index of a node sequence, rebuilt from scratch: each label at
/// its first occurrence.
fn build_index(ns: &Vec<Node>) -> (r: Vec<String>)
    ensures
        labels_view(r@) == sp_index(entries_view(ns@)),
{
    let n = ns.len();
    let mut r: Vec<String> = Vec::new();
    let mut i: usize = 0;
    while i < n
        invariant
            i <= n,
            n == ns@.len(),
            labels_view(r@) == sp_index(entries_view(ns@.take(i as int))),
        decreases n - i,
    {
        let ghost es_i = entries_view(ns@.take(i as int));
        let ghost es_next = entries_view(ns@.take(i as int + 1));
        proof {
            assert(ns@.take(i as int + 1).drop_last() =~= ns@.take(i as int));
            assert(ns@.take(i as int + 1).last() == ns@[i as int]);
            assert(es_next == es_i.push(entry_view(ns@[i as int])));
            assert(es_next.drop_last() =~= es_i);
        }
        if !contains_label(&r, ns[i].label.as_str()) {
            let s = ns[i].label.clone();
            r.push(s);
            proof {
                assert(labels_view(r@) =~= labels_view(r@.drop_last()).push(ns@[i as int].label@));
            }
        }
        i = i + 1;
    }
    proof {
        assert(ns@.take(n as int) =~= ns@);
    }
    r
}

impl Json {
    /// Appends the node unconditionally; an entry with the same label may
    /// already exist, and then stays authoritative for lookups.
    pub fn addNode(&mut self, node: Node)
        requires
            old(self).wf(),
        ensures
            final(self)@ == old(self)@.push(node@),
            final(self).wf(),
            old(self).deep_wf() && node_wf(node) ==> final(self).deep_wf(),
    {
        let ghost old_entries = self@;
        let ghost lbl = node.label@;
        let ghost nm = entry_view(node);
        let present = contains_label(&self.labels, node.label.as_str());
        if !present {
            let s = node.label.clone();
            self.labels.push(s);
        }
        self.nodes.push(node);
        proof {
            assert(self.nodes@.drop_last() =~= old(self).nodes@);
            assert(self.nodes@.last() == self.nodes@[self.nodes@.len() - 1]);
            assert(self@ == old_entries.push(nm));
            assert(self@.drop_last() =~= old_entries);
            assert(self@.last().label == lbl);
            if present {
                assert(labels_view(self.labels@) == sp_index(self@));
            } else {
                assert(labels_view(self.labels@) =~= labels_view(old(self).labels@).push(lbl));
                assert(labels_view(self.labels@) == sp_index(self@));
            }
            lemma_nodes_wf(old(self).nodes@);
            lemma_nodes_wf(self.nodes@);
            assert forall|i: int|
                0 <= i < self.nodes@.len() && old(self).deep_wf() && node_wf(node) implies node_wf(
                #[trigger] self.nodes@[i],
            ) by {
                if i < self.nodes@.len() - 1 {
                    assert(self.nodes@[i] == old(self).nodes@[i]);
                }
            }
        }
    }

    /// Replaces the content of the first node with this label, in place,
    /// and says whether one was found. Labels never change here, so the
    /// index stands as it is.
    pub fn setContent(&mut self, label: &str, content: NodeContent) -> (r: bool)
        requires
            old(self).wf(),
        ensures
            final(self).wf(),
            sp_find(old(self)@, label@) matches Some(k) ==> r == true && final(self)@ == old(
                self,
            )@.update(k as int, (EntryM { label: old(self)@[k as int].label, value: content@ })),
            sp_find(old(self)@, label@) is None ==> r == false && final(self)@ == old(self)@,
            old(self).deep_wf() && content_wf(content) ==> final(self).deep_wf(),
    {
        proof {
            lemma_entries_view(self.nodes@);
        }
        let n = self.nodes.len();
        let mut i: usize = 0;
        while i < n
            invariant
                old(self).wf(),
                i <= n,
                n == self.nodes@.len(),
                *self == *old(self),
                forall|j: int| 0 <= j < i ==> (#[trigger] self.nodes@[j]).label@ != label@,
            decreases n - i,
        {
            if eq_str(self.nodes[i].label.as_str(), label) {
                proof {
                    lemma_entries_view(self.nodes@);
                    assert forall|j: int| 0 <= j < i implies (#[trigger] self@[j].label)
                        != label@ by {
                        assert(self@[j] == entry_view(self.nodes@[j]));
                    }
                    lemma_find_at(self@, label@, i as int);
                }
                let ghost cv = content@;
                let ghost c0 = content;
                let nd = self.nodes.remove(i);
                let nd2 = Node { label: nd.label, content };
                self.nodes.insert(i, nd2);
                proof {
                    let a = old(self).nodes@;
                    let em = EntryM { label: old(self)@[i as int].label, value: cv };
                    assert(self.nodes@ =~= a.update(i as int, nd2));
                    lemma_entries_view(a);
                    lemma_entries_view(self.nodes@);
                    assert(entry_view(nd2) == em);
                    assert forall|j: int|
                        0 <= j < self@.len() implies #[trigger] self@[j] == old(self)@.update(
                        i as int,
                        em,
                    )[j] by {
                        if j != i {
                            assert(self.nodes@[j] == a[j]);
                        } else {
                            assert(self.nodes@[j] == nd2);
                        }
                    }
                    assert(self@ =~= old(self)@.update(i as int, em));
                    assert forall|j: int|
                        0 <= j < self@.len() implies (#[trigger] self@[j].label) == old(
                        self,
                    )@[j].label by {}
                    lemma_index_same_labels(self@, old(self)@);
                    lemma_nodes_wf(a);
                    lemma_nodes_wf(self.nodes@);
                    assert forall|j: int|
                        0 <= j < self.nodes@.len() && old(self).deep_wf() && content_wf(
                            c0,
                        ) implies node_wf(#[trigger] self.nodes@[j]) by {
                        if j != i {
                            assert(self.nodes@[j] == a[j]);
                        }
                    }
                }
                return true;
            }
            i = i + 1;
        }
        proof {
            lemma_entries_view(self.nodes@);
            assert forall|j: int| 0 <= j < self@.len() implies (#[trigger] self@[j].label)
                != label@ by {
                assert(self@[j] == entry_view(self.nodes@[j]));
            }
            assert(!sp_has(self@, label@));
            lemma_find_spec(self@, label@);
        }
        false
    }

    /// Removes the first node with this label, keeping the order of the
    /// rest, and says whether one was found. The index is rebuilt so it
    /// keeps mirroring the entries: a label that also occurs later in the
    /// sequence stays present.
    pub fn remove(&mut self, label: &str) -> (r: bool)
        requires
            old(self).wf(),
        ensures
            final(self).wf(),
            sp_find(old(self)@, label@) matches Some(k) ==> r == true && final(self)@ == old(
                self,
            )@.remove(k as int),
            sp_find(old(self)@, label@) is None ==> r == false && final(self)@ == old(self)@,
            old(self).deep_wf() ==> final(self).deep_wf(),
    {
        proof {
            lemma_entries_view(self.nodes@);
        }
        let n = self.nodes.len();
        let mut i: usize = 0;
        while i < n
            invariant
                old(self).wf(),
                i <= n,
                n == self.nodes@.len(),
                *self == *old(self),
                forall|j: int| 0 <= j < i ==> (#[trigger] self.nodes@[j]).label@ != label@,
            decreases n - i,
        {
            if eq_str(self.nodes[i].label.as_str(), label) {
                proof {
                    lemma_entries_view(self.nodes@);
                    assert forall|j: int| 0 <= j < i implies (#[trigger] self@[j].label)
                        != label@ by {
                        assert(self@[j] == entry_view(self.nodes@[j]));
                    }
                    lemma_find_at(self@, label@, i as int);
                }
                self.nodes.remove(i);
                let ix = build_index(&self.nodes);
                self.labels = ix;
                proof {
                    let a = old(self).nodes@;
                    lemma_entries_view(a);
                    lemma_entries_view(self.nodes@);
                    assert forall|j: int|
                        0 <= j < self@.len() implies #[trigger] self@[j] == old(self)@.remove(
                        i as int,
                    )[j] by {
                        if j < i {
                            assert(self.nodes@[j] == a[j]);
                        } else {
                            assert(self.nodes@[j] == a[j + 1]);
                        }
                    }
                    assert(self@ =~= old(self)@.remove(i as int));
                    lemma_nodes_wf(a);
                    lemma_nodes_wf(self.nodes@);
                    assert forall|j: int|
                        0 <= j < self.nodes@.len() && old(self).deep_wf() implies node_wf(
                        #[trigger] self.nodes@[j],
                    ) by {
                        if j < i {
                            assert(self.nodes@[j] == a[j]);
                        } else {
                            assert(self.nodes@[j] == a[j + 1]);
                        }
                    }
                }
                return true;
            }
            i = i + 1;
        }
        proof {
            lemma_entries_view(self.nodes@);
            assert forall|j: int| 0 <= j < self@.len() implies (#[trigger] self@[j].label)
                != label@ by {
                assert(self@[j] == entry_view(self.nodes@[j]));
            }
            assert(!sp_has(self@, label@));
            lemma_find_spec(self@, label@);
        }
        false
    }
}

} // verus!
