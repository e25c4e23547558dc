//! Arena-indexed document tree model.
//!
//! Nodes live in an append-only arena (`Vec<Node>`) and are addressed by a
//! stable integer identity.  Parent and child fields are relations between
//! identities, not owning links: the arena owns every node, and detaching a
//! node never removes it from the arena.

use vstd::prelude::*;

use crate::text::{first_pos, lemma_first_pos_properties};

verus! {

pub type NodeId = usize;

#[derive(Clone, Debug, PartialEq, Eq)]
pub enum Namespace {
    Html,
    Svg,
    MathMl,
    Other(String),
}

#[derive(Clone, Debug, PartialEq, Eq)]
pub struct QualName {
    pub ns: Namespace,
    pub local: String,
}

#[derive(Clone, Debug, PartialEq, Eq)]
pub struct Attr {
    pub name: QualName,
    pub value: String,
}

#[derive(Clone, Debug, PartialEq, Eq)]
pub struct Doctype {
    pub name: String,
    pub public_id: String,
    pub system_id: String,
}

#[derive(Clone, Debug, PartialEq, Eq)]
pub enum NodeData {
    Document,
    DocumentFragment,
    Element { name: QualName, attrs: Vec<Attr>, template_contents: Option<NodeId> },
    Text(String),
    Comment(String),
    Doctype(Doctype),
}

#[derive(Clone, Debug, PartialEq, Eq)]
pub struct Node {
    pub data: NodeData,
    pub parent: Option<NodeId>,
    pub children: Vec<NodeId>,
}

#[derive(Clone, Debug)]
pub struct Document {
    pub arena: Vec<Node>,
    pub root: NodeId,
}

#[derive(Clone, Debug)]
pub struct DocumentFragment {
    pub arena: Vec<Node>,
    pub root: NodeId,
}

/// Namespaces are equal when they are the same tag; two `Other` tags are
/// equal when they hold the same text.
pub open spec fn ns_eq(a: Namespace, b: Namespace) -> bool {
    match (a, b) {
        (Namespace::Html, Namespace::Html) => true,
        (Namespace::Svg, Namespace::Svg) => true,
        (Namespace::MathMl, Namespace::MathMl) => true,
        (Namespace::Other(x), Namespace::Other(y)) => x@ == y@,
        _ => false,
    }
}

/// Qualified names are compared by namespace tag and local-name text.
pub open spec fn qname_eq(a: QualName, b: QualName) -> bool {
    ns_eq(a.ns, b.ns) && a.local@ == b.local@
}

pub fn namespace_eq(a: &Namespace, b: &Namespace) -> (r: bool)
    ensures
        r == ns_eq(*a, *b),
{
    match (a, b) {
        (Namespace::Html, Namespace::Html) => true,
        (Namespace::Svg, Namespace::Svg) => true,
        (Namespace::MathMl, Namespace::MathMl) => true,
        (Namespace::Other(x), Namespace::Other(y)) => *x == *y,
        _ => false,
    }
}

pub fn qual_name_eq(a: &QualName, b: &QualName) -> (r: bool)
    ensures
        r == qname_eq(*a, *b),
{
    namespace_eq(&a.ns, &b.ns) && a.local == b.local
}

/// Every identity stored inside `node` refers into an arena of length `len`.
pub open spec fn node_in_bounds(node: Node, len: int) -> bool {
    &&& forall|k: int| 0 <= k < node.children@.len() ==> (#[trigger] node.children@[k]) < len
    &&& match node.data {
        NodeData::Element { template_contents, .. } => match template_contents {
            Some(id) => id < len,
            None => true,
        },
        _ => true,
    }
}

/// Every child or template-contents identity in the arena is itself a valid
/// arena index.
pub open spec fn wf_arena(arena: Seq<Node>) -> bool {
    forall|i: int| 0 <= i < arena.len() ==> node_in_bounds(#[trigger] arena[i], arena.len() as int)
}

/// A freshly created node: no parent, no children, the given payload.
pub open spec fn is_fresh_node(node: Node, data: NodeData) -> bool {
    &&& node.data == data
    &&& node.parent is None
    &&& node.children@ == Seq::<NodeId>::empty()
}

/// A freshly created, unattached element with the given name, no attributes
/// and no template contents.
pub open spec fn is_fresh_element(node: Node, name: QualName) -> bool {
    &&& node.parent is None
    &&& node.children@ == Seq::<NodeId>::empty()
    &&& node.data matches NodeData::Element { name: n, attrs, template_contents }
        && n == name && attrs@ == Seq::<Attr>::empty() && template_contents is None
}

impl Document {
    /// An arena holding exactly one node: the document root.
    pub fn new_empty() -> (r: Self)
        ensures
            r.arena@.len() == 1,
            r.root == 0usize,
            is_fresh_node(r.arena@[0], NodeData::Document),
            wf_arena(r.arena@),
    {
        let mut arena: Vec<Node> = Vec::new();
        let root = arena.len();
        arena.push(Node { data: NodeData::Document, parent: None, children: Vec::new() });
        Self { arena, root }
    }

    /// Appends a fresh, unattached element entry and returns its identity.
    pub fn create_element(&mut self, name: QualName) -> (id: NodeId)
        ensures
            id == old(self).arena@.len(),
            final(self).arena@.len() == old(self).arena@.len() + 1,
            final(self).root == old(self).root,
            forall|i: int| 0 <= i < old(self).arena@.len()
                ==> final(self).arena@[i] == old(self).arena@[i],
            is_fresh_element(final(self).arena@[id as int], name),
            wf_arena(old(self).arena@) ==> wf_arena(final(self).arena@),
    {
        let id = self.arena.len();
        self.arena.push(Node {
            data: NodeData::Element { name, attrs: Vec::new(), template_contents: None },
            parent: None,
            children: Vec::new(),
        });
        id
    }

    /// Appends a fresh, unattached text entry and returns its identity.
    pub fn create_text(&mut self, data: String) -> (id: NodeId)
        ensures
            id == old(self).arena@.len(),
            final(self).arena@.len() == old(self).arena@.len() + 1,
            final(self).root == old(self).root,
            forall|i: int| 0 <= i < old(self).arena@.len()
                ==> final(self).arena@[i] == old(self).arena@[i],
            is_fresh_node(final(self).arena@[id as int], NodeData::Text(data)),
            wf_arena(old(self).arena@) ==> wf_arena(final(self).arena@),
    {
        let id = self.arena.len();
        self.arena.push(Node { data: NodeData::Text(data), parent: None, children: Vec::new() });
        id
    }

    /// Appends a fresh, unattached comment entry and returns its identity.
    pub fn create_comment(&mut self, data: String) -> (id: NodeId)
        ensures
            id == old(self).arena@.len(),
            final(self).arena@.len() == old(self).arena@.len() + 1,
            final(self).root == old(self).root,
            forall|i: int| 0 <= i < old(self).arena@.len()
                ==> final(self).arena@[i] == old(self).arena@[i],
            is_fresh_node(final(self).arena@[id as int], NodeData::Comment(data)),
            wf_arena(old(self).arena@) ==> wf_arena(final(self).arena@),
    {
        let id = self.arena.len();
        self.arena.push(Node { data: NodeData::Comment(data), parent: None, children: Vec::new() });
        id
    }

    /// Appends a fresh, unattached doctype entry and returns its identity.
    pub fn create_doctype(&mut self, doctype: Doctype) -> (id: NodeId)
        ensures
            id == old(self).arena@.len(),
            final(self).arena@.len() == old(self).arena@.len() + 1,
            final(self).root == old(self).root,
            forall|i: int| 0 <= i < old(self).arena@.len()
                ==> final(self).arena@[i] == old(self).arena@[i],
            is_fresh_node(final(self).arena@[id as int], NodeData::Doctype(doctype)),
            wf_arena(old(self).arena@) ==> wf_arena(final(self).arena@),
    {
        let id = self.arena.len();
        self.arena.push(Node {
            data: NodeData::Doctype(doctype),
            parent: None,
            children: Vec::new(),
        });
        id
    }
}

impl DocumentFragment {
    /// An arena holding exactly one node: the fragment root.
    pub fn new_empty() -> (r: Self)
        ensures
            r.arena@.len() == 1,
            r.root == 0usize,
            is_fresh_node(r.arena@[0], NodeData::DocumentFragment),
            wf_arena(r.arena@),
    {
        let mut arena: Vec<Node> = Vec::new();
        let root = arena.len();
        arena.push(Node { data: NodeData::DocumentFragment, parent: None, children: Vec::new() });
        Self { arena, root }
    }

    /// Appends a fresh, unattached element entry and returns its identity.
    pub fn create_element(&mut self, name: QualName) -> (id: NodeId)
        ensures
            id == old(self).arena@.len(),
            final(self).arena@.len() == old(self).arena@.len() + 1,
            final(self).root == old(self).root,
            forall|i: int| 0 <= i < old(self).arena@.len()
                ==> final(self).arena@[i] == old(self).arena@[i],
            is_fresh_element(final(self).arena@[id as int], name),
            wf_arena(old(self).arena@) ==> wf_arena(final(self).arena@),
    {
        let id = self.arena.len();
        self.arena.push(Node {
            data: NodeData::Element { name, attrs: Vec::new(), template_contents: None },
            parent: None,
            children: Vec::new(),
        });
        id
    }

    /// Appends a fresh, unattached text entry and returns its identity.
    pub fn create_text(&mut self, data: String) -> (id: NodeId)
        ensures
            id == old(self).arena@.len(),
            final(self).arena@.len() == old(self).arena@.len() + 1,
            final(self).root == old(self).root,
            forall|i: int| 0 <= i < old(self).arena@.len()
                ==> final(self).arena@[i] == old(self).arena@[i],
            is_fresh_node(final(self).arena@[id as int], NodeData::Text(data)),
            wf_arena(old(self).arena@) ==> wf_arena(final(self).arena@),
    {
        let id = self.arena.len();
        self.arena.push(Node { data: NodeData::Text(data), parent: None, children: Vec::new() });
        id
    }

    /// Appends a fresh, unattached comment entry and returns its identity.
    pub fn create_comment(&mut self, data: String) -> (id: NodeId)
        ensures
            id == old(self).arena@.len(),
            final(self).arena@.len() == old(self).arena@.len() + 1,
            final(self).root == old(self).root,
            forall|i: int| 0 <= i < old(self).arena@.len()
                ==> final(self).arena@[i] == old(self).arena@[i],
            is_fresh_node(final(self).arena@[id as int], NodeData::Comment(data)),
            wf_arena(old(self).arena@) ==> wf_arena(final(self).arena@),
    {
        let id = self.arena.len();
        self.arena.push(Node { data: NodeData::Comment(data), parent: None, children: Vec::new() });
        id
    }
}

/// Attaches `child` at the end of `parent`'s child list and points the
/// child's parent reference back at `parent`.
pub fn append_child(arena: &mut Vec<Node>, parent: NodeId, child: NodeId)
    requires
        parent < old(arena)@.len(),
        child < old(arena)@.len(),
    ensures
        final(arena)@.len() == old(arena)@.len(),
        forall|i: int| 0 <= i < old(arena)@.len() && i != parent && i != child
            ==> final(arena)@[i] == old(arena)@[i],
        parent == child ==> {
            let n = final(arena)@[parent as int];
            &&& n.data == old(arena)@[parent as int].data
            &&& n.parent == Some(parent)
            &&& n.children@ == old(arena)@[parent as int].children@.push(child)
        },
        parent != child ==> {
            let p = final(arena)@[parent as int];
            let c = final(arena)@[child as int];
            &&& p.data == old(arena)@[parent as int].data
            &&& p.parent == old(arena)@[parent as int].parent
            &&& p.children@ == old(arena)@[parent as int].children@.push(child)
            &&& c.data == old(arena)@[child as int].data
            &&& c.parent == Some(parent)
            &&& c.children@ == old(arena)@[child as int].children@
        },
        wf_arena(old(arena)@) ==> wf_arena(final(arena)@),
{
    arena[child].parent = Some(parent);
    arena[parent].children.push(child);
}

fn find_child_pos(children: &Vec<NodeId>, x: NodeId) -> (r: Option<usize>)
    ensures
        match r {
            Some(i) => first_pos(children@, x) == Some(i as int),
            None => first_pos(children@, x) is None,
        },
{
    proof {
        lemma_first_pos_properties(children@, x);
    }
    let mut i: usize = 0;
    while i < children.len()
        invariant
            i <= children@.len(),
            forall|j: int| 0 <= j < i ==> children@[j] != x,
            match first_pos(children@, x) {
                Some(k) => 0 <= k < children@.len() && children@[k] == x
                    && forall|j: int| 0 <= j < k ==> children@[j] != x,
                None => forall|j: int| 0 <= j < children@.len() ==> children@[j] != x,
            },
        decreases children@.len() - i,
    {
        if children[i] == x {
            proof {
                if first_pos(children@, x) is None {
                    assert(children@[i as int] != x);
                }
                let k = first_pos(children@, x)->Some_0;
                if k < i {
                    assert(children@[k] == x);
                }
                if k > i {
                    assert(children@[i as int] != x);
                }
            }
            return Some(i);
        }
        i += 1;
    }
    proof {
        if first_pos(children@, x) is Some {
            assert(children@[first_pos(children@, x)->Some_0] == x);
        }
    }
    None
}

/// Splices `new_child` immediately before `reference` among `parent`'s
/// children when the reference is present; otherwise appends, exactly like
/// [`append_child`].
pub fn insert_before(
    arena: &mut Vec<Node>,
    parent: NodeId,
    new_child: NodeId,
    reference: Option<NodeId>,
)
    requires
        parent < old(arena)@.len(),
        new_child < old(arena)@.len(),
    ensures
        final(arena)@.len() == old(arena)@.len(),
        forall|i: int| 0 <= i < old(arena)@.len() && i != parent && i != new_child
            ==> final(arena)@[i] == old(arena)@[i],
        ({
            let pos = match reference {
                Some(r) => first_pos(old(arena)@[parent as int].children@, r),
                None => None,
            };
            match pos {
                Some(at) => {
                    if parent == new_child {
                        let n = final(arena)@[parent as int];
                        &&& n.data == old(arena)@[parent as int].data
                        &&& n.parent == Some(parent)
                        &&& n.children@ == old(arena)@[parent as int].children@.insert(at, new_child)
                    } else {
                        let p = final(arena)@[parent as int];
                        let c = final(arena)@[new_child as int];
                        &&& p.data == old(arena)@[parent as int].data
                        &&& p.parent == old(arena)@[parent as int].parent
                        &&& p.children@ == old(arena)@[parent as int].children@.insert(at, new_child)
                        &&& c.data == old(arena)@[new_child as int].data
                        &&& c.parent == Some(parent)
                        &&& c.children@ == old(arena)@[new_child as int].children@
                    }
                },
                None => {
                    if parent == new_child {
                        let n = final(arena)@[parent as int];
                        &&& n.data == old(arena)@[parent as int].data
                        &&& n.parent == Some(parent)
                        &&& n.children@ == old(arena)@[parent as int].children@.push(new_child)
                    } else {
                        let p = final(arena)@[parent as int];
                        let c = final(arena)@[new_child as int];
                        &&& p.data == old(arena)@[parent as int].data
                        &&& p.parent == old(arena)@[parent as int].parent
                        &&& p.children@ == old(arena)@[parent as int].children@.push(new_child)
                        &&& c.data == old(arena)@[new_child as int].data
                        &&& c.parent == Some(parent)
                        &&& c.children@ == old(arena)@[new_child as int].children@
                    }
                },
            }
        }),
        wf_arena(old(arena)@) ==> wf_arena(final(arena)@),
{
    if let Some(r) = reference {
        let pos = find_child_pos(&arena[parent].children, r);
        if let Some(i) = pos {
            proof {
                lemma_first_pos_properties(old(arena)@[parent as int].children@, r);
            }
            arena[new_child].parent = Some(parent);
            arena[parent].children.insert(i, new_child);
            return;
        }
    }
    append_child(arena, parent, new_child);
}

/// Removes `node` from its parent's child list (first occurrence) and clears
/// its parent reference.  The node itself stays in the arena and keeps its
/// own children.
pub fn detach(arena: &mut Vec<Node>, node: NodeId)
    requires
        node < old(arena)@.len(),
        old(arena)@[node as int].parent matches Some(p) ==> p < old(arena)@.len(),
    ensures
        final(arena)@.len() == old(arena)@.len(),
        old(arena)@[node as int].parent is None ==> final(arena)@ == old(arena)@,
        ({
            old(arena)@[node as int].parent matches Some(p) ==> {
                let removed = match first_pos(old(arena)@[p as int].children@, node) {
                    Some(at) => old(arena)@[p as int].children@.remove(at),
                    None => old(arena)@[p as int].children@,
                };
                &&& forall|i: int| 0 <= i < old(arena)@.len() && i != p && i != node
                    ==> final(arena)@[i] == old(arena)@[i]
                &&& if p == node {
                    let n = final(arena)@[node as int];
                    &&& n.data == old(arena)@[node as int].data
                    &&& n.parent is None
                    &&& n.children@ == removed
                } else {
                    let pn = final(arena)@[p as int];
                    let c = final(arena)@[node as int];
                    &&& pn.data == old(arena)@[p as int].data
                    &&& pn.parent == old(arena)@[p as int].parent
                    &&& pn.children@ == removed
                    &&& c.data == old(arena)@[node as int].data
                    &&& c.parent is None
                    &&& c.children@ == old(arena)@[node as int].children@
                }
            }
        }),
        wf_arena(old(arena)@) ==> wf_arena(final(arena)@),
{
    let parent_opt = arena[node].parent;
    let parent = match parent_opt {
        Some(p) => p,
        None => {
            proof {
                assert(final(arena)@ =~= old(arena)@);
            }
            return;
        },
    };
    let pos = find_child_pos(&arena[parent].children, node);
    if let Some(i) = pos {
        proof {
            lemma_first_pos_properties(old(arena)@[parent as int].children@, node);
        }
        arena[parent].children.remove(i);
    }
    arena[node].parent = None;
    proof {
        if wf_arena(old(arena)@) {
            assert forall|i: int| 0 <= i < final(arena)@.len()
                implies node_in_bounds(#[trigger] final(arena)@[i], final(arena)@.len() as int) by {
                assert(node_in_bounds(old(arena)@[i], old(arena)@.len() as int));
                if i == parent as int {
                    let oldc = old(arena)@[parent as int].children@;
                    let newc = final(arena)@[i].children@;
                    assert(forall|k: int| 0 <= k < newc.len()
                        ==> exists|m: int| 0 <= m < oldc.len() && oldc[m] == #[trigger] newc[k]);
                }
            }
        }
    }
}

/// The position of the first attribute in `attrs` whose qualified name
/// equals `name`, if any.
pub open spec fn attr_pos(attrs: Seq<Attr>, name: QualName) -> Option<int>
    decreases attrs.len(),
{
    if attrs.len() == 0 {
        None
    } else if qname_eq(attrs[0].name, name) {
        Some(0)
    } else {
        match attr_pos(attrs.drop_first(), name) {
            Some(i) => Some(i + 1),
            None => None,
        }
    }
}

pub proof fn lemma_attr_pos_properties(attrs: Seq<Attr>, name: QualName)
    ensures
        match attr_pos(attrs, name) {
            Some(i) => 0 <= i < attrs.len() && qname_eq(attrs[i].name, name)
                && forall|j: int| 0 <= j < i ==> !qname_eq(attrs[j].name, name),
            None => forall|j: int| 0 <= j < attrs.len() ==> !qname_eq(attrs[j].name, name),
        },
    decreases attrs.len(),
{
    if attrs.len() > 0 && !qname_eq(attrs[0].name, name) {
        lemma_attr_pos_properties(attrs.drop_first(), name);
        let d = attrs.drop_first();
        match attr_pos(d, name) {
            Some(i) => {
                assert(d[i] == attrs[i + 1]);
                assert forall|j: int| 0 <= j < i + 1 implies !qname_eq(attrs[j].name, name) by {
                    if j > 0 {
                        assert(d[j - 1] == attrs[j]);
                    }
                }
            },
            None => {
                assert forall|j: int| 0 <= j < attrs.len() implies !qname_eq(attrs[j].name, name)
                    by {
                    if j > 0 {
                        assert(d[j - 1] == attrs[j]);
                    }
                }
            },
        }
    }
}

/// Overwrites the value of the attribute with the same qualified name when
/// one exists (keeping attribute order), otherwise appends the attribute.
/// A non-element node is left unchanged.
pub fn set_attr(arena: &mut Vec<Node>, element: NodeId, attr: Attr)
    requires
        element < old(arena)@.len(),
    ensures
        final(arena)@.len() == old(arena)@.len(),
        forall|i: int| 0 <= i < old(arena)@.len() && i != element
            ==> final(arena)@[i] == old(arena)@[i],
        !(old(arena)@[element as int].data matches NodeData::Element { .. })
            ==> final(arena)@ == old(arena)@,
        ({
            old(arena)@[element as int].data matches NodeData::Element {
                name: en,
                attrs: ea,
                template_contents: tc,
            } ==> {
                let n = final(arena)@[element as int];
                &&& n.parent == old(arena)@[element as int].parent
                &&& n.children@ == old(arena)@[element as int].children@
                &&& n.data matches NodeData::Element {
                    name: en2,
                    attrs: ea2,
                    template_contents: tc2,
                } && en2 == en && tc2 == tc && match attr_pos(ea@, attr.name) {
                    Some(at) => {
                        &&& ea2@.len() == ea@.len()
                        &&& forall|j: int| 0 <= j < ea@.len() && j != at ==> ea2@[j] == ea@[j]
                        &&& ea2@[at].name == ea@[at].name
                        &&& ea2@[at].value == attr.value
                    },
                    None => ea2@ == ea@.push(attr),
                }
            }
        }),
        wf_arena(old(arena)@) ==> wf_arena(final(arena)@),
{
    let mut taken = Node { data: NodeData::Document, parent: None, children: Vec::new() };
    core::mem::swap(&mut arena[element], &mut taken);
    let Node { data, parent, children } = taken;
    let new_data = match data {
        NodeData::Element { name, mut attrs, template_contents } => {
            proof {
                lemma_attr_pos_properties(attrs@, attr.name);
            }
            let n = attrs.len();
            let mut i: usize = 0;
            while i < n && !qual_name_eq(&attrs[i].name, &attr.name)
                invariant
                    i <= n,
                    n == attrs@.len(),
                    forall|j: int| 0 <= j < i ==> !qname_eq(attrs@[j].name, attr.name),
                decreases n - i,
            {
                i += 1;
            }
            proof {
                lemma_attr_pos_properties(attrs@, attr.name);
            }
            if i < n {
                attrs[i].value = attr.value;
            } else {
                attrs.push(attr);
            }
            NodeData::Element { name, attrs, template_contents }
        },
        d => d,
    };
    let mut back = Node { data: new_data, parent, children };
    core::mem::swap(&mut arena[element], &mut back);
    proof {
        if !(old(arena)@[element as int].data matches NodeData::Element { .. }) {
            assert(final(arena)@ =~= old(arena)@);
        }
    }
}

/// Returns the element's template-contents fragment, creating it on first
/// use; repeated calls return the same identity.  On a non-element the call
/// is a no-op that returns `template` itself.
pub fn ensure_template_contents(arena: &mut Vec<Node>, template: NodeId) -> (id: NodeId)
    requires
        template < old(arena)@.len(),
    ensures
        !(old(arena)@[template as int].data matches NodeData::Element { .. }) ==> {
            &&& final(arena)@ == old(arena)@
            &&& id == template
        },
        old(arena)@[template as int].data matches NodeData::Element {
            template_contents: Some(existing),
            ..
        } ==> {
            &&& final(arena)@ == old(arena)@
            &&& id == existing
        },
        ({
            old(arena)@[template as int].data matches NodeData::Element {
                name: en,
                attrs: ea,
                template_contents: None,
            } ==> {
                let n = final(arena)@[template as int];
                &&& id == old(arena)@.len()
                &&& final(arena)@.len() == old(arena)@.len() + 1
                &&& forall|i: int| 0 <= i < old(arena)@.len() && i != template
                    ==> final(arena)@[i] == old(arena)@[i]
                &&& is_fresh_node(final(arena)@[id as int], NodeData::DocumentFragment)
                &&& n.parent == old(arena)@[template as int].parent
                &&& n.children@ == old(arena)@[template as int].children@
                &&& n.data matches NodeData::Element {
                    name: en2,
                    attrs: ea2,
                    template_contents: tc2,
                } && en2 == en && ea2 == ea && tc2 == Some(id)
            }
        }),
        wf_arena(old(arena)@) ==> wf_arena(final(arena)@),
{
    let mut taken = Node { data: NodeData::Document, parent: None, children: Vec::new() };
    core::mem::swap(&mut arena[template], &mut taken);
    let Node { data, parent, children } = taken;
    match data {
        NodeData::Element { name, attrs, template_contents } => {
            if let Some(existing) = template_contents {
                let mut back = Node {
                    data: NodeData::Element { name, attrs, template_contents },
                    parent,
                    children,
                };
                core::mem::swap(&mut arena[template], &mut back);
                proof {
                    assert(final(arena)@ =~= old(arena)@);
                }
                existing
            } else {
                let id = arena.len();
                let mut back = Node {
                    data: NodeData::Element { name, attrs, template_contents: Some(id) },
                    parent,
                    children,
                };
                core::mem::swap(&mut arena[template], &mut back);
                arena.push(Node {
                    data: NodeData::DocumentFragment,
                    parent: None,
                    children: Vec::new(),
                });
                id
            }
        },
        d => {
            let mut back = Node { data: d, parent, children };
            core::mem::swap(&mut arena[template], &mut back);
            proof {
                assert(final(arena)@ =~= old(arena)@);
            }
            template
        },
    }
}

} // verus!
