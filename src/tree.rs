use vstd::prelude::*;

use crate::encode::{blob_of, encode, total_size, DtbError};
use crate::property::DeviceTreeProperty;

verus! {

/// A named property of a node.
pub struct Property {
    pub name: String,
    pub value: DeviceTreeProperty,
}

/// A node: a name, its properties in order, and its children in order.
pub struct Node {
    pub name: String,
    pub properties: Vec<Property>,
    pub children: Vec<Node>,
}

/// Index of the first child named `s`, or `cs.len()` when there is none.
pub open spec fn child_index(cs: Seq<Node>, s: Seq<char>) -> int
    decreases cs.len(),
{
    if cs.len() == 0 {
        0
    } else if cs[0].name@ == s {
        0
    } else {
        1 + child_index(cs.drop_first(), s)
    }
}

/// Index of the first property named `s`, or `ps.len()` when there is none.
pub open spec fn prop_index(ps: Seq<Property>, s: Seq<char>) -> int
    decreases ps.len(),
{
    if ps.len() == 0 {
        0
    } else if ps[0].name@ == s {
        0
    } else {
        1 + prop_index(ps.drop_first(), s)
    }
}

pub proof fn lemma_child_index(cs: Seq<Node>, s: Seq<char>)
    ensures
        0 <= child_index(cs, s) <= cs.len(),
        forall|j: int| 0 <= j < child_index(cs, s) ==> cs[j].name@ != s,
        child_index(cs, s) < cs.len() ==> cs[child_index(cs, s)].name@ == s,
    decreases cs.len(),
{
    if cs.len() > 0 && cs[0].name@ != s {
        lemma_child_index(cs.drop_first(), s);
        assert forall|j: int| 0 <= j < child_index(cs, s) implies cs[j].name@ != s by {
            if j > 0 {
                assert(cs[j] == cs.drop_first()[j - 1]);
            }
        }
    }
}

pub proof fn lemma_prop_index(ps: Seq<Property>, s: Seq<char>)
    ensures
        0 <= prop_index(ps, s) <= ps.len(),
        forall|j: int| 0 <= j < prop_index(ps, s) ==> ps[j].name@ != s,
        prop_index(ps, s) < ps.len() ==> ps[prop_index(ps, s)].name@ == s,
    decreases ps.len(),
{
    if ps.len() > 0 && ps[0].name@ != s {
        lemma_prop_index(ps.drop_first(), s);
        assert forall|j: int| 0 <= j < prop_index(ps, s) implies ps[j].name@ != s by {
            if j > 0 {
                assert(ps[j] == ps.drop_first()[j - 1]);
            }
        }
    }
}

/// The node reached from `n` by following the child names of `path`.
pub open spec fn node_at(n: Node, path: Seq<String>) -> Option<Node>
    decreases path.len(),
{
    if path.len() == 0 {
        Some(n)
    } else {
        let k = child_index(n.children@, path[0]@);
        if 0 <= k < n.children@.len() {
            node_at(n.children@[k], path.drop_first())
        } else {
            None
        }
    }
}

/// `q` leads to `p` or to one of the nodes on the way there.
pub open spec fn on_path(q: Seq<String>, p: Seq<String>) -> bool {
    q.len() <= p.len() && forall|j: int| 0 <= j < q.len() ==> #[trigger] q[j]@ == p[j]@
}

/// The properties of the node at `path`; none where there is no such node.
pub open spec fn props_at(n: Node, path: Seq<String>) -> Seq<Property> {
    match node_at(n, path) {
        Some(m) => m.properties@,
        None => Seq::empty(),
    }
}

/// The children of the node at `path`; none where there is no such node.
pub open spec fn children_at(n: Node, path: Seq<String>) -> Seq<Node> {
    match node_at(n, path) {
        Some(m) => m.children@,
        None => Seq::empty(),
    }
}

/// The property list after setting `name` to `v`: an existing property keeps its place and
/// takes the new value, a new one goes to the end.
pub open spec fn edited(ps: Seq<Property>, name: String, v: DeviceTreeProperty) -> Seq<Property> {
    let k = prop_index(ps, name@);
    if k < ps.len() {
        ps.update(k, Property { name, value: v })
    } else {
        ps.push(Property { name, value: v })
    }
}

/// No two properties share a name.
pub open spec fn names_unique(ps: Seq<Property>) -> bool {
    forall|i: int, j: int| 0 <= i < ps.len() && 0 <= j < ps.len() && i != j ==> ps[i].name@ != ps[j].name@
}

impl Node {
    /// A node without properties or children.
    pub fn new(name: String) -> (r: Node)
        ensures
            r.name == name,
            r.properties@.len() == 0,
            r.children@.len() == 0,
    {
        Node { name, properties: Vec::new(), children: Vec::new() }
    }

    fn find_child(&self, s: &String) -> (r: usize)
        ensures
            r == child_index(self.children@, s@),
    {
        proof {
            lemma_child_index(self.children@, s@);
        }
        let mut i: usize = 0;
        while i < self.children.len()
            invariant
                i <= self.children@.len(),
                forall|j: int| 0 <= j < i ==> self.children@[j].name@ != s@,
                child_index(self.children@, s@) >= i,
            decreases self.children@.len() - i,
        {
            proof {
                lemma_child_index(self.children@, s@);
            }
            if self.children[i].name == *s {
                return i;
            }
            i = i + 1;
        }
        i
    }

    fn find_property(&self, s: &String) -> (r: usize)
        ensures
            r == prop_index(self.properties@, s@),
    {
        proof {
            lemma_prop_index(self.properties@, s@);
        }
        let mut i: usize = 0;
        while i < self.properties.len()
            invariant
                i <= self.properties@.len(),
                forall|j: int| 0 <= j < i ==> self.properties@[j].name@ != s@,
                prop_index(self.properties@, s@) >= i,
            decreases self.properties@.len() - i,
        {
            proof {
                lemma_prop_index(self.properties@, s@);
            }
            if self.properties[i].name == *s {
                return i;
            }
            i = i + 1;
        }
        i
    }

    /// Sets property `name` to `value` on this node, keeping its place where it exists.
    pub fn set_property(&mut self, name: &String, value: DeviceTreeProperty)
        ensures
            final(self).properties@ == edited(old(self).properties@, *name, value),
            final(self).name == old(self).name,
            final(self).children == old(self).children,
    {
        let k = self.find_property(name);
        let p = Property { name: name.clone(), value };
        if k < self.properties.len() {
            self.properties.set(k, p);
        } else {
            self.properties.push(p);
        }
    }
}

/// Sets property `name` to `value` on the node at `path[i..]` below `node`, creating the nodes
/// of the path that are missing.
fn edit_at(node: &mut Node, path: &[String], i: usize, name: &String, value: DeviceTreeProperty)
    requires
        i <= path@.len(),
    ensures
        ({
            let p = path@.subrange(i as int, path@.len() as int);
            &&& node_at(*final(node), p) is Some
            &&& props_at(*final(node), p) == edited(props_at(*old(node), p), *name, value)
            &&& children_at(*final(node), p) == children_at(*old(node), p)
            &&& forall|q: Seq<String>|
                !on_path(q, p) ==> #[trigger] node_at(*final(node), q) == node_at(*old(node), q)
        }),
        final(node).name == old(node).name,
    decreases path@.len() - i,
{
    let ghost p = path@.subrange(i as int, path@.len() as int);
    if i == path.len() {
        node.set_property(name, value);
        assert(p.len() == 0);
        assert forall|q: Seq<String>| !on_path(q, p) implies #[trigger] node_at(*node, q) == node_at(
            *old(node),
            q,
        ) by {
            assert(q.len() > 0);
        }
        return ;
    }
    let ghost rest = path@.subrange(i + 1, path@.len() as int);
    assert(p.drop_first() =~= rest);
    let k = node.find_child(&path[i]);
    proof {
        lemma_child_index(node.children@, path@[i as int]@);
    }
    let ghost old_children = node.children@;
    let mut child = if k < node.children.len() {
        node.children.remove(k)
    } else {
        Node::new(path[i].clone())
    };
    let ghost old_child = child;
    proof {
        if k == old_children.len() {
            if rest.len() > 0 {
                assert(node_at(old_child, rest) is None);
            }
        }
    }
    edit_at(&mut child, path, i + 1, name, value);
    let ghost new_child = child;
    node.children.insert(k, child);
    proof {
        let cs = node.children@;
        if k < old_children.len() {
            assert(cs =~= old_children.update(k as int, new_child));
        } else {
            assert(cs =~= old_children.push(new_child));
        }
        lemma_child_index(cs, p[0]@);
        assert(forall|j: int| 0 <= j < k ==> cs[j] == old_children[j]);
        assert(cs[k as int].name@ == p[0]@);
        assert(child_index(cs, p[0]@) == k);
        assert(node_at(*node, p) == node_at(new_child, rest));
        lemma_child_index(old_children, p[0]@);
        assert forall|q: Seq<String>| !on_path(q, p) implies #[trigger] node_at(*node, q) == node_at(
            *old(node),
            q,
        ) by {
            if q.len() == 0 {
            } else if q[0]@ == p[0]@ {
                let qr = q.drop_first();
                assert(!on_path(qr, rest)) by {
                    if on_path(qr, rest) {
                        assert forall|j: int| 0 <= j < q.len() implies #[trigger] q[j]@ == p[j]@ by {
                            if j > 0 {
                                assert(q[j] == qr[j - 1]);
                                assert(p[j] == rest[j - 1]);
                            }
                        }
                    }
                }
                assert(node_at(*node, q) == node_at(new_child, qr));
                assert(node_at(new_child, qr) == node_at(old_child, qr));
                if k == old_children.len() {
                    assert(qr.len() > 0) by {
                        if qr.len() == 0 {
                            assert(q.len() == 1);
                        }
                    }
                    assert(node_at(old_child, qr) is None);
                    assert(node_at(*old(node), q) is None);
                }
            } else {
                let s = q[0]@;
                lemma_child_index(old_children, s);
                lemma_child_index(cs, s);
                let a = child_index(old_children, s);
                let b = child_index(cs, s);
                if k < old_children.len() {
                    assert(b == a) by {
                        if b < a {
                            assert(cs[b] == old_children[b]);
                        }
                        if a < b {
                            assert(cs[a] == old_children[a]);
                        }
                    }
                    if a < old_children.len() {
                        assert(a != k);
                        assert(cs[a] == old_children[a]);
                    }
                } else if a < old_children.len() {
                    assert(b == a) by {
                        if b < a {
                            assert(cs[b] == old_children[b]);
                        }
                        if a < b {
                            assert(cs[a] == old_children[a]);
                        }
                    }
                    assert(cs[a] == old_children[a]);
                } else {
                    assert(b == cs.len()) by {
                        if b < old_children.len() {
                            assert(cs[b] == old_children[b]);
                        }
                    }
                }
            }
        }
    }
}

/// Setting a property twice leaves the list as setting it once with the second value: the
/// property stays where the first edit put it and is not duplicated.
pub proof fn lemma_edit_twice(ps: Seq<Property>, name: String, v1: DeviceTreeProperty, v2: DeviceTreeProperty)
    ensures
        edited(edited(ps, name, v1), name, v2) == edited(ps, name, v2),
{
    let k = prop_index(ps, name@);
    let ps1 = edited(ps, name, v1);
    lemma_prop_index(ps, name@);
    lemma_prop_index(ps1, name@);
    if k < ps.len() {
        assert(ps1[k] == Property { name, value: v1 });
        assert(prop_index(ps1, name@) == k);
        assert(ps1.update(k, Property { name, value: v2 }) =~= ps.update(k, Property { name, value: v2 }));
    } else {
        assert(ps1[k] == Property { name, value: v1 });
        assert(prop_index(ps1, name@) == k);
        assert(ps1.update(k, Property { name, value: v2 }) =~= ps.push(Property { name, value: v2 }));
    }
}

/// Setting a property keeps the names of a list unique, and afterwards exactly one
/// property carries that name, with the value given.
pub proof fn lemma_edit_unique(ps: Seq<Property>, name: String, v: DeviceTreeProperty)
    requires
        names_unique(ps),
    ensures
        names_unique(edited(ps, name, v)),
        exists|k: int|
            0 <= k < edited(ps, name, v).len() && edited(ps, name, v)[k] == (Property { name, value: v })
                && forall|j: int|
                0 <= j < edited(ps, name, v).len() && j != k ==> edited(ps, name, v)[j].name@ != name@,
{
    let k = prop_index(ps, name@);
    let e = edited(ps, name, v);
    lemma_prop_index(ps, name@);
    if k < ps.len() {
        assert(forall|j: int| 0 <= j < e.len() && j != k ==> e[j] == ps[j]);
    } else {
        assert(forall|j: int| 0 <= j < ps.len() ==> e[j] == ps[j]);
    }
    assert(e[k] == Property { name, value: v });
}

/// One step of a depth-first walk of a tree.
pub enum StructItem {
    BeginNode { name: String },
    EndNode,
    /// A property with its encoded value.
    Property { name: String, value: Vec<u8> },
}

/// What a [`StructItem`] stands for.
pub enum ItemView {
    Begin(Seq<char>),
    End,
    Prop(Seq<char>, Seq<u8>),
}

impl StructItem {
    pub open spec fn view(&self) -> ItemView {
        match self {
            StructItem::BeginNode { name } => ItemView::Begin(name@),
            StructItem::EndNode => ItemView::End,
            StructItem::Property { name, value } => ItemView::Prop(name@, value@),
        }
    }
}

pub open spec fn items_view(items: Seq<StructItem>) -> Seq<ItemView> {
    items.map_values(|it: StructItem| it.view())
}

pub open spec fn prop_items(ps: Seq<Property>) -> Seq<ItemView> {
    ps.map_values(|p: Property| ItemView::Prop(p.name@, p.value.encoded()))
}

/// The depth-first pre-order walk of `n`: its beginning, its properties, its children in
/// order, its end.
pub open spec fn items_of(n: Node) -> Seq<ItemView>
    decreases n, n.children@.len() + 1,
{
    seq![ItemView::Begin(n.name@)] + prop_items(n.properties@) + children_items(n, 0) + seq![
        ItemView::End,
    ]
}

/// The walks of the children of `n` from index `i` on, one after the other.
pub open spec fn children_items(n: Node, i: int) -> Seq<ItemView>
    decreases n, n.children@.len() - i,
{
    if 0 <= i < n.children@.len() {
        items_of(n.children@[i]) + children_items(n, i + 1)
    } else {
        Seq::empty()
    }
}

fn push_items(n: &Node, out: &mut Vec<StructItem>)
    ensures
        items_view(final(out)@) == items_view(old(out)@) + items_of(*n),
    decreases n,
{
    let ghost start = items_view(out@);
    let ghost prev = out@;
    out.push(StructItem::BeginNode { name: n.name.clone() });
    assert(items_view(out@) =~= items_view(prev).push(ItemView::Begin(n.name@)));
    assert(n.properties@.subrange(0, 0) =~= Seq::empty());
    let mut i: usize = 0;
    while i < n.properties.len()
        invariant
            i <= n.properties@.len(),
            items_view(out@) == start + seq![ItemView::Begin(n.name@)] + prop_items(
                n.properties@.subrange(0, i as int),
            ),
        decreases n.properties@.len() - i,
    {
        let mut v: Vec<u8> = Vec::new();
        n.properties[i].value.encode_into(&mut v);
        assert(v@ =~= n.properties@[i as int].value.encoded());
        let ghost prev = out@;
        out.push(StructItem::Property { name: n.properties[i].name.clone(), value: v });
        assert(items_view(out@) =~= items_view(prev).push(
            ItemView::Prop(n.properties@[i as int].name@, n.properties@[i as int].value.encoded()),
        ));
        assert(prop_items(n.properties@.subrange(0, i + 1)) =~= prop_items(
            n.properties@.subrange(0, i as int),
        ).push(
            ItemView::Prop(n.properties@[i as int].name@, n.properties@[i as int].value.encoded()),
        ));
        i = i + 1;
        assert(items_view(out@) =~= start + seq![ItemView::Begin(n.name@)] + prop_items(
            n.properties@.subrange(0, i as int),
        ));
    }
    assert(n.properties@.subrange(0, i as int) =~= n.properties@);
    let ghost head = items_view(out@);
    let mut j: usize = 0;
    while j < n.children.len()
        invariant
            j <= n.children@.len(),
            items_view(out@) + children_items(*n, j as int) == head + children_items(*n, 0),
        decreases n.children@.len() - j,
    {
        let ghost before = items_view(out@);
        push_items(&n.children[j], out);
        assert(children_items(*n, j as int) == items_of(n.children@[j as int]) + children_items(*n, j + 1));
        assert(items_view(out@) + children_items(*n, j + 1) =~= before + children_items(*n, j as int));
        j = j + 1;
    }
    let ghost prev = out@;
    out.push(StructItem::EndNode);
    assert(items_view(out@) =~= items_view(prev).push(ItemView::End));
    assert(children_items(*n, j as int) =~= Seq::empty());
    assert(items_view(out@) =~= start + items_of(*n));
}

/// A device tree: a root node and a list of reserved memory ranges.
pub struct DeviceTree {
    pub root: Node,
    /// (address, size) ranges the guest must not allocate from.
    pub reserved: Vec<(u64, u64)>,
}

impl DeviceTree {
    /// An empty tree: a root without a name, properties or children, and nothing reserved.
    pub fn new() -> (r: DeviceTree)
        ensures
            r.root.name@ == Seq::<char>::empty(),
            r.root.properties@.len() == 0,
            r.root.children@.len() == 0,
            r.reserved@.len() == 0,
    {
        DeviceTree { root: Node::new(String::new()), reserved: Vec::new() }
    }

    /// Sets property `name` of the node at `path` to `value`. The node, and any of its
    /// ancestors that is missing, is created without properties. A property of that name
    /// keeps its place and takes the new value; otherwise the property goes last. Nodes off
    /// the path are left as they were.
    pub fn edit_property(&mut self, path: &[String], name: &String, value: DeviceTreeProperty)
        ensures
            node_at(final(self).root, path@) is Some,
            props_at(final(self).root, path@) == edited(
                props_at(old(self).root, path@),
                *name,
                value,
            ),
            children_at(final(self).root, path@) == children_at(old(self).root, path@),
            forall|q: Seq<String>|
                !on_path(q, path@) ==> #[trigger] node_at(final(self).root, q) == node_at(
                    old(self).root,
                    q,
                ),
            final(self).root.name == old(self).root.name,
            final(self).reserved == old(self).reserved,
    {
        edit_at(&mut self.root, path, 0, name, value);
        assert(path@.subrange(0, path@.len() as int) =~= path@);
    }

    /// The depth-first walk of the tree, each property with its encoded value.
    pub fn struct_items(&self) -> (r: Vec<StructItem>)
        ensures
            items_view(r@) == items_of(self.root),
    {
        let mut out: Vec<StructItem> = Vec::new();
        push_items(&self.root, &mut out);
        assert(items_view(out@) =~= items_view(Seq::empty()) + items_of(self.root));
        out
    }

    /// The blob of this tree: header, reservation block, structure block, strings block.
    /// Fails only where the blob would be longer than its 32-bit size field can say.
    pub fn to_blob(&self) -> (r: Result<Vec<u8>, DtbError>)
        ensures
            r is Ok <==> total_size(items_of(self.root), self.reserved@) <= u32::MAX,
            r is Ok ==> r->Ok_0@ == blob_of(items_of(self.root), self.reserved@),
            r is Err ==> r->Err_0 == DtbError::TooLarge,
    {
        let items = self.struct_items();
        encode(&items, &self.reserved)
    }

    /// Adds a reserved memory range after the existing ones.
    pub fn add_reserved(&mut self, address: u64, size: u64)
        ensures
            final(self).reserved@ == old(self).reserved@.push((address, size)),
            final(self).root == old(self).root,
    {
        self.reserved.push((address, size));
    }
}

} // verus!
