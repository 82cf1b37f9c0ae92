//! Encoding: a tree builder driven by enter / write / leave calls, and the
//! flattener that writes one line per leaf of the finished tree.
use vstd::prelude::*;

use crate::error::SerializeError;
use crate::text::{count_text, dec, join_with};
use crate::value::{
    elements_lines, entries_lines, length_label, lines_view, path_view, prefixed, value_lines,
    nested_ok, elements_ok, entries_ok, well_shaped, Line, LineModel, Value,
};

verus! {

/// A node of the tree that the encoder builds: a leaf holds scalar text, an
/// interior node a label and its children in the order they were added.
pub enum TreeNode {
    Leaf(String),
    Branch(String, Vec<TreeNode>),
}

/// The lines under `t`, with paths relative to `t`'s parent.
pub open spec fn node_lines(t: TreeNode) -> Seq<LineModel>
    decreases t,
{
    match t {
        TreeNode::Leaf(s) => seq![(Seq::<Seq<char>>::empty(), s@)],
        TreeNode::Branch(l, ch) => prefixed(seq![l@], nodes_lines(ch@)),
    }
}

/// The lines under a list of sibling nodes, in document order.
pub open spec fn nodes_lines(ns: Seq<TreeNode>) -> Seq<LineModel>
    decreases ns,
{
    if ns.len() == 0 {
        seq![]
    } else {
        nodes_lines(ns.subrange(0, ns.len() - 1)) + node_lines(ns[ns.len() - 1])
    }
}

/// The text of one line: the path joined with `.`, `=`, the value, a newline.
pub open spec fn line_text(l: LineModel) -> Seq<char> {
    join_with(l.0, '.') + seq!['='] + l.1 + seq!['\n']
}

/// The text of a document.
pub open spec fn doc_text(ls: Seq<LineModel>) -> Seq<char>
    decreases ls.len(),
{
    if ls.len() == 0 {
        seq![]
    } else {
        doc_text(ls.drop_last()) + line_text(ls.last())
    }
}

/// An interior node on the way from the root to the insertion point, with
/// the children added to it so far.
pub struct Frame {
    pub label: String,
    pub children: Vec<TreeNode>,
}

/// The tree builder. The last frame is the current insertion node; the ones
/// before it are the saved insertion points, the first being the root.
pub struct Serializer {
    stack: Vec<Frame>,
}

pub proof fn lemma_nodes_lines_push(ns: Seq<TreeNode>, t: TreeNode)
    ensures
        nodes_lines(ns.push(t)) == nodes_lines(ns) + node_lines(t),
{
    assert(ns.push(t).subrange(0, ns.len() as int) =~= ns);
}

pub proof fn lemma_prefixed_concat(p: Seq<Seq<char>>, a: Seq<LineModel>, b: Seq<LineModel>)
    ensures
        prefixed(p, a + b) == prefixed(p, a) + prefixed(p, b),
{
    assert(prefixed(p, a + b) =~= prefixed(p, a) + prefixed(p, b));
}

pub proof fn lemma_prefixed_prefixed(p: Seq<Seq<char>>, l: Seq<char>, a: Seq<LineModel>)
    ensures
        prefixed(p, prefixed(seq![l], a)) == prefixed(p.push(l), a),
{
    assert forall|i: int| 0 <= i < a.len() implies (p + (seq![l] + a[i].0)) == (p.push(l)
        + a[i].0) by {
        assert(p + (seq![l] + a[i].0) =~= p.push(l) + a[i].0);
    }
    assert(prefixed(p, prefixed(seq![l], a)) =~= prefixed(p.push(l), a));
}

impl Default for Serializer {
    fn default() -> (r: Self)
        ensures
            r.wf(),
            r.frames().len() == 1,
            r.frames()[0].children@.len() == 0,
    {
        Serializer::new()
    }
}

impl Serializer {
    /// The frames from the root to the current insertion node.
    pub closed spec fn frames(&self) -> Seq<Frame> {
        self.stack@
    }

    /// The root frame is always there.
    pub open spec fn wf(&self) -> bool {
        self.frames().len() >= 1
    }

    /// The frames other than the current one are those of `old`, and the
    /// current one has the same label.
    pub open spec fn same_path(&self, old: &Serializer) -> bool {
        &&& self.wf()
        &&& self.frames().len() == old.frames().len()
        &&& self.frames().subrange(0, self.frames().len() - 1) == old.frames().subrange(
            0,
            old.frames().len() - 1,
        )
        &&& self.frames().last().label == old.frames().last().label
    }

    /// A builder whose tree is a bare root.
    pub fn new() -> (r: Self)
        ensures
            r.wf(),
            r.frames().len() == 1,
            r.frames()[0].children@.len() == 0,
    {
        let root = Frame { label: String::from_str("root"), children: Vec::new() };
        let mut stack: Vec<Frame> = Vec::new();
        stack.push(root);
        Serializer { stack }
    }

    /// Adds a child labelled `label` under the current node and makes it
    /// the current node.
    pub fn enter(&mut self, label: String)
        requires
            old(self).wf(),
        ensures
            final(self).wf(),
            final(self).frames().len() == old(self).frames().len() + 1,
            final(self).frames().subrange(0, old(self).frames().len() as int) == old(
                self,
            ).frames(),
            final(self).frames().last().label == label,
            final(self).frames().last().children@.len() == 0,
    {
        self.stack.push(Frame { label, children: Vec::new() });
        assert(self.stack@.subrange(0, old(self).stack@.len() as int) =~= old(self).stack@);
    }

    /// Closes the current node: it becomes the last child of the saved
    /// insertion point, which is current again.
    pub fn leave(&mut self)
        requires
            old(self).wf(),
            old(self).frames().len() >= 2,
        ensures
            final(self).wf(),
            final(self).frames().len() == old(self).frames().len() - 1,
            final(self).frames().subrange(0, final(self).frames().len() - 1) == old(
                self,
            ).frames().subrange(0, old(self).frames().len() - 2),
            final(self).frames().last().label == old(self).frames()[old(self).frames().len()
                - 2].label,
            final(self).frames().last().children@ == old(self).frames()[old(self).frames().len()
                - 2].children@.push(
                TreeNode::Branch(old(self).frames().last().label, old(self).frames().last().children),
            ),
    {
        let top = self.stack.pop().unwrap();
        let mut parent = self.stack.pop().unwrap();
        parent.children.push(TreeNode::Branch(top.label, top.children));
        self.stack.push(parent);
        assert(self.stack@.subrange(0, self.stack@.len() - 1) =~= old(self).stack@.subrange(
            0,
            old(self).stack@.len() - 2,
        ));
    }

    /// Adds a leaf holding `text` under the current node.
    pub fn write_scalar(&mut self, text: String)
        requires
            old(self).wf(),
        ensures
            final(self).same_path(old(self)),
            final(self).frames().last().children@ == old(self).frames().last().children@.push(
                TreeNode::Leaf(text),
            ),
    {
        let mut top = self.stack.pop().unwrap();
        top.children.push(TreeNode::Leaf(text));
        self.stack.push(top);
        assert(self.stack@.subrange(0, self.stack@.len() - 1) =~= old(self).stack@.subrange(
            0,
            old(self).stack@.len() - 1,
        ));
    }

    /// Writes `v` under the current node: a scalar as a leaf, element `i` of
    /// a sequence under label `i` followed by `length`, each entry of a
    /// keyed value under its key.
    pub fn serialize(&mut self, v: &Value)
        requires
            old(self).wf(),
        ensures
            final(self).same_path(old(self)),
            nodes_lines(final(self).frames().last().children@) == nodes_lines(
                old(self).frames().last().children@,
            ) + value_lines(*v),
        decreases v,
    {
        match v {
            Value::Scalar(s) => {
                self.write_scalar(s.clone());
                proof {
                    lemma_nodes_lines_push(old(self).frames().last().children@, TreeNode::Leaf(*s));
                }
            },
            Value::Sequence(items) => {
                let n = items.len();
                let mut i: usize = 0;
                while i < n
                    invariant
                        *v == Value::Sequence(*items),
                        n == items@.len(),
                        i <= n,
                        self.same_path(old(self)),
                        nodes_lines(self.frames().last().children@) == nodes_lines(
                            old(self).frames().last().children@,
                        ) + elements_lines(items@.subrange(0, i as int)),
                    decreases n - i,
                {
                    let ghost before = *self;
                    self.enter(count_text(i));
                    proof {
                        vstd::std_specs::vec::axiom_vec_index_decreases(*items, i as int);
                        assert(decreases_to!(*v => (*v)->Sequence_0));
                        assert(decreases_to!(*items => items[i as int]));
                        assert(decreases_to!(*v => items[i as int]));
                    }
                    self.serialize(&items[i]);
                    let ghost inner = *self;
                    self.leave();
                    proof {
                        let last = inner.frames().last();
                        lemma_nodes_lines_push(
                            before.frames().last().children@,
                            TreeNode::Branch(last.label, last.children),
                        );
                        assert(nodes_lines(Seq::<TreeNode>::empty()) =~= Seq::<LineModel>::empty());
                        assert(inner.frames()[inner.frames().len() - 2] == before.frames().last()) by {
                            assert(inner.frames().subrange(0, inner.frames().len() - 1)[before.frames().len() - 1]
                                == before.frames().last());
                        }
                        let s1 = items@.subrange(0, i + 1);
                        assert(s1.subrange(0, i as int) =~= items@.subrange(0, i as int));
                        assert(nodes_lines(last.children@) =~= value_lines(items@[i as int]));
                        assert(self.frames().subrange(0, self.frames().len() - 1) =~= old(
                            self,
                        ).frames().subrange(0, old(self).frames().len() - 1)) by {
                            assert(inner.frames().subrange(0, before.frames().len() as int)
                                == before.frames());
                        }
                    }
                    i = i + 1;
                }
                let ghost before = *self;
                self.enter(String::from_str("length"));
                self.write_scalar(count_text(n));
                let ghost inner = *self;
                self.leave();
                proof {
                    reveal_strlit("length");
                    let last = inner.frames().last();
                    lemma_nodes_lines_push(
                        before.frames().last().children@,
                        TreeNode::Branch(last.label, last.children),
                    );
                    lemma_nodes_lines_push(Seq::<TreeNode>::empty(), last.children@[0]);
                    assert(last.children@ =~= Seq::<TreeNode>::empty().push(last.children@[0]));
                    assert(nodes_lines(Seq::<TreeNode>::empty()) =~= Seq::<LineModel>::empty());
                    assert(items@.subrange(0, n as int) =~= items@);
                    assert(last.label@ =~= length_label());
                    assert(seq![length_label()] + Seq::<Seq<char>>::empty() =~= seq![length_label()]);
                    assert(node_lines(TreeNode::Branch(last.label, last.children)) =~= seq![
                        (seq![length_label()], dec(n as nat)),
                    ]);
                    assert(inner.frames()[inner.frames().len() - 2] == before.frames().last()) by {
                        assert(inner.frames().subrange(0, inner.frames().len() - 1)[before.frames().len() - 1]
                            == before.frames().last());
                    }
                    assert(self.frames().subrange(0, self.frames().len() - 1) =~= old(
                        self,
                    ).frames().subrange(0, old(self).frames().len() - 1)) by {
                        assert(inner.frames().subrange(0, before.frames().len() as int)
                            == before.frames());
                    }
                }
            },
            Value::Keyed(entries) => {
                let n = entries.len();
                let mut i: usize = 0;
                while i < n
                    invariant
                        *v == Value::Keyed(*entries),
                        n == entries@.len(),
                        i <= n,
                        self.same_path(old(self)),
                        nodes_lines(self.frames().last().children@) == nodes_lines(
                            old(self).frames().last().children@,
                        ) + entries_lines(entries@.subrange(0, i as int)),
                    decreases n - i,
                {
                    let ghost before = *self;
                    self.enter(entries[i].0.clone());
                    proof {
                        vstd::std_specs::vec::axiom_vec_index_decreases(*entries, i as int);
                        assert(decreases_to!(*v => (*v)->Keyed_0));
                        assert(decreases_to!(*entries => entries[i as int]));
                        assert(decreases_to!(entries[i as int] => entries[i as int].1));
                        assert(decreases_to!(*v => entries[i as int].1));
                    }
                    self.serialize(&entries[i].1);
                    let ghost inner = *self;
                    self.leave();
                    proof {
                        let last = inner.frames().last();
                        lemma_nodes_lines_push(
                            before.frames().last().children@,
                            TreeNode::Branch(last.label, last.children),
                        );
                        assert(nodes_lines(Seq::<TreeNode>::empty()) =~= Seq::<LineModel>::empty());
                        assert(inner.frames()[inner.frames().len() - 2] == before.frames().last()) by {
                            assert(inner.frames().subrange(0, inner.frames().len() - 1)[before.frames().len() - 1]
                                == before.frames().last());
                        }
                        let s1 = entries@.subrange(0, i + 1);
                        assert(s1.subrange(0, i as int) =~= entries@.subrange(0, i as int));
                        assert(nodes_lines(last.children@) =~= value_lines(entries@[i as int].1));
                        assert(self.frames().subrange(0, self.frames().len() - 1) =~= old(
                            self,
                        ).frames().subrange(0, old(self).frames().len() - 1)) by {
                            assert(inner.frames().subrange(0, before.frames().len() as int)
                                == before.frames());
                        }
                    }
                    i = i + 1;
                }
                proof {
                    assert(entries@.subrange(0, n as int) =~= entries@);
                }
            },
        }
    }

    /// The finished tree.
    pub fn finish(self) -> (r: TreeNode)
        requires
            self.wf(),
            self.frames().len() == 1,
        ensures
            r == TreeNode::Branch(self.frames()[0].label, self.frames()[0].children),
    {
        let mut stack = self.stack;
        let root = stack.pop().unwrap();
        TreeNode::Branch(root.label, root.children)
    }
}


fn copy_path(p: &Vec<String>) -> (r: Vec<String>)
    ensures
        r@ == p@,
{
    let mut r: Vec<String> = Vec::new();
    let mut i: usize = 0;
    while i < p.len()
        invariant
            i <= p@.len(),
            r@ == p@.subrange(0, i as int),
        decreases p@.len() - i,
    {
        r.push(p[i].clone());
        assert(r@ =~= p@.subrange(0, i + 1));
        i = i + 1;
    }
    assert(p@.subrange(0, p@.len() as int) =~= p@);
    r
}

/// Appends to `out` one line per leaf under `ns`, in document order, each
/// path being `prefix` followed by the labels on the way to the leaf.
fn collect_lines(ns: &Vec<TreeNode>, prefix: &Vec<String>, out: &mut Vec<Line>)
    ensures
        lines_view(final(out)@) == lines_view(old(out)@) + prefixed(
            path_view(prefix@),
            nodes_lines(ns@),
        ),
    decreases ns,
{
    let ghost pv = path_view(prefix@);
    let n = ns.len();
    let mut i: usize = 0;
    assert(prefixed(pv, nodes_lines(ns@.subrange(0, 0))) =~= Seq::<LineModel>::empty()) by {
        assert(ns@.subrange(0, 0) =~= Seq::<TreeNode>::empty());
    }
    assert(lines_view(out@) =~= lines_view(old(out)@) + Seq::<LineModel>::empty());
    while i < n
        invariant
            n == ns@.len(),
            i <= n,
            pv == path_view(prefix@),
            lines_view(out@) == lines_view(old(out)@) + prefixed(
                pv,
                nodes_lines(ns@.subrange(0, i as int)),
            ),
        decreases n - i,
    {
        let ghost before = lines_view(out@);
        let ghost sub = ns@.subrange(0, i + 1);
        proof {
            assert(sub.subrange(0, i as int) =~= ns@.subrange(0, i as int));
            assert(nodes_lines(sub) == nodes_lines(ns@.subrange(0, i as int)) + node_lines(
                ns@[i as int],
            ));
            lemma_prefixed_concat(
                pv,
                nodes_lines(ns@.subrange(0, i as int)),
                node_lines(ns@[i as int]),
            );
        }
        match &ns[i] {
            TreeNode::Leaf(s) => {
                let line = Line { path: copy_path(prefix), value: s.clone() };
                out.push(line);
                proof {
                    assert(lines_view(out@) =~= before.push(line@));
                    assert(pv + Seq::<Seq<char>>::empty() =~= pv);
                    assert(prefixed(pv, node_lines(ns@[i as int])) =~= seq![line@]);
                }
            },
            TreeNode::Branch(l, ch) => {
                let mut p2 = copy_path(prefix);
                p2.push(l.clone());
                proof {
                    vstd::std_specs::vec::axiom_vec_index_decreases(*ns, i as int);
                    assert(decreases_to!(*ns => ns[i as int]));
                    assert(decreases_to!(ns[i as int] => ns[i as int]->Branch_1));
                    assert(decreases_to!(*ns => *ch));
                }
                collect_lines(ch, &p2, out);
                proof {
                    assert(path_view(p2@) =~= pv.push(l@));
                    lemma_prefixed_prefixed(pv, l@, nodes_lines(ch@));
                    assert(lines_view(out@) =~= before + prefixed(pv, node_lines(ns@[i as int])));
                }
            },
        }
        i = i + 1;
    }
    assert(ns@.subrange(0, n as int) =~= ns@);
}

/// The lines of a finished tree, one per leaf in document order; the
/// root's own label is not part of any path.
pub fn flatten(tree: &TreeNode) -> (r: Vec<Line>)
    requires
        tree is Branch,
    ensures
        lines_view(r@) == nodes_lines(tree->Branch_1@),
{
    let mut out: Vec<Line> = Vec::new();
    match tree {
        TreeNode::Branch(_, ch) => {
            let prefix: Vec<String> = Vec::new();
            collect_lines(ch, &prefix, &mut out);
            proof {
                let x = nodes_lines(ch@);
                assert(path_view(prefix@) =~= Seq::<Seq<char>>::empty());
                assert forall|k: int| 0 <= k < x.len() implies (Seq::<Seq<char>>::empty()
                    + x[k].0) == x[k].0 by {
                    assert(Seq::<Seq<char>>::empty() + x[k].0 =~= x[k].0);
                }
                assert(prefixed(Seq::<Seq<char>>::empty(), x) =~= x);
                assert(lines_view(Seq::<Line>::empty()) =~= Seq::<LineModel>::empty());
                assert(Seq::<LineModel>::empty() + x =~= x);
            }
        },
        TreeNode::Leaf(_) => {},
    }
    out
}

/// The segments of a path joined with `.`.
pub fn join_path(path: &Vec<String>) -> (r: String)
    ensures
        r@ == join_with(path_view(path@), '.'),
{
    let ghost pv = path_view(path@);
    let mut acc = String::new();
    let n = path.len();
    let mut i: usize = 0;
    assert(pv.subrange(0, 0) =~= Seq::<Seq<char>>::empty());
    while i < n
        invariant
            n == path@.len(),
            pv == path_view(path@),
            i <= n,
            acc@ == join_with(pv.subrange(0, i as int), '.'),
        decreases n - i,
    {
        let ghost sub = pv.subrange(0, i + 1);
        assert(sub.drop_last() =~= pv.subrange(0, i as int));
        if i > 0 {
            acc.append(".");
        }
        acc.append(path[i].as_str());
        proof {
            reveal_strlit(".");
            assert(sub.last() == path@[i as int]@);
            if i == 0 {
                assert(acc@ =~= sub[0]);
            } else {
                assert(acc@ =~= join_with(pv.subrange(0, i as int), '.').push('.') + sub.last());
            }
        }
        i = i + 1;
    }
    assert(pv.subrange(0, n as int) =~= pv);
    acc
}

/// The text of one line: path segments joined with `.`, then `=`, the
/// value and a newline.
pub fn render_line(line: &Line) -> (r: String)
    ensures
        r@ == line_text(line@),
{
    let mut acc = join_path(&line.path);
    proof {
        reveal_strlit("=");
        reveal_strlit("\n");
    }
    acc.append("=");
    acc.append(line.value.as_str());
    acc.append("\n");
    assert(acc@ =~= line_text(line@));
    acc
}

/// The text of a whole document.
pub fn render_lines(lines: &Vec<Line>) -> (r: String)
    ensures
        r@ == doc_text(lines_view(lines@)),
{
    let ghost lv = lines_view(lines@);
    let mut acc = String::new();
    let n = lines.len();
    let mut i: usize = 0;
    assert(lv.subrange(0, 0) =~= Seq::<LineModel>::empty());
    while i < n
        invariant
            n == lines@.len(),
            lv == lines_view(lines@),
            i <= n,
            acc@ == doc_text(lv.subrange(0, i as int)),
        decreases n - i,
    {
        let t = render_line(&lines[i]);
        acc.append(t.as_str());
        assert(lv.subrange(0, i + 1).drop_last() =~= lv.subrange(0, i as int));
        i = i + 1;
    }
    assert(lv.subrange(0, n as int) =~= lv);
    acc
}

/// The document of a finished tree.
pub fn write_tree(tree: &TreeNode) -> (r: String)
    requires
        tree is Branch,
    ensures
        r@ == doc_text(nodes_lines(tree->Branch_1@)),
{
    let lines = flatten(tree);
    render_lines(&lines)
}

/// Whether every keyed value inside `v`, `v` included, has an entry.
fn check_nested(v: &Value) -> (r: bool)
    ensures
        r == nested_ok(*v),
    decreases v,
{
    match v {
        Value::Scalar(s) => crate::text::valid_scalar(s),
        Value::Sequence(items) => check_elements(v, items),
        Value::Keyed(entries) => entries.len() > 0 && check_entries(v, entries),
    }
}

fn check_elements(v: &Value, items: &Vec<Value>) -> (r: bool)
    requires
        *v == Value::Sequence(*items),
    ensures
        r == elements_ok(items@),
    decreases v, 0nat,
{
    let mut ok = true;
    let mut i: usize = 0;
    assert(items@.subrange(0, 0).len() == 0);
    while i < items.len()
        invariant
            *v == Value::Sequence(*items),
            i <= items@.len(),
            ok == elements_ok(items@.subrange(0, i as int)),
        decreases items@.len() - i,
    {
        proof {
            vstd::std_specs::vec::axiom_vec_index_decreases(*items, i as int);
            assert(decreases_to!(*v => (*v)->Sequence_0));
            assert(decreases_to!(*items => items[i as int]));
        }
        let c = check_nested(&items[i]);
        assert(items@.subrange(0, i + 1).subrange(0, i as int) =~= items@.subrange(0, i as int));
        ok = ok && c;
        i = i + 1;
    }
    assert(items@.subrange(0, items@.len() as int) =~= items@);
    ok
}

fn check_entries(v: &Value, entries: &Vec<(String, Value)>) -> (r: bool)
    requires
        *v == Value::Keyed(*entries),
    ensures
        r == entries_ok(entries@),
    decreases v, 0nat,
{
    let mut ok = true;
    let mut i: usize = 0;
    assert(entries@.subrange(0, 0).len() == 0);
    while i < entries.len()
        invariant
            *v == Value::Keyed(*entries),
            i <= entries@.len(),
            ok == entries_ok(entries@.subrange(0, i as int)),
        decreases entries@.len() - i,
    {
        proof {
            vstd::std_specs::vec::axiom_vec_index_decreases(*entries, i as int);
            assert(decreases_to!(*v => (*v)->Keyed_0));
            assert(decreases_to!(*entries => entries[i as int]));
            assert(decreases_to!(entries[i as int] => entries[i as int].1));
        }
        let c = check_nested(&entries[i].1);
        let key_ok = crate::text::valid_segment(&entries[i].0);
        assert(entries@.subrange(0, i + 1).subrange(0, i as int) =~= entries@.subrange(0, i as int));
        ok = ok && key_ok && c;
        i = i + 1;
    }
    assert(entries@.subrange(0, entries@.len() as int) =~= entries@);
    ok
}

/// Whether `v` can be written as a document.
pub fn is_well_shaped(v: &Value) -> (r: bool)
    ensures
        r == well_shaped(*v),
{
    match v {
        Value::Scalar(_) => false,
        Value::Sequence(items) => check_elements(v, items),
        Value::Keyed(entries) => check_entries(v, entries),
    }
}

/// Writes `v` as a document: one line per scalar inside it, in the order
/// the scalars are met. A bare scalar, an empty keyed value below the top,
/// a key that is not a segment (empty, or holding `.`, `=` or a newline)
/// and scalar text holding a newline cannot be written.
pub fn to_string(v: &Value) -> (r: Result<String, SerializeError>)
    ensures
        match r {
            Ok(s) => well_shaped(*v) && s@ == doc_text(value_lines(*v)),
            Err(e) => !well_shaped(*v) && e is UnsupportedConstruct,
        },
{
    if !is_well_shaped(v) {
        return Err(SerializeError::UnsupportedConstruct);
    }
    let mut ser = Serializer::new();
    ser.serialize(v);
    let tree = ser.finish();
    proof {
        assert(nodes_lines(Seq::<TreeNode>::empty()) =~= Seq::<LineModel>::empty());
        assert(Seq::<LineModel>::empty() + value_lines(*v) =~= value_lines(*v));
    }
    Ok(write_tree(&tree))
}

/// Writes `v` as the lines of a document, under the same conditions as
/// `to_string`.
pub fn to_lines(v: &Value) -> (r: Result<Vec<Line>, SerializeError>)
    ensures
        match r {
            Ok(ls) => well_shaped(*v) && lines_view(ls@) == value_lines(*v),
            Err(e) => !well_shaped(*v) && e is UnsupportedConstruct,
        },
{
    if !is_well_shaped(v) {
        return Err(SerializeError::UnsupportedConstruct);
    }
    let mut ser = Serializer::new();
    ser.serialize(v);
    let tree = ser.finish();
    proof {
        assert(nodes_lines(Seq::<TreeNode>::empty()) =~= Seq::<LineModel>::empty());
        assert(Seq::<LineModel>::empty() + value_lines(*v) =~= value_lines(*v));
    }
    Ok(flatten(&tree))
}

} // verus!
