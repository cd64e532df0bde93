//! Parse trees: what the grammar hands to the tree walker.
//!
//! A tree is a node with a kind, the text it spans and its children in
//! document order. The executable type is [`Node`]; its mathematical value
//! is a [`Tree`]. Searches go through the descendants of a node depth first,
//! in document order.

use vstd::prelude::*;

verus! {

/// A piece of text, as a sequence of characters.
pub type Text = Seq<char>;

/// The kinds of node that a parse tree is made of.
#[derive(Clone, Copy, Debug, PartialEq, Eq, Structural)]
pub enum Rule {
    /// A diagnostic line: a kind, a colon and the message.
    Message,
    /// The kind of a diagnostic, such as `warning`.
    MessageType,
    /// What a diagnostic says.
    MessageContents,
    /// The line that closes a build action, such as `** BUILD SUCCEEDED **`.
    BuildStatus,
    /// The action that a status line speaks of.
    ActionName,
    /// How the action ended.
    BuildOutcome,
    /// How long the action took.
    Duration,
    /// A top-level command with everything that belongs to it.
    FullCommand,
    /// The line that opens a command.
    ToplevelCommand,
    /// A command that runs inside another command.
    NestedCommand,
    /// A command's name with its arguments.
    Command,
    /// The name of a command.
    CommandName,
    /// One argument of a command.
    Arg,
    /// The target that a command belongs to.
    TargetName,
    /// Text that carries no event.
    CommentyBits,
}

/// The mathematical value of a parse tree.
pub struct Tree {
    pub rule: Rule,
    pub text: Text,
    pub children: Seq<Tree>,
}

/// A node of a parse tree.
#[derive(Debug, PartialEq, Eq)]
pub struct Node {
    pub rule: Rule,
    pub text: String,
    pub children: Vec<Node>,
}

impl View for Node {
    type V = Tree;

    open spec fn view(&self) -> Tree {
        tree_of(*self)
    }
}

/// The value of a node: its kind, its text and the values of its children.
pub open spec fn tree_of(n: Node) -> Tree
    decreases n,
{
    Tree { rule: n.rule, text: n.text@, children: trees_of(n.children@) }
}

/// The values of a sequence of nodes, one by one.
pub open spec fn trees_of(ns: Seq<Node>) -> Seq<Tree>
    decreases ns,
{
    if ns.len() == 0 {
        Seq::empty()
    } else {
        trees_of(ns.drop_last()).push(tree_of(ns.last()))
    }
}

/// The views of a sequence of strings, one by one.
pub open spec fn texts_of(ss: Seq<String>) -> Seq<Text> {
    Seq::new(ss.len(), |i: int| ss[i]@)
}

/// The view of an optional string.
pub open spec fn text_of(s: Option<String>) -> Option<Text> {
    match s {
        Some(s) => Some(s@),
        None => None,
    }
}

/// The trees `ts` and everything below them, depth first in document order.
pub open spec fn flat(ts: Seq<Tree>) -> Seq<Tree>
    decreases ts,
{
    if ts.len() == 0 {
        Seq::empty()
    } else {
        flat(ts.drop_last()) + seq![ts.last()] + flat(ts.last().children)
    }
}

/// Everything below `t`, depth first in document order; `t` itself is not
/// among them.
pub open spec fn descendants(t: Tree) -> Seq<Tree> {
    flat(t.children)
}

/// The texts of the trees of kind `rule` among `ts`, in the order of `ts`.
pub open spec fn texts_with(ts: Seq<Tree>, rule: Rule) -> Seq<Text>
    decreases ts.len(),
{
    if ts.len() == 0 {
        Seq::empty()
    } else if ts.last().rule == rule {
        texts_with(ts.drop_last(), rule).push(ts.last().text)
    } else {
        texts_with(ts.drop_last(), rule)
    }
}

/// The text of every descendant of `t` of kind `rule`, in document order.
pub open spec fn all_below(t: Tree, rule: Rule) -> Seq<Text> {
    texts_with(descendants(t), rule)
}

/// The text of the first descendant of `t` of kind `rule`, if there is one.
pub open spec fn first_below(t: Tree, rule: Rule) -> Option<Text> {
    if all_below(t, rule).len() > 0 {
        Some(all_below(t, rule)[0])
    } else {
        None
    }
}

/// Where the first tree of kind `rule` stands in `ts`; the length of `ts`
/// if there is none.
pub open spec fn first_index(ts: Seq<Tree>, rule: Rule) -> int
    decreases ts.len(),
{
    if ts.len() == 0 || ts[0].rule == rule {
        0
    } else {
        1 + first_index(ts.drop_first(), rule)
    }
}

/// The first child of `t` of kind `rule`, if there is one.
pub open spec fn first_child(t: Tree, rule: Rule) -> Option<Tree> {
    let i = first_index(t.children, rule);
    if i < t.children.len() {
        Some(t.children[i])
    } else {
        None
    }
}

/// `first_index` passes over the trees of other kinds.
pub proof fn lemma_first_index(ts: Seq<Tree>, rule: Rule, i: int)
    requires
        0 <= i <= ts.len(),
        forall|j: int| 0 <= j < i ==> ts[j].rule != rule,
        i < ts.len() ==> ts[i].rule == rule,
    ensures
        first_index(ts, rule) == i,
    decreases i,
{
    if i > 0 {
        assert(ts[0].rule != rule);
        lemma_first_index(ts.drop_first(), rule, i - 1);
    }
}

/// The texts of kind `rule` in a sequence of one tree.
pub proof fn lemma_texts_with_one(t: Tree, rule: Rule)
    ensures
        texts_with(seq![t], rule) == (if t.rule == rule {
            seq![t.text]
        } else {
            Seq::<Text>::empty()
        }),
{
    assert(seq![t].drop_last() =~= Seq::<Tree>::empty());
    assert(seq![t].last() == t);
    assert(texts_with(Seq::<Tree>::empty(), rule) =~= Seq::<Text>::empty());
    if t.rule == rule {
        assert(texts_with(seq![t], rule) =~= seq![t.text]);
    }
}

/// `trees_of` goes node by node.
pub proof fn lemma_trees_of(ns: Seq<Node>)
    ensures
        trees_of(ns).len() == ns.len(),
        forall|i: int| 0 <= i < ns.len() ==> #[trigger] trees_of(ns)[i] == tree_of(ns[i]),
    decreases ns.len(),
{
    if ns.len() > 0 {
        lemma_trees_of(ns.drop_last());
    }
}

/// `flat` of two sequences of trees, one after the other.
pub proof fn lemma_flat_add(a: Seq<Tree>, b: Seq<Tree>)
    ensures
        flat(a + b) == flat(a) + flat(b),
    decreases b.len(),
{
    if b.len() == 0 {
        assert(a + b =~= a);
        assert(flat(a) + flat(b) =~= flat(a));
    } else {
        lemma_flat_add(a, b.drop_last());
        assert((a + b).drop_last() =~= a + b.drop_last());
        assert((a + b).last() == b.last());
        assert(flat(a + b) =~= flat(a) + flat(b));
    }
}

/// `texts_with` of two sequences of trees, one after the other.
pub proof fn lemma_texts_with_add(a: Seq<Tree>, b: Seq<Tree>, rule: Rule)
    ensures
        texts_with(a + b, rule) == texts_with(a, rule) + texts_with(b, rule),
    decreases b.len(),
{
    if b.len() == 0 {
        assert(a + b =~= a);
        assert(texts_with(a, rule) + texts_with(b, rule) =~= texts_with(a, rule));
    } else {
        lemma_texts_with_add(a, b.drop_last(), rule);
        assert((a + b).drop_last() =~= a + b.drop_last());
        assert((a + b).last() == b.last());
        assert(texts_with(a + b, rule) =~= texts_with(a, rule) + texts_with(b, rule));
    }
}

/// What one more tree adds to the texts found among `ts` and below.
pub proof fn lemma_texts_with_flat_push(ts: Seq<Tree>, t: Tree, rule: Rule)
    ensures
        texts_with(flat(ts.push(t)), rule) == texts_with(flat(ts), rule) + texts_with(
            seq![t],
            rule,
        ) + texts_with(flat(t.children), rule),
{
    assert(ts.push(t).drop_last() =~= ts);
    lemma_texts_with_add(flat(ts) + seq![t], flat(t.children), rule);
    lemma_texts_with_add(flat(ts), seq![t], rule);
}

impl Node {
    /// The texts of the nodes of kind `rule` among `nodes` and below them,
    /// in document order, appended to `out`.
    fn collect(nodes: &Vec<Node>, rule: Rule, out: &mut Vec<String>)
        ensures
            texts_of(final(out)@) == texts_of(old(out)@) + texts_with(
                flat(trees_of(nodes@)),
                rule,
            ),
        decreases nodes,
    {
        let ghost before = texts_of(out@);
        let mut i: usize = 0;
        assert(nodes@.take(0) =~= Seq::<Node>::empty());
        assert(texts_of(out@) =~= before + texts_with(flat(trees_of(nodes@.take(0))), rule));
        while i < nodes.len()
            invariant
                0 <= i <= nodes.len(),
                texts_of(out@) == before + texts_with(
                    flat(trees_of(nodes@.take(i as int))),
                    rule,
                ),
            decreases nodes.len() - i,
        {
            let node = &nodes[i];
            let ghost so_far = trees_of(nodes@.take(i as int));
            let ghost t = tree_of(nodes@[i as int]);
            proof {
                assert(nodes@.take(i + 1).drop_last() =~= nodes@.take(i as int));
                assert(trees_of(nodes@.take(i + 1)) == so_far.push(t));
                lemma_texts_with_flat_push(so_far, t, rule);
                lemma_texts_with_one(t, rule);
            }
            let ghost mid = texts_of(out@);
            if node.rule == rule {
                out.push(node.text.clone());
                assert(texts_of(out@) =~= mid.push(t.text));
            }
            assert(texts_of(out@) =~= before + texts_with(flat(so_far), rule) + texts_with(
                seq![t],
                rule,
            ));
            Node::collect(&node.children, rule, out);
            i += 1;
        }
        assert(nodes@.take(nodes.len() as int) =~= nodes@);
    }

    /// The text of the first node of kind `rule` among `nodes` and below
    /// them, in document order.
    fn first_among(nodes: &Vec<Node>, rule: Rule) -> (found: Option<String>)
        ensures
            text_of(found) == (if texts_with(flat(trees_of(nodes@)), rule).len() > 0 {
                Some(texts_with(flat(trees_of(nodes@)), rule)[0])
            } else {
                None
            }),
        decreases nodes,
    {
        let mut i: usize = 0;
        assert(nodes@.take(0) =~= Seq::<Node>::empty());
        while i < nodes.len()
            invariant
                0 <= i <= nodes.len(),
                texts_with(flat(trees_of(nodes@.take(i as int))), rule).len() == 0,
            decreases nodes.len() - i,
        {
            let node = &nodes[i];
            let ghost so_far = trees_of(nodes@.take(i as int));
            let ghost t = tree_of(nodes@[i as int]);
            proof {
                assert(nodes@.take(i + 1).drop_last() =~= nodes@.take(i as int));
                assert(trees_of(nodes@.take(i + 1)) == so_far.push(t));
                lemma_texts_with_flat_push(so_far, t, rule);
                lemma_texts_with_one(t, rule);
                // what lies behind `nodes[i]` cannot come first
                assert(nodes@ =~= nodes@.take(i + 1) + nodes@.skip(i + 1));
                lemma_trees_of_add(nodes@.take(i + 1), nodes@.skip(i + 1));
                lemma_flat_add(trees_of(nodes@.take(i + 1)), trees_of(nodes@.skip(i + 1)));
                lemma_texts_with_add(
                    flat(trees_of(nodes@.take(i + 1))),
                    flat(trees_of(nodes@.skip(i + 1))),
                    rule,
                );
            }
            if node.rule == rule {
                return Some(node.text.clone());
            }
            let below = Node::first_among(&node.children, rule);
            if below.is_some() {
                return below;
            }
            i += 1;
        }
        assert(nodes@.take(nodes.len() as int) =~= nodes@);
        None
    }

    /// The text of the first descendant of kind `rule`, in document order.
    pub fn find_first(&self, rule: Rule) -> (found: Option<String>)
        ensures
            text_of(found) == first_below(self@, rule),
    {
        Node::first_among(&self.children, rule)
    }

    /// The text of every descendant of kind `rule`, in document order.
    pub fn find_all(&self, rule: Rule) -> (found: Vec<String>)
        ensures
            texts_of(found@) == all_below(self@, rule),
    {
        let mut found: Vec<String> = Vec::new();
        Node::collect(&self.children, rule, &mut found);
        assert(texts_of(found@) =~= all_below(self@, rule));
        found
    }

    /// The first child of kind `rule`.
    pub fn child(&self, rule: Rule) -> (found: Option<&Node>)
        ensures
            match found {
                Some(node) => first_child(self@, rule) == Some(node@),
                None => first_child(self@, rule) is None,
            },
    {
        proof {
            lemma_trees_of(self.children@);
        }
        let mut i: usize = 0;
        while i < self.children.len()
            invariant
                0 <= i <= self.children.len(),
                self@.children.len() == self.children.len(),
                forall|j: int| 0 <= j < self.children.len() ==> self@.children[j] == tree_of(self.children@[j]),
                forall|j: int| 0 <= j < i ==> self@.children[j].rule != rule,
            decreases self.children.len() - i,
        {
            if self.children[i].rule == rule {
                proof {
                    lemma_first_index(self@.children, rule, i as int);
                }
                return Some(&self.children[i]);
            }
            i += 1;
        }
        proof {
            lemma_first_index(self@.children, rule, i as int);
        }
        None
    }
}

/// `trees_of` of two sequences of nodes, one after the other.
pub proof fn lemma_trees_of_add(a: Seq<Node>, b: Seq<Node>)
    ensures
        trees_of(a + b) == trees_of(a) + trees_of(b),
{
    lemma_trees_of(a);
    lemma_trees_of(b);
    lemma_trees_of(a + b);
    assert(trees_of(a + b) =~= trees_of(a) + trees_of(b));
}

} // verus!
