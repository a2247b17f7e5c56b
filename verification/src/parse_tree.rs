//! The decision tree that all templates of a command family are merged into.

use crate::capture::CommandParse;
use crate::error::GrammarError;
use crate::template::check_template;
use crate::template::template_check;
use crate::value::same_value;
use crate::value::Value;
use crate::value::ValueModel;
use crate::value::ValueType;
use vstd::prelude::*;

verus! {

/// What a node of the tree stands for.
#[derive(Debug, PartialEq, Eq)]
pub enum ParseNode<U> {
    /// The end of a template: the command it makes, the values of the fields
    /// that the template does not capture, and all fields of the command in
    /// their order.
    EndOfInput { struct_name: String, defaults: Vec<(String, Value<U>)>, idents: Vec<String> },
    /// The root, which stands for no token.
    Pass,
    /// A keyword that the input must hold as it is.
    Literal(String),
    /// A capture: a value of kind `name` that is bound to the field `binding`.
    Function { name: ValueType, binding: String },
}

/// A node with the nodes that can follow it, in the order in which they were added.
#[derive(Debug, PartialEq, Eq)]
pub struct ParseTree<U> {
    pub payload: ParseNode<U>,
    pub options: Vec<ParseTree<U>>,
}

/// What a `ParseNode` stands for.
pub enum NodeModel<M> {
    EndOfInput {
        struct_name: Seq<char>,
        defaults: Seq<(Seq<char>, ValueModel<M>)>,
        idents: Seq<Seq<char>>,
    },
    Pass,
    Literal(Seq<char>),
    Function { name: ValueType, binding: Seq<char> },
}

/// What a `ParseTree` stands for.
pub struct TreeModel<M> {
    pub payload: NodeModel<M>,
    pub options: Seq<TreeModel<M>>,
}

/// What each named value of `pairs` stands for.
pub open spec fn default_models<U: CommandParse>(pairs: Seq<(String, Value<U>)>) -> Seq<
    (Seq<char>, ValueModel<U::Model>),
> {
    Seq::new(pairs.len(), |i: int| (pairs[i].0@, pairs[i].1.model()))
}

/// What each of `names` holds.
pub open spec fn name_models(names: Seq<String>) -> Seq<Seq<char>> {
    Seq::new(names.len(), |i: int| names[i]@)
}

impl<U: CommandParse> ParseNode<U> {
    /// What the node stands for.
    pub open spec fn model(&self) -> NodeModel<U::Model> {
        match self {
            ParseNode::EndOfInput { struct_name, defaults, idents } => NodeModel::EndOfInput {
                struct_name: struct_name@,
                defaults: default_models(defaults@),
                idents: name_models(idents@),
            },
            ParseNode::Pass => NodeModel::Pass,
            ParseNode::Literal(text) => NodeModel::Literal(text@),
            ParseNode::Function { name, binding } => NodeModel::Function {
                name: *name,
                binding: binding@,
            },
        }
    }
}

impl<M> NodeModel<M> {
    /// Whether the node is a token of a template: a keyword or a capture.
    pub open spec fn is_token(self) -> bool {
        self is Literal || self is Function
    }
}

impl<U: CommandParse> ParseTree<U> {
    /// What the tree stands for.
    pub open spec fn model(&self) -> TreeModel<U::Model>
        decreases self,
    {
        TreeModel {
            payload: self.payload.model(),
            options: Seq::new(
                self.options@.len(),
                |i: int|
                    if 0 <= i < self.options@.len() {
                        self.options@[i].model()
                    } else {
                        TreeModel { payload: NodeModel::Pass, options: Seq::empty() }
                    },
            ),
        }
    }
}

/// What each of `trees` stands for.
pub open spec fn tree_models<U: CommandParse>(trees: Seq<ParseTree<U>>) -> Seq<
    TreeModel<U::Model>,
> {
    Seq::new(
        trees.len(),
        |i: int|
            if 0 <= i < trees.len() {
                trees[i].model()
            } else {
                TreeModel { payload: NodeModel::Pass, options: Seq::empty() }
            },
    )
}

/// What each of `nodes` stands for.
pub open spec fn node_models<U: CommandParse>(nodes: Seq<ParseNode<U>>) -> Seq<
    NodeModel<U::Model>,
> {
    Seq::new(nodes.len(), |i: int| nodes[i].model())
}

/// The position of the first of `options` that stands for `node`, or their
/// number where none does.
pub open spec fn child_index<M>(options: Seq<TreeModel<M>>, node: NodeModel<M>) -> int
    decreases options.len(),
{
    if options.len() == 0 || options[0].payload == node {
        0
    } else {
        1 + child_index(options.skip(1), node)
    }
}

/// `child_index` is the least position whose node is `node`, and lies within
/// `options` or at their end.
pub proof fn lemma_child_index<M>(options: Seq<TreeModel<M>>, node: NodeModel<M>)
    ensures
        0 <= child_index(options, node) <= options.len(),
        forall|j: int| 0 <= j < child_index(options, node) ==> options[j].payload != node,
        child_index(options, node) < options.len() ==> options[child_index(
            options,
            node,
        )].payload == node,
    decreases options.len(),
{
    if options.len() == 0 || options[0].payload == node {
    } else {
        lemma_child_index(options.skip(1), node);
        assert forall|j: int| 0 <= j < child_index(options, node) implies options[j].payload
            != node by {
            if j > 0 {
                assert(options.skip(1)[j - 1] == options[j]);
            }
        }
    }
}

/// Whether two kinds are the same.
pub fn same_type(a: &ValueType, b: &ValueType) -> (r: bool)
    ensures
        r == (*a == *b),
    decreases a,
{
    match (a, b) {
        (ValueType::Integer, ValueType::Integer) => true,
        (ValueType::Word, ValueType::Word) => true,
        (ValueType::Optional(x), ValueType::Optional(y)) => same_type(&**x, &**y),
        (ValueType::Repeated(x), ValueType::Repeated(y)) => same_type(&**x, &**y),
        (ValueType::Custom, ValueType::Custom) => true,
        _ => false,
    }
}

/// Whether two lists of named values hold the same names with the same
/// values in the same order.
pub fn same_pairs<U: CommandParse>(a: &Vec<(String, Value<U>)>, b: &Vec<(String, Value<U>)>) -> (r:
    bool)
    ensures
        r == (default_models(a@) == default_models(b@)),
{
    if a.len() != b.len() {
        proof {
            assert(default_models(a@).len() != default_models(b@).len());
        }
        return false;
    }
    let mut i: usize = 0;
    while i < a.len()
        invariant
            i <= a@.len(),
            a@.len() == b@.len(),
            forall|j: int| 0 <= j < i ==> default_models(a@)[j] == default_models(b@)[j],
        decreases a@.len() - i,
    {
        if !(a[i].0 == b[i].0 && same_value(&a[i].1, &b[i].1)) {
            proof {
                assert(default_models(a@)[i as int] != default_models(b@)[i as int]);
            }
            return false;
        }
        i += 1;
    }
    proof {
        assert(default_models(a@) =~= default_models(b@));
    }
    true
}

/// Whether two lists hold the same names in the same order.
pub fn same_names(a: &Vec<String>, b: &Vec<String>) -> (r: bool)
    ensures
        r == (name_models(a@) == name_models(b@)),
{
    if a.len() != b.len() {
        proof {
            assert(name_models(a@).len() != name_models(b@).len());
        }
        return false;
    }
    let mut i: usize = 0;
    while i < a.len()
        invariant
            i <= a@.len(),
            a@.len() == b@.len(),
            forall|j: int| 0 <= j < i ==> name_models(a@)[j] == name_models(b@)[j],
        decreases a@.len() - i,
    {
        if !(a[i] == b[i]) {
            proof {
                assert(name_models(a@)[i as int] != name_models(b@)[i as int]);
            }
            return false;
        }
        i += 1;
    }
    proof {
        assert(name_models(a@) =~= name_models(b@));
    }
    true
}

/// Whether two nodes stand for the same thing. Captures are the same where
/// both the kind and the field agree.
pub fn same_node<U: CommandParse>(a: &ParseNode<U>, b: &ParseNode<U>) -> (r: bool)
    ensures
        r == (a.model() == b.model()),
{
    match (a, b) {
        (ParseNode::Pass, ParseNode::Pass) => true,
        (ParseNode::Literal(x), ParseNode::Literal(y)) => *x == *y,
        (
            ParseNode::Function { name: x, binding: p },
            ParseNode::Function { name: y, binding: q },
        ) => same_type(x, y) && *p == *q,
        (
            ParseNode::EndOfInput { struct_name: x, defaults: d, idents: i },
            ParseNode::EndOfInput { struct_name: y, defaults: e, idents: j },
        ) => *x == *y && same_pairs(d, e) && same_names(i, j),
        _ => false,
    }
}

/// The position of the first of `options` that stands for `token`.
pub fn find_child<U: CommandParse>(options: &Vec<ParseTree<U>>, token: &ParseNode<U>) -> (r:
    Option<usize>)
    ensures
        match r {
            Some(i) => i < options@.len() && i == child_index(
                tree_models(options@),
                token.model(),
            ),
            None => child_index(tree_models(options@), token.model()) == options@.len(),
        },
{
    let mut i: usize = 0;
    while i < options.len()
        invariant
            i <= options@.len(),
            forall|j: int| 0 <= j < i ==> tree_models(options@)[j].payload != token.model(),
        decreases options@.len() - i,
    {
        if same_node(&options[i].payload, token) {
            proof {
                lemma_child_index(tree_models(options@), token.model());
                assert(tree_models(options@)[i as int].payload == token.model());
            }
            return Some(i);
        }
        proof {
            assert(tree_models(options@)[i as int].payload == options@[i as int].payload.model());
        }
        i += 1;
    }
    proof {
        lemma_child_index(tree_models(options@), token.model());
    }
    None
}

/// A node that nothing follows.
pub open spec fn leaf<M>(payload: NodeModel<M>) -> TreeModel<M> {
    TreeModel { payload, options: Seq::empty() }
}

/// Whether a tree is well formed: no two nodes that follow the same node
/// stand for the same thing, at most one of them ends a template, none is a
/// root, nothing follows the end of a template, and the trees below are well
/// formed.
pub open spec fn tree_wf<M>(tree: TreeModel<M>) -> bool
    decreases tree,
{
    &&& forall|a: int, b: int|
        0 <= a < b < tree.options.len() ==> {
            &&& (#[trigger] tree.options[a]).payload != (#[trigger] tree.options[b]).payload
            &&& !(tree.options[a].payload is EndOfInput && tree.options[b].payload is EndOfInput)
        }
    &&& forall|i: int|
        0 <= i < tree.options.len() ==> {
            &&& !((#[trigger] tree.options[i]).payload is Pass)
            &&& tree.options[i].payload is EndOfInput ==> tree.options[i].options.len() == 0
            &&& tree_wf(tree.options[i])
        }
}

/// Whether one of `options` ends a template.
pub open spec fn has_terminal<M>(options: Seq<TreeModel<M>>) -> bool {
    exists|i: int| 0 <= i < options.len() && (#[trigger] options[i]).payload is EndOfInput
}

/// Whether the tokens `items`, followed from `tree`, lead to a node at which
/// a template ends.
pub open spec fn terminal_at<M>(tree: TreeModel<M>, items: Seq<NodeModel<M>>) -> bool
    decreases items.len(),
{
    if items.len() == 0 {
        has_terminal(tree.options)
    } else {
        let i = child_index(tree.options, items[0]);
        i < tree.options.len() && terminal_at(tree.options[i], items.skip(1))
    }
}

/// The tree after the path `items` and its end `terminal` were added below
/// `tree`: the path follows the nodes that are there for as long as they stand
/// for its tokens; where one is missing, it is added behind its siblings.
pub open spec fn insert_model<M>(
    tree: TreeModel<M>,
    items: Seq<NodeModel<M>>,
    terminal: NodeModel<M>,
) -> TreeModel<M>
    decreases items.len(),
{
    if items.len() == 0 {
        TreeModel { payload: tree.payload, options: tree.options.push(leaf(terminal)) }
    } else {
        let i = child_index(tree.options, items[0]);
        if i < tree.options.len() {
            TreeModel {
                payload: tree.payload,
                options: tree.options.update(
                    i,
                    insert_model(tree.options[i], items.skip(1), terminal),
                ),
            }
        } else {
            TreeModel {
                payload: tree.payload,
                options: tree.options.push(
                    insert_model(leaf(items[0]), items.skip(1), terminal),
                ),
            }
        }
    }
}

/// What adding a template to `tree` gives: the new tree, or why the template
/// is refused. It is refused where it is inconsistent with its command, and
/// where a template of the same tokens is in the tree already.
pub open spec fn insert_outcome<M>(
    tree: TreeModel<M>,
    items: Seq<NodeModel<M>>,
    struct_name: Seq<char>,
    defaults: Seq<(Seq<char>, ValueModel<M>)>,
    idents: Seq<Seq<char>>,
) -> Result<TreeModel<M>, GrammarError> {
    match template_check(items, defaults, idents) {
        Err(e) => Err(e),
        Ok(()) => if terminal_at(tree, items) {
            Err(GrammarError::DuplicateTerminal)
        } else {
            Ok(insert_model(tree, items, NodeModel::EndOfInput { struct_name, defaults, idents }))
        },
    }
}

/// Whether one of `options` ends a template.
pub fn ends_template<U: CommandParse>(options: &Vec<ParseTree<U>>) -> (r: bool)
    ensures
        r == has_terminal(tree_models(options@)),
{
    let mut i: usize = 0;
    while i < options.len()
        invariant
            i <= options@.len(),
            forall|j: int| 0 <= j < i ==> !(tree_models(options@)[j].payload is EndOfInput),
        decreases options@.len() - i,
    {
        proof {
            assert(tree_models(options@)[i as int].payload == options@[i as int].payload.model());
        }
        match &options[i].payload {
            ParseNode::EndOfInput { .. } => {
                return true;
            },
            _ => {},
        }
        i += 1;
    }
    false
}

/// Whether the tokens `items`, followed from `tree`, lead to a node at which
/// a template ends.
pub fn leads_to_terminal<U: CommandParse>(tree: &ParseTree<U>, items: &Vec<ParseNode<U>>) -> (r:
    bool)
    ensures
        r == terminal_at(tree.model(), node_models(items@)),
{
    let ghost all = node_models(items@);
    let mut node: &ParseTree<U> = tree;
    let mut k: usize = 0;
    proof {
        assert(all.skip(0) =~= all);
    }
    while k < items.len()
        invariant
            k <= items@.len(),
            all == node_models(items@),
            terminal_at(tree.model(), all) == terminal_at(node.model(), all.skip(k as int)),
        decreases items@.len() - k,
    {
        proof {
            assert(all.skip(k as int)[0] == items@[k as int].model());
            assert(all.skip(k as int).skip(1) =~= all.skip(k + 1));
            assert(node.model().options =~= tree_models(node.options@));
        }
        match find_child(&node.options, &items[k]) {
            Some(i) => {
                node = &node.options[i];
            },
            None => {
                return false;
            },
        }
        k += 1;
    }
    proof {
        assert(node.model().options =~= tree_models(node.options@));
    }
    ends_template(&node.options)
}

/// Adds the path `items` and its end `terminal` below `tree`.
pub fn inserted<U: CommandParse>(
    tree: ParseTree<U>,
    items: Vec<ParseNode<U>>,
    terminal: ParseNode<U>,
) -> (r: ParseTree<U>)
    ensures
        r.model() == insert_model(tree.model(), node_models(items@), terminal.model()),
    decreases items@.len(),
{
    let ghost before = tree.model();
    let ghost all = node_models(items@);
    let mut t = tree;
    let mut items = items;
    proof {
        assert(before.options =~= tree_models(t.options@));
    }
    if items.len() == 0 {
        let end = ParseTree { payload: terminal, options: Vec::new() };
        proof {
            assert(end.model().options =~= Seq::empty());
        }
        t.options.push(end);
        proof {
            assert(t.model().options =~= before.options.push(leaf(terminal.model())));
        }
        t
    } else {
        let item = items.remove(0);
        proof {
            assert(node_models(items@) =~= all.skip(1));
        }
        match find_child(&t.options, &item) {
            Some(i) => {
                let child = t.options.remove(i);
                let grown = inserted(child, items, terminal);
                t.options.insert(i, grown);
                proof {
                    assert(t.model().options =~= before.options.update(
                        i as int,
                        grown.model(),
                    ));
                }
                t
            },
            None => {
                let start = ParseTree { payload: item, options: Vec::new() };
                proof {
                    assert(start.model().options =~= Seq::empty());
                }
                let grown = inserted(start, items, terminal);
                t.options.push(grown);
                proof {
                    assert(t.model().options =~= before.options.push(grown.model()));
                }
                t
            },
        }
    }
}

impl<U: CommandParse> ParseTree<U> {
    /// A tree that holds no template.
    pub fn new() -> (r: Self)
        ensures
            r.model() == leaf::<U::Model>(NodeModel::Pass),
            tree_wf(r.model()),
    {
        let r = ParseTree { options: Vec::new(), payload: ParseNode::Pass };
        proof {
            assert(r.model().options =~= Seq::empty());
        }
        r
    }

    /// Adds a template to the tree: `items` are its tokens, `struct_name` the
    /// command it makes, `defaults` the values of the fields it does not
    /// capture, `idents` the fields of the command. A template that is
    /// refused leaves the tree as it was.
    pub fn insert(
        &mut self,
        items: Vec<ParseNode<U>>,
        struct_name: String,
        defaults: Vec<(String, Value<U>)>,
        idents: Vec<String>,
    ) -> (r: Result<(), GrammarError>)
        ensures
            match insert_outcome(
                old(self).model(),
                node_models(items@),
                struct_name@,
                default_models(defaults@),
                name_models(idents@),
            ) {
                Ok(tree) => r is Ok && final(self).model() == tree,
                Err(e) => r == Err::<(), GrammarError>(e) && final(self).model() == old(
                    self,
                ).model(),
            },
            tree_wf(old(self).model()) ==> tree_wf(final(self).model()),
    {
        proof {
            crate::laws::lemma_insert_outcome_wf(
                self.model(),
                node_models(items@),
                struct_name@,
                default_models(defaults@),
                name_models(idents@),
            );
        }
        match check_template(&items, &defaults, &idents) {
            Err(e) => {
                return Err(e);
            },
            Ok(()) => {},
        }
        if leads_to_terminal(self, &items) {
            return Err(GrammarError::DuplicateTerminal);
        }
        let mut tree = ParseTree::new();
        std::mem::swap(self, &mut tree);
        let terminal = ParseNode::EndOfInput { struct_name, defaults, idents };
        let grown = inserted(tree, items, terminal);
        *self = grown;
        Ok(())
    }
}

} // verus!
