//! What holds of the parser and the renderer together.

use crate::capture::CommandParse;
use crate::engine::fill_fields;
use crate::engine::finish_model;
use crate::engine::lookup;
use crate::engine::parse_captures_model;
use crate::engine::parse_model;
use crate::engine::parse_tree_model;
use crate::engine::terminal_index;
use crate::engine::CommandModel;
use crate::engine::lemma_terminal_index;
use crate::parse_tree::child_index;
use crate::parse_tree::insert_model;
use crate::parse_tree::insert_outcome;
use crate::parse_tree::leaf;
use crate::parse_tree::lemma_child_index;
use crate::parse_tree::terminal_at;
use crate::parse_tree::tree_wf;
use crate::template::all_tokens;
use crate::parse_tree::NodeModel;
use crate::parse_tree::TreeModel;
use crate::render::defaults_agree;
use crate::render::lemma_selected_template;
use crate::render::render_model;
use crate::render::render_template_model;
use crate::render::selected_template;
use crate::template::capture_names;
use crate::template::default_names;
use crate::template::template_check;
use crate::template::TemplateModel;
use crate::render::token_text;
use crate::render::token_texts;
use crate::text::after_first_word;
use crate::text::first_word;
use crate::text::joined;
use crate::text::lemma_joined_step;
use crate::text::lemma_split_joined;
use crate::text::lemma_split_word;
use crate::grammar::compile_items_model;
use crate::grammar::compile_model;
use crate::grammar::family_wf;
use crate::grammar::field_names;
use crate::grammar::insert_all_model;
use crate::grammar::lemma_variant_index;
use crate::grammar::read_templates_model;
use crate::grammar::render_command_model;
use crate::grammar::struct_fields;
use crate::grammar::variant_held;
use crate::grammar::variant_index;
use crate::grammar::FamilyModel;
use crate::grammar::ItemModel;
use crate::grammar::VariantModel;
use crate::integer::lemma_integer_reads_back;
use crate::value::parse_value_model;
use crate::value::ValueModel;
use crate::value::ValueType;
use vstd::prelude::*;

verus! {

/// Where the first word of the input is a keyword that follows a node, the
/// parser goes on at that keyword with the rest of the input, and its result
/// is the result of that walk: no capture that follows the node is tried,
/// whatever it would have read.
pub proof fn lemma_literal_precedence<U: CommandParse>(
    tree: TreeModel<U::Model>,
    input: Seq<char>,
    env: Seq<(Seq<char>, ValueModel<U::Model>)>,
)
    requires
        child_index(tree.options, NodeModel::Literal(first_word(input))) < tree.options.len(),
    ensures
        parse_tree_model::<U>(tree, input, env) == parse_tree_model::<U>(
            tree.options[child_index(tree.options, NodeModel::Literal(first_word(input)))],
            after_first_word(input),
            env,
        ),
{
    lemma_child_index(tree.options, NodeModel::Literal(first_word(input)));
}

/// A parse ends with a command only where nothing is left of the input: a
/// node at which a template ends gives no command while input remains.
pub proof fn lemma_command_needs_empty_input<M>(
    tree: TreeModel<M>,
    input: Seq<char>,
    env: Seq<(Seq<char>, ValueModel<M>)>,
    err: Seq<char>,
)
    requires
        finish_model(tree, input, env, err) is Ok,
    ensures
        input.len() == 0,
{
}

/// The node that the first `k` of the tokens `items` lead to from `tree`.
pub open spec fn node_at<M>(tree: TreeModel<M>, items: Seq<NodeModel<M>>, k: int) -> TreeModel<M>
    decreases k,
{
    if k <= 0 {
        tree
    } else {
        let parent = node_at(tree, items, k - 1);
        parent.options[child_index(parent.options, items[k - 1])]
    }
}

/// Whether `tree` holds the template of the tokens `items` that ends in
/// `terminal`: the first token follows `tree`, the others follow from there
/// on, and the first end of a template at the last node is `terminal`.
pub open spec fn holds_template<M>(
    tree: TreeModel<M>,
    items: Seq<NodeModel<M>>,
    terminal: NodeModel<M>,
) -> bool
    decreases items.len(),
{
    if items.len() == 0 {
        &&& terminal_index(tree.options) < tree.options.len()
        &&& tree.options[terminal_index(tree.options)].payload == terminal
    } else {
        &&& child_index(tree.options, items[0]) < tree.options.len()
        &&& holds_template(
            tree.options[child_index(tree.options, items[0])],
            items.skip(1),
            terminal,
        )
    }
}

/// `holds_template`, said of the nodes that the tokens lead to one by one.
pub open spec fn path_holds<M>(
    tree: TreeModel<M>,
    items: Seq<NodeModel<M>>,
    terminal: NodeModel<M>,
) -> bool {
    &&& forall|k: int|
        0 <= k < items.len() ==> child_index(
            (#[trigger] node_at(tree, items, k)).options,
            items[k],
        ) < node_at(tree, items, k).options.len()
    &&& terminal_index(node_at(tree, items, items.len() as int).options) < node_at(
        tree,
        items,
        items.len() as int,
    ).options.len()
    &&& node_at(tree, items, items.len() as int).options[terminal_index(
        node_at(tree, items, items.len() as int).options,
    )].payload == terminal
}

/// The fields that the captures among `items` bind, each with the value that
/// `fields` hold for it.
pub open spec fn captured<M>(
    items: Seq<NodeModel<M>>,
    fields: Seq<(Seq<char>, ValueModel<M>)>,
) -> Seq<(Seq<char>, ValueModel<M>)>
    decreases items.len(),
{
    if items.len() == 0 {
        Seq::empty()
    } else {
        match items.last() {
            NodeModel::Function { name, binding } => match lookup(fields, binding) {
                Some(v) => captured(items.drop_last(), fields).push((binding, v)),
                None => captured(items.drop_last(), fields),
            },
            _ => captured(items.drop_last(), fields),
        }
    }
}

/// Whether the keywords that follow `tree` leave the way free for `command`:
/// none is the first word of `input`, or the walk from the one that is gives
/// `command`.
pub open spec fn literal_passes<U: CommandParse>(
    tree: TreeModel<U::Model>,
    input: Seq<char>,
    env: Seq<(Seq<char>, ValueModel<U::Model>)>,
    command: CommandModel<U::Model>,
) -> bool {
    let l = child_index(tree.options, NodeModel::Literal(first_word(input)));
    l >= tree.options.len() || parse_tree_model::<U>(
        tree.options[l],
        after_first_word(input),
        env,
    ) == Ok::<CommandModel<U::Model>, Seq<char>>(command)
}

/// Whether the node at position `j` below `tree` leaves the way free for
/// `command`: it is no capture, or its value cannot be read from `input`, or
/// the walk from it fails or gives `command`.
pub open spec fn capture_passes<U: CommandParse>(
    tree: TreeModel<U::Model>,
    j: int,
    input: Seq<char>,
    env: Seq<(Seq<char>, ValueModel<U::Model>)>,
    command: CommandModel<U::Model>,
) -> bool {
    match tree.options[j].payload {
        NodeModel::Function { name, binding } => match parse_value_model::<U>(name, input) {
            Ok((rest, v)) => {
                let walked = parse_tree_model::<U>(tree.options[j], rest, env.push((binding, v)));
                walked is Err || walked == Ok::<CommandModel<U::Model>, Seq<char>>(command)
            },
            Err(_) => true,
        },
        _ => true,
    }
}

/// Whether the parser, at the node that the first `k` tokens of a template
/// lead to, takes the way of the template or another way to `command`. At a
/// keyword: the keyword holds no space. At a capture: the keywords and the
/// captures that are tried before it leave the way free, and the value of
/// the field is read back from its text with all that follows it left over.
/// At the end: the keywords and the captures that follow leave the way free.
pub open spec fn step_is_taken<U: CommandParse>(
    tree: TreeModel<U::Model>,
    items: Seq<NodeModel<U::Model>>,
    parts: Seq<Seq<char>>,
    command: CommandModel<U::Model>,
    k: int,
) -> bool {
    let node = node_at(tree, items, k);
    let text = joined(parts.skip(k), seq![' ']);
    let env = captured(items.take(k), command.fields);
    if k >= items.len() {
        &&& literal_passes::<U>(node, text, env, command)
        &&& forall|j: int|
            0 <= j < node.options.len() ==> #[trigger] capture_passes::<U>(
                node,
                j,
                text,
                env,
                command,
            )
    } else {
        match items[k] {
            NodeModel::Literal(word) => !word.contains(' '),
            NodeModel::Function { name, binding } => {
                &&& literal_passes::<U>(node, text, env, command)
                &&& forall|j: int|
                    0 <= j < child_index(node.options, items[k]) ==> #[trigger] capture_passes::<U>(
                        node,
                        j,
                        text,
                        env,
                        command,
                    )
                &&& match lookup(command.fields, binding) {
                    Some(v) => parse_value_model::<U>(name, text) == Ok::<
                        (Seq<char>, ValueModel<U::Model>),
                        Seq<char>,
                    >((joined(parts.skip(k + 1), seq![' ']), v)),
                    None => false,
                }
            },
            _ => false,
        }
    }
}

/// Whether the parser takes the way of a template, or another way to
/// `command`, at every node on the way of the template.
pub open spec fn path_is_taken<U: CommandParse>(
    tree: TreeModel<U::Model>,
    items: Seq<NodeModel<U::Model>>,
    parts: Seq<Seq<char>>,
    command: CommandModel<U::Model>,
) -> bool {
    forall|k: int| 0 <= k <= items.len() ==> #[trigger] step_is_taken::<U>(
        tree,
        items,
        parts,
        command,
        k,
    )
}

/// The texts of tokens are as many as the tokens, each the text of its token.
pub proof fn lemma_token_texts<U: CommandParse>(
    items: Seq<NodeModel<U::Model>>,
    fields: Seq<(Seq<char>, ValueModel<U::Model>)>,
)
    requires
        token_texts::<U>(items, fields) is Some,
    ensures
        token_texts::<U>(items, fields)->0.len() == items.len(),
        forall|k: int|
            0 <= k < items.len() ==> token_text::<U>(#[trigger] items[k], fields) == Some(
                token_texts::<U>(items, fields)->0[k],
            ),
    decreases items.len(),
{
    if items.len() > 0 {
        lemma_token_texts::<U>(items.drop_last(), fields);
        let parts = token_texts::<U>(items, fields)->0;
        assert forall|k: int| 0 <= k < items.len() implies token_text::<U>(
            #[trigger] items[k],
            fields,
        ) == Some(parts[k]) by {
            if k < items.len() - 1 {
                assert(items.drop_last()[k] == items[k]);
            }
        }
    }
}

/// Where every capture from `from` up to `idx` leaves the way free and the
/// walk from the capture at `idx` gives `command`, the captures from `from`
/// on give `command`.
pub proof fn lemma_captures_reach<U: CommandParse>(
    tree: TreeModel<U::Model>,
    from: int,
    idx: int,
    input: Seq<char>,
    env: Seq<(Seq<char>, ValueModel<U::Model>)>,
    err: Seq<char>,
    command: CommandModel<U::Model>,
)
    requires
        0 <= from <= idx < tree.options.len(),
        forall|j: int| from <= j < idx ==> #[trigger] capture_passes::<U>(tree, j, input, env, command),
        match tree.options[idx].payload {
            NodeModel::Function { name, binding } => match parse_value_model::<U>(name, input) {
                Ok((rest, v)) => parse_tree_model::<U>(tree.options[idx], rest, env.push((binding, v)))
                    == Ok::<CommandModel<U::Model>, Seq<char>>(command),
                Err(_) => false,
            },
            _ => false,
        },
    ensures
        parse_captures_model::<U>(tree, from, input, env, err) == Ok::<
            CommandModel<U::Model>,
            Seq<char>,
        >(command),
    decreases idx - from,
{
    if from < idx {
        assert(capture_passes::<U>(tree, from, input, env, command));
        match tree.options[from].payload {
            NodeModel::Function { name, binding } => match parse_value_model::<U>(name, input) {
                Ok((rest, v)) => {
                    let walked = parse_tree_model::<U>(
                        tree.options[from],
                        rest,
                        env.push((binding, v)),
                    );
                    match walked {
                        Ok(_) => {},
                        Err(e) => {
                            lemma_captures_reach::<U>(tree, from + 1, idx, input, env, e, command);
                        },
                    }
                },
                Err(_) => {
                    lemma_captures_reach::<U>(tree, from + 1, idx, input, env, err, command);
                },
            },
            _ => {
                lemma_captures_reach::<U>(tree, from + 1, idx, input, env, err, command);
            },
        }
    }
}

/// Where every capture from `from` on leaves the way free and the node ends
/// the template of `command` with nothing left of the input, the captures
/// from `from` on give `command`.
pub proof fn lemma_captures_finish<U: CommandParse>(
    tree: TreeModel<U::Model>,
    from: int,
    env: Seq<(Seq<char>, ValueModel<U::Model>)>,
    err: Seq<char>,
    command: CommandModel<U::Model>,
)
    requires
        0 <= from <= tree.options.len(),
        forall|j: int|
            from <= j < tree.options.len() ==> #[trigger] capture_passes::<U>(
                tree,
                j,
                Seq::empty(),
                env,
                command,
            ),
        forall|e: Seq<char>|
            #[trigger] finish_model(tree, Seq::empty(), env, e) == Ok::<
                CommandModel<U::Model>,
                Seq<char>,
            >(command),
    ensures
        parse_captures_model::<U>(tree, from, Seq::empty(), env, err) == Ok::<
            CommandModel<U::Model>,
            Seq<char>,
        >(command),
    decreases tree.options.len() - from,
{
    let input = Seq::<char>::empty();
    if from < tree.options.len() {
        assert(capture_passes::<U>(tree, from, input, env, command));
        match tree.options[from].payload {
            NodeModel::Function { name, binding } => match parse_value_model::<U>(name, input) {
                Ok((rest, v)) => {
                    let walked = parse_tree_model::<U>(
                        tree.options[from],
                        rest,
                        env.push((binding, v)),
                    );
                    match walked {
                        Ok(_) => {},
                        Err(e) => {
                            lemma_captures_finish::<U>(tree, from + 1, env, e, command);
                        },
                    }
                },
                Err(_) => {
                    lemma_captures_finish::<U>(tree, from + 1, env, err, command);
                },
            },
            _ => {
                lemma_captures_finish::<U>(tree, from + 1, env, err, command);
            },
        }
    } else {
        assert(finish_model(tree, input, env, err) == Ok::<CommandModel<U::Model>, Seq<char>>(
            command,
        ));
    }
}

/// The node that `k + 1` tokens lead to is the node that the last `k` of
/// them lead to from the node of the first.
pub proof fn lemma_node_at_shift<M>(tree: TreeModel<M>, items: Seq<NodeModel<M>>, k: int)
    requires
        0 <= k < items.len(),
    ensures
        node_at(tree, items, k + 1) == node_at(
            tree.options[child_index(tree.options, items[0])],
            items.skip(1),
            k,
        ),
    decreases k,
{
    let child = tree.options[child_index(tree.options, items[0])];
    if k > 0 {
        lemma_node_at_shift(tree, items, k - 1);
        assert(items.skip(1)[k - 1] == items[k]);
        let parent = node_at(tree, items, k);
        assert(parent == node_at(child, items.skip(1), k - 1));
        assert(node_at(tree, items, k + 1) == parent.options[child_index(
            parent.options,
            items[k],
        )]);
    } else {
        assert(node_at(tree, items, 0) == tree);
        assert(node_at(tree, items, 1) == child);
        assert(node_at(child, items.skip(1), 0) == child);
    }
}

/// A template that a tree holds is held node by node.
pub proof fn lemma_holds_template_path<M>(
    tree: TreeModel<M>,
    items: Seq<NodeModel<M>>,
    terminal: NodeModel<M>,
)
    requires
        holds_template(tree, items, terminal),
    ensures
        path_holds(tree, items, terminal),
    decreases items.len(),
{
    if items.len() > 0 {
        let child = tree.options[child_index(tree.options, items[0])];
        let rest = items.skip(1);
        lemma_holds_template_path(child, rest, terminal);
        assert forall|k: int| 0 <= k < items.len() implies child_index(
            (#[trigger] node_at(tree, items, k)).options,
            items[k],
        ) < node_at(tree, items, k).options.len() by {
            if k > 0 {
                lemma_node_at_shift(tree, items, k - 1);
                assert(rest[k - 1] == items[k]);
                assert(child_index(node_at(child, rest, k - 1).options, rest[k - 1]) < node_at(
                    child,
                    rest,
                    k - 1,
                ).options.len());
            }
        }
        lemma_node_at_shift(tree, items, items.len() - 1);
    }
}

/// From the node that the first `k` tokens of a template lead to, the rest of
/// the rendered text gives the command.
proof fn lemma_walk<U: CommandParse>(
    tree: TreeModel<U::Model>,
    items: Seq<NodeModel<U::Model>>,
    name: Seq<char>,
    defaults: Seq<(Seq<char>, ValueModel<U::Model>)>,
    idents: Seq<Seq<char>>,
    command: CommandModel<U::Model>,
    k: int,
)
    requires
        path_holds(tree, items, NodeModel::EndOfInput { struct_name: name, defaults, idents }),
        command.name == name,
        fill_fields(idents, captured(items, command.fields), defaults) == Some(command.fields),
        token_texts::<U>(items, command.fields) is Some,
        path_is_taken::<U>(tree, items, token_texts::<U>(items, command.fields)->0, command),
        0 <= k <= items.len(),
    ensures
        parse_tree_model::<U>(
            node_at(tree, items, k),
            joined(token_texts::<U>(items, command.fields)->0.skip(k), seq![' ']),
            captured(items.take(k), command.fields),
        ) == Ok::<CommandModel<U::Model>, Seq<char>>(command),
    decreases items.len() - k,
{
    let sp = seq![' '];
    let parts = token_texts::<U>(items, command.fields)->0;
    lemma_token_texts::<U>(items, command.fields);
    let node = node_at(tree, items, k);
    let text = joined(parts.skip(k), sp);
    let env = captured(items.take(k), command.fields);
    assert(step_is_taken::<U>(tree, items, parts, command, k));
    let l = child_index(node.options, NodeModel::Literal(first_word(text)));
    lemma_child_index(node.options, NodeModel::Literal(first_word(text)));
    if k == items.len() {
        assert(parts.skip(k) =~= Seq::<Seq<char>>::empty());
        assert(text =~= Seq::<char>::empty());
        assert(items.take(k) =~= items);
        assert forall|e: Seq<char>|
            #[trigger] finish_model(node, Seq::empty(), env, e) == Ok::<
                CommandModel<U::Model>,
                Seq<char>,
            >(command) by {
            assert(CommandModel { name, fields: command.fields } == command);
        }
        if l < node.options.len() {
        } else {
            lemma_captures_finish::<U>(node, 0, env, text, command);
        }
    } else {
        lemma_walk::<U>(tree, items, name, defaults, idents, command, k + 1);
        lemma_joined_step(parts, sp, k);
        let next_text = joined(parts.skip(k + 1), sp);
        assert(items.take(k + 1).drop_last() =~= items.take(k));
        assert(items.take(k + 1).last() == items[k]);
        let idx = child_index(node.options, items[k]);
        lemma_child_index(node.options, items[k]);
        assert(node_at(tree, items, k + 1) == node.options[idx]);
        assert(token_text::<U>(items[k], command.fields) == Some(parts[k]));
        match items[k] {
            NodeModel::Literal(word) => {
                assert(parts[k] == word);
                if k == items.len() - 1 {
                    assert(parts.skip(k + 1) =~= Seq::<Seq<char>>::empty());
                    lemma_split_word(word);
                } else {
                    lemma_split_joined(word, next_text);
                }
                assert(first_word(text) == word);
                assert(after_first_word(text) =~= next_text);
            },
            NodeModel::Function { name: kind, binding } => {
                let v = lookup(command.fields, binding)->0;
                if l < node.options.len() {
                } else {
                    lemma_captures_reach::<U>(node, 0, idx, text, env, text, command);
                }
            },
            _ => {},
        }
    }
}

/// Round trip. Let a tree hold a template, and let a command be one that the
/// template makes: it has the template's name, and its fields are what the
/// end of the template builds from the values of the captured fields and
/// the template's defaults. Where the parser, on the text that the template
/// renders for the command, takes the way of the template or another way to
/// the same command at every node of that way, parsing the rendered text
/// gives the command back.
pub proof fn lemma_round_trip<U: CommandParse>(
    tree: TreeModel<U::Model>,
    items: Seq<NodeModel<U::Model>>,
    name: Seq<char>,
    defaults: Seq<(Seq<char>, ValueModel<U::Model>)>,
    idents: Seq<Seq<char>>,
    command: CommandModel<U::Model>,
)
    requires
        holds_template(
            tree,
            items,
            NodeModel::EndOfInput { struct_name: name, defaults, idents },
        ),
        command.name == name,
        fill_fields(idents, captured(items, command.fields), defaults) == Some(command.fields),
        token_texts::<U>(items, command.fields) is Some,
        path_is_taken::<U>(tree, items, token_texts::<U>(items, command.fields)->0, command),
    ensures
        render_template_model::<U>(items, command.fields) is Some,
        parse_model::<U>(tree, render_template_model::<U>(items, command.fields)->0) == Ok::<
            CommandModel<U::Model>,
            Seq<char>,
        >(command),
{
    let parts = token_texts::<U>(items, command.fields)->0;
    lemma_holds_template_path(
        tree,
        items,
        NodeModel::EndOfInput { struct_name: name, defaults, idents },
    );
    lemma_walk::<U>(tree, items, name, defaults, idents, command, 0);
    assert(parts.skip(0) =~= parts);
    assert(items.take(0) =~= Seq::<NodeModel<U::Model>>::empty());
}

/// A position with no node for `node` before it, and one at it where it
/// lies within `options`, is `child_index`.
pub proof fn lemma_child_index_unique<M>(options: Seq<TreeModel<M>>, node: NodeModel<M>, i: int)
    requires
        0 <= i <= options.len(),
        forall|j: int| 0 <= j < i ==> options[j].payload != node,
        i < options.len() ==> options[i].payload == node,
    ensures
        child_index(options, node) == i,
{
    lemma_child_index(options, node);
}

/// A position with no end of a template before it, and one at it where it
/// lies within `options`, is `terminal_index`.
pub proof fn lemma_terminal_index_unique<M>(options: Seq<TreeModel<M>>, i: int)
    requires
        0 <= i <= options.len(),
        forall|j: int| 0 <= j < i ==> !(options[j].payload is EndOfInput),
        i < options.len() ==> options[i].payload is EndOfInput,
    ensures
        terminal_index(options) == i,
{
    lemma_terminal_index(options);
}

/// Adding a template below a node leaves what the node stands for as it was.
pub proof fn lemma_insert_payload<M>(
    tree: TreeModel<M>,
    items: Seq<NodeModel<M>>,
    terminal: NodeModel<M>,
)
    ensures
        insert_model(tree, items, terminal).payload == tree.payload,
{
}

/// A template that was added to a tree is held by it.
pub proof fn lemma_insert_holds<M>(
    tree: TreeModel<M>,
    items: Seq<NodeModel<M>>,
    terminal: NodeModel<M>,
)
    requires
        terminal is EndOfInput,
        !terminal_at(tree, items),
    ensures
        holds_template(insert_model(tree, items, terminal), items, terminal),
    decreases items.len(),
{
    let grown = insert_model(tree, items, terminal);
    if items.len() == 0 {
        assert forall|j: int| 0 <= j < tree.options.len() implies !(
        grown.options[j].payload is EndOfInput) by {
            assert(grown.options[j] == tree.options[j]);
        }
        lemma_terminal_index_unique(grown.options, tree.options.len() as int);
    } else {
        let i = child_index(tree.options, items[0]);
        let rest = items.skip(1);
        lemma_child_index(tree.options, items[0]);
        if i < tree.options.len() {
            lemma_insert_payload(tree.options[i], rest, terminal);
            lemma_insert_holds(tree.options[i], rest, terminal);
            lemma_child_index_unique(grown.options, items[0], i);
        } else {
            lemma_insert_payload(leaf(items[0]), rest, terminal);
            assert(!terminal_at(leaf(items[0]), rest));
            lemma_insert_holds(leaf(items[0]), rest, terminal);
            assert forall|j: int| 0 <= j < tree.options.len() implies grown.options[j].payload
                != items[0] by {
                assert(grown.options[j] == tree.options[j]);
            }
            lemma_child_index_unique(grown.options, items[0], tree.options.len() as int);
        }
    }
}

/// A template that a tree holds is still held after another was added.
pub proof fn lemma_insert_keeps<M>(
    tree: TreeModel<M>,
    items: Seq<NodeModel<M>>,
    terminal: NodeModel<M>,
    other: Seq<NodeModel<M>>,
    other_terminal: NodeModel<M>,
)
    requires
        holds_template(tree, other, other_terminal),
    ensures
        holds_template(insert_model(tree, items, terminal), other, other_terminal),
    decreases items.len(),
{
    let grown = insert_model(tree, items, terminal);
    if items.len() == 0 {
        if other.len() == 0 {
            let t = terminal_index(tree.options);
            lemma_terminal_index(tree.options);
            assert forall|j: int| 0 <= j < t implies !(grown.options[j].payload is EndOfInput) by {
                assert(grown.options[j] == tree.options[j]);
            }
            assert(grown.options[t] == tree.options[t]);
            lemma_terminal_index_unique(grown.options, t);
        } else {
            let c = child_index(tree.options, other[0]);
            lemma_child_index(tree.options, other[0]);
            assert forall|j: int| 0 <= j < c implies grown.options[j].payload != other[0] by {
                assert(grown.options[j] == tree.options[j]);
            }
            assert(grown.options[c] == tree.options[c]);
            lemma_child_index_unique(grown.options, other[0], c);
        }
    } else {
        let i = child_index(tree.options, items[0]);
        let rest = items.skip(1);
        lemma_child_index(tree.options, items[0]);
        if i < tree.options.len() {
            lemma_insert_payload(tree.options[i], rest, terminal);
        }
        assert forall|j: int| 0 <= j < tree.options.len() implies (
        #[trigger] grown.options[j]).payload == tree.options[j].payload by {}
        if other.len() == 0 {
            let t = terminal_index(tree.options);
            lemma_terminal_index(tree.options);
            lemma_terminal_index_unique(grown.options, t);
        } else {
            let c = child_index(tree.options, other[0]);
            lemma_child_index(tree.options, other[0]);
            lemma_child_index_unique(grown.options, other[0], c);
            if c == i {
                lemma_insert_keeps(tree.options[i], rest, terminal, other.skip(1), other_terminal);
            } else {
                assert(grown.options[c] == tree.options[c]);
            }
        }
    }
}

/// A template that was added to a tree with success is held by the tree,
/// and so is every template that the tree held before.
pub proof fn lemma_insert_outcome_holds<M>(
    tree: TreeModel<M>,
    items: Seq<NodeModel<M>>,
    struct_name: Seq<char>,
    defaults: Seq<(Seq<char>, ValueModel<M>)>,
    idents: Seq<Seq<char>>,
)
    ensures
        match insert_outcome(tree, items, struct_name, defaults, idents) {
            Ok(grown) => {
                &&& holds_template(
                    grown,
                    items,
                    NodeModel::EndOfInput { struct_name, defaults, idents },
                )
                &&& forall|other: Seq<NodeModel<M>>, other_terminal: NodeModel<M>|
                    holds_template(tree, other, other_terminal) ==> #[trigger] holds_template(
                        grown,
                        other,
                        other_terminal,
                    )
            },
            Err(_) => true,
        },
{
    let terminal = NodeModel::EndOfInput { struct_name, defaults, idents };
    match insert_outcome(tree, items, struct_name, defaults, idents) {
        Ok(grown) => {
            lemma_insert_holds(tree, items, terminal);
            assert forall|other: Seq<NodeModel<M>>, other_terminal: NodeModel<M>|
                holds_template(tree, other, other_terminal) implies #[trigger] holds_template(
                grown,
                other,
                other_terminal,
            ) by {
                lemma_insert_keeps(tree, items, terminal, other, other_terminal);
            }
        },
        Err(_) => {},
    }
}

/// Where no name stands twice, each pair is what `lookup` finds for its name.
pub proof fn lemma_lookup_distinct<M>(pairs: Seq<(Seq<char>, ValueModel<M>)>, k: int)
    requires
        default_names(pairs).no_duplicates(),
        0 <= k < pairs.len(),
    ensures
        lookup(pairs, pairs[k].0) == Some(pairs[k].1),
    decreases pairs.len(),
{
    let names = default_names(pairs);
    if pairs.last().0 == pairs[k].0 {
        assert(names[pairs.len() - 1] == names[k]);
    } else {
        let shorter = pairs.drop_last();
        assert forall|a: int, b: int|
            0 <= a < shorter.len() && 0 <= b < shorter.len() && a != b implies default_names(
            shorter,
        )[a] != default_names(shorter)[b] by {
            assert(names[a] != names[b]);
        }
        lemma_lookup_distinct(shorter, k);
    }
}

/// What the captures of a template bind to a field is what `fields` hold for
/// it, where the template captures the field; and nothing where it does not.
pub proof fn lemma_captured_lookup<M>(
    items: Seq<NodeModel<M>>,
    fields: Seq<(Seq<char>, ValueModel<M>)>,
    name: Seq<char>,
)
    ensures
        lookup(captured(items, fields), name) == if capture_names(items).contains(name) {
            lookup(fields, name)
        } else {
            None
        },
    decreases items.len(),
{
    if items.len() > 0 {
        let shorter = items.drop_last();
        lemma_captured_lookup(shorter, fields, name);
        let before = capture_names(shorter);
        match items.last() {
            NodeModel::Function { name: kind, binding } => {
                let all = before.push(binding);
                assert(all[before.len() as int] == binding);
                if before.contains(name) {
                    let w = choose|w: int| 0 <= w < before.len() && before[w] == name;
                    assert(all[w] == name);
                }
                if all.contains(name) && binding != name {
                    let w = choose|w: int| 0 <= w < all.len() && all[w] == name;
                    assert(before[w] == name);
                }
                match lookup(fields, binding) {
                    Some(v) => {
                        let env = captured(shorter, fields).push((binding, v));
                        assert(env.drop_last() =~= captured(shorter, fields));
                    },
                    None => {},
                }
            },
            _ => {},
        }
    }
}

/// A command whose fields are those of a consistent template, and agree
/// with the template's defaults, is one that the template makes: the end of
/// the template builds its fields from the values of the captured fields
/// and the defaults.
pub proof fn lemma_made_by_template<M>(
    items: Seq<NodeModel<M>>,
    defaults: Seq<(Seq<char>, ValueModel<M>)>,
    idents: Seq<Seq<char>>,
    fields: Seq<(Seq<char>, ValueModel<M>)>,
)
    requires
        template_check(items, defaults, idents) is Ok,
        default_names(fields) == idents,
        defaults_agree(defaults, fields),
    ensures
        fill_fields(idents, captured(items, fields), defaults) == Some(fields),
{
    lemma_made_up_to(items, defaults, idents, fields, idents.len() as int);
    assert(idents.take(idents.len() as int) =~= idents);
    assert(fields.take(idents.len() as int) =~= fields);
}

/// `lemma_made_by_template`, for the first `k` fields.
proof fn lemma_made_up_to<M>(
    items: Seq<NodeModel<M>>,
    defaults: Seq<(Seq<char>, ValueModel<M>)>,
    idents: Seq<Seq<char>>,
    fields: Seq<(Seq<char>, ValueModel<M>)>,
    k: int,
)
    requires
        template_check(items, defaults, idents) is Ok,
        default_names(fields) == idents,
        defaults_agree(defaults, fields),
        0 <= k <= idents.len(),
    ensures
        fill_fields(idents.take(k), captured(items, fields), defaults) == Some(fields.take(k)),
    decreases k,
{
    let env = captured(items, fields);
    if k == 0 {
        assert(fields.take(0) =~= Seq::<(Seq<char>, ValueModel<M>)>::empty());
    } else {
        lemma_made_up_to(items, defaults, idents, fields, k - 1);
        let name = idents[k - 1];
        assert(idents.take(k).drop_last() =~= idents.take(k - 1));
        assert(idents.take(k).last() == name);
        assert(default_names(fields)[k - 1] == fields[k - 1].0);
        lemma_lookup_distinct(fields, k - 1);
        lemma_captured_lookup(items, fields, name);
        if !capture_names(items).contains(name) {
            let all = capture_names(items) + default_names(defaults);
            assert(all.contains(name));
            let w = choose|w: int| 0 <= w < all.len() && all[w] == name;
            if w < capture_names(items).len() {
                assert(capture_names(items)[w] == name);
            }
            let d = w - capture_names(items).len();
            assert(default_names(defaults)[d] == name);
            assert(defaults[d].0 == name);
            lemma_lookup_distinct(defaults, d);
        }
        assert(fields.take(k - 1).push((name, fields[k - 1].1)) =~= fields.take(k));
    }
}

/// The fields that the end of a template builds are named as the command
/// declares them, in that order.
pub proof fn lemma_fill_fields_names<M>(
    idents: Seq<Seq<char>>,
    env: Seq<(Seq<char>, ValueModel<M>)>,
    defaults: Seq<(Seq<char>, ValueModel<M>)>,
)
    requires
        fill_fields(idents, env, defaults) is Some,
    ensures
        default_names(fill_fields(idents, env, defaults)->0) == idents,
    decreases idents.len(),
{
    if idents.len() > 0 {
        lemma_fill_fields_names(idents.drop_last(), env, defaults);
        let fields = fill_fields(idents, env, defaults)->0;
        assert(default_names(fields) =~= default_names(fields.drop_last()).push(idents.last()));
        assert(fields.drop_last() =~= fill_fields(idents.drop_last(), env, defaults)->0);
        assert(idents.drop_last().push(idents.last()) =~= idents);
    } else {
        assert(default_names(fill_fields(idents, env, defaults)->0) =~= idents);
    }
}

/// A command that the parser makes at the end of a template has the name of
/// that template's command and its fields, in their order.
pub proof fn lemma_finished_command_shape<M>(
    tree: TreeModel<M>,
    input: Seq<char>,
    env: Seq<(Seq<char>, ValueModel<M>)>,
    err: Seq<char>,
)
    requires
        finish_model(tree, input, env, err) is Ok,
    ensures
        tree.options[terminal_index(tree.options)].payload is EndOfInput,
        finish_model(tree, input, env, err)->Ok_0.name == tree.options[terminal_index(
            tree.options,
        )].payload->struct_name,
        default_names(finish_model(tree, input, env, err)->Ok_0.fields)
            == tree.options[terminal_index(tree.options)].payload->idents,
{
    match tree.options[terminal_index(tree.options)].payload {
        NodeModel::EndOfInput { struct_name, defaults, idents } => {
            lemma_fill_fields_names(idents, env, defaults);
        },
        _ => {},
    }
}

/// Round trip through the renderer. Let a command have the name and the
/// fields of a command of the family, let some template of that command agree
/// with its fields, and let the tree hold the first such template, which is
/// consistent. Where the parser, on the text that the renderer writes for the
/// command, takes the way of that template or another way to the same
/// command at every node of that way, parsing the rendered text gives the
/// command back.
pub proof fn lemma_render_round_trip<U: CommandParse>(
    tree: TreeModel<U::Model>,
    templates: Seq<TemplateModel<U::Model>>,
    name: Seq<char>,
    idents: Seq<Seq<char>>,
    command: CommandModel<U::Model>,
)
    requires
        command.name == name,
        default_names(command.fields) == idents,
        render_model::<U>(templates, command.fields) is Some,
        template_check(
            templates[selected_template(templates, command.fields)].items,
            templates[selected_template(templates, command.fields)].defaults,
            idents,
        ) is Ok,
        holds_template(
            tree,
            templates[selected_template(templates, command.fields)].items,
            NodeModel::EndOfInput {
                struct_name: name,
                defaults: templates[selected_template(templates, command.fields)].defaults,
                idents,
            },
        ),
        path_is_taken::<U>(
            tree,
            templates[selected_template(templates, command.fields)].items,
            token_texts::<U>(
                templates[selected_template(templates, command.fields)].items,
                command.fields,
            )->0,
            command,
        ),
    ensures
        parse_model::<U>(tree, render_model::<U>(templates, command.fields)->0) == Ok::<
            CommandModel<U::Model>,
            Seq<char>,
        >(command),
{
    let i = selected_template(templates, command.fields);
    lemma_selected_template(templates, command.fields);
    lemma_made_by_template(templates[i].items, templates[i].defaults, idents, command.fields);
    lemma_round_trip::<U>(
        tree,
        templates[i].items,
        name,
        templates[i].defaults,
        idents,
        command,
    );
}

/// A word reads back: from a word that is not empty and holds no space, alone
/// or with a space and `rest` behind it, the read gives the word and leaves
/// nothing, or `rest`.
pub proof fn lemma_word_reads_back<U: CommandParse>(word: Seq<char>, rest: Seq<char>)
    requires
        word.len() > 0,
        !word.contains(' '),
    ensures
        parse_value_model::<U>(ValueType::Word, word) == Ok::<
            (Seq<char>, ValueModel<U::Model>),
            Seq<char>,
        >((Seq::empty(), ValueModel::Word(word))),
        parse_value_model::<U>(ValueType::Word, word + seq![' '] + rest) == Ok::<
            (Seq<char>, ValueModel<U::Model>),
            Seq<char>,
        >((rest, ValueModel::Word(word))),
{
    lemma_split_word(word);
    lemma_split_joined(word, rest);
}

/// Whether the way of a template through a tree has no other branches: each
/// capture on it is the only node that follows its parent, and the end of
/// the template is the only node that follows its last token.
pub open spec fn plain_path<M>(tree: TreeModel<M>, items: Seq<NodeModel<M>>) -> bool {
    &&& forall|k: int|
        0 <= k < items.len() && items[k] is Function ==> (#[trigger] node_at(
            tree,
            items,
            k,
        )).options.len() == 1
    &&& node_at(tree, items, items.len() as int).options.len() == 1
}

/// Whether the token at position `k` reads back from its text: a keyword
/// holds no space; a captured word is not empty and holds no space; a
/// captured integer is the last token.
pub open spec fn reads_back<M>(
    items: Seq<NodeModel<M>>,
    fields: Seq<(Seq<char>, ValueModel<M>)>,
    k: int,
) -> bool {
    match items[k] {
        NodeModel::Literal(word) => !word.contains(' '),
        NodeModel::Function { name, binding } => match (name, lookup(fields, binding)) {
            (ValueType::Word, Some(ValueModel::Word(word))) => word.len() > 0 && !word.contains(
                ' ',
            ),
            (ValueType::Integer, Some(ValueModel::Integer(n))) => k == items.len() - 1,
            _ => false,
        },
        _ => false,
    }
}

/// Whether every token of a template reads back from its text.
pub open spec fn values_read_back<M>(
    items: Seq<NodeModel<M>>,
    fields: Seq<(Seq<char>, ValueModel<M>)>,
) -> bool {
    forall|k: int| 0 <= k < items.len() ==> #[trigger] reads_back(items, fields, k)
}

/// Tokens that each have a text have their texts.
pub proof fn lemma_token_texts_exist<U: CommandParse>(
    items: Seq<NodeModel<U::Model>>,
    fields: Seq<(Seq<char>, ValueModel<U::Model>)>,
)
    requires
        forall|k: int| 0 <= k < items.len() ==> token_text::<U>(#[trigger] items[k], fields) is Some,
    ensures
        token_texts::<U>(items, fields) is Some,
    decreases items.len(),
{
    if items.len() > 0 {
        assert forall|k: int| 0 <= k < items.drop_last().len() implies token_text::<U>(
            #[trigger] items.drop_last()[k],
            fields,
        ) is Some by {
            assert(items.drop_last()[k] == items[k]);
        }
        lemma_token_texts_exist::<U>(items.drop_last(), fields);
        assert(token_text::<U>(items[items.len() - 1], fields) is Some);
    }
}

/// Round trip on a way without branches. Let a tree hold a template whose
/// way has no other branches, and let a command be one that the template
/// makes. Where the keywords of the template hold no space, each captured
/// word is not empty and holds no space, and a captured integer stands last,
/// the template renders the command, and parsing the rendered text gives the
/// command back.
pub proof fn lemma_round_trip_plain<U: CommandParse>(
    tree: TreeModel<U::Model>,
    items: Seq<NodeModel<U::Model>>,
    name: Seq<char>,
    defaults: Seq<(Seq<char>, ValueModel<U::Model>)>,
    idents: Seq<Seq<char>>,
    command: CommandModel<U::Model>,
)
    requires
        holds_template(
            tree,
            items,
            NodeModel::EndOfInput { struct_name: name, defaults, idents },
        ),
        command.name == name,
        fill_fields(idents, captured(items, command.fields), defaults) == Some(command.fields),
        plain_path(tree, items),
        values_read_back(items, command.fields),
    ensures
        render_template_model::<U>(items, command.fields) is Some,
        parse_model::<U>(tree, render_template_model::<U>(items, command.fields)->0) == Ok::<
            CommandModel<U::Model>,
            Seq<char>,
        >(command),
{
    let sp = seq![' '];
    let fields = command.fields;
    let terminal = NodeModel::EndOfInput { struct_name: name, defaults, idents };
    assert forall|k: int| 0 <= k < items.len() implies token_text::<U>(
        #[trigger] items[k],
        fields,
    ) is Some by {
        assert(reads_back(items, fields, k));
    }
    lemma_token_texts_exist::<U>(items, fields);
    lemma_token_texts::<U>(items, fields);
    lemma_holds_template_path(tree, items, terminal);
    let parts = token_texts::<U>(items, fields)->0;
    assert forall|k: int| 0 <= k <= items.len() implies #[trigger] step_is_taken::<U>(
        tree,
        items,
        parts,
        command,
        k,
    ) by {
        let node = node_at(tree, items, k);
        let text = joined(parts.skip(k), sp);
        let env = captured(items.take(k), fields);
        let l = child_index(node.options, NodeModel::Literal(first_word(text)));
        lemma_child_index(node.options, NodeModel::Literal(first_word(text)));
        if k == items.len() {
            lemma_terminal_index(node.options);
            assert(node.options[0].payload == terminal);
        } else {
            assert(reads_back(items, fields, k));
            lemma_joined_step(parts, sp, k);
            assert(token_text::<U>(items[k], fields) == Some(parts[k]));
            match items[k] {
                NodeModel::Function { name: kind, binding } => {
                    lemma_child_index(node.options, items[k]);
                    assert(node.options[0].payload == items[k]);
                    let next = joined(parts.skip(k + 1), sp);
                    match lookup(fields, binding) {
                        Some(ValueModel::Word(word)) => {
                            lemma_word_reads_back::<U>(word, next);
                            if k == items.len() - 1 {
                                assert(parts.skip(k + 1) =~= Seq::<Seq<char>>::empty());
                            }
                        },
                        Some(ValueModel::Integer(n)) => {
                            assert(parts.skip(k + 1) =~= Seq::<Seq<char>>::empty());
                            lemma_integer_reads_back(n, Seq::empty());
                            assert(parts[k] + Seq::<char>::empty() =~= parts[k]);
                        },
                        _ => {},
                    }
                },
                _ => {},
            }
        }
    }
    lemma_round_trip::<U>(tree, items, name, defaults, idents, command);
}

/// After the templates of a command were added to a tree with success, the
/// tree holds each of them, each is consistent with the fields of the
/// command, and the tree holds every template that it held before.
pub proof fn lemma_insert_all_holds<M>(
    tree: TreeModel<M>,
    templates: Seq<TemplateModel<M>>,
    name: Seq<char>,
    idents: Seq<Seq<char>>,
)
    requires
        insert_all_model(tree, templates, name, idents) is Ok,
    ensures
        forall|t: int|
            0 <= t < templates.len() ==> {
                &&& template_check(
                    (#[trigger] templates[t]).items,
                    templates[t].defaults,
                    idents,
                ) is Ok
                &&& holds_template(
                    insert_all_model(tree, templates, name, idents)->Ok_0,
                    templates[t].items,
                    NodeModel::EndOfInput {
                        struct_name: name,
                        defaults: templates[t].defaults,
                        idents,
                    },
                )
            },
        forall|other: Seq<NodeModel<M>>, other_terminal: NodeModel<M>|
            holds_template(tree, other, other_terminal) ==> #[trigger] holds_template(
                insert_all_model(tree, templates, name, idents)->Ok_0,
                other,
                other_terminal,
            ),
        tree_wf(tree) ==> tree_wf(insert_all_model(tree, templates, name, idents)->Ok_0),
    decreases templates.len(),
{
    if templates.len() > 0 {
        let shorter = templates.drop_last();
        let last = templates.last();
        let mid = insert_all_model(tree, shorter, name, idents)->Ok_0;
        let grown = insert_all_model(tree, templates, name, idents)->Ok_0;
        lemma_insert_all_holds(tree, shorter, name, idents);
        lemma_insert_outcome_holds(mid, last.items, name, last.defaults, idents);
        lemma_insert_outcome_wf(mid, last.items, name, last.defaults, idents);
        assert forall|t: int| 0 <= t < templates.len() implies {
            &&& template_check((#[trigger] templates[t]).items, templates[t].defaults, idents) is Ok
            &&& holds_template(
                grown,
                templates[t].items,
                NodeModel::EndOfInput { struct_name: name, defaults: templates[t].defaults, idents },
            )
        } by {
            if t < templates.len() - 1 {
                assert(shorter[t] == templates[t]);
            }
        }
    }
}

/// What the declarations of a module build is a well-formed tree that holds
/// every template of every command that they build.
pub proof fn lemma_compile_items_held<M>(items: Seq<ItemModel<M>>)
    requires
        compile_items_model(items) is Ok,
    ensures
        tree_wf(compile_items_model(items)->Ok_0.0),
        forall|v: int|
            0 <= v < compile_items_model(items)->Ok_0.1.len() ==> variant_held(
                compile_items_model(items)->Ok_0.0,
                #[trigger] compile_items_model(items)->Ok_0.1[v],
            ),
    decreases items.len(),
{
    if items.len() > 0 {
        lemma_compile_items_held(items.drop_last());
        let (tree, variants) = compile_items_model(items.drop_last())->Ok_0;
        let (grown, all) = compile_items_model(items)->Ok_0;
        assert(tree_wf(tree));
        match items.last() {
            ItemModel::Struct { name, fields, templates } => {
                let named = struct_fields(fields)->Ok_0;
                let read = read_templates_model(templates, named)->Ok_0;
                lemma_insert_all_holds(tree, read, name, field_names(named));
                assert forall|v: int| 0 <= v < all.len() implies variant_held(
                    grown,
                    #[trigger] all[v],
                ) by {
                    if v < variants.len() {
                        assert(all[v] == variants[v]);
                        assert(variant_held(tree, variants[v]));
                    }
                }
            },
            _ => {},
        }
    }
}

/// A family that was built is well formed.
pub proof fn lemma_compiled_family_wf<M>(args: nat, items: Seq<ItemModel<M>>)
    requires
        compile_model(args, items) is Ok,
    ensures
        family_wf(compile_model(args, items)->Ok_0),
{
    lemma_compile_items_held(items);
}

/// The template that renders `command` in a family with the commands
/// `variants`: of the command of that name, the first template whose
/// defaults agree with the fields of `command`.
pub open spec fn rendering_template<M>(
    variants: Seq<VariantModel<M>>,
    command: CommandModel<M>,
) -> TemplateModel<M> {
    let variant = variants[variant_index(variants, command.name)];
    variant.templates[selected_template(variant.templates, command.fields)]
}

/// Round trip in a family. Let a family be well formed, let a command have
/// the name and the fields of one of its commands, and let the family render
/// it. Where the parser, on the rendered text, takes the way of the template
/// that rendered it or another way to the same command at every node of
/// that way, parsing the rendered text gives the command back.
pub proof fn lemma_family_round_trip<U: CommandParse>(
    family: FamilyModel<U::Model>,
    command: CommandModel<U::Model>,
)
    requires
        family_wf(family),
        render_command_model::<U>(family.variants, command) is Some,
        default_names(command.fields) == field_names(
            family.variants[variant_index(family.variants, command.name)].fields,
        ),
        path_is_taken::<U>(
            family.tree,
            rendering_template(family.variants, command).items,
            token_texts::<U>(
                rendering_template(family.variants, command).items,
                command.fields,
            )->0,
            command,
        ),
    ensures
        parse_model::<U>(family.tree, render_command_model::<U>(family.variants, command)->0)
            == Ok::<CommandModel<U::Model>, Seq<char>>(command),
{
    let v = variant_index(family.variants, command.name);
    lemma_variant_index(family.variants, command.name);
    let variant = family.variants[v];
    assert(variant_held(family.tree, variant));
    lemma_selected_template(variant.templates, command.fields);
    lemma_render_round_trip::<U>(
        family.tree,
        variant.templates,
        variant.name,
        field_names(variant.fields),
        command,
    );
}

/// The number of nodes of a tree, the tree's own node counted.
pub open spec fn node_count<M>(tree: TreeModel<M>) -> nat
    decreases tree, 1int,
{
    1 + count_all(tree.options)
}

/// The number of nodes of all of `trees`.
pub open spec fn count_all<M>(trees: Seq<TreeModel<M>>) -> nat
    decreases trees, 0int,
{
    if trees.len() == 0 {
        0
    } else {
        count_all(trees.drop_last()) + node_count(trees.last())
    }
}

/// How many of the tokens `items`, from the first on, are on a way through
/// `tree` already.
pub open spec fn shared_len<M>(tree: TreeModel<M>, items: Seq<NodeModel<M>>) -> nat
    decreases items.len(),
{
    if items.len() == 0 {
        0
    } else {
        let i = child_index(tree.options, items[0]);
        if 0 <= i < tree.options.len() {
            1 + shared_len(tree.options[i], items.skip(1))
        } else {
            0
        }
    }
}

/// Replacing one of `trees` changes the number of nodes by the difference
/// between the two.
pub proof fn lemma_count_all_update<M>(trees: Seq<TreeModel<M>>, i: int, tree: TreeModel<M>)
    requires
        0 <= i < trees.len(),
    ensures
        count_all(trees.update(i, tree)) + node_count(trees[i]) == count_all(trees) + node_count(
            tree,
        ),
    decreases trees.len(),
{
    let changed = trees.update(i, tree);
    if i == trees.len() - 1 {
        assert(changed.drop_last() =~= trees.drop_last());
    } else {
        lemma_count_all_update(trees.drop_last(), i, tree);
        assert(changed.drop_last() =~= trees.drop_last().update(i, tree));
    }
}

/// Shared prefixes. Adding a template to a tree adds one node for its end
/// and one for each of its tokens that is not yet on its way: the tokens
/// that the tree shares with templates it holds are not added again.
pub proof fn lemma_insert_shares_prefix<M>(
    tree: TreeModel<M>,
    items: Seq<NodeModel<M>>,
    terminal: NodeModel<M>,
)
    ensures
        node_count(insert_model(tree, items, terminal)) + shared_len(tree, items) == node_count(
            tree,
        ) + items.len() + 1,
    decreases items.len(),
{
    let grown = insert_model(tree, items, terminal);
    assert(count_all(Seq::<TreeModel<M>>::empty()) == 0);
    if items.len() == 0 {
        assert(grown.options.drop_last() =~= tree.options);
        assert(node_count(leaf(terminal)) == 1);
    } else {
        let i = child_index(tree.options, items[0]);
        let rest = items.skip(1);
        lemma_child_index(tree.options, items[0]);
        if i < tree.options.len() {
            lemma_insert_shares_prefix(tree.options[i], rest, terminal);
            lemma_count_all_update(
                tree.options,
                i,
                insert_model(tree.options[i], rest, terminal),
            );
        } else {
            lemma_insert_shares_prefix(leaf(items[0]), rest, terminal);
            assert(node_count(leaf(items[0])) == 1);
            assert(shared_len(leaf(items[0]), rest) == 0);
            assert(grown.options.drop_last() =~= tree.options);
        }
    }
}

/// Adding a path of tokens with its end below a well-formed tree, where no
/// template ends at the end of that path yet, gives a well-formed tree.
pub proof fn lemma_insert_wf<M>(
    tree: TreeModel<M>,
    items: Seq<NodeModel<M>>,
    terminal: NodeModel<M>,
)
    requires
        tree_wf(tree),
        all_tokens(items),
        terminal is EndOfInput,
        !terminal_at(tree, items),
    ensures
        tree_wf(insert_model(tree, items, terminal)),
    decreases items.len(),
{
    let grown = insert_model(tree, items, terminal);
    if items.len() == 0 {
        assert(tree_wf(leaf(terminal)));
        assert forall|a: int, b: int| 0 <= a < b < grown.options.len() implies {
            &&& (#[trigger] grown.options[a]).payload != (#[trigger] grown.options[b]).payload
            &&& !(grown.options[a].payload is EndOfInput && grown.options[b].payload is EndOfInput)
        } by {
            assert(grown.options[a] == tree.options[a]);
            if b < tree.options.len() {
                assert(grown.options[b] == tree.options[b]);
            }
        }
        assert forall|i: int| 0 <= i < grown.options.len() implies {
            &&& !((#[trigger] grown.options[i]).payload is Pass)
            &&& grown.options[i].payload is EndOfInput ==> grown.options[i].options.len() == 0
            &&& tree_wf(grown.options[i])
        } by {
            if i < tree.options.len() {
                assert(grown.options[i] == tree.options[i]);
            }
        }
    } else {
        let i = child_index(tree.options, items[0]);
        let rest = items.skip(1);
        lemma_child_index(tree.options, items[0]);
        assert(items[0].is_token());
        assert forall|j: int| 0 <= j < rest.len() implies (#[trigger] rest[j]).is_token() by {
            assert(items[j + 1].is_token());
        }
        if i < tree.options.len() {
            lemma_insert_payload(tree.options[i], rest, terminal);
            lemma_insert_wf(tree.options[i], rest, terminal);
            assert forall|a: int, b: int| 0 <= a < b < grown.options.len() implies {
                &&& (#[trigger] grown.options[a]).payload != (#[trigger] grown.options[b]).payload
                &&& !(grown.options[a].payload is EndOfInput
                    && grown.options[b].payload is EndOfInput)
            } by {
                assert(grown.options[a].payload == tree.options[a].payload);
                assert(grown.options[b].payload == tree.options[b].payload);
            }
            assert forall|j: int| 0 <= j < grown.options.len() implies {
                &&& !((#[trigger] grown.options[j]).payload is Pass)
                &&& grown.options[j].payload is EndOfInput ==> grown.options[j].options.len() == 0
                &&& tree_wf(grown.options[j])
            } by {
                if j != i {
                    assert(grown.options[j] == tree.options[j]);
                } else {
                    assert(!(tree.options[i].payload is Pass));
                }
            }
        } else {
            lemma_insert_payload(leaf(items[0]), rest, terminal);
            assert(tree_wf(leaf(items[0])));
            assert(!terminal_at(leaf(items[0]), rest));
            lemma_insert_wf(leaf(items[0]), rest, terminal);
            assert forall|a: int, b: int| 0 <= a < b < grown.options.len() implies {
                &&& (#[trigger] grown.options[a]).payload != (#[trigger] grown.options[b]).payload
                &&& !(grown.options[a].payload is EndOfInput
                    && grown.options[b].payload is EndOfInput)
            } by {
                assert(grown.options[a] == tree.options[a]);
                if b < tree.options.len() {
                    assert(grown.options[b] == tree.options[b]);
                }
            }
            assert forall|j: int| 0 <= j < grown.options.len() implies {
                &&& !((#[trigger] grown.options[j]).payload is Pass)
                &&& grown.options[j].payload is EndOfInput ==> grown.options[j].options.len() == 0
                &&& tree_wf(grown.options[j])
            } by {
                if j < tree.options.len() {
                    assert(grown.options[j] == tree.options[j]);
                }
            }
        }
    }
}

/// Adding a template to a well-formed tree with success gives a well-formed
/// tree.
pub proof fn lemma_insert_outcome_wf<M>(
    tree: TreeModel<M>,
    items: Seq<NodeModel<M>>,
    struct_name: Seq<char>,
    defaults: Seq<(Seq<char>, ValueModel<M>)>,
    idents: Seq<Seq<char>>,
)
    ensures
        match insert_outcome(tree, items, struct_name, defaults, idents) {
            Ok(grown) => tree_wf(tree) ==> tree_wf(grown),
            Err(_) => true,
        },
{
    if insert_outcome(tree, items, struct_name, defaults, idents) is Ok && tree_wf(tree) {
        lemma_insert_wf(tree, items, NodeModel::EndOfInput { struct_name, defaults, idents });
    }
}

} // verus!
