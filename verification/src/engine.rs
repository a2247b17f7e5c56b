//! The parser: a walk of the decision tree along the input.

use crate::capture::CommandParse;
use crate::parse_tree::child_index;
use crate::parse_tree::default_models;
use crate::parse_tree::find_child;
use crate::parse_tree::name_models;
use crate::parse_tree::tree_models;
use crate::parse_tree::NodeModel;
use crate::parse_tree::ParseNode;
use crate::parse_tree::ParseTree;
use crate::parse_tree::TreeModel;
use crate::text::after_first_word;
use crate::text::first_word;
use crate::text::parse_str;
use crate::value::clone_value;
use crate::value::parse_value;
use crate::value::parse_value_model;
use crate::value::Value;
use crate::value::ValueModel;
use vstd::prelude::*;

verus! {

/// A command: its name and the values of its fields, in the order in which
/// the command declares them.
#[derive(Debug, PartialEq, Eq)]
pub struct Command<U> {
    pub name: String,
    pub fields: Vec<(String, Value<U>)>,
}

/// What a `Command` stands for.
pub struct CommandModel<M> {
    pub name: Seq<char>,
    pub fields: Seq<(Seq<char>, ValueModel<M>)>,
}

impl<U: CommandParse> Command<U> {
    /// What the command stands for.
    pub open spec fn model(&self) -> CommandModel<U::Model> {
        CommandModel { name: self.name@, fields: default_models(self.fields@) }
    }
}

/// The value that `pairs` give to `name`: that of the last pair of that name.
pub open spec fn lookup<V>(pairs: Seq<(Seq<char>, V)>, name: Seq<char>) -> Option<V>
    decreases pairs.len(),
{
    if pairs.len() == 0 {
        None
    } else if pairs.last().0 == name {
        Some(pairs.last().1)
    } else {
        lookup(pairs.drop_last(), name)
    }
}

/// The value of the field `name` at the end of a template: what was captured
/// for it, else its default.
pub open spec fn field_value<M>(
    env: Seq<(Seq<char>, ValueModel<M>)>,
    defaults: Seq<(Seq<char>, ValueModel<M>)>,
    name: Seq<char>,
) -> Option<ValueModel<M>> {
    match lookup(env, name) {
        Some(v) => Some(v),
        None => lookup(defaults, name),
    }
}

/// The fields `idents` with their values, where each has one.
pub open spec fn fill_fields<M>(
    idents: Seq<Seq<char>>,
    env: Seq<(Seq<char>, ValueModel<M>)>,
    defaults: Seq<(Seq<char>, ValueModel<M>)>,
) -> Option<Seq<(Seq<char>, ValueModel<M>)>>
    decreases idents.len(),
{
    if idents.len() == 0 {
        Some(Seq::empty())
    } else {
        match (
            fill_fields(idents.drop_last(), env, defaults),
            field_value(env, defaults, idents.last()),
        ) {
            (Some(fields), Some(v)) => Some(fields.push((idents.last(), v))),
            _ => None,
        }
    }
}

/// The position of the first of `options` that ends a template, or their
/// number where none does.
pub open spec fn terminal_index<M>(options: Seq<TreeModel<M>>) -> int
    decreases options.len(),
{
    if options.len() == 0 || options[0].payload is EndOfInput {
        0
    } else {
        1 + terminal_index(options.skip(1))
    }
}

/// `terminal_index` is the least position that ends a template, and lies
/// within `options` or at their end.
pub proof fn lemma_terminal_index<M>(options: Seq<TreeModel<M>>)
    ensures
        0 <= terminal_index(options) <= options.len(),
        forall|j: int| 0 <= j < terminal_index(options) ==> !(options[j].payload is EndOfInput),
        terminal_index(options) < options.len() ==> options[terminal_index(
            options,
        )].payload is EndOfInput,
    decreases options.len(),
{
    if options.len() == 0 || options[0].payload is EndOfInput {
    } else {
        lemma_terminal_index(options.skip(1));
        assert forall|j: int| 0 <= j < terminal_index(options) implies !(
        options[j].payload is EndOfInput) by {
            if j > 0 {
                assert(options.skip(1)[j - 1] == options[j]);
            }
        }
    }
}

/// What a node gives once none of its branches has led to a command. A node
/// at which a template ends gives that template's command where the input is
/// used up, and else reports the input; any other node reports `err`.
pub open spec fn finish_model<M>(
    tree: TreeModel<M>,
    input: Seq<char>,
    env: Seq<(Seq<char>, ValueModel<M>)>,
    err: Seq<char>,
) -> Result<CommandModel<M>, Seq<char>> {
    let t = terminal_index(tree.options);
    if t < tree.options.len() {
        match tree.options[t].payload {
            NodeModel::EndOfInput { struct_name, defaults, idents } => {
                match fill_fields(idents, env, defaults) {
                    Some(fields) => if input.len() == 0 {
                        Ok(CommandModel { name: struct_name, fields })
                    } else {
                        Err(input)
                    },
                    None => Err(input),
                }
            },
            _ => Err(input),
        }
    } else {
        Err(err)
    }
}

/// What parsing `input` at the node `tree` gives, with the fields in `env`
/// bound so far. Where the first word of the input is a keyword that follows
/// the node, the walk goes on there and nowhere else. Otherwise the captures
/// that follow the node are tried in their order on the whole input.
pub open spec fn parse_tree_model<U: CommandParse>(
    tree: TreeModel<U::Model>,
    input: Seq<char>,
    env: Seq<(Seq<char>, ValueModel<U::Model>)>,
) -> Result<CommandModel<U::Model>, Seq<char>>
    decreases tree, 1int, 0int,
{
    let i = child_index(tree.options, NodeModel::Literal(first_word(input)));
    if 0 <= i < tree.options.len() {
        parse_tree_model::<U>(tree.options[i], after_first_word(input), env)
    } else {
        parse_captures_model::<U>(tree, 0, input, env, input)
    }
}

/// What the captures that follow `tree` from position `from` on give. A
/// capture whose value can be read binds it and walks on with what is left;
/// where that walk fails, or no value can be read, the next capture is tried.
/// `err` is what the last failed walk reported.
pub open spec fn parse_captures_model<U: CommandParse>(
    tree: TreeModel<U::Model>,
    from: int,
    input: Seq<char>,
    env: Seq<(Seq<char>, ValueModel<U::Model>)>,
    err: Seq<char>,
) -> Result<CommandModel<U::Model>, Seq<char>>
    decreases tree, 0int, tree.options.len() - from,
{
    if from < 0 || from >= tree.options.len() {
        finish_model(tree, input, env, err)
    } else {
        match tree.options[from].payload {
            NodeModel::Function { name, binding } => match parse_value_model::<U>(name, input) {
                Ok((rest, v)) => match parse_tree_model::<U>(
                    tree.options[from],
                    rest,
                    env.push((binding, v)),
                ) {
                    Ok(command) => Ok(command),
                    Err(e) => parse_captures_model::<U>(tree, from + 1, input, env, e),
                },
                Err(_) => parse_captures_model::<U>(tree, from + 1, input, env, err),
            },
            _ => parse_captures_model::<U>(tree, from + 1, input, env, err),
        }
    }
}

/// What parsing the whole of `input` with `tree` gives: the command of the
/// first template that the walk completes, or the text that the walk reports
/// as unconsumed.
pub open spec fn parse_model<U: CommandParse>(tree: TreeModel<U::Model>, input: Seq<char>) -> Result<
    CommandModel<U::Model>,
    Seq<char>,
> {
    parse_tree_model::<U>(tree, input, Seq::empty())
}

/// The value that `pairs` give to `name`.
pub fn lookup_value<'a, U: CommandParse>(pairs: &'a Vec<(String, Value<U>)>, name: &String) -> (r:
    Option<&'a Value<U>>)
    ensures
        match r {
            Some(v) => lookup(default_models(pairs@), name@) == Some(v.model()),
            None => lookup(default_models(pairs@), name@) is None,
        },
{
    let ghost all = default_models(pairs@);
    let mut i: usize = pairs.len();
    proof {
        assert(all.take(i as int) =~= all);
    }
    while i > 0
        invariant
            i <= pairs@.len(),
            all == default_models(pairs@),
            lookup(all, name@) == lookup(all.take(i as int), name@),
        decreases i,
    {
        proof {
            assert(all.take(i as int).drop_last() =~= all.take(i - 1));
            assert(all.take(i as int).last() == (pairs@[i - 1].0@, pairs@[i - 1].1.model()));
        }
        if pairs[i - 1].0 == *name {
            return Some(&pairs[i - 1].1);
        }
        i -= 1;
    }
    None
}

/// The fields `idents` with their values: what `env` holds for each, else
/// what `defaults` hold. Nothing where a field has no value.
pub fn build_fields<U: CommandParse>(
    idents: &Vec<String>,
    env: &Vec<(String, Value<U>)>,
    defaults: &Vec<(String, Value<U>)>,
) -> (r: Option<Vec<(String, Value<U>)>>)
    ensures
        match r {
            Some(fields) => fill_fields(
                name_models(idents@),
                default_models(env@),
                default_models(defaults@),
            ) == Some(default_models(fields@)),
            None => fill_fields(
                name_models(idents@),
                default_models(env@),
                default_models(defaults@),
            ) is None,
        },
{
    let ghost names = name_models(idents@);
    let ghost bound = default_models(env@);
    let ghost given = default_models(defaults@);
    let mut fields: Vec<(String, Value<U>)> = Vec::new();
    let mut i: usize = 0;
    proof {
        assert(default_models(fields@) =~= Seq::empty());
    }
    while i < idents.len()
        invariant
            i <= idents@.len(),
            names == name_models(idents@),
            bound == default_models(env@),
            given == default_models(defaults@),
            fill_fields(names.take(i as int), bound, given) == Some(default_models(fields@)),
        ensures
            i == idents@.len(),
        decreases idents@.len() - i,
    {
        proof {
            assert(names.take(i + 1).drop_last() =~= names.take(i as int));
            assert(names.take(i + 1).last() == idents@[i as int]@);
        }
        let found = match lookup_value(env, &idents[i]) {
            Some(v) => Some(v),
            None => lookup_value(defaults, &idents[i]),
        };
        match found {
            Some(v) => {
                let ghost before = fields@;
                let copy = clone_value(v);
                fields.push((idents[i].clone(), copy));
                proof {
                    assert(default_models(fields@) =~= default_models(before).push(
                        (idents@[i as int]@, v.model()),
                    ));
                }
            },
            None => {
                proof {
                    lemma_fill_fields_prefix(names, bound, given, i + 1);
                }
                return None;
            },
        }
        i += 1;
    }
    proof {
        assert(names.take(i as int) =~= names);
    }
    Some(fields)
}

/// Where the fields up to some position cannot all be given a value, all of
/// them cannot.
pub proof fn lemma_fill_fields_prefix<M>(
    idents: Seq<Seq<char>>,
    env: Seq<(Seq<char>, ValueModel<M>)>,
    defaults: Seq<(Seq<char>, ValueModel<M>)>,
    k: int,
)
    requires
        0 <= k <= idents.len(),
        fill_fields(idents.take(k), env, defaults) is None,
    ensures
        fill_fields(idents, env, defaults) is None,
    decreases idents.len() - k,
{
    if k == idents.len() {
        assert(idents.take(k) =~= idents);
    } else {
        assert(idents.take(k + 1).drop_last() =~= idents.take(k));
        lemma_fill_fields_prefix(idents, env, defaults, k + 1);
    }
}

/// The position of the first of `options` that ends a template.
pub fn find_terminal<U: CommandParse>(options: &Vec<ParseTree<U>>) -> (r: Option<usize>)
    ensures
        match r {
            Some(i) => i < options@.len() && i == terminal_index(tree_models(options@)),
            None => terminal_index(tree_models(options@)) == options@.len(),
        },
{
    let mut i: usize = 0;
    while i < options.len()
        invariant
            i <= options@.len(),
            forall|j: int| 0 <= j < i ==> !(tree_models(options@)[j].payload is EndOfInput),
        decreases options@.len() - i,
    {
        proof {
            assert(tree_models(options@)[i as int].payload == options@[i as int].payload.model());
            lemma_terminal_index(tree_models(options@));
        }
        match &options[i].payload {
            ParseNode::EndOfInput { .. } => {
                return Some(i);
            },
            _ => {},
        }
        i += 1;
    }
    proof {
        lemma_terminal_index(tree_models(options@));
    }
    None
}

/// What a node gives once none of its branches has led to a command.
pub fn finish<'a, U: CommandParse>(
    tree: &ParseTree<U>,
    input: &'a str,
    env: &Vec<(String, Value<U>)>,
    err: &'a str,
) -> (r: Result<Command<U>, &'a str>)
    ensures
        match r {
            Ok(command) => finish_model(tree.model(), input@, default_models(env@), err@) == Ok::<
                CommandModel<U::Model>,
                Seq<char>,
            >(command.model()),
            Err(rest) => finish_model(tree.model(), input@, default_models(env@), err@) == Err::<
                CommandModel<U::Model>,
                Seq<char>,
            >(rest@),
        },
{
    proof {
        assert(tree.model().options =~= tree_models(tree.options@));
    }
    match find_terminal(&tree.options) {
        Some(t) => {
            proof {
                assert(tree.model().options[t as int].payload == tree.options@[t as int].payload.model());
            }
            match &tree.options[t].payload {
                ParseNode::EndOfInput { struct_name, defaults, idents } => {
                    match build_fields(idents, env, defaults) {
                        Some(fields) => {
                            if input.is_empty() {
                                Ok(Command { name: struct_name.clone(), fields })
                            } else {
                                Err(input)
                            }
                        },
                        None => Err(input),
                    }
                },
                _ => Err(input),
            }
        },
        None => Err(err),
    }
}

/// Parses `input` at the node `tree`, with the fields in `env` bound so far.
/// `env` comes back as it was given.
#[verifier::loop_isolation(false)]
pub fn parse_node<'a, U: CommandParse>(
    tree: &ParseTree<U>,
    input: &'a str,
    env: &mut Vec<(String, Value<U>)>,
) -> (r: Result<Command<U>, &'a str>)
    ensures
        final(env)@ == old(env)@,
        match r {
            Ok(command) => parse_tree_model::<U>(tree.model(), input@, default_models(old(env)@))
                == Ok::<CommandModel<U::Model>, Seq<char>>(command.model()),
            Err(rest) => parse_tree_model::<U>(tree.model(), input@, default_models(old(env)@))
                == Err::<CommandModel<U::Model>, Seq<char>>(rest@),
        },
    decreases tree,
{
    let ghost bound = default_models(old(env)@);
    proof {
        assert(tree.model().options =~= tree_models(tree.options@));
    }
    let (rest, word) = parse_str(input);
    let keyword = ParseNode::Literal(word.to_owned());
    match find_child(&tree.options, &keyword) {
        Some(i) => {
            return parse_node(&tree.options[i], rest, env);
        },
        None => {},
    }
    let mut err: &'a str = input;
    let mut from: usize = 0;
    while from < tree.options.len()
        invariant
            from <= tree.options@.len(),
            env@ == old(env)@,
            parse_tree_model::<U>(tree.model(), input@, bound) == parse_captures_model::<U>(
                tree.model(),
                from as int,
                input@,
                bound,
                err@,
            ),
        decreases tree.options@.len() - from,
    {
        proof {
            assert(tree.model().options[from as int].payload == tree.options@[from as int].payload.model());
        }
        match &tree.options[from].payload {
            ParseNode::Function { name, binding } => {
                match parse_value::<U>(name, input) {
                    Ok((rest, v)) => {
                        let ghost m = v.model();
                        env.push((binding.clone(), v));
                        proof {
                            assert(default_models(env@) =~= bound.push((binding@, m)));
                        }
                        let walked = parse_node(&tree.options[from], rest, env);
                        env.pop();
                        proof {
                            assert(env@ =~= old(env)@);
                        }
                        match walked {
                            Ok(command) => {
                                return Ok(command);
                            },
                            Err(e) => {
                                err = e;
                            },
                        }
                    },
                    Err(_) => {},
                }
            },
            _ => {},
        }
        from += 1;
    }
    finish(tree, input, env, err)
}

/// Parses the whole of `input` with `tree`: returns the command of the first
/// template that the walk completes, or the text that the walk reports as
/// unconsumed.
pub fn parse_input<'a, U: CommandParse>(tree: &ParseTree<U>, input: &'a str) -> (r: Result<
    Command<U>,
    &'a str,
>)
    ensures
        match r {
            Ok(command) => parse_model::<U>(tree.model(), input@) == Ok::<
                CommandModel<U::Model>,
                Seq<char>,
            >(command.model()),
            Err(rest) => parse_model::<U>(tree.model(), input@) == Err::<
                CommandModel<U::Model>,
                Seq<char>,
            >(rest@),
        },
{
    let mut env: Vec<(String, Value<U>)> = Vec::new();
    proof {
        assert(default_models(env@) =~= Seq::empty());
    }
    parse_node(tree, input, &mut env)
}

} // verus!
