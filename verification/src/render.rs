//! The renderer: from a command back to its text.

use crate::capture::CommandParse;
use crate::engine::lookup;
use crate::engine::lookup_value;
use crate::engine::Command;
use crate::parse_tree::default_models;
use crate::parse_tree::node_models;
use crate::parse_tree::NodeModel;
use crate::parse_tree::ParseNode;
use crate::template::template_models;
use crate::template::ParseAttr;
use crate::template::TemplateModel;
use crate::text::join_texts;
use crate::text::joined;
use crate::text::texts_of;
use crate::value::format_value;
use crate::value::format_value_model;
use crate::value::same_value;
use crate::value::Value;
use crate::value::ValueModel;
use vstd::prelude::*;

verus! {

/// Whether each field that `defaults` name holds, in `fields`, the value that
/// `defaults` give it.
pub open spec fn defaults_agree<M>(
    defaults: Seq<(Seq<char>, ValueModel<M>)>,
    fields: Seq<(Seq<char>, ValueModel<M>)>,
) -> bool {
    forall|i: int|
        0 <= i < defaults.len() ==> lookup(fields, (#[trigger] defaults[i]).0) == Some(
            defaults[i].1,
        )
}

/// The position of the first of `templates` whose defaults agree with
/// `fields`, or their number where none does.
pub open spec fn selected_template<M>(
    templates: Seq<TemplateModel<M>>,
    fields: Seq<(Seq<char>, ValueModel<M>)>,
) -> int
    decreases templates.len(),
{
    if templates.len() == 0 || defaults_agree(templates[0].defaults, fields) {
        0
    } else {
        1 + selected_template(templates.skip(1), fields)
    }
}

/// `selected_template` is the least position whose defaults agree, and lies
/// within `templates` or at their end.
pub proof fn lemma_selected_template<M>(
    templates: Seq<TemplateModel<M>>,
    fields: Seq<(Seq<char>, ValueModel<M>)>,
)
    ensures
        0 <= selected_template(templates, fields) <= templates.len(),
        forall|j: int|
            0 <= j < selected_template(templates, fields) ==> !defaults_agree(
                (#[trigger] templates[j]).defaults,
                fields,
            ),
        selected_template(templates, fields) < templates.len() ==> defaults_agree(
            templates[selected_template(templates, fields)].defaults,
            fields,
        ),
    decreases templates.len(),
{
    if templates.len() == 0 || defaults_agree(templates[0].defaults, fields) {
    } else {
        lemma_selected_template(templates.skip(1), fields);
        assert forall|j: int| 0 <= j < selected_template(templates, fields) implies !defaults_agree(
            (#[trigger] templates[j]).defaults,
            fields,
        ) by {
            if j > 0 {
                assert(templates.skip(1)[j - 1] == templates[j]);
            }
        }
    }
}

/// The text of one token: a keyword as it is, a capture as the text of the
/// value that `fields` hold for it. Nothing for a capture without a value,
/// and for what is no token.
pub open spec fn token_text<U: CommandParse>(
    item: NodeModel<U::Model>,
    fields: Seq<(Seq<char>, ValueModel<U::Model>)>,
) -> Option<Seq<char>> {
    match item {
        NodeModel::Literal(text) => Some(text),
        NodeModel::Function { name, binding } => match lookup(fields, binding) {
            Some(v) => Some(format_value_model::<U>(v)),
            None => None,
        },
        _ => None,
    }
}

/// The texts of the tokens `items`, where each has one.
pub open spec fn token_texts<U: CommandParse>(
    items: Seq<NodeModel<U::Model>>,
    fields: Seq<(Seq<char>, ValueModel<U::Model>)>,
) -> Option<Seq<Seq<char>>>
    decreases items.len(),
{
    if items.len() == 0 {
        Some(Seq::empty())
    } else {
        match (token_texts::<U>(items.drop_last(), fields), token_text::<U>(items.last(), fields)) {
            (Some(parts), Some(part)) => Some(parts.push(part)),
            _ => None,
        }
    }
}

/// The text of a command with the fields `fields`, written after the tokens
/// `items`: the texts of the tokens with one space between each two.
pub open spec fn render_template_model<U: CommandParse>(
    items: Seq<NodeModel<U::Model>>,
    fields: Seq<(Seq<char>, ValueModel<U::Model>)>,
) -> Option<Seq<char>> {
    match token_texts::<U>(items, fields) {
        Some(parts) => Some(joined(parts, seq![' '])),
        None => None,
    }
}

/// The text of a command with the fields `fields`: written after the first of
/// `templates` whose defaults agree with the fields. Nothing where no
/// template agrees, or a capture of that template has no value.
pub open spec fn render_model<U: CommandParse>(
    templates: Seq<TemplateModel<U::Model>>,
    fields: Seq<(Seq<char>, ValueModel<U::Model>)>,
) -> Option<Seq<char>> {
    let i = selected_template(templates, fields);
    if i < templates.len() {
        render_template_model::<U>(templates[i].items, fields)
    } else {
        None
    }
}

/// Whether each field that `defaults` name holds, in `fields`, the value that
/// `defaults` give it.
pub fn defaults_match<U: CommandParse>(
    defaults: &Vec<(String, Value<U>)>,
    fields: &Vec<(String, Value<U>)>,
) -> (r: bool)
    ensures
        r == defaults_agree(default_models(defaults@), default_models(fields@)),
{
    let mut i: usize = 0;
    while i < defaults.len()
        invariant
            i <= defaults@.len(),
            forall|j: int|
                0 <= j < i ==> lookup(
                    default_models(fields@),
                    (#[trigger] default_models(defaults@)[j]).0,
                ) == Some(default_models(defaults@)[j].1),
        decreases defaults@.len() - i,
    {
        proof {
            assert(default_models(defaults@)[i as int] == (
                defaults@[i as int].0@,
                defaults@[i as int].1.model(),
            ));
        }
        let agrees = match lookup_value(fields, &defaults[i].0) {
            Some(v) => same_value(v, &defaults[i].1),
            None => false,
        };
        if !agrees {
            return false;
        }
        i += 1;
    }
    true
}

/// The position of the first of `templates` whose defaults agree with
/// `fields`.
pub fn select_template<U: CommandParse>(
    templates: &Vec<ParseAttr<U>>,
    fields: &Vec<(String, Value<U>)>,
) -> (r: Option<usize>)
    ensures
        match r {
            Some(i) => i < templates@.len() && i == selected_template(
                template_models(templates@),
                default_models(fields@),
            ),
            None => selected_template(template_models(templates@), default_models(fields@))
                == templates@.len(),
        },
{
    let mut i: usize = 0;
    while i < templates.len()
        invariant
            i <= templates@.len(),
            forall|j: int|
                0 <= j < i ==> !defaults_agree(
                    (#[trigger] template_models(templates@)[j]).defaults,
                    default_models(fields@),
                ),
        decreases templates@.len() - i,
    {
        proof {
            lemma_selected_template(template_models(templates@), default_models(fields@));
            assert(template_models(templates@)[i as int].defaults == default_models(
                templates@[i as int].kwargs@,
            ));
        }
        if defaults_match(&templates[i].kwargs, fields) {
            return Some(i);
        }
        i += 1;
    }
    proof {
        lemma_selected_template(template_models(templates@), default_models(fields@));
    }
    None
}

/// Where the tokens up to some position do not all have a text, all of them
/// do not.
pub proof fn lemma_token_texts_prefix<U: CommandParse>(
    items: Seq<NodeModel<U::Model>>,
    fields: Seq<(Seq<char>, ValueModel<U::Model>)>,
    k: int,
)
    requires
        0 <= k <= items.len(),
        token_texts::<U>(items.take(k), fields) is None,
    ensures
        token_texts::<U>(items, fields) is None,
    decreases items.len() - k,
{
    if k == items.len() {
        assert(items.take(k) =~= items);
    } else {
        assert(items.take(k + 1).drop_last() =~= items.take(k));
        lemma_token_texts_prefix::<U>(items, fields, k + 1);
    }
}

/// Writes a command with the fields `fields` after the tokens `items`.
pub fn render_template<U: CommandParse>(
    items: &Vec<ParseNode<U>>,
    fields: &Vec<(String, Value<U>)>,
) -> (r: Option<String>)
    ensures
        match r {
            Some(text) => render_template_model::<U>(node_models(items@), default_models(fields@))
                == Some(text@),
            None => render_template_model::<U>(node_models(items@), default_models(fields@))
                is None,
        },
{
    let ghost all = node_models(items@);
    let ghost held = default_models(fields@);
    let mut parts: Vec<String> = Vec::new();
    let mut i: usize = 0;
    proof {
        assert(texts_of(parts@) =~= Seq::empty());
    }
    while i < items.len()
        invariant
            i <= items@.len(),
            all == node_models(items@),
            held == default_models(fields@),
            token_texts::<U>(all.take(i as int), held) == Some(texts_of(parts@)),
        decreases items@.len() - i,
    {
        proof {
            assert(all.take(i + 1).drop_last() =~= all.take(i as int));
            assert(all.take(i + 1).last() == items@[i as int].model());
        }
        let part = match &items[i] {
            ParseNode::Literal(text) => Some(text.clone()),
            ParseNode::Function { name, binding } => match lookup_value(fields, binding) {
                Some(v) => Some(format_value(v)),
                None => None,
            },
            _ => None,
        };
        match part {
            Some(text) => {
                let ghost before = parts@;
                parts.push(text);
                proof {
                    assert(texts_of(parts@) =~= texts_of(before).push(text@));
                }
            },
            None => {
                proof {
                    lemma_token_texts_prefix::<U>(all, held, i + 1);
                }
                return None;
            },
        }
        i += 1;
    }
    proof {
        assert(all.take(i as int) =~= all);
        reveal_strlit(" ");
        assert(" "@ =~= seq![' ']);
    }
    Some(join_texts(&parts, " "))
}

/// Writes `command` after the first of `templates` whose defaults agree with
/// its fields. Returns nothing where no template agrees, or a capture of that
/// template names a field that the command does not hold.
pub fn try_render<U: CommandParse>(templates: &Vec<ParseAttr<U>>, command: &Command<U>) -> (r:
    Option<String>)
    ensures
        match r {
            Some(text) => render_model::<U>(template_models(templates@), command.model().fields)
                == Some(text@),
            None => render_model::<U>(template_models(templates@), command.model().fields)
                is None,
        },
{
    match select_template(templates, &command.fields) {
        Some(i) => {
            proof {
                assert(template_models(templates@)[i as int].items == node_models(
                    templates@[i as int].parse_template@,
                ));
            }
            render_template(&templates[i].parse_template, &command.fields)
        },
        None => None,
    }
}

/// Writes `command` after the first of `templates` whose defaults agree with
/// its fields.
pub fn render<U: CommandParse>(templates: &Vec<ParseAttr<U>>, command: &Command<U>) -> (r: String)
    requires
        render_model::<U>(template_models(templates@), command.model().fields) is Some,
    ensures
        render_model::<U>(template_models(templates@), command.model().fields) == Some(r@),
{
    match try_render(templates, command) {
        Some(text) => text,
        None => String::new(),
    }
}

} // verus!
