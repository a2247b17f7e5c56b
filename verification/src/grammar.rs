//! A command family: the declarations it is built from, and what building
//! gives: the decision tree and, for each command, its templates.

use crate::capture::CommandParse;
use crate::engine::parse_input;
use crate::engine::parse_model;
use crate::engine::Command;
use crate::engine::CommandModel;
use crate::error::GrammarError;
use crate::laws::holds_template;
use crate::laws::lemma_compiled_family_wf;
use crate::parse_tree::default_models;
use crate::parse_tree::insert_outcome;
use crate::parse_tree::leaf;
use crate::parse_tree::name_models;
use crate::parse_tree::node_models;
use crate::parse_tree::tree_wf;
use crate::parse_tree::NodeModel;
use crate::parse_tree::ParseNode;
use crate::parse_tree::ParseTree;
use crate::parse_tree::TreeModel;
use crate::render::render_model;
use crate::render::try_render;
use crate::template::clone_type;
use crate::template::field_models;
use crate::template::template_check;
use crate::template::template_models;
use crate::template::tokens_of;
use crate::template::words;
use crate::template::ParseAttr;
use crate::template::TemplateModel;
use crate::value::clone_value;
use crate::value::Value;
use crate::value::ValueModel;
use crate::value::ValueType;
use vstd::prelude::*;

verus! {

/// The fields of a declared command.
#[derive(Debug, PartialEq, Eq)]
pub enum FieldsDesc {
    /// Named fields, each with its kind, in the order of the declaration.
    Named(Vec<(String, ValueType)>),
    /// Fields without names.
    Unnamed,
    /// No fields.
    Unit,
}

/// One template as it was declared: its text, and the values it gives to the
/// fields that it does not capture.
#[derive(Debug, PartialEq, Eq)]
pub struct TemplateDesc<U> {
    pub text: String,
    pub defaults: Vec<(String, Value<U>)>,
}

/// A declared command: its name, its fields and its templates.
#[derive(Debug, PartialEq, Eq)]
pub struct StructDesc<U> {
    pub name: String,
    pub fields: FieldsDesc,
    pub templates: Vec<TemplateDesc<U>>,
}

/// One declaration of the module that a family is built from.
#[derive(Debug, PartialEq, Eq)]
pub enum ItemDesc<U> {
    /// An enumeration, with the number of variants it has as declared.
    Enum { name: String, variants: usize },
    /// A command.
    Struct(StructDesc<U>),
    /// Anything else.
    Other,
}

/// A command of a family: its name, its fields and its templates in the
/// order of their declaration.
#[derive(Debug, PartialEq, Eq)]
pub struct CommandVariant<U> {
    pub name: String,
    pub fields: Vec<(String, ValueType)>,
    pub templates: Vec<ParseAttr<U>>,
}

/// A command family, built: the name of its enumeration, the decision tree
/// of all its templates, and its commands in the order of their declaration.
#[derive(Debug, PartialEq, Eq)]
pub struct Family<U> {
    pub name: String,
    pub tree: ParseTree<U>,
    pub variants: Vec<CommandVariant<U>>,
}

/// What a `FieldsDesc` stands for.
pub enum FieldsModel {
    Named(Seq<(Seq<char>, ValueType)>),
    Unnamed,
    Unit,
}

/// What a `TemplateDesc` stands for.
pub struct TemplateDescModel<M> {
    pub text: Seq<char>,
    pub defaults: Seq<(Seq<char>, ValueModel<M>)>,
}

/// What an `ItemDesc` stands for.
pub enum ItemModel<M> {
    Enum { name: Seq<char>, variants: nat },
    Struct { name: Seq<char>, fields: FieldsModel, templates: Seq<TemplateDescModel<M>> },
    Other,
}

/// What a `CommandVariant` stands for.
pub struct VariantModel<M> {
    pub name: Seq<char>,
    pub fields: Seq<(Seq<char>, ValueType)>,
    pub templates: Seq<TemplateModel<M>>,
}

/// What a `Family` stands for.
pub struct FamilyModel<M> {
    pub name: Seq<char>,
    pub tree: TreeModel<M>,
    pub variants: Seq<VariantModel<M>>,
}

impl FieldsDesc {
    /// What the fields stand for.
    pub open spec fn model(&self) -> FieldsModel {
        match self {
            FieldsDesc::Named(fields) => FieldsModel::Named(field_models(fields@)),
            FieldsDesc::Unnamed => FieldsModel::Unnamed,
            FieldsDesc::Unit => FieldsModel::Unit,
        }
    }
}

impl<U: CommandParse> TemplateDesc<U> {
    /// What the declared template stands for.
    pub open spec fn model(&self) -> TemplateDescModel<U::Model> {
        TemplateDescModel { text: self.text@, defaults: default_models(self.defaults@) }
    }
}

/// What each of `descs` stands for.
pub open spec fn template_desc_models<U: CommandParse>(descs: Seq<TemplateDesc<U>>) -> Seq<
    TemplateDescModel<U::Model>,
> {
    Seq::new(descs.len(), |i: int| descs[i].model())
}

impl<U: CommandParse> ItemDesc<U> {
    /// What the declaration stands for.
    pub open spec fn model(&self) -> ItemModel<U::Model> {
        match self {
            ItemDesc::Enum { name, variants } => ItemModel::Enum {
                name: name@,
                variants: *variants as nat,
            },
            ItemDesc::Struct(s) => ItemModel::Struct {
                name: s.name@,
                fields: s.fields.model(),
                templates: template_desc_models(s.templates@),
            },
            ItemDesc::Other => ItemModel::Other,
        }
    }
}

/// What each of `items` stands for.
pub open spec fn item_models<U: CommandParse>(items: Seq<ItemDesc<U>>) -> Seq<ItemModel<U::Model>> {
    Seq::new(items.len(), |i: int| items[i].model())
}

impl<U: CommandParse> CommandVariant<U> {
    /// What the command stands for.
    pub open spec fn model(&self) -> VariantModel<U::Model> {
        VariantModel {
            name: self.name@,
            fields: field_models(self.fields@),
            templates: template_models(self.templates@),
        }
    }
}

/// What each of `variants` stands for.
pub open spec fn variant_models<U: CommandParse>(variants: Seq<CommandVariant<U>>) -> Seq<
    VariantModel<U::Model>,
> {
    Seq::new(variants.len(), |i: int| variants[i].model())
}

impl<U: CommandParse> Family<U> {
    /// What the family stands for.
    pub open spec fn model(&self) -> FamilyModel<U::Model> {
        FamilyModel {
            name: self.name@,
            tree: self.tree.model(),
            variants: variant_models(self.variants@),
        }
    }
}

/// The named fields of a command; a command without fields has none, and
/// one with unnamed fields is refused.
pub open spec fn struct_fields(fields: FieldsModel) -> Result<
    Seq<(Seq<char>, ValueType)>,
    GrammarError,
> {
    match fields {
        FieldsModel::Named(named) => Ok(named),
        FieldsModel::Unnamed => Err(GrammarError::TupleStruct),
        FieldsModel::Unit => Ok(Seq::empty()),
    }
}

/// The names of `fields`, in their order.
pub open spec fn field_names(fields: Seq<(Seq<char>, ValueType)>) -> Seq<Seq<char>> {
    Seq::new(fields.len(), |i: int| fields[i].0)
}

/// The templates that the declared templates `descs` stand for, or the
/// fault of the first that is refused.
pub open spec fn read_templates_model<M>(
    descs: Seq<TemplateDescModel<M>>,
    fields: Seq<(Seq<char>, ValueType)>,
) -> Result<Seq<TemplateModel<M>>, GrammarError>
    decreases descs.len(),
{
    if descs.len() == 0 {
        Ok(Seq::empty())
    } else {
        match read_templates_model(descs.drop_last(), fields) {
            Err(e) => Err(e),
            Ok(templates) => match tokens_of::<M>(words(descs.last().text), fields) {
                Some(items) => Ok(
                    templates.push(TemplateModel { items, defaults: descs.last().defaults }),
                ),
                None => Err(GrammarError::UnknownField),
            },
        }
    }
}

/// The tree after each of `templates` was added to `tree` for the command
/// `name` with the fields `idents`, or the fault of the first that is refused.
pub open spec fn insert_all_model<M>(
    tree: TreeModel<M>,
    templates: Seq<TemplateModel<M>>,
    name: Seq<char>,
    idents: Seq<Seq<char>>,
) -> Result<TreeModel<M>, GrammarError>
    decreases templates.len(),
{
    if templates.len() == 0 {
        Ok(tree)
    } else {
        match insert_all_model(tree, templates.drop_last(), name, idents) {
            Err(e) => Err(e),
            Ok(grown) => insert_outcome(
                grown,
                templates.last().items,
                name,
                templates.last().defaults,
                idents,
            ),
        }
    }
}

/// What the declarations `items` build, one after another: the tree of all
/// templates and the commands that have a template; or the fault of the
/// first declaration that is refused.
pub open spec fn compile_items_model<M>(items: Seq<ItemModel<M>>) -> Result<
    (TreeModel<M>, Seq<VariantModel<M>>),
    GrammarError,
>
    decreases items.len(),
{
    if items.len() == 0 {
        Ok((leaf(NodeModel::Pass), Seq::empty()))
    } else {
        match compile_items_model(items.drop_last()) {
            Err(e) => Err(e),
            Ok((tree, variants)) => match items.last() {
                ItemModel::Struct { name, fields, templates } => match struct_fields(fields) {
                    Err(e) => Err(e),
                    Ok(named) => match read_templates_model(templates, named) {
                        Err(e) => Err(e),
                        Ok(read) => match insert_all_model(tree, read, name, field_names(named)) {
                            Err(e) => Err(e),
                            Ok(grown) => if read.len() > 0 {
                                Ok(
                                    (
                                        grown,
                                        variants.push(
                                            VariantModel { name, fields: named, templates: read },
                                        ),
                                    ),
                                )
                            } else {
                                Ok((grown, variants))
                            },
                        },
                    },
                },
                _ => Ok((tree, variants)),
            },
        }
    }
}

/// Whether `tree` holds every template of the command `variant`, each
/// consistent with the fields of the command.
pub open spec fn variant_held<M>(tree: TreeModel<M>, variant: VariantModel<M>) -> bool {
    forall|t: int|
        0 <= t < variant.templates.len() ==> {
            &&& template_check(
                (#[trigger] variant.templates[t]).items,
                variant.templates[t].defaults,
                field_names(variant.fields),
            ) is Ok
            &&& holds_template(
                tree,
                variant.templates[t].items,
                NodeModel::EndOfInput {
                    struct_name: variant.name,
                    defaults: variant.templates[t].defaults,
                    idents: field_names(variant.fields),
                },
            )
        }
}

/// Whether a family is well formed: its tree is well formed and holds every
/// template of every one of its commands, each consistent with the fields of
/// its command.
pub open spec fn family_wf<M>(family: FamilyModel<M>) -> bool {
    &&& tree_wf(family.tree)
    &&& forall|v: int|
        0 <= v < family.variants.len() ==> variant_held(family.tree, #[trigger] family.variants[v])
}

/// The position of the first enumeration among `items`, or their number
/// where there is none.
pub open spec fn target_enum_index<M>(items: Seq<ItemModel<M>>) -> int
    decreases items.len(),
{
    if items.len() == 0 || items[0] is Enum {
        0
    } else {
        1 + target_enum_index(items.skip(1))
    }
}

/// What building a family from a module gives. `args` is the number of
/// arguments of the module's annotation, `items` are its declarations. The
/// first enumeration of the module receives the commands; it must be there,
/// and empty. A family that is built is well formed.
pub open spec fn compile_model<M>(args: nat, items: Seq<ItemModel<M>>) -> Result<
    FamilyModel<M>,
    GrammarError,
> {
    let target = target_enum_index(items);
    if args > 0 {
        Err(GrammarError::UnexpectedArguments)
    } else if !(0 <= target < items.len()) {
        Err(GrammarError::MissingTargetEnum)
    } else {
        match compile_items_model(items) {
            Err(e) => Err(e),
            Ok((tree, variants)) => match items[target] {
                ItemModel::Enum { name, variants: declared } => if declared > 0 {
                    Err(GrammarError::TargetEnumNotEmpty)
                } else {
                    Ok(FamilyModel { name, tree, variants })
                },
                _ => Err(GrammarError::MissingTargetEnum),
            },
        }
    }
}

/// Where the declared templates up to some position are refused, all of them
/// are, for the same fault.
pub proof fn lemma_read_templates_prefix<M>(
    descs: Seq<TemplateDescModel<M>>,
    fields: Seq<(Seq<char>, ValueType)>,
    k: int,
)
    requires
        0 <= k <= descs.len(),
        read_templates_model(descs.take(k), fields) is Err,
    ensures
        read_templates_model(descs, fields) == read_templates_model(descs.take(k), fields),
    decreases descs.len() - k,
{
    if k == descs.len() {
        assert(descs.take(k) =~= descs);
    } else {
        assert(descs.take(k + 1).drop_last() =~= descs.take(k));
        lemma_read_templates_prefix(descs, fields, k + 1);
    }
}

/// Where the templates up to some position cannot all be added, all of them
/// cannot, for the same fault.
pub proof fn lemma_insert_all_prefix<M>(
    tree: TreeModel<M>,
    templates: Seq<TemplateModel<M>>,
    name: Seq<char>,
    idents: Seq<Seq<char>>,
    k: int,
)
    requires
        0 <= k <= templates.len(),
        insert_all_model(tree, templates.take(k), name, idents) is Err,
    ensures
        insert_all_model(tree, templates, name, idents) == insert_all_model(
            tree,
            templates.take(k),
            name,
            idents,
        ),
    decreases templates.len() - k,
{
    if k == templates.len() {
        assert(templates.take(k) =~= templates);
    } else {
        assert(templates.take(k + 1).drop_last() =~= templates.take(k));
        lemma_insert_all_prefix(tree, templates, name, idents, k + 1);
    }
}

/// Where the declarations up to some position are refused, all of them are,
/// for the same fault.
pub proof fn lemma_compile_items_prefix<M>(items: Seq<ItemModel<M>>, k: int)
    requires
        0 <= k <= items.len(),
        compile_items_model(items.take(k)) is Err,
    ensures
        compile_items_model(items) == compile_items_model(items.take(k)),
    decreases items.len() - k,
{
    if k == items.len() {
        assert(items.take(k) =~= items);
    } else {
        assert(items.take(k + 1).drop_last() =~= items.take(k));
        lemma_compile_items_prefix(items, k + 1);
    }
}

/// `target_enum_index` is the least position of an enumeration, and lies
/// within `items` or at their end.
pub proof fn lemma_target_enum_index<M>(items: Seq<ItemModel<M>>)
    ensures
        0 <= target_enum_index(items) <= items.len(),
        forall|j: int| 0 <= j < target_enum_index(items) ==> !(items[j] is Enum),
        target_enum_index(items) < items.len() ==> items[target_enum_index(items)] is Enum,
    decreases items.len(),
{
    if items.len() == 0 || items[0] is Enum {
    } else {
        lemma_target_enum_index(items.skip(1));
        assert forall|j: int| 0 <= j < target_enum_index(items) implies !(items[j] is Enum) by {
            if j > 0 {
                assert(items.skip(1)[j - 1] == items[j]);
            }
        }
    }
}

/// A copy of named values.
pub fn clone_pairs<U: CommandParse>(pairs: &Vec<(String, Value<U>)>) -> (r: Vec<(String, Value<U>)>)
    ensures
        default_models(r@) == default_models(pairs@),
{
    let mut out: Vec<(String, Value<U>)> = Vec::new();
    let mut i: usize = 0;
    while i < pairs.len()
        invariant
            i <= pairs@.len(),
            out@.len() == i,
            forall|j: int|
                0 <= j < i ==> (#[trigger] out@[j]).0@ == pairs@[j].0@ && out@[j].1.model()
                    == pairs@[j].1.model(),
        decreases pairs@.len() - i,
    {
        out.push((pairs[i].0.clone(), clone_value(&pairs[i].1)));
        i += 1;
    }
    proof {
        assert(default_models(out@) =~= default_models(pairs@));
    }
    out
}

/// A copy of names.
pub fn clone_names(names: &Vec<String>) -> (r: Vec<String>)
    ensures
        name_models(r@) == name_models(names@),
{
    let mut out: Vec<String> = Vec::new();
    let mut i: usize = 0;
    while i < names.len()
        invariant
            i <= names@.len(),
            out@.len() == i,
            forall|j: int| 0 <= j < i ==> (#[trigger] out@[j])@ == names@[j]@,
        decreases names@.len() - i,
    {
        out.push(names[i].clone());
        i += 1;
    }
    proof {
        assert(name_models(out@) =~= name_models(names@));
    }
    out
}

/// A copy of a node.
pub fn clone_node<U: CommandParse>(node: &ParseNode<U>) -> (r: ParseNode<U>)
    ensures
        r.model() == node.model(),
{
    match node {
        ParseNode::EndOfInput { struct_name, defaults, idents } => ParseNode::EndOfInput {
            struct_name: struct_name.clone(),
            defaults: clone_pairs(defaults),
            idents: clone_names(idents),
        },
        ParseNode::Pass => ParseNode::Pass,
        ParseNode::Literal(text) => ParseNode::Literal(text.clone()),
        ParseNode::Function { name, binding } => ParseNode::Function {
            name: clone_type(name),
            binding: binding.clone(),
        },
    }
}

/// A copy of nodes.
pub fn clone_nodes<U: CommandParse>(nodes: &Vec<ParseNode<U>>) -> (r: Vec<ParseNode<U>>)
    ensures
        node_models(r@) == node_models(nodes@),
{
    let mut out: Vec<ParseNode<U>> = Vec::new();
    let mut i: usize = 0;
    while i < nodes.len()
        invariant
            i <= nodes@.len(),
            out@.len() == i,
            forall|j: int| 0 <= j < i ==> (#[trigger] out@[j]).model() == nodes@[j].model(),
        decreases nodes@.len() - i,
    {
        out.push(clone_node(&nodes[i]));
        i += 1;
    }
    proof {
        assert(node_models(out@) =~= node_models(nodes@));
    }
    out
}

/// The names of `fields`, in their order.
pub fn names_of_fields(fields: &Vec<(String, ValueType)>) -> (r: Vec<String>)
    ensures
        name_models(r@) == field_names(field_models(fields@)),
{
    let mut out: Vec<String> = Vec::new();
    let mut i: usize = 0;
    while i < fields.len()
        invariant
            i <= fields@.len(),
            out@.len() == i,
            forall|j: int| 0 <= j < i ==> (#[trigger] out@[j])@ == fields@[j].0@,
        decreases fields@.len() - i,
    {
        out.push(fields[i].0.clone());
        i += 1;
    }
    proof {
        assert(name_models(out@) =~= field_names(field_models(fields@)));
    }
    out
}

/// Reads the declared templates of a command with the fields `fields`.
#[verifier::loop_isolation(false)]
pub fn read_templates<U: CommandParse>(
    descs: Vec<TemplateDesc<U>>,
    fields: &Vec<(String, ValueType)>,
) -> (r: Result<Vec<ParseAttr<U>>, GrammarError>)
    ensures
        match r {
            Ok(read) => read_templates_model(template_desc_models(descs@), field_models(fields@))
                == Ok::<Seq<TemplateModel<U::Model>>, GrammarError>(template_models(read@)),
            Err(e) => read_templates_model(template_desc_models(descs@), field_models(fields@))
                == Err::<Seq<TemplateModel<U::Model>>, GrammarError>(e),
        },
{
    let ghost all = template_desc_models(descs@);
    let ghost kinds = field_models(fields@);
    let mut left = descs;
    let mut out: Vec<ParseAttr<U>> = Vec::new();
    let ghost mut k: int = 0;
    proof {
        assert(all.skip(0) =~= all);
        assert(template_models(out@) =~= Seq::empty());
    }
    while left.len() > 0
        invariant
            0 <= k <= all.len(),
            template_desc_models(left@) == all.skip(k),
            read_templates_model(all.take(k), kinds) == Ok::<
                Seq<TemplateModel<U::Model>>,
                GrammarError,
            >(template_models(out@)),
        decreases left@.len(),
    {
        let ghost before = left@;
        let desc = left.remove(0);
        proof {
            assert(all.skip(k).len() == before.len());
            assert(desc.model() == all.skip(k)[0]);
            assert forall|j: int| 0 <= j < left@.len() implies template_desc_models(left@)[j]
                == all.skip(k + 1)[j] by {
                assert(left@[j] == before[j + 1]);
                assert(all.skip(k)[j + 1] == before[j + 1].model());
            }
            assert(template_desc_models(left@) =~= all.skip(k + 1));
            assert(all.take(k + 1).drop_last() =~= all.take(k));
            assert(all.take(k + 1).last() == desc.model());
        }
        let TemplateDesc { text, defaults } = desc;
        match ParseAttr::new(text.as_str(), defaults, fields) {
            Ok(attr) => {
                let ghost read = out@;
                out.push(attr);
                proof {
                    assert(template_models(out@) =~= template_models(read).push(attr.model()));
                    k = k + 1;
                }
            },
            Err(e) => {
                proof {
                    lemma_read_templates_prefix(all, kinds, k + 1);
                }
                return Err(e);
            },
        }
    }
    proof {
        assert(all.take(k) =~= all);
    }
    Ok(out)
}

/// Adds each of `attrs` to `tree`, for the command `name` with the fields
/// `idents`. Stops at the first template that is refused.
#[verifier::loop_isolation(false)]
pub fn insert_templates<U: CommandParse>(
    tree: &mut ParseTree<U>,
    attrs: &Vec<ParseAttr<U>>,
    name: &String,
    idents: &Vec<String>,
) -> (r: Result<(), GrammarError>)
    ensures
        match insert_all_model(
            old(tree).model(),
            template_models(attrs@),
            name@,
            name_models(idents@),
        ) {
            Ok(grown) => r is Ok && final(tree).model() == grown,
            Err(e) => r == Err::<(), GrammarError>(e),
        },
{
    let ghost all = template_models(attrs@);
    let ghost start = old(tree).model();
    let mut i: usize = 0;
    while i < attrs.len()
        invariant
            i <= attrs@.len(),
            insert_all_model(start, all.take(i as int), name@, name_models(idents@)) == Ok::<
                TreeModel<U::Model>,
                GrammarError,
            >(tree.model()),
        decreases attrs@.len() - i,
    {
        proof {
            assert(all.take(i + 1).drop_last() =~= all.take(i as int));
            assert(all.take(i + 1).last() == attrs@[i as int].model());
        }
        let added = tree.insert(
            clone_nodes(&attrs[i].parse_template),
            name.clone(),
            clone_pairs(&attrs[i].kwargs),
            clone_names(idents),
        );
        match added {
            Ok(()) => {},
            Err(e) => {
                proof {
                    lemma_insert_all_prefix(start, all, name@, name_models(idents@), i + 1);
                }
                return Err(e);
            },
        }
        i += 1;
    }
    proof {
        assert(all.take(i as int) =~= all);
    }
    Ok(())
}

/// The position of the first enumeration among `items`.
pub fn find_target_enum<U: CommandParse>(items: &Vec<ItemDesc<U>>) -> (r: Option<usize>)
    ensures
        match r {
            Some(i) => i < items@.len() && i == target_enum_index(item_models(items@)),
            None => target_enum_index(item_models(items@)) == items@.len(),
        },
{
    let mut i: usize = 0;
    while i < items.len()
        invariant
            i <= items@.len(),
            forall|j: int| 0 <= j < i ==> !(item_models(items@)[j] is Enum),
        decreases items@.len() - i,
    {
        proof {
            lemma_target_enum_index(item_models(items@));
            assert(item_models(items@)[i as int] == items@[i as int].model());
        }
        match &items[i] {
            ItemDesc::Enum { .. } => {
                return Some(i);
            },
            _ => {},
        }
        i += 1;
    }
    proof {
        lemma_target_enum_index(item_models(items@));
    }
    None
}

/// Builds a family from a module. `args` is the number of arguments of the
/// module's annotation, `items` are its declarations in their order.
#[verifier::loop_isolation(false)]
pub fn compile<U: CommandParse>(args: usize, items: Vec<ItemDesc<U>>) -> (r: Result<
    Family<U>,
    GrammarError,
>)
    ensures
        match r {
            Ok(family) => compile_model(args as nat, item_models(items@)) == Ok::<
                FamilyModel<U::Model>,
                GrammarError,
            >(family.model()) && family_wf(family.model()),
            Err(e) => compile_model(args as nat, item_models(items@)) == Err::<
                FamilyModel<U::Model>,
                GrammarError,
            >(e),
        },
{
    let ghost all = item_models(items@);
    if args > 0 {
        return Err(GrammarError::UnexpectedArguments);
    }
    let (family_name, declared) = match find_target_enum(&items) {
        Some(t) => {
            proof {
                assert(all[t as int] == items@[t as int].model());
                lemma_target_enum_index(all);
            }
            match &items[t] {
                ItemDesc::Enum { name, variants } => (name.clone(), *variants),
                _ => {
                    return Err(GrammarError::MissingTargetEnum);
                },
            }
        },
        None => {
            return Err(GrammarError::MissingTargetEnum);
        },
    };
    let mut left = items;
    let mut tree: ParseTree<U> = ParseTree::new();
    let mut variants: Vec<CommandVariant<U>> = Vec::new();
    let ghost mut k: int = 0;
    proof {
        assert(all.skip(0) =~= all);
        assert(variant_models(variants@) =~= Seq::empty());
    }
    while left.len() > 0
        invariant
            0 <= k <= all.len(),
            item_models(left@) == all.skip(k),
            compile_items_model(all.take(k)) == Ok::<
                (TreeModel<U::Model>, Seq<VariantModel<U::Model>>),
                GrammarError,
            >((tree.model(), variant_models(variants@))),
        decreases left@.len(),
    {
        let ghost before = left@;
        let item = left.remove(0);
        proof {
            assert(all.skip(k).len() == before.len());
            assert(item.model() == all.skip(k)[0]);
            assert forall|j: int| 0 <= j < left@.len() implies item_models(left@)[j] == all.skip(
                k + 1,
            )[j] by {
                assert(left@[j] == before[j + 1]);
                assert(all.skip(k)[j + 1] == before[j + 1].model());
            }
            assert(item_models(left@) =~= all.skip(k + 1));
            assert(all.take(k + 1).drop_last() =~= all.take(k));
            assert(all.take(k + 1).last() == item.model());
        }
        match item {
            ItemDesc::Struct(declared_struct) => {
                let StructDesc { name, fields, templates } = declared_struct;
                let named: Vec<(String, ValueType)> = match fields {
                    FieldsDesc::Named(named) => named,
                    FieldsDesc::Unit => {
                        let none: Vec<(String, ValueType)> = Vec::new();
                        proof {
                            assert(field_models(none@) =~= Seq::empty());
                        }
                        none
                    },
                    FieldsDesc::Unnamed => {
                        proof {
                            lemma_compile_items_prefix(all, k + 1);
                        }
                        return Err(GrammarError::TupleStruct);
                    },
                };
                let read = match read_templates(templates, &named) {
                    Ok(read) => read,
                    Err(e) => {
                        proof {
                            lemma_compile_items_prefix(all, k + 1);
                        }
                        return Err(e);
                    },
                };
                let idents = names_of_fields(&named);
                match insert_templates(&mut tree, &read, &name, &idents) {
                    Ok(()) => {},
                    Err(e) => {
                        proof {
                            lemma_compile_items_prefix(all, k + 1);
                        }
                        return Err(e);
                    },
                }
                if read.len() > 0 {
                    let ghost known = variants@;
                    let variant = CommandVariant { name, fields: named, templates: read };
                    variants.push(variant);
                    proof {
                        assert(variant_models(variants@) =~= variant_models(known).push(
                            variant.model(),
                        ));
                    }
                }
            },
            _ => {},
        }
        proof {
            k = k + 1;
        }
    }
    proof {
        assert(all.take(k) =~= all);
    }
    if declared > 0 {
        return Err(GrammarError::TargetEnumNotEmpty);
    }
    proof {
        lemma_compiled_family_wf(args as nat, all);
    }
    Ok(Family { name: family_name, tree, variants })
}

/// The position of the first of `variants` that is named `name`, or their
/// number where none is.
pub open spec fn variant_index<M>(variants: Seq<VariantModel<M>>, name: Seq<char>) -> int
    decreases variants.len(),
{
    if variants.len() == 0 || variants[0].name == name {
        0
    } else {
        1 + variant_index(variants.skip(1), name)
    }
}

/// `variant_index` is the least position of a command named `name`, and lies
/// within `variants` or at their end.
pub proof fn lemma_variant_index<M>(variants: Seq<VariantModel<M>>, name: Seq<char>)
    ensures
        0 <= variant_index(variants, name) <= variants.len(),
        forall|j: int| 0 <= j < variant_index(variants, name) ==> variants[j].name != name,
        variant_index(variants, name) < variants.len() ==> variants[variant_index(
            variants,
            name,
        )].name == name,
    decreases variants.len(),
{
    if variants.len() == 0 || variants[0].name == name {
    } else {
        lemma_variant_index(variants.skip(1), name);
        assert forall|j: int| 0 <= j < variant_index(variants, name) implies variants[j].name
            != name by {
            if j > 0 {
                assert(variants.skip(1)[j - 1] == variants[j]);
            }
        }
    }
}

/// The text of `command` in a family with the commands `variants`: written
/// after the first template of the command of that name whose defaults agree
/// with its fields. Nothing where the family has no such command or
/// template, or a capture of that template has no value.
pub open spec fn render_command_model<U: CommandParse>(
    variants: Seq<VariantModel<U::Model>>,
    command: CommandModel<U::Model>,
) -> Option<Seq<char>> {
    let i = variant_index(variants, command.name);
    if i < variants.len() {
        render_model::<U>(variants[i].templates, command.fields)
    } else {
        None
    }
}

impl<U: CommandParse> Family<U> {
    /// Parses the whole of `input` as one command of the family: returns the
    /// command, or the text that the parser reports as unconsumed.
    pub fn parse<'a>(&self, input: &'a str) -> (r: Result<Command<U>, &'a str>)
        ensures
            match r {
                Ok(command) => parse_model::<U>(self.model().tree, input@) == Ok::<
                    CommandModel<U::Model>,
                    Seq<char>,
                >(command.model()),
                Err(rest) => parse_model::<U>(self.model().tree, input@) == Err::<
                    CommandModel<U::Model>,
                    Seq<char>,
                >(rest@),
            },
    {
        parse_input(&self.tree, input)
    }

    /// Writes `command` as text. Returns nothing where the family has no
    /// command of that name, none of its templates agrees with the fields of
    /// `command`, or a capture of the template names a field that `command`
    /// does not hold.
    pub fn try_render(&self, command: &Command<U>) -> (r: Option<String>)
        ensures
            match r {
                Some(text) => render_command_model::<U>(self.model().variants, command.model())
                    == Some(text@),
                None => render_command_model::<U>(self.model().variants, command.model())
                    is None,
            },
    {
        let ghost all = variant_models(self.variants@);
        let mut i: usize = 0;
        while i < self.variants.len()
            invariant
                i <= self.variants@.len(),
                all == variant_models(self.variants@),
                forall|j: int| 0 <= j < i ==> all[j].name != command.name@,
            decreases self.variants@.len() - i,
        {
            proof {
                lemma_variant_index(all, command.name@);
                assert(all[i as int] == self.variants@[i as int].model());
            }
            if self.variants[i].name == command.name {
                return try_render(&self.variants[i].templates, command);
            }
            i += 1;
        }
        proof {
            lemma_variant_index(all, command.name@);
        }
        None
    }

    /// Writes `command` as text.
    pub fn render(&self, command: &Command<U>) -> (r: String)
        requires
            render_command_model::<U>(self.model().variants, command.model()) is Some,
        ensures
            render_command_model::<U>(self.model().variants, command.model()) == Some(r@),
    {
        match self.try_render(command) {
            Some(text) => text,
            None => String::new(),
        }
    }
}

} // verus!
