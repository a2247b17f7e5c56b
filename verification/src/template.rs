//! Templates: the tokens of one textual pattern, and the rule that every
//! field of the command is either captured or given a default.

use crate::capture::CommandParse;
use crate::engine::lookup;
use crate::error::GrammarError;
use crate::parse_tree::default_models;
use crate::parse_tree::name_models;
use crate::parse_tree::node_models;
use crate::parse_tree::NodeModel;
use crate::parse_tree::ParseNode;
use crate::value::Value;
use crate::value::ValueModel;
use crate::value::ValueType;
use vstd::prelude::*;

verus! {

/// One textual pattern of a command: its tokens in their order, and the
/// values of the fields that it does not capture.
#[derive(Debug, PartialEq, Eq)]
pub struct ParseAttr<U> {
    pub parse_template: Vec<ParseNode<U>>,
    pub kwargs: Vec<(String, Value<U>)>,
}

/// What a `ParseAttr` stands for.
pub struct TemplateModel<M> {
    pub items: Seq<NodeModel<M>>,
    pub defaults: Seq<(Seq<char>, ValueModel<M>)>,
}

impl<U: CommandParse> ParseAttr<U> {
    /// What the template stands for.
    pub open spec fn model(&self) -> TemplateModel<U::Model> {
        TemplateModel {
            items: node_models(self.parse_template@),
            defaults: default_models(self.kwargs@),
        }
    }
}

/// What each of `templates` stands for.
pub open spec fn template_models<U: CommandParse>(templates: Seq<ParseAttr<U>>) -> Seq<
    TemplateModel<U::Model>,
> {
    Seq::new(templates.len(), |i: int| templates[i].model())
}

/// The fields that the captures among `items` bind, in their order.
pub open spec fn capture_names<M>(items: Seq<NodeModel<M>>) -> Seq<Seq<char>>
    decreases items.len(),
{
    if items.len() == 0 {
        Seq::empty()
    } else {
        match items.last() {
            NodeModel::Function { name, binding } => capture_names(items.drop_last()).push(binding),
            _ => capture_names(items.drop_last()),
        }
    }
}

/// The fields that `defaults` give a value for, in their order.
pub open spec fn default_names<M>(defaults: Seq<(Seq<char>, ValueModel<M>)>) -> Seq<Seq<char>> {
    Seq::new(defaults.len(), |i: int| defaults[i].0)
}

/// Whether each of `items` is a keyword or a capture.
pub open spec fn all_tokens<M>(items: Seq<NodeModel<M>>) -> bool {
    forall|i: int| 0 <= i < items.len() ==> (#[trigger] items[i]).is_token()
}

/// Whether each of `names` is one of `within`.
pub open spec fn names_within(names: Seq<Seq<char>>, within: Seq<Seq<char>>) -> bool {
    forall|i: int| 0 <= i < names.len() ==> within.contains(#[trigger] names[i])
}

/// Whether one of `names` is also one of `others`.
pub open spec fn names_overlap(names: Seq<Seq<char>>, others: Seq<Seq<char>>) -> bool {
    exists|i: int| 0 <= i < names.len() && others.contains(#[trigger] names[i])
}

/// Whether a template is consistent with the command it makes, and if not,
/// what is wrong with it: its tokens are keywords and captures; no field and
/// no default is named twice; captures and defaults name fields of the
/// command; and each field is either captured or given a default, not both.
pub open spec fn template_check<M>(
    items: Seq<NodeModel<M>>,
    defaults: Seq<(Seq<char>, ValueModel<M>)>,
    idents: Seq<Seq<char>>,
) -> Result<(), GrammarError> {
    let captured = capture_names(items);
    let defaulted = default_names(defaults);
    if !all_tokens(items) {
        Err(GrammarError::InvalidToken)
    } else if !idents.no_duplicates() || !defaulted.no_duplicates() {
        Err(GrammarError::RepeatedName)
    } else if !names_within(captured, idents) || !names_within(defaulted, idents) {
        Err(GrammarError::UnknownField)
    } else if names_overlap(captured, defaulted) {
        Err(GrammarError::FieldCoveredTwice)
    } else if !names_within(idents, captured + defaulted) {
        Err(GrammarError::UncoveredField)
    } else {
        Ok(())
    }
}

/// Whether `name` is one of `names`.
pub fn contains_name(names: &Vec<String>, name: &String) -> (r: bool)
    ensures
        r == name_models(names@).contains(name@),
{
    let mut i: usize = 0;
    while i < names.len()
        invariant
            i <= names@.len(),
            forall|j: int| 0 <= j < i ==> name_models(names@)[j] != name@,
        decreases names@.len() - i,
    {
        if names[i] == *name {
            proof {
                assert(name_models(names@)[i as int] == name@);
            }
            return true;
        }
        i += 1;
    }
    false
}

/// Whether no name stands twice in `names`.
pub fn all_distinct(names: &Vec<String>) -> (r: bool)
    ensures
        r == name_models(names@).no_duplicates(),
{
    let mut i: usize = 0;
    while i < names.len()
        invariant
            i <= names@.len(),
            forall|a: int, b: int|
                0 <= a < b < names@.len() && a < i ==> name_models(names@)[a] != name_models(
                    names@,
                )[b],
        decreases names@.len() - i,
    {
        let mut j: usize = i + 1;
        while j < names.len()
            invariant
                i < j <= names@.len(),
                forall|b: int| i < b < j ==> name_models(names@)[i as int] != name_models(names@)[b],
            decreases names@.len() - j,
        {
            if names[i] == names[j] {
                proof {
                    assert(name_models(names@)[i as int] == name_models(names@)[j as int]);
                }
                return false;
            }
            j += 1;
        }
        i += 1;
    }
    true
}

/// Whether each of `names` is one of `within`.
pub fn all_within(names: &Vec<String>, within: &Vec<String>) -> (r: bool)
    ensures
        r == names_within(name_models(names@), name_models(within@)),
{
    let mut i: usize = 0;
    while i < names.len()
        invariant
            i <= names@.len(),
            forall|j: int|
                0 <= j < i ==> name_models(within@).contains(#[trigger] name_models(names@)[j]),
        decreases names@.len() - i,
    {
        if !contains_name(within, &names[i]) {
            proof {
                assert(name_models(names@)[i as int] == names@[i as int]@);
            }
            return false;
        }
        i += 1;
    }
    true
}

/// Whether one of `names` is also one of `others`.
pub fn any_within(names: &Vec<String>, others: &Vec<String>) -> (r: bool)
    ensures
        r == names_overlap(name_models(names@), name_models(others@)),
{
    let mut i: usize = 0;
    while i < names.len()
        invariant
            i <= names@.len(),
            forall|j: int|
                0 <= j < i ==> !name_models(others@).contains(#[trigger] name_models(names@)[j]),
        decreases names@.len() - i,
    {
        if contains_name(others, &names[i]) {
            proof {
                assert(name_models(names@)[i as int] == names@[i as int]@);
            }
            return true;
        }
        i += 1;
    }
    false
}

/// Checks a template against the command it makes: `items` are its tokens,
/// `defaults` the values of the fields it does not capture, `idents` the
/// fields of the command.
#[verifier::loop_isolation(false)]
pub fn check_template<U: CommandParse>(
    items: &Vec<ParseNode<U>>,
    defaults: &Vec<(String, Value<U>)>,
    idents: &Vec<String>,
) -> (r: Result<(), GrammarError>)
    ensures
        r == template_check(node_models(items@), default_models(defaults@), name_models(idents@)),
{
    let ghost item_models = node_models(items@);
    let mut captured: Vec<String> = Vec::new();
    let mut i: usize = 0;
    while i < items.len()
        invariant
            i <= items@.len(),
            item_models == node_models(items@),
            all_tokens(item_models.take(i as int)),
            name_models(captured@) == capture_names(item_models.take(i as int)),
        decreases items@.len() - i,
    {
        proof {
            assert(item_models.take(i + 1).drop_last() =~= item_models.take(i as int));
            assert(item_models.take(i + 1).last() == items@[i as int].model());
        }
        match &items[i] {
            ParseNode::Literal(_) => {},
            ParseNode::Function { name, binding } => {
                let ghost before = captured@;
                captured.push(binding.clone());
                proof {
                    assert(name_models(captured@) =~= name_models(before).push(binding@));
                }
            },
            _ => {
                proof {
                    assert(!item_models[i as int].is_token());
                }
                return Err(GrammarError::InvalidToken);
            },
        }
        proof {
            assert forall|j: int| 0 <= j < i + 1 implies (#[trigger] item_models.take(
                i + 1,
            )[j]).is_token() by {
                if j < i {
                    assert(item_models.take(i as int)[j].is_token());
                }
            }
        }
        i += 1;
    }
    proof {
        assert(item_models.take(items@.len() as int) =~= item_models);
    }
    let mut defaulted: Vec<String> = Vec::new();
    let mut k: usize = 0;
    while k < defaults.len()
        invariant
            k <= defaults@.len(),
            defaulted@.len() == k,
            forall|j: int| 0 <= j < k ==> (#[trigger] defaulted@[j])@ == defaults@[j].0@,
        decreases defaults@.len() - k,
    {
        defaulted.push(defaults[k].0.clone());
        k += 1;
    }
    proof {
        assert(name_models(defaulted@) =~= default_names(default_models(defaults@)));
    }
    if !all_distinct(idents) || !all_distinct(&defaulted) {
        return Err(GrammarError::RepeatedName);
    }
    if !all_within(&captured, idents) || !all_within(&defaulted, idents) {
        return Err(GrammarError::UnknownField);
    }
    if any_within(&captured, &defaulted) {
        return Err(GrammarError::FieldCoveredTwice);
    }
    let mut c: usize = 0;
    while c < idents.len()
        invariant
            c <= idents@.len(),
            forall|j: int|
                0 <= j < c ==> (name_models(captured@) + name_models(defaulted@)).contains(
                    #[trigger] name_models(idents@)[j],
                ),
        decreases idents@.len() - c,
    {
        let in_captured = contains_name(&captured, &idents[c]);
        let in_defaulted = contains_name(&defaulted, &idents[c]);
        proof {
            let all = name_models(captured@) + name_models(defaulted@);
            let n = name_models(idents@)[c as int];
            assert(n == idents@[c as int]@);
            if in_captured {
                let w = choose|w: int|
                    0 <= w < name_models(captured@).len() && name_models(captured@)[w] == n;
                assert(all[w] == n);
            } else if in_defaulted {
                let w = choose|w: int|
                    0 <= w < name_models(defaulted@).len() && name_models(defaulted@)[w] == n;
                assert(all[name_models(captured@).len() + w] == n);
            } else {
                if all.contains(n) {
                    let w = choose|w: int| 0 <= w < all.len() && all[w] == n;
                    if w < name_models(captured@).len() {
                        assert(name_models(captured@)[w] == n);
                    } else {
                        assert(name_models(defaulted@)[w - name_models(captured@).len()] == n);
                    }
                }
            }
        }
        if !in_captured && !in_defaulted {
            return Err(GrammarError::UncoveredField);
        }
        c += 1;
    }
    Ok(())
}

/// Whether `c` separates the words of a template: a space, a tab, a line
/// feed, a form feed or a carriage return.
pub open spec fn is_blank(c: char) -> bool {
    c == ' ' || c == '\t' || c == '\n' || c == '\x0C' || c == '\r'
}

/// How many letters stand at the front of `s` before its first separator.
pub open spec fn word_run(s: Seq<char>) -> int
    decreases s.len(),
{
    if s.len() == 0 || is_blank(s[0]) {
        0
    } else {
        1 + word_run(s.skip(1))
    }
}

/// `word_run` is the first position that holds a separator.
pub proof fn lemma_word_run(s: Seq<char>)
    ensures
        0 <= word_run(s) <= s.len(),
        forall|j: int| 0 <= j < word_run(s) ==> !is_blank(#[trigger] s[j]),
        word_run(s) < s.len() ==> is_blank(s[word_run(s)]),
    decreases s.len(),
{
    if s.len() == 0 || is_blank(s[0]) {
    } else {
        lemma_word_run(s.skip(1));
        assert forall|j: int| 0 <= j < word_run(s) implies !is_blank(#[trigger] s[j]) by {
            if j > 0 {
                assert(s.skip(1)[j - 1] == s[j]);
            }
        }
    }
}

/// The words of `s`: its longest stretches without a separator, in their order.
pub open spec fn words(s: Seq<char>) -> Seq<Seq<char>>
    decreases s.len(),
{
    if s.len() == 0 {
        Seq::empty()
    } else if is_blank(s[0]) {
        words(s.skip(1))
    } else {
        let w = word_run(s);
        if 0 < w <= s.len() {
            seq![s.take(w)] + words(s.skip(w))
        } else {
            Seq::empty()
        }
    }
}

/// What each of `fields` stands for: its name and its kind.
pub open spec fn field_models(fields: Seq<(String, ValueType)>) -> Seq<(Seq<char>, ValueType)> {
    Seq::new(fields.len(), |i: int| (fields[i].0@, fields[i].1))
}

/// The token that a word of a template stands for: after a `$` the capture of
/// the field of that name, where `fields` hold it; else the word as a keyword.
pub open spec fn token_of<M>(word: Seq<char>, fields: Seq<(Seq<char>, ValueType)>) -> Option<
    NodeModel<M>,
> {
    if word.len() > 0 && word[0] == '$' {
        match lookup(fields, word.skip(1)) {
            Some(ty) => Some(NodeModel::Function { name: ty, binding: word.skip(1) }),
            None => None,
        }
    } else {
        Some(NodeModel::Literal(word))
    }
}

/// The tokens that the words `parts` stand for, where each stands for one.
pub open spec fn tokens_of<M>(parts: Seq<Seq<char>>, fields: Seq<(Seq<char>, ValueType)>) -> Option<
    Seq<NodeModel<M>>,
>
    decreases parts.len(),
{
    if parts.len() == 0 {
        Some(Seq::empty())
    } else {
        match (tokens_of::<M>(parts.drop_last(), fields), token_of::<M>(parts.last(), fields)) {
            (Some(tokens), Some(token)) => Some(tokens.push(token)),
            _ => None,
        }
    }
}

/// Where the words up to some position do not all stand for a token, all of
/// them do not.
pub proof fn lemma_tokens_of_prefix<M>(
    parts: Seq<Seq<char>>,
    fields: Seq<(Seq<char>, ValueType)>,
    k: int,
)
    requires
        0 <= k <= parts.len(),
        tokens_of::<M>(parts.take(k), fields) is None,
    ensures
        tokens_of::<M>(parts, fields) is None,
    decreases parts.len() - k,
{
    if k == parts.len() {
        assert(parts.take(k) =~= parts);
    } else {
        assert(parts.take(k + 1).drop_last() =~= parts.take(k));
        lemma_tokens_of_prefix::<M>(parts, fields, k + 1);
    }
}

/// Whether `c` separates the words of a template.
pub fn is_separator(c: char) -> (r: bool)
    ensures
        r == is_blank(c),
{
    c == ' ' || c == '\t' || c == '\n' || c == '\x0C' || c == '\r'
}

/// The words of `text`.
pub fn split_words(text: &str) -> (r: Vec<String>)
    ensures
        name_models(r@) == words(text@),
{
    let n: usize = text.unicode_len();
    let mut out: Vec<String> = Vec::new();
    let mut i: usize = 0;
    proof {
        assert(text@.skip(0) =~= text@);
        assert(name_models(out@) + words(text@) =~= words(text@));
    }
    while i < n
        invariant
            n == text@.len(),
            i <= n,
            words(text@) == name_models(out@) + words(text@.skip(i as int)),
        decreases n - i,
    {
        let ghost tail = text@.skip(i as int);
        if is_separator(text.get_char(i)) {
            proof {
                assert(tail[0] == text@[i as int]);
                assert(tail.skip(1) =~= text@.skip(i + 1));
            }
            i += 1;
        } else {
            let mut j: usize = i + 1;
            proof {
                assert(tail[0] == text@[i as int]);
            }
            while j < n && !is_separator(text.get_char(j))
                invariant
                    n == text@.len(),
                    i < j <= n,
                    tail == text@.skip(i as int),
                    forall|k: int| 0 <= k < j - i ==> !is_blank(#[trigger] tail[k]),
                decreases n - j,
            {
                proof {
                    assert(tail[j - i] == text@[j as int]);
                }
                j += 1;
            }
            proof {
                lemma_word_run(tail);
                if j < n {
                    assert(tail[j - i] == text@[j as int]);
                }
                let w = word_run(tail);
                if w < j - i {
                    assert(!is_blank(tail[w]));
                }
                assert(w == j - i);
            }
            let word = text.substring_char(i, j).to_owned();
            let ghost before = out@;
            out.push(word);
            proof {
                assert(word@ =~= tail.take(j - i));
                assert(tail.skip(j - i) =~= text@.skip(j as int));
                assert(name_models(out@) =~= name_models(before) + seq![word@]);
                assert(name_models(before) + (seq![word@] + words(text@.skip(j as int)))
                    =~= name_models(out@) + words(text@.skip(j as int)));
            }
            i = j;
        }
    }
    proof {
        assert(name_models(out@) + Seq::<Seq<char>>::empty() =~= name_models(out@));
    }
    out
}

/// The kind of the field `name`, where `fields` hold it.
pub fn lookup_type<'a>(fields: &'a Vec<(String, ValueType)>, name: &String) -> (r: Option<
    &'a ValueType,
>)
    ensures
        match r {
            Some(ty) => lookup(field_models(fields@), name@) == Some(*ty),
            None => lookup(field_models(fields@), name@) is None,
        },
{
    let ghost all = field_models(fields@);
    let mut i: usize = fields.len();
    proof {
        assert(all.take(i as int) =~= all);
    }
    while i > 0
        invariant
            i <= fields@.len(),
            all == field_models(fields@),
            lookup(all, name@) == lookup(all.take(i as int), name@),
        decreases i,
    {
        proof {
            assert(all.take(i as int).drop_last() =~= all.take(i - 1));
            assert(all.take(i as int).last() == (fields@[i - 1].0@, fields@[i - 1].1));
        }
        if fields[i - 1].0 == *name {
            return Some(&fields[i - 1].1);
        }
        i -= 1;
    }
    None
}

/// A copy of a kind.
pub fn clone_type(ty: &ValueType) -> (r: ValueType)
    ensures
        r == *ty,
    decreases ty,
{
    match ty {
        ValueType::Integer => ValueType::Integer,
        ValueType::Word => ValueType::Word,
        ValueType::Optional(inner) => ValueType::Optional(Box::new(clone_type(&**inner))),
        ValueType::Repeated(inner) => ValueType::Repeated(Box::new(clone_type(&**inner))),
        ValueType::Custom => ValueType::Custom,
    }
}

impl<U: CommandParse> ParseAttr<U> {
    /// Reads a template from its text. The words of the text are its tokens:
    /// a word that starts with `$` captures the field named after the `$`,
    /// with the kind that `fields` give it; any other word is a keyword.
    /// `defaults` are the values of the fields that the template does not
    /// capture. The text is refused where it captures a field that `fields`
    /// do not hold.
    pub fn new(template: &str, defaults: Vec<(String, Value<U>)>, fields: &Vec<(String, ValueType)>) -> (r:
        Result<Self, GrammarError>)
        ensures
            match r {
                Ok(attr) => tokens_of::<U::Model>(words(template@), field_models(fields@)) == Some(
                    attr.model().items,
                ) && attr.model().defaults == default_models(defaults@),
                Err(e) => e == GrammarError::UnknownField && tokens_of::<U::Model>(
                    words(template@),
                    field_models(fields@),
                ) is None,
            },
    {
        let parts = split_words(template);
        let ghost all = name_models(parts@);
        let ghost kinds = field_models(fields@);
        let mut parse_template: Vec<ParseNode<U>> = Vec::new();
        let mut i: usize = 0;
        proof {
            assert(node_models(parse_template@) =~= Seq::empty());
        }
        while i < parts.len()
            invariant
                i <= parts@.len(),
                all == name_models(parts@),
                all == words(template@),
                kinds == field_models(fields@),
                tokens_of::<U::Model>(all.take(i as int), kinds) == Some(
                    node_models(parse_template@),
                ),
            decreases parts@.len() - i,
        {
            proof {
                assert(all.take(i + 1).drop_last() =~= all.take(i as int));
                assert(all.take(i + 1).last() == parts@[i as int]@);
            }
            let part = parts[i].as_str();
            let len: usize = part.unicode_len();
            let ghost before = parse_template@;
            if len > 0 && part.get_char(0) == '$' {
                let var = part.substring_char(1, len).to_owned();
                proof {
                    assert(var@ =~= part@.skip(1));
                }
                match lookup_type(fields, &var) {
                    Some(ty) => {
                        let node = ParseNode::Function { name: clone_type(ty), binding: var };
                        parse_template.push(node);
                        proof {
                            assert(node_models(parse_template@) =~= node_models(before).push(
                                node.model(),
                            ));
                        }
                    },
                    None => {
                        proof {
                            lemma_tokens_of_prefix::<U::Model>(all, kinds, i + 1);
                        }
                        return Err(GrammarError::UnknownField);
                    },
                }
            } else {
                let node = ParseNode::Literal(part.to_owned());
                parse_template.push(node);
                proof {
                    assert(node_models(parse_template@) =~= node_models(before).push(node.model()));
                }
            }
            i += 1;
        }
        proof {
            assert(all.take(i as int) =~= all);
        }
        Ok(ParseAttr { parse_template, kwargs: defaults })
    }
}

} // verus!
