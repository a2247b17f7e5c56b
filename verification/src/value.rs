//! The values that a capture can hold, and the kinds that say how each is read.

use crate::capture::CommandParse;
use crate::integer::decimal_text;
use crate::integer::format_integer;
use crate::integer::integer_parse;
use crate::integer::parse_integer;
use crate::text::join_texts;
use crate::text::joined;
use crate::text::texts_of;
use vstd::prelude::*;

verus! {

/// How a capture reads its value from the input.
#[derive(Debug, PartialEq, Eq)]
pub enum ValueType {
    /// A signed integer: an optional `-` and every digit after it.
    Integer,
    /// A word: everything up to the next space.
    Word,
    /// A value of the inner kind where one can be read, else nothing.
    Optional(Box<ValueType>),
    /// One value of the inner kind after another, at least one.
    Repeated(Box<ValueType>),
    /// A value of the caller's own type, read by its own rule.
    Custom,
}

/// A value held by a field of a command.
#[derive(Debug, PartialEq, Eq)]
pub enum Value<U> {
    Integer(i32),
    Word(String),
    Optional(Option<Box<Value<U>>>),
    Repeated(Vec<Value<U>>),
    Custom(U),
}

/// What a `Value` stands for.
pub enum ValueModel<M> {
    Integer(i32),
    Word(Seq<char>),
    Optional(Option<Box<ValueModel<M>>>),
    Repeated(Seq<ValueModel<M>>),
    Custom(M),
}

impl<U: CommandParse> Value<U> {
    /// What the value stands for.
    pub open spec fn model(&self) -> ValueModel<U::Model>
        decreases self,
    {
        match self {
            Value::Integer(n) => ValueModel::Integer(*n),
            Value::Word(s) => ValueModel::Word(s@),
            Value::Optional(None) => ValueModel::Optional(None),
            Value::Optional(Some(inner)) => ValueModel::Optional(Some(Box::new(inner.model()))),
            Value::Repeated(items) => ValueModel::Repeated(
                Seq::new(
                    items@.len(),
                    |i: int|
                        if 0 <= i < items@.len() {
                            items@[i].model()
                        } else {
                            ValueModel::Optional(None)
                        },
                ),
            ),
            Value::Custom(u) => ValueModel::Custom(u.model()),
        }
    }
}

/// What each of `items` stands for.
pub open spec fn value_models<U: CommandParse>(items: Seq<Value<U>>) -> Seq<ValueModel<U::Model>> {
    Seq::new(
        items.len(),
        |i: int|
            if 0 <= i < items.len() {
                items[i].model()
            } else {
                ValueModel::Optional(None)
            },
    )
}

/// What reading a value of kind `ty` from the front of `input` gives: the
/// unconsumed rest with the value, or on failure the text reported as
/// unconsumed.
pub open spec fn parse_value_model<U: CommandParse>(ty: ValueType, input: Seq<char>) -> Result<
    (Seq<char>, ValueModel<U::Model>),
    Seq<char>,
>
    decreases ty, 0int,
{
    match ty {
        ValueType::Integer => match integer_parse(input) {
            Ok((rest, n)) => Ok((rest, ValueModel::Integer(n))),
            Err(rest) => Err(rest),
        },
        ValueType::Word => match <String as CommandParse>::parse_model(input) {
            Ok((rest, w)) => Ok((rest, ValueModel::Word(w))),
            Err(rest) => Err(rest),
        },
        ValueType::Optional(inner) => match parse_value_model::<U>(*inner, input) {
            Ok((rest, v)) => Ok((rest, ValueModel::Optional(Some(Box::new(v))))),
            Err(_) => Ok((input, ValueModel::Optional(None))),
        },
        ValueType::Repeated(inner) => {
            let (last, items) = repeat_value_model::<U>(*inner, input);
            if items.len() == 0 {
                Err(input)
            } else {
                Ok((last, ValueModel::Repeated(items)))
            }
        },
        ValueType::Custom => match U::parse_model(input) {
            Ok((rest, m)) => Ok((rest, ValueModel::Custom(m))),
            Err(rest) => Err(rest),
        },
    }
}

/// The values of kind `ty` that stand one after another at the front of
/// `input`, and what follows the last of them. The run ends at the first read
/// that fails or consumes nothing.
pub open spec fn repeat_value_model<U: CommandParse>(ty: ValueType, input: Seq<char>) -> (
    Seq<char>,
    Seq<ValueModel<U::Model>>,
)
    decreases ty, 1 + input.len(),
{
    match parse_value_model::<U>(ty, input) {
        Ok((rest, v)) => if rest.len() < input.len() {
            let (last, items) = repeat_value_model::<U>(ty, rest);
            (last, seq![v] + items)
        } else {
            (input, Seq::empty())
        },
        Err(_) => (input, Seq::empty()),
    }
}

/// The text of each of `items`.
pub open spec fn format_value_models<U: CommandParse>(items: Seq<ValueModel<U::Model>>) -> Seq<
    Seq<char>,
>
    decreases items, 0int,
{
    Seq::new(
        items.len(),
        |i: int|
            if 0 <= i < items.len() {
                format_value_model::<U>(items[i])
            } else {
                Seq::empty()
            },
    )
}

/// The text that stands for a value: nothing for an absent optional value,
/// the items with one space between each two for repeated values.
pub open spec fn format_value_model<U: CommandParse>(v: ValueModel<U::Model>) -> Seq<char>
    decreases v, 1int,
{
    match v {
        ValueModel::Integer(n) => decimal_text(n as int),
        ValueModel::Word(w) => w,
        ValueModel::Optional(None) => Seq::empty(),
        ValueModel::Optional(Some(inner)) => format_value_model::<U>(*inner),
        ValueModel::Repeated(items) => joined(format_value_models::<U>(items), seq![' ']),
        ValueModel::Custom(m) => U::format_model(m),
    }
}

/// Reads a value of kind `ty` from the front of `input`: returns what follows
/// it, then the value; or the text reported as unconsumed.
pub fn parse_value<'a, U: CommandParse>(ty: &ValueType, input: &'a str) -> (r: Result<
    (&'a str, Value<U>),
    &'a str,
>)
    ensures
        match r {
            Ok((rest, v)) => parse_value_model::<U>(*ty, input@) == Ok::<
                (Seq<char>, ValueModel<U::Model>),
                Seq<char>,
            >((rest@, v.model())),
            Err(rest) => parse_value_model::<U>(*ty, input@) == Err::<
                (Seq<char>, ValueModel<U::Model>),
                Seq<char>,
            >(rest@),
        },
    decreases ty, 0int,
{
    match ty {
        ValueType::Integer => match parse_integer(input) {
            Ok((rest, n)) => Ok((rest, Value::Integer(n))),
            Err(rest) => Err(rest),
        },
        ValueType::Word => match String::parse_from_command(input) {
            Ok((rest, w)) => Ok((rest, Value::Word(w))),
            Err(rest) => Err(rest),
        },
        ValueType::Optional(inner) => match parse_value::<U>(&**inner, input) {
            Ok((rest, v)) => Ok((rest, Value::Optional(Some(Box::new(v))))),
            Err(_) => Ok((input, Value::Optional(None))),
        },
        ValueType::Repeated(inner) => {
            let (last, items) = parse_repeated::<U>(&**inner, input);
            if items.len() == 0 {
                Err(input)
            } else {
                proof {
                    assert(value_models(items@) =~= Value::Repeated(items).model()->Repeated_0);
                }
                Ok((last, Value::Repeated(items)))
            }
        },
        ValueType::Custom => match U::parse_from_command(input) {
            Ok((rest, u)) => Ok((rest, Value::Custom(u))),
            Err(rest) => Err(rest),
        },
    }
}

/// Reads values of kind `ty` from the front of `input` for as long as that
/// succeeds and consumes something: returns what is left, then the values.
pub fn parse_repeated<'a, U: CommandParse>(ty: &ValueType, input: &'a str) -> (r: (
    &'a str,
    Vec<Value<U>>,
))
    ensures
        r.0@ == repeat_value_model::<U>(*ty, input@).0,
        value_models(r.1@) == repeat_value_model::<U>(*ty, input@).1,
    decreases ty, 1int,
{
    let mut items: Vec<Value<U>> = Vec::new();
    let mut rest = input;
    let mut len: usize = input.unicode_len();
    loop
        invariant
            len == rest@.len(),
            repeat_value_model::<U>(*ty, input@).0 == repeat_value_model::<U>(*ty, rest@).0,
            repeat_value_model::<U>(*ty, input@).1 == value_models(items@) + repeat_value_model::<
                U,
            >(*ty, rest@).1,
        ensures
            rest@ == repeat_value_model::<U>(*ty, input@).0,
            value_models(items@) == repeat_value_model::<U>(*ty, input@).1,
        decreases len,
    {
        match parse_value::<U>(ty, rest) {
            Ok((next, v)) => {
                let next_len: usize = next.unicode_len();
                if next_len < len {
                    proof {
                        let m = v.model();
                        let tail = repeat_value_model::<U>(*ty, next@).1;
                        assert(value_models(items@.push(v)) =~= value_models(items@) + seq![m]);
                        assert(value_models(items@) + (seq![m] + tail) =~= (value_models(items@)
                            + seq![m]) + tail);
                    }
                    items.push(v);
                    rest = next;
                    len = next_len;
                } else {
                    proof {
                        assert(value_models(items@) + Seq::<ValueModel<U::Model>>::empty()
                            =~= value_models(items@));
                    }
                    break ;
                }
            },
            Err(_) => {
                proof {
                    assert(value_models(items@) + Seq::<ValueModel<U::Model>>::empty()
                        =~= value_models(items@));
                }
                break ;
            },
        }
    }
    (rest, items)
}

/// Writes a value as text.
pub fn format_value<U: CommandParse>(v: &Value<U>) -> (r: String)
    ensures
        r@ == format_value_model::<U>(v.model()),
    decreases v,
{
    match v {
        Value::Integer(n) => format_integer(*n),
        Value::Word(w) => w.clone(),
        Value::Optional(None) => String::new(),
        Value::Optional(Some(inner)) => format_value::<U>(&**inner),
        Value::Repeated(items) => {
            let mut parts: Vec<String> = Vec::new();
            let mut i: usize = 0;
            while i < items.len()
                invariant
                    i <= items.len(),
                    *v == Value::<U>::Repeated(*items),
                    parts@.len() == i,
                    forall|j: int|
                        0 <= j < i ==> (#[trigger] parts@[j])@ == format_value_model::<U>(
                            items@[j].model(),
                        ),
                decreases items.len() - i,
            {
                proof {
                    assert(v->Repeated_0 == *items);
                }
                let part = format_value::<U>(&items[i]);
                parts.push(part);
                i += 1;
            }
            proof {
                reveal_strlit(" ");
                assert(" "@ =~= seq![' ']);
                assert(texts_of(parts@) =~= format_value_models::<U>(value_models(items@)));
                assert(value_models(items@) =~= v.model()->Repeated_0);
            }
            join_texts(&parts, " ")
        },
        Value::Custom(u) => u.format_command(),
    }
}

/// Whether two values stand for the same thing.
pub fn same_value<U: CommandParse>(a: &Value<U>, b: &Value<U>) -> (r: bool)
    ensures
        r == (a.model() == b.model()),
    decreases a,
{
    match (a, b) {
        (Value::Integer(x), Value::Integer(y)) => *x == *y,
        (Value::Word(x), Value::Word(y)) => *x == *y,
        (Value::Optional(None), Value::Optional(None)) => true,
        (Value::Optional(Some(x)), Value::Optional(Some(y))) => same_value::<U>(&**x, &**y),
        (Value::Repeated(xs), Value::Repeated(ys)) => {
            if xs.len() != ys.len() {
                proof {
                    assert(a.model()->Repeated_0.len() != b.model()->Repeated_0.len());
                }
                return false;
            }
            let mut i: usize = 0;
            while i < xs.len()
                invariant
                    i <= xs.len(),
                    xs.len() == ys.len(),
                    *a == Value::<U>::Repeated(*xs),
                    *b == Value::<U>::Repeated(*ys),
                    forall|j: int| 0 <= j < i ==> xs@[j].model() == ys@[j].model(),
                decreases xs.len() - i,
            {
                if !same_value::<U>(&xs[i], &ys[i]) {
                    proof {
                        assert(a.model()->Repeated_0[i as int] == xs@[i as int].model());
                        assert(b.model()->Repeated_0[i as int] == ys@[i as int].model());
                    }
                    return false;
                }
                i += 1;
            }
            proof {
                assert(a.model()->Repeated_0 =~= b.model()->Repeated_0);
            }
            true
        },
        (Value::Custom(x), Value::Custom(y)) => x.same_command(y),
        _ => false,
    }
}

/// A second value that stands for the same thing.
pub fn clone_value<U: CommandParse>(v: &Value<U>) -> (r: Value<U>)
    ensures
        r.model() == v.model(),
    decreases v,
{
    match v {
        Value::Integer(n) => Value::Integer(*n),
        Value::Word(w) => Value::Word(w.clone()),
        Value::Optional(None) => Value::Optional(None),
        Value::Optional(Some(inner)) => Value::Optional(Some(Box::new(clone_value::<U>(&**inner)))),
        Value::Repeated(items) => {
            let mut out: Vec<Value<U>> = Vec::new();
            let mut i: usize = 0;
            while i < items.len()
                invariant
                    i <= items.len(),
                    *v == Value::<U>::Repeated(*items),
                    out@.len() == i,
                    forall|j: int| 0 <= j < i ==> out@[j].model() == items@[j].model(),
                decreases items.len() - i,
            {
                proof {
                    assert(v->Repeated_0 == *items);
                }
                let item = clone_value::<U>(&items[i]);
                out.push(item);
                i += 1;
            }
            proof {
                assert(Value::Repeated(out).model()->Repeated_0 =~= v.model()->Repeated_0);
            }
            Value::Repeated(out)
        },
        Value::Custom(u) => Value::Custom(u.clone_command()),
    }
}

} // verus!
