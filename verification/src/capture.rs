//! The protocol of a capture's value type, and the combinators built on it.

use vstd::prelude::*;

verus! {

/// A type whose values can stand in a command: it reads itself from the front
/// of the input and writes itself back as text.
///
/// The three specification functions say what the four methods compute. As
/// they are given here they say nothing, which is what holds of an
/// implementation that is not verified; a verified implementation states
/// its own.
pub trait CommandParse: Sized {
    /// The mathematical value that a value of the type stands for.
    type Model;

    /// The value that `self` stands for.
    open spec fn model(&self) -> Self::Model {
        arbitrary()
    }

    /// What reading from `input` gives: the unconsumed rest with the value
    /// read, or on failure the text reported as unconsumed.
    open spec fn parse_model(input: Seq<char>) -> Result<(Seq<char>, Self::Model), Seq<char>> {
        arbitrary()
    }

    /// The text that stands for a value.
    open spec fn format_model(m: Self::Model) -> Seq<char> {
        arbitrary()
    }

    /// Reads a value from the front of `value`.
    fn parse_from_command(value: &str) -> (r: Result<(&str, Self), &str>)
        ensures
            match r {
                Ok((rest, v)) => Self::parse_model(value@) == Ok::<
                    (Seq<char>, Self::Model),
                    Seq<char>,
                >((rest@, v.model())),
                Err(rest) => Self::parse_model(value@) == Err::<
                    (Seq<char>, Self::Model),
                    Seq<char>,
                >(rest@),
            },
    ;

    /// Writes the value as text.
    fn format_command(&self) -> (r: String)
        ensures
            r@ == Self::format_model(self.model()),
    ;

    /// Whether two values stand for the same thing.
    fn same_command(&self, other: &Self) -> (r: bool)
        ensures
            r == (self.model() == other.model()),
    ;

    /// A second value that stands for the same thing.
    fn clone_command(&self) -> (r: Self)
        ensures
            r.model() == self.model(),
    ;
}

/// What `parse_command` gives on `input`: the value, where `T` reads one and
/// nothing is left over; else the text left unconsumed.
pub open spec fn parse_command_model<T: CommandParse>(input: Seq<char>) -> Result<
    T::Model,
    Seq<char>,
> {
    match T::parse_model(input) {
        Ok((rest, m)) => if rest.len() == 0 {
            Ok(m)
        } else {
            Err(rest)
        },
        Err(rest) => Err(rest),
    }
}

/// What `parse_optional_command` gives on `input`: the rest and the value
/// where `T` reads one, else the whole input and nothing.
pub open spec fn parse_optional_model<T: CommandParse>(input: Seq<char>) -> (
    Seq<char>,
    Option<T::Model>,
) {
    match T::parse_model(input) {
        Ok((rest, m)) => (rest, Some(m)),
        Err(_) => (input, None),
    }
}

/// Every successful read of a `T` leaves less than it was given.
pub open spec fn always_consumes<T: CommandParse>() -> bool {
    forall|s: Seq<char>|
        match #[trigger] T::parse_model(s) {
            Ok((rest, _)) => rest.len() < s.len(),
            Err(_) => true,
        }
}

/// What `parse_multiple_commands` gives on `input`: the values that `T` reads
/// one after another, and what is left when a read fails. A read that consumes
/// nothing ends the run.
pub open spec fn parse_multiple_model<T: CommandParse>(input: Seq<char>) -> (
    Seq<char>,
    Seq<T::Model>,
)
    decreases input.len(),
{
    match T::parse_model(input) {
        Ok((rest, m)) => if rest.len() < input.len() {
            let (last, items) = parse_multiple_model::<T>(rest);
            (last, seq![m] + items)
        } else {
            (input, Seq::empty())
        },
        Err(_) => (input, Seq::empty()),
    }
}

/// The values of `items`, each taken by what it stands for.
pub open spec fn models_of<T: CommandParse>(items: Seq<T>) -> Seq<T::Model> {
    items.map_values(|v: T| v.model())
}

/// Reads `value` as one `T` that takes up the whole text.
pub fn parse_command<T>(value: &str) -> (r: Result<T, &str>) where T: CommandParse
    ensures
        match r {
            Ok(v) => parse_command_model::<T>(value@) == Ok::<T::Model, Seq<char>>(v.model()),
            Err(rest) => parse_command_model::<T>(value@) == Err::<T::Model, Seq<char>>(rest@),
        },
{
    match T::parse_from_command(value) {
        Ok((rest, v)) => {
            if !rest.is_empty() {
                Err(rest)
            } else {
                Ok(v)
            }
        },
        Err(rest) => Err(rest),
    }
}

/// Reads a `T` from the front of `value` where there is one; else leaves the
/// text as it is.
pub fn parse_optional_command<T>(value: &str) -> (r: (&str, Option<T>)) where T: CommandParse
    ensures
        r.0@ == parse_optional_model::<T>(value@).0,
        match r.1 {
            Some(v) => parse_optional_model::<T>(value@).1 == Some(v.model()),
            None => parse_optional_model::<T>(value@).1 is None,
        },
{
    match T::parse_from_command(value) {
        Ok((rest, v)) => (rest, Some(v)),
        Err(_) => (value, None),
    }
}

/// Reads `T` after `T` from the front of `value` for as long as that succeeds.
pub fn parse_multiple_commands<T>(value: &str) -> (r: (&str, Vec<T>)) where T: CommandParse
    requires
        always_consumes::<T>(),
    ensures
        r.0@ == parse_multiple_model::<T>(value@).0,
        models_of(r.1@) == parse_multiple_model::<T>(value@).1,
{
    let mut items: Vec<T> = Vec::new();
    let mut rest = value;
    loop
        invariant
            always_consumes::<T>(),
            parse_multiple_model::<T>(value@).0 == parse_multiple_model::<T>(rest@).0,
            parse_multiple_model::<T>(value@).1 == models_of(items@) + parse_multiple_model::<T>(
                rest@,
            ).1,
        decreases rest@.len(),
    {
        match T::parse_from_command(rest) {
            Ok((next_rest, item)) => {
                proof {
                    let m = item.model();
                    let tail = parse_multiple_model::<T>(next_rest@).1;
                    assert(models_of(items@.push(item)) =~= models_of(items@) + seq![m]);
                    assert(models_of(items@) + (seq![m] + tail) =~= (models_of(items@) + seq![m])
                        + tail);
                }
                rest = next_rest;
                items.push(item);
            },
            Err(_) => {
                proof {
                    assert(models_of(items@) + Seq::<T::Model>::empty() =~= models_of(items@));
                }
                return (rest, items);
            },
        }
    }
}

impl CommandParse for String {
    type Model = Seq<char>;

    open spec fn model(&self) -> Seq<char> {
        self@
    }

    /// A word: what stands before the first space, which is consumed with
    /// it. An empty word is no word.
    open spec fn parse_model(input: Seq<char>) -> Result<(Seq<char>, Seq<char>), Seq<char>> {
        if crate::text::first_word(input).len() == 0 {
            Err(crate::text::after_first_word(input))
        } else {
            Ok((crate::text::after_first_word(input), crate::text::first_word(input)))
        }
    }

    open spec fn format_model(m: Seq<char>) -> Seq<char> {
        m
    }

    fn parse_from_command(value: &str) -> (r: Result<(&str, Self), &str>) {
        let (rest, word) = crate::text::parse_str(value);
        if word.is_empty() {
            return Err(rest);
        }
        Ok((rest, word.to_owned()))
    }

    fn format_command(&self) -> (r: String) {
        self.clone()
    }

    fn same_command(&self, other: &Self) -> (r: bool) {
        *self == *other
    }

    fn clone_command(&self) -> (r: Self) {
        self.clone()
    }
}

impl CommandParse for i32 {
    type Model = i32;

    open spec fn model(&self) -> i32 {
        *self
    }

    open spec fn parse_model(input: Seq<char>) -> Result<(Seq<char>, i32), Seq<char>> {
        crate::integer::integer_parse(input)
    }

    open spec fn format_model(m: i32) -> Seq<char> {
        crate::integer::decimal_text(m as int)
    }

    fn parse_from_command(value: &str) -> (r: Result<(&str, Self), &str>) {
        crate::integer::parse_integer(value)
    }

    fn format_command(&self) -> (r: String) {
        crate::integer::format_integer(*self)
    }

    fn same_command(&self, other: &Self) -> (r: bool) {
        *self == *other
    }

    fn clone_command(&self) -> (r: Self) {
        *self
    }
}

impl<T> CommandParse for Box<T> where T: CommandParse {
    type Model = T::Model;

    open spec fn model(&self) -> T::Model {
        (**self).model()
    }

    open spec fn parse_model(input: Seq<char>) -> Result<(Seq<char>, T::Model), Seq<char>> {
        T::parse_model(input)
    }

    open spec fn format_model(m: T::Model) -> Seq<char> {
        T::format_model(m)
    }

    fn parse_from_command(value: &str) -> (r: Result<(&str, Self), &str>) {
        match T::parse_from_command(value) {
            Ok((rest, v)) => Ok((rest, Box::new(v))),
            Err(rest) => Err(rest),
        }
    }

    fn format_command(&self) -> (r: String) {
        (**self).format_command()
    }

    fn same_command(&self, other: &Self) -> (r: bool) {
        (**self).same_command(&**other)
    }

    fn clone_command(&self) -> (r: Self) {
        Box::new((**self).clone_command())
    }
}

/// Every word that is read takes at least one letter from the input.
pub proof fn lemma_words_consume()
    ensures
        always_consumes::<String>(),
{
    assert forall|s: Seq<char>|
        match #[trigger] <String as CommandParse>::parse_model(s) {
            Ok((rest, _)) => rest.len() < s.len(),
            Err(_) => true,
        } by {
        crate::text::lemma_first_index_of(s, ' ');
    }
}

/// Every integer that is read takes at least one digit from the input.
pub proof fn lemma_integers_consume()
    ensures
        always_consumes::<i32>(),
{
    assert forall|s: Seq<char>|
        match #[trigger] <i32 as CommandParse>::parse_model(s) {
            Ok((rest, _)) => rest.len() < s.len(),
            Err(_) => true,
        } by {
        let negative = s.len() > 0 && s[0] == '-';
        let body = if negative {
            s.skip(1)
        } else {
            s
        };
        crate::integer::lemma_digit_run(body);
    }
}

/// The type to name where a grammar has no captures of the caller's own:
/// no text is read as one.
#[derive(Debug, Clone, Copy, PartialEq, Eq)]
pub struct NoExtension;

impl CommandParse for NoExtension {
    type Model = ();

    open spec fn model(&self) -> () {
        ()
    }

    open spec fn parse_model(input: Seq<char>) -> Result<(Seq<char>, ()), Seq<char>> {
        Err(input)
    }

    open spec fn format_model(m: ()) -> Seq<char> {
        Seq::empty()
    }

    fn parse_from_command(value: &str) -> (r: Result<(&str, Self), &str>) {
        Err(value)
    }

    fn format_command(&self) -> (r: String) {
        String::new()
    }

    fn same_command(&self, other: &Self) -> (r: bool) {
        true
    }

    fn clone_command(&self) -> (r: Self) {
        NoExtension
    }
}

} // verus!
