//! JSON values, as far as the upstream interfaces use them.
use vstd::prelude::*;
use crate::text::{ascii_lowercase, chars_of, decimal, lemma_decimal_round_trip, lower_chars, parse_u64, same, str_eq, to_u64};

verus! {

/// A JSON value. A number is kept where it is an unsigned 64-bit integer.
#[derive(Debug)]
pub enum Json {
    Null,
    Bool(bool),
    Number(Option<u64>),
    Text(String),
    List(Vec<Json>),
    Object(Vec<(String, Json)>),
}

/// The first member of `o` with the name `key`.
pub open spec fn member(o: Seq<(String, Json)>, key: Seq<char>) -> Option<Json>
    decreases o.len(),
{
    if o.len() == 0 {
        None
    } else if o[0].0@ == key {
        Some(o[0].1)
    } else {
        member(o.skip(1), key)
    }
}

impl Json {
    /// The member of an object with the name `key`.
    pub open spec fn field(self, key: Seq<char>) -> Option<Json> {
        match self {
            Json::Object(o) => member(o@, key),
            _ => None,
        }
    }

    /// The text of a string.
    pub open spec fn text(self) -> Option<Seq<char>> {
        match self {
            Json::Text(s) => Some(s@),
            _ => None,
        }
    }

    /// The text of the string in a member.
    pub open spec fn field_text(self, key: Seq<char>) -> Option<Seq<char>> {
        match self.field(key) {
            Some(v) => v.text(),
            None => None,
        }
    }

    pub fn get(&self, key: &str) -> (r: Option<&Json>)
        ensures
            match r {
                Some(v) => self.field(key@) == Some(*v),
                None => self.field(key@) is None,
            },
    {
        match self {
            Json::Object(o) => {
                let mut i: usize = 0;
                proof {
                    assert(o@.skip(0) =~= o@);
                }
                while i < o.len()
                    invariant
                        i <= o@.len(),
                        self.field(key@) == member(o@, key@),
                        member(o@, key@) == member(o@.skip(i as int), key@),
                    decreases o@.len() - i,
                {
                    proof {
                        assert(o@.skip(i as int)[0] == o@[i as int]);
                        assert(o@.skip(i as int).skip(1) =~= o@.skip(i + 1));
                    }
                    if str_eq(&o[i].0, key) {
                        return Some(&o[i].1);
                    }
                    i = i + 1;
                }
                None
            },
            _ => None,
        }
    }

    pub fn as_text(&self) -> (r: Option<&String>)
        ensures
            match r {
                Some(s) => self.text() == Some(s@),
                None => self.text() is None,
            },
    {
        match self {
            Json::Text(s) => Some(s),
            _ => None,
        }
    }

    /// The text of the string in a member.
    pub fn get_text(&self, key: &str) -> (r: Option<&String>)
        ensures
            match r {
                Some(s) => self.field_text(key@) == Some(s@),
                None => self.field_text(key@) is None,
            },
    {
        match self.get(key) {
            Some(v) => v.as_text(),
            None => None,
        }
    }
}

/// A number above zero, `true`, or a text of such a number.
pub open spec fn truthy(v: Json) -> bool {
    match v {
        Json::Number(Some(n)) => n > 0,
        Json::Text(s) => parse_u64(s@) matches Some(n) && n > 0,
        Json::Bool(b) => b,
        _ => false,
    }
}

pub fn is_truthy(v: &Json) -> (r: bool)
    ensures
        r == truthy(*v),
{
    match v {
        Json::Number(Some(n)) => *n > 0,
        Json::Text(s) => match to_u64(&chars_of(s)) {
            Some(n) => n > 0,
            None => false,
        },
        Json::Bool(b) => *b,
        _ => false,
    }
}

/// A number, or a text of one.
pub open spec fn as_number(v: Json) -> Option<u64> {
    match v {
        Json::Number(n) => n,
        Json::Text(s) => parse_u64(s@),
        _ => None,
    }
}

pub fn to_number(v: &Json) -> (r: Option<u64>)
    ensures
        r == as_number(*v),
{
    match v {
        Json::Number(n) => *n,
        Json::Text(s) => to_u64(&chars_of(s)),
        _ => None,
    }
}

/// Whether `s` is the word "true", in any case.
pub open spec fn says_true(s: Seq<char>) -> bool {
    ascii_lowercase(s) == "true"@
}

pub fn is_true_word(s: &str) -> (r: bool)
    ensures
        r == says_true(s@),
{
    same(&lower_chars(&chars_of(s)), &chars_of("true"))
}

/// Of two members with one name the first counts, and other names do not.
pub proof fn law_the_first_member_counts(name: String, v: Json, rest: Seq<(String, Json)>, key: Seq<char>)
    ensures
        member(seq![(name, v)] + rest, name@) == Some(v),
        key != name@ ==> member(seq![(name, v)] + rest, key) == member(rest, key),
        member(Seq::empty(), key) is None,
{
    let o = seq![(name, v)] + rest;
    assert(o[0] == (name, v));
    assert(o.skip(1) =~= rest);
}

/// Numbers above zero, the texts for them, and `true` mean yes.
pub proof fn law_yes_is_told(n: u64, s: String)
    ensures
        truthy(Json::Number(Some(n))) == (n > 0),
        truthy(Json::Bool(true)) && !truthy(Json::Bool(false)),
        !truthy(Json::Null) && !truthy(Json::Number(None)),
        s@ == decimal(n as nat) ==> truthy(Json::Text(s)) == (n > 0) && as_number(Json::Text(s)) == Some(n),
        as_number(Json::Number(Some(n))) == Some(n),
        as_number(Json::Bool(true)) is None,
{
    lemma_decimal_round_trip(n as nat);
}

} // verus!
