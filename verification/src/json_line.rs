//! Report lines: one JSON object with its fields in a fixed order.
use crate::text::{put_decimal, put_hex, put_signed_decimal};
#[allow(unused_imports)]
use crate::text::{decimal, hex, signed_decimal};
use vstd::prelude::*;
use vstd::string::*;

verus! {

/// Fields, separated by commas.
pub open spec fn joined(fields: Seq<Seq<char>>) -> Seq<char>
    decreases fields.len(),
{
    if fields.len() == 0 {
        Seq::empty()
    } else if fields.len() == 1 {
        fields[0]
    } else {
        joined(fields.drop_last()) + ","@ + fields.last()
    }
}

/// The object with these fields.
pub open spec fn object_text(fields: Seq<Seq<char>>) -> Seq<char> {
    "{"@ + joined(fields) + "}"@
}

pub open spec fn raw_field(name: Seq<char>, value: Seq<char>) -> Seq<char> {
    "\""@ + name + "\":"@ + value
}

pub open spec fn number_field(name: Seq<char>, n: nat) -> Seq<char> {
    raw_field(name, decimal(n))
}

pub open spec fn signed_field(name: Seq<char>, n: int) -> Seq<char> {
    raw_field(name, signed_decimal(n))
}

pub open spec fn bool_field(name: Seq<char>, value: bool) -> Seq<char> {
    raw_field(
        name,
        if value {
            "true"@
        } else {
            "false"@
        },
    )
}

/// A text that needs no escapes.
pub open spec fn text_field(name: Seq<char>, text: Seq<char>) -> Seq<char> {
    raw_field(name, "\""@ + text + "\""@)
}

/// A checksum in eight hex digits.
pub open spec fn checksum_field(name: Seq<char>, sum: u32) -> Seq<char> {
    text_field(name, hex(sum as nat, 8))
}

/// An object in the making.
pub struct JsonLine {
    text: String,
    first: bool,
    listed: Ghost<Seq<Seq<char>>>,
}

impl JsonLine {
    /// The fields so far.
    pub closed spec fn fields(&self) -> Seq<Seq<char>> {
        self.listed@
    }

    pub closed spec fn ok(&self) -> bool {
        &&& self.first == (self.listed@.len() == 0)
        &&& self.text@ == "{"@ + joined(self.listed@)
    }

    pub fn new() -> (line: Self)
        ensures
            line.ok(),
            line.fields() == Seq::<Seq<char>>::empty(),
    {
        let line = JsonLine { text: "{".to_owned(), first: true, listed: Ghost(Seq::empty()) };
        assert(line.text@ =~= "{"@ + joined(Seq::<Seq<char>>::empty()));
        line
    }

    /// Adds a field whose value is written as it is.
    pub fn raw(&mut self, name: &str, value: &str)
        requires
            old(self).ok(),
        ensures
            final(self).ok(),
            final(self).fields() == old(self).fields().push(raw_field(name@, value@)),
    {
        let ghost before = self.listed@;
        if !self.first {
            self.text.append(",");
        }
        self.first = false;
        self.text.append("\"");
        self.text.append(name);
        self.text.append("\":");
        self.text.append(value);
        self.listed = Ghost(before.push(raw_field(name@, value@)));
        proof {
            let fields = self.listed@;
            assert(fields.drop_last() =~= before);
            assert(self.text@ =~= "{"@ + joined(fields));
        }
    }

    pub fn number(&mut self, name: &str, n: u128)
        requires
            old(self).ok(),
        ensures
            final(self).ok(),
            final(self).fields() == old(self).fields().push(number_field(name@, n as nat)),
    {
        let mut value = String::new();
        put_decimal(&mut value, n);
        assert(value@ =~= decimal(n as nat));
        self.raw(name, value.as_str());
    }

    pub fn signed(&mut self, name: &str, n: i64)
        requires
            old(self).ok(),
        ensures
            final(self).ok(),
            final(self).fields() == old(self).fields().push(signed_field(name@, n as int)),
    {
        let mut value = String::new();
        put_signed_decimal(&mut value, n);
        assert(value@ =~= signed_decimal(n as int));
        self.raw(name, value.as_str());
    }

    pub fn boolean(&mut self, name: &str, value: bool)
        requires
            old(self).ok(),
        ensures
            final(self).ok(),
            final(self).fields() == old(self).fields().push(bool_field(name@, value)),
    {
        if value {
            self.raw(name, "true");
        } else {
            self.raw(name, "false");
        }
    }

    pub fn text(&mut self, name: &str, text: &str)
        requires
            old(self).ok(),
        ensures
            final(self).ok(),
            final(self).fields() == old(self).fields().push(text_field(name@, text@)),
    {
        let mut value = "\"".to_owned();
        value.append(text);
        value.append("\"");
        self.raw(name, value.as_str());
    }

    pub fn checksum(&mut self, name: &str, sum: u32)
        requires
            old(self).ok(),
        ensures
            final(self).ok(),
            final(self).fields() == old(self).fields().push(checksum_field(name@, sum)),
    {
        let mut value = String::new();
        put_hex(&mut value, sum as u128, 8);
        assert(value@ =~= hex(sum as nat, 8));
        self.text(name, value.as_str());
    }

    /// The whole object.
    pub fn finish(self) -> (text: String)
        requires
            self.ok(),
        ensures
            text@ == object_text(self.fields()),
    {
        let mut text = self.text;
        text.append("}");
        text
    }
}

} // verus!
