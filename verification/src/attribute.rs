//! Name/value pair carried by a start tag, built character by character
//! while the tokenizer scans attribute syntax.

use vstd::prelude::*;

use crate::chars::lower_char;
use crate::chars::push_char;
use crate::chars::to_lowercase_char;

verus! {

/// Mathematical content of an [`Attribute`].
pub ghost struct AttributeModel {
    pub name: Seq<char>,
    pub value: Seq<char>,
}

#[derive(Debug, Clone, PartialEq, Eq)]
pub struct Attribute {
    pub name: String,
    pub value: String,
}

impl View for Attribute {
    type V = AttributeModel;

    open spec fn view(&self) -> AttributeModel {
        AttributeModel { name: self.name@, value: self.value@ }
    }
}

impl Attribute {
    /// An attribute with empty name and value.
    pub fn new() -> (a: Attribute)
        ensures
            a@.name == Seq::<char>::empty(),
            a@.value == Seq::<char>::empty(),
    {
        Attribute { name: String::new(), value: String::new() }
    }

    /// Appends one character: to the name when `is_name` holds (lower-cased
    /// on append), to the value otherwise.
    pub fn add_char(&mut self, c: char, is_name: bool)
        ensures
            is_name ==> final(self)@.name == old(self)@.name.push(lower_char(c))
                && final(self)@.value == old(self)@.value,
            !is_name ==> final(self)@.value == old(self)@.value.push(c)
                && final(self)@.name == old(self)@.name,
    {
        if is_name {
            let lc = to_lowercase_char(c);
            push_char(&mut self.name, lc);
        } else {
            push_char(&mut self.value, c);
        }
    }
}

/// An element-wise copy of an attribute.
pub fn clone_attribute(a: &Attribute) -> (r: Attribute)
    ensures
        r == *a,
{
    Attribute { name: a.name.clone(), value: a.value.clone() }
}

/// An element-wise copy of an attribute list.
pub fn clone_attributes(v: &Vec<Attribute>) -> (r: Vec<Attribute>)
    ensures
        r@ == v@,
{
    let mut r: Vec<Attribute> = Vec::new();
    let mut i: usize = 0;
    while i < v.len()
        invariant
            i <= v@.len(),
            r@ == v@.subrange(0, i as int),
        decreases v@.len() - i,
    {
        r.push(clone_attribute(&v[i]));
        i = i + 1;
        proof {
            assert(r@ =~= v@.subrange(0, i as int));
        }
    }
    proof {
        assert(r@ =~= v@);
    }
    r
}

} // verus!
