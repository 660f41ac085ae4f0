//! Type tags: a class and a number. Tags canonically order SET fields and
//! resolve which CHOICE alternative was encoded, so their total order must be
//! stable: class first, number second.

use vstd::prelude::*;

verus! {

/// The class of a tag.
#[derive(Clone, Copy, PartialEq, Eq, Structural, Debug, Hash)]
pub enum Class {
    Universal,
    Application,
    Context,
    Private,
}

/// The rank of a class in the canonical tag order.
pub open spec fn class_rank(c: Class) -> int {
    match c {
        Class::Universal => 0,
        Class::Application => 1,
        Class::Context => 2,
        Class::Private => 3,
    }
}

/// A type's tag: its class and its number.
#[derive(Clone, Copy, PartialEq, Eq, Structural, Debug, Hash)]
pub struct Tag {
    pub class: Class,
    pub value: u32,
}

impl Tag {
    /// A single integer that orders tags canonically: class first, number second.
    pub open spec fn key(self) -> int {
        class_rank(self.class) * 0x1_0000_0000 + self.value
    }

    pub fn new(class: Class, value: u32) -> (r: Tag)
        ensures
            r == (Tag { class, value }),
    {
        Tag { class, value }
    }

    pub fn new_private(value: u32) -> (r: Tag)
        ensures
            r == (Tag { class: Class::Private, value }),
    {
        Tag { class: Class::Private, value }
    }

    /// Strict canonical order on tags.
    pub fn const_less_than(&self, other: Tag) -> (r: bool)
        ensures
            r == (self.key() < other.key()),
    {
        let a = self.class_rank_exec();
        let b = other.class_rank_exec();
        a < b || (a == b && self.value < other.value)
    }

    /// Non-strict canonical order on tags.
    pub fn le(&self, other: &Tag) -> (r: bool)
        ensures
            r == (self.key() <= other.key()),
    {
        let a = self.class_rank_exec();
        let b = other.class_rank_exec();
        a < b || (a == b && self.value <= other.value)
    }

    /// Whether two tags are the same.
    pub fn eq_tag(&self, other: &Tag) -> (r: bool)
        ensures
            r == (self.key() == other.key()),
            r == (*self == *other),
    {
        let a = self.class_rank_exec();
        let b = other.class_rank_exec();
        a == b && self.value == other.value
    }

    fn class_rank_exec(&self) -> (r: u8)
        ensures
            r == class_rank(self.class),
    {
        match self.class {
            Class::Universal => 0,
            Class::Application => 1,
            Class::Context => 2,
            Class::Private => 3,
        }
    }
}

} // verus!
