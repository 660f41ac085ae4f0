//! Ordered field descriptors for constructed and choice types, supplied by
//! the schema layer: each field pairs a tag with its optionality, and a SET's
//! fields are brought into canonical (tag-ascending) order here.

use vstd::prelude::*;
use crate::tag::Tag;
use crate::tag::Class;

verus! {

/// Whether a field must be present, may be absent, or has a default.
#[derive(Clone, Copy, PartialEq, Eq, Structural, Debug)]
pub enum FieldPresence {
    Required,
    Optional,
    Default,
}

/// One field of an aggregate or one alternative of a choice.
#[derive(Clone, Copy, PartialEq, Eq, Structural, Debug)]
pub struct Field {
    pub tag: Tag,
    pub presence: FieldPresence,
}

impl Field {
    pub fn new(tag: Tag, presence: FieldPresence) -> (r: Field)
        ensures
            r == (Field { tag, presence }),
    {
        Field { tag, presence }
    }

    /// Whether the field is OPTIONAL or DEFAULT, and so owns a presence bit.
    pub open spec fn spec_is_optional_or_default(self) -> bool {
        self.presence != FieldPresence::Required
    }
}

/// The predicate selecting fields that own a presence bit.
pub open spec fn optional_or_default() -> spec_fn(Field) -> bool {
    |f: Field| f.spec_is_optional_or_default()
}

/// Fields sorted when every earlier tag key is at most every later one.
pub open spec fn sorted_by_tag(s: Seq<Field>) -> bool {
    forall|i: int, j: int| 0 <= i < j < s.len() ==> #[trigger] s[i].tag.key() <= #[trigger] s[j].tag.key()
}

/// An ordered list of field descriptors: declaration order for SEQUENCE and
/// CHOICE, canonical tag order for SET once `canonical_sort` has run.
#[derive(Clone, Debug)]
pub struct Variants {
    pub fields: Vec<Field>,
}

impl Variants {
    pub fn new(fields: Vec<Field>) -> (r: Self)
        ensures
            r.fields == fields,
    {
        Variants { fields }
    }

    /// The smallest tag among the fields; the largest private tag when there
    /// are no fields.
    pub fn smallest_tag(&self) -> (r: Tag)
        ensures
            self.fields@.len() == 0 ==> r == (Tag { class: Class::Private, value: u32::MAX }),
            self.fields@.len() > 0 ==> (exists|i: int|
                0 <= i < self.fields@.len() && r == self.fields@[i].tag) && (forall|i: int|
                0 <= i < self.fields@.len() ==> r.key() <= #[trigger] self.fields@[i].tag.key()),
    {
        let mut best = Tag::new_private(u32::MAX);
        let n = self.fields.len();
        let mut i: usize = 0;
        if n == 0 {
            return best;
        }
        best = self.fields[0].tag;
        i = 1;
        while i < n
            invariant
                n == self.fields@.len(),
                0 < n,
                1 <= i <= n,
                exists|j: int| 0 <= j < i && best == self.fields@[j].tag,
                forall|j: int| 0 <= j < i ==> best.key() <= #[trigger] self.fields@[j].tag.key(),
            decreases n - i,
        {
            if self.fields[i].tag.const_less_than(best) {
                best = self.fields[i].tag;
            }
            i = i + 1;
        }
        best
    }

    /// The canonically sorted version of `self`.
    pub fn canonised(self) -> (r: Self)
        ensures
            sorted_by_tag(r.fields@),
            r.fields@.to_multiset() == self.fields@.to_multiset(),
    {
        let mut v = self;
        v.canonical_sort();
        v
    }

    /// Sorts the fields into canonical tag order, keeping exactly the same
    /// fields.
    pub fn canonical_sort(&mut self)
        ensures
            sorted_by_tag(final(self).fields@),
            final(self).fields@.to_multiset() == old(self).fields@.to_multiset(),
    {
        let ghost orig = self.fields@;
        let mut out: Vec<Field> = Vec::new();
        let n = self.fields.len();
        let mut i: usize = 0;
        proof {
            broadcast use vstd::seq_lib::group_to_multiset_ensures;

            assert(out@ =~= orig.take(0));
        }
        while i < n
            invariant
                n == orig.len(),
                self.fields@ == orig,
                i <= n,
                sorted_by_tag(out@),
                out@.to_multiset() == orig.take(i as int).to_multiset(),
            decreases n - i,
        {
            let f = self.fields[i];
            let pos = lower_insert_pos(&out, f);
            let ghost pre = out@;
            out.insert(pos, f);
            proof {
                lemma_insert_keeps_sorted(pre, pos as int, f);
                lemma_insert_multiset(pre, pos as int, f);
                broadcast use vstd::seq_lib::group_to_multiset_ensures;

                assert(orig.take(i as int + 1) =~= orig.take(i as int).push(f));
            }
            i = i + 1;
        }
        proof {
            assert(orig.take(n as int) =~= orig);
        }
        self.fields = out;
    }

    /// The fields, in order.
    pub fn iter(&self) -> (r: &Vec<Field>)
        ensures
            r == &self.fields,
    {
        &self.fields
    }

    /// The OPTIONAL and DEFAULT fields, in order.
    pub fn optional_and_default_fields(&self) -> (r: Vec<Field>)
        ensures
            r@ == self.fields@.filter(optional_or_default()),
    {
        let mut out: Vec<Field> = Vec::new();
        let n = self.fields.len();
        let mut i: usize = 0;
        proof {
            reveal(Seq::filter);
            assert(self.fields@.take(0).filter(optional_or_default()) =~= Seq::<Field>::empty());
        }
        while i < n
            invariant
                n == self.fields@.len(),
                i <= n,
                out@ == self.fields@.take(i as int).filter(optional_or_default()),
            decreases n - i,
        {
            let f = self.fields[i];
            proof {
                reveal(Seq::filter);
                let p = optional_or_default();
                let t = self.fields@.take(i as int + 1);
                assert(t.drop_last() =~= self.fields@.take(i as int));
                assert(t.last() == f);
                assert(p(f) == f.spec_is_optional_or_default());
                assert(t.filter(p) == if p(f) {
                    t.drop_last().filter(p).push(f)
                } else {
                    t.drop_last().filter(p)
                });
            }
            if matches!(f.presence, FieldPresence::Optional | FieldPresence::Default) {
                out.push(f);
            }
            i = i + 1;
        }
        proof {
            assert(self.fields@.take(n as int) =~= self.fields@);
        }
        out
    }

    /// Whether some field carries the given tag.
    pub fn contains_tag(&self, tag: Tag) -> (r: bool)
        ensures
            r == (exists|i: int|
                0 <= i < self.fields@.len() && #[trigger] self.fields@[i].tag == tag),
    {
        let n = self.fields.len();
        let mut i: usize = 0;
        while i < n
            invariant
                n == self.fields@.len(),
                i <= n,
                forall|j: int| 0 <= j < i ==> #[trigger] self.fields@[j].tag != tag,
            decreases n - i,
        {
            if self.fields[i].tag.eq_tag(&tag) {
                return true;
            }
            i = i + 1;
        }
        false
    }

    /// The position of the first field carrying the given tag.
    pub fn index_of(&self, tag: Tag) -> (r: Option<usize>)
        ensures
            match r {
                Some(idx) => idx < self.fields@.len() && self.fields@[idx as int].tag == tag
                    && (forall|j: int| 0 <= j < idx ==> #[trigger] self.fields@[j].tag != tag),
                None => forall|j: int|
                    0 <= j < self.fields@.len() ==> #[trigger] self.fields@[j].tag != tag,
            },
    {
        let n = self.fields.len();
        let mut i: usize = 0;
        while i < n
            invariant
                n == self.fields@.len(),
                i <= n,
                forall|j: int| 0 <= j < i ==> #[trigger] self.fields@[j].tag != tag,
            decreases n - i,
        {
            if self.fields[i].tag.eq_tag(&tag) {
                return Some(i);
            }
            i = i + 1;
        }
        None
    }

    /// The number of fields.
    pub fn len(&self) -> (r: usize)
        ensures
            r == self.fields@.len(),
    {
        self.fields.len()
    }
}

/// The first position whose tag key exceeds `f`'s; inserting `f` there keeps
/// a sorted list sorted and keeps equal keys in arrival order.
fn lower_insert_pos(out: &Vec<Field>, f: Field) -> (r: usize)
    requires
        sorted_by_tag(out@),
    ensures
        r <= out@.len(),
        forall|j: int| 0 <= j < r ==> #[trigger] out@[j].tag.key() <= f.tag.key(),
        forall|j: int| r <= j < out@.len() ==> f.tag.key() < #[trigger] out@[j].tag.key(),
{
    let n = out.len();
    let mut i: usize = 0;
    while i < n
        invariant
            n == out@.len(),
            sorted_by_tag(out@),
            i <= n,
            forall|j: int| 0 <= j < i ==> #[trigger] out@[j].tag.key() <= f.tag.key(),
        decreases n - i,
    {
        if f.tag.const_less_than(out[i].tag) {
            return i;
        }
        i = i + 1;
    }
    n
}

proof fn lemma_insert_keeps_sorted(s: Seq<Field>, pos: int, f: Field)
    requires
        sorted_by_tag(s),
        0 <= pos <= s.len(),
        forall|j: int| 0 <= j < pos ==> #[trigger] s[j].tag.key() <= f.tag.key(),
        forall|j: int| pos <= j < s.len() ==> f.tag.key() < #[trigger] s[j].tag.key(),
    ensures
        sorted_by_tag(s.insert(pos, f)),
{
    let t = s.insert(pos, f);
    assert forall|i: int, j: int| 0 <= i < j < t.len() implies #[trigger] t[i].tag.key()
        <= #[trigger] t[j].tag.key() by {
        if i < pos {
            assert(t[i] == s[i]);
        } else if i == pos {
            assert(t[i] == f);
        } else {
            assert(t[i] == s[i - 1]);
        }
        if j < pos {
            assert(t[j] == s[j]);
        } else if j == pos {
            assert(t[j] == f);
        } else {
            assert(t[j] == s[j - 1]);
        }
    }
}

proof fn lemma_insert_multiset(s: Seq<Field>, pos: int, f: Field)
    requires
        0 <= pos <= s.len(),
    ensures
        s.insert(pos, f).to_multiset() == s.to_multiset().insert(f),
{
    let t = s.insert(pos, f);
    broadcast use vstd::seq_lib::group_to_multiset_ensures;

    assert(t.remove(pos) =~= s);
    assert(t[pos] == f);
    assert(t.remove(pos).to_multiset() =~= t.to_multiset().remove(f));
    assert(t.to_multiset().contains(f)) by {
        assert(t.contains(f));
    }
    assert(t.to_multiset().remove(f).insert(f) =~= t.to_multiset());
    assert(s.to_multiset().insert(f) =~= t.to_multiset());
}

} // verus!
