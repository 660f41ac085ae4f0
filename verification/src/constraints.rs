//! The constraint model: per-value descriptors attached to a type at the
//! schema layer and consumed read-only by the codec. At most one constraint
//! of each kind is consulted; the first match wins.

use vstd::prelude::*;

verus! {

/// An optional lower and/or upper bound. Both bounds absent means
/// unconstrained; one bound means semi-constrained.
#[derive(Clone, Copy, PartialEq, Eq, Debug, Hash)]
pub struct Range<T> {
    pub start: Option<T>,
    pub end: Option<T>,
}

impl<T> Range<T> {
    /// A range bounded from below only.
    pub fn start_from(value: T) -> (r: Self)
        ensures
            r.start == Some(value),
            r.end.is_none(),
    {
        Range { start: Some(value), end: None }
    }

    /// A range bounded from above only.
    pub fn up_to(value: T) -> (r: Self)
        ensures
            r.start.is_none(),
            r.end == Some(value),
    {
        Range { start: None, end: Some(value) }
    }

    /// The lower bound, if one is declared.
    pub fn as_start(&self) -> (r: Option<&T>)
        ensures
            match r {
                Some(s) => self.start == Some(*s),
                None => self.start.is_none(),
            },
    {
        self.start.as_ref()
    }

    /// Both bounds, as declared.
    pub fn start_and_end(&self) -> (r: (Option<&T>, Option<&T>))
        ensures
            match r.0 {
                Some(s) => self.start == Some(*s),
                None => self.start.is_none(),
            },
            match r.1 {
                Some(e) => self.end == Some(*e),
                None => self.end.is_none(),
            },
    {
        (self.start.as_ref(), self.end.as_ref())
    }
}

impl<T: Copy> Range<T> {
    /// The range holding exactly one value.
    pub fn single_value(value: T) -> (r: Self)
        ensures
            r.start == Some(value),
            r.end == Some(value),
    {
        Range { start: Some(value), end: Some(value) }
    }

    /// A range from `start` to `end` inclusive. Bounds out of order are a
    /// programming error, not a data error.
    pub fn const_new(start: T, end: T) -> (r: Self)
        ensures
            r.start == Some(start),
            r.end == Some(end),
    {
        Range { start: Some(start), end: Some(end) }
    }

    /// The upper bound, if one is declared.
    pub fn end(&self) -> (r: Option<T>)
        ensures
            r == self.end,
    {
        self.end
    }
}

impl Range<i128> {
    /// Well-formed: when both bounds are present they are ordered.
    pub open spec fn wf(self) -> bool {
        self.start.is_some() && self.end.is_some() ==> self.start.unwrap() <= self.end.unwrap()
    }

    /// Whether `element` lies within the declared bounds.
    pub open spec fn spec_contains(self, element: int) -> bool {
        (match self.start {
            Some(s) => s <= element,
            None => true,
        }) && (match self.end {
            Some(e) => element <= e,
            None => true,
        })
    }

    /// The number of values the range covers, when both bounds are present
    /// and the count is representable; `None` otherwise.
    pub open spec fn spec_range(self) -> Option<int> {
        if self.start.is_some() && self.end.is_some() && self.start.unwrap() <= self.end.unwrap()
            && self.end.unwrap() - self.start.unwrap() + 1 <= i128::MAX {
            Some(self.end.unwrap() - self.start.unwrap() + 1)
        } else {
            None
        }
    }

    /// A range from `start` to `end` inclusive.
    pub fn new(start: i128, end: i128) -> (r: Self)
        requires
            start <= end,
        ensures
            r.start == Some(start),
            r.end == Some(end),
            r.wf(),
    {
        Range { start: Some(start), end: Some(end) }
    }

    /// The lower bound, or zero when none is declared.
    pub fn start(&self) -> (r: i128)
        ensures
            r == (match self.start {
                Some(s) => s,
                None => 0,
            }),
    {
        match self.start {
            Some(s) => s,
            None => 0,
        }
    }

    /// The count of values covered, when both bounds are present and the
    /// count fits; `None` for unconstrained, semi-constrained and oversized
    /// ranges, which all take the length-prefixed forms.
    pub fn range(&self) -> (r: Option<i128>)
        ensures
            match r {
                Some(v) => self.spec_range() == Some(v as int),
                None => self.spec_range().is_none(),
            },
    {
        match (self.start, self.end) {
            (Some(s), Some(e)) => {
                if s > e {
                    return None;
                }
                let sb = biased(s);
                let eb = biased(e);
                let diff = eb - sb;
                if diff >= 0x7FFFFFFFFFFFFFFFFFFFFFFFFFFFFFFFu128 {
                    None
                } else {
                    Some((diff + 1) as i128)
                }
            },
            _ => None,
        }
    }

    /// Whether `element` lies within the declared bounds.
    pub fn contains(&self, element: &i128) -> (r: bool)
        ensures
            r == self.spec_contains(*element as int),
    {
        (match self.start {
            Some(s) => *element >= s,
            None => true,
        }) && (match self.end {
            Some(e) => *element <= e,
            None => true,
        })
    }

    /// `Ok` when `element` lies within the bounds, the given error otherwise.
    pub fn contains_or<E>(&self, element: &i128, error: E) -> (r: Result<(), E>)
        ensures
            match r {
                Ok(_) => self.spec_contains(*element as int),
                Err(e) => !self.spec_contains(*element as int) && e == error,
            },
    {
        if self.contains(element) {
            Ok(())
        } else {
            Err(error)
        }
    }

    /// `Ok` when `element` lies within the bounds, the produced error otherwise.
    pub fn contains_or_else<E, F: FnOnce() -> E>(&self, element: &i128, error: F) -> (r: Result<
        (),
        E,
    >)
        requires
            !self.spec_contains(*element as int) ==> error.requires(()),
        ensures
            match r {
                Ok(_) => self.spec_contains(*element as int),
                Err(e) => !self.spec_contains(*element as int) && error.ensures((), e),
            },
    {
        if self.contains(element) {
            Ok(())
        } else {
            Err((error)())
        }
    }

    /// The effective value: the offset from the lower bound when one is
    /// declared, the value itself otherwise.
    pub fn effective_value(&self, value: i128) -> (r: Effective)
        requires
            match self.start {
                Some(s) => s <= value && value - s <= i128::MAX,
                None => true,
            },
        ensures
            match self.start {
                Some(s) => r == Effective::Offset((value - s) as i128),
                None => r == Effective::Raw(value),
            },
    {
        match self.start {
            Some(s) => {
                let vb = biased(value);
                let sb = biased(s);
                Effective::Offset((vb - sb) as i128)
            },
            None => Effective::Raw(value),
        }
    }
}

/// An `i128` shifted into `u128` so that differences of arbitrary bounds can
/// be taken without overflow.
fn biased(x: i128) -> (r: u128)
    ensures
        r == x + 0x80000000000000000000000000000000,
{
    if x >= 0 {
        (x as u128) + 0x80000000000000000000000000000000
    } else {
        ((x + 1) + 0x7FFFFFFFFFFFFFFFFFFFFFFFFFFFFFFFi128) as u128
    }
}

/// The effective value of an integer against a range: either the offset from
/// the declared lower bound, or the raw value when no lower bound exists.
#[derive(Clone, Copy, PartialEq, Eq, Structural, Debug)]
pub enum Effective {
    Offset(i128),
    Raw(i128),
}

impl Range<usize> {
    /// Well-formed: when both bounds are present they are ordered.
    pub open spec fn wf(self) -> bool {
        self.start.is_some() && self.end.is_some() ==> self.start.unwrap() <= self.end.unwrap()
    }

    /// Whether `element` lies within the declared bounds.
    pub open spec fn spec_contains(self, element: int) -> bool {
        (match self.start {
            Some(s) => s <= element,
            None => true,
        }) && (match self.end {
            Some(e) => element <= e,
            None => true,
        })
    }

    /// The number of lengths the range covers, when both bounds are present
    /// and the count is representable; `None` otherwise.
    pub open spec fn spec_range(self) -> Option<int> {
        if self.start.is_some() && self.end.is_some() && self.start.unwrap() <= self.end.unwrap()
            && self.end.unwrap() - self.start.unwrap() + 1 <= usize::MAX {
            Some(self.end.unwrap() - self.start.unwrap() + 1)
        } else {
            None
        }
    }

    /// A range from `start` to `end` inclusive.
    pub fn new(start: usize, end: usize) -> (r: Self)
        requires
            start <= end,
        ensures
            r.start == Some(start),
            r.end == Some(end),
            r.wf(),
    {
        Range { start: Some(start), end: Some(end) }
    }

    /// The lower bound, or zero when none is declared.
    pub fn start(&self) -> (r: usize)
        ensures
            r == (match self.start {
                Some(s) => s,
                None => 0,
            }),
    {
        match self.start {
            Some(s) => s,
            None => 0,
        }
    }

    /// The count of lengths covered, when both bounds are present and the
    /// count fits; `None` otherwise.
    pub fn range(&self) -> (r: Option<usize>)
        ensures
            match r {
                Some(v) => self.spec_range() == Some(v as int),
                None => self.spec_range().is_none(),
            },
    {
        match (self.start, self.end) {
            (Some(s), Some(e)) => {
                if s > e {
                    None
                } else if e - s == usize::MAX {
                    None
                } else {
                    Some(e - s + 1)
                }
            },
            _ => None,
        }
    }

    /// Whether `element` lies within the declared bounds.
    pub fn contains(&self, element: &usize) -> (r: bool)
        ensures
            r == self.spec_contains(*element as int),
    {
        (match self.start {
            Some(s) => *element >= s,
            None => true,
        }) && (match self.end {
            Some(e) => *element <= e,
            None => true,
        })
    }

    /// `Ok` when `element` lies within the bounds, the given error otherwise.
    pub fn contains_or<E>(&self, element: &usize, error: E) -> (r: Result<(), E>)
        ensures
            match r {
                Ok(_) => self.spec_contains(*element as int),
                Err(e) => !self.spec_contains(*element as int) && e == error,
            },
    {
        if self.contains(element) {
            Ok(())
        } else {
            Err(error)
        }
    }
}

/// A bound on an integer value.
#[derive(Clone, Copy, PartialEq, Eq, Debug, Hash)]
pub struct Value(pub Range<i128>);

impl Value {
    pub fn new(value: Range<i128>) -> (r: Self)
        ensures
            r == Value(value),
    {
        Value(value)
    }
}

/// A bound on a length, counted in the caller's units.
#[derive(Clone, Copy, PartialEq, Eq, Debug, Hash)]
pub struct Size(pub Range<usize>);

impl Size {
    pub fn new(range: Range<usize>) -> (r: Self)
        ensures
            r == Size(range),
    {
        Size(range)
    }
}

/// A fixed set of permitted character codes.
#[derive(Clone, PartialEq, Eq, Debug, Hash)]
pub struct PermittedAlphabet(pub Vec<u32>);

impl PermittedAlphabet {
    pub fn new(range: Vec<u32>) -> (r: Self)
        ensures
            r == PermittedAlphabet(range),
    {
        PermittedAlphabet(range)
    }

    pub fn as_inner(&self) -> (r: &Vec<u32>)
        ensures
            r == &self.0,
    {
        &self.0
    }
}

/// A base constraint together with its extension marker: `None` means not
/// extensible, `Some(list)` means extensible with the listed additional
/// constraints (the list may be empty).
#[derive(Clone, PartialEq, Eq, Debug)]
pub struct Extensible<T> {
    pub constraint: T,
    pub extensible: Option<Vec<T>>,
}

impl<T> Extensible<T> {
    pub fn new(constraint: T) -> (r: Self)
        ensures
            r.constraint == constraint,
            r.extensible.is_none(),
    {
        Extensible { constraint, extensible: None }
    }

    pub fn new_extensible(constraint: T, constraints: Vec<T>) -> (r: Self)
        ensures
            r.constraint == constraint,
            r.extensible == Some(constraints),
    {
        Extensible { constraint, extensible: Some(constraints) }
    }

    pub fn set_extensible(self, extensible: bool) -> (r: Self)
        ensures
            r.constraint == self.constraint,
            extensible ==> r.extensible.is_some() && r.extensible.unwrap()@ =~= Seq::<T>::empty(),
            !extensible ==> r.extensible.is_none(),
    {
        if extensible {
            Extensible { constraint: self.constraint, extensible: Some(Vec::new()) }
        } else {
            Extensible { constraint: self.constraint, extensible: None }
        }
    }

    pub fn extensible_with_constraints(self, constraints: Option<Vec<T>>) -> (r: Self)
        ensures
            r.constraint == self.constraint,
            r.extensible == constraints,
    {
        Extensible { constraint: self.constraint, extensible: constraints }
    }
}

/// One declared constraint.
#[derive(Clone, PartialEq, Eq, Debug)]
pub enum Constraint {
    Value(Extensible<Value>),
    Size(Extensible<Size>),
    PermittedAlphabet(Extensible<PermittedAlphabet>),
    /// The value itself is extensible; only meaningful for constructed,
    /// choice and enumerated types.
    Extensible,
}

/// The kind of a constraint.
#[derive(Clone, Copy, PartialEq, Eq, Structural, Debug)]
pub enum ConstraintDiscriminant {
    Value,
    Size,
    PermittedAlphabet,
    Extensible,
}

impl Constraint {
    /// The kind of this constraint.
    pub open spec fn spec_kind(&self) -> ConstraintDiscriminant {
        match self {
            Constraint::Value(_) => ConstraintDiscriminant::Value,
            Constraint::Size(_) => ConstraintDiscriminant::Size,
            Constraint::PermittedAlphabet(_) => ConstraintDiscriminant::PermittedAlphabet,
            Constraint::Extensible => ConstraintDiscriminant::Extensible,
        }
    }

    pub fn kind(&self) -> (r: ConstraintDiscriminant)
        ensures
            r == self.spec_kind(),
    {
        match self {
            Constraint::Value(_) => ConstraintDiscriminant::Value,
            Constraint::Size(_) => ConstraintDiscriminant::Size,
            Constraint::PermittedAlphabet(_) => ConstraintDiscriminant::PermittedAlphabet,
            Constraint::Extensible => ConstraintDiscriminant::Extensible,
        }
    }

    pub fn as_value(&self) -> (r: Option<&Extensible<Value>>)
        ensures
            match r {
                Some(v) => *self == Constraint::Value(*v),
                None => !(self matches Constraint::Value(_)),
            },
    {
        match self {
            Constraint::Value(integer) => Some(integer),
            _ => None,
        }
    }

    pub fn as_permitted_alphabet(&self) -> (r: Option<&Extensible<PermittedAlphabet>>)
        ensures
            match r {
                Some(v) => *self == Constraint::PermittedAlphabet(*v),
                None => !(self matches Constraint::PermittedAlphabet(_)),
            },
    {
        match self {
            Constraint::PermittedAlphabet(alphabet) => Some(alphabet),
            _ => None,
        }
    }

    pub fn to_size(&self) -> (r: Option<&Extensible<Size>>)
        ensures
            match r {
                Some(v) => *self == Constraint::Size(*v),
                None => !(self matches Constraint::Size(_)),
            },
    {
        match self {
            Constraint::Size(size) => Some(size),
            _ => None,
        }
    }

    pub fn to_value(&self) -> (r: Option<&Extensible<Value>>)
        ensures
            match r {
                Some(v) => *self == Constraint::Value(*v),
                None => !(self matches Constraint::Value(_)),
            },
    {
        match self {
            Constraint::Value(integer) => Some(integer),
            _ => None,
        }
    }

    /// Whether the constraint carries an extension marker.
    pub open spec fn spec_is_extensible(&self) -> bool {
        match self {
            Constraint::Value(value) => value.extensible.is_some(),
            Constraint::Size(size) => size.extensible.is_some(),
            Constraint::PermittedAlphabet(alphabet) => alphabet.extensible.is_some(),
            Constraint::Extensible => true,
        }
    }

    pub fn is_extensible(&self) -> (r: bool)
        ensures
            r == self.spec_is_extensible(),
    {
        match self {
            Constraint::Value(value) => value.extensible.is_some(),
            Constraint::Size(size) => size.extensible.is_some(),
            Constraint::PermittedAlphabet(alphabet) => alphabet.extensible.is_some(),
            Constraint::Extensible => true,
        }
    }
}

/// The first `Size` constraint in a list, if any.
pub open spec fn spec_size_of(cs: Seq<Constraint>) -> Option<Extensible<Size>>
    decreases cs.len(),
{
    if cs.len() == 0 {
        None
    } else {
        match cs[0] {
            Constraint::Size(s) => Some(s),
            _ => spec_size_of(cs.drop_first()),
        }
    }
}

/// The first `Value` constraint in a list, if any.
pub open spec fn spec_value_of(cs: Seq<Constraint>) -> Option<Extensible<Value>>
    decreases cs.len(),
{
    if cs.len() == 0 {
        None
    } else {
        match cs[0] {
            Constraint::Value(v) => Some(v),
            _ => spec_value_of(cs.drop_first()),
        }
    }
}

/// The first `PermittedAlphabet` constraint in a list, if any.
pub open spec fn spec_alphabet_of(cs: Seq<Constraint>) -> Option<Extensible<PermittedAlphabet>>
    decreases cs.len(),
{
    if cs.len() == 0 {
        None
    } else {
        match cs[0] {
            Constraint::PermittedAlphabet(a) => Some(a),
            _ => spec_alphabet_of(cs.drop_first()),
        }
    }
}

/// The first value constraint is one of the constraints.
pub proof fn lemma_value_of_mem(cs: Seq<Constraint>)
    requires
        spec_value_of(cs).is_some(),
    ensures
        exists|i: int|
            0 <= i < cs.len() && #[trigger] cs[i] == Constraint::Value(
                spec_value_of(cs).unwrap(),
            ),
    decreases cs.len(),
{
    if cs.len() > 0 {
        match cs[0] {
            Constraint::Value(v) => {
                assert(cs[0] == Constraint::Value(spec_value_of(cs).unwrap()));
            },
            _ => {
                lemma_value_of_mem(cs.drop_first());
                let i = choose|i: int|
                    0 <= i < cs.drop_first().len() && #[trigger] cs.drop_first()[i]
                        == Constraint::Value(spec_value_of(cs.drop_first()).unwrap());
                assert(cs[i + 1] == Constraint::Value(spec_value_of(cs).unwrap()));
            },
        }
    }
}

/// Whether any constraint in a list carries an extension marker.
pub open spec fn spec_any_extensible(cs: Seq<Constraint>) -> bool {
    exists|i: int| 0 <= i < cs.len() && cs[i].spec_is_extensible()
}

/// An ordered collection of constraints; at most one of each kind is
/// consulted, and the first match wins.
#[derive(Clone, PartialEq, Eq, Debug)]
pub struct Constraints(pub Vec<Constraint>);

impl Constraints {
    pub fn new(constraints: Vec<Constraint>) -> (r: Self)
        ensures
            r == Constraints(constraints),
    {
        Constraints(constraints)
    }

    /// Overrides a set of constraints with another set: the result keeps all
    /// of `rhs`, and adds each constraint of `lhs` whose kind the result does
    /// not hold yet.
    pub fn override_constraints(lhs: Self, rhs: Self) -> (r: Self)
        ensures
            r.0@ == spec_override(lhs.0@, rhs.0@),
    {
        let ghost orig = lhs.0@;
        let mut out = rhs;
        let mut rest = lhs;
        let mut i: usize = 0;
        let n = rest.0.len();
        let ghost base = out.0@;
        proof {
            assert(spec_override(orig.take(0), base) == base);
            assert(rest.0@ =~= orig.skip(0));
        }
        while i < n
            invariant
                n == orig.len(),
                i <= n,
                rest.0@ == orig.skip(i as int),
                out.0@ == spec_override(orig.take(i as int), base),
            decreases n - i,
        {
            let ghost pre = out.0@;
            let c = rest.0.remove(0);
            proof {
                assert(c == orig[i as int]);
                assert(rest.0@ =~= orig.skip(i as int + 1));
            }
            let present = has_kind(&out, c.kind());
            if !present {
                out.0.push(c);
            }
            proof {
                lemma_override_step(orig, base, i as int, pre);
            }
            i = i + 1;
        }
        proof {
            assert(orig.take(n as int) =~= orig);
        }
        out
    }

    /// The first size constraint, if any.
    pub fn size(&self) -> (r: Option<&Extensible<Size>>)
        ensures
            match r {
                Some(s) => spec_size_of(self.0@) == Some(*s),
                None => spec_size_of(self.0@).is_none(),
            },
    {
        let n = self.0.len();
        let mut i: usize = 0;
        proof {
            assert(self.0@.skip(0) =~= self.0@);
        }
        while i < n
            invariant
                n == self.0@.len(),
                i <= n,
                spec_size_of(self.0@) == spec_size_of(self.0@.skip(i as int)),
            decreases n - i,
        {
            proof {
                assert(self.0@.skip(i as int).drop_first() =~= self.0@.skip(i as int + 1));
            }
            if let Constraint::Size(s) = &self.0[i] {
                return Some(s);
            }
            i = i + 1;
        }
        proof {
            assert(self.0@.skip(n as int) =~= Seq::<Constraint>::empty());
        }
        None
    }

    /// The first permitted-alphabet constraint, if any.
    pub fn permitted_alphabet(&self) -> (r: Option<&Extensible<PermittedAlphabet>>)
        ensures
            match r {
                Some(a) => spec_alphabet_of(self.0@) == Some(*a),
                None => spec_alphabet_of(self.0@).is_none(),
            },
    {
        let n = self.0.len();
        let mut i: usize = 0;
        proof {
            assert(self.0@.skip(0) =~= self.0@);
        }
        while i < n
            invariant
                n == self.0@.len(),
                i <= n,
                spec_alphabet_of(self.0@) == spec_alphabet_of(self.0@.skip(i as int)),
            decreases n - i,
        {
            proof {
                assert(self.0@.skip(i as int).drop_first() =~= self.0@.skip(i as int + 1));
            }
            if let Constraint::PermittedAlphabet(a) = &self.0[i] {
                return Some(a);
            }
            i = i + 1;
        }
        proof {
            assert(self.0@.skip(n as int) =~= Seq::<Constraint>::empty());
        }
        None
    }

    /// The first value constraint, if any.
    pub fn value(&self) -> (r: Option<&Extensible<Value>>)
        ensures
            match r {
                Some(v) => spec_value_of(self.0@) == Some(*v),
                None => spec_value_of(self.0@).is_none(),
            },
    {
        let n = self.0.len();
        let mut i: usize = 0;
        proof {
            assert(self.0@.skip(0) =~= self.0@);
        }
        while i < n
            invariant
                n == self.0@.len(),
                i <= n,
                spec_value_of(self.0@) == spec_value_of(self.0@.skip(i as int)),
            decreases n - i,
        {
            proof {
                assert(self.0@.skip(i as int).drop_first() =~= self.0@.skip(i as int + 1));
            }
            if let Constraint::Value(v) = &self.0[i] {
                return Some(v);
            }
            i = i + 1;
        }
        proof {
            assert(self.0@.skip(n as int) =~= Seq::<Constraint>::empty());
        }
        None
    }

    /// Whether any constraint carries an extension marker.
    pub fn extensible(&self) -> (r: bool)
        ensures
            r == spec_any_extensible(self.0@),
    {
        let n = self.0.len();
        let mut i: usize = 0;
        while i < n
            invariant
                n == self.0@.len(),
                i <= n,
                forall|j: int| 0 <= j < i ==> !self.0@[j].spec_is_extensible(),
            decreases n - i,
        {
            if self.0[i].is_extensible() {
                return true;
            }
            i = i + 1;
        }
        false
    }
}

/// `rhs` extended, in order, with each constraint of `lhs` whose kind is
/// still absent.
pub open spec fn spec_override(lhs: Seq<Constraint>, rhs: Seq<Constraint>) -> Seq<Constraint>
    decreases lhs.len(),
{
    if lhs.len() == 0 {
        rhs
    } else {
        let prev = spec_override(lhs.drop_last(), rhs);
        if spec_has_kind(prev, lhs.last().spec_kind()) {
            prev
        } else {
            prev.push(lhs.last())
        }
    }
}

/// Whether some constraint of the given kind is present.
pub open spec fn spec_has_kind(cs: Seq<Constraint>, k: ConstraintDiscriminant) -> bool {
    exists|i: int| 0 <= i < cs.len() && cs[i].spec_kind() == k
}

proof fn lemma_override_step(lhs: Seq<Constraint>, base: Seq<Constraint>, i: int, pre: Seq<
    Constraint,
>)
    requires
        0 <= i < lhs.len(),
        pre == spec_override(lhs.take(i), base),
    ensures
        spec_override(lhs.take(i + 1), base) == (if spec_has_kind(pre, lhs[i].spec_kind()) {
            pre
        } else {
            pre.push(lhs[i])
        }),
{
    assert(lhs.take(i + 1).drop_last() =~= lhs.take(i));
    assert(lhs.take(i + 1).last() == lhs[i]);
}

fn has_kind(cs: &Constraints, k: ConstraintDiscriminant) -> (r: bool)
    ensures
        r == spec_has_kind(cs.0@, k),
{
    let n = cs.0.len();
    let mut i: usize = 0;
    while i < n
        invariant
            n == cs.0@.len(),
            i <= n,
            forall|j: int| 0 <= j < i ==> cs.0@[j].spec_kind() != k,
        decreases n - i,
    {
        if cs.0[i].kind() == k {
            return true;
        }
        i = i + 1;
    }
    false
}

} // verus!
