//! Value, size and alphabet constraints attached to a type.
use vstd::prelude::*;

verus! {

/// A bound on a number: none, one exact value, or a range whose ends may be open.
#[derive(Clone, Copy, Debug, PartialEq, Eq, Hash)]
pub enum Bounded<T> {
    Unbounded,
    Single(T),
    Range { start: Option<T>, end: Option<T> },
}

/// Whether `x` lies within the bound `b`, read over the integers.
pub open spec fn bounded_contains(b: Bounded<i128>, x: int) -> bool {
    match b {
        Bounded::Unbounded => true,
        Bounded::Single(v) => x == v,
        Bounded::Range { start, end } => (start.is_none() || start.unwrap() <= x) && (end.is_none()
            || x <= end.unwrap()),
    }
}

/// Whether the length `x` lies within the size bound `b`.
pub open spec fn size_contains(b: Bounded<usize>, x: int) -> bool {
    match b {
        Bounded::Unbounded => true,
        Bounded::Single(v) => x == v,
        Bounded::Range { start, end } => (start.is_none() || start.unwrap() <= x) && (end.is_none()
            || x <= end.unwrap()),
    }
}

/// Octets needed for a magnitude: 1, 2, 4 or 8, or none past 64 bits.
pub open spec fn octet_size_spec(abs: int) -> Option<u8> {
    if abs <= 0xff {
        Some(1u8)
    } else if abs <= 0xffff {
        Some(2u8)
    } else if abs <= 0xffff_ffff {
        Some(4u8)
    } else if abs <= 0xffff_ffff_ffff_ffff {
        Some(8u8)
    } else {
        None
    }
}

pub open spec fn abs_spec(x: int) -> int {
    if x < 0 {
        -x
    } else {
        x
    }
}

/// Sign and octet width of a value bound, as the octet encoding sizes a number.
pub open spec fn range_in_bytes_spec(b: Bounded<i128>) -> (bool, Option<u8>) {
    match b {
        Bounded::Single(v) => (v < 0, octet_size_spec(abs_spec(v as int))),
        Bounded::Range { start: Some(s), end: Some(e) } => {
            let m = if abs_spec(s as int) < abs_spec(e as int) {
                abs_spec(e as int)
            } else {
                abs_spec(s as int)
            };
            (s < 0, if m <= i128::MAX {
                octet_size_spec(m)
            } else {
                None
            })
        },
        Bounded::Range { start: Some(s), end: None } => (s < 0, None),
        _ => (true, None),
    }
}

impl<T> Bounded<T> {
    pub fn start_from(value: T) -> (r: Self)
        ensures
            r == (Bounded::Range { start: Some(value), end: None }),
    {
        Bounded::Range { start: Some(value), end: None }
    }

    pub fn up_to(value: T) -> (r: Self)
        ensures
            r == (Bounded::Range { start: None, end: Some(value) }),
    {
        Bounded::Range { start: None, end: Some(value) }
    }

    pub open spec fn start_spec(&self) -> Option<T> {
        match self {
            Bounded::Range { start, .. } => *start,
            Bounded::Single(v) => Some(*v),
            Bounded::Unbounded => None,
        }
    }

    pub open spec fn end_spec(&self) -> Option<T> {
        match self {
            Bounded::Range { end, .. } => *end,
            Bounded::Single(v) => Some(*v),
            Bounded::Unbounded => None,
        }
    }

    pub fn as_start(&self) -> (r: Option<&T>)
        ensures
            r.is_some() == self.start_spec().is_some(),
            r.is_some() ==> *r.unwrap() == self.start_spec().unwrap(),
    {
        match self {
            Bounded::Range { start, .. } => match start {
                Some(s) => Some(s),
                None => None,
            },
            Bounded::Single(v) => Some(v),
            Bounded::Unbounded => None,
        }
    }

    pub fn as_end(&self) -> (r: Option<&T>)
        ensures
            r.is_some() == self.end_spec().is_some(),
            r.is_some() ==> *r.unwrap() == self.end_spec().unwrap(),
    {
        match self {
            Bounded::Range { end, .. } => match end {
                Some(e) => Some(e),
                None => None,
            },
            Bounded::Single(v) => Some(v),
            Bounded::Unbounded => None,
        }
    }

    pub fn start_and_end(&self) -> (r: (Option<&T>, Option<&T>))
        ensures
            r.0.is_some() == self.start_spec().is_some(),
            r.0.is_some() ==> *r.0.unwrap() == self.start_spec().unwrap(),
            r.1.is_some() == self.end_spec().is_some(),
            r.1.is_some() ==> *r.1.unwrap() == self.end_spec().unwrap(),
    {
        (self.as_start(), self.as_end())
    }

    pub fn single_value(value: T) -> (r: Self)
        ensures
            r == Bounded::Single(value),
    {
        Bounded::Single(value)
    }

    /// A range from `start` to `end`; callers keep `start <= end`.
    pub fn new(start: T, end: T) -> (r: Self)
        ensures
            r == (Bounded::Range { start: Some(start), end: Some(end) }),
    {
        Self::const_new(start, end)
    }

    pub fn const_new(start: T, end: T) -> (r: Self)
        ensures
            r == (Bounded::Range { start: Some(start), end: Some(end) }),
    {
        Bounded::Range { start: Some(start), end: Some(end) }
    }
}

impl Bounded<i128> {
    /// Octets needed for the magnitude `abs_value`: 1, 2, 4 or 8; `None` past 64 bits.
    pub fn octet_size_by_range(value: i128) -> (r: Option<u8>)
        ensures
            r == octet_size_spec(abs_spec(value as int)),
    {
        let abs_value: u128 = if value < 0 {
            (-(value + 1)) as u128 + 1
        } else {
            value as u128
        };
        if abs_value <= 0xff {
            Some(1)
        } else if abs_value <= 0xffff {
            Some(2)
        } else if abs_value <= 0xffff_ffff {
            Some(4)
        } else if abs_value <= 0xffff_ffff_ffff_ffff {
            Some(8)
        } else {
            None
        }
    }

    pub fn as_minimum(&self) -> (r: Option<&i128>)
        ensures
            r.is_some() == self.start_spec().is_some(),
            r.is_some() ==> *r.unwrap() == self.start_spec().unwrap(),
    {
        self.as_start()
    }

    /// The lower bound, or zero where there is none.
    pub fn minimum(&self) -> (r: i128)
        ensures
            r == (if self.start_spec().is_some() {
                self.start_spec().unwrap()
            } else {
                0
            }),
    {
        match self.as_minimum() {
            Some(v) => *v,
            None => 0,
        }
    }

    /// How many values the bound admits: one for a single value, `end - start + 1`
    /// (wrapping, then saturating) for a closed range, none otherwise.
    pub fn range(&self) -> (r: Option<i128>)
        ensures
            r == (match *self {
                Bounded::Single(_) => Some(1i128),
                Bounded::Range { start: Some(s), end: Some(e) } => {
                    let w = e.wrapping_sub(s);
                    Some(
                        if w == i128::MAX {
                            i128::MAX
                        } else {
                            (w + 1) as i128
                        },
                    )
                },
                _ => None,
            }),
            self.start_spec().is_some() && self.end_spec().is_some() && !(self is Single)
                && self.start_spec().unwrap() <= self.end_spec().unwrap()
                && self.end_spec().unwrap() - self.start_spec().unwrap() < i128::MAX ==> r == Some(
                (self.end_spec().unwrap() - self.start_spec().unwrap() + 1) as i128),
    {
        match self {
            Bounded::Single(_) => Some(1),
            Bounded::Range { start: Some(s), end: Some(e) } => {
                let w = e.wrapping_sub(*s);
                Some(
                    if w == i128::MAX {
                        i128::MAX
                    } else {
                        w + 1
                    },
                )
            },
            _ => None,
        }
    }

    /// The larger of two magnitudes.
    pub fn max(&self, a: u128, b: u128) -> (r: u128)
        ensures
            r == (if a < b {
                b
            } else {
                a
            }),
    {
        if a < b {
            b
        } else {
            a
        }
    }

    /// Sign of the lower bound and the octet width the bound needs, if any.
    pub fn range_in_bytes(&self) -> (r: (bool, Option<u8>))
        ensures
            r == range_in_bytes_spec(*self),
    {
        match self {
            Bounded::Single(v) => (*v < 0, Self::octet_size_by_range(*v)),
            Bounded::Range { start: Some(s), end: Some(e) } => {
                let end_abs = unsigned_abs(*e);
                let start_abs = unsigned_abs(*s);
                let m = self.max(start_abs, end_abs);
                let octets = if m <= i128::MAX as u128 {
                    Self::octet_size_by_range(m as i128)
                } else {
                    None
                };
                (*s < 0, octets)
            },
            Bounded::Range { start: Some(s), end: None } => (*s < 0, None),
            _ => (true, None),
        }
    }

    pub fn contains(&self, element: &i128) -> (r: bool)
        ensures
            r == bounded_contains(*self, *element as int),
    {
        match self {
            Bounded::Single(v) => *v == *element,
            Bounded::Range { start, end } => {
                let lo = match start {
                    Some(s) => *element >= *s,
                    None => true,
                };
                let hi = match end {
                    Some(e) => *element <= *e,
                    None => true,
                };
                lo && hi
            },
            Bounded::Unbounded => true,
        }
    }

    pub fn contains_or<E>(&self, element: &i128, error: E) -> (r: Result<(), E>)
        ensures
            r.is_ok() == bounded_contains(*self, *element as int),
            r.is_err() ==> r == Err::<(), E>(error),
    {
        if self.contains(element) {
            Ok(())
        } else {
            Err(error)
        }
    }

    pub fn contains_or_else<E, F: FnOnce() -> E>(&self, element: &i128, error: F) -> (r: Result<
        (),
        E,
    >)
        requires
            error.requires(()),
        ensures
            r.is_ok() == bounded_contains(*self, *element as int),
            r matches Err(e) ==> error.ensures((), e),
    {
        if self.contains(element) {
            Ok(())
        } else {
            Err(error())
        }
    }
}

/// Magnitude of a signed 128-bit number.
pub fn unsigned_abs(v: i128) -> (r: u128)
    ensures
        r == abs_spec(v as int),
{
    if v < 0 {
        (-(v + 1)) as u128 + 1
    } else {
        v as u128
    }
}

impl Bounded<usize> {
    pub fn contains(&self, element: &usize) -> (r: bool)
        ensures
            r == size_contains(*self, *element as int),
    {
        match self {
            Bounded::Single(v) => *v == *element,
            Bounded::Range { start, end } => {
                let lo = match start {
                    Some(s) => *element >= *s,
                    None => true,
                };
                let hi = match end {
                    Some(e) => *element <= *e,
                    None => true,
                };
                lo && hi
            },
            Bounded::Unbounded => true,
        }
    }

    /// How many lengths the bound admits, as for value bounds.
    pub fn range(&self) -> (r: Option<usize>)
        ensures
            r == (match *self {
                Bounded::Single(_) => Some(1usize),
                Bounded::Range { start: Some(s), end: Some(e) } => {
                    let w = e.wrapping_sub(s);
                    Some(
                        if w == usize::MAX {
                            usize::MAX
                        } else {
                            (w + 1) as usize
                        },
                    )
                },
                _ => None,
            }),
    {
        match self {
            Bounded::Single(_) => Some(1),
            Bounded::Range { start: Some(s), end: Some(e) } => {
                let w = e.wrapping_sub(*s);
                Some(w.saturating_add(1))
            },
            _ => None,
        }
    }
}

/// A constraint together with whether it is extensible, and the bounds its
/// extension adds.
#[derive(Clone, Debug, PartialEq)]
pub struct Extensible<T> {
    pub constraint: T,
    pub extensible: Option<Vec<T>>,
}

impl<T> Extensible<T> {
    pub fn new(constraint: T) -> (r: Self)
        ensures
            r.constraint == constraint,
            r.extensible.is_none(),
    {
        Extensible { constraint, extensible: None }
    }

    pub fn new_extensible(constraint: T, constraints: Vec<T>) -> (r: Self)
        ensures
            r.constraint == constraint,
            r.extensible == Some(constraints),
    {
        Extensible { constraint, extensible: Some(constraints) }
    }

    /// Marks the constraint extensible with no added bounds, or not extensible.
    pub fn set_extensible(self, extensible: bool) -> (r: Self)
        ensures
            r.constraint == self.constraint,
            r.extensible.is_some() == extensible,
            extensible ==> r.extensible.unwrap()@.len() == 0,
    {
        let ext = if extensible {
            Some(Vec::new())
        } else {
            None
        };
        self.extensible_with_constraints(ext)
    }

    pub fn extensible_with_constraints(self, constraints: Option<Vec<T>>) -> (r: Self)
        ensures
            r.constraint == self.constraint,
            r.extensible == constraints,
    {
        let mut this = self;
        this.extensible = constraints;
        this
    }
}

/// A value constraint, with the sign and octet width that its bound implies.
#[derive(Clone, Copy, Debug, PartialEq, Eq, Hash)]
pub struct Value {
    pub value: Bounded<i128>,
    pub signed: bool,
    pub range: Option<u8>,
}

impl Value {
    /// Well formed: sign and width are those of the bound.
    pub open spec fn wf(&self) -> bool {
        (self.signed, self.range) == range_in_bytes_spec(self.value)
    }

    pub fn new(value: Bounded<i128>) -> (r: Self)
        ensures
            r.value == value,
            r.wf(),
    {
        let (signed, range) = value.range_in_bytes();
        Value { value, signed, range }
    }

    /// The value constraint that a size bound makes; every `usize` fits `i128`.
    pub fn from_size_bound(bound: Bounded<usize>) -> (r: Self)
        ensures
            r.wf(),
            r.value == (match bound {
                Bounded::Unbounded => Bounded::Unbounded,
                Bounded::Single(v) => Bounded::Single(v as i128),
                Bounded::Range { start, end } => Bounded::Range {
                    start: match start {
                        Some(x) => Some(x as i128),
                        None => None,
                    },
                    end: match end {
                        Some(x) => Some(x as i128),
                        None => None,
                    },
                },
            }),
    {
        let value = match bound {
            Bounded::Unbounded => Bounded::Unbounded,
            Bounded::Single(v) => Bounded::Single(v as i128),
            Bounded::Range { start, end } => Bounded::Range {
                start: match start {
                    Some(x) => Some(x as i128),
                    None => None,
                },
                end: match end {
                    Some(x) => Some(x as i128),
                    None => None,
                },
            },
        };
        Value::new(value)
    }

    pub fn get_sign(&self) -> (r: bool)
        ensures
            r == self.signed,
    {
        self.signed
    }

    pub fn get_range(&self) -> (r: Option<u8>)
        ensures
            r == self.range,
    {
        self.range
    }
}

/// A size constraint on the length of a string or a collection.
#[derive(Clone, Copy, Debug, PartialEq, Eq, Hash)]
pub struct Size(pub Bounded<usize>);

impl Size {
    pub fn new(range: Bounded<usize>) -> (r: Self)
        ensures
            r.0 == range,
    {
        Size(range)
    }

    pub fn fixed(length: usize) -> (r: Self)
        ensures
            r.0 == Bounded::Single(length),
    {
        Size(Bounded::Single(length))
    }

    pub fn is_fixed(&self) -> (r: bool)
        ensures
            r == self.0 is Single,
    {
        match self.0 {
            Bounded::Single(_) => true,
            _ => false,
        }
    }

    pub fn is_range(&self) -> (r: bool)
        ensures
            r == self.0 is Range,
    {
        match self.0 {
            Bounded::Range { .. } => true,
            _ => false,
        }
    }
}

/// The characters a string may hold, as code points.
#[derive(Clone, Debug, PartialEq, Eq, Hash)]
pub struct PermittedAlphabet(pub Vec<u32>);

impl PermittedAlphabet {
    pub fn new(range: Vec<u32>) -> (r: Self)
        ensures
            r.0 == range,
    {
        PermittedAlphabet(range)
    }

    pub fn as_inner(&self) -> (r: &Vec<u32>)
        ensures
            *r == self.0,
    {
        &self.0
    }
}

/// A constraint that can be applied to a type.
#[derive(Clone, Debug, PartialEq)]
pub enum Constraint {
    Value(Extensible<Value>),
    Size(Extensible<Size>),
    PermittedAlphabet(Extensible<PermittedAlphabet>),
    /// The type itself is extensible: constructed types, choices, enumerations.
    Extensible,
    Empty,
}

/// The kind of a constraint, without its contents.
#[derive(Clone, Copy, Debug)]
pub enum ConstraintDiscriminant {
    Value,
    Size,
    PermittedAlphabet,
    Extensible,
    Empty,
}

pub open spec fn kind_index(k: ConstraintDiscriminant) -> int {
    match k {
        ConstraintDiscriminant::Value => 0,
        ConstraintDiscriminant::Size => 1,
        ConstraintDiscriminant::PermittedAlphabet => 2,
        ConstraintDiscriminant::Extensible => 3,
        ConstraintDiscriminant::Empty => 4,
    }
}

impl ConstraintDiscriminant {
    pub fn eq(&self, other: &ConstraintDiscriminant) -> (r: bool)
        ensures
            r == (*self == *other),
    {
        match (self, other) {
            (ConstraintDiscriminant::Value, ConstraintDiscriminant::Value) => true,
            (ConstraintDiscriminant::Size, ConstraintDiscriminant::Size) => true,
            (ConstraintDiscriminant::PermittedAlphabet, ConstraintDiscriminant::PermittedAlphabet) => true,
            (ConstraintDiscriminant::Extensible, ConstraintDiscriminant::Extensible) => true,
            (ConstraintDiscriminant::Empty, ConstraintDiscriminant::Empty) => true,
            _ => false,
        }
    }
}

/// The kind of constraint `c` is.
pub open spec fn kind_of(c: Constraint) -> ConstraintDiscriminant {
    match c {
        Constraint::Value(_) => ConstraintDiscriminant::Value,
        Constraint::Size(_) => ConstraintDiscriminant::Size,
        Constraint::PermittedAlphabet(_) => ConstraintDiscriminant::PermittedAlphabet,
        Constraint::Extensible => ConstraintDiscriminant::Extensible,
        Constraint::Empty => ConstraintDiscriminant::Empty,
    }
}

/// Whether `c` makes its type extensible.
pub open spec fn is_extensible_spec(c: Constraint) -> bool {
    match c {
        Constraint::Value(v) => v.extensible.is_some(),
        Constraint::Size(s) => s.extensible.is_some(),
        Constraint::PermittedAlphabet(a) => a.extensible.is_some(),
        Constraint::Extensible => true,
        Constraint::Empty => false,
    }
}

impl Constraint {
    pub fn kind(&self) -> (r: ConstraintDiscriminant)
        ensures
            r == kind_of(*self),
    {
        match self {
            Constraint::Value(_) => ConstraintDiscriminant::Value,
            Constraint::Size(_) => ConstraintDiscriminant::Size,
            Constraint::PermittedAlphabet(_) => ConstraintDiscriminant::PermittedAlphabet,
            Constraint::Extensible => ConstraintDiscriminant::Extensible,
            Constraint::Empty => ConstraintDiscriminant::Empty,
        }
    }

    pub fn default() -> (r: Self)
        ensures
            r == Constraint::Empty,
    {
        Constraint::Empty
    }

    pub fn variant_as_isize(&self) -> (r: isize)
        ensures
            r == kind_index(kind_of(*self)),
    {
        match self {
            Constraint::Value(_) => 0,
            Constraint::Size(_) => 1,
            Constraint::PermittedAlphabet(_) => 2,
            Constraint::Extensible => 3,
            Constraint::Empty => 4,
        }
    }

    pub fn as_value(&self) -> (r: Option<&Extensible<Value>>)
        ensures
            r.is_some() == (*self is Value),
            r.is_some() ==> *r.unwrap() == self->Value_0,
    {
        match self {
            Constraint::Value(v) => Some(v),
            _ => None,
        }
    }

    pub fn as_permitted_alphabet(&self) -> (r: Option<&Extensible<PermittedAlphabet>>)
        ensures
            r.is_some() == (*self is PermittedAlphabet),
            r.is_some() ==> *r.unwrap() == self->PermittedAlphabet_0,
    {
        match self {
            Constraint::PermittedAlphabet(a) => Some(a),
            _ => None,
        }
    }

    pub fn to_size(&self) -> (r: Option<&Extensible<Size>>)
        ensures
            r.is_some() == (*self is Size),
            r.is_some() ==> *r.unwrap() == self->Size_0,
    {
        match self {
            Constraint::Size(s) => Some(s),
            _ => None,
        }
    }

    pub fn to_value(self) -> (r: Option<Extensible<Value>>)
        ensures
            r.is_some() == (self is Value),
            r.is_some() ==> r.unwrap() == self->Value_0,
    {
        match self {
            Constraint::Value(v) => Some(v),
            _ => None,
        }
    }

    pub fn is_extensible(&self) -> (r: bool)
        ensures
            r == is_extensible_spec(*self),
    {
        match self {
            Constraint::Value(v) => v.extensible.is_some(),
            Constraint::Size(s) => s.extensible.is_some(),
            Constraint::PermittedAlphabet(a) => a.extensible.is_some(),
            Constraint::Extensible => true,
            Constraint::Empty => false,
        }
    }
}

/// The first value constraint in `s`, if any.
pub open spec fn first_value(s: Seq<Constraint>) -> Option<Extensible<Value>>
    decreases s.len(),
{
    if s.len() == 0 {
        None
    } else if s[0] is Value {
        Some(s[0]->Value_0)
    } else {
        first_value(s.drop_first())
    }
}

/// The first size constraint in `s`, if any.
pub open spec fn first_size(s: Seq<Constraint>) -> Option<Extensible<Size>>
    decreases s.len(),
{
    if s.len() == 0 {
        None
    } else if s[0] is Size {
        Some(s[0]->Size_0)
    } else {
        first_size(s.drop_first())
    }
}

/// The first permitted alphabet in `s`, if any.
pub open spec fn first_alphabet(s: Seq<Constraint>) -> Option<Extensible<PermittedAlphabet>>
    decreases s.len(),
{
    if s.len() == 0 {
        None
    } else if s[0] is PermittedAlphabet {
        Some(s[0]->PermittedAlphabet_0)
    } else {
        first_alphabet(s.drop_first())
    }
}

/// Whether any constraint in `s` makes the type extensible.
pub open spec fn any_extensible(s: Seq<Constraint>) -> bool {
    exists|i: int| 0 <= i < s.len() && is_extensible_spec(#[trigger] s[i])
}

/// Whether some constraint in `s` is of kind `k`.
pub open spec fn has_kind(s: Seq<Constraint>, k: ConstraintDiscriminant) -> bool {
    exists|i: int| 0 <= i < s.len() && kind_of(#[trigger] s[i]) == k
}

/// `rhs` followed by the constraints of `lhs` whose kind `rhs` does not hold.
pub open spec fn merged(lhs: Seq<Constraint>, rhs: Seq<Constraint>) -> Seq<Constraint> {
    rhs + lhs.filter(|c: Constraint| !has_kind(rhs, kind_of(c)))
}

/// The constraints that apply to a type.
#[derive(Clone, Debug)]
pub struct Constraints(pub Vec<Constraint>);

pub proof fn lemma_first_value_skip(s: Seq<Constraint>, i: int)
    requires
        0 <= i < s.len(),
        forall|j: int| 0 <= j < i ==> !(#[trigger] s[j] is Value),
    ensures
        first_value(s) == first_value(s.subrange(i, s.len() as int)),
    decreases i,
{
    if i == 0 {
        assert(s.subrange(0, s.len() as int) =~= s);
    } else {
        assert(!(s[0] is Value));
        lemma_first_value_skip(s.drop_first(), i - 1);
        assert(s.drop_first().subrange(i - 1, s.drop_first().len() as int) =~= s.subrange(
            i,
            s.len() as int,
        ));
    }
}

pub proof fn lemma_first_size_skip(s: Seq<Constraint>, i: int)
    requires
        0 <= i < s.len(),
        forall|j: int| 0 <= j < i ==> !(#[trigger] s[j] is Size),
    ensures
        first_size(s) == first_size(s.subrange(i, s.len() as int)),
    decreases i,
{
    if i == 0 {
        assert(s.subrange(0, s.len() as int) =~= s);
    } else {
        assert(!(s[0] is Size));
        lemma_first_size_skip(s.drop_first(), i - 1);
        assert(s.drop_first().subrange(i - 1, s.drop_first().len() as int) =~= s.subrange(
            i,
            s.len() as int,
        ));
    }
}

pub proof fn lemma_first_alphabet_skip(s: Seq<Constraint>, i: int)
    requires
        0 <= i < s.len(),
        forall|j: int| 0 <= j < i ==> !(#[trigger] s[j] is PermittedAlphabet),
    ensures
        first_alphabet(s) == first_alphabet(s.subrange(i, s.len() as int)),
    decreases i,
{
    if i == 0 {
        assert(s.subrange(0, s.len() as int) =~= s);
    } else {
        assert(!(s[0] is PermittedAlphabet));
        lemma_first_alphabet_skip(s.drop_first(), i - 1);
        assert(s.drop_first().subrange(i - 1, s.drop_first().len() as int) =~= s.subrange(
            i,
            s.len() as int,
        ));
    }
}

pub proof fn lemma_first_value_none(s: Seq<Constraint>)
    requires
        forall|j: int| 0 <= j < s.len() ==> !(#[trigger] s[j] is Value),
    ensures
        first_value(s) is None,
    decreases s.len(),
{
    if s.len() > 0 {
        lemma_first_value_none(s.drop_first());
    }
}

pub proof fn lemma_first_size_none(s: Seq<Constraint>)
    requires
        forall|j: int| 0 <= j < s.len() ==> !(#[trigger] s[j] is Size),
    ensures
        first_size(s) is None,
    decreases s.len(),
{
    if s.len() > 0 {
        lemma_first_size_none(s.drop_first());
    }
}

pub proof fn lemma_first_alphabet_none(s: Seq<Constraint>)
    requires
        forall|j: int| 0 <= j < s.len() ==> !(#[trigger] s[j] is PermittedAlphabet),
    ensures
        first_alphabet(s) is None,
    decreases s.len(),
{
    if s.len() > 0 {
        lemma_first_alphabet_none(s.drop_first());
    }
}

impl Constraints {
    pub open spec fn view(&self) -> Seq<Constraint> {
        self.0@
    }

    pub fn new(constraints: Vec<Constraint>) -> (r: Self)
        ensures
            r@ == constraints@,
    {
        Constraints(constraints)
    }

    pub fn inner(&self) -> (r: &Vec<Constraint>)
        ensures
            r@ == self@,
    {
        &self.0
    }

    /// The first `merged.1` constraints of `merged.0`.
    pub fn from_fixed_size(merged: (Vec<Constraint>, usize)) -> (r: Self)
        ensures
            r@ == merged.0@.subrange(
                0,
                if merged.1 <= merged.0@.len() {
                    merged.1 as int
                } else {
                    merged.0@.len() as int
                },
            ),
    {
        let (mut all, count) = merged;
        proof {
            assert(all@.subrange(0, all@.len() as int) =~= all@);
        }
        all.truncate(count);
        Constraints(all)
    }

    /// No constraints at all.
    pub fn default() -> (r: Self)
        ensures
            r@.len() == 0,
    {
        Constraints(Vec::new())
    }

    /// The constraints of `rhs`, then those of `self` whose kind `rhs` does not
    /// hold; the count is the length of that list.
    pub fn merge(self, rhs: Self) -> (r: (Vec<Constraint>, usize))
        ensures
            r.0@ == merged(self@, rhs@),
            r.1 == r.0@.len(),
    {
        let ghost old_lhs = self@;
        let ghost old_rhs = rhs@;
        let Constraints(lhs) = self;
        let Constraints(rhs_items) = rhs;
        let mut kinds: Vec<ConstraintDiscriminant> = Vec::new();
        let mut i: usize = 0;
        while i < rhs_items.len()
            invariant
                rhs_items@ == old_rhs,
                i <= rhs_items@.len(),
                kinds@.len() == i,
                forall|j: int| 0 <= j < i ==> kinds@[j] == kind_of(#[trigger] rhs_items@[j]),
            decreases rhs_items@.len() - i,
        {
            kinds.push(rhs_items[i].kind());
            i = i + 1;
        }
        let mut out = rhs_items;
        let ghost pred = |c: Constraint| !has_kind(old_rhs, kind_of(c));
        let mut rest = lhs;
        let ghost mut si: int = 0;
        proof {
            reveal(Seq::filter);
            assert(old_lhs.subrange(0, 0).len() == 0);
            assert(out@ =~= old_rhs + old_lhs.subrange(0, 0).filter(pred));
            assert(rest@ =~= old_lhs.subrange(0, old_lhs.len() as int));
        }
        while rest.len() > 0
            invariant
                kinds@.len() == old_rhs.len(),
                forall|j: int| 0 <= j < old_rhs.len() ==> kinds@[j] == kind_of(
                    #[trigger] old_rhs[j],
                ),
                0 <= si <= old_lhs.len(),
                rest@ == old_lhs.subrange(si, old_lhs.len() as int),
                pred == (|c: Constraint| !has_kind(old_rhs, kind_of(c))),
                out@ == old_rhs + old_lhs.subrange(0, si).filter(pred),
            decreases rest@.len(),
        {
            let c = rest.remove(0);
            let k = c.kind();
            let mut found = false;
            let mut ri: usize = 0;
            while ri < kinds.len()
                invariant
                    ri <= kinds@.len(),
                    found == exists|j: int| 0 <= j < ri && kinds@[j] == k,
                decreases kinds@.len() - ri,
            {
                if kinds[ri].eq(&k) {
                    found = true;
                }
                ri = ri + 1;
            }
            proof {
                assert(c == old_lhs[si]);
                assert(found == has_kind(old_rhs, k)) by {
                    if found {
                        let j = choose|j: int| 0 <= j < kinds@.len() && kinds@[j] == k;
                        assert(kind_of(old_rhs[j]) == k);
                    }
                    if has_kind(old_rhs, k) {
                        let j = choose|j: int| 0 <= j < old_rhs.len() && kind_of(old_rhs[j]) == k;
                        assert(kinds@[j] == k);
                    }
                }
                let sub = old_lhs.subrange(0, si + 1);
                assert(sub.drop_last() =~= old_lhs.subrange(0, si));
                assert(sub.last() == c);
                reveal(Seq::filter);
                assert(sub.filter(pred) == (if pred(c) {
                    old_lhs.subrange(0, si).filter(pred).push(c)
                } else {
                    old_lhs.subrange(0, si).filter(pred)
                }));
                assert(rest@ =~= old_lhs.subrange(si + 1, old_lhs.len() as int));
            }
            if !found {
                out.push(c);
                proof {
                    assert(out@ =~= old_rhs + old_lhs.subrange(0, si + 1).filter(pred));
                }
            } else {
                proof {
                    assert(out@ =~= old_rhs + old_lhs.subrange(0, si + 1).filter(pred));
                }
            }
            proof {
                si = si + 1;
            }
        }
        proof {
            assert(old_lhs.subrange(0, old_lhs.len() as int) =~= old_lhs);
        }
        let n = out.len();
        (out, n)
    }

    /// Overrides a set of constraints with another set.
    pub fn override_constraints(self, rhs: Constraints) -> (r: Constraints)
        ensures
            r@ == rhs@,
    {
        rhs
    }

    /// The first size constraint, if any.
    pub fn size(&self) -> (r: Option<&Extensible<Size>>)
        ensures
            r.is_some() == first_size(self@).is_some(),
            r.is_some() ==> *r.unwrap() == first_size(self@).unwrap(),
    {
        let mut i: usize = 0;
        while i < self.0.len()
            invariant
                i <= self@.len(),
                forall|j: int| 0 <= j < i ==> !(#[trigger] self@[j] is Size),
            decreases self@.len() - i,
        {
            if let Some(size) = self.0[i].to_size() {
                proof {
                    lemma_first_size_skip(self@, i as int);
                }
                return Some(size);
            }
            i = i + 1;
        }
        proof {
            lemma_first_size_none(self@);
        }
        None
    }

    /// The first permitted alphabet, if any.
    pub fn permitted_alphabet(&self) -> (r: Option<&Extensible<PermittedAlphabet>>)
        ensures
            r.is_some() == first_alphabet(self@).is_some(),
            r.is_some() ==> *r.unwrap() == first_alphabet(self@).unwrap(),
    {
        let mut i: usize = 0;
        while i < self.0.len()
            invariant
                i <= self@.len(),
                forall|j: int| 0 <= j < i ==> !(#[trigger] self@[j] is PermittedAlphabet),
            decreases self@.len() - i,
        {
            if let Some(alpha) = self.0[i].as_permitted_alphabet() {
                proof {
                    lemma_first_alphabet_skip(self@, i as int);
                }
                return Some(alpha);
            }
            i = i + 1;
        }
        proof {
            lemma_first_alphabet_none(self@);
        }
        None
    }

    /// Whether any constraint makes the type extensible.
    pub fn extensible(&self) -> (r: bool)
        ensures
            r == any_extensible(self@),
    {
        let mut i: usize = 0;
        while i < self.0.len()
            invariant
                i <= self@.len(),
                forall|j: int| 0 <= j < i ==> !is_extensible_spec(#[trigger] self@[j]),
            decreases self@.len() - i,
        {
            if self.0[i].is_extensible() {
                return true;
            }
            i = i + 1;
        }
        false
    }

    /// The first value constraint, if any.
    pub fn value(&self) -> (r: Option<&Extensible<Value>>)
        ensures
            r.is_some() == first_value(self@).is_some(),
            r.is_some() ==> *r.unwrap() == first_value(self@).unwrap(),
    {
        let mut i: usize = 0;
        while i < self.0.len()
            invariant
                i <= self@.len(),
                forall|j: int| 0 <= j < i ==> !(#[trigger] self@[j] is Value),
            decreases self@.len() - i,
        {
            if let Some(value) = self.0[i].as_value() {
                proof {
                    lemma_first_value_skip(self@, i as int);
                }
                return Some(value);
            }
            i = i + 1;
        }
        proof {
            lemma_first_value_none(self@);
        }
        None
    }
}

} // verus!
