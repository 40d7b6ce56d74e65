//! Per-field annotation storage: a typed map over a closed, finite
//! vocabulary of recognized annotation kinds.
use vstd::prelude::*;
use vstd::set_lib::*;
use crate::symbol::str_eq;

verus! {

/// The closed set of recognized annotation kinds.
#[derive(Clone, Copy, PartialEq, Eq, Structural, Debug)]
pub enum TagKind {
    Construct,
    Editable,
}

/// The `default = "path::to::constructor"` annotation: a zero-argument
/// constructor path supplying the default value of a `Path`-typed field.
#[derive(Debug)]
pub struct Construct(pub String);

/// The `editable = "true"|"false"` annotation: selects the shared-mutable
/// cell wrapper for a field instead of a plain value.
#[derive(Clone, Copy, PartialEq, Eq, Structural, Debug)]
pub struct Editable(pub bool);

/// One stored annotation value.
#[derive(Debug)]
pub enum TagValue {
    Construct(Construct),
    Editable(Editable),
}

impl TagValue {
    /// The kind this value belongs to.
    pub open spec fn kind(self) -> TagKind {
        match self {
            TagValue::Construct(_) => TagKind::Construct,
            TagValue::Editable(_) => TagKind::Editable,
        }
    }
}

/// A recognized annotation: a value that can be stored in and retrieved
/// from a `TypeMap` under its own kind.
pub trait Annotation: Sized {
    /// The kind this annotation is stored under.
    spec fn spec_kind() -> TagKind;

    /// The stored form of this annotation.
    spec fn spec_wrap(self) -> TagValue;

    /// The stored form carries this annotation's kind.
    proof fn lemma_wrap_kind(x: Self)
        ensures
            x.spec_wrap().kind() == Self::spec_kind(),
    ;

    /// The kind this annotation is stored under.
    fn kind() -> (k: TagKind)
        ensures
            k == Self::spec_kind(),
    ;

    /// Wrap this annotation for storage.
    fn wrap(self) -> (v: TagValue)
        ensures
            v == self.spec_wrap(),
    ;

    /// Recover an annotation from a stored value of the matching kind.
    fn try_unwrap(v: &TagValue) -> (r: Option<Self>)
        ensures
            match r {
                Some(x) => x.spec_wrap() == *v,
                None => v.kind() != Self::spec_kind(),
            },
    ;
}

impl Annotation for Construct {
    open spec fn spec_kind() -> TagKind {
        TagKind::Construct
    }

    open spec fn spec_wrap(self) -> TagValue {
        TagValue::Construct(self)
    }

    proof fn lemma_wrap_kind(x: Self) {
    }

    fn kind() -> (k: TagKind) {
        TagKind::Construct
    }

    fn wrap(self) -> (v: TagValue) {
        TagValue::Construct(self)
    }

    fn try_unwrap(v: &TagValue) -> (r: Option<Self>) {
        match v {
            TagValue::Construct(c) => Some(Construct(c.0.clone())),
            _ => None,
        }
    }
}

impl Annotation for Editable {
    open spec fn spec_kind() -> TagKind {
        TagKind::Editable
    }

    open spec fn spec_wrap(self) -> TagValue {
        TagValue::Editable(self)
    }

    proof fn lemma_wrap_kind(x: Self) {
    }

    fn kind() -> (k: TagKind) {
        TagKind::Editable
    }

    fn wrap(self) -> (v: TagValue) {
        TagValue::Editable(self)
    }

    fn try_unwrap(v: &TagValue) -> (r: Option<Self>) {
        match v {
            TagValue::Editable(e) => Some(Editable(e.0)),
            _ => None,
        }
    }
}

impl Construct {
    /// The annotation read from its literal text: the constructor path
    /// verbatim.
    pub fn from_value(s: &str) -> (r: Construct)
        ensures
            r.0@ == s@,
    {
        Construct(s.to_owned())
    }
}

impl Editable {
    /// The annotation read from its literal text: set exactly when the text
    /// is `true`.
    pub fn from_value(s: &str) -> (r: Editable)
        ensures
            r.0 == (s@ == "true"@),
    {
        Editable(str_eq(s, "true"))
    }
}

/// A heterogeneous map over the closed annotation vocabulary, holding at
/// most one value per kind.
#[derive(Debug)]
pub struct TypeMap {
    construct: Option<Construct>,
    editable: Option<Editable>,
}

impl View for TypeMap {
    type V = Map<TagKind, TagValue>;

    closed spec fn view(&self) -> Map<TagKind, TagValue> {
        let m = Map::<TagKind, TagValue>::empty();
        let m = match self.construct {
            Some(c) => m.insert(TagKind::Construct, TagValue::Construct(c)),
            None => m,
        };
        match self.editable {
            Some(e) => m.insert(TagKind::Editable, TagValue::Editable(e)),
            None => m,
        }
    }
}

impl TypeMap {
    /// An empty map.
    pub fn new() -> (r: TypeMap)
        ensures
            r@ == Map::<TagKind, TagValue>::empty(),
    {
        let r = TypeMap { construct: None, editable: None };
        proof {
            assert(r@ =~= Map::<TagKind, TagValue>::empty());
        }
        r
    }

    /// Store an annotation under its own kind, replacing any previous value
    /// of that kind.
    pub fn insert<T: Annotation>(&mut self, v: T)
        ensures
            final(self)@ == old(self)@.insert(T::spec_kind(), v.spec_wrap()),
    {
        let ghost expected = old(self)@.insert(T::spec_kind(), v.spec_wrap());
        proof {
            T::lemma_wrap_kind(v);
        }
        let tv = v.wrap();
        match tv {
            TagValue::Construct(c) => {
                self.construct = Some(c);
            },
            TagValue::Editable(e) => {
                self.editable = Some(e);
            },
        }
        proof {
            assert(self@ =~= expected);
        }
    }

    /// Retrieve the stored annotation of a kind, if present.
    pub fn get<T: Annotation>(&self) -> (r: Option<T>)
        ensures
            match r {
                Some(x) => self@.contains_key(T::spec_kind()) && x.spec_wrap() == self@[T::spec_kind()],
                None => !self@.contains_key(T::spec_kind()),
            },
    {
        let k = T::kind();
        match k {
            TagKind::Construct => {
                match &self.construct {
                    Some(c) => {
                        let tv = TagValue::Construct(Construct(c.0.clone()));
                        T::try_unwrap(&tv)
                    },
                    None => None,
                }
            },
            TagKind::Editable => {
                match &self.editable {
                    Some(e) => {
                        let tv = TagValue::Editable(Editable(e.0));
                        T::try_unwrap(&tv)
                    },
                    None => None,
                }
            },
        }
    }

    /// Whether no annotation is stored.
    pub fn is_empty(&self) -> (r: bool)
        ensures
            r == (self@.dom() =~= Set::<TagKind>::empty()),
    {
        let r = match (&self.construct, &self.editable) {
            (None, None) => true,
            _ => false,
        };
        proof {
            if r {
                assert(self@.dom() =~= Set::<TagKind>::empty());
            } else {
                assert(self@.dom().contains(TagKind::Construct) || self@.dom().contains(
                    TagKind::Editable,
                ));
            }
        }
        r
    }

    /// How many annotations are stored.
    pub fn len(&self) -> (r: usize)
        ensures
            r == self@.dom().len(),
    {
        let mut n: usize = 0;
        if self.construct.is_some() {
            n += 1;
        }
        if self.editable.is_some() {
            n += 1;
        }
        proof {
            let both = Set::<TagKind>::empty().insert(TagKind::Construct).insert(
                TagKind::Editable,
            );
            match (&self.construct, &self.editable) {
                (Some(_), Some(_)) => {
                    assert(self@.dom() =~= both);
                    assert(both.len() == 2) by {
                        assert(both.remove(TagKind::Editable) =~= Set::<
                            TagKind,
                        >::empty().insert(TagKind::Construct));
                        assert(Set::<TagKind>::empty().insert(TagKind::Construct).remove(
                            TagKind::Construct,
                        ) =~= Set::<TagKind>::empty());
                    }
                },
                (Some(_), None) => {
                    assert(self@.dom() =~= Set::<TagKind>::empty().insert(TagKind::Construct));
                    assert(Set::<TagKind>::empty().insert(TagKind::Construct).remove(
                        TagKind::Construct,
                    ) =~= Set::<TagKind>::empty());
                },
                (None, Some(_)) => {
                    assert(self@.dom() =~= Set::<TagKind>::empty().insert(TagKind::Editable));
                    assert(Set::<TagKind>::empty().insert(TagKind::Editable).remove(
                        TagKind::Editable,
                    ) =~= Set::<TagKind>::empty());
                },
                (None, None) => {
                    assert(self@.dom() =~= Set::<TagKind>::empty());
                },
            }
        }
        n
    }

    /// Whether an annotation of the given kind is stored.
    pub fn contains<T: Annotation>(&self) -> (r: bool)
        ensures
            r == self@.contains_key(T::spec_kind()),
    {
        let k = T::kind();
        match k {
            TagKind::Construct => self.construct.is_some(),
            TagKind::Editable => self.editable.is_some(),
        }
    }

    /// Drop the stored annotation of the given kind, if present.
    pub fn remove<T: Annotation>(&mut self)
        ensures
            final(self)@ == old(self)@.remove(T::spec_kind()),
    {
        let k = T::kind();
        match k {
            TagKind::Construct => {
                self.construct = None;
            },
            TagKind::Editable => {
                self.editable = None;
            },
        }
        proof {
            assert(self@ =~= old(self)@.remove(T::spec_kind()));
        }
    }
}

/// A map's domain never leaves the closed vocabulary: it is finite and
/// holds at most one value per recognized kind, so at most two in all.
pub proof fn lemma_typemap_dom(m: &TypeMap)
    ensures
        m@.dom().subset_of(set![TagKind::Construct, TagKind::Editable]),
        m@.dom().finite(),
        m@.dom().len() <= 2,
{
    let both = set![TagKind::Construct, TagKind::Editable];
    assert(m@.dom().subset_of(both)) by {
        assert forall|k: TagKind| m@.dom().contains(k) implies both.contains(k) by {
            assert(k == TagKind::Construct || k == TagKind::Editable);
        }
    }
    assert(both.finite() && both.len() <= 2) by {
        assert(both =~= Set::<TagKind>::empty().insert(TagKind::Construct).insert(
            TagKind::Editable,
        ));
    }
    lemma_len_subset(m@.dom(), both);
}

/// The annotation set attached to one field.
#[derive(Debug)]
pub struct Tags(pub TypeMap);

impl View for Tags {
    type V = Map<TagKind, TagValue>;

    open spec fn view(&self) -> Map<TagKind, TagValue> {
        self.0@
    }
}

impl Tags {
    /// An empty annotation set.
    pub fn new() -> (r: Tags)
        ensures
            r@ == Map::<TagKind, TagValue>::empty(),
    {
        Tags(TypeMap::new())
    }

    /// Store an annotation under its own kind.
    pub fn insert<T: Annotation>(&mut self, v: T)
        ensures
            final(self)@ == old(self)@.insert(T::spec_kind(), v.spec_wrap()),
    {
        self.0.insert(v)
    }

    /// Retrieve the stored annotation of a kind, if present.
    pub fn get<T: Annotation>(&self) -> (r: Option<T>)
        ensures
            match r {
                Some(x) => self@.contains_key(T::spec_kind()) && x.spec_wrap() == self@[T::spec_kind()],
                None => !self@.contains_key(T::spec_kind()),
            },
    {
        self.0.get()
    }
}

} // verus!
