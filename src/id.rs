use vstd::prelude::*;

verus! {

/// The plain values that an identity is made of.
pub struct IdView {
    pub id: usize,
    pub index: Option<usize>,
    pub name: Seq<char>,
}

/// Whether an endpoint identified by `a` is addressed by the target `b`:
/// a target without a slot index addresses every slot of its endpoint,
/// a target with one addresses exactly that identity.
pub open spec fn spec_eq_target(a: IdView, b: IdView) -> bool {
    match b.index {
        Some(_) => a == b,
        None => a.id == b.id,
    }
}

/// An endpoint's address: a numeric id, an optional slot index and a display name.
#[derive(Debug)]
pub struct ID {
    id: usize,
    index: Option<usize>,
    name: String,
}

impl View for ID {
    type V = IdView;

    closed spec fn view(&self) -> IdView {
        IdView { id: self.id, index: self.index, name: self.name@ }
    }
}

impl ID {
    pub fn new(id: usize) -> (r: ID)
        ensures
            r@ == (IdView { id, index: None, name: Seq::empty() }),
    {
        ID { id, index: None, name: String::new() }
    }

    pub fn id(&self) -> (r: usize)
        ensures
            r == self@.id,
    {
        self.id
    }

    pub fn index(&self) -> (r: Option<usize>)
        ensures
            r == self@.index,
    {
        self.index
    }

    pub fn name(&self) -> (r: &str)
        ensures
            r@ == self@.name,
    {
        self.name.as_str()
    }

    pub fn set_index(self, index: usize) -> (r: ID)
        ensures
            r@ == (IdView { index: Some(index), ..self@ }),
    {
        let mut s = self;
        s.index = Some(index);
        s
    }

    pub fn set_name(self, name: &str) -> (r: ID)
        ensures
            r@ == (IdView { name: name@, ..self@ }),
    {
        let mut s = self;
        s.name = name.to_owned();
        s
    }

    /// The identity of slot `index` of the endpoint that `self` names.
    pub fn with_slot(&self, index: usize) -> (r: ID)
        ensures
            r@ == (IdView { index: Some(index), ..self@ }),
    {
        ID { id: self.id, index: Some(index), name: self.name.clone() }
    }

    pub fn eq_target(&self, other: &ID) -> (r: bool)
        ensures
            r == spec_eq_target(self@, other@),
    {
        match other.index {
            Some(_) => self.same(other),
            None => self.id == other.id,
        }
    }

    /// Equality of every part: id, index and name.
    pub fn same(&self, other: &ID) -> (r: bool)
        ensures
            r == (self@ == other@),
    {
        let same_index = match (self.index, other.index) {
            (Some(a), Some(b)) => a == b,
            (None, None) => true,
            _ => false,
        };
        self.id == other.id && same_index && self.name == other.name
    }
}

impl Clone for ID {
    fn clone(&self) -> (r: ID)
        ensures
            r@ == self@,
    {
        ID { id: self.id, index: self.index, name: self.name.clone() }
    }
}

/// The addressing rule: a target without an index matches by numeric id alone,
/// a target with an index matches only the identical identity.
pub proof fn lemma_eq_target(a: IdView, b: IdView)
    ensures
        spec_eq_target(a, b) <==> ((b.index is None && a.id == b.id) || (b.index is Some
            && a == b)),
{
}

} // verus!
