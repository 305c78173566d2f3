//! The first two arcs of an OID, each with its own small range.
use vstd::prelude::*;

verus! {

/// The first arc of an OID: one of the three roots of the OID tree.
#[derive(Debug, Clone, Copy, PartialEq, Eq)]
pub enum Arc0 {
    ItuT,
    Iso,
    JointIsoItuT,
}

/// The value handed to [`Arc0::new`] was none of `0`, `1`, `2`.
#[derive(Debug, Clone)]
pub struct IllegalRootNodeError;

impl Arc0 {
    /// The number of this root.
    pub open spec fn value(self) -> u8 {
        match self {
            Arc0::ItuT => 0,
            Arc0::Iso => 1,
            Arc0::JointIsoItuT => 2,
        }
    }

    pub fn new(value: u8) -> (r: Result<Arc0, IllegalRootNodeError>)
        ensures
            value <= 2 <==> r is Ok,
            r is Ok ==> r->Ok_0.value() == value,
            r is Err ==> r->Err_0 == IllegalRootNodeError,
    {
        match value {
            0 => Ok(Arc0::ItuT),
            1 => Ok(Arc0::Iso),
            2 => Ok(Arc0::JointIsoItuT),
            _ => Err(IllegalRootNodeError),
        }
    }

    pub fn as_u8(&self) -> (r: u8)
        ensures
            r == self.value(),
    {
        match self {
            Arc0::ItuT => 0,
            Arc0::Iso => 1,
            Arc0::JointIsoItuT => 2,
        }
    }
}

impl TryFrom<u8> for Arc0 {
    type Error = IllegalRootNodeError;

    fn try_from(value: u8) -> (r: Result<Arc0, IllegalRootNodeError>) {
        Arc0::new(value)
    }
}

impl vstd::std_specs::convert::TryFromSpecImpl<u8> for Arc0 {
    open spec fn obeys_try_from_spec() -> bool {
        true
    }

    open spec fn try_from_spec(value: u8) -> Result<Arc0, IllegalRootNodeError> {
        if value == 0 {
            Ok(Arc0::ItuT)
        } else if value == 1 {
            Ok(Arc0::Iso)
        } else if value == 2 {
            Ok(Arc0::JointIsoItuT)
        } else {
            Err(IllegalRootNodeError)
        }
    }
}

/// The second arc of an OID, a number below 40.
#[derive(Debug, Clone, Copy, PartialEq, Eq)]
pub struct Arc1(u8);

/// The value handed to [`Arc1::new`] was 40 or more.
#[derive(Debug, Clone)]
pub struct IllegalArc1Error;

impl Arc1 {
    /// The number of this arc.
    pub closed spec fn value(self) -> u8 {
        self.0
    }

    /// The arc with the number `value`.
    pub closed spec fn of(value: u8) -> Arc1 {
        Arc1(value)
    }

    /// Every `Arc1` that the constructors hand out is below 40.
    pub open spec fn wf(self) -> bool {
        self.value() < 40
    }

    /// Wraps `value` without testing it.
    pub fn new_unchecked(value: u8) -> (r: Arc1)
        requires
            value < 40,
        ensures
            r == Arc1::of(value),
            r.value() == value,
            r.wf(),
    {
        Arc1(value)
    }

    pub fn new(value: u8) -> (r: Result<Arc1, IllegalArc1Error>)
        ensures
            value < 40 <==> r is Ok,
            r is Ok ==> r->Ok_0 == Arc1::of(value) && r->Ok_0.value() == value && r->Ok_0.wf(),
            r is Err ==> r->Err_0 == IllegalArc1Error,
    {
        if value <= 39 {
            Ok(Arc1::new_unchecked(value))
        } else {
            Err(IllegalArc1Error)
        }
    }

    pub fn as_u8(&self) -> (r: u8)
        ensures
            r == self.value(),
    {
        self.0
    }
}

impl TryFrom<u8> for Arc1 {
    type Error = IllegalArc1Error;

    fn try_from(value: u8) -> (r: Result<Arc1, IllegalArc1Error>) {
        Arc1::new(value)
    }
}

impl vstd::std_specs::convert::TryFromSpecImpl<u8> for Arc1 {
    open spec fn obeys_try_from_spec() -> bool {
        true
    }

    open spec fn try_from_spec(value: u8) -> Result<Arc1, IllegalArc1Error> {
        if value < 40 {
            Ok(Arc1::of(value))
        } else {
            Err(IllegalArc1Error)
        }
    }
}

impl From<Arc1> for u8 {
    fn from(arc: Arc1) -> (r: u8) {
        arc.as_u8()
    }
}

impl vstd::std_specs::convert::FromSpecImpl<Arc1> for u8 {
    open spec fn obeys_from_spec() -> bool {
        true
    }

    open spec fn from_spec(arc: Arc1) -> u8 {
        arc.value()
    }
}

} // verus!
