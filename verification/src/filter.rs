//! Reading a component for a filter: a filter that needs the component
//! fails where it is missing, one that takes it as an option does not.
use vstd::prelude::*;

verus! {

/// Why a filter could not be applied to a vertex.
#[derive(Debug, Clone, Copy, PartialEq, Eq, Structural)]
pub enum FilterGraphError {
    ComponentNotFound,
    ComponentNotAccessible,
    InvalidEntity,
}

/// What a filter takes as its argument, made from a component that may be
/// missing.
pub trait FilterComponent<'a, F>: Sized {
    /// Whether a missing component is refused.
    spec fn needs_component() -> bool;

    /// The argument for the component `f`: `ComponentNotFound` where the
    /// component is missing and the filter needs it.
    fn from_option(f: Option<&'a F>) -> (r: Result<Self, FilterGraphError>)
        ensures
            r is Err <==> (f is None && Self::needs_component()),
            r is Err ==> r == Err::<Self, FilterGraphError>(FilterGraphError::ComponentNotFound),
    ;
}

impl<'a: 'b, 'b, F> FilterComponent<'a, F> for &'b F {
    open spec fn needs_component() -> bool {
        true
    }

    fn from_option(f: Option<&'a F>) -> (r: Result<Self, FilterGraphError>)
        ensures
            f is Some ==> r == Ok::<&F, FilterGraphError>(f.unwrap()),
    {
        match f {
            Some(component) => Ok(component),
            None => Err(FilterGraphError::ComponentNotFound),
        }
    }
}

impl<'a: 'b, 'b, F> FilterComponent<'a, F> for Option<&'b F> {
    open spec fn needs_component() -> bool {
        false
    }

    fn from_option(f: Option<&'a F>) -> (r: Result<Self, FilterGraphError>)
        ensures
            r == Ok::<Option<&F>, FilterGraphError>(f),
    {
        Ok(f)
    }
}

} // verus!
