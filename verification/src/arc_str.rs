//! Shared string tokens: filename keys and path values are handed around by
//! reference-counted pointer, and compared by content, never by identity.
use vstd::prelude::*;
use std::sync::Arc;

verus! {

/// An immutable, reference-counted UTF-8 string. Cloning shares the
/// allocation; equality, and every contract in this crate, goes by content.
pub struct ArcStr(pub Arc<String>);

impl View for ArcStr {
    type V = Seq<char>;

    open spec fn view(&self) -> Seq<char> {
        self.0@
    }
}

/// Relies on std's `Arc::clone`: the returned handle points at the same
/// inner string as the argument.
#[verifier::external_body]
fn arc_clone(a: &Arc<String>) -> (r: Arc<String>)
    ensures
        r@ == a@,
{
    Arc::clone(a)
}

impl ArcStr {
    pub fn new(s: String) -> (r: ArcStr)
        ensures
            r@ == s@,
    {
        ArcStr(Arc::new(s))
    }

    pub fn from_ref(s: &str) -> (r: ArcStr)
        ensures
            r@ == s@,
    {
        ArcStr(Arc::new(s.to_owned()))
    }

    pub fn as_str(&self) -> (r: &str)
        ensures
            r@ == self@,
    {
        (*self.0).as_str()
    }
}

impl Clone for ArcStr {
    fn clone(&self) -> (r: Self)
        ensures
            r@ == self@,
    {
        ArcStr(arc_clone(&self.0))
    }
}

impl PartialEq for ArcStr {
    fn eq(&self, other: &ArcStr) -> (r: bool) {
        (*self.0) == (*other.0)
    }
}

impl Eq for ArcStr {}

impl vstd::std_specs::cmp::PartialEqSpecImpl for ArcStr {
    open spec fn obeys_eq_spec() -> bool {
        true
    }

    open spec fn eq_spec(&self, other: &ArcStr) -> bool {
        self@ == other@
    }
}

/// The string contents of a token list.
pub open spec fn views_of(l: Seq<ArcStr>) -> Seq<Seq<char>> {
    l.map_values(|a: ArcStr| a@)
}

} // verus!
