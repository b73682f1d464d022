use vstd::prelude::*;

verus! {

/// What the code generator reads of a front-end type: how it is written in
/// mangled names, and whether values of it are reference counted.
#[derive(Debug, PartialEq, Eq)]
pub struct Ty {
    /// The type as it is displayed (the text used in mangled names).
    pub name: String,
    /// Whether values of this type live on the reference-counted heap.
    pub gc: bool,
}

/// The mathematical value of a [`Ty`].
pub struct TyView {
    pub name: Seq<char>,
    pub gc: bool,
}

impl View for Ty {
    type V = TyView;

    open spec fn view(&self) -> TyView {
        TyView { name: self.name@, gc: self.gc }
    }
}

impl Ty {
    pub fn new(name: String, gc: bool) -> (ty: Ty)
        ensures
            ty.name == name,
            ty.gc == gc,
    {
        Ty { name, gc }
    }

    /// Whether values of this type need retain/release calls.
    pub fn need_gc(&self) -> (b: bool)
        ensures
            b == self.gc,
    {
        self.gc
    }
}

impl Clone for Ty {
    fn clone(&self) -> (ty: Self)
        ensures
            ty == *self,
    {
        Ty { name: self.name.clone(), gc: self.gc }
    }
}

/// An index into the front end's type context.
pub type TyId = usize;

} // verus!
