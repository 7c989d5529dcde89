//! A description of a Rust type, as far as checking a document against it
//! needs one: whether the type is a list, a map or a struct, what its items,
//! values and fields are, and how the type prints itself.

use vstd::prelude::*;

verus! {

/// What a type is defined as: a list of items, a map to values, or
/// something else. The numbers are indices into a `ShapeTable`.
#[derive(Debug, Clone, Copy, PartialEq, Eq)]
pub enum ShapeDef {
    List { item: usize },
    Mapping { value: usize },
    Other,
}

/// A field of a struct: its name, and the index of its type.
#[derive(Debug)]
pub struct ShapeField {
    pub name: String,
    pub shape: usize,
}

/// What kind of type a type is: a struct with fields, or something else.
#[derive(Debug)]
pub enum ShapeType {
    Struct { fields: Vec<ShapeField> },
    Other,
}

/// One type: its definition, its kind, and how each of the two prints.
#[derive(Debug)]
pub struct ShapeEntry {
    pub def: ShapeDef,
    pub ty: ShapeType,
    pub def_text: String,
    pub ty_text: String,
}

/// Types that refer to each other by index.
#[derive(Debug)]
pub struct ShapeTable {
    pub entries: Vec<ShapeEntry>,
}

/// Every index in `e` is below `n`.
pub open spec fn entry_wf(e: ShapeEntry, n: int) -> bool {
    &&& match e.def {
        ShapeDef::List { item } => item < n,
        ShapeDef::Mapping { value } => value < n,
        ShapeDef::Other => true,
    }
    &&& match e.ty {
        ShapeType::Struct { fields } => forall|f: int|
            0 <= f < fields@.len() ==> #[trigger] fields@[f].shape < n,
        ShapeType::Other => true,
    }
}

impl ShapeTable {
    /// Every index in the table refers to an entry of it.
    pub open spec fn wf(&self) -> bool {
        forall|s: int|
            0 <= s < self.entries@.len() ==> #[trigger] entry_wf(
                self.entries@[s],
                self.entries@.len() as int,
            )
    }

    /// Whether every index in the table refers to an entry of it.
    pub fn is_wf(&self) -> (r: bool)
        ensures
            r == self.wf(),
    {
        let n = self.entries.len();
        let mut s: usize = 0;
        while s < n
            invariant
                n == self.entries@.len(),
                s <= n,
                forall|k: int| 0 <= k < s ==> #[trigger] entry_wf(self.entries@[k], n as int),
            decreases n - s,
        {
            let e = &self.entries[s];
            let def_ok = match e.def {
                ShapeDef::List { item } => item < n,
                ShapeDef::Mapping { value } => value < n,
                ShapeDef::Other => true,
            };
            if !def_ok {
                assert(!entry_wf(self.entries@[s as int], n as int));
                return false;
            }
            match &e.ty {
                ShapeType::Struct { fields } => {
                    let mut f: usize = 0;
                    while f < fields.len()
                        invariant
                            f <= fields@.len(),
                            s < n,
                            n == self.entries@.len(),
                            self.entries@[s as int].ty == (ShapeType::Struct { fields: *fields }),
                            forall|g: int| 0 <= g < f ==> #[trigger] fields@[g].shape < n,
                        decreases fields@.len() - f,
                    {
                        if fields[f].shape >= n {
                            let ghost e0 = self.entries@[s as int];
                            assert(e0.ty->fields == *fields);
                            assert(e0.ty->fields@[f as int].shape >= n);
                            assert(!entry_wf(e0, n as int));
                            return false;
                        }
                        f = f + 1;
                    }
                },
                ShapeType::Other => {},
            }
            s = s + 1;
        }
        true
    }
}

} // verus!
