use vstd::prelude::*;

use crate::table::{get_post, get_result, StructLayout, SymbolTable, SymbolTy, SymbolTyView};
use crate::ty::TyView;

verus! {

/// Where a field of a freshly allocated struct is stored.
#[derive(Debug, Clone, Copy, PartialEq, Eq, Structural)]
pub enum FieldAddress {
    /// At the struct pointer itself.
    Base,
    /// This many bytes past the struct pointer.
    Offset(u32),
}

/// The address of a field stored at byte `offset`.
pub open spec fn field_address(offset: u32) -> FieldAddress {
    if offset == 0 {
        FieldAddress::Base
    } else {
        FieldAddress::Offset(offset)
    }
}

/// `i` is the first position of a field named `name`.
pub open spec fn is_first_field(fields: Seq<(Seq<char>, TyView)>, name: Seq<char>, i: int) -> bool {
    &&& 0 <= i < fields.len()
    &&& fields[i].0 == name
    &&& forall|j: int| 0 <= j < i ==> #[trigger] fields[j].0 != name
}

/// The first position of a field named `name`.
pub open spec fn field_position(fields: Seq<(Seq<char>, TyView)>, name: Seq<char>) -> int {
    choose|i: int| is_first_field(fields, name, i)
}

/// The layout has a field named `name`, with an offset.
pub open spec fn has_field(layout: StructLayout, name: Seq<char>) -> bool {
    &&& exists|i: int| is_first_field(layout@.fields, name, i)
    &&& field_position(layout@.fields, name) < layout@.offsets.len()
}

/// A field named `name` at position `p`, with no field of that name before
/// it and an offset at `p`, is a field of the layout at position `p`; its
/// store address is the struct pointer itself exactly when its offset is 0.
pub proof fn lemma_field_at(layout: StructLayout, name: Seq<char>, p: int)
    requires
        0 <= p < layout@.fields.len(),
        layout@.fields[p].0 == name,
        forall|j: int| 0 <= j < p ==> (#[trigger] layout@.fields[j]).0 != name,
        p < layout@.offsets.len(),
    ensures
        has_field(layout, name),
        field_position(layout@.fields, name) == p,
        field_address(layout@.offsets[p]) == if layout@.offsets[p] == 0 {
            FieldAddress::Base
        } else {
            FieldAddress::Offset(layout@.offsets[p])
        },
{
    let fields = layout@.fields;
    assert(is_first_field(fields, name, p));
    let q = field_position(fields, name);
    if q < p {
        assert(fields[q].0 != name);
    } else if q > p {
        assert(fields[p].0 != name);
    }
}

/// A name that no field has, or whose first field has no offset, is not a
/// field of the layout.
pub proof fn lemma_not_a_field(layout: StructLayout, name: Seq<char>)
    requires
        forall|p: int|
            0 <= p < layout@.fields.len() && #[trigger] layout@.fields[p].0 == name && (forall|j: int|
                0 <= j < p ==> (#[trigger] layout@.fields[j]).0 != name) ==> p >= layout@.offsets.len(),
    ensures
        !has_field(layout, name),
{
    let fields = layout@.fields;
    if has_field(layout, name) {
        let p = choose|p: int| is_first_field(fields, name, p);
        let q = field_position(fields, name);
        assert(is_first_field(fields, name, q));
        assert(fields[q].0 == name);
    }
}

/// The offset of the first field named `name`, if the layout has one.
fn field_offset(layout: &StructLayout, name: &String) -> (offset: Option<u32>)
    ensures
        match offset {
            Some(o) => has_field(*layout, name@) && o == layout@.offsets[field_position(
                layout@.fields,
                name@,
            )],
            None => !has_field(*layout, name@),
        },
{
    let ghost fields = layout@.fields;
    let mut i: usize = 0;
    while i < layout.fields.len()
        invariant
            fields == layout@.fields,
            i <= fields.len(),
            forall|j: int| 0 <= j < i ==> #[trigger] fields[j].0 != name@,
        decreases fields.len() - i,
    {
        if layout.fields[i].0 == *name {
            proof {
                assert(is_first_field(fields, name@, i as int));
                let p = field_position(fields, name@);
                if p < i {
                    assert(fields[p].0 != name@);
                } else if p > i {
                    assert(fields[i as int].0 != name@);
                }
            }
            if i < layout.offsets.len() {
                return Some(layout.offsets[i]);
            } else {
                return None;
            }
        }
        i = i + 1;
    }
    proof {
        if exists|p: int| is_first_field(fields, name@, p) {
            let p = choose|p: int| is_first_field(fields, name@, p);
            assert(fields[p].0 != name@);
        }
    }
    None
}

/// Where to store each of the named fields of a new struct laid out by
/// `layout`: at the struct pointer for a zero offset, else past it; `None`
/// for a name that is not a field of the layout (or has no offset).
pub fn struct_store_plan(layout: &StructLayout, field_names: &Vec<String>) -> (plan: Vec<
    Option<FieldAddress>,
>)
    ensures
        plan@.len() == field_names@.len(),
        forall|i: int|
            0 <= i < field_names@.len() ==> #[trigger] plan@[i] == if has_field(*layout, field_names@[i]@) {
                Some(field_address(layout@.offsets[field_position(layout@.fields, field_names@[i]@)]))
            } else {
                None
            },
{
    let mut plan: Vec<Option<FieldAddress>> = Vec::new();
    let mut i: usize = 0;
    while i < field_names.len()
        invariant
            i <= field_names@.len(),
            plan@.len() == i,
            forall|k: int|
                0 <= k < i ==> #[trigger] plan@[k] == if has_field(*layout, field_names@[k]@) {
                    Some(field_address(layout@.offsets[field_position(layout@.fields, field_names@[k]@)]))
                } else {
                    None
                },
        decreases field_names@.len() - i,
    {
        let address = match field_offset(layout, &field_names[i]) {
            Some(offset) => Some(if offset == 0 { FieldAddress::Base } else { FieldAddress::Offset(offset) }),
            None => None,
        };
        plan.push(address);
        i = i + 1;
    }
    plan
}

/// The layout of the (non-generic) struct `struct_name`, looked up in
/// `table` as any lookup.
pub fn lookup_struct_layout(table: &mut SymbolTable, struct_name: &str) -> (layout: Result<
    StructLayout,
    String,
>)
    ensures
        final(table)@ == get_post(old(table)@, struct_name@),
        match layout {
            Ok(l) => get_result(old(table)@, struct_name@) matches Some(s) && s.symbol_ty
                == SymbolTyView::Struct(l@),
            Err(e) => match get_result(old(table)@, struct_name@) {
                None => e@ == "undefined struct: "@ + struct_name@,
                Some(s) => !(s.symbol_ty is Struct) && e@ == "not a struct: "@ + struct_name@,
            },
        },
{
    match table.get(struct_name) {
        None => {
            let mut e = "undefined struct: ".to_owned();
            e.append(struct_name);
            Err(e)
        },
        Some(symbol) => match symbol.symbol_ty {
            SymbolTy::Struct(layout) => Ok(layout),
            _ => {
                let mut e = "not a struct: ".to_owned();
                e.append(struct_name);
                Err(e)
            },
        },
    }
}

} // verus!
