use antc::build_struct::{lookup_struct_layout, struct_store_plan, FieldAddress};
use antc::table::{StructLayout, SymbolTable};
use antc::ty::Ty;

fn point() -> StructLayout {
    StructLayout {
        name: "Point".to_string(),
        fields: vec![
            ("x".to_string(), Ty::new("i64".to_string(), false)),
            ("y".to_string(), Ty::new("i64".to_string(), false)),
            ("x".to_string(), Ty::new("i8".to_string(), false)),
        ],
        offsets: vec![0, 8, 16],
        size: 24,
        align: 8,
    }
}

#[test]
fn store_plan_uses_base_for_zero_offset() {
    let plan = struct_store_plan(&point(), &vec!["y".to_string(), "x".to_string()]);
    assert_eq!(plan, vec![Some(FieldAddress::Offset(8)), Some(FieldAddress::Base)]);
}

#[test]
fn store_plan_of_no_fields_is_empty() {
    assert!(struct_store_plan(&point(), &vec![]).is_empty());
}

#[test]
fn store_plan_rejects_unknown_field() {
    assert_eq!(
        struct_store_plan(&point(), &vec!["x".to_string(), "z".to_string()]),
        vec![Some(FieldAddress::Base), None]
    );
}

#[test]
fn store_plan_rejects_field_without_offset() {
    let mut layout = point();
    layout.offsets.truncate(1);
    assert_eq!(struct_store_plan(&layout, &vec!["y".to_string()]), vec![None]);
}

#[test]
fn lookup_finds_struct_layout() {
    let mut table = SymbolTable::new();
    table.define_struct_type("Point", point());
    assert_eq!(lookup_struct_layout(&mut table, "Point"), Ok(point()));
}

#[test]
fn lookup_of_undefined_struct_fails() {
    let mut table = SymbolTable::new();
    assert_eq!(lookup_struct_layout(&mut table, "Ghost"), Err("undefined struct: Ghost".to_string()));
}

#[test]
fn lookup_of_non_struct_fails() {
    let mut table = SymbolTable::new();
    table.define("v");
    assert_eq!(lookup_struct_layout(&mut table, "v"), Err("not a struct: v".to_string()));
}
