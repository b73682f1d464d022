use antc::table::{StructLayout, Symbol, SymbolScope, SymbolTable, SymbolTy};
use antc::ty::Ty;

fn layout(name: &str) -> StructLayout {
    StructLayout {
        name: name.to_string(),
        fields: vec![("x".to_string(), Ty::new("i64".to_string(), false))],
        offsets: vec![0],
        size: 8,
        align: 8,
    }
}

#[test]
fn define_in_global_scope() {
    let mut t = SymbolTable::new();
    let a = t.define("a");
    assert_eq!(a.name, "a");
    assert_eq!(a.scope, SymbolScope::Global);
    assert_eq!(a.table_index, 0);
    assert_eq!(a.var_index, 0);
    assert!(a.is_val);
    assert_eq!(a.symbol_ty, SymbolTy::Var);
    assert_eq!(t.def_count, 1);
    assert_eq!(t.get("a"), Some(a));
}

#[test]
fn define_in_nested_scope_is_local() {
    let mut global = SymbolTable::new();
    global.define("g1");
    global.define("g2");
    let mut inner = SymbolTable::from_outer(global);
    let x = inner.define("x");
    assert_eq!(x.scope, SymbolScope::Local);
    assert_eq!(x.table_index, 0);
    assert_eq!(x.var_index, 2);
}

#[test]
fn var_indices_are_consecutive() {
    let mut global = SymbolTable::new();
    let a = global.define("a");
    let f = global.define_func("f");
    let mut inner = SymbolTable::from_outer(global);
    let b = inner.define("b");
    let c = inner.define("c");
    assert_eq!(a.var_index, 0);
    assert_eq!(f.var_index, 1);
    assert_eq!(b.var_index, 2);
    assert_eq!(c.var_index, 3);
    assert_eq!(c.table_index, 1);
}

#[test]
fn redefinition_replaces_but_counts() {
    let mut t = SymbolTable::new();
    t.define("a");
    let again = t.define("a");
    assert_eq!(again.table_index, 1);
    assert_eq!(again.var_index, 1);
    assert_eq!(t.def_count, 2);
    assert_eq!(t.get("a"), Some(again));
}

#[test]
fn missing_name_is_none() {
    let mut global = SymbolTable::new();
    global.define("a");
    let mut inner = SymbolTable::from_outer(global);
    assert_eq!(inner.get("zzz"), None);
    assert!(inner.free_symbols.is_empty());
}

#[test]
fn global_symbol_is_not_captured() {
    let mut global = SymbolTable::new();
    let a = global.define("a");
    let mut inner = SymbolTable::from_outer(global);
    let found = inner.get("a").unwrap();
    assert_eq!(found, a);
    assert!(inner.free_symbols.is_empty());
    assert_eq!(inner.map.len(), 0);
}

#[test]
fn enclosing_local_is_captured_as_free() {
    let global = SymbolTable::new();
    let mut func = SymbolTable::from_outer(global);
    let x = func.define("x");
    let mut closure = SymbolTable::from_outer(func);
    let found = closure.get("x").unwrap();
    assert_eq!(found.scope, SymbolScope::Free);
    assert_eq!(found.table_index, 0);
    assert_eq!(found.var_index, x.var_index);
    assert_eq!(found.name, "x");
    assert_eq!(closure.free_symbols, vec![x.clone()]);
    assert_eq!(closure.map.get("x"), Some(&found));
    let func = closure.outer.take().unwrap();
    assert!(func.free_symbols.is_empty());
    assert_eq!(func.map.get("x"), Some(&x));
}

#[test]
fn capture_passes_through_every_scope() {
    let global = SymbolTable::new();
    let mut f = SymbolTable::from_outer(global);
    let x = f.define("x");
    let g = SymbolTable::from_outer(f);
    let mut h = SymbolTable::from_outer(g);
    let found = h.get("x").unwrap();
    assert_eq!(found.scope, SymbolScope::Free);
    assert_eq!(found.table_index, 0);
    let g = h.outer.as_ref().unwrap();
    assert_eq!(g.free_symbols, vec![x.clone()]);
    let g_copy = g.map.get("x").unwrap().clone();
    assert_eq!(g_copy.scope, SymbolScope::Free);
    assert_eq!(h.free_symbols, vec![g_copy]);
}

#[test]
fn second_lookup_reuses_capture() {
    let global = SymbolTable::new();
    let mut f = SymbolTable::from_outer(global);
    f.define("x");
    let mut c = SymbolTable::from_outer(f);
    let first = c.get("x").unwrap();
    let second = c.get("x").unwrap();
    assert_eq!(first, second);
    assert_eq!(c.free_symbols.len(), 1);
    assert_eq!(c.def_count, 0);
    assert_eq!(c.outer.as_ref().unwrap().def_count, 1);
}

#[test]
fn capture_index_follows_free_list() {
    let global = SymbolTable::new();
    let mut f = SymbolTable::from_outer(global);
    f.define("x");
    f.define("y");
    let mut c = SymbolTable::from_outer(f);
    let y = c.get("y").unwrap();
    let x = c.get("x").unwrap();
    assert_eq!(y.table_index, 0);
    assert_eq!(x.table_index, 1);
    assert_eq!(c.free_symbols[1].name, "x");
}

#[test]
fn renamed_name_resolves_in_same_scope() {
    let mut t = SymbolTable::new();
    let x = t.define("x");
    t.renamed_symbols.insert("alias".to_string(), "x".to_string());
    assert_eq!(t.get("alias"), Some(x));
}

#[test]
fn renaming_to_missing_name_stops_lookup() {
    let mut global = SymbolTable::new();
    global.define("alias");
    let mut inner = SymbolTable::from_outer(global);
    inner.renamed_symbols.insert("alias".to_string(), "gone".to_string());
    assert_eq!(inner.get("alias"), None);
}

#[test]
fn renamed_capture_is_stored_under_symbol_name() {
    let global = SymbolTable::new();
    let mut f = SymbolTable::from_outer(global);
    f.define("x");
    f.renamed_symbols.insert("alias".to_string(), "x".to_string());
    let mut c = SymbolTable::from_outer(f);
    let found = c.get("alias").unwrap();
    assert_eq!(found.name, "x");
    assert!(c.map.get("alias").is_none());
    assert_eq!(c.map.get("x"), Some(&found));
    let again = c.get("alias").unwrap();
    assert_eq!(again.table_index, 1);
    assert_eq!(c.free_symbols.len(), 2);
}

#[test]
fn define_free_appends_and_indexes() {
    let mut t = SymbolTable::new();
    let outer_symbol = Symbol::new("v".to_string(), SymbolScope::Local, 4, 9, true);
    let free = t.define_free(outer_symbol.clone());
    assert_eq!(free.scope, SymbolScope::Free);
    assert_eq!(free.table_index, 0);
    assert_eq!(free.var_index, 9);
    assert_eq!(t.free_symbols[free.table_index], outer_symbol);
    assert_eq!(t.def_count, 0);
    let free2 = t.define_free(Symbol::new("w".to_string(), SymbolScope::Local, 1, 2, true));
    assert_eq!(free2.table_index, 1);
}

#[test]
fn find_by_table_index() {
    let mut global = SymbolTable::new();
    let a = global.define("a");
    let b = global.define("b");
    let mut inner = SymbolTable::from_outer(global);
    let c = inner.define("c");
    assert_eq!(inner.find(0), Some(c));
    assert_eq!(inner.find(1), Some(b));
    assert_eq!(inner.outer.as_ref().unwrap().find(0), Some(a));
    assert_eq!(inner.find(7), None);
}

#[test]
fn insert_symbol_in_top_lands_in_innermost_scope() {
    let global = SymbolTable::new();
    let mut inner = SymbolTable::from_outer(global);
    let sym = Symbol::create_func("main".to_string(), SymbolScope::Global, 0, 0, true);
    inner.insert_symbol_in_top("main", sym.clone());
    assert_eq!(inner.def_count, 1);
    assert_eq!(inner.next_var_index(), 1);
    assert_eq!(inner.map.get("main"), Some(&sym));
    let global = inner.outer.as_ref().unwrap();
    assert_eq!(global.def_count, 0);
    assert!(global.map.get("main").is_none());
}

#[test]
fn define_kinds() {
    let mut t = SymbolTable::new();
    let f = t.define_func("f");
    assert_eq!(f.symbol_ty, SymbolTy::Function);
    assert!(f.is_val);
    let s = t.define_struct("p", layout("Point"));
    assert_eq!(s.symbol_ty, SymbolTy::Struct(layout("Point")));
    assert!(s.is_val);
    assert_eq!(s.table_index, 1);
    let ty = t.define_struct_type("Point", layout("Point"));
    assert!(!ty.is_val);
    assert_eq!(ty.var_index, 2);
}

#[test]
fn symbol_constructors() {
    let v = Symbol::new("v".to_string(), SymbolScope::Local, 1, 2, true);
    assert_eq!(v.symbol_ty, SymbolTy::Var);
    assert_eq!((v.table_index, v.var_index), (1, 2));
    let f = Symbol::create_func("f".to_string(), SymbolScope::Global, 0, 0, true);
    assert_eq!(f.symbol_ty, SymbolTy::Function);
    let s = Symbol::create_struct("S".to_string(), SymbolScope::Global, 3, 4, false, layout("S"));
    assert_eq!(s.symbol_ty, SymbolTy::Struct(layout("S")));
    assert!(!s.is_val);
}

#[test]
fn only_structs_need_gc() {
    assert!(SymbolTy::Struct(layout("S")).need_gc());
    assert!(!SymbolTy::Var.need_gc());
    assert!(!SymbolTy::Function.need_gc());
}

#[test]
fn clones_are_equal() {
    let s = Symbol::create_struct("S".to_string(), SymbolScope::Free, 3, 4, false, layout("S"));
    assert_eq!(s.clone(), s);
    assert_eq!(layout("L").clone(), layout("L"));
}

#[test]
fn sibling_scopes_get_distinct_var_indices() {
    let mut global = SymbolTable::new();
    let g = global.define("g");
    let mut first = SymbolTable::from_outer(global);
    let a = first.define("a");
    let global = first.into_outer().unwrap();
    let mut second = SymbolTable::from_outer(global);
    let b = second.define("b");
    assert_eq!(g.var_index, 0);
    assert_eq!(a.var_index, 1);
    assert_eq!(b.var_index, 2);
    assert_eq!(a.table_index, 0);
    assert_eq!(b.table_index, 0);
    let mut global = second.into_outer().unwrap();
    let h = global.define("h");
    assert_eq!(h.var_index, 3);
    assert_eq!(h.table_index, 1);
    assert!(global.into_outer().is_none());
}

#[test]
fn leaving_a_scope_keeps_its_captures_in_enclosing_scopes() {
    let global = SymbolTable::new();
    let mut f = SymbolTable::from_outer(global);
    let x = f.define("x");
    let g = SymbolTable::from_outer(f);
    let mut h = SymbolTable::from_outer(g);
    h.get("x");
    let g = h.into_outer().unwrap();
    assert_eq!(g.free_symbols, vec![x]);
}

#[test]
fn insertion_uses_up_a_variable_index() {
    let mut global = SymbolTable::new();
    let sym = Symbol::new("x".to_string(), SymbolScope::Global, 0, 0, true);
    global.insert_symbol_in_top("x", sym);
    let y = global.define("y");
    assert_eq!(y.var_index, 1);
    assert_eq!(y.table_index, 1);
    assert_eq!(global.next_var_index(), 2);
}
