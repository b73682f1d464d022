use antc::generic::{
    build_substitution, collect_field_types, instance_fields, mangle_generic, plan_instantiation,
    GenericInfo, Instantiation,
};
use antc::table::{StructLayout, SymbolTable};
use antc::ty::Ty;
use indexmap::IndexMap;

fn ty(name: &str) -> Ty {
    Ty::new(name.to_string(), false)
}

fn entries(m: &IndexMap<String, usize>) -> Vec<(String, usize)> {
    m.iter().map(|(k, v)| (k.clone(), *v)).collect()
}

#[test]
fn mangle_without_arguments_is_the_name() {
    assert_eq!(mangle_generic("Point", &[]), "Point");
}

#[test]
fn mangle_appends_each_argument() {
    assert_eq!(mangle_generic("Vec", &[ty("i32")]), "Vec___i32");
    assert_eq!(mangle_generic("Map", &[ty("str"), ty("i64")]), "Map___str_i64");
}

#[test]
fn field_types_keep_first_position_and_last_type() {
    let fields = vec![("a".to_string(), 1), ("b".to_string(), 2), ("a".to_string(), 3)];
    let m = collect_field_types(&fields);
    assert_eq!(entries(&m), vec![("a".to_string(), 3), ("b".to_string(), 2)]);
}

#[test]
fn substitution_pairs_params_with_arguments() {
    let params = vec!["T".to_string(), "U".to_string(), "V".to_string()];
    let m = build_substitution(&params, &[10, 20]);
    assert_eq!(entries(&m), vec![("T".to_string(), 10), ("U".to_string(), 20)]);
    let repeated = vec!["T".to_string(), "T".to_string()];
    let m = build_substitution(&repeated, &[1, 2]);
    assert_eq!(entries(&m), vec![("T".to_string(), 2)]);
}

#[test]
fn instance_fields_skip_reference_count() {
    let mut fields = IndexMap::new();
    fields.insert("__ref_count__".to_string(), 0usize);
    fields.insert("x".to_string(), 5usize);
    fields.insert("y".to_string(), 6usize);
    assert_eq!(instance_fields(&fields), vec![("x".to_string(), 5), ("y".to_string(), 6)]);
}

fn pair_template() -> GenericInfo<()> {
    let mut fields = IndexMap::new();
    fields.insert("__ref_count__".to_string(), 0usize);
    fields.insert("first".to_string(), 1usize);
    GenericInfo::Struct { generic_params: vec!["T".to_string()], fields }
}

#[test]
fn plan_builds_a_new_instance() {
    let mut table = SymbolTable::new();
    let template = pair_template();
    match plan_instantiation(&mut table, "Pair", &[ty("i32")], &[42], Some(&template)).unwrap() {
        Instantiation::Build { name, subst, fields } => {
            assert_eq!(name, "Pair___i32");
            assert_eq!(entries(&subst), vec![("T".to_string(), 42)]);
            assert_eq!(fields, vec![("first".to_string(), 1)]);
        }
        other => panic!("unexpected {:?}", other),
    }
}

#[test]
fn plan_reuses_an_existing_instance() {
    let mut table = SymbolTable::new();
    let layout = StructLayout { name: "Pair___i32".to_string(), fields: vec![], offsets: vec![], size: 0, align: 1 };
    table.define_struct_type("Pair___i32", layout);
    let template = pair_template();
    match plan_instantiation(&mut table, "Pair", &[ty("i32")], &[42], Some(&template)).unwrap() {
        Instantiation::Ready(name) => assert_eq!(name, "Pair___i32"),
        other => panic!("unexpected {:?}", other),
    }
}

#[test]
fn plan_without_template_fails() {
    let mut table = SymbolTable::new();
    let err = plan_instantiation::<()>(&mut table, "Nope", &[ty("i32")], &[1], None).unwrap_err();
    assert_eq!(err, "Nope not a generic struct");
}

#[test]
fn plan_for_generic_function_has_nothing_to_lay_out() {
    let mut table = SymbolTable::new();
    let template: GenericInfo<()> = GenericInfo::Function {
        generic: vec!["T".to_string()],
        all_params: IndexMap::new(),
        block: Box::new(()),
        ret_ty: 0,
    };
    match plan_instantiation(&mut table, "id", &[ty("bool")], &[3], Some(&template)).unwrap() {
        Instantiation::Ready(name) => assert_eq!(name, "id___bool"),
        other => panic!("unexpected {:?}", other),
    }
}
