use vstd::prelude::*;

use indexmap::IndexMap;

use crate::table::{get_post, get_result, SymbolTable};
use crate::ty::{Ty, TyId, TyView};

verus! {

#[verifier::external_type_specification]
#[verifier::external_body]
#[verifier::reject_recursive_types(K)]
#[verifier::reject_recursive_types(V)]
#[verifier::reject_recursive_types(S)]
pub struct ExIndexMap<K, V, S>(IndexMap<K, V, S>);

/// The entries of a name-to-type map, in the map's order.
pub uninterp spec fn type_map_entries(m: IndexMap<String, TyId>) -> Seq<(Seq<char>, TyId)>;

/// No name occurs twice.
pub open spec fn keys_distinct(s: Seq<(Seq<char>, TyId)>) -> bool {
    forall|i: int, j: int| 0 <= i < j < s.len() ==> #[trigger] s[i].0 != #[trigger] s[j].0
}

/// `k` names some entry.
pub open spec fn has_key(s: Seq<(Seq<char>, TyId)>, k: Seq<char>) -> bool {
    exists|i: int| 0 <= i < s.len() && #[trigger] s[i].0 == k
}

/// The position of the entry named `k`.
pub open spec fn key_index(s: Seq<(Seq<char>, TyId)>, k: Seq<char>) -> int {
    choose|i: int| 0 <= i < s.len() && #[trigger] s[i].0 == k
}

/// The entries after inserting `v` under `k`: an existing entry keeps its
/// place and takes the new value; a new one goes last.
pub open spec fn inserted(s: Seq<(Seq<char>, TyId)>, k: Seq<char>, v: TyId) -> Seq<(Seq<char>, TyId)> {
    if has_key(s, k) {
        s.update(key_index(s, k), (k, v))
    } else {
        s.push((k, v))
    }
}

/// What was stored under `k`.
pub open spec fn prior_value(s: Seq<(Seq<char>, TyId)>, k: Seq<char>) -> Option<TyId> {
    if has_key(s, k) {
        Some(s[key_index(s, k)].1)
    } else {
        None
    }
}

/// The entries after inserting each pair of `pairs` in turn into an empty map.
pub open spec fn insert_all(pairs: Seq<(Seq<char>, TyId)>) -> Seq<(Seq<char>, TyId)>
    decreases pairs.len(),
{
    if pairs.len() == 0 {
        Seq::empty()
    } else {
        inserted(insert_all(pairs.drop_last()), pairs.last().0, pairs.last().1)
    }
}

/// The value paired with the last occurrence of `k` in `pairs`.
pub open spec fn last_value(pairs: Seq<(Seq<char>, TyId)>, k: Seq<char>) -> TyId
    decreases pairs.len(),
{
    if pairs.len() == 0 {
        0
    } else if pairs.last().0 == k {
        pairs.last().1
    } else {
        last_value(pairs.drop_last(), k)
    }
}

proof fn lemma_key_index_unique(s: Seq<(Seq<char>, TyId)>, k: Seq<char>, i: int)
    requires
        keys_distinct(s),
        0 <= i < s.len(),
        s[i].0 == k,
    ensures
        has_key(s, k),
        key_index(s, k) == i,
{
    assert(has_key(s, k));
    let j = key_index(s, k);
    if j < i {
        assert(s[j].0 != s[i].0);
    } else if j > i {
        assert(s[i].0 != s[j].0);
    }
}

/// Inserting into a map keeps its keys distinct; the inserted key then
/// holds the inserted value, and every other key keeps its value.
pub proof fn lemma_inserted(s: Seq<(Seq<char>, TyId)>, k: Seq<char>, v: TyId, other: Seq<char>)
    requires
        keys_distinct(s),
    ensures
        keys_distinct(inserted(s, k, v)),
        has_key(inserted(s, k, v), k),
        inserted(s, k, v)[key_index(inserted(s, k, v), k)].1 == v,
        other != k ==> has_key(inserted(s, k, v), other) == has_key(s, other),
        other != k && has_key(s, other) ==> inserted(s, k, v)[key_index(inserted(s, k, v), other)].1
            == s[key_index(s, other)].1,
{
    let t = inserted(s, k, v);
    if has_key(s, k) {
        let i = key_index(s, k);
        assert(keys_distinct(t)) by {
            assert forall|a: int, b: int| 0 <= a < b < t.len() implies #[trigger] t[a].0 != #[trigger] t[b].0 by {
                assert(s[a].0 != s[b].0);
            }
        }
        lemma_key_index_unique(t, k, i);
        if other != k && has_key(s, other) {
            let j = key_index(s, other);
            lemma_key_index_unique(t, other, j);
        }
        if other != k && has_key(t, other) {
            let j = key_index(t, other);
            assert(s[j].0 == other);
        }
    } else {
        let n = s.len() as int;
        assert(keys_distinct(t)) by {
            assert forall|a: int, b: int| 0 <= a < b < t.len() implies #[trigger] t[a].0 != #[trigger] t[b].0 by {
                if b < n {
                    assert(s[a].0 != s[b].0);
                } else {
                    assert(t[a].0 == s[a].0);
                }
            }
        }
        lemma_key_index_unique(t, k, n);
        if other != k && has_key(s, other) {
            let j = key_index(s, other);
            lemma_key_index_unique(t, other, j);
        }
        if other != k && has_key(t, other) {
            let j = key_index(t, other);
            assert(j < n);
            assert(s[j].0 == other);
        }
    }
}

/// Building a map from `pairs` by successive insertions gives each name
/// that occurs in `pairs` exactly once, with the value of its last
/// occurrence, and no other name.
pub proof fn lemma_insert_all(pairs: Seq<(Seq<char>, TyId)>, k: Seq<char>)
    ensures
        keys_distinct(insert_all(pairs)),
        has_key(insert_all(pairs), k) == has_key(pairs, k),
        has_key(pairs, k) ==> insert_all(pairs)[key_index(insert_all(pairs), k)].1 == last_value(pairs, k),
    decreases pairs.len(),
{
    if pairs.len() > 0 {
        let init = pairs.drop_last();
        let (lk, lv) = pairs.last();
        lemma_insert_all(init, k);
        lemma_inserted(insert_all(init), lk, lv, k);
        if k != lk {
            assert(has_key(pairs, k) == has_key(init, k)) by {
                if has_key(pairs, k) {
                    let i = choose|i: int| 0 <= i < pairs.len() && #[trigger] pairs[i].0 == k;
                    assert(i < init.len());
                    assert(init[i] == pairs[i]);
                }
                if has_key(init, k) {
                    let i = choose|i: int| 0 <= i < init.len() && #[trigger] init[i].0 == k;
                    assert(pairs[i] == init[i]);
                }
            }
        } else {
            assert(pairs[pairs.len() - 1].0 == k);
        }
    } else {
        assert(insert_all(pairs) =~= Seq::<(Seq<char>, TyId)>::empty());
    }
}

/// Creates an empty map (`IndexMap::new`).
#[verifier::external_body]
fn type_map_new() -> (m: IndexMap<String, TyId>)
    ensures
        type_map_entries(m) == Seq::<(Seq<char>, TyId)>::empty(),
{
    IndexMap::new()
}

/// `IndexMap::insert`: an equal key keeps its position and gets the new
/// value, the old one is returned; otherwise the pair goes last. Keys stay
/// distinct.
#[verifier::external_body]
fn type_map_insert(m: &mut IndexMap<String, TyId>, key: String, value: TyId) -> (previous: Option<
    TyId,
>)
    ensures
        type_map_entries(*final(m)) == inserted(type_map_entries(*old(m)), key@, value),
        previous == prior_value(type_map_entries(*old(m)), key@),
        keys_distinct(type_map_entries(*final(m))),
{
    m.insert(key, value)
}

/// `IndexMap::len`: the number of entries.
#[verifier::external_body]
fn type_map_len(m: &IndexMap<String, TyId>) -> (n: usize)
    ensures
        n == type_map_entries(*m).len(),
{
    m.len()
}

/// `IndexMap::get_index`: the `i`-th entry, if there is one.
#[verifier::external_body]
fn type_map_get_index(m: &IndexMap<String, TyId>, i: usize) -> (e: Option<(&String, &TyId)>)
    ensures
        match e {
            Some((k, v)) => i < type_map_entries(*m).len() && k@ == type_map_entries(*m)[i as int].0
                && *v == type_map_entries(*m)[i as int].1,
            None => i >= type_map_entries(*m).len(),
        },
{
    m.get_index(i)
}

/// What a generic item looks like before instantiation. `B` is the
/// front end's expression type; only functions carry a body.
#[derive(Debug, PartialEq, Eq)]
pub enum GenericInfo<B> {
    Struct {
        /// T, K, V ...
        generic_params: Vec<String>,
        /// field, field type
        fields: IndexMap<String, TyId>,
    },
    Function {
        /// T, K, V ...
        generic: Vec<String>,
        all_params: IndexMap<String, TyId>,
        block: Box<B>,
        ret_ty: TyId,
    },
}

/// A generic function after instantiation.
#[derive(Debug, PartialEq, Eq)]
pub enum CompiledGenericInfo {
    Function { new_name: String, new_params: IndexMap<String, TyId>, new_ret_ty: TyId },
}

/// The `"_" + name` of each type, concatenated.
pub open spec fn arg_suffix(args: Seq<TyView>) -> Seq<char>
    decreases args.len(),
{
    if args.len() == 0 {
        Seq::empty()
    } else {
        arg_suffix(args.drop_last()) + "_"@ + args.last().name
    }
}

/// The name of `name` instantiated at `args`: `name` itself without
/// arguments, else `name__` followed by `_T` for each argument `T`.
pub open spec fn mangled_name(name: Seq<char>, args: Seq<TyView>) -> Seq<char> {
    if args.len() == 0 {
        name
    } else {
        name + "__"@ + arg_suffix(args)
    }
}

/// The total length of the `"_" + name` segments of `args`.
pub open spec fn segments_len(args: Seq<TyView>) -> int
    decreases args.len(),
{
    if args.len() == 0 {
        0
    } else {
        segments_len(args.drop_last()) + 1 + args.last().name.len()
    }
}

proof fn lemma_segments_len_nonneg(args: Seq<TyView>)
    ensures
        segments_len(args) >= 0,
    decreases args.len(),
{
    if args.len() > 0 {
        lemma_segments_len_nonneg(args.drop_last());
    }
}

proof fn lemma_arg_suffix(args: Seq<TyView>, i: int)
    requires
        0 <= i < args.len(),
    ensures
        arg_suffix(args).len() == segments_len(args),
        segments_len(args.take(i)) + 1 + args[i].name.len() <= segments_len(args),
        arg_suffix(args)[segments_len(args.take(i))] == '_',
        arg_suffix(args).subrange(
            segments_len(args.take(i)) + 1,
            segments_len(args.take(i)) + 1 + args[i].name.len(),
        ) == args[i].name,
    decreases args.len(),
{
    reveal_strlit("_");
    lemma_segments_len_nonneg(args.take(i));
    let init = args.drop_last();
    let last = args.last();
    let suf = arg_suffix(args);
    assert(suf == arg_suffix(init) + "_"@ + last.name);
    if i < args.len() - 1 {
        lemma_arg_suffix(init, i);
        assert(args.take(i) =~= init.take(i));
        assert(init[i] == args[i]);
        let off = segments_len(args.take(i));
        assert(off == segments_len(init.take(i)));
        let a = arg_suffix(init);
        let ab = a + "_"@;
        assert(ab.len() == a.len() + 1);
        assert(suf == ab + last.name);
        assert(off < a.len());
        assert(suf[off] == ab[off]);
        assert(ab[off] == a[off]);
        assert(suf.subrange(off + 1, off + 1 + args[i].name.len()) =~= a.subrange(
            off + 1,
            off + 1 + args[i].name.len(),
        ));
    } else {
        assert(args.take(i) =~= init);
        if init.len() > 0 {
            lemma_arg_suffix(init, 0);
        } else {
            assert(arg_suffix(init) =~= Seq::<char>::empty());
        }
        let off = segments_len(init);
        assert(suf[off] == '_');
        assert(suf.subrange(off + 1, off + 1 + last.name.len()) =~= last.name);
    }
}

/// A mangled name is the base name, then (with arguments) `__`, then one
/// `_` + type name segment per argument, in order: its length is that of
/// the base name plus 2 plus, per argument, 1 plus the argument's name, and
/// each argument's name stands right after its `_` at that offset.
pub proof fn lemma_mangled_name(name: Seq<char>, args: Seq<TyView>)
    ensures
        mangled_name(name, args).len() == if args.len() == 0 {
            name.len() as int
        } else {
            name.len() + 2 + segments_len(args)
        },
        mangled_name(name, args).subrange(0, name.len() as int) == name,
        args.len() > 0 ==> mangled_name(name, args)[name.len() as int] == '_' && mangled_name(name, args)[name.len()
            + 1int] == '_',
        forall|i: int|
            0 <= i < args.len() ==> {
                let off = name.len() + 2 + segments_len(#[trigger] args.take(i));
                &&& mangled_name(name, args)[off] == '_'
                &&& mangled_name(name, args).subrange(off + 1, off + 1 + args[i].name.len()) == args[i].name
            },
{
    reveal_strlit("__");
    let m = mangled_name(name, args);
    if args.len() == 0 {
        assert(m.subrange(0, name.len() as int) =~= name);
    } else {
        lemma_arg_suffix(args, 0);
        let suf = arg_suffix(args);
        assert(m == name + "__"@ + suf);
        assert(m.subrange(0, name.len() as int) =~= name);
        assert forall|i: int| 0 <= i < args.len() implies {
            let off = name.len() + 2 + segments_len(#[trigger] args.take(i));
            &&& m[off] == '_'
            &&& m.subrange(off + 1, off + 1 + args[i].name.len()) == args[i].name
        } by {
            lemma_arg_suffix(args, i);
            lemma_segments_len_nonneg(args.take(i));
            let o = segments_len(args.take(i));
            let off = name.len() + 2 + o;
            let head = name + "__"@;
            assert(head.len() == name.len() + 2);
            assert(m == head + suf);
            assert(0 <= o < suf.len());
            assert(m[off] == suf[o]);
            assert(m.subrange(off + 1, off + 1 + args[i].name.len()) =~= suf.subrange(
                o + 1,
                o + 1 + args[i].name.len(),
            ));
        }
    }
}

/// The views of the types in `tys`.
pub open spec fn ty_views(tys: Seq<Ty>) -> Seq<TyView> {
    tys.map_values(|t: Ty| t@)
}

/// The name of the instance of `name` at the types `args`.
pub fn mangle_generic(name: &str, args: &[Ty]) -> (mangled: String)
    ensures
        mangled@ == mangled_name(name@, ty_views(args@)),
{
    if args.len() == 0 {
        return name.to_owned();
    }
    let ghost views = ty_views(args@);
    let mut res = name.to_owned();
    res.append("__");
    let mut i: usize = 0;
    while i < args.len()
        invariant
            i <= args@.len(),
            views == ty_views(args@),
            res@ == name@ + "__"@ + arg_suffix(views.take(i as int)),
        decreases args@.len() - i,
    {
        res.append("_");
        res.append(args[i].name.as_str());
        proof {
            assert(views.take(i + 1).drop_last() =~= views.take(i as int));
            assert(res@ =~= name@ + "__"@ + arg_suffix(views.take(i + 1)));
        }
        i = i + 1;
    }
    assert(views.take(args@.len() as int) =~= views);
    res
}

/// The name/type pairs of `fields`.
pub open spec fn pair_views(fields: Seq<(String, TyId)>) -> Seq<(Seq<char>, TyId)> {
    fields.map_values(|f: (String, TyId)| (f.0@, f.1))
}

/// Maps each field name to its type. A name given twice keeps its first
/// position and takes its last type.
pub fn collect_field_types(fields: &Vec<(String, TyId)>) -> (m: IndexMap<String, TyId>)
    ensures
        type_map_entries(m) == insert_all(pair_views(fields@)),
{
    let mut m = type_map_new();
    let mut i: usize = 0;
    while i < fields.len()
        invariant
            i <= fields@.len(),
            type_map_entries(m) == insert_all(pair_views(fields@).take(i as int)),
        decreases fields@.len() - i,
    {
        let (name, ty) = &fields[i];
        type_map_insert(&mut m, name.clone(), *ty);
        proof {
            let ps = pair_views(fields@);
            assert(ps.take(i + 1).drop_last() =~= ps.take(i as int));
            assert(ps.take(i + 1).last() == ps[i as int]);
        }
        i = i + 1;
    }
    assert(pair_views(fields@).take(fields@.len() as int) =~= pair_views(fields@));
    m
}

/// Generic parameters paired with the type arguments, as far as both go.
pub open spec fn zip_params(params: Seq<String>, args: Seq<TyId>) -> Seq<(Seq<char>, TyId)> {
    Seq::new(
        if params.len() <= args.len() {
            params.len()
        } else {
            args.len()
        },
        |i: int| (params[i]@, args[i]),
    )
}

/// The substitution of the type arguments for the generic parameters.
pub fn build_substitution(generic_params: &Vec<String>, type_args: &[TyId]) -> (subst: IndexMap<
    String,
    TyId,
>)
    ensures
        type_map_entries(subst) == insert_all(zip_params(generic_params@, type_args@)),
{
    let ghost pairs = zip_params(generic_params@, type_args@);
    let mut subst = type_map_new();
    let mut i: usize = 0;
    while i < generic_params.len() && i < type_args.len()
        invariant
            i <= generic_params@.len(),
            i <= type_args@.len(),
            i <= pairs.len(),
            pairs == zip_params(generic_params@, type_args@),
            type_map_entries(subst) == insert_all(pairs.take(i as int)),
        decreases generic_params@.len() - i,
    {
        type_map_insert(&mut subst, generic_params[i].clone(), type_args[i]);
        proof {
            assert(pairs.take(i + 1).drop_last() =~= pairs.take(i as int));
            assert(pairs.take(i + 1).last() == pairs[i as int]);
        }
        i = i + 1;
    }
    assert(pairs.take(i as int) =~= pairs);
    subst
}

/// The name of the hidden reference-count field, which layouts do not list.
pub open spec fn ref_count_field() -> Seq<char> {
    "__ref_count__"@
}

/// Entries other than the reference-count field, in order.
pub open spec fn without_ref_count(s: Seq<(Seq<char>, TyId)>) -> Seq<(Seq<char>, TyId)> {
    s.filter(|e: (Seq<char>, TyId)| e.0 != ref_count_field())
}

/// The fields of a generic struct that an instance lays out.
pub fn instance_fields(fields: &IndexMap<String, TyId>) -> (out: Vec<(String, TyId)>)
    ensures
        pair_views(out@) == without_ref_count(type_map_entries(*fields)),
{
    let ghost entries = type_map_entries(*fields);
    let ref_count = "__ref_count__".to_owned();
    let mut out: Vec<(String, TyId)> = Vec::new();
    let n = type_map_len(fields);
    let mut i: usize = 0;
    while i < n
        invariant
            n == entries.len(),
            entries == type_map_entries(*fields),
            i <= n,
            ref_count@ == ref_count_field(),
            pair_views(out@) == without_ref_count(entries.take(i as int)),
        decreases n - i,
    {
        let (name, ty) = type_map_get_index(fields, i).unwrap();
        proof {
            reveal_with_fuel(Seq::filter, 1);
            assert(entries.take(i + 1).drop_last() =~= entries.take(i as int));
        }
        if *name != ref_count {
            out.push((name.clone(), *ty));
            proof {
                assert(pair_views(out@) =~= pair_views(out@).drop_last().push(entries[i as int]));
            }
        }
        i = i + 1;
    }
    assert(entries.take(n as int) =~= entries);
    out
}

/// What instantiating a generic struct asks of the layout stage.
#[derive(Debug)]
pub enum Instantiation {
    /// Nothing to lay out: the instance exists already, or the item is not a struct.
    Ready(String),
    /// Lay out `fields`, with `subst` applied to their types, as the struct `name`.
    Build { name: String, subst: IndexMap<String, TyId>, fields: Vec<(String, TyId)> },
}

/// Decides how to instantiate the generic struct `base_name` at the type
/// arguments `type_args` (whose types are `arg_tys`), with `template` its
/// generic definition, if any. The instance's name is looked up in `table`
/// first, as any lookup, and if found there is nothing to do.
pub fn plan_instantiation<B>(
    table: &mut SymbolTable,
    base_name: &str,
    arg_tys: &[Ty],
    type_args: &[TyId],
    template: Option<&GenericInfo<B>>,
) -> (plan: Result<Instantiation, String>)
    ensures
        ({
            let name = mangled_name(base_name@, ty_views(arg_tys@));
            &&& final(table)@ == get_post(old(table)@, name)
            &&& match plan {
                Ok(Instantiation::Ready(n)) => n@ == name && (get_result(old(table)@, name) is Some
                    || template matches Some(GenericInfo::Function { .. })),
                Ok(Instantiation::Build { name: n, subst, fields }) => {
                    &&& n@ == name
                    &&& get_result(old(table)@, name) is None
                    &&& template matches Some(GenericInfo::Struct { generic_params, fields: template_fields })
                    &&& type_map_entries(subst) == insert_all(zip_params(generic_params@, type_args@))
                    &&& pair_views(fields@) == without_ref_count(type_map_entries(*template_fields))
                },
                Err(e) => e@ == base_name@ + " not a generic struct"@ && get_result(old(table)@, name) is None
                    && template is None,
            }
        }),
{
    let concrete_name = mangle_generic(base_name, arg_tys);
    if table.get(concrete_name.as_str()).is_some() {
        return Ok(Instantiation::Ready(concrete_name));
    }
    match template {
        None => {
            let mut e = base_name.to_owned();
            e.append(" not a generic struct");
            Err(e)
        },
        Some(GenericInfo::Function { .. }) => Ok(Instantiation::Ready(concrete_name)),
        Some(GenericInfo::Struct { generic_params, fields }) => {
            let subst = build_substitution(generic_params, type_args);
            let new_fields = instance_fields(fields);
            Ok(Instantiation::Build { name: concrete_name, subst, fields: new_fields })
        },
    }
}

} // verus!
