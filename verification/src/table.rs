use vstd::prelude::*;

use crate::name_map::NameMap;
use crate::ty::{Ty, TyView};

verus! {

/// Where a symbol was found, relative to the table that resolved it.
#[derive(Debug, Clone, Copy, PartialEq, Eq, Structural)]
pub enum SymbolScope {
    Local,
    Global,
    Free,
}

/// The complete layout of a struct, computed at compile time.
#[derive(Debug, PartialEq, Eq)]
pub struct StructLayout {
    pub name: String,
    /// Field names and types, in layout order.
    pub fields: Vec<(String, Ty)>,
    /// Byte offset of each field.
    pub offsets: Vec<u32>,
    pub size: u32,
    pub align: u32,
}

pub struct LayoutView {
    pub name: Seq<char>,
    pub fields: Seq<(Seq<char>, TyView)>,
    pub offsets: Seq<u32>,
    pub size: u32,
    pub align: u32,
}

impl View for StructLayout {
    type V = LayoutView;

    open spec fn view(&self) -> LayoutView {
        LayoutView {
            name: self.name@,
            fields: self.fields@.map_values(|f: (String, Ty)| (f.0@, f.1@)),
            offsets: self.offsets@,
            size: self.size,
            align: self.align,
        }
    }
}

impl Clone for StructLayout {
    fn clone(&self) -> (layout: Self)
        ensures
            layout@ == self@,
    {
        let mut fields: Vec<(String, Ty)> = Vec::new();
        let mut i: usize = 0;
        while i < self.fields.len()
            invariant
                i <= self.fields@.len(),
                fields@.len() == i,
                forall|j: int|
                    0 <= j < i ==> #[trigger] fields@[j].0@ == self.fields@[j].0@ && fields@[j].1@
                        == self.fields@[j].1@,
            decreases self.fields@.len() - i,
        {
            fields.push((self.fields[i].0.clone(), self.fields[i].1.clone()));
            i = i + 1;
        }
        let mut offsets: Vec<u32> = Vec::new();
        let mut i: usize = 0;
        while i < self.offsets.len()
            invariant
                i <= self.offsets@.len(),
                offsets@ == self.offsets@.take(i as int),
            decreases self.offsets@.len() - i,
        {
            offsets.push(self.offsets[i]);
            i = i + 1;
            assert(offsets@ =~= self.offsets@.take(i as int));
        }
        assert(offsets@ =~= self.offsets@);
        let layout = StructLayout {
            name: self.name.clone(),
            fields,
            offsets,
            size: self.size,
            align: self.align,
        };
        assert(layout@.fields =~= self@.fields);
        layout
    }
}

/// What kind of thing a symbol names (not the front end's type).
#[derive(Debug, PartialEq, Eq)]
pub enum SymbolTy {
    Var,
    Function,
    Struct(StructLayout),
}

pub enum SymbolTyView {
    Var,
    Function,
    Struct(LayoutView),
}

impl View for SymbolTy {
    type V = SymbolTyView;

    open spec fn view(&self) -> SymbolTyView {
        match self {
            SymbolTy::Var => SymbolTyView::Var,
            SymbolTy::Function => SymbolTyView::Function,
            SymbolTy::Struct(layout) => SymbolTyView::Struct(layout@),
        }
    }
}

impl Clone for SymbolTy {
    fn clone(&self) -> (ty: Self)
        ensures
            ty@ == self@,
    {
        match self {
            SymbolTy::Var => SymbolTy::Var,
            SymbolTy::Function => SymbolTy::Function,
            SymbolTy::Struct(layout) => SymbolTy::Struct(layout.clone()),
        }
    }
}

impl SymbolTy {
    /// Only struct values are reference counted.
    pub fn need_gc(&self) -> (b: bool)
        ensures
            b == (self is Struct),
    {
        match self {
            SymbolTy::Struct(_) => true,
            _ => false,
        }
    }
}

#[derive(Debug, PartialEq, Eq)]
pub struct Symbol {
    pub name: String,
    pub scope: SymbolScope,
    /// Index within the table that holds the symbol (for a free symbol: its
    /// position among that table's free symbols).
    pub table_index: usize,
    /// Index of the variable once all nested tables are flattened: taken
    /// from one counter kept by the outermost table, so it is unique across
    /// every scope that table ever encloses.
    pub var_index: usize,
    pub symbol_ty: SymbolTy,
    /// Whether the symbol names a value (variable, function) rather than a type.
    pub is_val: bool,
}

pub struct SymbolView {
    pub name: Seq<char>,
    pub scope: SymbolScope,
    pub table_index: nat,
    pub var_index: nat,
    pub symbol_ty: SymbolTyView,
    pub is_val: bool,
}

impl View for Symbol {
    type V = SymbolView;

    open spec fn view(&self) -> SymbolView {
        SymbolView {
            name: self.name@,
            scope: self.scope,
            table_index: self.table_index as nat,
            var_index: self.var_index as nat,
            symbol_ty: self.symbol_ty@,
            is_val: self.is_val,
        }
    }
}

impl Clone for Symbol {
    fn clone(&self) -> (symbol: Self)
        ensures
            symbol@ == self@,
    {
        Symbol {
            name: self.name.clone(),
            scope: self.scope,
            table_index: self.table_index,
            var_index: self.var_index,
            symbol_ty: self.symbol_ty.clone(),
            is_val: self.is_val,
        }
    }
}

impl Symbol {
    /// A variable symbol.
    pub fn new(
        name: String,
        scope: SymbolScope,
        table_index: usize,
        var_index: usize,
        is_val: bool,
    ) -> (symbol: Self)
        ensures
            symbol@ == (SymbolView {
                name: name@,
                scope,
                table_index: table_index as nat,
                var_index: var_index as nat,
                symbol_ty: SymbolTyView::Var,
                is_val,
            }),
    {
        Symbol { name, scope, table_index, var_index, is_val, symbol_ty: SymbolTy::Var }
    }

    /// A function symbol.
    pub fn create_func(
        name: String,
        scope: SymbolScope,
        table_index: usize,
        var_index: usize,
        is_val: bool,
    ) -> (symbol: Self)
        ensures
            symbol@ == (SymbolView {
                name: name@,
                scope,
                table_index: table_index as nat,
                var_index: var_index as nat,
                symbol_ty: SymbolTyView::Function,
                is_val,
            }),
    {
        Symbol { name, scope, table_index, var_index, is_val, symbol_ty: SymbolTy::Function }
    }

    /// A struct symbol carrying its layout.
    pub fn create_struct(
        name: String,
        scope: SymbolScope,
        table_index: usize,
        var_index: usize,
        is_val: bool,
        struct_layout: StructLayout,
    ) -> (symbol: Self)
        ensures
            symbol@ == (SymbolView {
                name: name@,
                scope,
                table_index: table_index as nat,
                var_index: var_index as nat,
                symbol_ty: SymbolTyView::Struct(struct_layout@),
                is_val,
            }),
    {
        Symbol {
            name,
            scope,
            table_index,
            var_index,
            is_val,
            symbol_ty: SymbolTy::Struct(struct_layout),
        }
    }
}

/// One scope of a symbol table, as a mathematical value.
pub struct Frame {
    pub def_count: nat,
    /// Variable indices handed out so far (used in the outermost scope).
    pub var_count: nat,
    pub map: Map<Seq<char>, SymbolView>,
    pub free: Seq<SymbolView>,
    pub renamed: Map<Seq<char>, Seq<char>>,
}

/// A scope's symbols; `outer` is the enclosing scope, if any.
#[derive(Debug, PartialEq, Eq)]
pub struct SymbolTable {
    pub outer: Option<Box<SymbolTable>>,
    /// How many definitions this scope has made.
    pub def_count: usize,
    /// Variable indices handed out so far, by this scope and every scope
    /// nested in it; only the outermost scope's counter is used.
    pub var_count: usize,
    pub map: NameMap<Symbol>,
    /// Symbols of enclosing (non-global) scopes captured by this one.
    pub free_symbols: Vec<Symbol>,
    pub renamed_symbols: NameMap<String>,
}

/// The scopes, innermost first.
impl View for SymbolTable {
    type V = Seq<Frame>;

    open spec fn view(&self) -> Seq<Frame> {
        self.frames()
    }
}

/// An empty scope.
pub open spec fn empty_frame() -> Frame {
    Frame { def_count: 0, var_count: 0, map: Map::empty(), free: Seq::empty(), renamed: Map::empty() }
}

/// The next variable index: the outermost scope's counter.
pub open spec fn next_var(fs: Seq<Frame>) -> nat {
    fs.last().var_count
}

/// The scopes after the outermost one handed out a variable index.
pub open spec fn counted(fs: Seq<Frame>) -> Seq<Frame> {
    fs.update(fs.len() - 1, Frame { var_count: fs.last().var_count + 1, ..fs.last() })
}

/// The scope answers for `name` itself (directly or through a renaming).
pub open spec fn has_entry(f: Frame, name: Seq<char>) -> bool {
    f.map.contains_key(name) || f.renamed.contains_key(name)
}

/// What a scope that answers for `name` gives for it.
pub open spec fn entry(f: Frame, name: Seq<char>) -> Option<SymbolView> {
    if f.map.contains_key(name) {
        Some(f.map[name])
    } else {
        f.map.get(f.renamed[name])
    }
}

/// The innermost scope that answers for `name`, or -1.
pub open spec fn holder(fs: Seq<Frame>, name: Seq<char>) -> int
    decreases fs.len(),
{
    if fs.len() == 0 {
        -1
    } else if has_entry(fs[0], name) {
        0
    } else {
        let d = holder(fs.drop_first(), name);
        if d < 0 {
            -1
        } else {
            d + 1
        }
    }
}

/// `s` as captured by scope `k`: a free symbol at the end of that scope's free list.
pub open spec fn freed(s: SymbolView, fs: Seq<Frame>, k: int) -> SymbolView {
    SymbolView { scope: SymbolScope::Free, table_index: fs[k].free.len(), ..s }
}

/// The scopes after each scope inside scope `d` captured `s`, found in scope `d`.
pub open spec fn captured(fs: Seq<Frame>, s: SymbolView, d: int) -> Seq<Frame> {
    Seq::new(
        fs.len(),
        |k: int|
            if k < d {
                Frame {
                    free: fs[k].free.push(
                        if k + 1 == d {
                            s
                        } else {
                            freed(s, fs, k + 1)
                        },
                    ),
                    map: fs[k].map.insert(s.name, freed(s, fs, k)),
                    ..fs[k]
                }
            } else {
                fs[k]
            },
    )
}

/// The symbol that a lookup of `name` gives.
pub open spec fn get_result(fs: Seq<Frame>, name: Seq<char>) -> Option<SymbolView> {
    let d = holder(fs, name);
    if d < 0 {
        None
    } else {
        match entry(fs[d], name) {
            None => None,
            Some(s) => if d == 0 || s.scope == SymbolScope::Global {
                Some(s)
            } else {
                Some(freed(s, fs, 0))
            },
        }
    }
}

/// The scopes after a lookup of `name`.
pub open spec fn get_post(fs: Seq<Frame>, name: Seq<char>) -> Seq<Frame> {
    let d = holder(fs, name);
    if d <= 0 {
        fs
    } else {
        match entry(fs[d], name) {
            None => fs,
            Some(s) => if s.scope == SymbolScope::Global {
                fs
            } else {
                captured(fs, s, d)
            },
        }
    }
}

/// The innermost scope whose symbols are `s`, keyed by `name`, plus one definition.
pub open spec fn defined(fs: Seq<Frame>, name: Seq<char>, s: SymbolView) -> Seq<Frame> {
    fs.update(0, Frame { def_count: fs[0].def_count + 1, map: fs[0].map.insert(name, s), ..fs[0] })
}

/// The innermost scope after it captured `outer_symbol`.
pub open spec fn with_free(fs: Seq<Frame>, outer_symbol: SymbolView) -> Seq<Frame> {
    fs.update(
        0,
        Frame {
            free: fs[0].free.push(outer_symbol),
            map: fs[0].map.insert(outer_symbol.name, freed(outer_symbol, fs, 0)),
            ..fs[0]
        },
    )
}

/// Some symbol of the scope has table index `index`.
pub open spec fn frame_has_index(f: Frame, index: nat) -> bool {
    exists|k: Seq<char>| #[trigger] f.map.contains_key(k) && f.map[k].table_index == index
}

/// The innermost scope holding a symbol with table index `index`, or -1.
pub open spec fn index_holder(fs: Seq<Frame>, index: nat) -> int
    decreases fs.len(),
{
    if fs.len() == 0 {
        -1
    } else if frame_has_index(fs[0], index) {
        0
    } else {
        let d = index_holder(fs.drop_first(), index);
        if d < 0 {
            -1
        } else {
            d + 1
        }
    }
}

impl SymbolTable {
    /// This scope alone.
    pub open spec fn frame(&self) -> Frame {
        Frame {
            def_count: self.def_count as nat,
            var_count: self.var_count as nat,
            map: self.map@,
            free: self.free_symbols@.map_values(|s: Symbol| s@),
            renamed: self.renamed_symbols@,
        }
    }

    pub open spec fn frames(&self) -> Seq<Frame>
        decreases self,
    {
        match self.outer {
            Some(o) => seq![self.frame()] + o.frames(),
            None => seq![self.frame()],
        }
    }

    proof fn lemma_frames(&self)
        ensures
            self@.len() >= 1,
            self@[0] == self.frame(),
            self.outer is None ==> self@.len() == 1,
            self.outer matches Some(o) ==> self@.drop_first() == o@,
    {
        if let Some(o) = self.outer {
            assert(self@.drop_first() =~= o@);
        }
    }

    /// A global scope with no symbols.
    pub fn new() -> (table: Self)
        ensures
            table@ == seq![empty_frame()],
    {
        let table = SymbolTable {
            outer: None,
            def_count: 0,
            var_count: 0,
            map: NameMap::new(),
            free_symbols: Vec::new(),
            renamed_symbols: NameMap::new(),
        };
        assert(table.frame().free =~= Seq::<SymbolView>::empty());
        assert(table@ =~= seq![empty_frame()]);
        table
    }

    /// An empty scope nested in `outer`.
    pub fn from_outer(outer: SymbolTable) -> (table: Self)
        ensures
            table@ == seq![empty_frame()] + outer@,
            next_var(table@) == next_var(outer@),
    {
        let table = SymbolTable {
            outer: Some(Box::new(outer)),
            def_count: 0,
            var_count: 0,
            map: NameMap::new(),
            free_symbols: Vec::new(),
            renamed_symbols: NameMap::new(),
        };
        assert(table.frame().free =~= Seq::<SymbolView>::empty());
        assert(table.frame() == empty_frame());
        assert(table@.drop_first() =~= outer@);
        table
    }
}

proof fn lemma_holder_bound(fs: Seq<Frame>, name: Seq<char>)
    ensures
        -1 <= holder(fs, name) < fs.len(),
        holder(fs, name) >= 0 ==> has_entry(fs[holder(fs, name)], name),
    decreases fs.len(),
{
    if fs.len() > 0 && !has_entry(fs[0], name) {
        lemma_holder_bound(fs.drop_first(), name);
    }
}

proof fn lemma_index_holder_bound(fs: Seq<Frame>, index: nat)
    ensures
        -1 <= index_holder(fs, index) < fs.len(),
        index_holder(fs, index) >= 0 ==> frame_has_index(fs[index_holder(fs, index)], index),
    decreases fs.len(),
{
    if fs.len() > 0 && !frame_has_index(fs[0], index) {
        lemma_index_holder_bound(fs.drop_first(), index);
    }
}

/// Capturing through `[f0] + gs` down to scope `d + 1` captures through `gs`
/// down to scope `d`, and adds one capture in `f0`.
proof fn lemma_captured_shift(fs: Seq<Frame>, gs: Seq<Frame>, s: SymbolView, d: int)
    requires
        fs.len() == gs.len() + 1,
        fs.drop_first() == gs,
        0 <= d <= gs.len(),
    ensures
        captured(fs, s, d + 1).drop_first() == (if d == 0 { gs } else { captured(gs, s, d) }),
        captured(fs, s, d + 1)[0] == (Frame {
            free: fs[0].free.push(if d == 0 { s } else { freed(s, gs, 0) }),
            map: fs[0].map.insert(s.name, freed(s, fs, 0)),
            ..fs[0]
        }),
{
    assert forall|k: int| 0 <= k < gs.len() implies fs[k + 1] == gs[k] by {
        assert(gs[k] == fs.drop_first()[k]);
    }
    if gs.len() > 0 {
        assert(fs[1] == gs[0]);
    }
    if d == 0 {
        assert(captured(fs, s, d + 1).drop_first() =~= gs);
    } else {
        assert forall|k: int| 0 <= k < gs.len() implies #[trigger] captured(fs, s, d + 1).drop_first()[k]
            == captured(gs, s, d)[k] by {
            assert(fs[k + 1] == gs[k]);
            if k + 1 < gs.len() {
                assert(fs[k + 2] == gs[k + 1]);
                assert(freed(s, fs, k + 2) == freed(s, gs, k + 1));
            }
            assert(freed(s, fs, k + 1) == freed(s, gs, k));
        }
        assert(captured(fs, s, d + 1).drop_first() =~= captured(gs, s, d));
    }
}

impl SymbolTable {
    /// Replacing this scope's own data keeps the enclosing scopes.
    proof fn lemma_same_outer(&self, other: &SymbolTable)
        requires
            self.outer == other.outer,
        ensures
            other@ == self@.update(0, other.frame()),
    {
        self.lemma_frames();
        other.lemma_frames();
        assert(other@ =~= self@.update(0, other.frame()));
    }

    /// Records `symbol` under `name` in this scope as one more definition.
    fn record(&mut self, name: &str, symbol: Symbol)
        requires
            old(self).def_count < usize::MAX,
        ensures
            final(self)@ == defined(old(self)@, name@, symbol@),
    {
        proof {
            self.lemma_frames();
        }
        let ghost before = *self;
        self.def_count = self.def_count + 1;
        self.map.insert(name.to_owned(), symbol);
        proof {
            before.lemma_same_outer(self);
        }
    }

    /// Hands out the next variable index from the outermost scope's counter.
    fn take_var_index(&mut self) -> (index: usize)
        requires
            next_var(old(self)@) < usize::MAX,
        ensures
            index == next_var(old(self)@),
            final(self)@ == counted(old(self)@),
        decreases old(self)@.len(),
    {
        proof {
            self.lemma_frames();
        }
        if self.outer.is_none() {
            let ghost before = *self;
            let index = self.var_count;
            self.var_count = self.var_count + 1;
            proof {
                before.lemma_same_outer(self);
                assert(self@ =~= counted(before@));
            }
            return index;
        }
        let ghost fs = self@;
        let ghost f0 = self.frame();
        let mut outer = self.outer.take().unwrap();
        proof {
            outer.lemma_frames();
            assert(fs.drop_first() == outer@);
            assert(fs.last() == outer@.last());
        }
        let index = (&mut *outer).take_var_index();
        let ghost hs = outer@;
        self.outer = Some(outer);
        proof {
            self.lemma_frames();
            assert(self.frame() == f0);
            assert(self@ =~= seq![f0] + hs);
            assert(self@ =~= counted(fs));
        }
        index
    }

    /// The scope of a symbol defined here: local inside another scope, global otherwise.
    fn definition_scope(&self) -> (scope: SymbolScope)
        ensures
            scope == (if self@.len() > 1 {
                SymbolScope::Local
            } else {
                SymbolScope::Global
            }),
    {
        proof {
            self.lemma_frames();
        }
        if self.outer.is_some() {
            SymbolScope::Local
        } else {
            SymbolScope::Global
        }
    }

    /// Defines a variable named `name` in this scope.
    pub fn define(&mut self, name: &str) -> (symbol: Symbol)
        requires
            old(self)@[0].def_count < usize::MAX,
            next_var(old(self)@) < usize::MAX,
        ensures
            symbol@ == (SymbolView {
                name: name@,
                scope: if old(self)@.len() > 1 {
                    SymbolScope::Local
                } else {
                    SymbolScope::Global
                },
                table_index: old(self)@[0].def_count,
                var_index: next_var(old(self)@),
                symbol_ty: SymbolTyView::Var,
                is_val: true,
            }),
            final(self)@ == defined(counted(old(self)@), name@, symbol@),
            next_var(final(self)@) == next_var(old(self)@) + 1,
    {
        proof {
            self.lemma_frames();
        }
        let scope = self.definition_scope();
        let var_index = self.take_var_index();
        proof {
            self.lemma_frames();
        }
        let symbol = Symbol::new(name.to_owned(), scope, self.def_count, var_index, true);
        self.record(name, symbol.clone());
        symbol
    }

    /// Defines a function named `name` in this scope.
    pub fn define_func(&mut self, name: &str) -> (symbol: Symbol)
        requires
            old(self)@[0].def_count < usize::MAX,
            next_var(old(self)@) < usize::MAX,
        ensures
            symbol@ == (SymbolView {
                name: name@,
                scope: if old(self)@.len() > 1 {
                    SymbolScope::Local
                } else {
                    SymbolScope::Global
                },
                table_index: old(self)@[0].def_count,
                var_index: next_var(old(self)@),
                symbol_ty: SymbolTyView::Function,
                is_val: true,
            }),
            final(self)@ == defined(counted(old(self)@), name@, symbol@),
            next_var(final(self)@) == next_var(old(self)@) + 1,
    {
        proof {
            self.lemma_frames();
        }
        let scope = self.definition_scope();
        let var_index = self.take_var_index();
        proof {
            self.lemma_frames();
        }
        let symbol = Symbol::create_func(name.to_owned(), scope, self.def_count, var_index, true);
        self.record(name, symbol.clone());
        symbol
    }

    /// Defines a struct value with layout `struct_layout` named `name` in this scope.
    pub fn define_struct(&mut self, name: &str, struct_layout: StructLayout) -> (symbol: Symbol)
        requires
            old(self)@[0].def_count < usize::MAX,
            next_var(old(self)@) < usize::MAX,
        ensures
            symbol@ == (SymbolView {
                name: name@,
                scope: if old(self)@.len() > 1 {
                    SymbolScope::Local
                } else {
                    SymbolScope::Global
                },
                table_index: old(self)@[0].def_count,
                var_index: next_var(old(self)@),
                symbol_ty: SymbolTyView::Struct(struct_layout@),
                is_val: true,
            }),
            final(self)@ == defined(counted(old(self)@), name@, symbol@),
            next_var(final(self)@) == next_var(old(self)@) + 1,
    {
        proof {
            self.lemma_frames();
        }
        let scope = self.definition_scope();
        let var_index = self.take_var_index();
        proof {
            self.lemma_frames();
        }
        let symbol = Symbol::create_struct(
            name.to_owned(),
            scope,
            self.def_count,
            var_index,
            true,
            struct_layout,
        );
        self.record(name, symbol.clone());
        symbol
    }

    /// Defines the struct type (a type, not a value) with layout `struct_layout` named `name` in this scope.
    pub fn define_struct_type(&mut self, name: &str, struct_layout: StructLayout) -> (symbol: Symbol)
        requires
            old(self)@[0].def_count < usize::MAX,
            next_var(old(self)@) < usize::MAX,
        ensures
            symbol@ == (SymbolView {
                name: name@,
                scope: if old(self)@.len() > 1 {
                    SymbolScope::Local
                } else {
                    SymbolScope::Global
                },
                table_index: old(self)@[0].def_count,
                var_index: next_var(old(self)@),
                symbol_ty: SymbolTyView::Struct(struct_layout@),
                is_val: false,
            }),
            final(self)@ == defined(counted(old(self)@), name@, symbol@),
            next_var(final(self)@) == next_var(old(self)@) + 1,
    {
        proof {
            self.lemma_frames();
        }
        let scope = self.definition_scope();
        let var_index = self.take_var_index();
        proof {
            self.lemma_frames();
        }
        let symbol = Symbol::create_struct(
            name.to_owned(),
            scope,
            self.def_count,
            var_index,
            false,
            struct_layout,
        );
        self.record(name, symbol.clone());
        symbol
    }

    /// Captures `outer_symbol`, a symbol of an enclosing scope: it is appended
    /// to this scope's free symbols, and the free copy, whose table index is
    /// its position there, is stored under the symbol's own name.
    pub fn define_free(&mut self, outer_symbol: Symbol) -> (symbol: Symbol)
        ensures
            symbol@ == freed(outer_symbol@, old(self)@, 0),
            final(self)@ == with_free(old(self)@, outer_symbol@),
            next_var(final(self)@) == next_var(old(self)@),
    {
        proof {
            self.lemma_frames();
        }
        let ghost before = *self;
        self.free_symbols.push(outer_symbol.clone());
        let mut symbol = outer_symbol;
        symbol.table_index = self.free_symbols.len() - 1;
        symbol.scope = SymbolScope::Free;
        self.map.insert(symbol.name.clone(), symbol.clone());
        proof {
            assert(self.frame().free =~= before.frame().free.push(outer_symbol@));
            before.lemma_same_outer(self);
        }
        symbol
    }

    /// Records `sym` under `name` in this, the innermost, scope, counting it
    /// as a definition there (it uses up a variable index, as any
    /// definition does); no enclosing scope gains an entry.
    pub fn insert_symbol_in_top(&mut self, name: &str, sym: Symbol)
        requires
            old(self)@[0].def_count < usize::MAX,
            next_var(old(self)@) < usize::MAX,
        ensures
            final(self)@ == defined(counted(old(self)@), name@, sym@),
            next_var(final(self)@) == next_var(old(self)@) + 1,
    {
        proof {
            self.lemma_frames();
        }
        let _used: usize = self.take_var_index();
        proof {
            self.lemma_frames();
        }
        self.record(name, sym);
    }

    /// The variable index the next definition will take.
    pub fn next_var_index(&self) -> (n: usize)
        ensures
            n == next_var(self@),
        decreases self@.len(),
    {
        proof {
            self.lemma_frames();
        }
        match &self.outer {
            Some(outer) => {
                proof {
                    outer.lemma_frames();
                    assert(self@.last() == self@.drop_first().last());
                }
                outer.next_var_index()
            },
            None => self.var_count,
        }
    }

    /// Leaves this scope: the enclosing scope, with everything this scope
    /// captured through it, or `None` for the outermost scope.
    pub fn into_outer(self) -> (outer: Option<SymbolTable>)
        ensures
            match outer {
                Some(o) => o@ == self@.drop_first() && self@.len() > 1,
                None => self@.len() == 1,
            },
    {
        proof {
            self.lemma_frames();
        }
        match self.outer {
            Some(o) => Some(*o),
            None => None,
        }
    }
}

impl SymbolTable {
    /// Looks `name` up, innermost scope first. A scope answers from its own
    /// symbols, or through its renamings (then only from its own symbols).
    /// A symbol found in an enclosing scope that is not global is captured:
    /// every scope between it and this one records a free copy.
    pub fn get(&mut self, name: &str) -> (found: Option<Symbol>)
        ensures
            match found {
                Some(s) => get_result(old(self)@, name@) == Some(s@),
                None => get_result(old(self)@, name@) is None,
            },
            final(self)@ == get_post(old(self)@, name@),
        decreases old(self)@.len(),
    {
        proof {
            self.lemma_frames();
        }
        if let Some(it) = self.map.get(name) {
            return Some(it.clone());
        }
        if let Some(new_name) = self.renamed_symbols.get(name) {
            return match self.map.get(new_name.as_str()) {
                Some(it) => Some(it.clone()),
                None => None,
            };
        }
        if self.outer.is_none() {
            assert(holder(self@.drop_first(), name@) == -1);
            return None;
        }
        let ghost fs = self@;
        let ghost f0 = self.frame();
        let mut outer = self.outer.take().unwrap();
        let ghost gs = outer@;
        proof {
            outer.lemma_frames();
            assert(fs.drop_first() == gs);
            assert(!has_entry(fs[0], name@));
            assert(holder(fs, name@) == if holder(gs, name@) < 0 { -1 } else { holder(gs, name@) + 1 });
            let d = holder(gs, name@);
            lemma_holder_bound(gs, name@);
            if d >= 0 {
                assert(fs[d + 1] == gs[d]);
            }
        }
        let result = (&mut *outer).get(name);
        let ghost hs = outer@;
        self.outer = Some(outer);
        proof {
            self.lemma_frames();
            assert(self.frame() == f0);
            assert(self@ =~= seq![f0] + hs);
        }
        match result {
            None => {
                proof {
                    assert(hs == gs);
                    assert(self@ =~= fs);
                }
                None
            },
            Some(result) => {
                if result.scope == SymbolScope::Global {
                    proof {
                        assert(hs == gs);
                        assert(self@ =~= fs);
                    }
                    return Some(result);
                }
                let ghost mid = self@;
                let freed_symbol = self.define_free(result);
                proof {
                    let d = holder(gs, name@);
                    let s = entry(gs[d], name@).unwrap();
                    assert(mid[0] == f0);
                    assert(mid[0].free.len() == fs[0].free.len());
                    lemma_captured_shift(fs, gs, s, d);
                    assert(mid.drop_first() == hs);
                    let cap = captured(fs, s, d + 1);
                    assert(self@ =~= cap) by {
                        assert(cap.drop_first() == hs);
                        assert forall|k: int| 1 <= k < cap.len() implies #[trigger] self@[k] == cap[k] by {
                            assert(self@[k] == mid[k]);
                            assert(mid[k] == mid.drop_first()[k - 1]);
                            assert(cap[k] == cap.drop_first()[k - 1]);
                        }
                    }
                }
                Some(freed_symbol)
            },
        }
    }

    /// Some symbol with table index `def_index`, from the innermost scope
    /// that has one.
    pub fn find(&self, def_index: usize) -> (found: Option<Symbol>)
        ensures
            match found {
                Some(s) => {
                    let d = index_holder(self@, def_index as nat);
                    &&& d >= 0
                    &&& s@.table_index == def_index
                    &&& self@[d].map.contains_value(s@)
                },
                None => index_holder(self@, def_index as nat) < 0,
            },
        decreases self@.len(),
    {
        proof {
            self.lemma_frames();
            use_type_invariant(&self.map);
        }
        let mut i: usize = 0;
        while i < self.map.len()
            invariant
                self.map.wf(),
                i <= self.map.spec_len(),
                forall|j: int| 0 <= j < i ==> (#[trigger] self.map.value_at(j)).table_index != def_index,
            decreases self.map.spec_len() - i,
        {
            let symbol = self.map.value(i);
            if symbol.table_index == def_index {
                proof {
                    self.map.lemma_entry(i as int);
                    let k = self.map.key_at(i as int);
                    assert(self@[0].map.contains_key(k) && self@[0].map[k] == symbol@);
                    assert(frame_has_index(self@[0], def_index as nat));
                }
                return Some(symbol.clone());
            }
            i = i + 1;
        }
        proof {
            assert forall|k: Seq<char>| #[trigger] self.map@.contains_key(k) implies self.map@[k].table_index
                != def_index by {
                self.map.lemma_key(k);
                let j = choose|j: int|
                    0 <= j < self.map.spec_len() && self.map.key_at(j) == k && self.map.value_at(j)@
                        == self.map@[k];
                assert(self.map.value_at(j).table_index != def_index);
            }
            assert(!frame_has_index(self@[0], def_index as nat));
        }
        match &self.outer {
            Some(outer) => {
                proof {
                    outer.lemma_frames();
                    let d = index_holder(outer@, def_index as nat);
                    lemma_index_holder_bound(outer@, def_index as nat);
                    if d >= 0 {
                        assert(self@[d + 1] == self@.drop_first()[d]);
                    }
                }
                outer.find(def_index)
            },
            None => {
                assert(index_holder(self@.drop_first(), def_index as nat) == -1);
                None
            },
        }
    }
}

/// The innermost scope that answers for `name` (through its own symbols or
/// its renamings) is the one that `holder` names; when none does, `holder`
/// is -1.
pub proof fn lemma_holder_is_innermost(fs: Seq<Frame>, name: Seq<char>, k: int)
    requires
        0 <= k < fs.len(),
        fs[k].map.contains_key(name) || fs[k].renamed.contains_key(name),
        forall|j: int| 0 <= j < k ==> !(#[trigger] fs[j]).map.contains_key(name) && !fs[j].renamed.contains_key(name),
    ensures
        holder(fs, name) == k,
    decreases k,
{
    if k > 0 {
        assert(!has_entry(fs[0], name));
        let gs = fs.drop_first();
        assert forall|j: int| 0 <= j < k - 1 implies !(#[trigger] gs[j]).map.contains_key(name)
            && !gs[j].renamed.contains_key(name) by {
            assert(gs[j] == fs[j + 1]);
        }
        assert(gs[k - 1] == fs[k]);
        lemma_holder_is_innermost(gs, name, k - 1);
    }
}

/// No scope answers for `name`: `holder` is -1.
pub proof fn lemma_holder_none(fs: Seq<Frame>, name: Seq<char>)
    requires
        forall|j: int| 0 <= j < fs.len() ==> !(#[trigger] fs[j]).map.contains_key(name) && !fs[j].renamed.contains_key(name),
    ensures
        holder(fs, name) == -1,
    decreases fs.len(),
{
    if fs.len() > 0 {
        let gs = fs.drop_first();
        assert forall|j: int| 0 <= j < gs.len() implies !(#[trigger] gs[j]).map.contains_key(name)
            && !gs[j].renamed.contains_key(name) by {
            assert(gs[j] == fs[j + 1]);
        }
        lemma_holder_none(gs, name);
    }
}

/// A lookup of `name` that no scope knows finds nothing and changes nothing.
pub proof fn lemma_lookup_unknown(fs: Seq<Frame>, name: Seq<char>)
    requires
        forall|j: int| 0 <= j < fs.len() ==> !(#[trigger] fs[j]).map.contains_key(name) && !fs[j].renamed.contains_key(name),
    ensures
        get_result(fs, name) is None,
        get_post(fs, name) == fs,
{
    lemma_holder_none(fs, name);
}

/// Globals are never captured: when the innermost scope holding `name`,
/// at any depth, holds a global symbol, the lookup gives that symbol as it
/// is and no scope changes.
pub proof fn lemma_lookup_global(fs: Seq<Frame>, name: Seq<char>, k: int)
    requires
        0 <= k < fs.len(),
        fs[k].map.contains_key(name),
        fs[k].map[name].scope == SymbolScope::Global,
        forall|j: int| 0 <= j < k ==> !(#[trigger] fs[j]).map.contains_key(name) && !fs[j].renamed.contains_key(name),
    ensures
        get_result(fs, name) == Some(fs[k].map[name]),
        get_post(fs, name) == fs,
{
    lemma_holder_is_innermost(fs, name, k);
}

/// A lookup of `name` held by scope `k`, with no scope inside it knowing the
/// name: in scope 0, or for a global, the symbol comes back as it is and
/// nothing changes. Otherwise each scope `j` inside scope `k` captures it:
/// it appends to its free symbols the copy of the scope just outside (the
/// symbol itself for the scope next to `k`) and stores under the symbol's
/// name a free copy whose table index is that new free symbol's position;
/// scope 0's copy is the result. Scopes from `k` outward are unchanged,
/// and no scope's counts or renamings change.
pub proof fn lemma_lookup_found(fs: Seq<Frame>, name: Seq<char>, k: int)
    requires
        0 <= k < fs.len(),
        fs[k].map.contains_key(name),
        forall|j: int| 0 <= j < k ==> !(#[trigger] fs[j]).map.contains_key(name) && !fs[j].renamed.contains_key(name),
    ensures
        ({
            let s = fs[k].map[name];
            let post = get_post(fs, name);
            if k == 0 || s.scope == SymbolScope::Global {
                get_result(fs, name) == Some(s) && post == fs
            } else {
                &&& get_result(fs, name) == Some(
                    SymbolView { scope: SymbolScope::Free, table_index: fs[0].free.len(), ..s },
                )
                &&& post.len() == fs.len()
                &&& forall|j: int| k <= j < fs.len() ==> #[trigger] post[j] == fs[j]
                &&& forall|j: int|
                    0 <= j < k ==> {
                        &&& (#[trigger] post[j]).def_count == fs[j].def_count
                        &&& post[j].var_count == fs[j].var_count
                        &&& post[j].renamed == fs[j].renamed
                        &&& post[j].free == fs[j].free.push(
                            if j + 1 == k {
                                s
                            } else {
                                SymbolView {
                                    scope: SymbolScope::Free,
                                    table_index: fs[j + 1].free.len(),
                                    ..s
                                }
                            },
                        )
                        &&& post[j].map == fs[j].map.insert(
                            s.name,
                            SymbolView { scope: SymbolScope::Free, table_index: fs[j].free.len(), ..s },
                        )
                    }
            }
        }),
{
    lemma_holder_is_innermost(fs, name, k);
}

/// The innermost scope holding a symbol with table index `index`, at any
/// depth, is the one `index_holder` names.
pub proof fn lemma_index_holder_is_innermost(fs: Seq<Frame>, index: nat, k: int, key: Seq<char>)
    requires
        0 <= k < fs.len(),
        fs[k].map.contains_key(key),
        fs[k].map[key].table_index == index,
        forall|j: int, other: Seq<char>|
            0 <= j < k && #[trigger] fs[j].map.contains_key(other) ==> fs[j].map[other].table_index != index,
    ensures
        index_holder(fs, index) == k,
    decreases k,
{
    if k == 0 {
        assert(frame_has_index(fs[0], index));
    } else {
        assert(!frame_has_index(fs[0], index));
        let gs = fs.drop_first();
        assert forall|j: int, other: Seq<char>|
            0 <= j < k - 1 && #[trigger] gs[j].map.contains_key(other) implies gs[j].map[other].table_index
            != index by {
            assert(gs[j] == fs[j + 1]);
        }
        assert(gs[k - 1] == fs[k]);
        lemma_index_holder_is_innermost(gs, index, k - 1, key);
    }
}

/// No scope holds a symbol with table index `index`: `index_holder` is -1.
pub proof fn lemma_index_holder_none(fs: Seq<Frame>, index: nat)
    requires
        forall|j: int, other: Seq<char>|
            0 <= j < fs.len() && #[trigger] fs[j].map.contains_key(other) ==> fs[j].map[other].table_index != index,
    ensures
        index_holder(fs, index) == -1,
    decreases fs.len(),
{
    if fs.len() > 0 {
        assert(!frame_has_index(fs[0], index));
        let gs = fs.drop_first();
        assert forall|j: int, other: Seq<char>|
            0 <= j < gs.len() && #[trigger] gs[j].map.contains_key(other) implies gs[j].map[other].table_index
            != index by {
            assert(gs[j] == fs[j + 1]);
        }
        lemma_index_holder_none(gs, index);
    }
}

/// A name just defined in the innermost scope is found there, as defined,
/// and looking it up changes nothing.
pub proof fn lemma_lookup_after_define(fs: Seq<Frame>, name: Seq<char>, s: SymbolView)
    requires
        fs.len() >= 1,
    ensures
        get_result(defined(fs, name, s), name) == Some(s),
        get_post(defined(fs, name, s), name) == defined(fs, name, s),
{
    let gs = defined(fs, name, s);
    assert(has_entry(gs[0], name));
    assert(holder(gs, name) == 0);
}


/// An operation on a chain of scopes, as the table's methods perform it:
/// `Define` for `define`, `define_func`, `define_struct` and
/// `define_struct_type` (with the symbol they return), `Insert` for
/// `insert_symbol_in_top`, `Capture` for `define_free`, `Lookup` for `get`,
/// `Enter` for `from_outer` and `Leave` for `into_outer`.
pub enum TableOp {
    Define(Seq<char>, SymbolView),
    Insert(Seq<char>, SymbolView),
    Capture(SymbolView),
    Lookup(Seq<char>),
    Enter,
    Leave,
}

/// The scopes after `op`, as the `ensures` of the method performing it state.
pub open spec fn step(fs: Seq<Frame>, op: TableOp) -> Seq<Frame> {
    match op {
        TableOp::Define(n, s) => defined(counted(fs), n, s),
        TableOp::Insert(n, s) => defined(counted(fs), n, s),
        TableOp::Capture(s) => with_free(fs, s),
        TableOp::Lookup(n) => get_post(fs, n),
        TableOp::Enter => seq![empty_frame()] + fs,
        TableOp::Leave => if fs.len() > 1 {
            fs.drop_first()
        } else {
            fs
        },
    }
}

/// The scopes after performing `ops` in order.
pub open spec fn run(fs: Seq<Frame>, ops: Seq<TableOp>) -> Seq<Frame>
    decreases ops.len(),
{
    if ops.len() == 0 {
        fs
    } else {
        step(run(fs, ops.drop_last()), ops.last())
    }
}

/// The variable indices that the definitions among `ops` hand out, in order
/// (each definition's symbol gets the counter as it stood before it).
pub open spec fn issued(fs: Seq<Frame>, ops: Seq<TableOp>) -> Seq<nat>
    decreases ops.len(),
{
    if ops.len() == 0 {
        Seq::empty()
    } else if ops.last() is Define {
        issued(fs, ops.drop_last()).push(next_var(run(fs, ops.drop_last())))
    } else {
        issued(fs, ops.drop_last())
    }
}

/// One operation keeps the chain non-empty, and moves the variable counter
/// forward by one for a definition or an insertion, not at all otherwise.
pub proof fn lemma_step_counter(fs: Seq<Frame>, op: TableOp)
    requires
        fs.len() >= 1,
    ensures
        step(fs, op).len() >= 1,
        next_var(step(fs, op)) == next_var(fs) + (if op is Define || op is Insert {
            1nat
        } else {
            0nat
        }),
{
    match op {
        TableOp::Lookup(n) => lemma_lookup_keeps_counts(fs, n),
        TableOp::Enter => {
            assert((seq![empty_frame()] + fs).last() == fs.last());
        },
        TableOp::Leave => {
            if fs.len() > 1 {
                assert(fs.drop_first().last() == fs.last());
            }
        },
        _ => {},
    }
}

/// Variable indices are unique: along any run of operations, the indices
/// that definitions hand out strictly increase, starting from the counter's
/// value and staying below its final value.
pub proof fn lemma_run_var_indices(fs: Seq<Frame>, ops: Seq<TableOp>)
    requires
        fs.len() >= 1,
    ensures
        run(fs, ops).len() >= 1,
        next_var(fs) <= next_var(run(fs, ops)),
        forall|i: int|
            0 <= i < issued(fs, ops).len() ==> next_var(fs) <= #[trigger] issued(fs, ops)[i] < next_var(
                run(fs, ops),
            ),
        forall|i: int, j: int|
            0 <= i < j < issued(fs, ops).len() ==> #[trigger] issued(fs, ops)[i] < #[trigger] issued(
                fs,
                ops,
            )[j],
    decreases ops.len(),
{
    if ops.len() > 0 {
        let prefix = ops.drop_last();
        lemma_run_var_indices(fs, prefix);
        let before = run(fs, prefix);
        lemma_step_counter(before, ops.last());
        let prior = issued(fs, prefix);
        if ops.last() is Define {
            let all = issued(fs, ops);
            assert(all == prior.push(next_var(before)));
            assert forall|i: int, j: int| 0 <= i < j < all.len() implies #[trigger] all[i] < #[trigger] all[j] by {
                if j < prior.len() {
                    assert(all[i] == prior[i] && all[j] == prior[j]);
                } else {
                    assert(all[i] == prior[i]);
                }
            }
            assert forall|i: int| 0 <= i < all.len() implies next_var(fs) <= #[trigger] all[i] < next_var(
                run(fs, ops),
            ) by {
                if i < prior.len() {
                    assert(all[i] == prior[i]);
                }
            }
        }
    }
}

/// Lookups define nothing: the scopes keep their number, their definition
/// counts and the variable counter.
pub proof fn lemma_lookup_keeps_counts(fs: Seq<Frame>, name: Seq<char>)
    requires
        fs.len() >= 1,
    ensures
        get_post(fs, name).len() == fs.len(),
        forall|k: int| 0 <= k < fs.len() ==> #[trigger] get_post(fs, name)[k].def_count == fs[k].def_count,
        next_var(get_post(fs, name)) == next_var(fs),
{
}

/// Looking a name up a second time gives the same symbol and changes
/// nothing more, provided a capturing lookup found a symbol of that very
/// name (a symbol reached through a renaming is captured under its own
/// name, so the next lookup of the other name captures it again).
pub proof fn lemma_lookup_repeat(fs: Seq<Frame>, name: Seq<char>)
    requires
        get_post(fs, name) != fs ==> (get_result(fs, name) matches Some(r) && r.name == name),
    ensures
        get_result(get_post(fs, name), name) == get_result(fs, name),
        get_post(get_post(fs, name), name) == get_post(fs, name),
{
    if get_post(fs, name) != fs {
        let d = holder(fs, name);
        lemma_holder_bound(fs, name);
        let s = entry(fs[d], name).unwrap();
        let post = captured(fs, s, d);
        assert(post[0].map.contains_key(s.name));
        assert(has_entry(post[0], name));
        assert(holder(post, name) == 0);
    }
}

/// After a capturing lookup, each scope's new free symbol is the copy held
/// by the next enclosing scope, and the outermost of them is the symbol
/// itself.
pub proof fn lemma_capture_chain(fs: Seq<Frame>, s: SymbolView, d: int, k: int)
    requires
        0 <= k < d < fs.len(),
    ensures
        captured(fs, s, d)[k].free.last() == (if k + 1 == d {
            s
        } else {
            captured(fs, s, d)[k + 1].map[s.name]
        }),
        captured(fs, s, d)[k].map[s.name] == freed(s, fs, k),
{
}

/// A captured symbol's table index is its position in the capturing
/// scope's free symbols.
pub proof fn lemma_free_symbol_index(fs: Seq<Frame>, outer_symbol: SymbolView)
    requires
        fs.len() >= 1,
    ensures
        with_free(fs, outer_symbol)[0].free[freed(outer_symbol, fs, 0).table_index as int] == outer_symbol,
{
}

/// A symbol just defined is found by its table index, in the innermost scope.
pub proof fn lemma_find_after_define(fs: Seq<Frame>, name: Seq<char>, s: SymbolView)
    requires
        fs.len() >= 1,
    ensures
        index_holder(defined(fs, name, s), s.table_index) == 0,
{
    let gs = defined(fs, name, s);
    assert(gs[0].map.contains_key(name) && gs[0].map[name].table_index == s.table_index);
    assert(frame_has_index(gs[0], s.table_index));
}

} // verus!
