//! The flat record a symbol is stored as in the full-text index, and the
//! conversions both ways: kinds as lower-case names, modifiers joined with
//! `, `, absent texts as empty strings and an absent complexity as zero.
use vstd::prelude::*;

use crate::text::{chars_eq, chars_of, find_chars, find_first, join_strings, join_with, slice_to_vec, string_of, string_views};
use crate::types::{SourceLocation, Symbol, SymbolKind};

verus! {

/// A symbol as the full-text index stores it (the search score aside).
#[derive(Debug, Clone, PartialEq, Eq)]
pub struct SymbolSearchResult {
    /// Stable symbol id.
    pub stable_id: String,
    /// Symbol name.
    pub name: String,
    /// Kind name (see `kind_str`).
    pub kind: String,
    /// Language.
    pub language: String,
    /// File path.
    pub file_path: String,
    /// Signature, empty when absent.
    pub signature: String,
    /// Documentation comment, empty when absent.
    pub doc_comment: String,
    /// Enclosing symbol id, empty when absent.
    pub parent_type: String,
    /// Modifiers joined with `, `.
    pub modifiers: String,
    /// Complexity, zero when absent.
    pub complexity: u64,
    /// Structural hash of the syntax tree (not computed yet: empty).
    pub ast_hash: String,
    /// Whether the symbol is exported.
    pub is_exported: bool,
    /// Start line (1-based).
    pub line: u64,
    /// Start column (1-based).
    pub column: u64,
    /// End line (1-based).
    pub end_line: u64,
    /// End column (1-based).
    pub end_column: u64,
}

/// The stored name of a kind; an unrecognised kind is stored as `unknown`.
pub open spec fn kind_str_of(kind: SymbolKind) -> Seq<char> {
    match kind {
        SymbolKind::Function => "function"@,
        SymbolKind::Method => "method"@,
        SymbolKind::Class => "class"@,
        SymbolKind::Interface => "interface"@,
        SymbolKind::Struct => "struct"@,
        SymbolKind::Enum => "enum"@,
        SymbolKind::Trait => "trait"@,
        SymbolKind::TypeAlias => "type_alias"@,
        SymbolKind::Variable => "variable"@,
        SymbolKind::Field => "field"@,
        SymbolKind::Module => "module"@,
        SymbolKind::Macro => "macro"@,
        SymbolKind::Parameter => "parameter"@,
        SymbolKind::Unknown(_) => "unknown"@,
    }
}

/// The stored name of a kind (see `kind_str_of`).
pub fn kind_str(kind: &SymbolKind) -> (r: &'static str)
    ensures
        r@ == kind_str_of(*kind),
{
    match kind {
        SymbolKind::Function => "function",
        SymbolKind::Method => "method",
        SymbolKind::Class => "class",
        SymbolKind::Interface => "interface",
        SymbolKind::Struct => "struct",
        SymbolKind::Enum => "enum",
        SymbolKind::Trait => "trait",
        SymbolKind::TypeAlias => "type_alias",
        SymbolKind::Variable => "variable",
        SymbolKind::Field => "field",
        SymbolKind::Module => "module",
        SymbolKind::Macro => "macro",
        SymbolKind::Parameter => "parameter",
        SymbolKind::Unknown(_) => "unknown",
    }
}

/// `k` is the kind the stored name `s` stands for: the kind of that name,
/// or, for any other name, an unrecognised kind that keeps it.
pub open spec fn is_kind_named(k: SymbolKind, s: Seq<char>) -> bool {
    if s == "function"@ {
        k is Function
    } else if s == "method"@ {
        k is Method
    } else if s == "class"@ {
        k is Class
    } else if s == "interface"@ {
        k is Interface
    } else if s == "struct"@ {
        k is Struct
    } else if s == "enum"@ {
        k is Enum
    } else if s == "trait"@ {
        k is Trait
    } else if s == "type_alias"@ {
        k is TypeAlias
    } else if s == "variable"@ {
        k is Variable
    } else if s == "field"@ {
        k is Field
    } else if s == "parameter"@ {
        k is Parameter
    } else if s == "module"@ {
        k is Module
    } else if s == "macro"@ {
        k is Macro
    } else {
        k matches SymbolKind::Unknown(u) && u@ == s
    }
}

/// Whether `s` is the text `lit`.
fn same_text(s: &Vec<char>, lit: &str) -> (b: bool)
    ensures
        b == (s@ == lit@),
{
    let l = chars_of(lit);
    chars_eq(s.as_slice(), l.as_slice())
}

/// The kind a stored name stands for (see `is_kind_named`).
pub fn kind_from_str(name: &str) -> (k: SymbolKind)
    ensures
        is_kind_named(k, name@),
{
    let s = chars_of(name);
    if same_text(&s, "function") {
        SymbolKind::Function
    } else if same_text(&s, "method") {
        SymbolKind::Method
    } else if same_text(&s, "class") {
        SymbolKind::Class
    } else if same_text(&s, "interface") {
        SymbolKind::Interface
    } else if same_text(&s, "struct") {
        SymbolKind::Struct
    } else if same_text(&s, "enum") {
        SymbolKind::Enum
    } else if same_text(&s, "trait") {
        SymbolKind::Trait
    } else if same_text(&s, "type_alias") {
        SymbolKind::TypeAlias
    } else if same_text(&s, "variable") {
        SymbolKind::Variable
    } else if same_text(&s, "field") {
        SymbolKind::Field
    } else if same_text(&s, "parameter") {
        SymbolKind::Parameter
    } else if same_text(&s, "module") {
        SymbolKind::Module
    } else if same_text(&s, "macro") {
        SymbolKind::Macro
    } else {
        SymbolKind::Unknown(name.to_string())
    }
}

/// `", "`
pub open spec fn mod_sep() -> Seq<char> {
    seq![',', ' ']
}

/// The pieces of `s` between the separators `, ` (`str::split(", ")`).
pub open spec fn split_mods(s: Seq<char>) -> Seq<Seq<char>>
    decreases s.len(),
{
    match find_first(s, mod_sep()) {
        Some(k) => if 0 <= k && k + 2 <= s.len() {
            seq![s.take(k)] + split_mods(s.skip(k + 2))
        } else {
            seq![s]
        },
        None => seq![s],
    }
}

/// The non-empty pieces, in order.
pub open spec fn non_empty(v: Seq<Seq<char>>) -> Seq<Seq<char>>
    decreases v.len(),
{
    if v.len() == 0 {
        Seq::empty()
    } else {
        let prev = non_empty(v.drop_last());
        if v.last().len() > 0 { prev.push(v.last()) } else { prev }
    }
}

/// The modifiers a stored list gives: the non-empty pieces between `, `.
pub open spec fn modifiers_of(s: Seq<char>) -> Seq<Seq<char>> {
    non_empty(split_mods(s))
}

/// Reads a stored modifier list (see `modifiers_of`).
pub fn split_modifiers(s: &str) -> (r: Vec<String>)
    ensures
        string_views(r@) == modifiers_of(s@),
{
    let c = chars_of(s);
    let sep = vec![',', ' '];
    proof {
        assert(sep@ =~= mod_sep());
    }
    let mut r: Vec<String> = Vec::new();
    let mut pos: usize = 0;
    proof {
        assert(c@.skip(0) =~= c@);
        assert(string_views(r@) =~= Seq::<Seq<char>>::empty());
        assert(non_empty(Seq::<Seq<char>>::empty() + split_mods(c@.skip(0))) =~= modifiers_of(s@));
    }
    let ghost mut done: Seq<Seq<char>> = Seq::empty();
    loop
        invariant
            pos <= c.len(),
            c@ == s@,
            sep@ == mod_sep(),
            string_views(r@) == non_empty(done),
            non_empty(done + split_mods(c@.skip(pos as int))) == modifiers_of(s@),
        decreases c.len() - pos,
    {
        let rest = slice_to_vec(c.as_slice(), pos, c.len());
        proof {
            assert(rest@ =~= c@.skip(pos as int));
        }
        match find_chars(rest.as_slice(), sep.as_slice(), 0) {
            Some(k) => {
                proof {
                    crate::text::lemma_find_from(rest@, sep@, 0);
                }
                let piece = slice_to_vec(rest.as_slice(), 0, k);
                proof {
                    assert(split_mods(rest@) == seq![rest@.take(k as int)] + split_mods(rest@.skip(k + 2)));
                    assert(rest@.skip(k + 2) =~= c@.skip(pos + k + 2));
                    assert(done + split_mods(rest@) =~= done.push(piece@) + split_mods(c@.skip(pos + k + 2)));
                    assert(done.push(piece@).drop_last() =~= done);
                }
                if piece.len() > 0 {
                    let ghost b = string_views(r@);
                    r.push(string_of(piece.as_slice()));
                    proof {
                        assert(string_views(r@) =~= b.push(piece@));
                    }
                }
                proof {
                    done = done.push(piece@);
                }
                pos = pos + k + 2;
            },
            None => {
                proof {
                    assert(split_mods(rest@) == seq![rest@]);
                    assert(done + split_mods(rest@) =~= done.push(rest@));
                    assert(done.push(rest@).drop_last() =~= done);
                }
                if rest.len() > 0 {
                    let ghost b = string_views(r@);
                    r.push(string_of(rest.as_slice()));
                    proof {
                        assert(string_views(r@) =~= b.push(rest@));
                    }
                }
                return r;
            },
        }
    }
}

/// Text, or nothing when it is empty.
pub open spec fn non_empty_text(s: Seq<char>) -> Option<Seq<char>> {
    if s.len() == 0 { None } else { Some(s) }
}

/// An optional text's contents.
pub open spec fn opt_text(o: Option<String>) -> Option<Seq<char>> {
    match o {
        Some(s) => Some(s@),
        None => None,
    }
}

/// `Some(s)` unless `s` is empty.
fn optional_text(s: &String) -> (r: Option<String>)
    ensures
        opt_text(r) == non_empty_text(s@),
{
    let c = chars_of(s.as_str());
    if c.len() == 0 {
        None
    } else {
        Some(s.clone())
    }
}

/// `s` is the symbol a stored record describes: texts and numbers carried
/// over, empty texts read as absent, zero complexity as absent, the kind
/// and modifiers read back from their stored forms.
pub open spec fn symbol_of_record(s: Symbol, r: SymbolSearchResult) -> bool {
    &&& s.id@ == r.stable_id@
    &&& s.name@ == r.name@
    &&& is_kind_named(s.kind, r.kind@)
    &&& s.location.file_path@ == r.file_path@
    &&& s.location.line == r.line
    &&& s.location.column == r.column
    &&& s.location.end_line == r.end_line
    &&& s.location.end_column == r.end_column
    &&& opt_text(s.signature) == non_empty_text(r.signature@)
    &&& opt_text(s.doc_comment) == non_empty_text(r.doc_comment@)
    &&& opt_text(s.parent_id) == non_empty_text(r.parent_type@)
    &&& string_views(s.modifiers@) == modifiers_of(r.modifiers@)
    &&& s.is_exported == r.is_exported
    &&& s.complexity == (if r.complexity > 0 { Some(r.complexity) } else { None })
}

/// Rebuilds a symbol from its stored record (see `symbol_of_record`).
pub fn symbol_search_result_to_symbol(result: &SymbolSearchResult) -> (s: Symbol)
    ensures
        symbol_of_record(s, *result),
{
    Symbol {
        id: result.stable_id.clone(),
        name: result.name.clone(),
        kind: kind_from_str(result.kind.as_str()),
        location: SourceLocation {
            file_path: result.file_path.clone(),
            line: result.line,
            column: result.column,
            end_line: result.end_line,
            end_column: result.end_column,
        },
        signature: optional_text(&result.signature),
        doc_comment: optional_text(&result.doc_comment),
        parent_id: optional_text(&result.parent_type),
        modifiers: split_modifiers(result.modifiers.as_str()),
        is_exported: result.is_exported,
        complexity: if result.complexity > 0 { Some(result.complexity) } else { None },
    }
}

/// An optional text's contents, or the empty text.
pub open spec fn text_or_empty(o: Option<String>) -> Seq<char> {
    match o {
        Some(s) => s@,
        None => Seq::empty(),
    }
}

/// A copy of an optional text, or the empty string.
fn text_or_default(o: &Option<String>) -> (r: String)
    ensures
        r@ == text_or_empty(*o),
{
    match o {
        Some(s) => s.clone(),
        None => String::new(),
    }
}

/// `r` is the record a symbol of `language` is stored as.
pub open spec fn record_of_symbol(r: SymbolSearchResult, s: Symbol, language: Seq<char>) -> bool {
    &&& r.stable_id@ == s.id@
    &&& r.name@ == s.name@
    &&& r.kind@ == kind_str_of(s.kind)
    &&& r.language@ == language
    &&& r.file_path@ == s.location.file_path@
    &&& r.signature@ == text_or_empty(s.signature)
    &&& r.doc_comment@ == text_or_empty(s.doc_comment)
    &&& r.parent_type@ == text_or_empty(s.parent_id)
    &&& r.modifiers@ == join_with(string_views(s.modifiers@), mod_sep())
    &&& r.complexity == (match s.complexity { Some(c) => c, None => 0 })
    &&& r.ast_hash@ == Seq::<char>::empty()
    &&& r.is_exported == s.is_exported
    &&& r.line == s.location.line
    &&& r.column == s.location.column
    &&& r.end_line == s.location.end_line
    &&& r.end_column == s.location.end_column
}

/// The record a symbol of `language` is stored as (see `record_of_symbol`).
pub fn symbol_to_record(symbol: &Symbol, language: &str) -> (r: SymbolSearchResult)
    ensures
        record_of_symbol(r, *symbol, language@),
{
    let mods = join_strings(symbol.modifiers.as_slice(), ", ");
    proof {
        reveal_strlit(", ");
        assert(", "@ =~= mod_sep());
    }
    SymbolSearchResult {
        stable_id: symbol.id.clone(),
        name: symbol.name.clone(),
        kind: kind_str(&symbol.kind).to_string(),
        language: language.to_string(),
        file_path: symbol.location.file_path.clone(),
        signature: text_or_default(&symbol.signature),
        doc_comment: text_or_default(&symbol.doc_comment),
        parent_type: text_or_default(&symbol.parent_id),
        modifiers: mods,
        complexity: match symbol.complexity {
            Some(c) => c,
            None => 0,
        },
        ast_hash: String::new(),
        is_exported: symbol.is_exported,
        line: symbol.location.line,
        column: symbol.location.column,
        end_line: symbol.location.end_line,
        end_column: symbol.location.end_column,
    }
}


/// A modifier that survives storage: not empty, without `, ` inside.
pub open spec fn storable_modifier(m: Seq<char>) -> bool {
    m.len() > 0 && !crate::text::contains_seq(m, mod_sep())
}

/// A join splits into its first piece and the join of the rest.
proof fn lemma_join_front(v: Seq<Seq<char>>, sep: Seq<char>)
    requires
        v.len() >= 2,
    ensures
        join_with(v, sep) == v[0] + sep + join_with(v.drop_first(), sep),
    decreases v.len(),
{
    if v.len() == 2 {
        assert(v.drop_first().len() == 1);
        assert(join_with(v.drop_first(), sep) == v.drop_first()[0]);
        assert(v.drop_last().len() == 1);
        assert(join_with(v.drop_last(), sep) == v[0]);
        assert(join_with(v, sep) =~= v[0] + sep + v[1]);
    } else {
        lemma_join_front(v.drop_last(), sep);
        assert(v.drop_last().drop_first() =~= v.drop_first().drop_last());
        assert(v.drop_first().last() == v.last());
        assert(v.drop_last()[0] == v[0]);
        assert(join_with(v.drop_first(), sep) == join_with(v.drop_first().drop_last(), sep) + sep + v.drop_first().last());
        assert(join_with(v, sep) =~= v[0] + sep + join_with(v.drop_first(), sep));
    }
}

/// No separator starts at `j` inside a storable modifier followed by one.
proof fn lemma_no_sep_at(m: Seq<char>, rest: Seq<char>, j: int)
    requires
        storable_modifier(m),
        0 <= j < m.len(),
    ensures
        !crate::text::occurs_at(m + mod_sep() + rest, mod_sep(), j),
{
    let s = m + mod_sep() + rest;
    if crate::text::occurs_at(s, mod_sep(), j) {
        assert(s.subrange(j, j + 2)[0] == mod_sep()[0]);
        assert(s.subrange(j, j + 2)[1] == mod_sep()[1]);
        assert(s[j] == ',');
        assert(s[j + 1] == ' ');
        if j + 1 < m.len() {
            assert(m[j] == s[j]);
            assert(m[j + 1] == s[j + 1]);
            assert(m.subrange(j, j + 2) =~= mod_sep());
            assert(crate::text::occurs_at(m, mod_sep(), j));
        } else {
            assert(s[j + 1] == mod_sep()[0]);
        }
    }
}

/// No separator starts inside a storable modifier.
proof fn lemma_no_sep_in(m: Seq<char>, rest: Seq<char>)
    requires
        storable_modifier(m),
    ensures
        find_first(m, mod_sep()) is None,
        find_first(m + mod_sep() + rest, mod_sep()) == Some(m.len() as int),
{
    crate::text::lemma_contains_find(m, mod_sep());
    lemma_first_sep(m, rest);
}

/// The first separator after a storable modifier is the one that follows it.
proof fn lemma_first_sep(m: Seq<char>, rest: Seq<char>)
    requires
        storable_modifier(m),
    ensures
        find_first(m + mod_sep() + rest, mod_sep()) == Some(m.len() as int),
{
    let s = m + mod_sep() + rest;
    let n = m.len() as int;
    assert(crate::text::occurs_at(s, mod_sep(), n)) by {
        assert(s.subrange(n, n + 2) =~= mod_sep());
    }
    crate::text::lemma_find_from(s, mod_sep(), 0);
    match find_first(s, mod_sep()) {
        Some(k) => {
            if k < n {
                lemma_no_sep_at(m, rest, k);
            }
        },
        None => {},
    }
}

/// Splitting a join of storable modifiers gives them back.
proof fn lemma_split_join(v: Seq<Seq<char>>)
    requires
        v.len() >= 1,
        forall|i: int| 0 <= i < v.len() ==> storable_modifier(#[trigger] v[i]),
    ensures
        split_mods(join_with(v, mod_sep())) == v,
    decreases v.len(),
{
    if v.len() == 1 {
        lemma_no_sep_in(v[0], Seq::empty());
        assert(join_with(v, mod_sep()) == v[0]);
        assert(seq![v[0]] =~= v);
    } else {
        lemma_join_front(v, mod_sep());
        let rest = join_with(v.drop_first(), mod_sep());
        lemma_no_sep_in(v[0], rest);
        let s = v[0] + mod_sep() + rest;
        assert(s.take(v[0].len() as int) =~= v[0]);
        assert(s.skip(v[0].len() + 2int) =~= rest);
        assert forall|i: int| 0 <= i < v.drop_first().len() implies storable_modifier(#[trigger] v.drop_first()[i]) by {
            assert(v.drop_first()[i] == v[i + 1]);
        }
        lemma_split_join(v.drop_first());
        assert(seq![v[0]] + v.drop_first() =~= v);
    }
}

/// Keeping the non-empty pieces of non-empty pieces keeps them all.
proof fn lemma_non_empty_all(v: Seq<Seq<char>>)
    requires
        forall|i: int| 0 <= i < v.len() ==> (#[trigger] v[i]).len() > 0,
    ensures
        non_empty(v) == v,
    decreases v.len(),
{
    if v.len() > 0 {
        let d = v.drop_last();
        assert forall|i: int| 0 <= i < d.len() implies (#[trigger] d[i]).len() > 0 by {
            assert(d[i] == v[i]);
        }
        lemma_non_empty_all(d);
        assert(d.push(v.last()) =~= v);
    }
}

/// A symbol the stored record keeps whole: a recognised kind, texts absent
/// or non-empty, storable modifiers, complexity absent or positive.
pub open spec fn storable_symbol(s: Symbol) -> bool {
    &&& !(s.kind is Unknown)
    &&& (s.signature matches Some(x) ==> x@.len() > 0)
    &&& (s.doc_comment matches Some(x) ==> x@.len() > 0)
    &&& (s.parent_id matches Some(x) ==> x@.len() > 0)
    &&& forall|i: int| 0 <= i < s.modifiers@.len() ==> storable_modifier(#[trigger] s.modifiers@[i]@)
    &&& (s.complexity matches Some(c) ==> c > 0)
}

/// Storing a symbol and reading the record back gives the symbol again,
/// for every symbol the record can hold whole (see `storable_symbol`).
pub proof fn law_record_round_trip(s: Symbol, language: Seq<char>, r: SymbolSearchResult, back: Symbol)
    requires
        storable_symbol(s),
        record_of_symbol(r, s, language),
        symbol_of_record(back, r),
    ensures
        back.id@ == s.id@,
        back.name@ == s.name@,
        back.kind == s.kind,
        back.location.file_path@ == s.location.file_path@,
        back.location.line == s.location.line,
        back.location.column == s.location.column,
        back.location.end_line == s.location.end_line,
        back.location.end_column == s.location.end_column,
        opt_text(back.signature) == opt_text(s.signature),
        opt_text(back.doc_comment) == opt_text(s.doc_comment),
        opt_text(back.parent_id) == opt_text(s.parent_id),
        string_views(back.modifiers@) == string_views(s.modifiers@),
        back.is_exported == s.is_exported,
        back.complexity == s.complexity,
{
    lemma_kind_round_trip(s.kind, back.kind);
    let mods = string_views(s.modifiers@);
    if mods.len() == 0 {
        assert(join_with(mods, mod_sep()) == Seq::<char>::empty());
        lemma_no_sep_in_empty();
        assert(non_empty(seq![Seq::<char>::empty()]) =~= Seq::<Seq<char>>::empty()) by {
            assert(seq![Seq::<char>::empty()].drop_last() =~= Seq::<Seq<char>>::empty());
            assert(non_empty(Seq::<Seq<char>>::empty()) == Seq::<Seq<char>>::empty());
        }
        assert(mods =~= Seq::<Seq<char>>::empty());
    } else {
        assert forall|i: int| 0 <= i < mods.len() implies storable_modifier(#[trigger] mods[i]) by {
            assert(mods[i] == s.modifiers@[i]@);
        }
        lemma_split_join(mods);
        lemma_non_empty_all(mods);
    }
}

/// The empty text holds no separator.
proof fn lemma_no_sep_in_empty()
    ensures
        split_mods(Seq::<char>::empty()) == seq![Seq::<char>::empty()],
{
    crate::text::lemma_find_from(Seq::<char>::empty(), mod_sep(), 0);
}


/// Reading back the stored name of a recognised kind gives the kind.
proof fn lemma_kind_round_trip(k: SymbolKind, b: SymbolKind)
    requires
        !(k is Unknown),
        is_kind_named(b, kind_str_of(k)),
    ensures
        b == k,
{
    reveal_strlit("function");
    reveal_strlit("method");
    reveal_strlit("class");
    reveal_strlit("interface");
    reveal_strlit("struct");
    reveal_strlit("enum");
    reveal_strlit("trait");
    reveal_strlit("type_alias");
    reveal_strlit("variable");
    reveal_strlit("field");
    reveal_strlit("parameter");
    reveal_strlit("module");
    reveal_strlit("macro");
    match k {
        SymbolKind::Function => {},
        SymbolKind::Method => {
            assert("method"@ != "function"@) by { assert("method"@[0] != "function"@[0]); }
        },
        SymbolKind::Class => {
            assert("class"@ != "function"@) by { assert("class"@[0] != "function"@[0]); }
            assert("class"@ != "method"@) by { assert("class"@[0] != "method"@[0]); }
        },
        SymbolKind::Interface => {
            assert("interface"@.len() != "function"@.len());
            assert("interface"@.len() != "method"@.len());
            assert("interface"@.len() != "class"@.len());
        },
        SymbolKind::Struct => {
            assert("struct"@[0] != "function"@[0]);
            assert("struct"@[0] != "method"@[0]);
            assert("struct"@[0] != "class"@[0]);
            assert("struct"@[0] != "interface"@[0]);
        },
        SymbolKind::Enum => {
            assert("enum"@[0] != "function"@[0]);
            assert("enum"@[0] != "method"@[0]);
            assert("enum"@[0] != "class"@[0]);
            assert("enum"@[0] != "interface"@[0]);
            assert("enum"@[0] != "struct"@[0]);
        },
        SymbolKind::Trait => {
            assert("trait"@[0] != "function"@[0]);
            assert("trait"@[0] != "method"@[0]);
            assert("trait"@[0] != "class"@[0]);
            assert("trait"@[0] != "interface"@[0]);
            assert("trait"@[0] != "struct"@[0]);
            assert("trait"@[0] != "enum"@[0]);
        },
        SymbolKind::TypeAlias => {
            assert("type_alias"@[0] != "function"@[0]);
            assert("type_alias"@[0] != "method"@[0]);
            assert("type_alias"@[0] != "class"@[0]);
            assert("type_alias"@[0] != "interface"@[0]);
            assert("type_alias"@[0] != "struct"@[0]);
            assert("type_alias"@[0] != "enum"@[0]);
            assert("type_alias"@.len() != "trait"@.len());
        },
        SymbolKind::Variable => {
            assert("variable"@[0] != "function"@[0]);
            assert("variable"@[0] != "method"@[0]);
            assert("variable"@[0] != "class"@[0]);
            assert("variable"@[0] != "interface"@[0]);
            assert("variable"@[0] != "struct"@[0]);
            assert("variable"@[0] != "enum"@[0]);
            assert("variable"@[0] != "trait"@[0]);
            assert("variable"@[0] != "type_alias"@[0]);
        },
        SymbolKind::Field => {
            assert("field"@.len() != "function"@.len());
            assert("field"@[0] != "method"@[0]);
            assert("field"@[0] != "class"@[0]);
            assert("field"@[0] != "interface"@[0]);
            assert("field"@[0] != "struct"@[0]);
            assert("field"@[0] != "enum"@[0]);
            assert("field"@[0] != "trait"@[0]);
            assert("field"@[0] != "type_alias"@[0]);
            assert("field"@[0] != "variable"@[0]);
        },
        SymbolKind::Parameter => {
            assert("parameter"@[0] != "function"@[0]);
            assert("parameter"@[0] != "method"@[0]);
            assert("parameter"@[0] != "class"@[0]);
            assert("parameter"@[0] != "interface"@[0]);
            assert("parameter"@[0] != "struct"@[0]);
            assert("parameter"@[0] != "enum"@[0]);
            assert("parameter"@[0] != "trait"@[0]);
            assert("parameter"@[0] != "type_alias"@[0]);
            assert("parameter"@[0] != "variable"@[0]);
            assert("parameter"@[0] != "field"@[0]);
        },
        SymbolKind::Module => {
            assert("module"@[0] != "function"@[0]);
            assert("module"@[1] != "method"@[1]);
            assert("module"@[0] != "class"@[0]);
            assert("module"@[0] != "interface"@[0]);
            assert("module"@[0] != "struct"@[0]);
            assert("module"@[0] != "enum"@[0]);
            assert("module"@[0] != "trait"@[0]);
            assert("module"@[0] != "type_alias"@[0]);
            assert("module"@[0] != "variable"@[0]);
            assert("module"@[0] != "field"@[0]);
            assert("module"@[0] != "parameter"@[0]);
        },
        SymbolKind::Macro => {
            assert("macro"@[0] != "function"@[0]);
            assert("macro"@.len() != "method"@.len());
            assert("macro"@[0] != "class"@[0]);
            assert("macro"@[0] != "interface"@[0]);
            assert("macro"@[0] != "struct"@[0]);
            assert("macro"@[0] != "enum"@[0]);
            assert("macro"@[0] != "trait"@[0]);
            assert("macro"@[0] != "type_alias"@[0]);
            assert("macro"@[0] != "variable"@[0]);
            assert("macro"@[0] != "field"@[0]);
            assert("macro"@[0] != "parameter"@[0]);
            assert("macro"@[1] != "module"@[1]);
        },
        SymbolKind::Unknown(_) => {},
    }
}

} // verus!
