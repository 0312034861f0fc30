//! Core data types shared by the whole crate: symbols, source locations,
//! references, imports and per-file metadata.
use vstd::prelude::*;

verus! {

/// A precise position in a source file (1-based lines and columns).
#[derive(Debug, Clone, PartialEq, Eq)]
pub struct SourceLocation {
    /// File path relative to the project root.
    pub file_path: String,
    /// Start line (1-based).
    pub line: u64,
    /// Start column (1-based).
    pub column: u64,
    /// End line (1-based).
    pub end_line: u64,
    /// End column (1-based).
    pub end_column: u64,
}

/// The kind of a symbol; `Unknown` keeps the unrecognised kind name.
#[derive(Debug, Clone, PartialEq, Eq, Hash)]
pub enum SymbolKind {
    Function,
    Method,
    Class,
    Interface,
    Struct,
    Enum,
    Trait,
    TypeAlias,
    Variable,
    Field,
    Parameter,
    Module,
    Macro,
    Unknown(String),
}

/// One symbol of the code base (function, class, variable, ...).
#[derive(Debug, Clone, PartialEq, Eq)]
pub struct Symbol {
    /// Stable, globally unique symbol id.
    pub id: String,
    /// Identifier as written in the source.
    pub name: String,
    /// Symbol kind.
    pub kind: SymbolKind,
    /// Source location.
    pub location: SourceLocation,
    /// Function / method signature.
    pub signature: Option<String>,
    /// Documentation comment.
    pub doc_comment: Option<String>,
    /// Id of the enclosing symbol.
    pub parent_id: Option<String>,
    /// Modifiers (public, static, async, ...).
    pub modifiers: Vec<String>,
    /// Whether the symbol is exported.
    pub is_exported: bool,
    /// Cyclomatic complexity computed by the parser, if any.
    pub complexity: Option<u64>,
}

/// How a call is dispatched.
#[derive(Debug, Clone, Copy, PartialEq, Eq)]
pub enum CallType {
    Direct,
    Virtual,
    Callback,
    MacroExpansion,
    Unknown,
}

/// A call found by a parser, before the callee is resolved.
#[derive(Debug, Clone, PartialEq, Eq)]
pub struct CallSite {
    /// Calling symbol id (empty when the parser could not tell).
    pub caller_id: String,
    /// Name of the called symbol as written.
    pub callee_name: String,
    /// Where the call occurs.
    pub location: SourceLocation,
    /// How the call is dispatched.
    pub call_type: CallType,
}

/// A resolved call: `caller_id` calls `callee_id` at `location`.
#[derive(Debug, Clone, PartialEq, Eq)]
pub struct CallEdge {
    /// Calling symbol id.
    pub caller_id: String,
    /// Called symbol id.
    pub callee_id: String,
    /// Where the call occurs.
    pub location: SourceLocation,
    /// How the call is dispatched.
    pub call_type: CallType,
}

/// How a symbol is referenced.
#[derive(Debug, Clone, Copy, PartialEq, Eq)]
pub enum RefType {
    Read,
    Write,
    ReadWrite,
    TypeAnnotation,
    ParameterPass,
    ReturnValue,
}

/// One symbol referencing another.
#[derive(Debug, Clone, PartialEq, Eq)]
pub struct RefEdge {
    /// Referencing symbol id.
    pub ref_id: String,
    /// Referenced symbol id.
    pub target_id: String,
    /// Where the reference occurs.
    pub location: SourceLocation,
    /// Reference type.
    pub ref_type: RefType,
}

/// The result of resolving an import.
#[derive(Debug, Clone, PartialEq, Eq)]
pub enum ImportResolution {
    /// Resolved to a file or symbol id of the project.
    Resolved(String),
    /// Resolved to an external package.
    External(String),
    /// Could not be resolved.
    Unresolved,
}

/// An import / use statement of a file.
#[derive(Debug, Clone, PartialEq, Eq)]
pub struct Import {
    /// File holding the statement.
    pub file_path: String,
    /// Imported path (e.g. `std::collections::HashMap`).
    pub import_path: String,
    /// Alias (`use Foo as Bar` gives `Bar`).
    pub alias: Option<String>,
    /// Line of the statement.
    pub line: u64,
    /// Resolution result.
    pub resolution: ImportResolution,
}

/// Metadata of an indexed file.
#[derive(Debug, Clone, PartialEq, Eq)]
pub struct FileMeta {
    /// File path relative to the project root.
    pub file_path: String,
    /// Language of the file.
    pub language: String,
    /// blake3 hash of the content.
    pub content_hash: String,
    /// Number of symbols in the file.
    pub symbol_count: u64,
    /// Unix timestamp (seconds) of indexing.
    pub indexed_at: i64,
}

impl SourceLocation {
    /// A copy equal to `self`.
    pub fn duplicate(&self) -> (r: SourceLocation)
        ensures
            r == *self,
    {
        SourceLocation {
            file_path: self.file_path.clone(),
            line: self.line,
            column: self.column,
            end_line: self.end_line,
            end_column: self.end_column,
        }
    }
}

impl CallEdge {
    /// A copy equal to `self`.
    pub fn duplicate(&self) -> (r: CallEdge)
        ensures
            r == *self,
    {
        CallEdge {
            caller_id: self.caller_id.clone(),
            callee_id: self.callee_id.clone(),
            location: self.location.duplicate(),
            call_type: self.call_type,
        }
    }
}

impl SymbolKind {
    /// A copy equal to `self`.
    pub fn duplicate(&self) -> (r: SymbolKind)
        ensures
            r == *self,
    {
        match self {
            SymbolKind::Function => SymbolKind::Function,
            SymbolKind::Method => SymbolKind::Method,
            SymbolKind::Class => SymbolKind::Class,
            SymbolKind::Interface => SymbolKind::Interface,
            SymbolKind::Struct => SymbolKind::Struct,
            SymbolKind::Enum => SymbolKind::Enum,
            SymbolKind::Trait => SymbolKind::Trait,
            SymbolKind::TypeAlias => SymbolKind::TypeAlias,
            SymbolKind::Variable => SymbolKind::Variable,
            SymbolKind::Field => SymbolKind::Field,
            SymbolKind::Parameter => SymbolKind::Parameter,
            SymbolKind::Module => SymbolKind::Module,
            SymbolKind::Macro => SymbolKind::Macro,
            SymbolKind::Unknown(s) => SymbolKind::Unknown(s.clone()),
        }
    }
}

/// A copy of a string that Verus knows to be equal to the original.
pub fn copy_string(s: &String) -> (r: String)
    ensures
        r@ == s@,
{
    s.clone()
}

} // verus!
