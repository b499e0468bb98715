//! The syntax model consumed by the semantic passes: module roots with their
//! imports, exports, forwards, and declarations. The parser collaborator
//! produces values of these types; the passes here only read the names,
//! module strings, and locations they carry.

use vstd::prelude::*;
use crate::diag::FileRange;

verus! {

/// The full enumeration of types of syntax nodes in the language.
pub enum SyntaxType {
    ModuleRoot,
    ImportDeclaration,
    ExportDeclaration,
    ExportForwardDeclaration,
    TypeDeclaration,
    AnonymousTypeDeclaration,
    FunctionDeclaration,
    AnonymousFunctionDeclaration,
    ConstantDeclaration,
    AnonymousConstantDeclaration,
    NamespaceDeclaration,
    AnonymousNamespaceDeclaration,
    BuiltInType,
    StructType,
    TupleType,
    ArrayType,
    FunctionType,
    UnionType,
    IdentifierType,
    ParenthesizedType,
    SpecificType,
    NamespaceAccessType,
    IntegerLiteral,
    FloatLiteral,
    CharLiteral,
    BoolLiteral,
    StringLiteral,
    StructLiteral,
    TupleLiteral,
    ArrayLiteral,
    IdentifierExpression,
    ParenthesizedExpression,
    VarDeclaration,
    UnaryExpression,
    BinaryExpression,
    FunctionApplication,
    ArrayAccess,
    FieldAccess,
    IfElseExpression,
    LambdaExpression,
    Block,
    ExpressionStatement,
    ForStatement,
    WhileStatement,
    DoWhileStatement,
    TryCatchStatement,
    ReturnStatement,
    ThrowStatement,
    BreakStatement,
    ContinueStatement,
    TypeParam,
    Param,
}

/// A name or symbol as written in the source: its text and its location.
#[derive(Debug, PartialEq)]
pub struct Token {
    pub image: String,
    pub location: FileRange,
}

impl Token {
    /// An identical copy of this token.
    pub fn duplicate(&self) -> (r: Token)
        ensures
            r == *self,
    {
        Token { image: self.image.clone(), location: self.location.duplicate() }
    }
}

/// One imported name: the name as exported by the target module (`*` for a
/// whole-namespace import, `default` for a default import) and the local
/// alias it is bound to.
pub struct Import {
    pub import_name: Token,
    pub alias_name: Token,
}

/// `import from "module": { ... }` — the module string as written and the
/// list of imported names.
pub struct ImportDeclaration {
    pub location: FileRange,
    pub module_name: Token,
    pub imports: Vec<Import>,
}

/// A named type declaration.
pub struct TypeDeclaration {
    pub location: FileRange,
    pub name: Token,
}

/// A named function declaration.
pub struct FunctionDeclaration {
    pub location: FileRange,
    pub name: Token,
}

/// A named constant declaration.
pub struct ConstantDeclaration {
    pub location: FileRange,
    pub name: Token,
}

/// A named `namespace { ... }` declaration; its body holds the same kinds of
/// items a module root does.
pub struct NamespaceDeclaration {
    pub location: FileRange,
    pub name: Token,
    pub imports: Vec<ImportDeclaration>,
    pub items: Vec<NonImport>,
}

/// A named top-level declaration.
pub enum Declaration {
    Type(TypeDeclaration),
    Function(FunctionDeclaration),
    Constant(ConstantDeclaration),
    Namespace(NamespaceDeclaration),
}

/// A declaration without a name of its own; it can only occur as the value of
/// an export, which names it.
pub enum AnonymousDeclaration {
    Type { location: FileRange },
    Function { location: FileRange },
    Constant { location: FileRange },
    Namespace { location: FileRange, imports: Vec<ImportDeclaration>, items: Vec<NonImport> },
}

/// What one export entry exports: a declaration written in place (named or
/// anonymous), or an already-declared local name.
pub enum ExportValue {
    Decl(Declaration),
    Anon(AnonymousDeclaration),
    Name(Token),
}

/// One exported name and its value.
pub struct ExportEntry {
    pub export_name: Token,
    pub value: ExportValue,
}

/// `export ...` — a list of exported names with their values.
pub struct ExportDeclaration {
    pub location: FileRange,
    pub exports: Vec<ExportEntry>,
}

/// One forwarded name: the name this module exports it as (`*` for a pure
/// wildcard forward) and the name in the target module (`*` for a wildcard).
pub struct Forward {
    pub export_name: Token,
    pub import_name: Token,
}

/// `export from "module": { ... }` — a re-export of another module's exports.
pub struct ExportForwardDeclaration {
    pub location: FileRange,
    pub module_name: Token,
    pub forwards: Vec<Forward>,
}

/// Any top-level item other than an import.
pub enum NonImport {
    Decl(Declaration),
    Export(ExportDeclaration),
    Forward(ExportForwardDeclaration),
}

/// The root of one parsed module: its imports followed by every other
/// top-level item, in source order.
pub struct ModuleRoot {
    pub location: FileRange,
    pub imports: Vec<ImportDeclaration>,
    pub items: Vec<NonImport>,
}

} // verus!
