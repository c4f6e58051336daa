//! The data that the analysis reads and produces: functions, throw sites,
//! declarations, call sites, try/catch regions, type relations and the
//! findings. Each type has a mathematical view over `Seq<char>` strings.
use crate::text::{chars_of, push_all, push_all_str, str_to_string, string_chars, string_eq, string_of};
use vstd::prelude::*;

verus! {

broadcast use {vstd::string::group_string_axioms, crate::char_vec::lemma_char_vec_deep_view};

/// A byte range in a source file.
#[derive(Debug, Clone, Copy, PartialEq, Eq, Hash, Structural)]
pub struct Span {
    pub start: u32,
    pub end: u32,
}

impl View for Span {
    type V = Span;

    open spec fn view(&self) -> Span {
        *self
    }
}

impl DeepView for Span {
    type V = Span;

    open spec fn deep_view(&self) -> Span {
        *self
    }
}

/// Whether two spans are the same.
pub fn span_eq(a: Span, b: Span) -> (r: bool)
    ensures
        r == (a == b),
{
    a.start == b.start && a.end == b.end
}

/// Identity of a function: its file, its name and its byte range.
#[derive(Debug, PartialEq, Eq, Hash)]
pub struct FunctionId {
    pub file_path: String,
    pub name: String,
    pub span: Span,
}

pub struct FunctionIdView {
    pub file_path: Seq<char>,
    pub name: Seq<char>,
    pub span: Span,
}

impl DeepView for FunctionId {
    type V = FunctionIdView;

    open spec fn deep_view(&self) -> FunctionIdView {
        FunctionIdView { file_path: self.file_path@, name: self.name@, span: self.span }
    }
}

impl View for FunctionId {
    type V = FunctionIdView;

    open spec fn view(&self) -> FunctionIdView {
        self.deep_view()
    }
}

impl Clone for FunctionId {
    fn clone(&self) -> (r: Self)
        ensures
            r == *self,
    {
        FunctionId { file_path: self.file_path.clone(), name: self.name.clone(), span: self.span }
    }
}

/// Decimal digits of `n`, most significant first.
pub open spec fn decimal(n: nat) -> Seq<char>
    decreases n,
{
    if n < 10 {
        seq![digit_char(n)]
    } else {
        decimal(n / 10).push(digit_char(n % 10))
    }
}

pub open spec fn digit_char(d: nat) -> char {
    if d == 0 {
        '0'
    } else if d == 1 {
        '1'
    } else if d == 2 {
        '2'
    } else if d == 3 {
        '3'
    } else if d == 4 {
        '4'
    } else if d == 5 {
        '5'
    } else if d == 6 {
        '6'
    } else if d == 7 {
        '7'
    } else if d == 8 {
        '8'
    } else {
        '9'
    }
}

fn digit(d: u64) -> (c: char)
    requires
        d < 10,
    ensures
        c == digit_char(d as nat),
{
    if d == 0 {
        '0'
    } else if d == 1 {
        '1'
    } else if d == 2 {
        '2'
    } else if d == 3 {
        '3'
    } else if d == 4 {
        '4'
    } else if d == 5 {
        '5'
    } else if d == 6 {
        '6'
    } else if d == 7 {
        '7'
    } else if d == 8 {
        '8'
    } else {
        '9'
    }
}

/// Decimal rendering of a number, as `format!("{n}")` writes it.
pub fn decimal_chars(n: u64) -> (r: Vec<char>)
    ensures
        r@ == decimal(n as nat),
    decreases n,
{
    if n < 10 {
        let mut v = Vec::new();
        v.push(digit(n));
        assert(v@ =~= seq![digit_char(n as nat)]);
        v
    } else {
        let mut v = decimal_chars(n / 10);
        v.push(digit(n % 10));
        v
    }
}

pub open spec fn anonymous_name(line: nat) -> Seq<char> {
    "anonymous_L"@ + decimal(line)
}

impl FunctionId {
    /// The function `name` of `file_path` at `span`.
    pub fn new(file_path: &str, name: &str, span: Span) -> (r: Self)
        ensures
            r@ == (FunctionIdView { file_path: file_path@, name: name@, span }),
    {
        FunctionId { file_path: str_to_string(file_path), name: str_to_string(name), span }
    }

    /// An unnamed function, named after the line it starts on.
    pub fn anonymous(file_path: &str, line: u32, span: Span) -> (r: Self)
        ensures
            r@ == (FunctionIdView {
                file_path: file_path@,
                name: anonymous_name(line as nat),
                span,
            }),
    {
        let mut name = chars_of("anonymous_L");
        let digits = decimal_chars(line as u64);
        push_all(&mut name, &digits);
        FunctionId { file_path: str_to_string(file_path), name: string_of(&name), span }
    }

    /// `file:name`, as the function is shown to users.
    pub fn display(&self) -> (r: String)
        ensures
            r@ == self.file_path@ + ":"@ + self.name@,
    {
        let mut v = string_chars(&self.file_path);
        push_all_str(&mut v, ":");
        let n = string_chars(&self.name);
        push_all(&mut v, &n);
        string_of(&v)
    }

    /// Whether the two are the same.
    pub fn same(&self, other: &Self) -> (r: bool)
        ensures
            r == (self@ == other@),
    {
        string_eq(&self.file_path, &other.file_path) && string_eq(&self.name, &other.name)
            && span_eq(self.span, other.span)
    }
}

/// What a throw statement throws.
#[derive(Debug, PartialEq, Eq, Hash)]
pub enum ErrorType {
    /// An error of a named type, such as `throw new ValidationError()`.
    Named(String),
    /// A catch parameter thrown again, such as `throw e` inside `catch (e)`.
    Rethrow(String),
    /// A throw whose type could not be determined.
    Unknown,
}

pub enum ErrorTypeView {
    Named(Seq<char>),
    Rethrow(Seq<char>),
    Unknown,
}

impl DeepView for ErrorType {
    type V = ErrorTypeView;

    open spec fn deep_view(&self) -> ErrorTypeView {
        match self {
            ErrorType::Named(s) => ErrorTypeView::Named(s@),
            ErrorType::Rethrow(s) => ErrorTypeView::Rethrow(s@),
            ErrorType::Unknown => ErrorTypeView::Unknown,
        }
    }
}

impl View for ErrorType {
    type V = ErrorTypeView;

    open spec fn view(&self) -> ErrorTypeView {
        self.deep_view()
    }
}

impl Clone for ErrorType {
    fn clone(&self) -> (r: Self)
        ensures
            r == *self,
    {
        match self {
            ErrorType::Named(s) => ErrorType::Named(s.clone()),
            ErrorType::Rethrow(s) => ErrorType::Rethrow(s.clone()),
            ErrorType::Unknown => ErrorType::Unknown,
        }
    }
}

impl ErrorTypeView {
    pub open spec fn named_type(self) -> Option<Seq<char>> {
        match self {
            ErrorTypeView::Named(n) => Some(n),
            _ => None,
        }
    }
}

impl ErrorType {
    /// The type name of a named error; `None` for a rethrow or an unknown type.
    pub fn named_type(&self) -> (r: Option<&str>)
        ensures
            match r {
                Some(s) => self@.named_type() == Some(s@),
                None => self@.named_type() is None,
            },
    {
        match self {
            ErrorType::Named(name) => Some(name.as_str()),
            ErrorType::Rethrow(_) | ErrorType::Unknown => None,
        }
    }

    /// Whether the throw passes on a caught error.
    pub fn is_rethrow(&self) -> (r: bool)
        ensures
            r == (self@ is Rethrow),
    {
        match self {
            ErrorType::Rethrow(_) => true,
            _ => false,
        }
    }

    /// Whether the two are the same.
    pub fn same(&self, other: &Self) -> (r: bool)
        ensures
            r == (self@ == other@),
    {
        match (self, other) {
            (ErrorType::Named(a), ErrorType::Named(b)) => string_eq(a, b),
            (ErrorType::Rethrow(a), ErrorType::Rethrow(b)) => string_eq(a, b),
            (ErrorType::Unknown, ErrorType::Unknown) => true,
            _ => false,
        }
    }
}

/// A `throw` statement: where it stands and what it throws.
#[derive(Debug, PartialEq, Eq)]
pub struct ThrowSite {
    pub location: Span,
    pub error_type: ErrorType,
}

pub struct ThrowSiteView {
    pub location: Span,
    pub error_type: ErrorTypeView,
}

impl DeepView for ThrowSite {
    type V = ThrowSiteView;

    open spec fn deep_view(&self) -> ThrowSiteView {
        ThrowSiteView { location: self.location, error_type: self.error_type@ }
    }
}

impl View for ThrowSite {
    type V = ThrowSiteView;

    open spec fn view(&self) -> ThrowSiteView {
        self.deep_view()
    }
}

impl Clone for ThrowSite {
    fn clone(&self) -> (r: Self)
        ensures
            r == *self,
    {
        ThrowSite { location: self.location, error_type: self.error_type.clone() }
    }
}

/// A `@throws` declaration of a documentation comment.
#[derive(Debug, PartialEq, Eq)]
pub struct DeclaredThrow {
    pub error_type: String,
    pub description: Option<String>,
    pub span: Span,
}

pub struct DeclaredThrowView {
    pub error_type: Seq<char>,
    pub description: Option<Seq<char>>,
    pub span: Span,
}

impl DeepView for DeclaredThrow {
    type V = DeclaredThrowView;

    open spec fn deep_view(&self) -> DeclaredThrowView {
        DeclaredThrowView {
            error_type: self.error_type@,
            description: self.description.deep_view(),
            span: self.span,
        }
    }
}

impl View for DeclaredThrow {
    type V = DeclaredThrowView;

    open spec fn view(&self) -> DeclaredThrowView {
        self.deep_view()
    }
}

impl Clone for DeclaredThrow {
    fn clone(&self) -> (r: Self)
        ensures
            r == *self,
    {
        let description = match &self.description {
            Some(d) => Some(d.clone()),
            None => None,
        };
        DeclaredThrow { error_type: self.error_type.clone(), description, span: self.span }
    }
}

/// A call expression inside a function body.
#[derive(Debug, PartialEq, Eq)]
pub struct CallSite {
    pub callee_name: String,
    pub callee_span: Span,
    pub location: Span,
}

pub struct CallSiteView {
    pub callee_name: Seq<char>,
    pub callee_span: Span,
    pub location: Span,
}

impl DeepView for CallSite {
    type V = CallSiteView;

    open spec fn deep_view(&self) -> CallSiteView {
        CallSiteView {
            callee_name: self.callee_name@,
            callee_span: self.callee_span,
            location: self.location,
        }
    }
}

impl View for CallSite {
    type V = CallSiteView;

    open spec fn view(&self) -> CallSiteView {
        self.deep_view()
    }
}

impl Clone for CallSite {
    fn clone(&self) -> (r: Self)
        ensures
            r == *self,
    {
        CallSite {
            callee_name: self.callee_name.clone(),
            callee_span: self.callee_span,
            location: self.location,
        }
    }
}

/// A `try` block, its `catch` clause and the types that the clause handles
/// through `instanceof` checks.
#[derive(Debug, PartialEq, Eq)]
pub struct TryCatchBlock {
    pub try_span: Span,
    pub catch_span: Option<Span>,
    pub caught_types: Vec<String>,
}

pub struct TryCatchBlockView {
    pub try_span: Span,
    pub catch_span: Option<Span>,
    pub caught_types: Seq<Seq<char>>,
}

impl DeepView for TryCatchBlock {
    type V = TryCatchBlockView;

    open spec fn deep_view(&self) -> TryCatchBlockView {
        TryCatchBlockView {
            try_span: self.try_span,
            catch_span: self.catch_span,
            caught_types: self.caught_types.deep_view(),
        }
    }
}

impl View for TryCatchBlock {
    type V = TryCatchBlockView;

    open spec fn view(&self) -> TryCatchBlockView {
        self.deep_view()
    }
}

impl Clone for TryCatchBlock {
    fn clone(&self) -> (r: Self)
        ensures
            r@ == self@,
    {
        let caught_types = self.caught_types.clone();
        assert(caught_types.deep_view() =~= self.caught_types.deep_view());
        TryCatchBlock { try_span: self.try_span, catch_span: self.catch_span, caught_types }
    }
}

impl TryCatchBlockView {
    /// The offset lies in the `try` block.
    pub open spec fn covers(self, offset: u32) -> bool {
        self.try_span.start <= offset < self.try_span.end
    }
}

impl TryCatchBlock {
    /// Whether the block covers `offset`.
    pub fn contains(&self, offset: u32) -> (r: bool)
        ensures
            r == self@.covers(offset),
    {
        offset >= self.try_span.start && offset < self.try_span.end
    }
}

/// What the analysis knows of one function.
#[derive(Debug, PartialEq, Eq)]
pub struct FunctionSignature {
    pub id: FunctionId,
    pub name_span: Span,
    pub declared_throws: Vec<DeclaredThrow>,
    pub direct_throws: Vec<ThrowSite>,
    pub calls: Vec<CallSite>,
    pub try_catch_blocks: Vec<TryCatchBlock>,
    pub is_async: bool,
    pub class_name: Option<String>,
}

pub struct FunctionSignatureView {
    pub id: FunctionIdView,
    pub name_span: Span,
    pub declared_throws: Seq<DeclaredThrowView>,
    pub direct_throws: Seq<ThrowSiteView>,
    pub calls: Seq<CallSiteView>,
    pub try_catch_blocks: Seq<TryCatchBlockView>,
    pub is_async: bool,
    pub class_name: Option<Seq<char>>,
}

impl DeepView for FunctionSignature {
    type V = FunctionSignatureView;

    open spec fn deep_view(&self) -> FunctionSignatureView {
        FunctionSignatureView {
            id: self.id@,
            name_span: self.name_span,
            declared_throws: self.declared_throws.deep_view(),
            direct_throws: self.direct_throws.deep_view(),
            calls: self.calls.deep_view(),
            try_catch_blocks: self.try_catch_blocks.deep_view(),
            is_async: self.is_async,
            class_name: self.class_name.deep_view(),
        }
    }
}

impl View for FunctionSignature {
    type V = FunctionSignatureView;

    open spec fn view(&self) -> FunctionSignatureView {
        self.deep_view()
    }
}

impl Clone for FunctionSignature {
    fn clone(&self) -> (r: Self)
        ensures
            r@ == self@,
    {
        let declared_throws = self.declared_throws.clone();
        assert(declared_throws.deep_view() =~= self.declared_throws.deep_view());
        let direct_throws = self.direct_throws.clone();
        assert(direct_throws.deep_view() =~= self.direct_throws.deep_view());
        let calls = self.calls.clone();
        assert(calls.deep_view() =~= self.calls.deep_view());
        let try_catch_blocks = self.try_catch_blocks.clone();
        assert(try_catch_blocks.deep_view() =~= self.try_catch_blocks.deep_view());
        let class_name = match &self.class_name {
            Some(c) => Some(c.clone()),
            None => None,
        };
        FunctionSignature {
            id: self.id.clone(),
            name_span: self.name_span,
            declared_throws,
            direct_throws,
            calls,
            try_catch_blocks,
            is_async: self.is_async,
            class_name,
        }
    }
}

/// A throw that escapes a function: what is thrown, where, by which
/// function, and the chain of calls from the function that lets it escape
/// down to (not including) the function that throws.
#[derive(Debug, PartialEq, Eq)]
pub struct PropagatedThrow {
    pub error_type: ErrorType,
    pub origin: ThrowSite,
    pub origin_function: FunctionId,
    pub path: Vec<FunctionId>,
}

pub struct PropagatedThrowView {
    pub error_type: ErrorTypeView,
    pub origin: ThrowSiteView,
    pub origin_function: FunctionIdView,
    pub path: Seq<FunctionIdView>,
}

impl DeepView for PropagatedThrow {
    type V = PropagatedThrowView;

    open spec fn deep_view(&self) -> PropagatedThrowView {
        PropagatedThrowView {
            error_type: self.error_type@,
            origin: self.origin@,
            origin_function: self.origin_function@,
            path: self.path.deep_view(),
        }
    }
}

impl View for PropagatedThrow {
    type V = PropagatedThrowView;

    open spec fn view(&self) -> PropagatedThrowView {
        self.deep_view()
    }
}

/// A copy of a list of functions.
pub fn clone_ids(v: &Vec<FunctionId>) -> (r: Vec<FunctionId>)
    ensures
        r.deep_view() == v.deep_view(),
{
    let r = v.clone();
    assert(r.deep_view() =~= v.deep_view());
    r
}

impl Clone for PropagatedThrow {
    fn clone(&self) -> (r: Self)
        ensures
            r@ == self@,
    {
        PropagatedThrow {
            error_type: self.error_type.clone(),
            origin: self.origin.clone(),
            origin_function: self.origin_function.clone(),
            path: clone_ids(&self.path),
        }
    }
}

/// A function whose `@throws` declarations miss some escaping throws.
#[derive(Debug, PartialEq, Eq)]
pub struct Diagnostic {
    pub function: FunctionId,
    pub missing_throws: Vec<PropagatedThrow>,
}

pub struct DiagnosticView {
    pub function: FunctionIdView,
    pub missing_throws: Seq<PropagatedThrowView>,
}

impl DeepView for Diagnostic {
    type V = DiagnosticView;

    open spec fn deep_view(&self) -> DiagnosticView {
        DiagnosticView { function: self.function@, missing_throws: self.missing_throws.deep_view() }
    }
}

impl View for Diagnostic {
    type V = DiagnosticView;

    open spec fn view(&self) -> DiagnosticView {
        self.deep_view()
    }
}

/// A copy of a list of propagated throws.
pub fn clone_propagated(v: &Vec<PropagatedThrow>) -> (r: Vec<PropagatedThrow>)
    ensures
        r.deep_view() == v.deep_view(),
{
    let r = v.clone();
    assert(r.deep_view() =~= v.deep_view());
    r
}

impl Clone for Diagnostic {
    fn clone(&self) -> (r: Self)
        ensures
            r@ == self@,
    {
        Diagnostic {
            function: self.function.clone(),
            missing_throws: clone_propagated(&self.missing_throws),
        }
    }
}

/// Identity of a class or interface.
#[derive(Debug, PartialEq, Eq, Hash)]
pub struct TypeId {
    pub file_path: String,
    pub name: String,
    pub span: Span,
}

pub struct TypeIdView {
    pub file_path: Seq<char>,
    pub name: Seq<char>,
    pub span: Span,
}

impl DeepView for TypeId {
    type V = TypeIdView;

    open spec fn deep_view(&self) -> TypeIdView {
        TypeIdView { file_path: self.file_path@, name: self.name@, span: self.span }
    }
}

impl View for TypeId {
    type V = TypeIdView;

    open spec fn view(&self) -> TypeIdView {
        self.deep_view()
    }
}

impl Clone for TypeId {
    fn clone(&self) -> (r: Self)
        ensures
            r == *self,
    {
        TypeId { file_path: self.file_path.clone(), name: self.name.clone(), span: self.span }
    }
}

impl TypeId {
    /// The type `name` of `file_path` at `span`.
    pub fn new(file_path: &str, name: &str, span: Span) -> (r: Self)
        ensures
            r@ == (TypeIdView { file_path: file_path@, name: name@, span }),
    {
        TypeId { file_path: str_to_string(file_path), name: str_to_string(name), span }
    }

    /// `file:name`, as the type is shown to users.
    pub fn display(&self) -> (r: String)
        ensures
            r@ == self.file_path@ + ":"@ + self.name@,
    {
        let mut v = string_chars(&self.file_path);
        push_all_str(&mut v, ":");
        let n = string_chars(&self.name);
        push_all(&mut v, &n);
        string_of(&v)
    }
}

#[derive(Debug, Clone, Copy, PartialEq, Eq, Structural)]
pub enum RelationKind {
    Implements,
    Extends,
}

/// `child implements parent` or `child extends parent`.
#[derive(Debug, PartialEq, Eq)]
pub struct TypeRelation {
    pub child: TypeId,
    pub parent: TypeId,
    pub kind: RelationKind,
}

pub struct TypeRelationView {
    pub child: TypeIdView,
    pub parent: TypeIdView,
    pub kind: RelationKind,
}

impl DeepView for TypeRelation {
    type V = TypeRelationView;

    open spec fn deep_view(&self) -> TypeRelationView {
        TypeRelationView { child: self.child@, parent: self.parent@, kind: self.kind }
    }
}

impl View for TypeRelation {
    type V = TypeRelationView;

    open spec fn view(&self) -> TypeRelationView {
        self.deep_view()
    }
}

impl Clone for TypeRelation {
    fn clone(&self) -> (r: Self)
        ensures
            r == *self,
    {
        TypeRelation { child: self.child.clone(), parent: self.parent.clone(), kind: self.kind }
    }
}

/// A method of an interface or an abstract method of a class, with the
/// throws its documentation allows.
#[derive(Debug, PartialEq, Eq)]
pub struct MethodSignature {
    pub type_id: TypeId,
    pub method_name: String,
    pub method_span: Span,
    pub declared_throws: Vec<DeclaredThrow>,
    pub is_abstract: bool,
}

pub struct MethodSignatureView {
    pub type_id: TypeIdView,
    pub method_name: Seq<char>,
    pub method_span: Span,
    pub declared_throws: Seq<DeclaredThrowView>,
    pub is_abstract: bool,
}

impl DeepView for MethodSignature {
    type V = MethodSignatureView;

    open spec fn deep_view(&self) -> MethodSignatureView {
        MethodSignatureView {
            type_id: self.type_id@,
            method_name: self.method_name@,
            method_span: self.method_span,
            declared_throws: self.declared_throws.deep_view(),
            is_abstract: self.is_abstract,
        }
    }
}

impl View for MethodSignature {
    type V = MethodSignatureView;

    open spec fn view(&self) -> MethodSignatureView {
        self.deep_view()
    }
}

impl Clone for MethodSignature {
    fn clone(&self) -> (r: Self)
        ensures
            r@ == self@,
    {
        let declared_throws = self.declared_throws.clone();
        assert(declared_throws.deep_view() =~= self.declared_throws.deep_view());
        MethodSignature {
            type_id: self.type_id.clone(),
            method_name: self.method_name.clone(),
            method_span: self.method_span,
            declared_throws,
            is_abstract: self.is_abstract,
        }
    }
}

/// An implementation that throws what the method it implements does not allow.
#[derive(Debug, PartialEq, Eq)]
pub struct LspViolation {
    pub implementation: FunctionId,
    pub parent_method: MethodSignature,
    pub illegal_throws: Vec<ErrorType>,
}

pub struct LspViolationView {
    pub implementation: FunctionIdView,
    pub parent_method: MethodSignatureView,
    pub illegal_throws: Seq<ErrorTypeView>,
}

impl DeepView for LspViolation {
    type V = LspViolationView;

    open spec fn deep_view(&self) -> LspViolationView {
        LspViolationView {
            implementation: self.implementation@,
            parent_method: self.parent_method@,
            illegal_throws: self.illegal_throws.deep_view(),
        }
    }
}

impl View for LspViolation {
    type V = LspViolationView;

    open spec fn view(&self) -> LspViolationView {
        self.deep_view()
    }
}

} // verus!
