//! What a TypeScript source contributes to the analysis: its functions and
//! methods, their documented and direct throws, calls and try/catch
//! blocks, and the interfaces and classes that relate types.
//!
//! The syntax tree is walked elsewhere; the walk hands the parts it meets
//! to a `FunctionExtractor`, whose state changes are specified here, and
//! the small pieces of syntax that decisions depend on are given as the
//! plain values below.
use crate::jsdoc::{extract_throws_from_jsdoc, jsdoc_throws, ThrowsDeclarationView};
use crate::text::{
    chars_of, ends_with, has_suffix, rfind, rfind_exec, slice_of, string_chars, string_eq, string_of,
    trim_end, trimmed_end, str_to_string,
};
use crate::tsserver::{boundary_from, byte_len};
use crate::catch_clause::{caught_names, extract_instanceof_types, CatchStatement};
use crate::types::{
    CallSite, CallSiteView, DeclaredThrow, DeclaredThrowView, ErrorType, ErrorTypeView, FunctionId,
    FunctionIdView, FunctionSignature, FunctionSignatureView, MethodSignature, MethodSignatureView,
    RelationKind, Span, ThrowSite, ThrowSiteView, TryCatchBlock, TryCatchBlockView, TypeId, TypeIdView,
    TypeRelation, TypeRelationView,
};
use vstd::prelude::*;

verus! {

broadcast use {vstd::string::group_string_axioms, crate::char_vec::lemma_char_vec_deep_view};

// ---------------------------------------------------------------------------
// Documentation comments
// ---------------------------------------------------------------------------
/// The documentation comment that ends right before byte `start` of `s`
/// (blanks aside): from the last `/**` to the closing `*/`. `None` when the
/// text before `start` does not end with `*/`, has no `/**`, or `start` is
/// not a character boundary of `s`.
pub open spec fn preceding_doc(s: Seq<char>, start: int) -> Option<Seq<char>> {
    match boundary_from(s, start, 0) {
        None => None,
        Some(k) => {
            let t = trim_end(s.take(k));
            if !ends_with(t, "*/"@) {
                None
            } else {
                match rfind(t, "/**"@) {
                    Some(c) => Some(t.skip(c)),
                    None => None,
                }
            }
        },
    }
}

/// The documentation comment that ends right before `start`, if any.
pub fn preceding_jsdoc(source: &str, start: u32) -> (r: Option<String>)
    requires
        byte_len(source@) < u32::MAX,
    ensures
        r.deep_view() == preceding_doc(source@, start as int),
{
    let chars = chars_of(source);
    let k = match crate::tsserver::char_at_byte(&chars, start) {
        Some(k) => k,
        None => return None,
    };
    let before = slice_of(&chars, 0, k);
    assert(before@ =~= source@.take(k as int));
    let t = trimmed_end(&before);
    let close = chars_of("*/");
    if !has_suffix(&t, &close) {
        return None;
    }
    let open = chars_of("/**");
    match rfind_exec(&t, &open) {
        Some(c) => {
            proof {
                lemma_rfind_in_range(t@, open@);
            }
            let d = slice_of(&t, c, t.len());
            assert(d@ =~= t@.skip(c as int));
            Some(string_of(&d))
        },
        None => None,
    }
}

proof fn lemma_rfind_in_range(s: Seq<char>, p: Seq<char>)
    ensures
        rfind(s, p) matches Some(i) ==> 0 <= i < s.len(),
{
    lemma_rfind_before_in_range(s, p, s.len() as int);
}

proof fn lemma_rfind_before_in_range(s: Seq<char>, p: Seq<char>, i: int)
    ensures
        crate::text::rfind_before(s, p, i) matches Some(j) ==> 0 <= j < i && i <= s.len(),
    decreases i,
{
    if i > 0 && i <= s.len() && !crate::text::occurs_at(s, p, i - 1) {
        lemma_rfind_before_in_range(s, p, i - 1);
    }
}

/// A declaration of the comment as the analysis records it (documented
/// throws carry no position).
pub open spec fn as_declared(d: ThrowsDeclarationView) -> DeclaredThrowView {
    DeclaredThrowView { error_type: d.error_type, description: d.description, span: Span { start: 0, end: 0 } }
}

/// The throws a documentation comment declares.
pub fn parse_declared_throws(comment: &str) -> (r: Vec<DeclaredThrow>)
    ensures
        r.deep_view() == jsdoc_throws(comment@).map_values(|d: ThrowsDeclarationView| as_declared(d)),
{
    let ds = extract_throws_from_jsdoc(comment);
    let ghost dv = ds.deep_view();
    let mut out: Vec<DeclaredThrow> = Vec::new();
    let mut i: usize = 0;
    assert(out.deep_view() =~= dv.take(0).map_values(|d: ThrowsDeclarationView| as_declared(d)));
    while i < ds.len()
        invariant
            i <= ds.len(),
            dv == ds.deep_view(),
            out.deep_view() == dv.take(i as int).map_values(|d: ThrowsDeclarationView| as_declared(d)),
        decreases ds.len() - i,
    {
        let d = &ds[i];
        let description = match &d.description {
            Some(t) => Some(t.clone()),
            None => None,
        };
        let decl = DeclaredThrow { error_type: d.error_type.clone(), description, span: Span { start: 0, end: 0 } };
        let ghost before = out.deep_view();
        out.push(decl);
        assert(dv[i as int] == d.deep_view());
        assert(out.deep_view() =~= before.push(decl.deep_view()));
        assert(dv.take(i + 1).map_values(|d: ThrowsDeclarationView| as_declared(d)) =~= dv.take(i as int).map_values(
            |d: ThrowsDeclarationView| as_declared(d),
        ).push(as_declared(dv[i as int])));
        i += 1;
    }
    assert(dv.take(ds.len() as int) =~= dv);
    out
}

// ---------------------------------------------------------------------------
// Type annotations
// ---------------------------------------------------------------------------
/// The part of a type annotation that the analysis reads.
pub enum TypeAnnotation {
    /// A reference to a type; its name when the name is a plain identifier.
    Reference(Option<String>),
    /// `A | B | ...`.
    Union(Vec<TypeAnnotation>),
    /// Any other type.
    Other,
}

/// The type names an annotation lists: the name of a reference, the names
/// of a union's members in order, nothing otherwise.
pub open spec fn annotation_names(t: TypeAnnotation) -> Seq<Seq<char>>
    decreases t,
{
    match t {
        TypeAnnotation::Reference(Some(n)) => seq![n@],
        TypeAnnotation::Reference(None) => Seq::empty(),
        TypeAnnotation::Union(ts) => union_names(ts@),
        TypeAnnotation::Other => Seq::empty(),
    }
}

pub open spec fn union_names(ts: Seq<TypeAnnotation>) -> Seq<Seq<char>>
    decreases ts,
{
    if ts.len() == 0 {
        Seq::empty()
    } else {
        union_names(ts.drop_last()) + annotation_names(ts.last())
    }
}

/// The type names an annotation lists: a name, or the names of a union.
pub fn extract_type_names(ts_type: &TypeAnnotation) -> (r: Vec<String>)
    ensures
        r.deep_view() == annotation_names(*ts_type),
    decreases ts_type,
{
    match ts_type {
        TypeAnnotation::Reference(Some(n)) => {
            let mut v: Vec<String> = Vec::new();
            v.push(n.clone());
            assert(v.deep_view() =~= seq![n@]);
            v
        },
        TypeAnnotation::Reference(None) => {
            let v: Vec<String> = Vec::new();
            assert(v.deep_view() =~= Seq::<Seq<char>>::empty());
            v
        },
        TypeAnnotation::Union(ts) => {
            let mut v: Vec<String> = Vec::new();
            let mut i: usize = 0;
            assert(ts@.take(0) =~= Seq::<TypeAnnotation>::empty());
            assert(v.deep_view() =~= union_names(ts@.take(0)));
            while i < ts.len()
                invariant
                    i <= ts.len(),
                    *ts_type == TypeAnnotation::Union(*ts),
                    v.deep_view() == union_names(ts@.take(i as int)),
                decreases ts.len() - i,
            {
                proof {
                    assert((*ts_type)->Union_0 == *ts);
                    assert(decreases_to!(*ts_type => (*ts_type)->Union_0));
                    assert(decreases_to!(*ts => ts@));
                    assert(decreases_to!(ts@ => ts@[i as int]));
                }
                assert(ts@.take(i + 1).drop_last() =~= ts@.take(i as int));
                assert(ts@.take(i + 1).last() == ts@[i as int]);
                let inner = extract_type_names(&ts[i]);
                let ghost before = v.deep_view();
                let mut k: usize = 0;
                while k < inner.len()
                    invariant
                        k <= inner.len(),
                        v.deep_view() == before + inner.deep_view().take(k as int),
                    decreases inner.len() - k,
                {
                    let x = inner[k].clone();
                    let ghost b2 = v.deep_view();
                    v.push(x);
                    assert(v.deep_view() =~= b2.push(x@));
                    assert(inner.deep_view().take(k + 1) =~= inner.deep_view().take(k as int).push(inner[k as int]@));
                    k += 1;
                }
                assert(inner.deep_view().take(inner.len() as int) =~= inner.deep_view());
                i += 1;
            }
            assert(ts@.take(ts.len() as int) =~= ts@);
            v
        },
        TypeAnnotation::Other => {
            let v: Vec<String> = Vec::new();
            assert(v.deep_view() =~= Seq::<Seq<char>>::empty());
            v
        },
    }
}

// ---------------------------------------------------------------------------
// Thrown expressions
// ---------------------------------------------------------------------------
/// The part of a thrown expression that decides its type.
pub enum ThrownExpr {
    /// `new C(...)`; `C` when the constructor is an identifier.
    New(Option<String>),
    /// `f(...)`; `f` when the callee is an identifier.
    Call(Option<String>),
    /// `test ? consequent : alternate`.
    Conditional(Box<ThrownExpr>, Box<ThrownExpr>),
    /// A plain identifier.
    Identifier(String),
    /// Anything else.
    Other,
}

/// The type of what `e` throws: the class of a `new`, a called factory
/// whose name ends in `Error`, the first named branch of a conditional,
/// a catch parameter thrown again; unknown otherwise.
pub open spec fn thrown_type(e: ThrownExpr, catch_params: Seq<Seq<char>>) -> ErrorTypeView
    decreases e,
{
    match e {
        ThrownExpr::New(Some(n)) => ErrorTypeView::Named(n@),
        ThrownExpr::Call(Some(n)) => if ends_with(n@, "Error"@) {
            ErrorTypeView::Named(n@)
        } else {
            ErrorTypeView::Unknown
        },
        ThrownExpr::Conditional(c, a) => {
            let r = thrown_type(*c, catch_params);
            if r is Named {
                r
            } else {
                thrown_type(*a, catch_params)
            }
        },
        ThrownExpr::Identifier(n) => if catch_params.contains(n@) {
            ErrorTypeView::Rethrow(n@)
        } else {
            ErrorTypeView::Unknown
        },
        _ => ErrorTypeView::Unknown,
    }
}

/// `throw new C(...)` throws `C`; a call throws a named type exactly when
/// the function's name ends in `Error`, and then that name; a thrown
/// identifier is a rethrow exactly when it is a catch parameter in scope,
/// else untyped; anything without a name to go by is untyped.
pub proof fn law_simple_throw_types(e: ThrownExpr, catch_params: Seq<Seq<char>>)
    ensures
        e matches ThrownExpr::New(Some(n)) ==> thrown_type(e, catch_params) == ErrorTypeView::Named(n@),
        e matches ThrownExpr::Call(Some(n)) ==> (thrown_type(e, catch_params) is Named <==> ends_with(n@, "Error"@))
            && (thrown_type(e, catch_params) is Named ==> thrown_type(e, catch_params) == ErrorTypeView::Named(n@)),
        e matches ThrownExpr::Identifier(n) ==> thrown_type(e, catch_params) == (if catch_params.contains(n@) {
            ErrorTypeView::Rethrow(n@)
        } else {
            ErrorTypeView::Unknown
        }),
        (e is Other || e == ThrownExpr::New(None) || e == ThrownExpr::Call(None)) ==> thrown_type(e, catch_params) is Unknown,
        !(e is Identifier) && !(e is Conditional) ==> !(thrown_type(e, catch_params) is Rethrow),
{
}

/// A conditional throw has a named type exactly when one of its branches
/// does, and then the consequent's when that one is named.
pub proof fn law_conditional_throw_takes_a_named_branch(c: ThrownExpr, a: ThrownExpr, catch_params: Seq<Seq<char>>)
    ensures
        thrown_type(ThrownExpr::Conditional(Box::new(c), Box::new(a)), catch_params) is Named
            <==> (thrown_type(c, catch_params) is Named || thrown_type(a, catch_params) is Named),
        thrown_type(c, catch_params) is Named
            ==> thrown_type(ThrownExpr::Conditional(Box::new(c), Box::new(a)), catch_params) == thrown_type(c, catch_params),
        !(thrown_type(c, catch_params) is Named) && thrown_type(a, catch_params) is Named
            ==> thrown_type(ThrownExpr::Conditional(Box::new(c), Box::new(a)), catch_params) == thrown_type(a, catch_params),
{
}

fn contains_name(v: &[String], s: &String) -> (r: bool)
    ensures
        r == v.deep_view().contains(s@),
{
    let mut i: usize = 0;
    while i < v.len()
        invariant
            i <= v.len(),
            forall|j: int| 0 <= j < i ==> v.deep_view()[j] != s@,
        decreases v.len() - i,
    {
        if string_eq(&v[i], s) {
            assert(v.deep_view()[i as int] == s@);
            return true;
        }
        i += 1;
    }
    false
}

/// What a `throw` of `expr` throws, given the catch parameters in scope.
pub fn analyze_expression(expr: &ThrownExpr, catch_params: &[String]) -> (r: ErrorType)
    ensures
        r@ == thrown_type(*expr, catch_params.deep_view()),
    decreases expr,
{
    match expr {
        ThrownExpr::New(Some(n)) => ErrorType::Named(n.clone()),
        ThrownExpr::Call(Some(n)) => {
            let c = string_chars(n);
            let suffix = chars_of("Error");
            if has_suffix(&c, &suffix) {
                ErrorType::Named(n.clone())
            } else {
                ErrorType::Unknown
            }
        },
        ThrownExpr::Conditional(c, a) => {
            let consequent = analyze_expression(c, catch_params);
            if let ErrorType::Named(_) = consequent {
                return consequent;
            }
            analyze_expression(a, catch_params)
        },
        ThrownExpr::Identifier(n) => {
            if contains_name(catch_params, n) {
                ErrorType::Rethrow(n.clone())
            } else {
                ErrorType::Unknown
            }
        },
        _ => ErrorType::Unknown,
    }
}

/// The type thrown by a `throw` statement whose argument reads as `parsed`
/// (`None` when the statement could not be read as a throw).
pub fn analyze_parsed_throw(parsed: &Option<ThrownExpr>, catch_params: &[String]) -> (r: ErrorType)
    ensures
        r@ == match parsed {
            Some(e) => thrown_type(*e, catch_params.deep_view()),
            None => ErrorTypeView::Unknown,
        },
{
    match parsed {
        Some(e) => analyze_expression(e, catch_params),
        None => ErrorType::Unknown,
    }
}


// ---------------------------------------------------------------------------
// Interfaces and classes
// ---------------------------------------------------------------------------
/// A method of an interface or an abstract method of a class: its name
/// when the key is a plain identifier, and its span.
pub struct MethodDecl {
    pub name: Option<String>,
    pub span: Span,
}

/// An identifier with its span (an `extends` or `implements` target).
pub struct NamedRef {
    pub name: String,
    pub span: Span,
}

/// An interface declaration: its name and span, its `extends` clauses
/// (`None` for one that is not a plain identifier) and its methods.
pub struct InterfaceDecl {
    pub name: String,
    pub span: Span,
    pub extends: Vec<Option<NamedRef>>,
    pub methods: Vec<MethodDecl>,
}

/// A class: its name (if any) and span, its superclass when that is a plain
/// identifier, its `implements` clauses, whether it is abstract, and its
/// abstract methods.
pub struct ClassDecl {
    pub name: Option<String>,
    pub span: Span,
    pub super_class: Option<NamedRef>,
    pub implements: Vec<Option<NamedRef>>,
    pub is_abstract: bool,
    pub abstract_methods: Vec<MethodDecl>,
}

/// What a source contributes.
pub struct ExtractionResult {
    pub signatures: Vec<FunctionSignature>,
    pub method_signatures: Vec<MethodSignature>,
    pub type_relations: Vec<TypeRelation>,
}

/// The state of a walk over one source file.
pub struct FunctionExtractor {
    source: String,
    file_path: String,
    signatures: Vec<FunctionSignature>,
    method_signatures: Vec<MethodSignature>,
    type_relations: Vec<TypeRelation>,
    scope_stack: Vec<usize>,
    catch_param_stack: Vec<String>,
    variable_types: Vec<(String, Vec<String>)>,
    current_class: Option<TypeId>,
}

pub ghost struct ExtractorView {
    pub source: Seq<char>,
    pub file_path: Seq<char>,
    pub signatures: Seq<FunctionSignatureView>,
    pub method_signatures: Seq<MethodSignatureView>,
    pub type_relations: Seq<TypeRelationView>,
    /// Indices into `signatures` of the enclosing functions, innermost last.
    pub scopes: Seq<usize>,
    pub catch_params: Seq<Seq<char>>,
    /// Annotated variables and the type names of their annotations; a later
    /// entry for a name replaces an earlier one.
    pub variable_types: Seq<(Seq<char>, Seq<Seq<char>>)>,
    pub current_class: Option<TypeIdView>,
}

impl View for FunctionExtractor {
    type V = ExtractorView;

    closed spec fn view(&self) -> ExtractorView {
        ExtractorView {
            source: self.source@,
            file_path: self.file_path@,
            signatures: self.signatures.deep_view(),
            method_signatures: self.method_signatures.deep_view(),
            type_relations: self.type_relations.deep_view(),
            scopes: self.scope_stack@,
            catch_params: self.catch_param_stack.deep_view(),
            variable_types: self.variable_types.deep_view(),
            current_class: match self.current_class {
                Some(t) => Some(t@),
                None => None,
            },
        }
    }
}

impl ExtractorView {
    pub open spec fn wf(self) -> bool {
        &&& byte_len(self.source) < u32::MAX
        &&& forall|i: int| 0 <= i < self.scopes.len() ==> #[trigger] self.scopes[i] < self.signatures.len()
    }

    /// Index of the function the walk is in.
    pub open spec fn current(self) -> Option<usize> {
        if self.scopes.len() == 0 {
            None
        } else {
            Some(self.scopes.last())
        }
    }

    /// The types recorded for variable `n` (the last entry naming it).
    pub open spec fn types_of(self, n: Seq<char>) -> Option<Seq<Seq<char>>> {
        types_in(self.variable_types, n)
    }
}

pub open spec fn types_in(vt: Seq<(Seq<char>, Seq<Seq<char>>)>, n: Seq<char>) -> Option<Seq<Seq<char>>>
    decreases vt.len(),
{
    if vt.len() == 0 {
        None
    } else if vt.last().0 == n {
        Some(vt.last().1)
    } else {
        types_in(vt.drop_last(), n)
    }
}

/// The throws a comment at `offset` of `s` declares (none without one).
pub open spec fn declared_at(s: Seq<char>, offset: int) -> Seq<DeclaredThrowView> {
    match preceding_doc(s, offset) {
        Some(c) => jsdoc_throws(c).map_values(|d: ThrowsDeclarationView| as_declared(d)),
        None => Seq::empty(),
    }
}

/// Named throws at `location`, one per type name.
pub open spec fn typed_throws(location: Span, names: Seq<Seq<char>>) -> Seq<ThrowSiteView> {
    names.map_values(|n: Seq<char>| ThrowSiteView { location, error_type: ErrorTypeView::Named(n) })
}

/// The method signatures of `ms` that have a plain name, declared by the
/// comment before each.
pub open spec fn method_sigs(s: Seq<char>, owner: TypeIdView, ms: Seq<MethodDecl>, is_abstract: bool) -> Seq<MethodSignatureView>
    decreases ms.len(),
{
    if ms.len() == 0 {
        Seq::empty()
    } else {
        let prev = method_sigs(s, owner, ms.drop_last(), is_abstract);
        match ms.last().name {
            Some(n) => prev.push(MethodSignatureView {
                type_id: owner,
                method_name: n@,
                method_span: ms.last().span,
                declared_throws: declared_at(s, ms.last().span.start as int),
                is_abstract,
            }),
            None => prev,
        }
    }
}

/// The relations from `child` to each plain-identifier target of `refs`.
pub open spec fn relations_to(f: Seq<char>, child: TypeIdView, refs: Seq<Option<NamedRef>>, kind: RelationKind) -> Seq<TypeRelationView>
    decreases refs.len(),
{
    if refs.len() == 0 {
        Seq::empty()
    } else {
        let prev = relations_to(f, child, refs.drop_last(), kind);
        match refs.last() {
            Some(r) => prev.push(TypeRelationView {
                child,
                parent: TypeIdView { file_path: f, name: r.name@, span: r.span },
                kind,
            }),
            None => prev,
        }
    }
}

impl FunctionExtractor {
    /// An extraction of `file_path` with nothing recorded yet.
    pub fn new(source: &str, file_path: &str) -> (r: Self)
        requires
            byte_len(source@) < u32::MAX,
        ensures
            r@.wf(),
            r@ == (ExtractorView {
                source: source@,
                file_path: file_path@,
                signatures: Seq::empty(),
                method_signatures: Seq::empty(),
                type_relations: Seq::empty(),
                scopes: Seq::empty(),
                catch_params: Seq::empty(),
                variable_types: Seq::empty(),
                current_class: None,
            }),
    {
        let r = FunctionExtractor {
            source: str_to_string(source),
            file_path: str_to_string(file_path),
            signatures: Vec::new(),
            method_signatures: Vec::new(),
            type_relations: Vec::new(),
            scope_stack: Vec::new(),
            catch_param_stack: Vec::new(),
            variable_types: Vec::new(),
            current_class: None,
        };
        assert(r@.signatures =~= Seq::<FunctionSignatureView>::empty());
        assert(r@.method_signatures =~= Seq::<MethodSignatureView>::empty());
        assert(r@.type_relations =~= Seq::<TypeRelationView>::empty());
        assert(r@.catch_params =~= Seq::<Seq<char>>::empty());
        assert(r@.variable_types =~= Seq::<(Seq<char>, Seq<Seq<char>>)>::empty());
        r
    }

    fn declared_throws_at(&self, offset: u32) -> (r: Vec<DeclaredThrow>)
        requires
            self@.wf(),
        ensures
            r.deep_view() == declared_at(self@.source, offset as int),
    {
        match preceding_jsdoc(self.source.as_str(), offset) {
            Some(c) => parse_declared_throws(c.as_str()),
            None => {
                let v: Vec<DeclaredThrow> = Vec::new();
                assert(v.deep_view() =~= Seq::<DeclaredThrowView>::empty());
                v
            },
        }
    }

    /// Enters a function named `name`: a new signature (declaring what the
    /// comment before byte `comment_at` declares, in the current class if
    /// any) becomes the innermost scope. Returns its index.
    pub fn begin_function(&mut self, name: &str, name_span: Span, func_span: Span, is_async: bool, comment_at: u32) -> (idx: usize)
        requires
            old(self)@.wf(),
        ensures
            final(self)@.wf(),
            idx == old(self)@.signatures.len(),
            final(self)@ == (ExtractorView {
                signatures: old(self)@.signatures.push(FunctionSignatureView {
                    id: FunctionIdView { file_path: old(self)@.file_path, name: name@, span: func_span },
                    name_span,
                    declared_throws: declared_at(old(self)@.source, comment_at as int),
                    direct_throws: Seq::empty(),
                    calls: Seq::empty(),
                    try_catch_blocks: Seq::empty(),
                    is_async,
                    class_name: match old(self)@.current_class {
                        Some(c) => Some(c.name),
                        None => None,
                    },
                }),
                scopes: old(self)@.scopes.push(idx),
                ..old(self)@
            }),
    {
        let ghost v0 = self@;
        let id = FunctionId::new(self.file_path.as_str(), name, func_span);
        let declared_throws = self.declared_throws_at(comment_at);
        let class_name = match &self.current_class {
            Some(c) => Some(c.name.clone()),
            None => None,
        };
        let idx = self.signatures.len();
        let sig = FunctionSignature {
            id,
            name_span,
            declared_throws,
            direct_throws: Vec::new(),
            calls: Vec::new(),
            try_catch_blocks: Vec::new(),
            is_async,
            class_name,
        };
        let ghost sv = sig@;
        self.signatures.push(sig);
        self.scope_stack.push(idx);
        proof {
            assert(sv.direct_throws =~= Seq::<ThrowSiteView>::empty());
            assert(sv.calls =~= Seq::<CallSiteView>::empty());
            assert(sv.try_catch_blocks =~= Seq::<TryCatchBlockView>::empty());
            assert(self@.signatures =~= v0.signatures.push(sv));
            assert forall|i: int| 0 <= i < self@.scopes.len() implies #[trigger] self@.scopes[i] < self@.signatures.len() by {
                if i < v0.scopes.len() {
                    assert(self@.scopes[i] == v0.scopes[i]);
                }
            }
        }
        idx
    }

    /// Leaves the innermost function.
    pub fn end_function(&mut self)
        requires
            old(self)@.wf(),
        ensures
            final(self)@.wf(),
            final(self)@ == (ExtractorView {
                scopes: if old(self)@.scopes.len() > 0 {
                    old(self)@.scopes.drop_last()
                } else {
                    old(self)@.scopes
                },
                ..old(self)@
            }),
    {
        let ghost v0 = self@;
        if self.scope_stack.len() > 0 {
            self.scope_stack.pop();
            assert(self@.scopes =~= v0.scopes.drop_last());
            assert forall|i: int| 0 <= i < self@.scopes.len() implies #[trigger] self@.scopes[i] < self@.signatures.len() by {
                assert(self@.scopes[i] == v0.scopes[i]);
            }
        }
    }

    fn current_index(&self) -> (r: Option<usize>)
        requires
            self@.wf(),
        ensures
            r == self@.current(),
            r matches Some(i) ==> i < self@.signatures.len(),
    {
        if self.scope_stack.len() == 0 {
            None
        } else {
            let i = self.scope_stack[self.scope_stack.len() - 1];
            assert(self@.scopes[self@.scopes.len() - 1] < self@.signatures.len());
            Some(i)
        }
    }

    fn types_of_exec(&self, name: &str) -> (r: Option<Vec<String>>)
        ensures
            r.deep_view() == self@.types_of(name@),
    {
        let ghost vt = self.variable_types.deep_view();
        let mut n = self.variable_types.len();
        assert(vt.take(vt.len() as int) =~= vt);
        while n > 0
            invariant
                n <= self.variable_types.len(),
                vt == self.variable_types.deep_view(),
                types_in(vt, name@) == types_in(vt.take(n as int), name@),
            decreases n,
        {
            let e = &self.variable_types[n - 1];
            assert(vt[n - 1] == e.deep_view());
            assert(vt.take(n as int).last() == vt[n - 1]);
            assert(vt.take(n as int).drop_last() =~= vt.take(n - 1));
            if crate::text::str_eq(e.0.as_str(), name) {
                let ts = e.1.clone();
                assert(ts.deep_view() =~= e.1.deep_view());
                return Some(ts);
            }
            n -= 1;
        }
        assert(vt.take(0) =~= Seq::<(Seq<char>, Seq<Seq<char>>)>::empty());
        assert(vt.take(vt.len() as int) =~= vt);
        None
    }

    /// A `throw` at `location`. A thrown variable with recorded types
    /// throws each of them; otherwise the statement's type is what
    /// `thrown_type` decides for `parsed` (its argument as read from the
    /// statement's text) with the catch parameters in scope. Nothing is
    /// recorded outside a function.
    pub fn add_throw(&mut self, location: Span, argument_identifier: Option<&str>, parsed: &Option<ThrownExpr>)
        requires
            old(self)@.wf(),
        ensures
            final(self)@.wf(),
            ({
                let v0 = old(self)@;
                let typed = match argument_identifier {
                    Some(n) => v0.types_of(n@),
                    None => None,
                };
                let added = match typed {
                    Some(ts) => typed_throws(location, ts),
                    None => seq![ThrowSiteView {
                        location,
                        error_type: match parsed {
                            Some(e) => thrown_type(*e, v0.catch_params),
                            None => ErrorTypeView::Unknown,
                        },
                    }],
                };
                final(self)@ == (ExtractorView {
                    signatures: match v0.current() {
                        Some(k) => v0.signatures.update(k as int, FunctionSignatureView {
                            direct_throws: v0.signatures[k as int].direct_throws + added,
                            ..v0.signatures[k as int]
                        }),
                        None => v0.signatures,
                    },
                    ..v0
                })
            }),
    {
        let ghost v0 = self@;
        let typed: Option<Vec<String>> = match argument_identifier {
            Some(n) => self.types_of_exec(n),
            None => None,
        };
        let mut added: Vec<ThrowSite> = Vec::new();
        match &typed {
            Some(ts) => {
                let mut i: usize = 0;
                assert(added.deep_view() =~= typed_throws(location, ts.deep_view().take(0)));
                while i < ts.len()
                    invariant
                        i <= ts.len(),
                        added.deep_view() == typed_throws(location, ts.deep_view().take(i as int)),
                    decreases ts.len() - i,
                {
                    let t = ThrowSite { location, error_type: ErrorType::Named(ts[i].clone()) };
                    let ghost before = added.deep_view();
                    added.push(t);
                    assert(added.deep_view() =~= before.push(t@));
                    assert(typed_throws(location, ts.deep_view().take(i + 1)) =~= typed_throws(location, ts.deep_view().take(i as int)).push(t@));
                    i += 1;
                }
                assert(ts.deep_view().take(ts.len() as int) =~= ts.deep_view());
            },
            None => {
                let et = analyze_parsed_throw(parsed, self.catch_param_stack.as_slice());
                let t = ThrowSite { location, error_type: et };
                added.push(t);
                assert(added.deep_view() =~= seq![t@]);
            },
        }
        match self.current_index() {
            Some(k) => {
                let mut sig = self.signatures[k].clone();
                let ghost s0 = sig@;
                let mut j: usize = 0;
                while j < added.len()
                    invariant
                        j <= added.len(),
                        sig@ == (FunctionSignatureView {
                            direct_throws: s0.direct_throws + added.deep_view().take(j as int),
                            ..s0
                        }),
                    decreases added.len() - j,
                {
                    let t = added[j].clone();
                    let ghost before = sig.direct_throws.deep_view();
                    sig.direct_throws.push(t);
                    assert(sig.direct_throws.deep_view() =~= before.push(t@));
                    assert(added.deep_view().take(j + 1) =~= added.deep_view().take(j as int).push(added[j as int]@));
                    j += 1;
                }
                assert(added.deep_view().take(added.len() as int) =~= added.deep_view());
                let ghost svv = sig@;
                self.signatures.set(k, sig);
                proof {
                    assert(self@.signatures =~= v0.signatures.update(k as int, svv));
                }
            },
            None => {},
        }
    }

    /// A variable annotated with `ts_type`: when the annotation names types,
    /// the variable's types become those names.
    pub fn record_variable_type(&mut self, name: &str, ts_type: &TypeAnnotation)
        requires
            old(self)@.wf(),
        ensures
            final(self)@.wf(),
            final(self)@ == (ExtractorView {
                variable_types: if annotation_names(*ts_type).len() > 0 {
                    old(self)@.variable_types.push((name@, annotation_names(*ts_type)))
                } else {
                    old(self)@.variable_types
                },
                ..old(self)@
            }),
    {
        let types = extract_type_names(ts_type);
        if types.len() > 0 {
            let ghost v0 = self.variable_types.deep_view();
            let e = (str_to_string(name), types);
            let ghost ev = e.deep_view();
            self.variable_types.push(e);
            assert(self.variable_types.deep_view() =~= v0.push(ev));
        }
    }

    /// A call at `location`; recorded in the current function when the
    /// callee is a plain identifier (given with its span).
    pub fn add_call(&mut self, callee: Option<(&str, Span)>, location: Span)
        requires
            old(self)@.wf(),
        ensures
            final(self)@.wf(),
            final(self)@ == (ExtractorView {
                signatures: match (callee, old(self)@.current()) {
                    (Some((n, sp)), Some(k)) => old(self)@.signatures.update(k as int, FunctionSignatureView {
                        calls: old(self)@.signatures[k as int].calls.push(CallSiteView { callee_name: n@, callee_span: sp, location }),
                        ..old(self)@.signatures[k as int]
                    }),
                    _ => old(self)@.signatures,
                },
                ..old(self)@
            }),
    {
        let ghost v0 = self@;
        let (name, span) = match callee {
            Some(c) => c,
            None => return,
        };
        match self.current_index() {
            Some(k) => {
                let mut sig = self.signatures[k].clone();
                let c = CallSite { callee_name: str_to_string(name), callee_span: span, location };
                let ghost before = sig.calls.deep_view();
                sig.calls.push(c);
                assert(sig.calls.deep_view() =~= before.push(c@));
                let ghost svv = sig@;
                self.signatures.set(k, sig);
                assert(self@.signatures =~= v0.signatures.update(k as int, svv));
            },
            None => {},
        }
    }

    /// A `try` statement: its block's span and, when it has a catch clause,
    /// the clause's span, statements and parameter (when that is a plain
    /// identifier). Recorded in the current function, with the types the
    /// clause handles.
    pub fn add_try_catch(&mut self, try_span: Span, handler: Option<(Span, &Vec<CatchStatement>, Option<&str>)>)
        requires
            old(self)@.wf(),
        ensures
            final(self)@.wf(),
            final(self)@ == (ExtractorView {
                signatures: match old(self)@.current() {
                    Some(k) => old(self)@.signatures.update(k as int, FunctionSignatureView {
                        try_catch_blocks: old(self)@.signatures[k as int].try_catch_blocks.push(TryCatchBlockView {
                            try_span,
                            catch_span: match handler {
                                Some((sp, _, _)) => Some(sp),
                                None => None,
                            },
                            caught_types: match handler {
                                Some((_, body, param)) => caught_names(body@, match param {
                                    Some(q) => Some(q@),
                                    None => None,
                                }),
                                None => Seq::empty(),
                            },
                        }),
                        ..old(self)@.signatures[k as int]
                    }),
                    None => old(self)@.signatures,
                },
                ..old(self)@
            }),
    {
        let ghost v0 = self@;
        let (catch_span, caught_types) = match handler {
            Some((sp, body, param)) => (Some(sp), extract_instanceof_types(body, param)),
            None => {
                let v: Vec<String> = Vec::new();
                assert(v.deep_view() =~= Seq::<Seq<char>>::empty());
                (None, v)
            },
        };
        match self.current_index() {
            Some(k) => {
                let mut sig = self.signatures[k].clone();
                let b = TryCatchBlock { try_span, catch_span, caught_types };
                let ghost before = sig.try_catch_blocks.deep_view();
                sig.try_catch_blocks.push(b);
                assert(sig.try_catch_blocks.deep_view() =~= before.push(b@));
                let ghost svv = sig@;
                self.signatures.set(k, sig);
                assert(self@.signatures =~= v0.signatures.update(k as int, svv));
            },
            None => {},
        }
    }

    /// Enters a catch clause whose parameter is the identifier `name`.
    pub fn push_catch_param(&mut self, name: &str)
        requires
            old(self)@.wf(),
        ensures
            final(self)@.wf(),
            final(self)@ == (ExtractorView { catch_params: old(self)@.catch_params.push(name@), ..old(self)@ }),
    {
        let ghost c0 = self.catch_param_stack.deep_view();
        let s = str_to_string(name);
        self.catch_param_stack.push(s);
        assert(self.catch_param_stack.deep_view() =~= c0.push(name@));
    }

    /// Leaves the innermost catch clause with a parameter.
    pub fn pop_catch_param(&mut self)
        requires
            old(self)@.wf(),
        ensures
            final(self)@.wf(),
            final(self)@ == (ExtractorView {
                catch_params: if old(self)@.catch_params.len() > 0 {
                    old(self)@.catch_params.drop_last()
                } else {
                    old(self)@.catch_params
                },
                ..old(self)@
            }),
    {
        let ghost c0 = self.catch_param_stack.deep_view();
        if self.catch_param_stack.len() > 0 {
            self.catch_param_stack.pop();
            assert(self.catch_param_stack.deep_view() =~= c0.drop_last());
        }
    }
}


fn method_signatures_of(ex: &FunctionExtractor, owner: &TypeId, ms: &Vec<MethodDecl>, is_abstract: bool) -> (r: Vec<MethodSignature>)
    requires
        ex@.wf(),
    ensures
        r.deep_view() == method_sigs(ex@.source, owner@, ms@, is_abstract),
{
    let mut out: Vec<MethodSignature> = Vec::new();
    let mut i: usize = 0;
    assert(ms@.take(0) =~= Seq::<MethodDecl>::empty());
    assert(out.deep_view() =~= Seq::<MethodSignatureView>::empty());
    while i < ms.len()
        invariant
            ex@.wf(),
            i <= ms.len(),
            out.deep_view() == method_sigs(ex@.source, owner@, ms@.take(i as int), is_abstract),
        decreases ms.len() - i,
    {
        assert(ms@.take(i + 1).drop_last() =~= ms@.take(i as int));
        assert(ms@.take(i + 1).last() == ms@[i as int]);
        let m = &ms[i];
        match &m.name {
            Some(n) => {
                let declared_throws = ex.declared_throws_at(m.span.start);
                let sig = MethodSignature {
                    type_id: owner.clone(),
                    method_name: n.clone(),
                    method_span: m.span,
                    declared_throws,
                    is_abstract,
                };
                let ghost before = out.deep_view();
                out.push(sig);
                assert(out.deep_view() =~= before.push(sig@));
            },
            None => {},
        }
        i += 1;
    }
    assert(ms@.take(ms.len() as int) =~= ms@);
    out
}

fn relations_of(file_path: &String, child: &TypeId, refs: &Vec<Option<NamedRef>>, kind: RelationKind) -> (r: Vec<TypeRelation>)
    ensures
        r.deep_view() == relations_to(file_path@, child@, refs@, kind),
{
    let mut out: Vec<TypeRelation> = Vec::new();
    let mut i: usize = 0;
    assert(refs@.take(0) =~= Seq::<Option<NamedRef>>::empty());
    assert(out.deep_view() =~= Seq::<TypeRelationView>::empty());
    while i < refs.len()
        invariant
            i <= refs.len(),
            out.deep_view() == relations_to(file_path@, child@, refs@.take(i as int), kind),
        decreases refs.len() - i,
    {
        assert(refs@.take(i + 1).drop_last() =~= refs@.take(i as int));
        assert(refs@.take(i + 1).last() == refs@[i as int]);
        match &refs[i] {
            Some(r) => {
                let rel = TypeRelation {
                    child: child.clone(),
                    parent: TypeId::new(file_path.as_str(), r.name.as_str(), r.span),
                    kind,
                };
                let ghost before = out.deep_view();
                out.push(rel);
                assert(out.deep_view() =~= before.push(rel@));
            },
            None => {},
        }
        i += 1;
    }
    assert(refs@.take(refs.len() as int) =~= refs@);
    out
}

fn append_relations(v: &mut Vec<TypeRelation>, more: Vec<TypeRelation>)
    ensures
        final(v).deep_view() == old(v).deep_view() + more.deep_view(),
{
    let ghost v0 = v.deep_view();
    let mut i: usize = 0;
    while i < more.len()
        invariant
            i <= more.len(),
            v.deep_view() == v0 + more.deep_view().take(i as int),
        decreases more.len() - i,
    {
        let r = more[i].clone();
        let ghost before = v.deep_view();
        v.push(r);
        assert(v.deep_view() =~= before.push(r@));
        assert(more.deep_view().take(i + 1) =~= more.deep_view().take(i as int).push(more[i as int]@));
        i += 1;
    }
    assert(more.deep_view().take(more.len() as int) =~= more.deep_view());
}

fn append_methods(v: &mut Vec<MethodSignature>, more: Vec<MethodSignature>)
    ensures
        final(v).deep_view() == old(v).deep_view() + more.deep_view(),
{
    let ghost v0 = v.deep_view();
    let mut i: usize = 0;
    while i < more.len()
        invariant
            i <= more.len(),
            v.deep_view() == v0 + more.deep_view().take(i as int),
        decreases more.len() - i,
    {
        let r = more[i].clone();
        let ghost before = v.deep_view();
        v.push(r);
        assert(v.deep_view() =~= before.push(r@));
        assert(more.deep_view().take(i + 1) =~= more.deep_view().take(i as int).push(more[i as int]@));
        i += 1;
    }
    assert(more.deep_view().take(more.len() as int) =~= more.deep_view());
}

impl FunctionExtractor {
    /// An interface: each plain-identifier `extends` target becomes an
    /// `Extends` relation, and each method with a plain name a method
    /// signature declaring what the comment before it declares.
    pub fn extract_interface(&mut self, iface: &InterfaceDecl)
        requires
            old(self)@.wf(),
        ensures
            final(self)@.wf(),
            ({
                let v0 = old(self)@;
                let t = TypeIdView { file_path: v0.file_path, name: iface.name@, span: iface.span };
                final(self)@ == (ExtractorView {
                    type_relations: v0.type_relations + relations_to(v0.file_path, t, iface.extends@, RelationKind::Extends),
                    method_signatures: v0.method_signatures + method_sigs(v0.source, t, iface.methods@, false),
                    ..v0
                })
            }),
    {
        let type_id = TypeId::new(self.file_path.as_str(), iface.name.as_str(), iface.span);
        let rels = relations_of(&self.file_path, &type_id, &iface.extends, RelationKind::Extends);
        let methods = method_signatures_of(self, &type_id, &iface.methods, false);
        append_relations(&mut self.type_relations, rels);
        append_methods(&mut self.method_signatures, methods);
    }

    /// Enters a class, returning the class the walk was in. A named class
    /// records its superclass (`Extends`) and `implements` targets
    /// (`Implements`), the method signatures of its abstract methods when it
    /// is abstract, and becomes the current class; inside an unnamed class
    /// there is none.
    pub fn enter_class(&mut self, class: &ClassDecl) -> (prev: Option<TypeId>)
        requires
            old(self)@.wf(),
        ensures
            final(self)@.wf(),
            match prev {
                Some(t) => old(self)@.current_class == Some(t@),
                None => old(self)@.current_class is None,
            },
            ({
                let v0 = old(self)@;
                match class.name {
                    None => final(self)@ == (ExtractorView { current_class: None, ..v0 }),
                    Some(n) => {
                        let t = TypeIdView { file_path: v0.file_path, name: n@, span: class.span };
                        let sup: Seq<Option<NamedRef>> = match class.super_class {
                            Some(r) => seq![Some(r)],
                            None => Seq::empty(),
                        };
                        final(self)@ == (ExtractorView {
                            type_relations: v0.type_relations + relations_to(v0.file_path, t, sup, RelationKind::Extends)
                                + relations_to(v0.file_path, t, class.implements@, RelationKind::Implements),
                            method_signatures: if class.is_abstract {
                                v0.method_signatures + method_sigs(v0.source, t, class.abstract_methods@, true)
                            } else {
                                v0.method_signatures
                            },
                            current_class: Some(t),
                            ..v0
                        })
                    },
                }
            }),
    {
        let prev = self.current_class.take();
        let name = match &class.name {
            Some(n) => n,
            None => return prev,
        };
        let type_id = TypeId::new(self.file_path.as_str(), name.as_str(), class.span);
        let ghost t = type_id@;
        match &class.super_class {
            Some(r) => {
                let rel = TypeRelation {
                    child: type_id.clone(),
                    parent: TypeId::new(self.file_path.as_str(), r.name.as_str(), r.span),
                    kind: RelationKind::Extends,
                };
                let ghost before = self.type_relations.deep_view();
                self.type_relations.push(rel);
                proof {
                    assert(self.type_relations.deep_view() =~= before.push(rel@));
                    let sup = seq![Some(*r)];
                    assert(sup.drop_last() =~= Seq::<Option<NamedRef>>::empty());
                    assert(relations_to(self@.file_path, t, Seq::<Option<NamedRef>>::empty(), RelationKind::Extends) =~= Seq::<TypeRelationView>::empty());
                    assert(sup.last() == Some(*r));
                    assert(relations_to(self@.file_path, t, sup, RelationKind::Extends) =~= Seq::<TypeRelationView>::empty().push(rel@));
                    assert(relations_to(self@.file_path, t, sup, RelationKind::Extends) == seq![rel@]);
                    assert(before + seq![rel@] =~= before.push(rel@));
                }
            },
            None => {
                assert(self.type_relations.deep_view() + relations_to(self@.file_path, t, Seq::<Option<NamedRef>>::empty(), RelationKind::Extends) =~= self.type_relations.deep_view());
            },
        }
        let rels = relations_of(&self.file_path, &type_id, &class.implements, RelationKind::Implements);
        append_relations(&mut self.type_relations, rels);
        if class.is_abstract {
            let methods = method_signatures_of(self, &type_id, &class.abstract_methods, true);
            append_methods(&mut self.method_signatures, methods);
        }
        self.current_class = Some(type_id);
        prev
    }

    /// Leaves a class, back in the class `prev`.
    pub fn exit_class(&mut self, prev: Option<TypeId>)
        requires
            old(self)@.wf(),
        ensures
            final(self)@.wf(),
            final(self)@ == (ExtractorView {
                current_class: match prev {
                    Some(t) => Some(t@),
                    None => None,
                },
                ..old(self)@
            }),
    {
        self.current_class = prev;
    }

    /// Everything recorded.
    pub fn finish(self) -> (r: ExtractionResult)
        ensures
            r.signatures.deep_view() == self@.signatures,
            r.method_signatures.deep_view() == self@.method_signatures,
            r.type_relations.deep_view() == self@.type_relations,
    {
        ExtractionResult {
            signatures: self.signatures,
            method_signatures: self.method_signatures,
            type_relations: self.type_relations,
        }
    }
}

} // verus!
