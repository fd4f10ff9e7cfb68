use vstd::prelude::*;

use crate::bindings::{
    elements_idents, elements_size, lemma_elements_size, lemma_props_size, pattern_idents,
    pattern_size, props_idents, props_size,
};
use crate::diagnostic::{Diagnostic, DiagnosticKind};
use crate::ir::{Expr, Pattern};
use crate::span::SourceSpan;
use crate::strings::{chars_of, extend_chars, string_from_chars};

verus! {

/// Ambient globals a guest program may not reach unless it binds the name
/// itself.
pub open spec fn forbidden_ambient_globals() -> Seq<Seq<char>> {
    seq![
        "eval"@,
        "process"@,
        "module"@,
        "exports"@,
        "global"@,
        "require"@,
        "Function"@,
        "arguments"@,
        "setTimeout"@,
        "setInterval"@,
        "queueMicrotask"@,
        "fetch"@,
    ]
}

pub open spec fn is_forbidden_global(name: Seq<char>) -> bool {
    forbidden_ambient_globals().contains(name)
}

/// A diagnostic as plain values: kind, message and span.
pub open spec fn diag_view(d: Diagnostic) -> (DiagnosticKind, Seq<char>, Option<SourceSpan>) {
    (d.kind, d.message@, d.span)
}

pub open spec fn diags_view(ds: Seq<Diagnostic>) -> Seq<(DiagnosticKind, Seq<char>, Option<SourceSpan>)> {
    ds.map_values(|d: Diagnostic| diag_view(d))
}

pub open spec fn scope_view(scope: Seq<String>) -> Seq<Seq<char>> {
    scope.map_values(|s: String| s@)
}

/// The state of lexical scope tracking: the names declared in each open
/// scope (innermost last) and the diagnostics reported so far.
pub struct ScopeState {
    pub scopes: Seq<Seq<Seq<char>>>,
    pub diagnostics: Seq<(DiagnosticKind, Seq<char>, Option<SourceSpan>)>,
}

/// The message for a name declared twice in one scope.
pub open spec fn redeclaration_message(name: Seq<char>) -> Seq<char> {
    "SyntaxError: Identifier `"@ + name + "` has already been declared"@
}

/// Declaring `name` in the innermost scope: a repeated declaration is
/// reported, a new one is recorded.
pub open spec fn declare_spec(st: ScopeState, name: Seq<char>, span: SourceSpan) -> ScopeState {
    if st.scopes.len() == 0 {
        st
    } else if st.scopes.last().contains(name) {
        ScopeState {
            scopes: st.scopes,
            diagnostics: st.diagnostics.push(
                (DiagnosticKind::Validation, redeclaration_message(name), Some(span)),
            ),
        }
    } else {
        ScopeState {
            scopes: st.scopes.update(st.scopes.len() - 1, st.scopes.last().push(name)),
            diagnostics: st.diagnostics,
        }
    }
}

/// Declaring each of `names` in turn.
pub open spec fn declare_all(st: ScopeState, names: Seq<(Seq<char>, SourceSpan)>) -> ScopeState
    decreases names.len(),
{
    if names.len() == 0 {
        st
    } else {
        declare_all(declare_spec(st, names[0].0, names[0].1), names.drop_first())
    }
}

pub proof fn lemma_declare_all_concat(
    st: ScopeState,
    a: Seq<(Seq<char>, SourceSpan)>,
    b: Seq<(Seq<char>, SourceSpan)>,
)
    ensures
        declare_all(st, a + b) == declare_all(declare_all(st, a), b),
    decreases a.len(),
{
    if a.len() == 0 {
        assert(a + b =~= b);
    } else {
        assert((a + b).drop_first() =~= a.drop_first() + b);
        lemma_declare_all_concat(declare_spec(st, a[0].0, a[0].1), a.drop_first(), b);
    }
}

/// Tracks the lexical scopes of the program being lowered and collects the
/// diagnostics for constructs it refuses.
pub struct Lowerer {
    pub diagnostics: Vec<Diagnostic>,
    scopes: Vec<Vec<String>>,
}

impl Lowerer {
    pub closed spec fn state(&self) -> ScopeState {
        ScopeState {
            scopes: self.scopes@.map_values(|s: Vec<String>| scope_view(s@)),
            diagnostics: diags_view(self.diagnostics@),
        }
    }

    /// The diagnostics reported so far, in order.
    pub fn into_diagnostics(self) -> (d: Vec<Diagnostic>)
        ensures
            diags_view(d@) == self.state().diagnostics,
    {
        self.diagnostics
    }

    /// A name bound in some open scope.
    pub open spec fn bound(&self, name: Seq<char>) -> bool {
        exists|i: int| 0 <= i < self.state().scopes.len() && self.state().scopes[i].contains(name)
    }

    /// One empty scope, no diagnostics.
    pub fn new() -> (l: Lowerer)
        ensures
            l.state().scopes == seq![Seq::<Seq<char>>::empty()],
            l.state().diagnostics == Seq::<(DiagnosticKind, Seq<char>, Option<SourceSpan>)>::empty(),
    {
        let mut scopes: Vec<Vec<String>> = Vec::new();
        scopes.push(Vec::new());
        let l = Lowerer { diagnostics: Vec::new(), scopes };
        assert(l.state().scopes =~~= seq![Seq::<Seq<char>>::empty()]);
        assert(l.state().diagnostics =~= Seq::empty());
        l
    }

    /// Opens a new innermost scope.
    pub fn push_scope(&mut self)
        ensures
            final(self).state().scopes == old(self).state().scopes.push(Seq::<Seq<char>>::empty()),
            final(self).state().diagnostics == old(self).state().diagnostics,
    {
        self.scopes.push(Vec::new());
        assert(self.state().scopes =~~= old(self).state().scopes.push(Seq::<Seq<char>>::empty()));
    }

    /// Closes the innermost scope, if any.
    pub fn pop_scope(&mut self)
        ensures
            final(self).state().scopes == (if old(self).state().scopes.len() == 0 {
                old(self).state().scopes
            } else {
                old(self).state().scopes.drop_last()
            }),
            final(self).state().diagnostics == old(self).state().diagnostics,
    {
        self.scopes.pop();
        assert(self.state().scopes =~= (if old(self).state().scopes.len() == 0 {
            old(self).state().scopes
        } else {
            old(self).state().scopes.drop_last()
        }));
    }

    /// Reports a construct the runtime does not support.
    pub fn unsupported(&mut self, message: String, span: Option<SourceSpan>)
        ensures
            final(self).state().scopes == old(self).state().scopes,
            final(self).state().diagnostics == old(self).state().diagnostics.push(
                (DiagnosticKind::Validation, message@, span),
            ),
    {
        self.diagnostics.push(Diagnostic::validation(message, span));
        assert(self.state().diagnostics =~= old(self).state().diagnostics.push(
            (DiagnosticKind::Validation, message@, span),
        ));
    }

    /// Whether `name` is declared in any open scope.
    pub fn is_bound(&self, name: &str) -> (b: bool)
        ensures
            b == self.bound(name@),
    {
        let key = name.to_owned();
        let mut i: usize = 0;
        while i < self.scopes.len()
            invariant
                i <= self.scopes.len(),
                key@ == name@,
                forall|j: int| 0 <= j < i ==> !self.state().scopes[j].contains(name@),
            decreases self.scopes.len() - i,
        {
            let scope = &self.scopes[i];
            let mut k: usize = 0;
            while k < scope.len()
                invariant
                    k <= scope.len(),
                    *scope == self.scopes@[i as int],
                    i < self.scopes.len(),
                    key@ == name@,
                    forall|m: int| 0 <= m < k ==> scope@[m]@ != name@,
                decreases scope.len() - k,
            {
                if scope[k] == key {
                    assert(self.state().scopes[i as int][k as int] == name@);
                    return true;
                }
                k += 1;
            }
            assert(!self.state().scopes[i as int].contains(name@)) by {
                if self.state().scopes[i as int].contains(name@) {
                    let m = choose|m: int|
                        0 <= m < self.state().scopes[i as int].len()
                            && self.state().scopes[i as int][m] == name@;
                    assert(scope@[m]@ == name@);
                }
            }
            i += 1;
        }
        false
    }

    /// Declares `name` in the innermost scope; declaring it twice there is a
    /// `SyntaxError`.
    pub fn declare_name_in_current_scope(&mut self, name: &str, span: SourceSpan)
        ensures
            final(self).state() == declare_spec(old(self).state(), name@, span),
    {
        let n = self.scopes.len();
        if n == 0 {
            return;
        }
        let key = name.to_owned();
        let mut found = false;
        let mut k: usize = 0;
        while k < self.scopes[n - 1].len()
            invariant
                n == self.scopes.len(),
                n > 0,
                k <= self.scopes@[n - 1]@.len(),
                key@ == name@,
                found == exists|m: int| 0 <= m < k && #[trigger] self.scopes@[n - 1]@[m]@ == name@,
            decreases self.scopes@[n - 1]@.len() - k,
        {
            if self.scopes[n - 1][k] == key {
                found = true;
            }
            k += 1;
        }
        let ghost last = self.state().scopes.last();
        assert(found == last.contains(name@)) by {
            if found {
                let m = choose|m: int| 0 <= m < k && #[trigger] self.scopes@[n - 1]@[m]@ == name@;
                assert(last[m] == name@);
            }
            if last.contains(name@) {
                let m = choose|m: int| 0 <= m < last.len() && last[m] == name@;
                assert(self.scopes@[n - 1]@[m]@ == name@);
            }
        }
        if found {
            let mut message = chars_of("SyntaxError: Identifier `");
            extend_chars(&mut message, &chars_of(name));
            extend_chars(&mut message, &chars_of("` has already been declared"));
            assert(message@ =~= redeclaration_message(name@));
            self.unsupported(string_from_chars(&message), Some(span));
        } else {
            let ghost old_state = self.state();
            let mut scopes: Vec<Vec<String>> = Vec::new();
            std::mem::swap(&mut scopes, &mut self.scopes);
            let mut last_scope = scopes.pop().unwrap();
            last_scope.push(key);
            scopes.push(last_scope);
            self.scopes = scopes;
            assert(self.state().scopes =~~= old_state.scopes.update(
                old_state.scopes.len() - 1,
                old_state.scopes.last().push(name@),
            ));
        }
    }

    /// Declares, in source order, every name `pattern` binds.
    pub fn collect_ir_pattern_bindings(&mut self, pattern: &Pattern)
        ensures
            final(self).state() == declare_all(old(self).state(), pattern_idents(*pattern)),
        decreases pattern_size(*pattern),
    {
        let ghost start = self.state();
        match pattern {
            Pattern::Identifier { name, span } => {
                self.declare_name_in_current_scope(name.as_str(), *span);
                assert(pattern_idents(*pattern) =~= seq![(name@, *span)]);
                assert(seq![(name@, *span)].drop_first() =~= Seq::<(Seq<char>, SourceSpan)>::empty());
                assert(declare_all(start, seq![(name@, *span)]) == declare_all(
                    declare_spec(start, name@, *span),
                    Seq::<(Seq<char>, SourceSpan)>::empty(),
                ));
            },
            Pattern::Object { properties, rest, .. } => {
                let mut i: usize = 0;
                assert(props_size(properties@, properties@.len() as int) < pattern_size(*pattern));
                while i < properties.len()
                    invariant
                        i <= properties.len(),
                        props_size(properties@, properties@.len() as int) < pattern_size(*pattern),
                        self.state() == declare_all(start, props_idents(properties@, i as int)),
                    decreases properties.len() - i,
                {
                    proof {
                        lemma_props_size(properties@, properties@.len() as int, i as int);
                    }
                    self.collect_ir_pattern_bindings(&properties[i].value);
                    proof {
                        lemma_declare_all_concat(
                            start,
                            props_idents(properties@, i as int),
                            pattern_idents(properties@[i as int].value),
                        );
                    }
                    i += 1;
                }
                let ghost mid = self.state();
                match rest {
                    Some(r) => {
                        self.collect_ir_pattern_bindings(r);
                    },
                    None => {},
                }
                proof {
                    let a = props_idents(properties@, properties@.len() as int);
                    let b = match rest {
                        Some(r) => pattern_idents(**r),
                        None => seq![],
                    };
                    lemma_declare_all_concat(start, a, b);
                }
            },
            Pattern::Array { elements, rest, .. } => {
                let mut i: usize = 0;
                assert(elements_size(elements@, elements@.len() as int) < pattern_size(*pattern));
                while i < elements.len()
                    invariant
                        i <= elements.len(),
                        elements_size(elements@, elements@.len() as int) < pattern_size(*pattern),
                        self.state() == declare_all(start, elements_idents(elements@, i as int)),
                    decreases elements.len() - i,
                {
                    let ghost before = self.state();
                    match &elements[i] {
                        Some(element) => {
                            proof {
                                lemma_elements_size(elements@, elements@.len() as int, i as int);
                            }
                            self.collect_ir_pattern_bindings(element);
                        },
                        None => {},
                    }
                    proof {
                        let b = match elements@[i as int] {
                            Some(e) => pattern_idents(e),
                            None => seq![],
                        };
                        lemma_declare_all_concat(start, elements_idents(elements@, i as int), b);
                    }
                    i += 1;
                }
                match rest {
                    Some(r) => {
                        self.collect_ir_pattern_bindings(r);
                    },
                    None => {},
                }
                proof {
                    let a = elements_idents(elements@, elements@.len() as int);
                    let b = match rest {
                        Some(r) => pattern_idents(**r),
                        None => seq![],
                    };
                    lemma_declare_all_concat(start, a, b);
                }
            },
            Pattern::Default { target, .. } => {
                self.collect_ir_pattern_bindings(target);
            },
        }
    }

    /// Lowers a reference to the identifier `name`: a free reference to a
    /// forbidden ambient global is refused, `undefined` becomes the
    /// undefined literal, any other name a plain identifier.
    pub fn lower_identifier_reference(&mut self, name: &str, span: SourceSpan) -> (r: Option<Expr>)
        ensures
            is_forbidden_global(name@) && !old(self).bound(name@) ==> {
                &&& r is None
                &&& final(self).state() == (ScopeState {
                    scopes: old(self).state().scopes,
                    diagnostics: old(self).state().diagnostics.push(
                        (
                            DiagnosticKind::Validation,
                            "free reference to forbidden ambient global `"@ + name@ + "`"@,
                            Some(span),
                        ),
                    ),
                })
            },
            !(is_forbidden_global(name@) && !old(self).bound(name@)) ==> {
                &&& final(self).state() == old(self).state()
                &&& name@ == "undefined"@ ==> (r matches Some(Expr::Undefined { span: s }) && s == span)
                &&& name@ != "undefined"@ ==> (r matches Some(Expr::Identifier { span: s, name: n })
                    && s == span && n@ == name@)
            },
    {
        let bound = self.is_bound(name);
        if !bound && is_forbidden_global_exec(name) {
            let mut message = chars_of("free reference to forbidden ambient global `");
            extend_chars(&mut message, &chars_of(name));
            extend_chars(&mut message, &chars_of("`"));
            assert(message@ =~= "free reference to forbidden ambient global `"@ + name@ + "`"@);
            self.unsupported(string_from_chars(&message), Some(span));
            return None;
        }
        if equal_to_literal(name, "undefined") {
            return Some(Expr::Undefined { span });
        }
        Some(Expr::Identifier { span, name: name.to_owned() })
    }
}

/// Whether `a` and `b` hold the same characters.
pub fn equal_to_literal(a: &str, b: &str) -> (r: bool)
    ensures
        r == (a@ == b@),
{
    let x = chars_of(a);
    let y = chars_of(b);
    if x.len() != y.len() {
        return false;
    }
    let mut i: usize = 0;
    while i < x.len()
        invariant
            x.len() == y.len(),
            x@ == a@,
            y@ == b@,
            i <= x.len(),
            forall|k: int| 0 <= k < i ==> x@[k] == y@[k],
        decreases x.len() - i,
    {
        if x[i] != y[i] {
            return false;
        }
        i += 1;
    }
    assert(x@ =~= y@);
    true
}

/// Whether `name` is one of the forbidden ambient globals.
pub fn is_forbidden_global_exec(name: &str) -> (r: bool)
    ensures
        r == is_forbidden_global(name@),
{
    let list = [
        "eval",
        "process",
        "module",
        "exports",
        "global",
        "require",
        "Function",
        "arguments",
        "setTimeout",
        "setInterval",
        "queueMicrotask",
        "fetch",
    ];
    let mut i: usize = 0;
    while i < 12
        invariant
            i <= 12,
            forall|k: int| 0 <= k < i ==> forbidden_ambient_globals()[k] != name@,
            list@ == seq![
                "eval",
                "process",
                "module",
                "exports",
                "global",
                "require",
                "Function",
                "arguments",
                "setTimeout",
                "setInterval",
                "queueMicrotask",
                "fetch",
            ],
        decreases 12 - i,
    {
        if equal_to_literal(name, list[i]) {
            assert(forbidden_ambient_globals()[i as int] == name@);
            return true;
        }
        i += 1;
    }
    assert(!forbidden_ambient_globals().contains(name@)) by {
        if forbidden_ambient_globals().contains(name@) {
            let k = choose|k: int|
                0 <= k < forbidden_ambient_globals().len() && forbidden_ambient_globals()[k]
                    == name@;
            assert(forbidden_ambient_globals()[k] != name@);
        }
    }
    false
}

} // verus!
