//! Typed views on terms that represent data expressions: variables,
//! applications, abstractions, function symbols, machine numbers, untyped
//! identifiers and sorts, each recognized by its head symbol.

use vstd::prelude::*;

use crate::aterm::ATerm;
use crate::aterm::ATermString;
use crate::aterm::TermView;

verus! {

/// Relies on `str`'s `PartialEq`: string slices compare equal exactly when
/// their character sequences do.
#[verifier::external_body]
fn str_eq(a: &str, b: &str) -> (r: bool)
    ensures
        r == (a@ == b@),
{
    a == b
}

/// A variable: a name and a sort.
pub open spec fn spec_is_variable(t: TermView) -> bool {
    &&& t.head == "DataVarId"@
    &&& t.args.len() == 2
    &&& t.args[0].args.len() == 0
    &&& spec_is_sort_expression(t.args[1])
}

/// An application: a head expression applied to arguments.
pub open spec fn spec_is_application(t: TermView) -> bool {
    t.head == "DataAppl"@ && t.args.len() >= 1
}

/// An abstraction: a binder, bound variables, and a body.
pub open spec fn spec_is_abstraction(t: TermView) -> bool {
    t.head == "Binder"@ && t.args.len() == 3
}

/// A function symbol: a name and a sort.
pub open spec fn spec_is_function_symbol(t: TermView) -> bool {
    &&& t.head == "OpId"@
    &&& t.args.len() == 2
    &&& t.args[0].args.len() == 0
    &&& spec_is_sort_expression(t.args[1])
}

/// A where clause: a body and its assignments.
pub open spec fn spec_is_where_clause(t: TermView) -> bool {
    t.head == "Whr"@ && t.args.len() == 2
}

/// A machine number: a value in the machine's word range.
pub open spec fn spec_is_machine_number(t: TermView) -> bool {
    t.head == "MachineNumber"@ && t.args.len() == 0
}

/// An untyped identifier: a bare name.
pub open spec fn spec_is_untyped_identifier(t: TermView) -> bool {
    t.head == "UntypedIdentifier"@ && t.args.len() == 1
}

/// A sort expression: a sort name.
pub open spec fn spec_is_sort_expression(t: TermView) -> bool {
    t.head == "SortId"@ && t.args.len() == 1
}

/// A data expression is any of the supported expression forms.
pub open spec fn spec_is_data_expression(t: TermView) -> bool {
    ||| spec_is_variable(t)
    ||| spec_is_application(t)
    ||| spec_is_abstraction(t)
    ||| spec_is_function_symbol(t)
    ||| spec_is_machine_number(t)
    ||| spec_is_untyped_identifier(t)
}

/// Checks if this term is a sort expression.
pub fn is_sort_expression(term: &ATerm) -> (r: bool)
    ensures
        r == spec_is_sort_expression(term@),
{
    str_eq(term.function(), "SortId") && term.arity() == 1
}

/// Checks if this term is a data variable.
pub fn is_variable(term: &ATerm) -> (r: bool)
    ensures
        r == spec_is_variable(term@),
{
    str_eq(term.function(), "DataVarId") && term.arity() == 2 && term.arg(0).arity() == 0
        && is_sort_expression(term.arg(1))
}

/// Checks if this term is a data application.
pub fn is_application(term: &ATerm) -> (r: bool)
    ensures
        r == spec_is_application(term@),
{
    str_eq(term.function(), "DataAppl") && term.arity() >= 1
}

/// Checks if this term is a data abstraction.
pub fn is_abstraction(term: &ATerm) -> (r: bool)
    ensures
        r == spec_is_abstraction(term@),
{
    str_eq(term.function(), "Binder") && term.arity() == 3
}

/// Checks if this term is a data function symbol.
pub fn is_function_symbol(term: &ATerm) -> (r: bool)
    ensures
        r == spec_is_function_symbol(term@),
{
    str_eq(term.function(), "OpId") && term.arity() == 2 && term.arg(0).arity() == 0
        && is_sort_expression(term.arg(1))
}

/// Checks if this term is a data where clause.
pub fn is_where_clause(term: &ATerm) -> (r: bool)
    ensures
        r == spec_is_where_clause(term@),
{
    str_eq(term.function(), "Whr") && term.arity() == 2
}

/// Checks if this term is a data machine number.
pub fn is_machine_number(term: &ATerm) -> (r: bool)
    ensures
        r == spec_is_machine_number(term@),
{
    str_eq(term.function(), "MachineNumber") && term.arity() == 0
}

/// Checks if this term is a data untyped identifier.
pub fn is_untyped_identifier(term: &ATerm) -> (r: bool)
    ensures
        r == spec_is_untyped_identifier(term@),
{
    str_eq(term.function(), "UntypedIdentifier") && term.arity() == 1
}

/// Checks if this term is a data expression.
pub fn is_data_expression(term: &ATerm) -> (r: bool)
    ensures
        r == spec_is_data_expression(term@),
{
    is_variable(term) || is_application(term) || is_abstraction(term) || is_function_symbol(term)
        || is_machine_number(term) || is_untyped_identifier(term)
}

/// A data expression: one of the supported expression forms.
///
/// A data expression can be any of:
///    - a variable
///    - a function symbol, i.e. f without arguments
///    - a term applied to a number of arguments, i.e., t_0(t1, ..., tn)
///    - an abstraction, such as a lambda
///    - a machine number
///    - an untyped identifier
pub struct DataExpression {
    term: ATerm,
}

impl DataExpression {
    /// The underlying term.
    pub closed spec fn spec_term(self) -> TermView {
        self.term@
    }

    /// Creates a new data expression from the given term.
    pub fn new(term: ATerm) -> (r: Self)
        requires
            spec_is_data_expression(term@),
        ensures
            r.spec_term() == term@,
    {
        Self { term }
    }

    /// Returns the head symbol of a data expression: the head of an
    /// application, or a function symbol itself.
    pub fn data_function_symbol(&self) -> (r: DataFunctionSymbol)
        requires
            spec_is_application(self.spec_term()) ==> spec_is_function_symbol(
                self.spec_term().args[0],
            ),
            spec_is_application(self.spec_term()) || spec_is_function_symbol(self.spec_term()),
        ensures
            spec_is_application(self.spec_term()) ==> r.spec_term() == self.spec_term().args[0],
            !spec_is_application(self.spec_term()) ==> r.spec_term() == self.spec_term(),
    {
        if is_application(&self.term) {
            DataFunctionSymbol { term: self.term.arg(0).duplicate() }
        } else {
            DataFunctionSymbol { term: self.term.duplicate() }
        }
    }

    /// Returns the arguments of a data expression: those of an application,
    /// and none for a function symbol.
    pub fn data_arguments(&self) -> (r: Vec<&ATerm>)
        requires
            spec_is_application(self.spec_term()) || spec_is_function_symbol(self.spec_term()),
        ensures
            spec_is_application(self.spec_term()) ==> r@.len() == self.spec_term().args.len() - 1
                && (forall|k: int|
                0 <= k < r@.len() ==> (#[trigger] r@[k])@ == self.spec_term().args[k + 1]),
            !spec_is_application(self.spec_term()) ==> r@.len() == 0,
    {
        let mut result: Vec<&ATerm> = Vec::new();
        if is_application(&self.term) {
            let n = self.term.arity();
            let mut k: usize = 1;
            while k < n
                invariant
                    spec_is_application(self.spec_term()),
                    n == self.spec_term().args.len(),
                    self.spec_term() == self.term@,
                    1 <= k <= n,
                    result@.len() == k - 1,
                    forall|j: int|
                        0 <= j < result@.len() ==> (#[trigger] result@[j])@
                            == self.spec_term().args[j + 1],
                decreases n - k,
            {
                result.push(self.term.arg(k));
                k = k + 1;
            }
        }
        result
    }

    /// Returns the sort of a data expression: the declared sort of a
    /// function symbol or of a variable.
    pub fn data_sort(&self) -> (r: SortExpression)
        requires
            spec_is_function_symbol(self.spec_term()) || spec_is_variable(self.spec_term()),
        ensures
            r.spec_term() == self.spec_term().args[1],
    {
        SortExpression { term: self.term.arg(1).duplicate() }
    }
}

/// A data variable: a name and a sort.
pub struct DataVariable {
    term: ATerm,
}

impl DataVariable {
    /// The underlying term.
    pub closed spec fn spec_term(self) -> TermView {
        self.term@
    }

    /// Creates a new variable from the given term.
    pub fn new(term: ATerm) -> (r: Self)
        requires
            spec_is_variable(term@),
        ensures
            r.spec_term() == term@,
    {
        Self { term }
    }

    /// Returns the name of the variable.
    pub fn name(&self) -> (r: ATermString)
        requires
            spec_is_variable(self.spec_term()),
        ensures
            r.spec_text() == self.spec_term().args[0].head,
    {
        ATermString::new(self.term.arg(0).duplicate())
    }

    /// Returns the sort of the variable.
    pub fn sort(&self) -> (r: SortExpression)
        requires
            spec_is_variable(self.spec_term()),
        ensures
            r.spec_term() == self.spec_term().args[1],
    {
        SortExpression { term: self.term.arg(1).duplicate() }
    }
}

/// A data application: a head expression applied to arguments.
pub struct DataApplication {
    term: ATerm,
}

impl DataApplication {
    /// The underlying term.
    pub closed spec fn spec_term(self) -> TermView {
        self.term@
    }

    /// Creates a new application from the given term.
    pub fn new(term: ATerm) -> (r: Self)
        requires
            spec_is_application(term@),
        ensures
            r.spec_term() == term@,
    {
        Self { term }
    }

    /// Returns the head symbol of the application.
    pub fn data_function_symbol(&self) -> (r: DataFunctionSymbol)
        requires
            spec_is_application(self.spec_term()),
            spec_is_function_symbol(self.spec_term().args[0]),
        ensures
            r.spec_term() == self.spec_term().args[0],
    {
        DataFunctionSymbol { term: self.term.arg(0).duplicate() }
    }

    /// Returns the arguments of the application.
    pub fn data_arguments(&self) -> (r: Vec<&ATerm>)
        requires
            spec_is_application(self.spec_term()),
        ensures
            r@.len() == self.spec_term().args.len() - 1,
            forall|k: int| 0 <= k < r@.len() ==> (#[trigger] r@[k])@ == self.spec_term().args[k + 1],
    {
        let n = self.term.arity();
        let mut result: Vec<&ATerm> = Vec::new();
        let mut k: usize = 1;
        while k < n
            invariant
                spec_is_application(self.spec_term()),
                n == self.spec_term().args.len(),
                self.spec_term() == self.term@,
                1 <= k <= n,
                result@.len() == k - 1,
                forall|j: int|
                    0 <= j < result@.len() ==> (#[trigger] result@[j])@
                        == self.spec_term().args[j + 1],
            decreases n - k,
        {
            result.push(self.term.arg(k));
            k = k + 1;
        }
        result
    }
}

/// A data abstraction: a binder with bound variables and a body.
pub struct DataAbstraction {
    term: ATerm,
}

impl DataAbstraction {
    /// The underlying term.
    pub closed spec fn spec_term(self) -> TermView {
        self.term@
    }

    /// Creates a new abstraction from the given term.
    pub fn new(term: ATerm) -> (r: Self)
        requires
            spec_is_abstraction(term@),
        ensures
            r.spec_term() == term@,
    {
        Self { term }
    }
}

/// A data function symbol: a name and a sort.
pub struct DataFunctionSymbol {
    term: ATerm,
}

impl DataFunctionSymbol {
    /// The underlying term.
    pub closed spec fn spec_term(self) -> TermView {
        self.term@
    }

    /// Creates a new function symbol from the given term.
    pub fn new(term: ATerm) -> (r: Self)
        requires
            spec_is_function_symbol(term@),
        ensures
            r.spec_term() == term@,
    {
        Self { term }
    }

    /// Returns the sort of the function symbol.
    pub fn sort(&self) -> (r: SortExpression)
        requires
            spec_is_function_symbol(self.spec_term()),
        ensures
            r.spec_term() == self.spec_term().args[1],
    {
        SortExpression { term: self.term.arg(1).duplicate() }
    }

    /// Returns the name of the function symbol.
    pub fn name(&self) -> (r: &str)
        requires
            spec_is_function_symbol(self.spec_term()),
        ensures
            r@ == self.spec_term().args[0].head,
    {
        self.term.arg(0).function()
    }
}

/// A sort expression: a sort name.
pub struct SortExpression {
    term: ATerm,
}

impl SortExpression {
    /// The underlying term.
    pub closed spec fn spec_term(self) -> TermView {
        self.term@
    }

    /// Creates a new sort expression from the given term.
    pub fn new(term: ATerm) -> (r: Self)
        requires
            spec_is_sort_expression(term@),
        ensures
            r.spec_term() == term@,
    {
        Self { term }
    }

    /// Returns the name of the sort.
    pub fn name(&self) -> (r: &str)
        requires
            spec_is_sort_expression(self.spec_term()),
        ensures
            r@ == self.spec_term().args[0].head,
    {
        self.term.arg(0).function()
    }
}

/// A machine number: a value in the machine's word range. The value is not
/// carried by the term representation here; obtaining it always yields 0.
pub struct MachineNumber {
    term: ATerm,
}

impl MachineNumber {
    /// The underlying term.
    pub closed spec fn spec_term(self) -> TermView {
        self.term@
    }

    /// Creates a new machine number from the given term.
    pub fn new(term: ATerm) -> (r: Self)
        requires
            spec_is_machine_number(term@),
        ensures
            r.spec_term() == term@,
    {
        Self { term }
    }

    /// Obtain the underlying value of a machine number.
    pub fn value(&self) -> (r: u64)
        ensures
            r == 0,
    {
        0
    }
}

} // verus!
