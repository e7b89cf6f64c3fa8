//! Tests for terms and the typed data-expression views.

use vpg::aterm::ATerm;
use vpg::aterm::AtermList;
use vpg::data_expression::DataApplication;
use vpg::data_expression::DataExpression;
use vpg::data_expression::DataVariable;
use vpg::data_expression::MachineNumber;
use vpg::data_expression::is_abstraction;
use vpg::data_expression::is_application;
use vpg::data_expression::is_data_expression;
use vpg::data_expression::is_function_symbol;
use vpg::data_expression::is_machine_number;
use vpg::data_expression::is_sort_expression;
use vpg::data_expression::is_untyped_identifier;
use vpg::data_expression::is_variable;
use vpg::data_expression::is_where_clause;

fn leaf(name: &str) -> ATerm {
    ATerm::new(String::from(name), Vec::new())
}

fn sort(name: &str) -> ATerm {
    ATerm::new(String::from("SortId"), vec![leaf(name)])
}

fn variable(name: &str, sort_name: &str) -> ATerm {
    ATerm::new(String::from("DataVarId"), vec![leaf(name), sort(sort_name)])
}

fn function_symbol(name: &str, sort_name: &str) -> ATerm {
    ATerm::new(String::from("OpId"), vec![leaf(name), sort(sort_name)])
}

#[test]
fn recognizers_accept_their_shapes() {
    assert!(is_variable(&variable("x", "Bool")));
    assert!(is_function_symbol(&function_symbol("plus", "Nat")));
    assert!(is_sort_expression(&sort("Bool")));

    let application = ATerm::new(
        String::from("DataAppl"),
        vec![function_symbol("plus", "Nat"), variable("x", "Nat"), variable("y", "Nat")],
    );
    assert!(is_application(&application));

    let abstraction = ATerm::new(
        String::from("Binder"),
        vec![leaf("lambda"), variable("x", "Bool"), variable("x", "Bool")],
    );
    assert!(is_abstraction(&abstraction));

    let whr = ATerm::new(
        String::from("Whr"),
        vec![variable("x", "Bool"), variable("y", "Bool")],
    );
    assert!(is_where_clause(&whr));

    assert!(is_machine_number(&leaf("MachineNumber")));
    assert!(is_untyped_identifier(&ATerm::new(
        String::from("UntypedIdentifier"),
        vec![leaf("x")]
    )));
}

#[test]
fn recognizers_reject_other_shapes() {
    assert!(!is_variable(&leaf("DataVarId")));
    assert!(!is_variable(&function_symbol("f", "Bool")));
    assert!(!is_application(&leaf("DataAppl")));
    assert!(!is_function_symbol(&variable("x", "Bool")));
    assert!(!is_data_expression(&sort("Bool")));
    assert!(is_data_expression(&variable("x", "Bool")));
}

#[test]
fn data_variable_accessors() {
    let var = DataVariable::new(variable("counter", "Nat"));
    assert_eq!(var.name().text(), "counter");
    assert_eq!(var.sort().name(), "Nat");
}

#[test]
fn data_expression_head_and_arguments() {
    let application = ATerm::new(
        String::from("DataAppl"),
        vec![function_symbol("plus", "Nat"), variable("x", "Nat"), variable("y", "Nat")],
    );
    let expr = DataExpression::new(application);
    assert_eq!(expr.data_function_symbol().name(), "plus");
    assert_eq!(expr.data_function_symbol().sort().name(), "Nat");
    let arguments = expr.data_arguments();
    assert_eq!(arguments.len(), 2);
    assert!(is_variable(arguments[0]));

    let symbol = DataExpression::new(function_symbol("zero", "Nat"));
    assert_eq!(symbol.data_function_symbol().name(), "zero");
    assert_eq!(symbol.data_arguments().len(), 0);
    assert_eq!(symbol.data_sort().name(), "Nat");
}

#[test]
fn data_application_accessors() {
    let application = DataApplication::new(ATerm::new(
        String::from("DataAppl"),
        vec![function_symbol("not", "Bool"), variable("b", "Bool")],
    ));
    assert_eq!(application.data_function_symbol().name(), "not");
    assert_eq!(application.data_arguments().len(), 1);
}

#[test]
fn machine_number_value() {
    let number = MachineNumber::new(leaf("MachineNumber"));
    assert_eq!(number.value(), 0);
}

#[test]
fn term_accessors() {
    let t = variable("x", "Bool");
    assert_eq!(t.function(), "DataVarId");
    assert_eq!(t.arity(), 2);
    assert_eq!(t.arg(0).function(), "x");
    let copy = t.duplicate();
    assert_eq!(copy.function(), "DataVarId");
    assert_eq!(copy.arg(1).function(), "SortId");
}

#[test]
fn term_lists() {
    let list = AtermList::new(vec![leaf("a"), leaf("b"), leaf("c")]);
    assert_eq!(list.len(), 3);
    assert!(!list.is_empty());
    assert_eq!(list.head().function(), "a");

    let tail = list.tail();
    assert_eq!(tail.len(), 2);
    assert_eq!(tail.head().function(), "b");

    let mut iter = tail.iter();
    assert_eq!(iter.next().unwrap().function(), "b");
    assert_eq!(iter.next().unwrap().function(), "c");
    assert!(iter.next().is_none());

    let items = AtermList::new(vec![leaf("x")]).to_vec();
    assert_eq!(items.len(), 1);
    assert_eq!(items[0].function(), "x");

    assert!(AtermList::new(Vec::new()).is_empty());
}
