use bacnet::ast::PrimitiveValue::Boolean;
use bacnet::ast::SequenceableValue::ContextValue;
use bacnet::ast::get_context_value;

#[test]
fn get_first_context_value() {
    assert_eq!(Some(&Boolean(true)), get_context_value(&vec![ContextValue(4, Boolean(true))], 4));
}

#[test]
fn get_second_context_value() {
    assert_eq!(
        Some(&Boolean(true)),
        get_context_value(
            &vec![ContextValue(2, Boolean(false)), ContextValue(4, Boolean(true))],
            4
        )
    );
}

#[test]
fn get_missing_context_value() {
    assert_eq!(
        None,
        get_context_value(
            &vec![ContextValue(2, Boolean(false)), ContextValue(3, Boolean(true))],
            4
        )
    );
}
