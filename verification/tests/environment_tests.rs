use blockpipe::value::Value;
use blockpipe::environment::Environment;

#[test]
fn add_frame() {
    let mut stack = Environment::new();
    stack.push_stack_frame();
}

#[test]
fn rm_frame() {
    let mut stack = Environment::new();
    stack.push_stack_frame();
    assert_eq!(stack.pop_stack_frame(), Ok(()));
}

#[test]
fn lookup() {
    let mut stack = Environment::new();
    stack.push_stack_frame();
    stack.bind("a".to_owned(), Value::Boolean(true));
    let value = stack.lookup(&"a".to_owned());
    assert_eq!(value, Some(Value::Boolean(true)));
    assert_eq!(stack.pop_stack_frame(), Ok(()));
}

#[test]
fn shadow() {
    let mut stack = Environment::new();
    stack.push_stack_frame();

    stack.bind("a".to_owned(), Value::Boolean(true));
    let value = stack.lookup(&"a".to_owned());
    assert_eq!(value, Some(Value::Boolean(true)));

    stack.bind("a".to_owned(), Value::Float((1.0f64).to_bits()));
    let value = stack.lookup(&"a".to_owned());
    assert_eq!(value, Some(Value::Float((1.0f64).to_bits())));

    stack.push_stack_frame();
    stack.bind("a".to_owned(), Value::Integer(2));
    let value = stack.lookup(&"a".to_owned());
    assert_eq!(value, Some(Value::Integer(2)));

    assert_eq!(stack.pop_stack_frame(), Ok(()));
    let value = stack.lookup(&"a".to_owned());
    assert_eq!(value, Some(Value::Float((1.0f64).to_bits())));
}

#[test]
fn unbind() {
    // an inner frame shadows, and popping it restores the outer binding
    let mut stack = Environment::new();
    stack.push_stack_frame();

    stack.bind("a".to_owned(), Value::Boolean(true));
    let value = stack.lookup(&"a".to_owned());
    assert_eq!(value, Some(Value::Boolean(true)));

    stack.push_stack_frame();
    stack.bind("a".to_owned(), Value::Float((1.0f64).to_bits()));
    let value = stack.lookup(&"a".to_owned());
    assert_eq!(value, Some(Value::Float((1.0f64).to_bits())));

    assert_eq!(stack.pop_stack_frame(), Ok(()));
    let value = stack.lookup(&"a".to_owned());
    assert_eq!(value, Some(Value::Boolean(true)));
}

#[test]
fn lookup_binding() {
    let mut stack = Environment::new();
    stack.push_stack_frame();
    stack.bind("x".to_owned(), Value::Integer(20));
    stack.bind("y".to_owned(), Value::Integer(30));
    assert_eq!(stack.lookup(&"x".to_owned()), Some(Value::Integer(20)));
    assert_eq!(stack.lookup(&"y".to_owned()), Some(Value::Integer(30)));
}

#[test]
fn popping_removes_names_bound_in_the_frame() {
    let mut stack = Environment::new();
    stack.push_stack_frame();
    stack.push_stack_frame();
    stack.bind("only_inner".to_owned(), Value::Integer(7));
    assert_eq!(stack.pop_stack_frame(), Ok(()));
    assert_eq!(stack.lookup(&"only_inner".to_owned()), None);
}

#[test]
fn popping_without_a_frame_fails() {
    let mut stack = Environment::new();
    assert_eq!(stack.pop_stack_frame(), Err(()));
}

#[test]
fn image_holds_the_innermost_values() {
    let mut stack = Environment::new();
    stack.push_stack_frame();
    stack.bind("a".to_owned(), Value::Integer(1));
    stack.push_stack_frame();
    stack.bind("a".to_owned(), Value::Integer(2));
    stack.bind("b".to_owned(), Value::Integer(3));
    let image = stack.image();
    assert_eq!(image.len(), 2);
    let mut saw_a = false;
    let mut saw_b = false;
    for (name, value) in image.iter() {
        if name == "a" {
            assert_eq!(value, &Value::Integer(2));
            saw_a = true;
        }
        if name == "b" {
            assert_eq!(value, &Value::Integer(3));
            saw_b = true;
        }
    }
    assert!(saw_a && saw_b);
}
