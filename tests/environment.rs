use starql::environment::Environment;
use starql::number::Number;
use starql::value::Value;

fn num(n: i64) -> Value {
    Value::Number(Number::from_int(n))
}

#[test]
fn test_get_set() {
    let name = "hi";
    let mut env = Environment::new(None);
    // getting a name without setting should return error
    assert!(matches!(env.get(name), Err(_)));

    env.define(name, num(1)).unwrap();
    let res = env.get(name).unwrap();
    assert_eq!(res, num(1));

    assert!(matches!(env.define(name, num(1)), Err(_)));
}

#[test]
fn test_scop() {
    let name1 = "hi";
    let name2 = "bye";
    let name3 = "okay";
    let mut global = Environment::new(None);
    global.define(name1, num(1)).unwrap();
    global.define(name2, num(2)).unwrap();
    assert_eq!(global.get(name1).unwrap(), num(1));
    assert_eq!(global.get(name2).unwrap(), num(2));

    let mut local = Environment::new(Some(&global));
    local.define(name1, Value::Bool(false)).unwrap();
    assert_eq!(local.get(name1).unwrap(), Value::Bool(false));
    assert_eq!(local.get(name2).unwrap(), num(2));
    local.define(name3, num(3)).unwrap();
    assert_eq!(local.get(name3).unwrap(), num(3));
    // the parent is untouched
    assert_eq!(global.get(name1).unwrap(), num(1));
    assert!(matches!(global.get(name3), Err(_)));
}

#[test]
fn nested_scope_shadows_without_changing_parent() {
    let mut env = Environment::new(None);
    env.define("x", num(5)).unwrap();
    env.push_scope();
    env.define("x", num(6)).unwrap();
    assert_eq!(env.get("x").unwrap(), num(6));
    env.pop_scope();
    assert_eq!(env.get("x").unwrap(), num(5));
    env.pop_scope();
    assert_eq!(env.get("x").unwrap(), num(5));
}
