use mal::env::Env;
use mal::types::MalType;

fn number(v: &Option<MalType>) -> Option<i64> {
    match v {
        Some(MalType::Number(n)) => Some(*n),
        _ => None,
    }
}

#[test]
fn test_find() {
    let mut env = Env::new(Vec::new());
    let inner = env.child(0, Vec::new());

    env.set(inner, "a", MalType::Number(1));
    env.set(0, "b", MalType::Number(2));

    println!("{:?}", env.find(inner, "a"));
    println!("{:?}", env.find(inner, "b"));
    assert_eq!(number(&env.find(inner, "a")), Some(1));
    assert_eq!(number(&env.find(inner, "b")), Some(2));
    assert!(env.find(0, "a").is_none());
}

#[test]
fn unbound_name_in_fresh_env_is_absent() {
    let env = Env::new(Vec::new());
    assert!(env.find(0, "anything").is_none());
}

#[test]
fn set_replaces_value() {
    let mut env = Env::new(vec![("x".to_string(), MalType::Number(1))]);
    env.set(0, "x", MalType::Number(7));
    assert_eq!(number(&env.find(0, "x")), Some(7));
}

#[test]
fn sibling_scopes_share_parent() {
    let mut env = Env::new(Vec::new());
    env.set(0, "g", MalType::Number(3));
    let a = env.child(0, vec![("x".to_string(), MalType::Number(1))]);
    let b = env.child(0, Vec::new());
    assert_eq!(number(&env.find(a, "g")), Some(3));
    assert_eq!(number(&env.find(b, "g")), Some(3));
    assert!(env.find(b, "x").is_none());
    assert_eq!(env.root(a), 0);
}
