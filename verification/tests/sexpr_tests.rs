use minischeme::sexpr::{Environment, Memory, Object, SExpr};

fn i(x: i64) -> SExpr {
    SExpr::Int(x)
}

#[test]
fn test_env() {
    let mut mem = Memory::new(100);

    let mut env1 = Environment::new(SExpr::Nil);
    env1.insert(b"test".to_vec(), i(1));
    let env1r = mem.allocate(Object::Env(env1)).unwrap();

    assert_eq!(mem.env_get(b"test", &env1r).unwrap(), i(1));

    let env2 = Environment::new(env1r.duplicate());
    let env2r = mem.allocate(Object::Env(env2)).unwrap();

    assert_eq!(mem.env_get(b"test", &env2r).unwrap(), i(1));

    let mut env3 = Environment::new(env1r.duplicate());
    env3.insert(b"test".to_vec(), i(2));
    let env3r = mem.allocate(Object::Env(env3)).unwrap();

    assert_eq!(mem.env_get(b"test", &env3r).unwrap(), i(2));
}

#[test]
fn test_string() {
    let mut mem = Memory::new(100);
    let list = mem.list_from_vec(vec![i(1), i(2), i(3)]).unwrap();
    assert_eq!(mem.to_string(&list), b"(1 2 3)".to_vec());
    let pair = mem.cons(i(1), i(2)).unwrap();
    assert_eq!(mem.to_string(&pair), b"(1 . 2)".to_vec());
}
