use jsonrpsee_core::error::Error;
use jsonrpsee_core::module::{RpcContextModule, RpcModule};

#[test]
fn rpc_context_modules_can_merge_with_rpc_module() {
    // A context-bearing module accepts the methods of a plain one.
    let cx = Vec::<u8>::new();
    let mut cxmodule = RpcContextModule::new(cx);
    cxmodule.register_method("bla with context").unwrap();
    let mut module = RpcModule::new();
    module.register_method("bla").unwrap();

    cxmodule.merge(&module).unwrap();
    let mut cx_methods = cxmodule.into_methods().names();
    cx_methods.sort();
    assert_eq!(cx_methods, vec!["bla".to_string(), "bla with context".to_string()]);
}

#[test]
fn rpc_context_modules_can_register_subscriptions() {
    let cx = ();
    let mut cxmodule = RpcContextModule::new(cx);
    let _subscription = cxmodule.register_subscription("hi", "goodbye");

    let methods = cxmodule.into_methods().names();
    assert!(methods.contains(&"hi".to_string()));
    assert!(methods.contains(&"goodbye".to_string()));
}

#[test]
fn registering_a_method_twice_fails_and_changes_nothing() {
    let mut module = RpcModule::new();
    module.register_method("m").unwrap();
    let err = module.register_method("m").unwrap_err();
    match err {
        Error::MethodAlreadyRegistered(name) => assert_eq!(name, "m"),
        _ => panic!("wrong error variant"),
    }
    let names = module.into_methods().names();
    assert_eq!(names, vec!["m".to_string()]);
}

#[test]
fn subscription_names_must_differ() {
    let mut module = RpcModule::new();
    let err = module.register_subscription("s", "s").unwrap_err();
    match err {
        Error::SubscriptionNameConflict(name) => assert_eq!(name, "s"),
        _ => panic!("wrong error variant"),
    }
    assert_eq!(module.into_methods().names().len(), 0);
}

#[test]
fn merge_collision_moves_nothing() {
    let mut a = RpcModule::new();
    a.register_method("m").unwrap();
    a.register_method("only_a").unwrap();
    let mut b = RpcModule::new();
    b.register_method("m").unwrap();
    b.register_method("only_b").unwrap();

    let err = a.merge(&b).unwrap_err();
    assert!(matches!(err, Error::MethodAlreadyRegistered(_)));

    let mut a_names = a.into_methods().names();
    a_names.sort();
    assert_eq!(a_names, vec!["m".to_string(), "only_a".to_string()]);
    let mut b_names = b.into_methods().names();
    b_names.sort();
    assert_eq!(b_names, vec!["m".to_string(), "only_b".to_string()]);
}

#[test]
fn merge_without_collision_brings_methods_over() {
    let mut a = RpcModule::new();
    a.register_method("alpha").unwrap();
    let mut b = RpcModule::new();
    b.register_method("beta").unwrap();
    b.register_subscription("sub", "unsub").unwrap();
    a.merge(&b).unwrap();
    let mut names = a.into_methods().names();
    names.sort();
    assert_eq!(
        names,
        vec!["alpha".to_string(), "beta".to_string(), "sub".to_string(), "unsub".to_string()]
    );
}

#[test]
fn error_messages_name_the_failure() {
    let e = Error::InvalidParams;
    assert_eq!(e.message(), "invalid parameters");
    let e = Error::Internal;
    assert_eq!(e.message(), "connection closed");
    let e = Error::MethodAlreadyRegistered("m".to_string());
    assert_eq!(e.message(), "method already registered: m");
    let e = Error::SubscriptionNameConflict("s".to_string());
    assert_eq!(e.message(), "subscribe and unsubscribe names are equal: s");
}

#[test]
fn with_context_keeps_the_registry() {
    let mut module = RpcModule::new();
    module.register_method("m").unwrap();
    let cxmodule = module.with_context(7u32);
    assert_eq!(*cxmodule.context(), 7);
    let names = cxmodule.into_methods().names();
    assert_eq!(names, vec!["m".to_string()]);
}
