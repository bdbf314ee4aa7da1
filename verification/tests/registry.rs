use openmobisim_core::registry::{Registry, RegistryError};

/// A stand-in plugin point: something built from a parameter struct.
type Model = Box<dyn Fn(f64) -> f64 + Send + Sync>;

/// What a name resolves to: a constructor of models.
type Ctor = Box<dyn Fn(&Params) -> Result<Model, RegistryError> + Send + Sync>;

#[derive(Clone, Copy)]
struct Params {
    scale: f64,
}

fn expect_err(result: Result<Model, RegistryError>) -> RegistryError {
    match result {
        Ok(_) => panic!("expected the registry to refuse this"),
        Err(e) => e,
    }
}

fn registry() -> Registry<Ctor> {
    let mut reg: Registry<Ctor> = Registry::new("choice_model");
    reg.register(
        "deterministic",
        Box::new(|p: &Params| {
            let k = p.scale;
            Ok(Box::new(move |x: f64| k * x) as Model)
        }),
    )
    .unwrap();
    reg.register(
        "mnl",
        Box::new(|p: &Params| {
            if p.scale <= 0.0 {
                return Err(RegistryError::construction(
                    "choice_model",
                    "mnl",
                    "scale must be positive",
                ));
            }
            let k = p.scale;
            Ok(Box::new(move |x: f64| (k * x).exp()) as Model)
        }),
    )
    .unwrap();
    reg
}

fn identity() -> Ctor {
    Box::new(|_: &Params| Ok(Box::new(|x: f64| x) as Model))
}

#[test]
fn resolves_to_a_concrete_callable() {
    let built = registry().resolve("deterministic", &Params { scale: 3.0 }).unwrap();
    assert_eq!(built(2.0), 6.0);
}

#[test]
fn names_are_sorted_and_independent_of_registration_order() {
    let mut a: Registry<Ctor> = Registry::new("p");
    a.register("zulu", identity()).unwrap();
    a.register("alpha", identity()).unwrap();

    let mut b: Registry<Ctor> = Registry::new("p");
    b.register("alpha", identity()).unwrap();
    b.register("zulu", identity()).unwrap();

    assert_eq!(a.names(), ["alpha", "zulu"]);
    assert_eq!(a.names(), b.names());
}

#[test]
fn an_unknown_name_lists_the_alternatives() {
    let err = expect_err(registry().resolve("nested_logit", &Params { scale: 1.0 }));
    match &err {
        RegistryError::UnknownName { point, requested, available } => {
            assert_eq!(*point, "choice_model");
            assert_eq!(requested, "nested_logit");
            assert_eq!(available, &["deterministic".to_owned(), "mnl".to_owned()]);
        }
        other => panic!("wrong error: {other:?}"),
    }
    let message = err.to_string();
    assert!(message.contains("nested_logit"), "{message}");
    assert!(message.contains("deterministic"), "{message}");
    assert_eq!(
        message,
        "unknown choice_model plugin \"nested_logit\"; available: \"deterministic\", \"mnl\""
    );
}

#[test]
fn registering_a_name_twice_is_refused() {
    let mut reg = registry();
    let err = reg.register("mnl", identity()).unwrap_err();
    assert!(matches!(err, RegistryError::DuplicateName { .. }), "{err:?}");
    assert_eq!(err.to_string(), "choice_model plugin \"mnl\" is registered twice");
    assert_eq!(reg.len(), 2);
}

#[test]
fn a_constructor_may_reject_its_parameters_at_build_time() {
    let err = expect_err(registry().resolve("mnl", &Params { scale: -1.0 }));
    assert!(matches!(err, RegistryError::Construction { .. }), "{err:?}");
    assert!(err.to_string().contains("scale must be positive"));
}

#[test]
fn an_empty_registry_says_so() {
    let reg: Registry<Ctor> = Registry::new("fleet_policy");
    assert!(reg.is_empty());
    assert_eq!(reg.len(), 0);
    assert!(!reg.contains("anything"));
    assert_eq!(reg.point(), "fleet_policy");
    let err = expect_err(reg.resolve("anything", &Params { scale: 1.0 }));
    assert!(err.to_string().contains("none registered"), "{err}", err = err.to_string());
}

#[test]
fn names_with_quotes_are_escaped_in_messages() {
    let reg: Registry<Ctor> = Registry::new("p");
    let err = expect_err(reg.resolve("a\"b", &Params { scale: 1.0 }));
    assert_eq!(err.to_string(), "unknown p plugin \"a\\\"b\"; available: (none registered)");
}

#[test]
fn each_name_keeps_the_constructor_registered_under_it() {
    let constant = |c: f64| -> Ctor { Box::new(move |_: &Params| Ok(Box::new(move |_: f64| c) as Model)) };
    let mut reg: Registry<Ctor> = Registry::new("choice_model");
    reg.register("m", constant(1.0)).unwrap();
    reg.register("c", constant(2.0)).unwrap();
    reg.register("x", constant(3.0)).unwrap();
    reg.register("a", constant(4.0)).unwrap();
    assert!(reg.register("c", constant(9.0)).is_err());
    let p = Params { scale: 1.0 };
    for (name, value) in [("a", 4.0), ("c", 2.0), ("m", 1.0), ("x", 3.0)] {
        let built = reg.resolve(name, &p).unwrap();
        assert_eq!(built(0.0), value, "{name}");
    }
}
