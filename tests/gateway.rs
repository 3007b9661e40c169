use pingora_pool::registry::{
    get_module, get_module_id, get_module_name, modules, register_module, Gizmo, Module,
    ModuleId, ModuleRegistry, RegisterError,
};

#[test]
pub fn test() {
    println!("Hello")
}

#[test]
pub fn test_register_gizmo() {
    let mut registry = ModuleRegistry::new();
    assert_eq!(register_module(&mut registry, Gizmo::new().module()), Ok(()));
}

#[test]
pub fn test_modules() {
    let mut registry = ModuleRegistry::new();
    register_module(&mut registry, Gizmo::new().module()).unwrap();
    for x in modules(&registry) {
        println!("module -> {x}")
    }
    assert_eq!(modules(&registry), vec!["foo.gizmo".to_string()]);
}

#[test]
pub fn test_get_module() {
    let mut registry = ModuleRegistry::new();
    register_module(&mut registry, Gizmo::new().module()).unwrap();
    let m = get_module(&registry, "foo.gizmo");
    match m {
        Some(module) => {
            println!("success:{:?}->{:?}", module.id.namespace(), module.id.name());
            assert_eq!(module.id.namespace(), Some("foo"));
            assert_eq!(module.id.name(), Some("gizmo"));
        }
        None => {
            panic!("failed")
        }
    }
}

#[test]
pub fn test_get_module_name() {
    let mut registry = ModuleRegistry::new();
    register_module(&mut registry, Gizmo::new().module()).unwrap();
    let m = get_module(&registry, "foo.gizmo");
    println!("get module name : {:?}", get_module_name(&m.unwrap()));
    let m = get_module(&registry, "foo.gizmo").unwrap();
    assert_eq!(get_module_name(&m), Some("gizmo".to_string()));
    assert_eq!(get_module_id(&m), Some("foo.gizmo".to_string()));
}

#[test]
pub fn test_serve_http() {
    let mut registry = ModuleRegistry::new();
    register_module(&mut registry, Gizmo::new().module()).unwrap();
    for x in modules(&registry) {
        if get_module(&registry, x.as_str()).is_some() {
            let gizmo = Gizmo::new();
            gizmo.provision();
            gizmo.validate();
            gizmo.cleanup();
        }
    }
}

#[test]
fn gizmo_registers_under_its_id() {
    assert_eq!(Gizmo::new().module().id.0, "foo.gizmo");
}

#[test]
fn unknown_module_is_absent() {
    let registry = ModuleRegistry::new();
    assert!(get_module(&registry, "foo.gizmo").is_none());
}

#[test]
fn registration_errors() {
    let mut registry = ModuleRegistry::new();
    assert_eq!(
        register_module(&mut registry, pingora_pool::registry::ModuleInfo { id: ModuleId(String::new()) }),
        Err(RegisterError::MissingId)
    );
    assert_eq!(
        register_module(
            &mut registry,
            pingora_pool::registry::ModuleInfo { id: ModuleId("http.admin".to_string()) }
        ),
        Err(RegisterError::Reserved)
    );
    register_module(&mut registry, Gizmo::new().module()).unwrap();
    assert_eq!(
        register_module(&mut registry, Gizmo::new().module()),
        Err(RegisterError::AlreadyRegistered)
    );
    assert_eq!(modules(&registry).len(), 1);
}

#[test]
fn registration_keeps_order() {
    let mut registry = ModuleRegistry::new();
    for id in ["http.handlers.file_server", "http", "caddy.logging.encoders.json"] {
        register_module(
            &mut registry,
            pingora_pool::registry::ModuleInfo { id: ModuleId(id.to_string()) },
        )
        .unwrap();
    }
    assert_eq!(
        modules(&registry),
        vec![
            "http.handlers.file_server".to_string(),
            "http".to_string(),
            "caddy.logging.encoders.json".to_string()
        ]
    );
}

#[test]
fn module_id_labels() {
    let id = ModuleId("http.handlers.file_server".to_string());
    assert_eq!(id.namespace(), Some("http.handlers"));
    assert_eq!(id.name(), Some("file_server"));
    let top = ModuleId("http".to_string());
    assert_eq!(top.namespace(), Some(""));
    assert_eq!(top.name(), Some("http"));
    assert_eq!(ModuleId(String::new()).name(), None);
}
