use brane::macros::{
    exposed_fields, plan_task, FieldAttr, FieldShape, ItemKind, MetaTypeDeriveError, TaskFnShape,
    TaskMacroError, TaskParamShape,
};
use brane::text::to_decimal;
use brane::weaver::{
    codegen_backend, dylib_extension, find_module_by_name, is_std_runtime_file, listener_action,
    modules_kept_on_reload, rustc_args, versioned_artifact_name, CompileJob, ListenerAction,
    ServerMessageKind, TargetOs,
};

fn names(list: &[&str]) -> Vec<String> {
    list.iter().map(|s| s.to_string()).collect()
}

#[test]
fn decimal_text() {
    assert_eq!(to_decimal(0), "0");
    assert_eq!(to_decimal(7), "7");
    assert_eq!(to_decimal(1234567890), "1234567890");
    assert_eq!(to_decimal(u64::MAX), u64::MAX.to_string());
}

#[test]
fn artifact_names() {
    assert_eq!(dylib_extension(TargetOs::Windows), "dll");
    assert_eq!(dylib_extension(TargetOs::Linux), "so");
    assert_eq!(dylib_extension(TargetOs::MacOs), "dylib");
    assert_eq!(versioned_artifact_name("test_mod", 12, TargetOs::Linux), "test_mod_12.so");
    assert_eq!(versioned_artifact_name("m", 0, TargetOs::Windows), "m_0.dll");
    assert_eq!(codegen_backend(TargetOs::Linux), Some("cranelift"));
    assert_eq!(codegen_backend(TargetOs::Windows), None);
}

#[test]
fn module_lookup_and_reload() {
    let modules = names(&["a", "test_mod", "b", "test_mod"]);
    assert_eq!(find_module_by_name(&modules, &"test_mod".to_string()), Some(1));
    assert_eq!(find_module_by_name(&modules, &"c".to_string()), None);
    assert_eq!(modules_kept_on_reload(&modules, &"test_mod".to_string()), vec![0, 2]);
    assert_eq!(modules_kept_on_reload(&modules, &"z".to_string()), vec![0, 1, 2, 3]);
}

#[test]
fn rustc_command_line() {
    let job = CompileJob {
        source: "modules/m.rs".to_string(),
        output: "target/hotreload/m_0.so".to_string(),
        crate_name: "m".to_string(),
        extern_flags: vec![("brane_weaver".to_string(), "target/debug/libbrane_weaver.rlib".to_string())],
        search_paths: vec!["dependency=target/debug".to_string()],
        incremental_dir: "target/hotreload/incremental/m".to_string(),
    };
    let args = rustc_args(&job, Some("cranelift"));
    assert_eq!(
        args,
        names(&[
            "--edition",
            "2021",
            "--crate-type",
            "cdylib",
            "--crate-name",
            "m",
            "-C",
            "opt-level=0",
            "-C",
            "prefer-dynamic",
            "-C",
            "incremental=target/hotreload/incremental/m",
            "-Z",
            "codegen-backend=cranelift",
            "--extern",
            "brane_weaver=target/debug/libbrane_weaver.rlib",
            "-L",
            "dependency=target/debug",
            "-o",
            "target/hotreload/m_0.so",
            "modules/m.rs",
        ])
    );
    assert_eq!(rustc_args(&job, None).len(), args.len() - 2);
}

fn typed(is_ident: bool, is_queue: bool) -> TaskParamShape {
    TaskParamShape::Typed { is_ident, is_queue }
}

#[test]
fn task_macro_plans() {
    let ok = TaskFnShape { is_async: false, is_generic: false, is_variadic: false, params: vec![typed(true, false), typed(true, false)] };
    assert_eq!(plan_task(&ok), Ok(vec![0, 1]));
    let asynchronous = TaskFnShape { is_async: true, is_generic: true, is_variadic: false, params: vec![] };
    assert_eq!(plan_task(&asynchronous), Err(TaskMacroError::Async));
    let generic = TaskFnShape { is_async: false, is_generic: true, is_variadic: true, params: vec![] };
    assert_eq!(plan_task(&generic), Err(TaskMacroError::Generic));
    let with_self = TaskFnShape { is_async: false, is_generic: false, is_variadic: false, params: vec![typed(true, true), TaskParamShape::Receiver] };
    assert_eq!(plan_task(&with_self), Err(TaskMacroError::SelfParam(1)));
    let pattern = TaskFnShape { is_async: false, is_generic: false, is_variadic: false, params: vec![typed(false, false)] };
    assert_eq!(plan_task(&pattern), Err(TaskMacroError::NonIdentParam(0)));
    let queue = TaskFnShape { is_async: false, is_generic: false, is_variadic: false, params: vec![typed(true, false), typed(true, true), typed(true, true)] };
    assert_eq!(plan_task(&queue), Err(TaskMacroError::QueueParam(1)));
    assert_eq!(TaskMacroError::Async.message(), "`#[task]` functions cannot be `async`");
}

fn field(attrs: Vec<FieldAttr>, is_public: bool) -> FieldShape {
    FieldShape { attrs, is_public }
}

#[test]
fn meta_type_derive_plans() {
    let fields = vec![
        field(vec![], true),
        field(vec![FieldAttr::Other, FieldAttr::OpaqueBare], true),
        field(vec![], false),
        field(vec![FieldAttr::Other], true),
    ];
    assert_eq!(exposed_fields(ItemKind::Struct, &fields), Ok(vec![0, 3]));
    assert_eq!(exposed_fields(ItemKind::Enum, &fields), Err(MetaTypeDeriveError::NotAStructEnum));
    assert_eq!(exposed_fields(ItemKind::Union, &fields), Err(MetaTypeDeriveError::NotAStructUnion));
    let bad = vec![field(vec![], true), field(vec![FieldAttr::OpaqueWithArgs], false)];
    assert_eq!(exposed_fields(ItemKind::Struct, &bad), Err(MetaTypeDeriveError::OpaqueWithArgs(1)));
    assert_eq!(
        MetaTypeDeriveError::NotAStructUnion.message(),
        "`#[derive(MetaType)]` can only be used on structs, not unions"
    );
}

#[test]
fn listener_parses_only_text() {
    assert_eq!(listener_action(ServerMessageKind::Text), ListenerAction::Parse);
    assert_eq!(listener_action(ServerMessageKind::Binary), ListenerAction::Ignore);
    // Closes and pings carry no data and are skipped before they are looked at.
    assert_eq!(listener_action(ServerMessageKind::Close), ListenerAction::Ignore);
    assert_eq!(listener_action(ServerMessageKind::Ping), ListenerAction::Ignore);
    assert_eq!(listener_action(ServerMessageKind::Pong), ListenerAction::Ignore);
}

#[test]
fn std_runtime_files() {
    assert!(is_std_runtime_file("std-1234abcd.dll"));
    assert!(is_std_runtime_file("std-x.pdb"));
    assert!(!is_std_runtime_file("std-x.so"));
    assert!(!is_std_runtime_file("core-x.dll"));
    assert!(!is_std_runtime_file("std"));
    assert!(is_std_runtime_file("std-.dll"));
}
