use guinea::codegen::messages::{parse_locale_messages, parse_messages, Element, FluentEntry, FluentExpr, Inline, L10nMessage};
use guinea::codegen::{accessor_name, capability_const, feature_from_trait_name, is_std_type, pascal_case, snake_case, to_snake_case};
use guinea::codegen::ftl::{messages_of_text, parse_ftl};

#[test]
fn names_go_to_snake_case() {
    assert_eq!(to_snake_case("ServiceDetails"), "service_details");
    assert_eq!(to_snake_case("processes"), "processes");
    assert_eq!(to_snake_case("ÄbcDef"), "Äbc_def", "a non-ASCII capital is kept as it is");
    assert_eq!(snake_case("UiPort"), "ui_port");
}

#[test]
fn names_go_to_pascal_case() {
    assert_eq!(pascal_case("service_details"), "ServiceDetails");
    assert_eq!(pascal_case("processes"), "Processes");
    assert_eq!(pascal_case("a__b_"), "AB");
    assert_eq!(pascal_case("straße"), "Straße");
    assert_eq!(pascal_case("ßig"), "SSig");
}

#[test]
fn a_trait_names_its_feature() {
    assert_eq!(feature_from_trait_name("UiProcessesPort"), "processes");
    assert_eq!(feature_from_trait_name("UiServiceDetailsPort"), "services");
    assert_eq!(feature_from_trait_name("ProcessListActions"), "process_list");
    assert_eq!(feature_from_trait_name("UiSettingsBindings"), "settings");
    assert_eq!(feature_from_trait_name("Plain"), "plain");
}

#[test]
fn std_types_are_known() {
    for name in ["bool", "u8", "usize", "f64", "String", "str", "Vec", "Option", "Box", "Result"] {
        assert!(is_std_type(name), "{name}");
    }
    assert!(!is_std_type("Process"));
    assert!(!is_std_type("string"));
}

fn var(name: &str) -> Inline {
    Inline::Variable(name.to_string())
}

fn placeable(expression: FluentExpr) -> Element {
    Element::Placeable(expression)
}

fn message(id: &str, value: Option<Vec<Element>>) -> FluentEntry {
    FluentEntry::Message { id: id.to_string(), value }
}

fn found(id: &str, variables: &[&str]) -> L10nMessage {
    L10nMessage {
        id: id.to_string(),
        variables: variables.iter().map(|v| v.to_string()).collect(),
    }
}

#[test]
fn plain_message_has_no_variables_from_entries() {
    // hello-world = Hello, World!
    let entries = vec![message("hello-world", Some(vec![Element::Text]))];
    assert_eq!(parse_messages(&entries), [found("hello-world", &[])]);
}

#[test]
fn placeable_variable_is_collected_from_entries() {
    // welcome = Welcome, { $userName }.
    let entries = vec![message(
        "welcome",
        Some(vec![Element::Text, placeable(FluentExpr::Inline(var("userName"))), Element::Text]),
    )];
    assert_eq!(parse_messages(&entries), [found("welcome", &["userName"])]);
}

#[test]
fn selector_and_variant_variables_are_all_collected_once_each_from_entries() {
    // emails = { $count ->
    //     [one] { $count } email
    //    *[other] { $count } emails, from { $sender }
    // }
    let entries = vec![message(
        "emails",
        Some(vec![placeable(FluentExpr::Select {
            selector: var("count"),
            variants: vec![
                vec![placeable(FluentExpr::Inline(var("count"))), Element::Text],
                vec![
                    placeable(FluentExpr::Inline(var("count"))),
                    Element::Text,
                    placeable(FluentExpr::Inline(var("sender"))),
                ],
            ],
        })]),
    )];
    let messages = parse_messages(&entries);
    assert_eq!(messages.len(), 1);
    assert_eq!(messages[0].id, "emails");
    assert_eq!(messages[0].variables, vec!["count".to_string(), "sender".to_string()]);
}

#[test]
fn variables_come_in_first_seen_order() {
    let entries = vec![message(
        "shared",
        Some(vec![
            placeable(FluentExpr::Inline(var("b"))),
            placeable(FluentExpr::Inline(Inline::Call(vec![var("a"), var("b"), Inline::Plain]))),
            placeable(FluentExpr::Inline(Inline::Nested(Box::new(FluentExpr::Inline(var("c")))))),
        ]),
    )];
    assert_eq!(parse_messages(&entries), [found("shared", &["b", "a", "c"])]);
}

#[test]
fn non_message_entries_are_skipped_from_entries() {
    // -brand-name = Nightly
    // ## a comment
    // real-message = Value
    let entries = vec![FluentEntry::Other, FluentEntry::Other, message("real-message", Some(vec![Element::Text]))];
    assert_eq!(parse_messages(&entries), [found("real-message", &[])]);
}

#[test]
fn messages_come_by_id() {
    let entries = vec![
        message("zeta", None),
        FluentEntry::Other,
        message("alpha", Some(vec![Element::Text])),
    ];
    assert_eq!(parse_messages(&entries), [found("alpha", &[]), found("zeta", &[])]);
}

#[test]
fn every_file_of_a_locale_is_merged_by_id() {
    let files = vec![
        vec![message("menu-quit", None), message("app-title", None)],
        vec![message("b-second", None)],
    ];
    let ids: Vec<String> = parse_locale_messages(&files).into_iter().map(|m| m.id).collect();
    assert_eq!(ids, ["app-title", "b-second", "menu-quit"]);
}

#[test]
fn plain_message_has_no_variables() {
    let messages = messages_of_text("hello-world = Hello, World!\n").unwrap();
    assert_eq!(messages, vec![L10nMessage { id: "hello-world".into(), variables: vec![] }]);
}

#[test]
fn placeable_variable_is_collected() {
    let messages = messages_of_text("welcome = Welcome, { $userName }.\n").unwrap();
    assert_eq!(messages, vec![L10nMessage { id: "welcome".into(), variables: vec!["userName".into()] }]);
}

#[test]
fn selector_and_variant_variables_are_all_collected_once_each() {
    let messages = messages_of_text(
        "emails = { $count ->\n    [one] { $count } email\n   *[other] { $count } emails, from { $sender }\n}\n",
    )
    .unwrap();
    assert_eq!(messages.len(), 1);
    assert_eq!(messages[0].id, "emails");
    assert_eq!(messages[0].variables, vec!["count".to_string(), "sender".to_string()]);
}

#[test]
fn non_message_entries_are_skipped() {
    let messages = messages_of_text("-brand-name = Nightly\n## a comment\nreal-message = Value\n").unwrap();
    assert_eq!(messages, vec![L10nMessage { id: "real-message".into(), variables: vec![] }]);
}

#[test]
fn function_arguments_and_term_arguments_are_read() {
    let messages =
        messages_of_text("due = { DATETIME($when, $later) } by { $who } { $when }\n").unwrap();
    assert_eq!(messages[0].variables, vec!["when".to_string(), "later".to_string(), "who".to_string()]);
}

#[test]
fn a_text_that_does_not_parse_is_refused() {
    assert!(messages_of_text("= no id here\n").is_err());
    assert!(parse_ftl("valid = yes\n").is_ok());
}

#[test]
fn parsed_entries_keep_their_order_and_kind() {
    let entries = parse_ftl("b = B\n-term = T\na = A { $x }\n").unwrap();
    assert_eq!(entries.len(), 3);
    assert!(matches!(entries[1], FluentEntry::Other));
    let ids: Vec<String> = messages_of_text("b = B\n-term = T\na = A { $x }\n").unwrap().into_iter().map(|m| m.id).collect();
    assert_eq!(ids, ["a", "b"]);
}

use guinea::codegen::plan::{
    binding_registration, dispatch_plan, handler_arg_types, port_registration, AttrDecl, BindingMeta,
    BindingMethodMeta, BoundDecl, ExtraMethodMeta, InputDecl, MethodDecl, NestedDecl, PortMeta, PredicateDecl,
    TraitDecl,
};
use guinea::codegen::stubs::{adapter_plan, stub_plan};
use guinea::codegen::types::{parse_type, qualify_type, render_type, rewrite_type};

fn qualified_text(ty: &str, overrides: &Vec<(String, Vec<String>)>) -> String {
    render_type(&qualify_type("processes", ty, "contracts", overrides).unwrap())
}

#[test]
fn bare_type_names_go_to_the_feature_module() {
    let none = Vec::new();
    assert_eq!(qualified_text("ProcessRow", &none), "contracts::features::processes::ProcessRow");
    assert_eq!(qualified_text("Vec<ProcessRow>", &none), "Vec<contracts::features::processes::ProcessRow>");
    assert_eq!(
        qualified_text("Option<Result<Pid, String>>", &none),
        "Option<Result<contracts::features::processes::Pid, String>>"
    );
    assert_eq!(qualified_text("&[Pid]", &none), "&[contracts::features::processes::Pid]");
    assert_eq!(qualified_text("u32", &none), "u32");
    assert_eq!(qualified_text("SharedString", &none), "slint::SharedString");
    assert_eq!(qualified_text("(u32, bool)", &none), "(u32 , bool)");
}

#[test]
fn overrides_are_asked_first_and_keep_the_arguments() {
    let overrides = vec![
        ("Pid".to_string(), vec!["sysinfo".to_string(), "Pid".to_string()]),
        ("Pid".to_string(), vec!["other".to_string(), "Pid".to_string()]),
        ("Page".to_string(), vec!["crate".to_string(), "paging".to_string(), "Page".to_string()]),
    ];
    assert_eq!(qualified_text("Pid", &overrides), "sysinfo::Pid");
    assert_eq!(qualified_text("Page<Pid>", &overrides), "crate::paging::Page<sysinfo::Pid>");
    assert_eq!(qualified_text("Row", &overrides), "contracts::features::processes::Row");
}

#[test]
fn text_that_is_no_type_is_refused() {
    assert!(parse_type("not a type !").is_none());
    assert!(qualify_type("f", "Vec<", "c", &Vec::new()).is_none());
    let ty = parse_type("std::vec::Vec<u8>").unwrap();
    assert_eq!(render_type(&ty), "std::vec::Vec<u8>");
    assert_eq!(render_type(&rewrite_type("f", &ty, "c", &Vec::new())), "c::features::f::std");
}

fn method(name: &str) -> MethodDecl {
    MethodDecl { name: name.to_string(), inputs: vec![], output: None, attrs: vec![], predicates: vec![] }
}

fn handler_bound(trait_name: &str, inputs: &[&str]) -> PredicateDecl {
    PredicateDecl {
        bounded: Some("F".to_string()),
        bounds: vec![
            BoundDecl { last: Some("Send".to_string()), inputs: None },
            BoundDecl { last: Some(trait_name.to_string()), inputs: Some(inputs.iter().map(|s| s.to_string()).collect()) },
        ],
    }
}

#[test]
fn handler_arguments_come_from_the_closure_bound_on_f() {
    let mut m = method("on_terminate");
    m.predicates = vec![
        PredicateDecl { bounded: Some("G".to_string()), bounds: vec![] },
        handler_bound("FnMut", &["Vec < u32 >", "String"]),
    ];
    assert_eq!(handler_arg_types(&m), vec!["Vec<u32>".to_string(), "String".to_string()]);
    let mut other = method("on_other");
    other.predicates = vec![handler_bound("Into", &["u8"])];
    assert!(handler_arg_types(&other).is_empty());
    assert!(handler_arg_types(&method("plain")).is_empty());
}

fn nested(key: &str, text: Option<&str>) -> NestedDecl {
    NestedDecl { key: Some(key.to_string()), assigned: text.is_some(), text: text.map(str::to_string), listed: false }
}

fn attr(name: &str, items: Vec<NestedDecl>) -> AttrDecl {
    AttrDecl { name: Some(name.to_string()), nested: items }
}

#[test]
fn bindings_registration_reads_each_method_and_its_attributes() {
    let mut m = method("on_sort_by");
    m.predicates = vec![handler_bound("Fn", &["String"])];
    m.attrs = vec![
        attr("manual", vec![]),
        attr("tracing", vec![nested("skip", None), nested("target", Some("ui"))]),
        attr("slint", vec![nested("name", Some("sort-by")), nested("skip", None)]),
        attr("slint", vec![nested("arg_types", Some(" string , int"))]),
        attr("slint", vec![nested("skip", None)]),
    ];
    let decl = TraitDecl { name: "UiProcessesBindings".to_string(), methods: vec![m, method("on_refresh")] };
    let meta = binding_registration(&decl);
    assert_eq!(meta.feature, "processes");
    assert_eq!(meta.methods.len(), 2);
    let first = &meta.methods[0];
    assert_eq!(first.arg_types, vec!["String".to_string()]);
    assert!(first.is_manual && first.tracing_skip);
    assert_eq!(first.tracing_target.as_deref(), Some("ui"));
    assert_eq!(first.slint_name.as_deref(), Some("sort-by"));
    assert_eq!(first.slint_arg_types, Some(vec!["string".to_string(), "int".to_string()]));
    assert!(first.slint_skip);
    assert!(first.slint_global_override.is_none());
    assert!(!meta.methods[1].is_manual && meta.methods[1].slint_name.is_none());
}

#[test]
fn port_registration_names_the_message_and_the_other_methods() {
    let mut send = method("send");
    send.inputs = vec![InputDecl { name: Some("msg".to_string()), ty: "ProcessesMsg".to_string() }];
    let mut query = method("selected");
    query.inputs = vec![
        InputDecl { name: Some("row".to_string()), ty: "Vec < u32 >".to_string() },
        InputDecl { name: None, ty: "bool".to_string() },
    ];
    query.output = Some("Option < Pid >".to_string());
    let decl = TraitDecl { name: "UiProcessesPort".to_string(), methods: vec![query, send] };
    let r = port_registration(&decl);
    assert_eq!(r.meta.feature, "processes");
    assert_eq!(r.meta.msg_type_name, "ProcessesMsg");
    assert_eq!(r.msg_type.as_deref(), Some("ProcessesMsg"));
    assert_eq!(r.pin_fn, "__assert_UiProcessesPort_shape");
    assert_eq!(r.meta.extra_methods.len(), 1);
    let extra = &r.meta.extra_methods[0];
    assert_eq!(extra.args, vec![("row".to_string(), "Vec<u32>".to_string()), ("arg".to_string(), "bool".to_string())]);
    assert_eq!(extra.output_ty.as_deref(), Some("Option<Pid>"));
}

#[test]
fn the_dispatch_adapter_has_a_slot_per_method() {
    let mut m = method("on_terminate");
    m.predicates = vec![handler_bound("Fn", &["u32"])];
    let plan = dispatch_plan(&TraitDecl { name: "ProcessBindings".to_string(), methods: vec![m] });
    assert_eq!(plan.struct_name, "ProcessDispatch");
    assert_eq!(plan.slots[0].emit_name, "emit_on_terminate");
    assert_eq!(plan.slots[0].field, "on_terminate_handler");
    assert_eq!(plan.slots[0].arg_types, vec!["u32".to_string()]);
}

fn binding_method(name: &str, arg_types: &[&str]) -> BindingMethodMeta {
    BindingMethodMeta {
        name: name.to_string(),
        arg_types: arg_types.iter().map(|s| s.to_string()).collect(),
        is_manual: false,
        tracing_skip: false,
        tracing_target: None,
        slint_name: None,
        slint_arg_types: None,
        slint_global_override: None,
        slint_skip: false,
        slint_import: None,
    }
}

#[test]
fn a_feature_stub_plans_every_port_and_binding() {
    let ports = vec![PortMeta {
        trait_name: "UiProcessesPort".to_string(),
        msg_type_name: "ProcessesMsg".to_string(),
        feature: "processes".to_string(),
        extra_methods: vec![ExtraMethodMeta {
            name: "selected".to_string(),
            args: vec![("row".to_string(), "u32".to_string())],
            output_ty: Some("Option<Pid>".to_string()),
        }],
    }];
    let bindings = vec![BindingMeta {
        trait_name: "ProcessBindings".to_string(),
        feature: "processes".to_string(),
        methods: vec![binding_method("on_terminate", &["Pid"]), binding_method("on_sort_by", &["String"])],
    }];
    let plan = stub_plan("processes", &ports, &bindings, "contracts", &Vec::new()).ok().unwrap();
    assert_eq!(plan.struct_name, "ProcessesUiStub");
    assert_eq!(plan.state_name, "ProcessesUiStubState");
    let port = &plan.ports[0];
    assert_eq!(port.sent, "ui_processes_port_sent");
    assert_eq!(render_type(&port.msg), "contracts::features::processes::ProcessesMsg");
    let extra = &port.extras[0];
    assert_eq!(extra.on_name, "on_ui_processes_port_selected");
    assert_eq!(extra.count, "ui_processes_port_selected_call_count");
    assert_eq!(extra.handler, "ui_processes_port_selected_handler");
    assert_eq!(render_type(extra.output.as_ref().unwrap()), "Option<contracts::features::processes::Pid>");
    let handler = &plan.bindings[0].handlers[0];
    assert_eq!(handler.emit_name, "emit_on_terminate");
    assert_eq!(handler.handler, "on_terminate_handler");
    assert_eq!(render_type(&handler.arg_types[0]), "contracts::features::processes::Pid");

    let adapter = adapter_plan("processes", &bindings, "contracts", &Vec::new()).ok().unwrap();
    assert_eq!(adapter.struct_name, "ProcessesBindings");
    assert_eq!(render_type(&adapter.bindings[0].handlers[1].arg_types[0]), "String");
}

#[test]
fn a_type_that_does_not_parse_refuses_the_plan_and_names_it() {
    let bindings = vec![BindingMeta {
        trait_name: "ProcessBindings".to_string(),
        feature: "processes".to_string(),
        methods: vec![binding_method("on_terminate", &["Vec<"])],
    }];
    assert_eq!(adapter_plan("processes", &bindings, "contracts", &Vec::new()).err(), Some("Vec<".to_string()));
    assert!(stub_plan("processes", &Vec::new(), &bindings, "contracts", &Vec::new()).is_err());
}

#[test]
fn reading_an_attribute_stops_after_a_value_it_does_not_ask_for() {
    let mut m = method("on_pick");
    m.attrs = vec![attr("slint", vec![nested("name", Some("pick")), nested("skip", None), nested("import", Some("x"))])];
    let meta = binding_registration(&TraitDecl { name: "PickBindings".to_string(), methods: vec![m] });
    assert_eq!(meta.methods[0].slint_name.as_deref(), Some("pick"));
    assert!(!meta.methods[0].slint_skip);
    assert!(meta.methods[0].slint_import.is_none());
}

#[test]
fn names_come_from_ids_and_keys() {
    assert_eq!(accessor_name("menu-quit.label"), "menu_quit_label");
    assert_eq!(accessor_name("hello"), "hello");
    assert_eq!(capability_const("ui.clipboard-read"), "UI_CLIPBOARD_READ");
}

#[test]
fn a_path_through_a_qualified_self_stays_as_written() {
    let text = "<T as Trait>::Output";
    let parsed = render_type(&parse_type(text).unwrap());
    assert_eq!(render_type(&qualify_type("f", text, "c", &Vec::new()).unwrap()), parsed);
}
