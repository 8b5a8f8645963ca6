//! The test doubles and bindings adapters generated for a feature, as
//! plans: every struct, field and method name, and every type qualified
//! where it lives. A plan is refused, naming the type, when a registered
//! type does not parse.

use vstd::prelude::*;

use crate::codegen::messages::texts;
use crate::codegen::plan::{BindingMeta, BindingMethodMeta, ExtraMethodMeta, PortMeta};
use crate::codegen::types::{overrides_view, parsed_type, qualify_type, rewritten, TypeTree, TypeView};
use crate::codegen::{pascal, pascal_case, snake, snake_case};

verus! {

/// The type written `text`, qualified; `None` when it is no type.
pub open spec fn qualified(
    feature: Seq<char>,
    text: Seq<char>,
    contracts_crate: Seq<char>,
    overrides: Seq<(Seq<char>, Seq<Seq<char>>)>,
) -> Option<TypeView> {
    match parsed_type(text) {
        Some(view) => Some(rewritten(feature, view, contracts_crate, overrides)),
        None => None,
    }
}

/// Whether every one of `list` is a type.
pub open spec fn all_parse(list: Seq<String>) -> bool {
    forall|k: int| 0 <= k < list.len() ==> (#[trigger] parsed_type(list[k]@)) is Some
}

/// Whether every type a port registers is a type: its message, and each
/// extra method's inputs and output.
pub open spec fn port_parses(port: PortMeta) -> bool {
    &&& parsed_type(port.msg_type_name@) is Some
    &&& forall|j: int| 0 <= j < port.extra_methods.len() ==> #[trigger] extra_parses(port.extra_methods@[j])
}

pub open spec fn extra_parses(method: ExtraMethodMeta) -> bool {
    &&& forall|k: int| 0 <= k < method.args.len() ==> (#[trigger] parsed_type(method.args@[k].1@)) is Some
    &&& (method.output_ty matches Some(out) ==> parsed_type(out@) is Some)
}

pub open spec fn binding_parses(binding: BindingMeta) -> bool {
    forall|j: int| 0 <= j < binding.methods.len() ==> all_parse(#[trigger] binding.methods@[j].arg_types@)
}

/// The names of `args`, in order.
pub open spec fn arg_names_of(args: Seq<(String, String)>) -> Seq<Seq<char>> {
    args.map_values(|arg: (String, String)| arg.0@)
}

/// The slot a bindings method fills in a test double or an adapter.
pub struct HandlerStub {
    pub name: String,
    pub emit_name: String,
    pub handler: String,
    pub arg_types: Vec<TypeTree>,
}

/// A `#[bindings]` trait's methods, as a double or an adapter implements
/// them.
pub struct BindingStub {
    pub trait_name: String,
    pub handlers: Vec<HandlerStub>,
}

/// A port method other than `send`: the closure a test installs, and how
/// often it was called.
pub struct ExtraStub {
    pub name: String,
    pub on_name: String,
    pub count: String,
    pub handler: String,
    pub arg_names: Vec<String>,
    pub arg_types: Vec<TypeTree>,
    pub output: Option<TypeTree>,
}

/// A `#[port]` trait, as a double implements it: what it records as sent.
pub struct PortStub {
    pub trait_name: String,
    pub sent: String,
    pub msg: TypeTree,
    pub extras: Vec<ExtraStub>,
}

/// The test double for a feature: one struct implementing every port and
/// bindings trait registered for it.
pub struct StubPlan {
    pub struct_name: String,
    pub state_name: String,
    pub ports: Vec<PortStub>,
    pub bindings: Vec<BindingStub>,
}

/// The bindings adapter for a feature.
pub struct AdapterPlan {
    pub struct_name: String,
    pub bindings: Vec<BindingStub>,
}

/// `types` are `list` qualified, one for one.
pub open spec fn qualified_all(
    types: Seq<TypeTree>,
    list: Seq<String>,
    feature: Seq<char>,
    contracts_crate: Seq<char>,
    overrides: Seq<(Seq<char>, Seq<Seq<char>>)>,
) -> bool {
    &&& types.len() == list.len()
    &&& forall|k: int| 0 <= k < types.len() ==> qualified(feature, list[k]@, contracts_crate, overrides) == Some(
        (#[trigger] types[k])@,
    )
}

pub open spec fn handler_for(
    stub: HandlerStub,
    method: BindingMethodMeta,
    feature: Seq<char>,
    contracts_crate: Seq<char>,
    overrides: Seq<(Seq<char>, Seq<Seq<char>>)>,
) -> bool {
    &&& stub.name@ == method.name@
    &&& stub.emit_name@ == "emit_"@ + method.name@
    &&& stub.handler@ == method.name@ + "_handler"@
    &&& qualified_all(stub.arg_types@, method.arg_types@, feature, contracts_crate, overrides)
}

pub open spec fn binding_for(
    stub: BindingStub,
    binding: BindingMeta,
    feature: Seq<char>,
    contracts_crate: Seq<char>,
    overrides: Seq<(Seq<char>, Seq<Seq<char>>)>,
) -> bool {
    &&& stub.trait_name@ == binding.trait_name@
    &&& stub.handlers.len() == binding.methods.len()
    &&& forall|j: int| 0 <= j < stub.handlers.len() ==> handler_for(
        #[trigger] stub.handlers@[j],
        binding.methods@[j],
        feature,
        contracts_crate,
        overrides,
    )
}

pub open spec fn extra_for(
    stub: ExtraStub,
    method: ExtraMethodMeta,
    prefix: Seq<char>,
    feature: Seq<char>,
    contracts_crate: Seq<char>,
    overrides: Seq<(Seq<char>, Seq<Seq<char>>)>,
) -> bool {
    &&& stub.name@ == method.name@
    &&& stub.on_name@ == "on_"@ + prefix + "_"@ + method.name@
    &&& stub.count@ == prefix + "_"@ + method.name@ + "_call_count"@
    &&& stub.handler@ == prefix + "_"@ + method.name@ + "_handler"@
    &&& texts(stub.arg_names@) == arg_names_of(method.args@)
    &&& stub.arg_types.len() == method.args.len()
    &&& forall|k: int| 0 <= k < stub.arg_types.len() ==> qualified(
        feature,
        method.args@[k].1@,
        contracts_crate,
        overrides,
    ) == Some((#[trigger] stub.arg_types@[k])@)
    &&& match method.output_ty {
        Some(out) => stub.output matches Some(t) && qualified(feature, out@, contracts_crate, overrides) == Some(t@),
        None => stub.output is None,
    }
}

pub open spec fn port_for(
    stub: PortStub,
    port: PortMeta,
    feature: Seq<char>,
    contracts_crate: Seq<char>,
    overrides: Seq<(Seq<char>, Seq<Seq<char>>)>,
) -> bool {
    let prefix = snake(port.trait_name@);
    &&& stub.trait_name@ == port.trait_name@
    &&& stub.sent@ == prefix + "_sent"@
    &&& qualified(feature, port.msg_type_name@, contracts_crate, overrides) == Some(stub.msg@)
    &&& stub.extras.len() == port.extra_methods.len()
    &&& forall|j: int| 0 <= j < stub.extras.len() ==> extra_for(
        #[trigger] stub.extras@[j],
        port.extra_methods@[j],
        prefix,
        feature,
        contracts_crate,
        overrides,
    )
}

fn qualify_list(
    feature: &str,
    list: &Vec<String>,
    contracts_crate: &str,
    overrides: &Vec<(String, Vec<String>)>,
) -> (r: Result<Vec<TypeTree>, String>)
    ensures
        r is Ok <==> all_parse(list@),
        r matches Ok(types) ==> qualified_all(types@, list@, feature@, contracts_crate@, overrides_view(overrides@)),
        r matches Err(text) ==> parsed_type(text@) is None,
{
    let mut out: Vec<TypeTree> = Vec::new();
    let mut k: usize = 0;
    while k < list.len()
        invariant
            k <= list.len(),
            out.len() == k,
            forall|j: int| 0 <= j < k ==> (#[trigger] parsed_type(list@[j]@)) is Some,
            forall|j: int| 0 <= j < k ==> qualified(feature@, list@[j]@, contracts_crate@, overrides_view(overrides@))
                == Some((#[trigger] out@[j])@),
        decreases list.len() - k,
    {
        match qualify_type(feature, list[k].as_str(), contracts_crate, overrides) {
            Some(t) => out.push(t),
            None => {
                return Err(list[k].clone());
            },
        }
        k = k + 1;
    }
    Ok(out)
}

fn handler_stub(
    feature: &str,
    method: &BindingMethodMeta,
    contracts_crate: &str,
    overrides: &Vec<(String, Vec<String>)>,
) -> (r: Result<HandlerStub, String>)
    ensures
        r is Ok <==> all_parse(method.arg_types@),
        r matches Ok(stub) ==> handler_for(stub, *method, feature@, contracts_crate@, overrides_view(overrides@)),
        r matches Err(text) ==> parsed_type(text@) is None,
{
    let arg_types = match qualify_list(feature, &method.arg_types, contracts_crate, overrides) {
        Ok(types) => types,
        Err(text) => {
            return Err(text);
        },
    };
    let mut emit_name = String::from_str("emit_");
    emit_name.append(method.name.as_str());
    let mut handler = method.name.clone();
    handler.append("_handler");
    Ok(HandlerStub { name: method.name.clone(), emit_name, handler, arg_types })
}

fn binding_stub(
    feature: &str,
    binding: &BindingMeta,
    contracts_crate: &str,
    overrides: &Vec<(String, Vec<String>)>,
) -> (r: Result<BindingStub, String>)
    ensures
        r is Ok <==> binding_parses(*binding),
        r matches Ok(stub) ==> binding_for(stub, *binding, feature@, contracts_crate@, overrides_view(overrides@)),
        r matches Err(text) ==> parsed_type(text@) is None,
{
    let mut handlers: Vec<HandlerStub> = Vec::new();
    let mut j: usize = 0;
    while j < binding.methods.len()
        invariant
            j <= binding.methods.len(),
            handlers.len() == j,
            forall|i: int| 0 <= i < j ==> all_parse(#[trigger] binding.methods@[i].arg_types@),
            forall|i: int| 0 <= i < j ==> handler_for(
                #[trigger] handlers@[i],
                binding.methods@[i],
                feature@,
                contracts_crate@,
                overrides_view(overrides@),
            ),
        decreases binding.methods.len() - j,
    {
        match handler_stub(feature, &binding.methods[j], contracts_crate, overrides) {
            Ok(stub) => handlers.push(stub),
            Err(text) => {
                return Err(text);
            },
        }
        j = j + 1;
    }
    Ok(BindingStub { trait_name: binding.trait_name.clone(), handlers })
}

fn extra_stub(
    feature: &str,
    prefix: &str,
    method: &ExtraMethodMeta,
    contracts_crate: &str,
    overrides: &Vec<(String, Vec<String>)>,
) -> (r: Result<ExtraStub, String>)
    ensures
        r is Ok <==> extra_parses(*method),
        r matches Ok(stub) ==> extra_for(stub, *method, prefix@, feature@, contracts_crate@, overrides_view(overrides@)),
        r matches Err(text) ==> parsed_type(text@) is None,
{
    let mut arg_names: Vec<String> = Vec::new();
    let mut arg_types: Vec<TypeTree> = Vec::new();
    let mut k: usize = 0;
    while k < method.args.len()
        invariant
            k <= method.args.len(),
            arg_types.len() == k,
            texts(arg_names@) == arg_names_of(method.args@).take(k as int),
            forall|i: int| 0 <= i < k ==> (#[trigger] parsed_type(method.args@[i].1@)) is Some,
            forall|i: int| 0 <= i < k ==> qualified(feature@, method.args@[i].1@, contracts_crate@, overrides_view(overrides@))
                == Some((#[trigger] arg_types@[i])@),
        decreases method.args.len() - k,
    {
        let ghost before = arg_names@;
        match qualify_type(feature, method.args[k].1.as_str(), contracts_crate, overrides) {
            Some(t) => arg_types.push(t),
            None => {
                return Err(method.args[k].1.clone());
            },
        }
        arg_names.push(method.args[k].0.clone());
        proof {
            assert(arg_names@ =~= before.push(method.args@[k as int].0));
            assert(texts(arg_names@) =~= texts(before).push(method.args@[k as int].0@));
            assert(texts(arg_names@) =~= arg_names_of(method.args@).take(k + 1));
        }
        k = k + 1;
    }
    proof {
        assert(arg_names_of(method.args@).take(k as int) =~= arg_names_of(method.args@));
    }
    let output = match &method.output_ty {
        Some(out) => match qualify_type(feature, out.as_str(), contracts_crate, overrides) {
            Some(t) => Some(t),
            None => {
                return Err(out.clone());
            },
        },
        None => None,
    };
    let mut on_name = String::from_str("on_");
    on_name.append(prefix);
    on_name.append("_");
    on_name.append(method.name.as_str());
    let mut count = String::from_str(prefix);
    count.append("_");
    count.append(method.name.as_str());
    count.append("_call_count");
    let mut handler = String::from_str(prefix);
    handler.append("_");
    handler.append(method.name.as_str());
    handler.append("_handler");
    Ok(ExtraStub { name: method.name.clone(), on_name, count, handler, arg_names, arg_types, output })
}

fn port_stub(
    feature: &str,
    port: &PortMeta,
    contracts_crate: &str,
    overrides: &Vec<(String, Vec<String>)>,
) -> (r: Result<PortStub, String>)
    ensures
        r is Ok <==> port_parses(*port),
        r matches Ok(stub) ==> port_for(stub, *port, feature@, contracts_crate@, overrides_view(overrides@)),
        r matches Err(text) ==> parsed_type(text@) is None,
{
    let prefix = snake_case(port.trait_name.as_str());
    let msg = match qualify_type(feature, port.msg_type_name.as_str(), contracts_crate, overrides) {
        Some(t) => t,
        None => {
            return Err(port.msg_type_name.clone());
        },
    };
    let mut extras: Vec<ExtraStub> = Vec::new();
    let mut j: usize = 0;
    while j < port.extra_methods.len()
        invariant
            j <= port.extra_methods.len(),
            extras.len() == j,
            prefix@ == snake(port.trait_name@),
            forall|i: int| 0 <= i < j ==> #[trigger] extra_parses(port.extra_methods@[i]),
            forall|i: int| 0 <= i < j ==> extra_for(
                #[trigger] extras@[i],
                port.extra_methods@[i],
                prefix@,
                feature@,
                contracts_crate@,
                overrides_view(overrides@),
            ),
        decreases port.extra_methods.len() - j,
    {
        match extra_stub(feature, prefix.as_str(), &port.extra_methods[j], contracts_crate, overrides) {
            Ok(stub) => extras.push(stub),
            Err(text) => {
                return Err(text);
            },
        }
        j = j + 1;
    }
    let mut sent = prefix.clone();
    sent.append("_sent");
    Ok(PortStub { trait_name: port.trait_name.clone(), sent, msg, extras })
}

fn binding_stubs(
    feature: &str,
    bindings: &Vec<BindingMeta>,
    contracts_crate: &str,
    overrides: &Vec<(String, Vec<String>)>,
) -> (r: Result<Vec<BindingStub>, String>)
    ensures
        r is Ok <==> forall|i: int| 0 <= i < bindings.len() ==> #[trigger] binding_parses(bindings@[i]),
        r matches Ok(stubs) ==> stubs.len() == bindings.len() && forall|i: int|
            0 <= i < stubs.len() ==> binding_for(
                #[trigger] stubs@[i],
                bindings@[i],
                feature@,
                contracts_crate@,
                overrides_view(overrides@),
            ),
        r matches Err(text) ==> parsed_type(text@) is None,
{
    let mut stubs: Vec<BindingStub> = Vec::new();
    let mut j: usize = 0;
    while j < bindings.len()
        invariant
            j <= bindings.len(),
            stubs.len() == j,
            forall|i: int| 0 <= i < j ==> #[trigger] binding_parses(bindings@[i]),
            forall|i: int| 0 <= i < j ==> binding_for(
                #[trigger] stubs@[i],
                bindings@[i],
                feature@,
                contracts_crate@,
                overrides_view(overrides@),
            ),
        decreases bindings.len() - j,
    {
        match binding_stub(feature, &bindings[j], contracts_crate, overrides) {
            Ok(stub) => stubs.push(stub),
            Err(text) => {
                return Err(text);
            },
        }
        j = j + 1;
    }
    Ok(stubs)
}

/// The test double for `feature`: `<Feature>UiStub`, with its state in
/// `<Feature>UiStubState`, recording what each port sends and keeping each
/// bindings handler; every registered type qualified where it lives. An
/// error, naming the type, when a registered type does not parse.
pub fn stub_plan(
    feature: &str,
    ports: &Vec<PortMeta>,
    bindings: &Vec<BindingMeta>,
    contracts_crate: &str,
    overrides: &Vec<(String, Vec<String>)>,
) -> (r: Result<StubPlan, String>)
    ensures
        r is Ok <==> (forall|i: int| 0 <= i < ports.len() ==> #[trigger] port_parses(ports@[i])) && (forall|i: int|
            0 <= i < bindings.len() ==> #[trigger] binding_parses(bindings@[i])),
        r matches Ok(plan) ==> {
            &&& plan.struct_name@ == pascal(feature@) + "UiStub"@
            &&& plan.state_name@ == pascal(feature@) + "UiStubState"@
            &&& plan.ports.len() == ports.len()
            &&& forall|i: int| 0 <= i < plan.ports.len() ==> port_for(
                #[trigger] plan.ports@[i],
                ports@[i],
                feature@,
                contracts_crate@,
                overrides_view(overrides@),
            )
            &&& plan.bindings.len() == bindings.len()
            &&& forall|i: int| 0 <= i < plan.bindings.len() ==> binding_for(
                #[trigger] plan.bindings@[i],
                bindings@[i],
                feature@,
                contracts_crate@,
                overrides_view(overrides@),
            )
        },
        r matches Err(text) ==> parsed_type(text@) is None,
{
    let mut port_stubs: Vec<PortStub> = Vec::new();
    let mut j: usize = 0;
    while j < ports.len()
        invariant
            j <= ports.len(),
            port_stubs.len() == j,
            forall|i: int| 0 <= i < j ==> #[trigger] port_parses(ports@[i]),
            forall|i: int| 0 <= i < j ==> port_for(
                #[trigger] port_stubs@[i],
                ports@[i],
                feature@,
                contracts_crate@,
                overrides_view(overrides@),
            ),
        decreases ports.len() - j,
    {
        match port_stub(feature, &ports[j], contracts_crate, overrides) {
            Ok(stub) => port_stubs.push(stub),
            Err(text) => {
                return Err(text);
            },
        }
        j = j + 1;
    }
    let binding_list = match binding_stubs(feature, bindings, contracts_crate, overrides) {
        Ok(list) => list,
        Err(text) => {
            return Err(text);
        },
    };
    let mut struct_name = pascal_case(feature);
    struct_name.append("UiStub");
    let mut state_name = struct_name.clone();
    state_name.append("State");
    proof {
        reveal_strlit("UiStub");
        reveal_strlit("State");
        reveal_strlit("UiStubState");
        assert(state_name@ =~= pascal(feature@) + "UiStubState"@);
    }
    Ok(StubPlan { struct_name, state_name, ports: port_stubs, bindings: binding_list })
}

/// The bindings adapter for `feature`: `<Feature>Bindings`, keeping one
/// handler per bindings method, every registered type qualified where it
/// lives. An error, naming the type, when a registered type does not parse.
pub fn adapter_plan(
    feature: &str,
    bindings: &Vec<BindingMeta>,
    contracts_crate: &str,
    overrides: &Vec<(String, Vec<String>)>,
) -> (r: Result<AdapterPlan, String>)
    ensures
        r is Ok <==> forall|i: int| 0 <= i < bindings.len() ==> #[trigger] binding_parses(bindings@[i]),
        r matches Ok(plan) ==> {
            &&& plan.struct_name@ == pascal(feature@) + "Bindings"@
            &&& plan.bindings.len() == bindings.len()
            &&& forall|i: int| 0 <= i < plan.bindings.len() ==> binding_for(
                #[trigger] plan.bindings@[i],
                bindings@[i],
                feature@,
                contracts_crate@,
                overrides_view(overrides@),
            )
        },
        r matches Err(text) ==> parsed_type(text@) is None,
{
    let list = match binding_stubs(feature, bindings, contracts_crate, overrides) {
        Ok(list) => list,
        Err(text) => {
            return Err(text);
        },
    };
    let mut struct_name = pascal_case(feature);
    struct_name.append("Bindings");
    Ok(AdapterPlan { struct_name, bindings: list })
}

} // verus!
