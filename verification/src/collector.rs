//! The resource attributes that go with every export: the service, the
//! process instance, the host and the SDK, after the OpenTelemetry
//! conventions.
use vstd::prelude::*;
use vstd::string::StringExecFns;

verus! {

/// What is known of the running process, found once per process.
pub struct ProcessAttributes {
    /// The name of the host running this process.
    pub hostname: String,
    /// The name the process was started by, where known.
    pub command: Option<String>,
    /// An id drawn at process start, in its text form.
    pub instance: String,
}

/// The name of the service: the one given, else one made from the command
/// the process was started by, else a name for an unknown service.
pub open spec fn service_name_text(service: Option<Seq<char>>, command: Option<Seq<char>>) -> Seq<char> {
    match (service, command) {
        (Some(svc), _) => svc,
        (None, Some(cli)) => "unknown_service:"@ + cli,
        (None, None) => "unknown_service"@,
    }
}

/// The view of an optional string.
pub open spec fn opt_text(s: Option<&str>) -> Option<Seq<char>> {
    match s {
        Some(t) => Some(t@),
        None => None,
    }
}

/// The view of an optional owned string.
pub open spec fn opt_string_text(s: Option<String>) -> Option<Seq<char>> {
    match s {
        Some(t) => Some(t@),
        None => None,
    }
}

/// The resource attributes, as (key, value) pairs, in the order they are
/// exported.
pub open spec fn resource_attribute_text(
    service: Option<Seq<char>>,
    command: Option<Seq<char>>,
    instance: Seq<char>,
    hostname: Seq<char>,
) -> Seq<(Seq<char>, Seq<char>)> {
    let base = seq![
        ("service.name"@, service_name_text(service, command)),
        ("service.instance.id"@, instance),
        ("host.name"@, hostname),
        ("telemetry.sdk.language"@, "rust"@),
        ("telemetry.sdk.name"@, "metrics64"@),
    ];
    match command {
        Some(cli) => base.push(("process.executable.name"@, cli)),
        None => base,
    }
}

/// The resource attributes name the executable exactly when the process has
/// a command, whether a service was given or not, and the service decides
/// nothing but the value of `service.name`: the attributes for two services
/// differ in that value alone.
pub proof fn lemma_resource_attributes_executable(
    service: Option<Seq<char>>,
    other_service: Option<Seq<char>>,
    command: Option<Seq<char>>,
    instance: Seq<char>,
    hostname: Seq<char>,
    cli: Seq<char>,
)
    ensures
        resource_attribute_text(service, command, instance, hostname).contains(
            ("process.executable.name"@, cli),
        ) <==> command == Some(cli),
        resource_attribute_text(service, command, instance, hostname).len() == (if command is Some {
            6int
        } else {
            5int
        }),
        ({
            let a = resource_attribute_text(service, command, instance, hostname);
            let b = resource_attribute_text(other_service, command, instance, hostname);
            &&& a.len() == b.len()
            &&& a[0].0 == "service.name"@
            &&& a[0].1 == service_name_text(service, command)
            &&& forall|i: int| 1 <= i < a.len() ==> a[i] == b[i]
        }),
{
    reveal_strlit("process.executable.name");
    reveal_strlit("service.name");
    reveal_strlit("service.instance.id");
    reveal_strlit("host.name");
    reveal_strlit("telemetry.sdk.language");
    reveal_strlit("telemetry.sdk.name");
    let a = resource_attribute_text(service, command, instance, hostname);
    let key = "process.executable.name"@;
    assert(key.len() == 23);
    assert("service.name"@.len() == 12);
    assert("service.instance.id"@.len() == 19);
    assert("host.name"@.len() == 9);
    assert("telemetry.sdk.language"@.len() == 22);
    assert("telemetry.sdk.name"@.len() == 18);
    if a.contains((key, cli)) {
        let j = choose|j: int| 0 <= j < a.len() && a[j] == (key, cli);
        assert(j == 5);
    }
    if command == Some(cli) {
        assert(a[5] == (key, cli));
    }
}

/// The name of the service: the one given, else one made from the command
/// the process was started by, else a name for an unknown service.
pub fn service_name(service: Option<&str>, command: Option<&str>) -> (name: String)
    ensures
        name@ == service_name_text(opt_text(service), opt_text(command)),
{
    match (service, command) {
        (Some(svc), _) => svc.to_owned(),
        (None, Some(cli)) => {
            let mut name = "unknown_service:".to_owned();
            name.append(cli);
            name
        },
        (None, None) => "unknown_service".to_owned(),
    }
}

/// The resource attributes of the process, as (key, value) pairs, in the
/// order they are exported.
pub fn resource_attributes(service: Option<&str>, proc_attr: &ProcessAttributes) -> (attrs: Vec<
    (String, String),
>)
    ensures
        attrs@.map_values(|p: (String, String)| (p.0@, p.1@)) == resource_attribute_text(
            opt_text(service),
            opt_string_text(proc_attr.command),
            proc_attr.instance@,
            proc_attr.hostname@,
        ),
        forall|cli: Seq<char>|
            #![auto]
            resource_attribute_text(
                opt_text(service),
                opt_string_text(proc_attr.command),
                proc_attr.instance@,
                proc_attr.hostname@,
            ).contains(("process.executable.name"@, cli)) <==> opt_string_text(proc_attr.command)
                == Some(cli),
{
    let command: Option<&str> = match &proc_attr.command {
        Some(c) => Some(c.as_str()),
        None => None,
    };
    let svc_name = service_name(service, command);
    let mut attrs: Vec<(String, String)> = Vec::new();
    attrs.push(("service.name".to_owned(), svc_name));
    attrs.push(("service.instance.id".to_owned(), proc_attr.instance.clone()));
    attrs.push(("host.name".to_owned(), proc_attr.hostname.clone()));
    attrs.push(("telemetry.sdk.language".to_owned(), "rust".to_owned()));
    attrs.push(("telemetry.sdk.name".to_owned(), "metrics64".to_owned()));
    if let Some(cli) = &proc_attr.command {
        attrs.push(("process.executable.name".to_owned(), cli.clone()));
    }
    let ghost text = resource_attribute_text(
        opt_text(service),
        opt_string_text(proc_attr.command),
        proc_attr.instance@,
        proc_attr.hostname@,
    );
    assert(attrs@.map_values(|p: (String, String)| (p.0@, p.1@)) =~= text);
    assert forall|cli: Seq<char>|
        #![auto]
        text.contains(("process.executable.name"@, cli)) <==> opt_string_text(proc_attr.command) == Some(
            cli,
        ) by {
        lemma_resource_attributes_executable(
            opt_text(service),
            opt_text(service),
            opt_string_text(proc_attr.command),
            proc_attr.instance@,
            proc_attr.hostname@,
            cli,
        );
    }
    attrs
}

} // verus!
