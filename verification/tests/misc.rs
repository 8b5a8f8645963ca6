use guinea::app::{route_changed, run_steps, tell_route_hooks, AppMeta, GuineaApp, Install, Unsupported};
use guinea::lifecycle::leaks;
use guinea::guard::{Ask, Decision, Resume, Verdict};
use guinea::load::{Load, PageStatus};
use guinea::names::shorten;
use guinea::test_kit::{Interaction, PortSpy, Stabilizer};

fn kinds(steps: &[Install<&'static str>]) -> Vec<String> {
    steps
        .iter()
        .map(|step| match step {
            Install::Meta(meta) => format!("meta:{}", meta.identifier),
            Install::Service(s) => format!("service:{s}"),
            Install::Register(s) => format!("register:{s}"),
            Install::Ready(s) => format!("ready:{s}"),
        })
        .collect()
}

#[test]
fn meta_declared_after_a_plugin_is_still_installed_first() {
    let steps = GuineaApp::new()
        .plugin("needs-meta")
        .on_ready("hook")
        .provide("windows")
        .feature("startup")
        .meta(AppMeta::new("Test", "dev.uniproc.test", "1.2.3", "uniproc"))
        .install();
    assert_eq!(
        kinds(&steps),
        [
            "meta:dev.uniproc.test",
            "service:windows",
            "register:needs-meta",
            "register:startup",
            "ready:hook"
        ]
    );
}

#[test]
fn an_application_without_meta_installs_its_registrations_in_order() {
    let steps = GuineaApp::new().plugin("a").plugin("b").install();
    assert_eq!(kinds(&steps), ["register:a", "register:b"]);
    let meta = AppMeta::new("Processes", "dev.uniproc.processes", "0.1.0", "uniproc");
    assert_eq!(meta.name, "Processes");
    assert_eq!(meta.publisher, "uniproc");
    assert_eq!(Unsupported.message(), "the shell does not support this");
}

#[test]
fn an_answer_reaches_whoever_was_waiting() {
    let mut decision = Decision::new();
    assert_eq!(decision.on_answer(), Resume::Nothing);
    assert_eq!(decision.allow(), Resume::Tell(true));
    assert!(decision.is_settled());
}

#[test]
fn an_answer_that_arrived_first_is_not_lost() {
    let mut decision = Decision::new();
    assert_eq!(decision.block(), Resume::Nothing);
    assert_eq!(decision.on_answer(), Resume::Tell(false), "a guard may settle its own token before it returns");
}

#[test]
fn a_second_answer_changes_nothing() {
    let mut decision = Decision::new();
    decision.on_answer();
    assert_eq!(decision.allow(), Resume::Tell(true));
    assert_eq!(decision.block(), Resume::Nothing, "a dialog closed twice must not answer twice");
    assert_eq!(decision, Decision::Settled(true));
}

#[test]
fn a_question_is_three_strings() {
    let ask = Ask::new("Discard changes?", "Discard", String::from("Keep"));
    assert_eq!(ask.text, "Discard changes?");
    assert_eq!(ask.confirm, "Discard");
    assert_eq!(ask.cancel, "Keep");
}

#[test]
fn a_load_says_where_it_stands() {
    let ready: Load<u32> = Load::Ready(4);
    assert_eq!(ready.ready(), Some(&4));
    assert!(!ready.is_loading());
    assert!(ready.error().is_none());

    let loading: Load<u32> = Load::default();
    assert!(loading.is_loading());
    assert!(loading.ready().is_none());

    let failed: Load<u32> = Load::failed(std::io::Error::other("offline"));
    assert_eq!(failed.error().map(|err| err.to_string()), Some("offline".to_string()));
    assert!(failed.ready().is_none());
    assert_eq!(PageStatus::default(), PageStatus::Inactive);
}

struct Harness(usize);

impl Stabilizer for Harness {
    /// This harness queues no work of its own: once asked, it is settled.
    fn settled(&self) -> bool {
        self.0 > 0
    }

    fn stabilize(&mut self) {
        self.0 += 1;
    }
}

#[derive(Clone, Debug, PartialEq)]
enum Ui {
    Items(Vec<&'static str>),
}

#[test]
fn a_spy_records_what_went_through_the_port() {
    let mut spy = PortSpy::<Ui>::new();
    spy.record(Ui::Items(vec!["sshd", "cron"]));

    assert_eq!(spy.count(), 1);
    assert_eq!(spy.last().now(), Some(Ui::Items(vec!["sshd", "cron"])));
    assert_eq!(spy.count(), 0);

    spy.record(Ui::Items(vec![]));
    spy.record(Ui::Items(vec!["a"]));
    let mut harness = Harness(0);
    assert_eq!(spy.take().stabilize(&mut harness).len(), 2);
    assert_eq!(harness.0, 1);
    assert!(harness.settled());
    assert_eq!(Interaction::new(3).now(), 3);
}

#[test]
fn a_type_name_is_cut_down_to_its_module_and_itself() {
    assert_eq!(shorten("guinea_core::actor::shape::Channel"), "shape::Channel");
    assert_eq!(shorten("shape::Channel"), "shape::Channel");
    assert_eq!(shorten("u32"), "u32");
}

#[test]
fn a_navigation_hands_back_where_the_application_was() {
    let mut last: Option<String> = None;
    assert_eq!(route_changed(&mut last, "/processes"), None);
    assert_eq!(last.as_deref(), Some("/processes"));
    assert_eq!(route_changed(&mut last, "/settings").as_deref(), Some("/processes"));
    assert_eq!(last.as_deref(), Some("/settings"));
}

#[test]
fn an_address_kept_past_shutdown_is_reported_with_who_holds_it() {
    let counted = vec![("Owned", 1usize), ("Kept", 3), ("Once", 2)];
    assert_eq!(leaks(&counted), vec![("Kept", 2), ("Once", 1)]);
    assert!(leaks(&Vec::new()).is_empty());
}

#[test]
fn a_question_starts_unanswered() {
    let verdict = Verdict::ask(Ask::new("Unsaved changes", "Leave", "Stay"));
    match verdict {
        Verdict::Ask(ask, decision) => {
            assert_eq!(ask.text, "Unsaved changes");
            assert_eq!(decision, Decision::Open);
            assert!(!decision.is_settled());
        }
        _ => panic!("a question was asked"),
    }
}

#[test]
fn each_route_hook_hears_where_the_application_was_and_is() {
    let heard = std::rc::Rc::new(std::cell::RefCell::new(Vec::<(usize, Option<String>, String)>::new()));
    let hooks: Vec<Box<dyn Fn(Option<&str>, &str)>> = (0..2)
        .map(|n| {
            let heard = heard.clone();
            Box::new(move |from: Option<&str>, to: &str| {
                heard.borrow_mut().push((n, from.map(str::to_string), to.to_string()))
            }) as Box<dyn Fn(Option<&str>, &str)>
        })
        .collect();
    let mut last = None;
    tell_route_hooks(&hooks, &mut last, "/processes");
    tell_route_hooks(&hooks, &mut last, "/settings");
    assert_eq!(
        *heard.borrow(),
        vec![
            (0, None, "/processes".to_string()),
            (1, None, "/processes".to_string()),
            (0, Some("/processes".to_string()), "/settings".to_string()),
            (1, Some("/processes".to_string()), "/settings".to_string()),
        ]
    );
    assert_eq!(last.as_deref(), Some("/settings"));
}

#[test]
fn a_failing_step_stops_the_rest() {
    let run = |step: i32, mut seen: Vec<i32>| {
        seen.push(step);
        if step < 0 { (seen, Some(format!("step {step} failed"))) } else { (seen, None) }
    };
    let (seen, done, error) = run_steps(vec![1, 2, -3, 4, 5], Vec::new(), run);
    assert_eq!(seen, vec![1, 2, -3]);
    assert_eq!(done, 2);
    assert_eq!(error.as_deref(), Some("step -3 failed"));

    let (seen, done, error) = run_steps(vec![1, 2], Vec::new(), run);
    assert_eq!((seen, done, error), (vec![1, 2], 2, None));
}
