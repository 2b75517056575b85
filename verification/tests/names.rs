use proc_macro2::Ident;
use proc_macro2::Span;
use rtfm_sched::capacity::capacity_literal;
use rtfm_sched::capacity::capacity_typenum;
use rtfm_sched::capacity::checked_next_power_of_two;
use rtfm_sched::ident::check_identifier;
use rtfm_sched::ident::Name;
use rtfm_sched::names::cfg_core;
use rtfm_sched::names::fq_ident;
use rtfm_sched::names::init_barrier;
use rtfm_sched::names::inputs_ident;
use rtfm_sched::names::instants_ident;
use rtfm_sched::names::late_resources_ident;
use rtfm_sched::names::locals_ident;
use rtfm_sched::names::rendezvous_ident;
use rtfm_sched::names::resources_ident;
use rtfm_sched::names::rq_ident;
use rtfm_sched::names::schedule_ident;
use rtfm_sched::names::schedule_t_ident;
use rtfm_sched::names::spawn_barrier;
use rtfm_sched::names::spawn_ident;
use rtfm_sched::names::spawn_t_ident;
use rtfm_sched::names::tq_ident;
use rtfm_sched::names::App;
use rtfm_sched::names::Context;
use rtfm_sched::text::decimal_string;
use rtfm_sched::text::push_decimal;

fn name(text: &str) -> Name {
    Name::new(text).unwrap()
}

fn two_core_app() -> App {
    App {
        inits: vec![Some(name("init_0")), Some(name("init_1"))],
        idles: vec![None, Some(name("idle_1"))],
    }
}

#[test]
fn name_accepts_identifiers_only() {
    assert!(Name::new("foo").is_some());
    assert!(Name::new("_x9").is_some());
    assert!(Name::new("__").is_some());
    assert!(Name::new("_").is_none());
    assert!(Name::new("Z").is_some());
    assert!(Name::new("").is_none());
    assert!(Name::new("9x").is_none());
    assert!(Name::new("a-b").is_none());
    assert!(Name::new("a b").is_none());
    assert!(Name::new("r#fn").is_none());
    assert!(Name::new("t\u{e2}che").is_none());
}

#[test]
fn check_identifier_tells_the_character_classes_apart() {
    assert!(check_identifier("a"));
    assert!(check_identifier("_a"));
    assert!(check_identifier("_0"));
    assert!(!check_identifier("_"));
    assert!(!check_identifier(""));
    assert!(check_identifier("az_AZ_09"));
    assert!(!check_identifier("0a"));
    assert!(!check_identifier("a@"));
    assert!(!check_identifier("a["));
    assert!(!check_identifier("a`"));
    assert!(!check_identifier("a{"));
    assert!(!check_identifier("a/"));
    assert!(!check_identifier("a:"));
}

#[test]
fn name_round_trips_through_ident() {
    let id = Ident::new("task_a", Span::call_site());
    let name = Name::from_ident(&id).unwrap();
    assert_eq!(name.as_str(), "task_a");
    assert_eq!(name.to_ident(), id);
    assert_eq!(name.to_ident().to_string(), "task_a");
}

#[test]
fn raw_identifier_is_no_name() {
    let id = Ident::new_raw("loop", Span::call_site());
    assert_eq!(id.to_string(), "r#loop");
    assert!(Name::from_ident(&id).is_none());
}

#[test]
fn keyword_is_a_name() {
    let id = Ident::new("loop", Span::call_site());
    let name = Name::from_ident(&id).unwrap();
    assert_eq!(name.to_ident().to_string(), "loop");
}

#[test]
fn decimal_notation() {
    assert_eq!(decimal_string(0), "0");
    assert_eq!(decimal_string(7), "7");
    assert_eq!(decimal_string(10), "10");
    assert_eq!(decimal_string(255), "255");
    assert_eq!(decimal_string(1_000_000), "1000000");
    assert_eq!(decimal_string(90_210), "90210");
}

#[test]
fn push_decimal_appends() {
    let mut text = String::from("x");
    push_decimal(&mut text, 42);
    push_decimal(&mut text, 0);
    assert_eq!(text, "x420");
}

#[test]
fn next_power_of_two_in_eight_bits() {
    assert_eq!(checked_next_power_of_two(0), Some(1));
    assert_eq!(checked_next_power_of_two(1), Some(1));
    assert_eq!(checked_next_power_of_two(2), Some(2));
    assert_eq!(checked_next_power_of_two(3), Some(4));
    assert_eq!(checked_next_power_of_two(5), Some(8));
    assert_eq!(checked_next_power_of_two(64), Some(64));
    assert_eq!(checked_next_power_of_two(65), Some(128));
    assert_eq!(checked_next_power_of_two(128), Some(128));
    assert_eq!(checked_next_power_of_two(129), None);
    assert_eq!(checked_next_power_of_two(255), None);
}

#[test]
fn next_power_of_two_agrees_with_std() {
    for n in 0..=255u8 {
        assert_eq!(checked_next_power_of_two(n), n.checked_next_power_of_two());
    }
}

#[test]
fn capacity_literal_is_unsuffixed() {
    let lit = capacity_literal(5);
    assert_eq!(lit.base10_digits(), "5");
    assert_eq!(lit.suffix(), "");
    assert_eq!(lit.to_string(), "5");
    assert_eq!(capacity_literal(0).to_string(), "0");
    assert_eq!(capacity_literal(255).to_string(), "255");
    assert_eq!(capacity_literal(255).base10_parse::<u8>().unwrap(), 255);
}

#[test]
fn capacity_typenum_rounds_up_to_a_power_of_two() {
    assert_eq!(capacity_typenum(5, true).as_str(), "U8");
    assert_eq!(capacity_typenum(5, false).as_str(), "U5");
    assert_eq!(capacity_typenum(8, true).as_str(), "U8");
    assert_eq!(capacity_typenum(0, true).as_str(), "U1");
    assert_eq!(capacity_typenum(0, false).as_str(), "U0");
    assert_eq!(capacity_typenum(1, true).as_str(), "U1");
    assert_eq!(capacity_typenum(100, true).as_str(), "U128");
    assert_eq!(capacity_typenum(128, true).as_str(), "U128");
    assert_eq!(capacity_typenum(255, false).as_str(), "U255");
}

#[test]
fn cfg_core_selects_only_with_several_cores() {
    assert_eq!(cfg_core(0, 1), None);
    assert_eq!(cfg_core(0, 2), Some(String::from("0")));
    assert_eq!(cfg_core(1, 2), Some(String::from("1")));
    assert_eq!(cfg_core(12, 16), Some(String::from("12")));
    assert_eq!(cfg_core(3, 0), Some(String::from("3")));
}

#[test]
fn free_queue_name() {
    assert_eq!(fq_ident(&name("foo"), 0).as_str(), "foo_S0_FQ");
    assert_eq!(fq_ident(&name("foo"), 1).as_str(), "foo_S1_FQ");
    assert_eq!(fq_ident(&name("bar"), 255).as_str(), "bar_S255_FQ");
}

#[test]
fn inputs_and_instants_names() {
    assert_eq!(inputs_ident(&name("foo"), 0).as_str(), "foo_S0_INPUTS");
    assert_eq!(inputs_ident(&name("foo"), 10).as_str(), "foo_S10_INPUTS");
    assert_eq!(instants_ident(&name("foo"), 0).as_str(), "foo_S0_INSTANTS");
    assert_eq!(instants_ident(&name("a_b"), 2).as_str(), "a_b_S2_INSTANTS");
}

#[test]
fn barrier_names() {
    assert_eq!(init_barrier(0).as_str(), "IB0");
    assert_eq!(init_barrier(1).as_str(), "IB1");
    assert_eq!(rendezvous_ident(0).as_str(), "RV0");
    assert_eq!(rendezvous_ident(17).as_str(), "RV17");
    assert_eq!(spawn_barrier(0).as_str(), "SB0");
    assert_eq!(spawn_barrier(200).as_str(), "SB200");
}

#[test]
fn ready_queue_names() {
    assert_eq!(rq_ident(0, 1, 0).as_str(), "R0_P1_S0_RQ");
    assert_eq!(rq_ident(1, 3, 0).as_str(), "R1_P3_S0_RQ");
    assert_eq!(rq_ident(10, 255, 100).as_str(), "R10_P255_S100_RQ");
    assert_eq!(spawn_t_ident(0, 1, 0).as_str(), "R0_P1_S0_T");
    assert_eq!(spawn_t_ident(1, 3, 0).as_str(), "R1_P3_S0_T");
}

#[test]
fn ready_queue_names_tell_the_keys_apart() {
    assert_ne!(rq_ident(1, 11, 1).as_str(), rq_ident(11, 1, 1).as_str());
    assert_ne!(rq_ident(1, 1, 11).as_str(), rq_ident(1, 11, 1).as_str());
    assert_ne!(rq_ident(0, 1, 0).as_str(), spawn_t_ident(0, 1, 0).as_str());
}

#[test]
fn spawn_and_schedule_names() {
    assert_eq!(spawn_ident(&name("foo"), 0).as_str(), "spawn_foo_S0");
    assert_eq!(spawn_ident(&name("foo"), 1).as_str(), "spawn_foo_S1");
    assert_eq!(schedule_ident(&name("foo"), 0).as_str(), "schedule_foo_S0");
    assert_eq!(schedule_ident(&name("bar"), 3).as_str(), "schedule_bar_S3");
    assert_eq!(schedule_t_ident(0).as_str(), "T0");
    assert_eq!(schedule_t_ident(1).as_str(), "T1");
    assert_eq!(tq_ident(0).as_str(), "TQ0");
    assert_eq!(tq_ident(1).as_str(), "TQ1");
}

#[test]
fn late_resources_name() {
    assert_eq!(late_resources_ident(&name("init")).as_str(), "initLateResources");
    assert_eq!(late_resources_ident(&name("init_0")).as_str(), "init_0LateResources");
}

#[test]
fn locals_and_resources_names_follow_the_context() {
    let app = two_core_app();
    let task = name("foo");
    assert_eq!(locals_ident(Context::Init(0), &app).as_str(), "init_0Locals");
    assert_eq!(locals_ident(Context::Init(1), &app).as_str(), "init_1Locals");
    assert_eq!(locals_ident(Context::Idle(1), &app).as_str(), "idle_1Locals");
    assert_eq!(locals_ident(Context::HardwareTask(&task), &app).as_str(), "fooLocals");
    assert_eq!(locals_ident(Context::SoftwareTask(&task), &app).as_str(), "fooLocals");
    assert_eq!(resources_ident(Context::Init(0), &app).as_str(), "init_0Resources");
    assert_eq!(resources_ident(Context::Idle(1), &app).as_str(), "idle_1Resources");
    assert_eq!(resources_ident(Context::HardwareTask(&task), &app).as_str(), "fooResources");
    assert_eq!(resources_ident(Context::SoftwareTask(&task), &app).as_str(), "fooResources");
}

#[test]
fn app_knows_which_contexts_it_defines() {
    let app = two_core_app();
    let task = name("foo");
    assert!(app.is_defined(&Context::Init(0)));
    assert!(app.is_defined(&Context::Init(1)));
    assert!(!app.is_defined(&Context::Init(2)));
    assert!(!app.is_defined(&Context::Idle(0)));
    assert!(app.is_defined(&Context::Idle(1)));
    assert!(!app.is_defined(&Context::Idle(7)));
    assert!(app.is_defined(&Context::HardwareTask(&task)));
    assert!(app.is_defined(&Context::SoftwareTask(&task)));
    assert_eq!(app.name_of(&Context::Idle(1)).as_str(), "idle_1");
}

#[test]
fn names_are_valid_tokens() {
    let task = name("foo");
    assert_eq!(fq_ident(&task, 0).to_ident().to_string(), "foo_S0_FQ");
    assert_eq!(rq_ident(0, 1, 0).to_ident().to_string(), "R0_P1_S0_RQ");
    assert_eq!(capacity_typenum(5, true).to_ident().to_string(), "U8");
    assert_eq!(tq_ident(3).to_ident(), Ident::new("TQ3", Span::call_site()));
}
