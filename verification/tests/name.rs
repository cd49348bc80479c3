use rblib::name::{auto_pipeline_name, short_type_name, Name, PerJobCounters};
use rblib::pipeline::StepInstance;

#[test]
fn short_type_names() {
    assert_eq!(short_type_name("rblib::steps::RevertProtection"), "RevertProtection");
    assert_eq!(short_type_name("alloc::vec::Vec<alloc::string::String>"), "Vec<String>");
    assert_eq!(
        short_type_name("core::result::Result<u64, alloc::string::String>"),
        "Result<u64, String>"
    );
    assert_eq!(short_type_name("(a::B, c::D)"), "(B, D)");
    assert_eq!(short_type_name("[x::Y; 3]"), "[Y; 3]");
    assert_eq!(short_type_name("Plain"), "Plain");
    assert_eq!(short_type_name(""), "");
}

#[test]
fn names_and_metrics() {
    let mut name = Name::new("my_crate::steps::Step1");
    assert_eq!(name.pretty(), "Step1");
    assert!(name.is("Step1"));
    assert!(!name.has_metrics());
    name.init_metrics("pipeline_step1");
    assert!(name.has_metrics());
    assert_eq!(name.metric(), "pipeline_step1");

    let mut instance = StepInstance::new("crate::x::Gather<crate::y::Eth>");
    assert_eq!(instance.name(), "Gather<Eth>");
    assert!(!instance.has_metrics());
    instance.init_metrics("m");
    assert!(instance.has_metrics());
}

#[test]
fn per_job_counters_wrap() {
    let mut c = PerJobCounters::default();
    c.increment_invocation();
    c.increment_invocation();
    c.increment_exec_time(1_500);
    assert_eq!(c.invoked_count(), 2);
    assert_eq!(c.exec_duration(), 1_500);
    c.invoked = u32::MAX;
    c.increment_invocation();
    assert_eq!(c.invoked_count(), 0);
    c.increment_exec_time(u64::MAX as u128);
    assert_eq!(c.exec_duration(), 1_499);
    c.increment_exec_time((1u128 << 64) + 1);
    assert_eq!(c.exec_duration(), 1_500);
    c.reset();
    assert_eq!(c.invoked_count(), 0);
    assert_eq!(c.exec_duration(), 0);
}

#[test]
fn auto_names() {
    assert_eq!(auto_pipeline_name("src/pipelines/exec/navi.rs", 42), "navi_42");
    assert_eq!(auto_pipeline_name("main.rs", 7), "main_7");
    assert_eq!(auto_pipeline_name("a/b/lib.rs.rs", 0), "lib_0");
    assert_eq!(auto_pipeline_name("a/b/build", 1), "build_1");
}

#[test]
fn short_type_name_is_idempotent() {
    let once = short_type_name("core::result::Result<alloc::vec::Vec<u8>, my::Error>");
    assert_eq!(once, "Result<Vec<u8>, Error>");
    assert!(!once.contains(':'));
    assert_eq!(short_type_name(&once), once);
}
