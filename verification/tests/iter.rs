use rblib::pipeline::{Behavior, Pipeline, StepInstance};

fn step(name: &str) -> StepInstance {
    StepInstance::named(name)
}

fn labels(pipeline: &Pipeline) -> Vec<String> {
    let mut it = pipeline.iter_steps();
    let mut out = Vec::new();
    while let Some(path) = it.next() {
        out.push(path.to_display_string());
    }
    out
}

#[test]
fn visits_all_steps_flat() {
    let pipeline = Pipeline::named("flat")
        .with_prologue(step("PrologueOne"))
        .with_step(step("Step1"))
        .with_step(step("Step2"))
        .with_step(step("Step3"))
        .with_epilogue(step("EpilogueOne"));

    let expected = vec!["p", "1", "2", "3", "e"];
    assert_eq!(labels(&pipeline), expected);
}

#[test]
fn visits_all_steps_nested() {
    let pipeline = Pipeline::named("nested")
        .with_prologue(step("PrologueOne"))
        .with_pipeline(
            Behavior::Loop,
            Pipeline::named("inner")
                .with_prologue(step("PrologueTwo"))
                .with_step(step("Step1"))
                .with_pipeline(
                    Behavior::Loop,
                    Pipeline::named("innermost")
                        .with_step(step("StepA"))
                        .with_step(step("StepB"))
                        .with_step(step("StepC"))
                        .with_epilogue(step("EpilogueTwo")),
                )
                .with_step(step("Step3")),
        )
        .with_epilogue(step("EpilogueOne"));

    let expected = vec!["p", "1_p", "1_1", "1_2_1", "1_2_2", "1_2_3", "1_2_e", "1_3", "e"];
    assert_eq!(labels(&pipeline), expected);
}

#[test]
fn every_visited_path_leads_to_its_step() {
    let pipeline = Pipeline::named("nested")
        .with_step(step("Step1"))
        .with_pipeline(Behavior::Once, Pipeline::named("inner").with_step(step("StepA")).with_epilogue(step("EpilogueA")));
    let mut it = pipeline.iter_steps();
    let mut names = Vec::new();
    while let Some(path) = it.next() {
        let nav = path.navigator(&pipeline).unwrap();
        assert_eq!(nav.0, path);
        names.push(nav.instance().name().to_string());
    }
    assert_eq!(names, vec!["Step1", "StepA", "EpilogueA"]);
}

#[test]
fn second_prologue_step_label() {
    let pipeline = Pipeline::named("two prologues")
        .with_prologue(step("P1"))
        .with_prologue(step("P2"))
        .with_epilogue(step("E1"))
        .with_epilogue(step("E2"));
    assert_eq!(labels(&pipeline), vec!["p", "p1", "e", "e1"]);
}
