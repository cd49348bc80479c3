use rblib::name::auto_pipeline_name;
use rblib::navi::StepNavigator;
use rblib::pipeline::{Behavior, Pipeline, StepInstance};
use rblib::step_path::StepPath;

fn step(name: &str) -> StepInstance {
    StepInstance::named(name)
}

fn append_prologue(p: StepPath) -> StepPath {
    p.concat(StepPath::prologue())
}

fn append_prologue_step(p: StepPath, i: usize) -> StepPath {
    p.concat(StepPath::prologue_step(i))
}

fn append_epilogue(p: StepPath) -> StepPath {
    p.concat(StepPath::epilogue())
}

fn append_epilogue_step(p: StepPath, i: usize) -> StepPath {
    p.concat(StepPath::epilogue_step(i))
}

fn append_step(p: StepPath, i: usize) -> StepPath {
    p.concat(StepPath::step(i))
}

fn names(pipelines: &[&Pipeline]) -> Vec<String> {
    pipelines.iter().map(|p| p.name().to_string()).collect()
}

fn top_pipeline() -> Pipeline {
    Pipeline::named("top")
        .with_step(step("Step1"))
        .with_step(step("Step2"))
        .with_pipeline(
            Behavior::Loop,
            Pipeline::named("nested1")
                .with_prologue(step("Prologue1"))
                .with_step(step("StepA"))
                .with_pipeline(
                    Behavior::Loop,
                    Pipeline::named("nested1.1")
                        .with_step(step("StepX"))
                        .with_step(step("StepY"))
                        .with_step(step("StepZ"))
                        .with_prologue(step("Prologue2"))
                        .with_prologue(step("Prologue3"))
                        .with_epilogue(step("Epilogue2")),
                )
                .with_step(step("StepC"))
                .with_pipeline(
                    Behavior::Once,
                    Pipeline::named("nested1.2")
                        .with_step(step("StepI"))
                        .with_step(step("StepII"))
                        .with_step(step("StepIII"))
                        .with_epilogue(step("EpilogueStep1"))
                        .with_epilogue(step("EpilogueStep2")),
                ),
        )
        .with_step(step("Step4"))
        .with_epilogue(step("Epilogue1"))
}

fn assert_entrypoint(pipeline: &Pipeline, expected_path: StepPath, expected_names: Vec<&str>) {
    let StepNavigator(path, pipelines) = StepNavigator::entrypoint(pipeline).unwrap();
    assert_eq!(path, expected_path);
    assert_eq!(names(&pipelines), expected_names);
}

#[test]
fn find_entrypoint() {
    let empty = Pipeline::named(&auto_pipeline_name("src/pipelines/exec/navi.rs", 783));
    assert!(StepNavigator::entrypoint(&empty).is_none());

    // one step, with a name derived from the source location
    let auto = auto_pipeline_name("src/pipelines/exec/navi.rs", 800);
    assert_entrypoint(
        &Pipeline::named(&auto).with_step(step("Step1")),
        StepPath::step0(),
        vec!["navi_800"],
    );

    // one step with prologue
    assert_entrypoint(
        &Pipeline::named("one").with_prologue(step("Prologue1")).with_step(step("Step1")),
        StepPath::prologue(),
        vec!["one"],
    );

    // no steps, but with a one-step epilogue
    assert_entrypoint(
        &Pipeline::named("one").with_epilogue(step("Epilogue1")),
        StepPath::epilogue(),
        vec!["one"],
    );

    // one nested step with no prologue
    assert_entrypoint(
        &Pipeline::named("one").with_pipeline(Behavior::Loop, Pipeline::named("two").with_step(step("Step1"))),
        append_step(StepPath::step0(), 0),
        vec!["one", "two"],
    );

    // one nested step with a one-step prologue
    assert_entrypoint(
        &Pipeline::named("one").with_pipeline(
            Behavior::Loop,
            Pipeline::named("two").with_step(step("Step1")).with_prologue(step("Prologue1")),
        ),
        append_prologue(StepPath::step0()),
        vec!["one", "two"],
    );

    // one nested pipeline with no steps, but with a one-step epilogue
    assert_entrypoint(
        &Pipeline::named("one").with_pipeline(Behavior::Loop, Pipeline::named("two").with_epilogue(step("Epilogue1"))),
        append_epilogue(StepPath::step0()),
        vec!["one", "two"],
    );

    let nested_empty_pipeline = Pipeline::named("default").with_pipeline(Behavior::Loop, Pipeline::named("inner"));
    assert!(StepNavigator::entrypoint(&nested_empty_pipeline).is_none());

    // two levels of nested steps with no prologue
    assert_entrypoint(
        &Pipeline::named("one").with_pipeline(
            Behavior::Loop,
            Pipeline::named("two").with_pipeline(Behavior::Loop, Pipeline::named("three").with_step(step("Step1"))),
        ),
        append_step(append_step(StepPath::step(0), 0), 0),
        vec!["one", "two", "three"],
    );

    // two levels of nested steps with prologue at the first level
    assert_entrypoint(
        &Pipeline::named("one").with_pipeline(
            Behavior::Loop,
            Pipeline::named("two")
                .with_prologue(step("Prologue1"))
                .with_pipeline(Behavior::Loop, Pipeline::named("three").with_step(step("Step1"))),
        ),
        append_prologue(StepPath::step(0)),
        vec!["one", "two"],
    );

    // two levels of nested steps with prologue at the second level
    assert_entrypoint(
        &Pipeline::named("one").with_pipeline(
            Behavior::Loop,
            Pipeline::named("two").with_pipeline(
                Behavior::Loop,
                Pipeline::named("three").with_step(step("Step1")).with_prologue(step("Prologue1")),
            ),
        ),
        append_prologue(append_step(StepPath::step(0), 0)),
        vec!["one", "two", "three"],
    );
}

#[test]
fn identify_loop_behavior() {
    let pipeline = Pipeline::named("p").with_step(step("Step1")).with_step(step("Step2")).with_step(step("Step3"));
    let navigator = StepNavigator::entrypoint(&pipeline).unwrap();
    assert_eq!(navigator.behavior(), Behavior::Once);

    let pipeline = Pipeline::named("p").with_pipeline(Behavior::Loop, Pipeline::named("n").with_step(step("Step1")));
    let navigator = StepNavigator::entrypoint(&pipeline).unwrap();
    assert_eq!(navigator.behavior(), Behavior::Loop);

    let pipeline = Pipeline::named("p").with_pipeline(Behavior::Once, Pipeline::named("n").with_step(step("Step1")));
    let navigator = StepNavigator::entrypoint(&pipeline).unwrap();
    assert_eq!(navigator.behavior(), Behavior::Once);
}

#[test]
fn step_ref_access() {
    let pipeline = Pipeline::named("p").with_step(step("Step1")).with_step(step("Step2")).with_step(step("Step3"));
    let navigator = StepNavigator::entrypoint(&pipeline).unwrap();
    assert_eq!(navigator.instance().name(), "Step1");

    let pipeline = Pipeline::named("p")
        .with_prologue(step("Prologue1"))
        .with_step(step("Step1"))
        .with_step(step("Step2"))
        .with_step(step("Step3"));
    let navigator = StepNavigator::entrypoint(&pipeline).unwrap();
    assert_eq!(navigator.instance().name(), "Prologue1");

    let pipeline = Pipeline::named("p").with_pipeline(Behavior::Loop, Pipeline::named("n").with_epilogue(step("Epilogue1")));
    let navigator = StepNavigator::entrypoint(&pipeline).unwrap();
    assert_eq!(navigator.instance().name(), "Epilogue1");
}

#[test]
fn control_flow() {
    let pipeline = top_pipeline();

    let cursor = StepNavigator::entrypoint(&pipeline).unwrap();
    assert_eq!(cursor.0, StepPath::step0());

    let cursor = cursor.next_ok().unwrap();
    assert_eq!(cursor.0, StepPath::step(1));

    let cursor = cursor.next_ok().unwrap();
    assert_eq!(cursor.0, append_prologue(StepPath::step(2)));

    let cursor = cursor.next_ok().unwrap();
    assert_eq!(cursor.0, append_step(StepPath::step(2), 0));

    let cursor = cursor.next_ok().unwrap();
    assert_eq!(cursor.0, append_prologue_step(append_step(StepPath::step(2), 1), 0));

    let cursor = cursor.next_ok().unwrap();
    assert_eq!(cursor.0, append_prologue_step(append_step(StepPath::step(2), 1), 1));

    let cursor = cursor.next_ok().unwrap();
    assert_eq!(cursor.0, append_step(append_step(StepPath::step(2), 1), 0));

    let cursor = cursor.next_ok().unwrap();
    assert_eq!(cursor.0, append_step(append_step(StepPath::step(2), 1), 1));

    let cursor = cursor.next_ok().unwrap();
    assert_eq!(cursor.0, append_step(append_step(StepPath::step(2), 1), 2));

    let cursor = cursor.next_ok().unwrap();
    assert_eq!(cursor.0, append_step(append_step(StepPath::step(2), 1), 0));

    let cursor = cursor.next_ok().unwrap();
    assert_eq!(cursor.0, append_step(append_step(StepPath::step(2), 1), 1));

    let cursor = cursor.next_break().unwrap();
    assert_eq!(cursor.0, append_epilogue(append_step(StepPath::step(2), 1)));

    let cursor = cursor.next_ok().unwrap();
    assert_eq!(cursor.0, append_step(StepPath::step(2), 2));

    let cursor = cursor.next_ok().unwrap();
    assert_eq!(cursor.0, append_step(append_step(StepPath::step(2), 3), 0));

    let cursor = cursor.next_ok().unwrap();
    assert_eq!(cursor.0, append_step(append_step(StepPath::step(2), 3), 1));

    let cursor = cursor.next_break().unwrap();
    assert_eq!(cursor.0, append_epilogue_step(append_step(StepPath::step(2), 3), 0));

    let cursor = cursor.next_ok().unwrap();
    assert_eq!(cursor.0, append_epilogue_step(append_step(StepPath::step(2), 3), 1));

    let cursor = cursor.next_ok().unwrap();
    assert_eq!(cursor.0, append_step(StepPath::step(2), 0));

    let cursor = cursor.next_ok().unwrap();
    assert_eq!(cursor.0, append_prologue_step(append_step(StepPath::step(2), 1), 0));

    let cursor = cursor.next_break().unwrap();
    assert_eq!(cursor.0, append_step(StepPath::step(2), 2));

    let cursor = cursor.next_break().unwrap();
    assert_eq!(cursor.0, StepPath::step(3));

    let cursor = cursor.next_ok().unwrap();
    assert_eq!(cursor.0, StepPath::epilogue());

    let cursor = cursor.next_ok();
    assert!(cursor.is_none());
}

#[test]
fn create_navigator() {
    let pipeline = top_pipeline();

    let cursor = StepNavigator::entrypoint(&pipeline).unwrap();
    assert_eq!(cursor.0, StepPath::step0());
    let navigator = cursor.0.navigator(&pipeline).unwrap();
    assert_eq!(navigator.0, StepPath::step0());
    assert_eq!(navigator.instance().name(), cursor.instance().name());
    assert_eq!(navigator.1.len(), cursor.1.len());

    let cursor = cursor.next_ok().unwrap();
    assert_eq!(cursor.0, StepPath::step(1));
    let navigator = cursor.0.navigator(&pipeline).unwrap();
    assert_eq!(navigator.0, StepPath::step(1));
    assert_eq!(navigator.1.len(), cursor.1.len());
    assert_eq!(navigator.instance().name(), cursor.instance().name());

    let cursor = cursor.next_ok().unwrap();
    assert_eq!(cursor.0, append_prologue(StepPath::step(2)));
    let navigator = cursor.0.navigator(&pipeline).unwrap();
    assert_eq!(navigator.1.len(), cursor.1.len());
    assert_eq!(navigator.0, append_prologue(StepPath::step(2)));
    assert_eq!(navigator.instance().name(), cursor.instance().name());

    let cursor = cursor.next_ok().unwrap();
    assert_eq!(cursor.0, append_step(StepPath::step(2), 0));
    let navigator = cursor.0.navigator(&pipeline).unwrap();
    assert_eq!(navigator.1.len(), cursor.1.len());
    assert_eq!(navigator.0, append_step(StepPath::step(2), 0));
    assert_eq!(navigator.instance().name(), cursor.instance().name());

    let cursor = cursor.next_ok().unwrap();
    assert_eq!(cursor.0, append_prologue_step(append_step(StepPath::step(2), 1), 0));
    let navigator = cursor.0.navigator(&pipeline).unwrap();
    assert_eq!(navigator.1.len(), cursor.1.len());
    assert_eq!(navigator.0, append_prologue_step(append_step(StepPath::step(2), 1), 0));
    assert_eq!(navigator.instance().name(), cursor.instance().name());

    // navigator goes to the first executable step rooted at the path
    let navigator = StepPath::step(2).navigator(&pipeline).unwrap();
    assert_eq!(navigator.0, append_prologue(StepPath::step(2)));
    assert_eq!(navigator.instance().name(), "Prologue1");
}

#[test]
fn is_ancestor_of() {
    assert!(append_step(append_step(StepPath::step(1), 2), 3)
        .is_ancestor_of(&append_step(append_step(append_step(StepPath::step(1), 2), 3), 4)));

    assert!(!append_step(append_step(StepPath::step(2), 2), 3)
        .is_ancestor_of(&append_step(append_step(append_step(StepPath::step(1), 2), 3), 4)));
}

#[test]
fn common_ancestor() {
    assert_eq!(
        append_step(append_step(StepPath::step(1), 2), 3)
            .common_ancestor(&append_step(append_step(append_step(StepPath::step(1), 2), 3), 4)),
        append_step(append_step(StepPath::step(1), 2), 3)
    );

    assert_eq!(
        append_step(append_step(StepPath::step(1), 2), 3)
            .common_ancestor(&append_step(append_step(append_step(StepPath::step(2), 2), 3), 4)),
        StepPath::empty()
    );

    assert_eq!(
        append_step(StepPath::step(1), 2).common_ancestor(&append_step(append_step(StepPath::step(1), 2), 3)),
        append_step(StepPath::step(1), 2)
    );

    assert_eq!(StepPath::step(1).common_ancestor(&append_step(StepPath::step(1), 2)), StepPath::step(1));

    assert_eq!(StepPath::empty().common_ancestor(&StepPath::empty()), StepPath::empty());
}

#[test]
fn between() {
    let p1 = append_step(StepPath::step(1), 2);
    let p2 = append_step(append_step(append_step(StepPath::step(1), 2), 3), 4);

    assert_eq!(
        p1.between(&p2),
        vec![
            append_step(append_step(StepPath::step(1), 2), 3),
            append_step(append_step(append_step(StepPath::step(1), 2), 3), 4),
        ]
    );

    assert_eq!(
        p2.between(&p1),
        vec![
            append_step(append_step(append_step(StepPath::step(1), 2), 3), 4),
            append_step(append_step(StepPath::step(1), 2), 3),
        ]
    );

    assert_eq!(p1.between(&StepPath::empty()), vec![append_step(StepPath::step(1), 2), StepPath::step(1)]);

    assert_eq!(
        p2.between(&StepPath::empty()),
        vec![
            append_step(append_step(append_step(StepPath::step(1), 2), 3), 4),
            append_step(append_step(StepPath::step(1), 2), 3),
            append_step(StepPath::step(1), 2),
            StepPath::step(1),
        ]
    );

    assert_eq!(
        StepPath::empty().between(&p2),
        vec![
            StepPath::step(1),
            append_step(StepPath::step(1), 2),
            append_step(append_step(StepPath::step(1), 2), 3),
            append_step(append_step(append_step(StepPath::step(1), 2), 3), 4),
        ]
    );

    // no steps between
    let p1 = append_step(StepPath::step(2), 2);
    let p2 = append_step(append_step(append_step(StepPath::step(1), 2), 3), 4);

    assert_eq!(p1.between(&p2), Vec::<StepPath>::new());
    assert_eq!(p2.between(&p1), Vec::<StepPath>::new());
}

#[test]
fn between_is_reversed_the_other_way() {
    let p1 = StepPath::step(0);
    let p2 = append_prologue(append_step(StepPath::step(0), 1));
    let mut down = p1.between(&p2);
    let up = p2.between(&p1);
    down.reverse();
    assert_eq!(down.len(), 2);
    assert_eq!(down, up);
}

#[test]
fn break_in_epilogue_acts_as_ok() {
    let pipeline = top_pipeline();
    let path = append_epilogue_step(append_step(StepPath::step(2), 3), 0);
    let by_break = path.navigator(&pipeline).unwrap().next_break().unwrap();
    let by_ok = path.navigator(&pipeline).unwrap().next_ok().unwrap();
    assert_eq!(by_break.0, append_epilogue_step(append_step(StepPath::step(2), 3), 1));
    assert_eq!(by_break.0, by_ok.0);
}
