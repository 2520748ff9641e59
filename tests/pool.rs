use rustrast::pool::{Teardown, TeardownStep};

#[test]
fn terminates_then_joins_each_worker_once() {
    let mut t = Teardown::new(3);
    let mut steps = Vec::new();
    while !t.is_finished() {
        steps.push(t.next_step());
    }
    assert_eq!(
        steps,
        vec![
            TeardownStep::SendTerminate,
            TeardownStep::SendTerminate,
            TeardownStep::SendTerminate,
            TeardownStep::Join(0),
            TeardownStep::Join(1),
            TeardownStep::Join(2),
        ]
    );
    assert_eq!(t.next_step(), TeardownStep::Finished);
    assert_eq!(t.next_step(), TeardownStep::Finished);
}
