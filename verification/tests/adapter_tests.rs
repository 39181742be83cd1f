use my_sigs::AddConst;
use my_sigs::Computed;
use my_sigs::Graph;
use my_sigs::SigBlocker;
use my_sigs::Signal;
use my_sigs::SignalLike;

#[test]
fn block_until_predicate_holds() {
    let mut g: Graph<i64, AddConst> = Graph::new();
    let s = Signal::new(&mut g, 0);
    let d = Computed::new(&mut g, vec![s.id()], AddConst { offset: 0 });
    let mut b = SigBlocker::block_on(&d);
    let pred = |v: i64| v >= 3;
    // not there yet: a one-shot handle gets armed
    assert!(!b.poll_step(&mut g, &pred));
    assert!(!b.ready(&g));
    // an insufficient write still fires the handle, prompting a re-poll
    s.set(&mut g, 1);
    assert!(b.ready(&g));
    assert!(!b.poll_step(&mut g, &pred));
    // the satisfying write completes the wait
    s.set(&mut g, 5);
    assert!(b.ready(&g));
    assert!(b.poll_step(&mut g, &pred));
}

#[test]
fn block_on_completes_immediately_when_satisfied() {
    let mut g: Graph<i64, AddConst> = Graph::new();
    let s = Signal::new(&mut g, 7);
    let mut b = SigBlocker::block_on(&s);
    assert!(b.poll_step(&mut g, &|v: i64| v > 0));
}
