use my_sigs::and_2;
use my_sigs::on_trigger;
use my_sigs::AddConst;
use my_sigs::Computed;
use my_sigs::Graph;
use my_sigs::Signal;
use my_sigs::SignalLike;

fn sum() -> AddConst {
    AddConst { offset: 0 }
}

fn sum_plus(k: i64) -> AddConst {
    AddConst { offset: k }
}

#[test]
fn signal_testzin() {
    let mut g: Graph<i64, AddConst> = Graph::new();
    let s1 = Signal::new(&mut g, 1);
    let s2 = Signal::new(&mut g, 1);
    let c = and_2(&mut g, &s1, &s2, sum());
    let c2 = and_2(&mut g, &s1, &s2, sum_plus(1));
    {
        assert_eq!(c.get_ref(&mut g), 2);
        assert_eq!(c2.get_ref(&mut g), 3);
        assert_eq!(s1.get_deps(&g).len(), 2);
    }
    s1.set(&mut g, 10);
    {
        assert_eq!(c.get_ref(&mut g), 11);
        assert_eq!(c2.get_ref(&mut g), 12);
        assert_eq!(s1.get_deps(&g).len(), 2);
    }
    s1.set(&mut g, 2);
    {
        assert_eq!(c.get_ref(&mut g), 3);
        assert_eq!(c2.get_ref(&mut g), 4);
        assert_eq!(s1.get_deps(&g).len(), 2);
        assert_eq!(s2.get_deps(&g).len(), 2);
    }
    {
        let c_deps = c.get_deps(&g);
        assert_eq!(c_deps.len(), 0);
    }
}

#[test]
fn my_sigs_testzin() {
    let mut g: Graph<i64, AddConst> = Graph::new();
    let s1 = Signal::new(&mut g, 1);
    let s2 = Signal::new(&mut g, 1);
    let c = and_2(&mut g, &s1, &s2, sum());
    let c2 = and_2(&mut g, &s1, &s2, sum_plus(1));
    {
        assert_eq!(c.get_ref(&mut g), 2);
        assert_eq!(c2.get_ref(&mut g), 3);
        assert_eq!(s1.get_deps(&g).len(), 2);
    }
    s1.set(&mut g, 10);
    {
        assert_eq!(c.get_ref(&mut g), 11);
        assert_eq!(c2.get_ref(&mut g), 12);
        assert_eq!(s1.get_deps(&g).len(), 2);
    }
    s1.set(&mut g, 2);
    {
        assert_eq!(c.get_ref(&mut g), 3);
        assert_eq!(c2.get_ref(&mut g), 4);
        assert_eq!(s1.get_deps(&g).len(), 2);
        assert_eq!(s2.get_deps(&g).len(), 2);
    }
    {
        let c_deps = c.get_deps(&g);
        assert_eq!(c_deps.len(), 0);
    }
}

#[test]
fn comps_of_comps() {
    let mut g: Graph<i64, AddConst> = Graph::new();
    let s1 = Signal::new(&mut g, 1);
    let s2 = Signal::new(&mut g, 1);
    let left = and_2(&mut g, &s1, &s2, sum());
    let right = and_2(&mut g, &s1, &s2, sum());
    let result = and_2(&mut g, &left, &right, sum());
    {
        assert_eq!(result.get_ref(&mut g), 4);
    }
    s1.set(&mut g, 2);
    {
        assert_eq!(result.get_ref(&mut g), 6);
    }
    s2.set(&mut g, 2);
    {
        assert_eq!(result.get_ref(&mut g), 8);
    }
}

#[test]
fn test_trigger() {
    let mut g: Graph<i64, AddConst> = Graph::new();
    let s1 = Signal::new(&mut g, 1);
    let s2 = Signal::new(&mut g, 1);
    let comp = Computed::new(&mut g, vec![s1.id()], sum_plus(1));
    {
        let v = comp.get_ref(&mut g);
        assert_eq!(v, 2);
    }
    let w = on_trigger(&mut g, &comp, true);
    {
        let v = s2.get_ref(&mut g);
        assert_eq!(v, 1)
    }
    {
        s1.set(&mut g, 4);
        assert!(w.fired(&g));
        s2.set(&mut g, 10);
        let v = s2.get_ref(&mut g);
        assert_eq!(v, 10)
    }
}

#[test]
fn idempotent_read() {
    let mut g: Graph<i64, AddConst> = Graph::new();
    let s = Signal::new(&mut g, 21);
    let d = Computed::new(&mut g, vec![s.id()], sum_plus(21));
    let first = d.get_ref(&mut g);
    let deps_after_first = s.get_deps(&g);
    let second = d.get_ref(&mut g);
    assert_eq!(first, 42);
    assert_eq!(second, 42);
    assert_eq!(deps_after_first, s.get_deps(&g));
}

#[test]
fn propagation() {
    let mut g: Graph<i64, AddConst> = Graph::new();
    let c = Signal::new(&mut g, 1);
    let d = Computed::new(&mut g, vec![c.id()], sum_plus(1));
    assert_eq!(d.get_ref(&mut g), 2);
    c.set(&mut g, 10);
    assert_eq!(d.get_ref(&mut g), 11);
}

#[test]
fn diamond_recomputation() {
    let mut g: Graph<i64, AddConst> = Graph::new();
    let c = Signal::new(&mut g, 1);
    let c2 = Signal::new(&mut g, 100);
    let left = and_2(&mut g, &c, &c2, sum());
    let right = and_2(&mut g, &c, &c2, sum_plus(1));
    let top = and_2(&mut g, &left, &right, sum());
    assert_eq!(top.get_ref(&mut g), 203);
    // prior reads of the legs do not disturb the next read of the top
    assert_eq!(left.get_ref(&mut g), 101);
    assert_eq!(right.get_ref(&mut g), 102);
    c.set(&mut g, 2);
    assert_eq!(left.get_ref(&mut g), 102);
    assert_eq!(top.get_ref(&mut g), 205);
    // the shared sources carry one subscription per leg, not per path
    assert_eq!(c.get_deps(&g).len(), 2);
    assert_eq!(c2.get_deps(&g).len(), 2);
}

#[test]
fn deduplicated_subscription() {
    let mut g: Graph<i64, AddConst> = Graph::new();
    let c = Signal::new(&mut g, 3);
    // one derived value reading the same cell twice
    let d = Computed::new(&mut g, vec![c.id(), c.id()], sum());
    assert_eq!(d.get_ref(&mut g), 6);
    assert_eq!(c.get_deps(&g).len(), 1);
}

#[test]
fn weak_cleanup() {
    let mut g: Graph<i64, AddConst> = Graph::new();
    let c = Signal::new(&mut g, 5);
    for round in 0..50i64 {
        let d = Computed::new(&mut g, vec![c.id()], sum());
        assert_eq!(d.get_ref(&mut g), 5 + round);
        d.release(&mut g);
        // the next write prunes the entry of the released subscriber
        c.set(&mut g, 5 + round + 1);
        assert!(c.get_deps(&g).len() <= 1);
    }
    assert_eq!(c.get_deps(&g).len(), 0);
}

#[test]
fn update_applies_function() {
    let mut g: Graph<i64, AddConst> = Graph::new();
    let c = Signal::new(&mut g, 20);
    let d = Computed::new(&mut g, vec![c.id()], sum_plus(1));
    assert_eq!(d.get_ref(&mut g), 21);
    c.update(&mut g, &|v: i64| v * 2);
    assert_eq!(c.get_ref(&mut g), 40);
    assert_eq!(d.get_ref(&mut g), 41);
}

#[test]
fn and_3_combines_three() {
    let mut g: Graph<i64, AddConst> = Graph::new();
    let a = Signal::new(&mut g, 1);
    let b = Signal::new(&mut g, 2);
    let c = Signal::new(&mut g, 3);
    let d = my_sigs::and_3(&mut g, &a, &b, &c, sum_plus(10));
    assert_eq!(d.get_ref(&mut g), 16);
    b.set(&mut g, 20);
    assert_eq!(d.get_ref(&mut g), 34);
}
