use vyges_power::names::{leaf_of, NetIndex};

fn idx() -> NetIndex {
    // clk_in appears in the testbench and in the DUT; q only in the DUT.
    let mut i = NetIndex::default();
    i.declare("counter_tb.clk_in");
    i.add_toggles("counter_tb.clk_in", 79);
    i.declare("counter_tb.dut.clk_in");
    i.add_toggles("counter_tb.dut.clk_in", 40);
    i.declare("counter_tb.dut.q");
    i.add_toggles("counter_tb.dut.q", 13);
    i
}

#[test]
fn ambiguous_leaf_is_unresolved_without_scope() {
    let i = idx();
    assert_eq!(i.resolve("clk_in"), None);
    assert_eq!(i.resolve("q"), Some(13));
    assert_eq!(i.collisions(), 1);
}

#[test]
fn scope_disambiguates() {
    let mut i = idx();
    i.scope = Some("dut".to_string());
    assert_eq!(i.resolve("clk_in"), Some(40));
    assert_eq!(i.resolve("q"), Some(13));
}

#[test]
fn full_scope_path_exact() {
    let mut i = idx();
    i.scope = Some("counter_tb.dut".to_string());
    assert_eq!(i.resolve("clk_in"), Some(40));
}

#[test]
fn single_scope_leaf_resolves() {
    let mut i = NetIndex::default();
    i.declare("counter.clk_in");
    i.add_toggles("counter.clk_in", 5);
    assert_eq!(i.resolve("clk_in"), Some(5));
    assert_eq!(i.collisions(), 0);
}

#[test]
fn leaf_is_what_follows_the_last_dot() {
    assert_eq!(leaf_of("a.b.c"), "c");
    assert_eq!(leaf_of("c"), "c");
    assert_eq!(leaf_of(""), "");
    assert_eq!(leaf_of("a."), "");
    assert_eq!(leaf_of(".a"), "a");
    assert_eq!(leaf_of("tb.dût"), "dût");
}

#[test]
fn declaring_again_does_not_collide() {
    let mut i = idx();
    i.declare("counter_tb.dut.q");
    i.declare("counter_tb.dut.q");
    assert_eq!(i.resolve("q"), Some(13));
    assert_eq!(i.collisions(), 1);
    assert_eq!(i.by_leaf.get("q").unwrap().len(), 1);
}

#[test]
fn counts_of_a_path_add_up() {
    let mut i = idx();
    i.add_toggles("counter_tb.dut.q", 7);
    assert_eq!(i.resolve("q"), Some(20));
    assert_eq!(*i.toggles.get("counter_tb.dut.q").unwrap(), 20);
    i.declare("counter_tb.dut.r");
    assert_eq!(i.resolve("r"), Some(0));
    assert_eq!(i.resolve("absent"), None);
}

#[test]
fn a_match_ends_at_a_dot() {
    let mut i = NetIndex::default();
    i.declare("top.xdut.q");
    i.add_toggles("top.xdut.q", 3);
    i.scope = Some("dut".to_string());
    assert_eq!(i.resolve("q"), None);
    i.scope = Some("xdut".to_string());
    assert_eq!(i.resolve("q"), Some(3));
    i.scope = Some("top.xdut".to_string());
    assert_eq!(i.resolve("q"), Some(3));
}

#[test]
fn a_qualified_net_resolves_below_its_scope() {
    let mut i = idx();
    assert_eq!(i.resolve("dut.clk_in"), Some(40));
    assert_eq!(i.resolve("counter_tb.clk_in"), Some(79));
    i.scope = Some("counter_tb".to_string());
    assert_eq!(i.resolve("dut.clk_in"), Some(40));
    assert_eq!(i.resolve("clk_in"), Some(79));
}

#[test]
fn ambiguous_leaves_are_listed() {
    let mut i = idx();
    assert_eq!(i.colliding_leaves(), vec!["clk_in".to_string()]);
    i.declare("counter_tb.q");
    let mut leaves = i.colliding_leaves();
    leaves.sort();
    assert_eq!(leaves, vec!["clk_in".to_string(), "q".to_string()]);
    assert!(NetIndex::default().colliding_leaves().is_empty());
}

#[test]
fn the_colliding_leaves_do_not_resolve() {
    let mut i = idx();
    i.declare("q2");
    i.declare("counter_tb.q2");
    let leaves = i.colliding_leaves();
    assert_eq!(i.collisions(), leaves.len());
    for l in ["clk_in", "q", "q2"] {
        assert_eq!(i.resolve(l).is_none(), leaves.iter().any(|x| x == l), "{l}");
    }
}
