use vyges_power::double::Double;
use vyges_power::saif::{tokenize, Node, Saif, SaifError, SaifFile, Tok};
use vyges_power::units::{Numerals, TimeUnit, Timescale};

fn double(x: f64) -> Double {
    Double { bits: x.to_bits() }
}

fn float(d: Double) -> f64 {
    f64::from_bits(d.bits)
}

fn unit_s(s: &Timescale) -> f64 {
    let scale = match s.unit {
        None => return 1.0e-9,
        Some(TimeUnit::Fs) => 1e-15,
        Some(TimeUnit::Ps) => 1e-12,
        Some(TimeUnit::Ns) => 1e-9,
        Some(TimeUnit::Us) => 1e-6,
        Some(TimeUnit::Ms) => 1e-3,
        Some(TimeUnit::S) => 1.0,
    };
    s.mantissa.parse::<f64>().unwrap_or(1.0) * scale
}

fn number(t: &Option<String>) -> Option<f64> {
    t.as_ref().and_then(|s| s.parse::<f64>().ok())
}

fn numerals(f: &SaifFile) -> Numerals {
    let mut table = Numerals::new();
    for t in f.duration.iter().chain(f.nets.iter().filter_map(|n| n.tc.as_ref())) {
        table.set(t.clone(), None, t.parse::<f64>().ok().map(double));
    }
    table
}

fn parse(text: &str) -> Result<Saif, SaifError> {
    assert!(Saif::is_readable(text));
    let file = Saif::scan(text)?;
    let spans = file
        .nets
        .iter()
        .map(|n| double([&n.t0, &n.t1, &n.tx].iter().map(|t| number(t).unwrap_or(0.0)).sum()))
        .collect();
    Saif::parse(text, &numerals(&file), &spans)
}

fn sim_time_s(s: &Saif) -> f64 {
    float(s.run_units) * unit_s(&s.timescale)
}

fn toggle_rate(s: &Saif, net: &str) -> f64 {
    match s.countable(net, double(sim_time_s(s))) {
        Some(n) => n as f64 / sim_time_s(s),
        None => 0.0,
    }
}

const SAIF: &str = r#"
(SAIFILE
  (SAIFVERSION "2.0")
  (DIRECTION "backward")
  (DIVIDER / )
  (TIMESCALE 1 ns)
  (DURATION 50.0)
  (INSTANCE top
    (NET
      (clk (T0 25.0) (T1 25.0) (TX 0.0) (TC 10) (IG 0))
      (n1  (T0 30.0) (T1 20.0) (TX 0.0) (TC 4)  (IG 0))
      (q   (T0 35.0) (T1 15.0) (TX 0.0) (TC 2)  (IG 0))
    )
    (INSTANCE sub
      (NET
        (deep (T0 40.0) (T1 10.0) (TX 0.0) (TC 6) (IG 0))
      )
    )
  )
)
"#;

const SAIF_HIER: &str = r#"
(SAIFILE
  (TIMESCALE 1 ns) (DURATION 50.0)
  (INSTANCE top
    (NET (clk (T0 25.0) (T1 25.0) (TX 0.0) (TC 10)))
    (INSTANCE dut
      (NET (clk (T0 25.0) (T1 25.0) (TX 0.0) (TC 4)) (q (T0 40.0) (T1 10.0) (TX 0.0) (TC 6)))
    )
  )
)
"#;

#[test]
fn parses_counts_and_rates() {
    let s = parse(SAIF).unwrap();
    assert!((sim_time_s(&s) - 50.0e-9).abs() < 1e-18);
    assert_eq!(*s.idx.toggles.get("top.clk").unwrap(), 10);
    assert_eq!(*s.idx.toggles.get("top.n1").unwrap(), 4);
    assert_eq!(*s.idx.toggles.get("top.q").unwrap(), 2);
    assert_eq!(*s.idx.toggles.get("top.sub.deep").unwrap(), 6);
    assert!((toggle_rate(&s, "n1") - 8.0e7).abs() < 1.0);
    assert!((toggle_rate(&s, "q") - 4.0e7).abs() < 1.0);
    assert_eq!(toggle_rate(&s, "absent"), 0.0);
}

#[test]
fn falls_back_to_span_without_duration() {
    let no_dur = "(SAIFILE (TIMESCALE 1 ns) (NET (a (T0 60.0) (T1 40.0) (TX 0.0) (TC 5))))";
    let s = parse(no_dur).unwrap();
    assert!((sim_time_s(&s) - 100.0e-9).abs() < 1e-18);
    assert!((toggle_rate(&s, "a") - 5.0e7).abs() < 1.0);
}

#[test]
fn scope_aware_resolution() {
    let s = parse(SAIF_HIER).unwrap();
    assert_eq!(*s.idx.toggles.get("top.clk").unwrap(), 10);
    assert_eq!(*s.idx.toggles.get("top.dut.clk").unwrap(), 4);
    assert_eq!(s.collisions(), 1);
    assert_eq!(toggle_rate(&s, "clk"), 0.0);
    let scoped = parse(SAIF_HIER).unwrap().with_scope(Some("dut".to_string()));
    assert!((toggle_rate(&scoped, "clk") - 8.0e7).abs() < 1.0);
    assert!((toggle_rate(&s, "q") - 1.2e8).abs() < 1.0);
}

fn shown(toks: &[Tok]) -> String {
    let parts: Vec<String> = toks
        .iter()
        .map(|t| match t {
            Tok::Open => "(".to_string(),
            Tok::Close => ")".to_string(),
            Tok::Atom(a) => format!("<{a}>"),
        })
        .collect();
    parts.join("")
}

#[test]
fn tokens_are_brackets_and_atoms() {
    assert_eq!(shown(&tokenize("(a b\"c d\"e)")), "(<a><b><c d><e>)");
    assert_eq!(shown(&tokenize(" \t\n")), "");
    assert_eq!(shown(&tokenize("\"\"x\u{a0}y")), "<><x><y>");
    assert_eq!(shown(&tokenize("\"open ( end")), "<open ( end>");
    assert_eq!(shown(&tokenize("))((")), "))((");
}

fn written(n: &Node) -> String {
    match n {
        Node::Atom(a) => format!("<{a}>"),
        Node::List(items) => {
            let parts: Vec<String> = items.iter().map(written).collect();
            format!("({})", parts.join(""))
        }
    }
}

#[test]
fn trees_follow_the_brackets() {
    assert_eq!(written(&Node::parse("a (b (c) ()) d").unwrap()), "(<a>(<b>(<c>)())<d>)");
    assert_eq!(written(&Node::parse("").unwrap()), "()");
    let toks = tokenize("(a (b) c)");
    let root = Node::parse("(a (b) c)").unwrap();
    assert_eq!(written(&root), format!("({})", shown(&toks)));
}

#[test]
fn unbalanced_brackets_are_refused() {
    let why = |t: &str| Node::parse(t).unwrap_err().0;
    assert_eq!(why(")"), "unexpected ')'");
    assert_eq!(why("(a) b)"), "unexpected ')'");
    assert_eq!(why("(a)) (b"), "unexpected ')'");
    assert_eq!(why("(a (b)"), "unbalanced '(' — missing ')'");
    assert_eq!(why("((("), "unbalanced '(' — missing ')'");
    assert!(Saif::is_readable("("));
    assert_eq!(parse("(").err().unwrap().message(), "saif error: unbalanced '(' — missing ')'");
}

#[test]
fn the_first_list_of_a_key_is_found() {
    let root = Node::parse("(x (dur 1) (DUR 2 (skip) 3)) (Dur 4)").unwrap();
    assert_eq!(root.find_kv("DUR"), Some(vec!["1".to_string()]));
    let root = Node::parse("(x (DUR 2 (skip) 3)) (Dur 4)").unwrap();
    assert_eq!(root.find_kv("dur"), Some(vec!["2".to_string(), "3".to_string()]));
    assert_eq!(root.find_kv("absent"), None);
    assert_eq!(root.head(), None);
    let Node::List(items) = &root else { panic!("a list") };
    assert_eq!(items[0].head(), Some("x"));
}

#[test]
fn an_instance_without_a_name_adds_none() {
    let s = parse("(INSTANCE (extra) (NET (a (TC 1))))").unwrap();
    assert_eq!(s.idx.toggles.get("a").copied(), Some(1));
    let s = parse("(instance u (net (a (tc 2)) b ((odd)) (c)))").unwrap();
    assert_eq!(s.idx.toggles.get("u.a").copied(), Some(2));
    assert_eq!(s.idx.toggles.get("u.c").copied(), Some(0));
    assert!(s.idx.toggles.get("u.b").is_none());
}

#[test]
fn a_lone_instance_cannot_be_read() {
    assert!(!Saif::is_readable("(INSTANCE)"));
    assert!(!Saif::is_readable("(x (INSTANCE a (instance)))"));
    assert!(Saif::is_readable("(INSTANCE a)"));
    assert!(Saif::is_readable("(NET (INSTANCE))"));
}

#[test]
fn counts_are_cut_to_whole_numbers() {
    let count = |tc: &str| {
        let s = parse(&format!("(NET (a (TC {tc})))")).unwrap();
        s.idx.toggles.get("a").copied().unwrap()
    };
    assert_eq!(count("7.9"), 7);
    assert_eq!(count("-3"), 0);
    assert_eq!(count("nan"), 0);
    assert_eq!(count("1e30"), u64::MAX);
    assert_eq!(count("x"), 0);
    assert_eq!(count("12e2"), 1200);
}

#[test]
fn counts_at_one_path_add_up() {
    let s = parse("(NET (a (TC 3))) (NET (a (TC 4)))").unwrap();
    assert_eq!(s.idx.toggles.get("a").copied(), Some(7));
    assert_eq!(s.collisions(), 0);
}

#[test]
fn the_duration_counts_where_it_is_positive() {
    let run = |head: &str| float(parse(&format!("{head} (NET (a (T0 2) (T1 3)) (b (T0 9)))")).unwrap().run_units);
    assert_eq!(run("(DURATION 50)"), 50.0);
    assert_eq!(run("(DURATION 0)"), 9.0);
    assert_eq!(run("(DURATION -5)"), 9.0);
    assert_eq!(run("(DURATION soon)"), 9.0);
    assert_eq!(run("(DURATION)"), 9.0);
    assert_eq!(run(""), 9.0);
    assert_eq!(float(parse("").unwrap().run_units), 0.0);
}

#[test]
fn time_scales_are_read() {
    let scale = |t: &str| unit_s(&parse(t).unwrap().timescale);
    assert_eq!(scale("(TIMESCALE 1 ns)"), 1e-9);
    assert_eq!(scale("(TIMESCALE 10PS)"), 10.0 * 1e-12);
    assert_eq!(scale("(TIMESCALE 100 u s)"), 100.0 * 1e-6);
    assert_eq!(scale("(TIMESCALE s)"), 1.0);
    assert_eq!(scale("(TIMESCALE 5)"), 1e-9);
    assert_eq!(scale(""), 1e-9);
}

#[test]
fn no_rate_without_a_length() {
    let s = parse("(NET (a (TC 3)))").unwrap();
    assert_eq!(toggle_rate(&s, "a"), 0.0);
    assert_eq!(s.countable("a", double(1.0)), Some(3));
    assert_eq!(s.countable("a", double(f64::NAN)), None);
}

#[test]
fn counts_fit_what_an_index_holds() {
    let fit = |text: &str| {
        let file = Saif::scan(text).unwrap();
        Saif::counts_fit(&file, &numerals(&file))
    };
    assert!(fit(""));
    assert!(fit("(NET (a (TC 1e30)))"));
    assert!(fit("(NET (a (TC 1e30)) (b (TC 1)))"));
    assert!(fit("(NET (a (TC 9e18)) (a (TC 9e18)))"));
    assert!(!fit("(NET (a (TC 1e30)) (a (TC 1)))"));
    assert!(!fit("(NET (a (TC 1e19))) (NET (a (TC 1e19)))"));
    assert!(fit("(INSTANCE x (NET (a (TC 1e19)))) (INSTANCE y (NET (a (TC 1e19))))"));
}

#[test]
fn the_name_of_a_net_is_no_entry() {
    let s = parse("(SAIFILE (DURATION 50) (INSTANCE top (NET (tc (T0 25) (T1 25) (TC 4)))))").unwrap();
    assert_eq!(s.idx.toggles.get("top.tc").copied(), Some(4));
    let s = parse("(NET (T0 (T0 20) (T1 25) (tc 3)) (tx (TX 1) (Tc 2) (t0 9)) (TC))").unwrap();
    assert_eq!(s.idx.toggles.get("T0").copied(), Some(3));
    assert_eq!(s.idx.toggles.get("tx").copied(), Some(2));
    assert_eq!(s.idx.toggles.get("TC").copied(), Some(0));
    assert_eq!(float(s.run_units), 45.0);
}

#[test]
fn a_group_of_nets_is_no_header() {
    let s = parse(
        "(SAIFILE (INSTANCE top (NET (duration (T0 1) (TC 2)) (TIMESCALE (TC 5)))) (TIMESCALE 1 ps) (DURATION 50))",
    )
    .unwrap();
    assert_eq!(float(s.run_units), 50.0);
    assert_eq!(s.timescale.unit, Some(TimeUnit::Ps));
    assert_eq!(s.idx.toggles.get("top.duration").copied(), Some(2));
    assert_eq!(s.idx.toggles.get("top.TIMESCALE").copied(), Some(5));
    let s = parse("(NET (duration (T0 1) (T1 2)))").unwrap();
    assert_eq!(float(s.run_units), 3.0);
}

#[test]
fn a_copy_resolves_the_same() {
    let s = parse(SAIF).unwrap().with_scope(Some("dut".to_string()));
    let c = s.clone();
    assert_eq!(c.idx.scope, s.idx.scope);
    assert_eq!(c.idx.colliding_leaves(), s.idx.colliding_leaves());
    for net in ["clk_in", "q", "absent"] {
        assert_eq!(c.idx.resolve(net), s.idx.resolve(net));
    }
    assert_eq!(sim_time_s(&c), sim_time_s(&s));
    let none = Saif::default();
    assert_eq!(none.idx.resolve("q"), None);
    assert_eq!(sim_time_s(&none), 0.0);
}

#[test]
fn an_entry_inside_a_net_can_tell_the_duration() {
    let run = |text: &str| float(parse(text).unwrap().run_units);
    assert_eq!(run("(NET (a (DURATION 5) (TC 3)))"), 5.0);
    assert_eq!(run("(NET (duration (T0 9) (Duration 5)))"), 5.0);
    assert_eq!(run("(NET (a (NET (DURATION 5)) (T0 9)))"), 5.0);
    assert_eq!(run("(NET ((DURATION 5)) (a (T0 9)))"), 5.0);
    assert_eq!(run("(INSTANCE (NET (DURATION 5)) (NET (DURATION (T0 9))))"), 5.0);
    assert_eq!(run("(INSTANCE u (NET (DURATION (T0 9))) (DURATION 5))"), 5.0);
    assert_eq!(run("(INSTANCE u (NET (DURATION (T0 9))))"), 9.0);
    let root = Node::parse("(NET (a (k 1)) (k (k 2)))").unwrap();
    assert_eq!(root.find_header("K"), Some(vec!["1".to_string()]));
    let root = Node::parse("(NET (k (a 1)))").unwrap();
    assert_eq!(root.find_header("k"), None);
    assert_eq!(root.find_kv("k"), Some(vec![]));
}
