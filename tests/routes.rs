use exchange_host::routes::{split_segments, Handler, RouteTable};

fn function(module: &str, entry: &str) -> Handler {
    Handler::Function { module: module.to_string(), entry_point: entry.to_string() }
}

fn module_of(h: &Handler) -> String {
    match h {
        Handler::Function { module, .. } => module.clone(),
        Handler::StaticBlob { tech_id } => format!("blob:{}", tech_id),
    }
}

#[test]
fn split_keeps_empty_segments() {
    assert_eq!(
        split_segments(b"/a//b"),
        vec![b"".to_vec(), b"a".to_vec(), b"".to_vec(), b"b".to_vec()]
    );
    assert_eq!(split_segments(b""), vec![Vec::<u8>::new()]);
}

#[test]
fn plug_again_replaces_the_handler() {
    let mut t = RouteTable::new();
    t.plug(b"GET", b"/x", function("a", "run"));
    t.plug(b"GET", b"/x", function("b", "run"));
    let m = t.lookup(b"GET", b"/x").unwrap();
    assert_eq!(module_of(&m.handler), "b");
    assert_eq!(m.index, 0);
}

#[test]
fn unplug_then_lookup_is_not_found() {
    let mut t = RouteTable::new();
    t.plug(b"GET", b"/x", function("a", "run"));
    t.unplug(b"GET", b"/x");
    assert!(t.lookup(b"GET", b"/x").is_none());
    t.unplug(b"GET", b"/x");
    assert!(t.lookup(b"GET", b"/x").is_none());
}

#[test]
fn method_must_match_exactly() {
    let mut t = RouteTable::new();
    t.plug(b"GET", b"/x", function("a", "run"));
    assert!(t.lookup(b"POST", b"/x").is_none());
    assert!(t.lookup(b"get", b"/x").is_none());
}

#[test]
fn path_parameter_is_bound_as_header() {
    let mut t = RouteTable::new();
    t.plug(b"GET", b"/services/:service", function("w", "addStatus"));
    let m = t.lookup(b"GET", b"/services/payments").unwrap();
    assert_eq!(
        m.params,
        vec![(b"x-moc-path-param-service".to_vec(), b"payments".to_vec())]
    );
    assert!(t.lookup(b"GET", b"/services/").is_none());
    assert!(t.lookup(b"GET", b"/services/a/b").is_none());
}

#[test]
fn literal_segment_wins_over_parameter() {
    let mut t = RouteTable::new();
    t.plug(b"GET", b"/services/:service", function("param", "run"));
    t.plug(b"GET", b"/services/all", function("literal", "run"));
    let m = t.lookup(b"GET", b"/services/all").unwrap();
    assert_eq!(module_of(&m.handler), "literal");
    assert!(m.params.is_empty());
    let other = t.lookup(b"GET", b"/services/billing").unwrap();
    assert_eq!(module_of(&other.handler), "param");
}

#[test]
fn earlier_literal_position_decides() {
    let mut t = RouteTable::new();
    t.plug(b"GET", b"/:a/b", function("late", "run"));
    t.plug(b"GET", b"/a/:b", function("early", "run"));
    let m = t.lookup(b"GET", b"/a/b").unwrap();
    assert_eq!(module_of(&m.handler), "early");
}

#[test]
fn equally_specific_routes_go_to_the_first_registered() {
    let mut t = RouteTable::new();
    t.plug(b"GET", b"/u/:id", function("first", "run"));
    t.plug(b"GET", b"/u/:name", function("second", "run"));
    let m = t.lookup(b"GET", b"/u/7").unwrap();
    assert_eq!(module_of(&m.handler), "first");
    assert_eq!(m.params, vec![(b"x-moc-path-param-id".to_vec(), b"7".to_vec())]);
}
