use exchange_host::buffers::INVALID_HANDLE;
use exchange_host::codec::decode_headers;
use exchange_host::dispatch::{Dispatch, Phase};
use exchange_host::routes::Handler;
use exchange_host::runtime::Runtime;

#[test]
fn guest_buffer_operations() {
    let mut rt = Runtime::new();
    let h = rt.create_exchange_buffer();
    rt.write_exchange_buffer(h, b"payload").unwrap();
    rt.write_exchange_buffer_header(h, "k", "v").unwrap();
    assert_eq!(rt.get_exchange_buffer_size(h), 7);
    assert_eq!(rt.read_exchange_buffer(h), b"payload".to_vec());
    assert_eq!(rt.read_buffer_as_string(h), Some("payload".to_string()));
    assert_eq!(
        rt.read_exchange_buffer_headers(h).unwrap(),
        vec![(b"k".to_vec(), b"v".to_vec())]
    );
    rt.free_buffer(h);
    rt.free_buffer(h);
    assert_eq!(rt.get_exchange_buffer_size(h), 0);
    assert!(rt.read_exchange_buffer_headers(h).is_none());
}

#[test]
fn persistence_through_buffers() {
    let mut rt = Runtime::new();
    assert_eq!(rt.persistence_get(b"/none"), INVALID_HANDLE);
    rt.persistence_set(b"/a/1", b"v1");
    rt.persistence_set(b"/a/2", b"v2");
    rt.persistence_set(b"/b/1", b"v3");
    let h = rt.persistence_get(b"/a/2");
    assert_eq!(rt.read_exchange_buffer(h), b"v2".to_vec());
    let s = rt.persistence_get_subset("/a/");
    assert_ne!(s, INVALID_HANDLE);
    let mut entries = decode_headers(&rt.read_exchange_buffer(s)).unwrap();
    entries.sort();
    assert_eq!(
        entries,
        vec![(b"/a/1".to_vec(), b"v1".to_vec()), (b"/a/2".to_vec(), b"v2".to_vec())]
    );
}

#[test]
fn blobs_by_name_and_id() {
    let mut rt = Runtime::new();
    let first = rt.register_blob("text/plain", b"anonymous");
    let named = rt.register_blob_with_name("logo", "image/png", b"\x89PNG");
    assert_eq!(first, "0");
    assert_eq!(named, "1");
    assert_eq!(rt.get_blob_tech_id_from_name("logo"), Some("1".to_string()));
    assert_eq!(rt.get_blob_tech_id_from_name("missing"), None);
    assert_eq!(rt.get_blob_bytes_as_string("logo"), None);
    rt.register_blob_with_name("note", "text/plain", b"hi");
    assert_eq!(rt.get_blob_bytes_as_string("note"), Some("hi".to_string()));
}

#[test]
fn request_without_route_is_rejected() {
    let mut rt = Runtime::new();
    match rt.handle_request(b"GET", b"/nothing", b"", &Vec::new()) {
        Dispatch::Respond(r) => {
            assert_eq!(r.status, 404);
            assert!(r.body.is_empty());
        }
        Dispatch::Invoke { .. } => panic!("no route was plugged"),
    }
    assert_eq!(rt.phase, Phase::Rejected);
}

#[test]
fn static_file_route_serves_the_blob() {
    let mut rt = Runtime::new();
    let id = rt.plug_file("GET", "/index.html", "text/html", b"<p>hi</p>");
    assert_eq!(id, "0");
    match rt.handle_request(b"GET", b"/index.html", b"", &Vec::new()) {
        Dispatch::Respond(r) => {
            assert_eq!(r.status, 200);
            assert_eq!(r.body, b"<p>hi</p>".to_vec());
            assert_eq!(r.headers, vec![(b"content-type".to_vec(), b"text/html".to_vec())]);
        }
        Dispatch::Invoke { .. } => panic!("a static route needs no guest"),
    }
}

#[test]
fn function_route_prepares_buffers_and_finish_frees_them() {
    let mut rt = Runtime::new();
    rt.plug_function("POST", "/services/:service", "watchdog", "addStatus");
    let headers = vec![(b"accept".to_vec(), b"*/*".to_vec())];
    let d = rt.handle_request(b"POST", b"/services/billing", b"body", &headers);
    let (input, output) = match d {
        Dispatch::Invoke { module, entry_point, input, output } => {
            assert_eq!(module, "watchdog");
            assert_eq!(entry_point, "addStatus");
            (input, output)
        }
        Dispatch::Respond(r) => panic!("unexpected response {}", r.status),
    };
    assert_eq!(rt.phase, Phase::Executing);
    assert_eq!(rt.get_input_buffer_id(), input);
    assert_eq!(rt.get_output_buffer_id(), output);
    assert_eq!(rt.read_exchange_buffer(input), b"body".to_vec());
    assert_eq!(
        rt.read_exchange_buffer_headers(input).unwrap(),
        vec![
            (b"accept".to_vec(), b"*/*".to_vec()),
            (b"x-moc-path-param-service".to_vec(), b"billing".to_vec()),
        ]
    );
    rt.write_exchange_buffer(output, b"done").unwrap();
    rt.write_exchange_buffer_header(output, "x-r", "1").unwrap();
    let resp = rt.finish(Some(201));
    assert_eq!(resp.status, 201);
    assert_eq!(resp.body, b"done".to_vec());
    assert_eq!(resp.headers, vec![(b"x-r".to_vec(), b"1".to_vec())]);
    assert_eq!(rt.phase, Phase::Completed);
    assert_eq!(rt.get_exchange_buffer_size(input), 0);
    assert_eq!(rt.get_exchange_buffer_size(output), 0);
}

#[test]
fn guest_failure_maps_to_internal_error() {
    let mut rt = Runtime::new();
    rt.plug_function("GET", "/x", "m", "f");
    let d = rt.handle_request(b"GET", b"/x", b"", &Vec::new());
    assert!(matches!(d, Dispatch::Invoke { .. }));
    rt.free_buffer(rt.get_input_buffer_id());
    let resp = rt.finish(None);
    assert_eq!(resp.status, 500);
    assert!(resp.body.is_empty());
}

#[test]
fn unplug_path_removes_the_route() {
    let mut rt = Runtime::new();
    rt.plug_function("GET", "/x", "m", "f");
    rt.unplug_path("GET", "/x");
    let d = rt.handle_request(b"GET", b"/x", b"", &Vec::new());
    assert!(matches!(d, Dispatch::Respond(ref r) if r.status == 404));
    match &rt.routes.lookup(b"GET", b"/x") {
        None => {}
        Some(m) => panic!("still routed: {}", matches!(m.handler, Handler::Function { .. })),
    }
}

#[test]
fn named_blob_can_back_a_route() {
    let mut rt = Runtime::new();
    assert!(rt.plug_named_file("GET", "/logo", "logo").is_err());
    rt.register_blob_with_name("logo", "image/png", b"PNG");
    rt.plug_named_file("GET", "/logo", "logo").unwrap();
    match rt.handle_request(b"GET", b"/logo", b"", &Vec::new()) {
        Dispatch::Respond(r) => {
            assert_eq!(r.status, 200);
            assert_eq!(r.body, b"PNG".to_vec());
            assert_eq!(r.headers, vec![(b"content-type".to_vec(), b"image/png".to_vec())]);
        }
        Dispatch::Invoke { .. } => panic!("static route expected"),
    }
}

#[test]
fn nested_call_keeps_the_outer_invocation() {
    let mut rt = Runtime::new();
    rt.plug_function("GET", "/outer", "m", "outer");
    let d = rt.handle_request(b"GET", b"/outer", b"", &Vec::new());
    let (input, output) = match d {
        Dispatch::Invoke { input, output, .. } => (input, output),
        Dispatch::Respond(_) => panic!("function route expected"),
    };
    let call_in = rt.create_exchange_buffer();
    let call_out = rt.create_exchange_buffer();
    let frame = rt.begin_nested_call(call_in, call_out);
    assert_eq!(rt.get_input_buffer_id(), call_in);
    assert_eq!(rt.get_output_buffer_id(), call_out);
    rt.write_exchange_buffer(rt.get_output_buffer_id(), b"inner").unwrap();
    assert_eq!(rt.end_nested_call(frame, None), 500);
    assert_eq!(rt.get_input_buffer_id(), input);
    assert_eq!(rt.get_output_buffer_id(), output);
    assert_eq!(rt.phase, Phase::Executing);
    assert_eq!(rt.read_exchange_buffer(call_out), b"inner".to_vec());
}
