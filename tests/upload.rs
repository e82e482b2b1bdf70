use exchange_host::buffers::INVALID_HANDLE;
use exchange_host::dispatch::Dispatch;
use exchange_host::runtime::Runtime;
use exchange_host::upload::{plugFile, PlugFileRequest};

fn request(bytes: &str) -> PlugFileRequest {
    PlugFileRequest {
        method: "GET".to_string(),
        path: "/hello.txt".to_string(),
        content_type: "text/plain".to_string(),
        bytes: bytes.to_string(),
    }
}

#[test]
fn upload_registers_and_serves_the_file() {
    let mut rt = Runtime::new();
    rt.plug_function("POST", "/files", "core", "plugFile");
    let _ = rt.handle_request(b"POST", b"/files", b"", &Vec::new());
    assert_eq!(plugFile(&mut rt, Some(request("aGVsbG8="))), 200);
    let resp = rt.finish(Some(200));
    assert_eq!(
        String::from_utf8(resp.body).unwrap(),
        "{\"status\":true,\"tech_id\":\"0\",\"method\":\"GET\",\"path\":\"/hello.txt\",\"content_type\":\"text/plain\",\"bytes_size\":5}"
    );
    match rt.handle_request(b"GET", b"/hello.txt", b"", &Vec::new()) {
        Dispatch::Respond(r) => {
            assert_eq!(r.status, 200);
            assert_eq!(r.body, b"hello".to_vec());
        }
        Dispatch::Invoke { .. } => panic!("static route expected"),
    }
}

#[test]
fn upload_with_bad_base64_is_bad_request() {
    let mut rt = Runtime::new();
    rt.plug_function("POST", "/files", "core", "plugFile");
    let _ = rt.handle_request(b"POST", b"/files", b"", &Vec::new());
    assert_eq!(plugFile(&mut rt, Some(request("not base64!"))), 400);
    let resp = rt.finish(Some(400));
    assert_eq!(
        String::from_utf8(resp.body).unwrap(),
        "{\"status\":true,\"message\":\"cannot decode base64 bytes in request body\"}"
    );
    assert_eq!(rt.blob_count(), 0);
}

#[test]
fn upload_without_request_is_bad_request() {
    let mut rt = Runtime::new();
    assert_eq!(plugFile(&mut rt, None), 400);
    assert_eq!(rt.blob_count(), 0);
}

#[test]
fn runtime_base64_buffers() {
    let mut rt = Runtime::new();
    let e = rt.base64_encode(b"hello");
    assert_eq!(rt.read_exchange_buffer(e), b"aGVsbG8=".to_vec());
    let d = rt.base64_decode("aGVsbG8=");
    assert_eq!(rt.read_exchange_buffer(d), b"hello".to_vec());
    assert_eq!(rt.base64_decode("a"), INVALID_HANDLE);
}
