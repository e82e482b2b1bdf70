//! The file-upload handler: a guest entry point that registers a static file
//! route from a JSON request carrying the content in base64.
use vstd::prelude::*;
use vstd::string::{StringExecFns, StringSliceAdditionalSpecFns};
use vstd::utf8::encode_utf8;
use crate::base64::{base64_decode, base64_decoding};
use crate::blobs::BlobView;
use crate::dispatch::{STATUS_BAD_REQUEST, STATUS_INTERNAL_ERROR, STATUS_OK};
use crate::routes::{plugged, split_path, Handler};
use crate::runtime::Runtime;
use crate::text::{decimal, push_decimal};
use crate::watchdog::{fits, json_answered, json_quote, json_string_literal, json_written, message_json, message_response, write_json};

verus! {

/// An upload request: where to serve the file, its content type, and its
/// content in base64.
pub struct PlugFileRequest {
    pub method: String,
    pub path: String,
    pub content_type: String,
    pub bytes: String,
}

/// The JSON answer to an upload, from the blob's technical id, the request's
/// method, path and content type, and the content's size.
pub open spec fn plug_file_json(
    tech_id: Seq<char>,
    method: Seq<char>,
    path: Seq<char>,
    content_type: Seq<char>,
    size: nat,
) -> Seq<char> {
    "{\"status\":true"@ + ",\"tech_id\":"@ + json_string_literal(tech_id) + ",\"method\":"@ + json_string_literal(method)
        + ",\"path\":"@ + json_string_literal(path) + ",\"content_type\":"@ + json_string_literal(content_type)
        + ",\"bytes_size\":"@ + decimal(size) + "}"@
}

fn quote_field(out: &mut String, label: &str, value: &str)
    ensures
        final(out)@ == old(out)@ + label@ + json_string_literal(value@),
{
    let q = json_quote(value);
    out.append(label);
    out.append(q.as_str());
}

/// Registers the uploaded file as a blob and serves it at the requested
/// method and path; 200 with a JSON description of what was registered.
/// 400, with an error message and nothing registered, where the request
/// could not be read (`None`) or its content is not base64; 500, changing
/// nothing, where the registry is full or the answer does not fit a buffer.
#[allow(non_snake_case)]
pub fn plugFile(rt: &mut Runtime, request: Option<PlugFileRequest>) -> (r: u32)
    requires
        old(rt).wf(),
    ensures
        final(rt).wf(),
        final(rt).persistence == old(rt).persistence,
        final(rt).input == old(rt).input,
        final(rt).output == old(rt).output,
        final(rt).buffers.next_handle() == old(rt).buffers.next_handle(),
        r == STATUS_OK || r == STATUS_BAD_REQUEST || r == STATUS_INTERNAL_ERROR,
        r != STATUS_OK ==> final(rt).routes == old(rt).routes && final(rt).blobs == old(rt).blobs,
        r == STATUS_INTERNAL_ERROR ==> final(rt).buffers == old(rt).buffers,
        request is None ==> r == STATUS_BAD_REQUEST && json_answered(
            old(rt).buffers@,
            final(rt).buffers@,
            old(rt).output,
            message_json(json_string_literal("cannot parse request body"@)),
        ),
        request matches Some(req) ==> {
            &&& base64_decoding(encode_utf8(req.bytes@)) is None ==> r == STATUS_BAD_REQUEST && json_answered(
                old(rt).buffers@,
                final(rt).buffers@,
                old(rt).output,
                message_json(json_string_literal("cannot decode base64 bytes in request body"@)),
            )
            &&& base64_decoding(encode_utf8(req.bytes@)) is Some ==> {
                let content = base64_decoding(encode_utf8(req.bytes@))->0;
                let id = decimal(old(rt).blobs@.len());
                let answer = plug_file_json(id, req.method@, req.path@, req.content_type@, content.len());
                &&& r == STATUS_OK <==> (old(rt).blobs@.len() < u64::MAX && fits(answer))
                &&& r == STATUS_OK ==> {
                    &&& final(rt).blobs@ == old(rt).blobs@.push(
                        BlobView { name: None, content_type: encode_utf8(req.content_type@), bytes: content },
                    )
                    &&& exists|t: String| t@ == id && final(rt).routes@ == plugged(
                        old(rt).routes@,
                        encode_utf8(req.method@),
                        split_path(encode_utf8(req.path@)),
                        Handler::StaticBlob { tech_id: t },
                    )
                    &&& json_written(old(rt).buffers@, final(rt).buffers@, old(rt).output, answer)
                }
            }
        },
{
    let req = match request {
        None => {
            let _ = message_response(rt, "cannot parse request body");
            return STATUS_BAD_REQUEST;
        },
        Some(req) => req,
    };
    let bytes = match base64_decode(req.bytes.as_str().as_bytes()) {
        None => {
            let _ = message_response(rt, "cannot decode base64 bytes in request body");
            return STATUS_BAD_REQUEST;
        },
        Some(b) => b,
    };
    if rt.blob_count() as u64 >= u64::MAX {
        return STATUS_INTERNAL_ERROR;
    }
    let mut body = String::from_str("{\"status\":true");
    let ghost id = decimal(old(rt).blobs@.len());
    let tech_id_text = crate::text::decimal_string(rt.blob_count() as u64);
    quote_field(&mut body, ",\"tech_id\":", tech_id_text.as_str());
    quote_field(&mut body, ",\"method\":", req.method.as_str());
    quote_field(&mut body, ",\"path\":", req.path.as_str());
    quote_field(&mut body, ",\"content_type\":", req.content_type.as_str());
    body.append(",\"bytes_size\":");
    push_decimal(&mut body, bytes.len() as u64);
    body.append("}");
    assert(body@ =~= plug_file_json(id, req.method@, req.path@, req.content_type@, bytes@.len()));
    if body.as_str().as_bytes().len() > 0xFFFF_FFFF {
        return STATUS_INTERNAL_ERROR;
    }
    let _ = rt.plug_file(req.method.as_str(), req.path.as_str(), req.content_type.as_str(), bytes.as_slice());
    let ok = write_json(rt, body.as_str());
    assert(ok);
    STATUS_OK
}

} // verus!
