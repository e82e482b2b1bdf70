//! The watchdog service handlers: services report that they are alive, and
//! the time of each report is kept in the persistence store.
use vstd::prelude::*;
use vstd::string::{StringExecFns, StringSliceAdditionalSpecFns};
use vstd::utf8::{decode_utf8, encode_utf8, valid_utf8};
use crate::buffers::BufferView;
use crate::bytes::{ends_with, has_prefix, has_suffix, slice_to_vec, starts_with};
use crate::dispatch::{STATUS_BAD_REQUEST, STATUS_INTERNAL_ERROR, STATUS_OK};
use crate::entries::{last_value, pairs_to_map, pairs_view, Pair};
use crate::runtime::{keeps_tables, Runtime};
use crate::text::{decimal, i64_value, parse_i64, push_decimal, push_signed_decimal, signed_decimal, string_from_utf8};

verus! {

/// A status report as a service sends it.
pub struct StatusReport {
    pub name: String,
    pub message: String,
}

/// The lower-case hexadecimal digit for `d` (below sixteen).
pub open spec fn hex_digit(d: int) -> char {
    seq!['0', '1', '2', '3', '4', '5', '6', '7', '8', '9', 'a', 'b', 'c', 'd', 'e', 'f'][d]
}

/// How one character stands inside a JSON string: `"` and `\` behind a
/// backslash, the control characters below U+0020 as `\b \t \n \f \r` or
/// `\u00XX`, every other character as itself.
pub open spec fn json_escape_char(c: char) -> Seq<char> {
    if c == '"' {
        seq!['\\', '"']
    } else if c == '\\' {
        seq!['\\', '\\']
    } else if c == '\u{8}' {
        seq!['\\', 'b']
    } else if c == '\t' {
        seq!['\\', 't']
    } else if c == '\n' {
        seq!['\\', 'n']
    } else if c == '\u{c}' {
        seq!['\\', 'f']
    } else if c == '\r' {
        seq!['\\', 'r']
    } else if (c as u32) < 32 {
        seq!['\\', 'u', '0', '0', hex_digit((c as u32) as int / 16), hex_digit((c as u32) as int % 16)]
    } else {
        seq![c]
    }
}

/// The characters of `s`, each escaped for a JSON string.
pub open spec fn json_escaped(s: Seq<char>) -> Seq<char>
    decreases s.len(),
{
    if s.len() == 0 {
        Seq::empty()
    } else {
        json_escaped(s.drop_last()) + json_escape_char(s.last())
    }
}

/// The JSON string literal for `s`: its escaped characters between quotes.
pub open spec fn json_string_literal(s: Seq<char>) -> Seq<char> {
    seq!['"'] + json_escaped(s) + seq!['"']
}

/// Relies on `serde_json::to_string` on a string slice: the JSON string
/// literal for it, quoted and escaped as `json_string_literal` states. It
/// writes into a `Vec` and cannot fail on a string.
#[verifier::external_body]
pub(crate) fn json_quote(s: &str) -> (r: String)
    ensures
        r@ == json_string_literal(s@),
{
    serde_json::to_string(s).unwrap_or_default()
}

/// The persistence key under which the time of `service`'s last report is kept.
pub open spec fn status_key(service: Seq<char>) -> Seq<char> {
    "/watchdog-v1/status/services/"@ + service + "/timestamp"@
}

/// The message that acknowledges a report from `service` at `t` seconds.
pub open spec fn status_message(service: Seq<char>, t: nat) -> Seq<char> {
    "status for '"@ + service + "' saved for timestamp "@ + decimal(t) + ", thanks"@
}

/// The JSON response body around an already quoted message.
pub open spec fn message_json(quoted: Seq<char>) -> Seq<char> {
    "{\"status\":true,\"message\":"@ + quoted + "}"@
}

/// `body` fits a buffer once written as UTF-8.
pub open spec fn fits(body: Seq<char>) -> bool {
    encode_utf8(body).len() <= u32::MAX
}

/// Where `body` fits a buffer, the output buffer `h` has been given it as
/// its payload with a JSON content type; otherwise nothing changed.
pub open spec fn json_answered(
    before: Map<u32, BufferView>,
    after: Map<u32, BufferView>,
    h: u32,
    body: Seq<char>,
) -> bool {
    if fits(body) {
        json_written(before, after, h, body)
    } else {
        after == before
    }
}

/// The acknowledgement body for a report from `service` at `now_ms`.
pub open spec fn status_ack(service: Seq<char>, now_ms: u64) -> Seq<char> {
    message_json(json_string_literal(status_message(service, (now_ms / 1000) as nat)))
}

/// The output buffer `h` of `before` has been given `body` as its payload
/// and a JSON content type; a handle that is not live is left alone.
pub open spec fn json_written(
    before: Map<u32, BufferView>,
    after: Map<u32, BufferView>,
    h: u32,
    body: Seq<char>,
) -> bool {
    if before.contains_key(h) {
        after == before.insert(
            h,
            BufferView {
                payload: encode_utf8(body),
                headers: before[h].headers.push(
                    (encode_utf8("content-type"@), encode_utf8("application/json"@)),
                ),
            },
        )
    } else {
        after == before
    }
}

/// The key under which the time of `service`'s last report is kept.
pub fn status_key_for(service: &str) -> (r: String)
    ensures
        r@ == status_key(service@),
{
    let mut k = String::from_str("/watchdog-v1/status/services/");
    k.append(service);
    k.append("/timestamp");
    k
}

/// The message that acknowledges a report from `service` at `t` seconds.
pub fn status_message_for(service: &str, t: u64) -> (r: String)
    ensures
        r@ == status_message(service@, t as nat),
{
    let mut m = String::from_str("status for '");
    m.append(service);
    m.append("' saved for timestamp ");
    push_decimal(&mut m, t);
    m.append(", thanks");
    m
}

/// The JSON response body `{"status":true,"message":<quoted>}`.
pub fn message_body(quoted: &str) -> (r: String)
    ensures
        r@ == message_json(quoted@),
{
    let mut b = String::from_str("{\"status\":true,\"message\":");
    b.append(quoted);
    b.append("}");
    b
}

/// Writes `body` with a JSON content type to the current output buffer.
/// Returns false, and writes nothing, where the body does not fit a buffer.
pub(crate) fn write_json(rt: &mut Runtime, body: &str) -> (r: bool)
    requires
        old(rt).wf(),
    ensures
        final(rt).wf(),
        keeps_tables(*old(rt), *final(rt)),
        r <==> fits(body@),
        json_answered(old(rt).buffers@, final(rt).buffers@, old(rt).output, body@),
        final(rt).buffers.next_handle() == old(rt).buffers.next_handle(),
{
    let bytes = body.as_bytes();
    if bytes.len() > 0xFFFF_FFFF {
        return false;
    }
    let out = rt.output;
    let ghost m0 = rt.buffers@;
    let _ = rt.write_exchange_buffer_header(out, "content-type", "application/json");
    let _ = rt.write_exchange_buffer(out, bytes);
    proof {
        if m0.contains_key(out) {
            let want = BufferView {
                payload: encode_utf8(body@),
                headers: m0[out].headers.push((encode_utf8("content-type"@), encode_utf8("application/json"@))),
            };
            assert(rt.buffers@ =~= m0.insert(out, want));
        }
    }
    true
}

/// Writes `{"status":true,"message":...}` with a JSON content type to the
/// current output buffer. Returns false, and writes nothing, where the body
/// does not fit a buffer.
pub fn message_response(rt: &mut Runtime, message: &str) -> (r: bool)
    requires
        old(rt).wf(),
    ensures
        final(rt).wf(),
        keeps_tables(*old(rt), *final(rt)),
        final(rt).buffers.next_handle() == old(rt).buffers.next_handle(),
        r <==> fits(message_json(json_string_literal(message@))),
        json_answered(
            old(rt).buffers@,
            final(rt).buffers@,
            old(rt).output,
            message_json(json_string_literal(message@)),
        ),
{
    let quoted = json_quote(message);
    let body = message_body(quoted.as_str());
    write_json(rt, body.as_str())
}

/// Stores the report time of `service` and acknowledges it: 200, or 500
/// where the acknowledgement cannot be written.
fn record_status(rt: &mut Runtime, service: &str, now_ms: u64) -> (r: u32)
    requires
        old(rt).wf(),
    ensures
        final(rt).buffers.next_handle() == old(rt).buffers.next_handle(),
        final(rt).wf(),
        final(rt).routes == old(rt).routes,
        final(rt).blobs == old(rt).blobs,
        final(rt).input == old(rt).input,
        final(rt).output == old(rt).output,
        final(rt).phase == old(rt).phase,
        final(rt).persistence@ == old(rt).persistence@.insert(
            encode_utf8(status_key(service@)),
            encode_utf8(decimal((now_ms / 1000) as nat)),
        ),
        r == STATUS_OK || r == STATUS_INTERNAL_ERROR,
        r == STATUS_OK <==> fits(status_ack(service@, now_ms)),
        json_answered(old(rt).buffers@, final(rt).buffers@, old(rt).output, status_ack(service@, now_ms)),
{
    let t = now_ms / 1000;
    let key = status_key_for(service);
    let value = crate::text::decimal_string(t);
    rt.persistence_set(key.as_str().as_bytes(), value.as_str().as_bytes());
    let message = status_message_for(service, t);
    if message_response(rt, message.as_str()) {
        STATUS_OK
    } else {
        STATUS_INTERNAL_ERROR
    }
}

/// Records a status report at `now_ms` (milliseconds since the epoch): the
/// time in whole seconds is stored under the service's key and acknowledged
/// with 200. A report that could not be read from the request (`None`)
/// gets 400 and changes nothing stored. 500 where the acknowledgement cannot
/// be written.
#[allow(non_snake_case)]
pub fn postStatus(rt: &mut Runtime, report: Option<StatusReport>, now_ms: u64) -> (r: u32)
    requires
        old(rt).wf(),
    ensures
        final(rt).wf(),
        final(rt).routes == old(rt).routes,
        final(rt).blobs == old(rt).blobs,
        final(rt).input == old(rt).input,
        final(rt).output == old(rt).output,
        final(rt).buffers.next_handle() == old(rt).buffers.next_handle(),
        report is None ==> {
            &&& r == STATUS_BAD_REQUEST
            &&& final(rt).persistence@ == old(rt).persistence@
            &&& json_answered(
                old(rt).buffers@,
                final(rt).buffers@,
                old(rt).output,
                message_json(json_string_literal("cannot parse"@)),
            )
        },
        report matches Some(rep) ==> {
            &&& final(rt).persistence@ == old(rt).persistence@.insert(
                encode_utf8(status_key(rep.name@)),
                encode_utf8(decimal((now_ms / 1000) as nat)),
            )
            &&& r == STATUS_OK || r == STATUS_INTERNAL_ERROR
            &&& r == STATUS_OK <==> fits(status_ack(rep.name@, now_ms))
            &&& json_answered(old(rt).buffers@, final(rt).buffers@, old(rt).output, status_ack(rep.name@, now_ms))
        },
{
    match report {
        None => {
            let _ = message_response(rt, "cannot parse");
            STATUS_BAD_REQUEST
        },
        Some(rep) => record_status(rt, rep.name.as_str(), now_ms),
    }
}

/// The header entries of the current input buffer; none where it is not live.
pub open spec fn input_headers(rt: Runtime) -> Seq<Pair> {
    if rt.buffers@.contains_key(rt.input) {
        rt.buffers@[rt.input].headers
    } else {
        Seq::empty()
    }
}

/// Records a status report for the service that the route's `:service`
/// parameter names, at `now_ms`. 400, with nothing stored, where the request
/// carries no such parameter or its value is not valid UTF-8.
#[allow(non_snake_case)]
pub fn addStatus(rt: &mut Runtime, now_ms: u64) -> (r: u32)
    requires
        old(rt).wf(),
    ensures
        final(rt).wf(),
        final(rt).routes == old(rt).routes,
        final(rt).blobs == old(rt).blobs,
        final(rt).input == old(rt).input,
        final(rt).output == old(rt).output,
        final(rt).buffers.next_handle() == old(rt).buffers.next_handle(),
        ({
            let m = pairs_to_map(input_headers(*old(rt)));
            let key = encode_utf8("x-moc-path-param-service"@);
            &&& !(m.contains_key(key) && valid_utf8(m[key])) ==> {
                &&& r == STATUS_BAD_REQUEST
                &&& final(rt).persistence@ == old(rt).persistence@
                &&& json_answered(
                    old(rt).buffers@,
                    final(rt).buffers@,
                    old(rt).output,
                    message_json(json_string_literal("missing service name"@)),
                )
            }
            &&& (m.contains_key(key) && valid_utf8(m[key])) ==> {
                let service = decode_utf8(m[key]);
                &&& final(rt).persistence@ == old(rt).persistence@.insert(
                    encode_utf8(status_key(service)),
                    encode_utf8(decimal((now_ms / 1000) as nat)),
                )
                &&& r == STATUS_OK || r == STATUS_INTERNAL_ERROR
                &&& r == STATUS_OK <==> fits(status_ack(service, now_ms))
                &&& json_answered(old(rt).buffers@, final(rt).buffers@, old(rt).output, status_ack(service, now_ms))
            }
        }),
{
    let service = match rt.buffers.get(rt.input) {
        None => None,
        Some(b) => match last_value(&b.headers, "x-moc-path-param-service".as_bytes()) {
            None => None,
            Some(v) => {
                let copy = slice_to_vec(v.as_slice(), 0, v.len());
                assert(copy@ =~= v@);
                string_from_utf8(copy)
            },
        },
    };
    proof {
        let hs = input_headers(*old(rt));
        assert(old(rt).buffers@.contains_key(old(rt).input) ==> hs == old(rt).buffers@[old(rt).input].headers);
    }
    match service {
        None => {
            proof {
                if !old(rt).buffers@.contains_key(old(rt).input) {
                    assert(input_headers(*old(rt)) =~= Seq::<Pair>::empty());
                    assert(pairs_to_map(Seq::<Pair>::empty()) =~= Map::<Seq<u8>, Seq<u8>>::empty());
                }
            }
            let _ = message_response(rt, "missing service name");
            STATUS_BAD_REQUEST
        },
        Some(name) => record_status(rt, name.as_str(), now_ms),
    }
}

/// The key prefix under which report times are kept.
pub open spec fn services_prefix() -> Seq<u8> {
    encode_utf8("/watchdog-v1/status/services/"@)
}

/// The key suffix of a report time.
pub open spec fn timestamp_suffix() -> Seq<u8> {
    encode_utf8("/timestamp"@)
}

/// The service and report time that a stored entry holds: its key is the
/// prefix, a UTF-8 service name and the suffix, and its value reads as an
/// `i64` (an optional sign, then decimal digits). Entries whose value does
/// not read so are left out.
pub open spec fn service_of(p: Pair) -> Option<(Seq<char>, int)> {
    let k = p.0;
    let mid = k.subrange(services_prefix().len() as int, k.len() - timestamp_suffix().len());
    if has_prefix(k, services_prefix()) && has_suffix(k, timestamp_suffix())
        && services_prefix().len() + timestamp_suffix().len() <= k.len() && valid_utf8(mid)
        && i64_value(p.1) is Some {
        Some((decode_utf8(mid), i64_value(p.1)->0))
    } else {
        None
    }
}

/// The services that the entries `ps` report, in order.
pub open spec fn services(ps: Seq<Pair>) -> Seq<(Seq<char>, int)>
    decreases ps.len(),
{
    if ps.len() == 0 {
        Seq::empty()
    } else {
        let rest = services(ps.drop_last());
        match service_of(ps.last()) {
            Some(s) => rest.push(s),
            None => rest,
        }
    }
}

/// One service in the status document: `"<name>":{"timestamp":<t>}`.
pub open spec fn service_json(s: (Seq<char>, int)) -> Seq<char> {
    json_string_literal(s.0) + ":{\"timestamp\":"@ + signed_decimal(s.1) + "}"@
}

/// The services of the status document, separated by commas.
pub open spec fn services_json(items: Seq<(Seq<char>, int)>) -> Seq<char>
    decreases items.len(),
{
    if items.len() == 0 {
        Seq::empty()
    } else if items.len() == 1 {
        service_json(items[0])
    } else {
        services_json(items.drop_last()) + ","@ + service_json(items.last())
    }
}

/// The status document: a fixed description and each reporting service with
/// its last report time.
pub open spec fn status_json(items: Seq<(Seq<char>, int)>) -> Seq<char> {
    "{\"description\":\"everything ok\",\"services\":{"@ + services_json(items) + "}}"@
}

fn service_entry(k: &Vec<u8>, v: &Vec<u8>) -> (r: Option<(String, i64)>)
    ensures
        r is Some <==> service_of((k@, v@)) is Some,
        r matches Some(s) ==> service_of((k@, v@)) == Some((s.0@, s.1 as int)),
{
    let pre = "/watchdog-v1/status/services/".as_bytes();
    let suf = "/timestamp".as_bytes();
    if !starts_with(k.as_slice(), pre) || !ends_with(k.as_slice(), suf) {
        return None;
    }
    if k.len() - suf.len() < pre.len() {
        return None;
    }
    let mid = slice_to_vec(k.as_slice(), pre.len(), k.len() - suf.len());
    let name = match string_from_utf8(mid) {
        Some(n) => n,
        None => return None,
    };
    match parse_i64(v.as_slice()) {
        Some(t) => Some((name, t)),
        None => None,
    }
}

proof fn lemma_services_json_push(items: Seq<(Seq<char>, int)>, it: (Seq<char>, int))
    ensures
        items.len() == 0 ==> services_json(items.push(it)) == service_json(it),
        items.len() > 0 ==> services_json(items.push(it)) == services_json(items) + ","@ + service_json(it),
{
    assert(items.push(it).drop_last() =~= items);
    assert(items.push(it).last() == it);
    if items.len() == 0 {
        assert(items.push(it)[0] == it);
    }
}

/// The comma-separated services that the entries `entries` report.
fn services_list(entries: &Vec<(Vec<u8>, Vec<u8>)>) -> (r: String)
    ensures
        r@ == services_json(services(pairs_view(entries@))),
{
    let ghost ps = pairs_view(entries@);
    let mut list = String::new();
    let mut count: usize = 0;
    let mut i: usize = 0;
    assert(ps.subrange(0, 0) =~= Seq::<Pair>::empty());
    assert(list@ =~= services_json(services(ps.subrange(0, 0))));
    while i < entries.len()
        invariant
            i <= entries@.len(),
            ps == pairs_view(entries@),
            list@ == services_json(services(ps.subrange(0, i as int))),
            count as int == services(ps.subrange(0, i as int)).len(),
            count <= i,
        decreases entries@.len() - i,
    {
        let ghost before = services(ps.subrange(0, i as int));
        let ghost sub = ps.subrange(0, i + 1);
        assert(sub.drop_last() =~= ps.subrange(0, i as int));
        assert(sub.last() == ps[i as int]);
        assert(ps[i as int] == (entries@[i as int].0@, entries@[i as int].1@));
        match service_entry(&entries[i].0, &entries[i].1) {
            None => {},
            Some((name, t)) => {
                let quoted = json_quote(name.as_str());
                let ghost prev = list@;
                if count > 0 {
                    list.append(",");
                } else {
                    assert(list@ =~= Seq::<char>::empty());
                }
                count = count + 1;
                list.append(quoted.as_str());
                list.append(":{\"timestamp\":");
                push_signed_decimal(&mut list, t);
                list.append("}");
                proof {
                    let it = (name@, t as int);
                    assert(services(sub) == before.push(it));
                    lemma_services_json_push(before, it);
                    if before.len() == 0 {
                        assert(list@ =~= service_json(it));
                    } else {
                        assert(list@ =~= prev + ","@ + service_json(it));
                    }
                }
            },
        }
        i = i + 1;
    }
    assert(ps.subrange(0, entries@.len() as int) =~= ps);
    list
}

/// Answers with the status document for every service that has reported:
/// 200, or 500 where the document does not fit a buffer (nothing is
/// written then).
#[allow(non_snake_case)]
pub fn getStatus(rt: &mut Runtime) -> (r: u32)
    requires
        old(rt).wf(),
    ensures
        final(rt).wf(),
        keeps_tables(*old(rt), *final(rt)),
        final(rt).buffers.next_handle() == old(rt).buffers.next_handle(),
        r == STATUS_OK || r == STATUS_INTERNAL_ERROR,
        r == STATUS_OK <==> fits(status_json(services(old(rt).persistence.subset_list(services_prefix())))),
        json_answered(
            old(rt).buffers@,
            final(rt).buffers@,
            old(rt).output,
            status_json(services(old(rt).persistence.subset_list(services_prefix()))),
        ),
{
    let entries = rt.persistence.get_subset("/watchdog-v1/status/services/".as_bytes());
    let list = services_list(&entries);
    let mut body = String::from_str("{\"description\":\"everything ok\",\"services\":{");
    body.append(list.as_str());
    body.append("}}");
    if write_json(rt, body.as_str()) {
        STATUS_OK
    } else {
        STATUS_INTERNAL_ERROR
    }
}

/// No character of `s` needs escaping in a JSON string.
pub open spec fn plain_json(s: Seq<char>) -> bool {
    forall|i: int| 0 <= i < s.len() ==> #[trigger] s[i] != '"' && s[i] != '\\' && (s[i] as u32) >= 32
}

proof fn lemma_plain_escaped(s: Seq<char>)
    requires
        plain_json(s),
    ensures
        json_escaped(s) == s,
    decreases s.len(),
{
    if s.len() > 0 {
        let init = s.drop_last();
        assert forall|i: int| 0 <= i < init.len() implies #[trigger] init[i] != '"' && init[i] != '\\'
            && (init[i] as u32) >= 32 by {
            assert(init[i] == s[i]);
        }
        lemma_plain_escaped(init);
        assert(s[s.len() - 1] == s.last());
        assert(json_escape_char(s.last()) == seq![s.last()]);
        assert(init + seq![s.last()] =~= s);
    }
}

proof fn lemma_decimal_plain(n: nat)
    ensures
        plain_json(decimal(n)),
    decreases n,
{
    if n >= 10 {
        lemma_decimal_plain(n / 10);
        let d = decimal(n / 10);
        assert forall|i: int| 0 <= i < decimal(n).len() implies #[trigger] decimal(n)[i] != '"'
            && decimal(n)[i] != '\\' && (decimal(n)[i] as u32) >= 32 by {
            if i < d.len() {
                assert(decimal(n)[i] == d[i]);
            }
        }
    }
}

/// The acknowledgement for a service whose name needs no escaping is
/// `{"status":true,"message":"status for '<name>' saved for timestamp <t>, thanks"}`,
/// with `<t>` the report time in whole seconds.
pub proof fn lemma_plain_status_ack(service: Seq<char>, now_ms: u64)
    requires
        plain_json(service),
    ensures
        status_ack(service, now_ms) == message_json(
            seq!['"'] + status_message(service, (now_ms / 1000) as nat) + seq!['"'],
        ),
{
    let t = (now_ms / 1000) as nat;
    let m = status_message(service, t);
    reveal_strlit("status for '");
    reveal_strlit("' saved for timestamp ");
    reveal_strlit(", thanks");
    lemma_decimal_plain(t);
    let a = "status for '"@;
    let b = "' saved for timestamp "@;
    let c = ", thanks"@;
    let d = decimal(t);
    assert forall|i: int| 0 <= i < m.len() implies #[trigger] m[i] != '"' && m[i] != '\\' && (m[i] as u32)
        >= 32 by {
        if i < a.len() {
            assert(m[i] == a[i]);
        } else if i < a.len() + service.len() {
            assert(m[i] == service[i - a.len()]);
        } else if i < a.len() + service.len() + b.len() {
            assert(m[i] == b[i - a.len() - service.len()]);
        } else if i < a.len() + service.len() + b.len() + d.len() {
            assert(m[i] == d[i - a.len() - service.len() - b.len()]);
        } else {
            assert(m[i] == c[i - a.len() - service.len() - b.len() - d.len()]);
        }
    }
    lemma_plain_escaped(m);
}

} // verus!
