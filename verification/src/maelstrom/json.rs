//! What a line and an entry say, out of their JSON, and what goes out as JSON.
//!
//! A value is held as the text it is printed as. It is taken out of a line by the
//! path to it, in one parse, so that nothing is printed and parsed again on its
//! way.

use vstd::prelude::*;
use vstd::string::*;

use crate::maelstrom::{
    Body, BodyView, Kind, KindView, Message, MessageView, Op, OpView, Payload, PayloadView, What,
    WhatView,
};
use crate::text::{decimal, push_decimal, same_text};
use crate::wire::text_from_utf8;

verus! {

// ------------------------------------------------------------------- outside

/// What stands at a path in some JSON, printed.
pub uninterp spec fn json_member(text: Seq<char>, path: Seq<char>) -> Option<Seq<char>>;

/// What stands at a path in some JSON.
///
/// Calls `serde_json::from_str` and then `Value::pointer` on what it gives, and
/// prints what that finds: nothing where the text is no JSON or nothing stands
/// there. What comes of it has a name: the same text and path give the same. How a
/// value is printed is left unsaid.
#[verifier::external_body]
fn member(text: &str, path: &str) -> (r: Option<String>)
    ensures
        r is Some <==> json_member(text@, path@) is Some,
        r matches Some(value) ==> value@ == json_member(text@, path@)->0,
{
    let value: serde_json::Value = serde_json::from_str(text).ok()?;
    value.pointer(path).map(|found| found.to_string())
}

/// The string that some JSON is.
pub uninterp spec fn json_string(text: Seq<char>) -> Option<Seq<char>>;

/// The string that some JSON is.
///
/// Calls `serde_json::from_str` and `Value::as_str` on what it gives: nothing where
/// the text is not the JSON of a string. What comes of it has a name.
#[verifier::external_body]
fn string(text: &str) -> (r: Option<String>)
    ensures
        r is Some <==> json_string(text@) is Some,
        r matches Some(value) ==> value@ == json_string(text@)->0,
{
    let value: serde_json::Value = serde_json::from_str(text).ok()?;
    value.as_str().map(|found| found.to_owned())
}

/// The number that some JSON is.
pub uninterp spec fn json_number(text: Seq<char>) -> Option<u64>;

/// The number that some JSON is.
///
/// Calls `serde_json::from_str` and `Value::as_u64` on what it gives: nothing where
/// the text is not the JSON of a whole number that fits. What comes of it has a
/// name.
#[verifier::external_body]
fn number(text: &str) -> (r: Option<u64>)
    ensures
        r == json_number(text@),
{
    let value: serde_json::Value = serde_json::from_str(text).ok()?;
    value.as_u64()
}

/// Whether two texts are the JSON of equal values.
pub uninterp spec fn json_same(a: Seq<char>, b: Seq<char>) -> bool;

/// Whether two texts are the JSON of equal values.
///
/// Calls `serde_json::from_str` on both, and compares what it gives with the
/// `PartialEq` of `Value`. What comes of it has a name: two ways of writing one
/// value are equal, and which those are is left unsaid.
#[verifier::external_body]
pub(crate) fn same(a: &str, b: &str) -> (r: bool)
    ensures
        r == json_same(a@, b@),
{
    let left: Option<serde_json::Value> = serde_json::from_str(a).ok();
    let right: Option<serde_json::Value> = serde_json::from_str(b).ok();
    left == right
}

/// Some text as a JSON string.
pub uninterp spec fn json_quoted(text: Seq<char>) -> Seq<char>;

/// Some text as a JSON string.
///
/// Makes a `serde_json::Value` of it and prints that. What comes of it has a name:
/// which characters are escaped, and how, is left unsaid.
#[verifier::external_body]
fn quoted(text: &str) -> (r: String)
    ensures
        r@ == json_quoted(text@),
{
    serde_json::Value::from(text).to_string()
}

/// Some JSON with a number as one more member, printed.
pub uninterp spec fn json_with(text: Seq<char>, name: Seq<char>, value: u64) -> Option<Seq<char>>;

/// Some JSON with a number as one more member.
///
/// Calls `serde_json::from_str`, `Value::as_object_mut` and `Map::insert` on what
/// that gives, and prints the whole: nothing where the text is not the JSON of an
/// object. A member of that name that was there is gone. What comes of it has a
/// name: how the rest is printed is left unsaid.
#[verifier::external_body]
fn with_number(text: &str, name: &str, value: u64) -> (r: Option<String>)
    ensures
        r is Some <==> json_with(text@, name@, value) is Some,
        r matches Some(whole) ==> whole@ == json_with(text@, name@, value)->0,
{
    let mut whole: serde_json::Value = serde_json::from_str(text).ok()?;
    whole.as_object_mut()?.insert(name.to_owned(), serde_json::Value::from(value));
    Some(whole.to_string())
}

// ------------------------------------------------------------------ members

/// What stands at a path, and `null` where nothing does.
pub open spec fn at(text: Seq<char>, path: Seq<char>) -> Seq<char> {
    match json_member(text, path) {
        Some(value) => value,
        None => "null"@,
    }
}

/// The string at a path, and an empty one where there is none.
pub open spec fn string_at(text: Seq<char>, path: Seq<char>) -> Seq<char> {
    match json_string(at(text, path)) {
        Some(value) => value,
        None => Seq::empty(),
    }
}

/// The number at a path.
pub open spec fn number_at(text: Seq<char>, path: Seq<char>) -> Option<u64> {
    json_number(at(text, path))
}

fn value_at(text: &str, path: &str) -> (r: String)
    ensures
        r@ == at(text@, path@),
{
    match member(text, path) {
        Some(value) => value,
        None => "null".to_owned(),
    }
}

fn text_at(text: &str, path: &str) -> (r: String)
    ensures
        r@ == string_at(text@, path@),
{
    match string(value_at(text, path).as_str()) {
        Some(value) => value,
        None => {
            let r = String::new();
            proof {
                assert(r@ =~= Seq::empty());
            }
            r
        },
    }
}

fn count_at(text: &str, path: &str) -> (r: Option<u64>)
    ensures
        r == number_at(text@, path@),
{
    number(value_at(text, path).as_str())
}

fn joined(a: &str, b: &str) -> (r: String)
    ensures
        r@ == a@ + b@,
{
    let mut r = a.to_owned();
    r.append(b);
    r
}

/// The strings of an array from a place on, in order. What is not a string is
/// passed over.
pub open spec fn strings_from(text: Seq<char>, path: Seq<char>, i: u64) -> Seq<Seq<char>>
    decreases u64::MAX - i,
{
    match json_member(text, path + "/"@ + decimal(i as nat)) {
        None => Seq::empty(),
        Some(value) => {
            let rest = if i == u64::MAX {
                Seq::empty()
            } else {
                strings_from(text, path, (i + 1) as u64)
            };
            match json_string(value) {
                Some(one) => seq![one] + rest,
                None => rest,
            }
        },
    }
}

/// The strings of an array at a path, and none where there is no array.
pub open spec fn strings_at(text: Seq<char>, path: Seq<char>) -> Seq<Seq<char>> {
    let array = at(text, path);
    if array.len() > 0 && array[0] == '[' {
        strings_from(text, path, 0)
    } else {
        Seq::empty()
    }
}

/// What some texts say.
pub open spec fn said(all: Seq<String>) -> Seq<Seq<char>> {
    all.map_values(|s: String| s@)
}

fn list_at(text: &str, path: &str) -> (r: Vec<String>)
    ensures
        said(r@) == strings_at(text@, path@),
{
    let mut r: Vec<String> = Vec::new();
    proof {
        assert(said(r@) =~= Seq::empty());
    }
    let array = value_at(text, path);
    let opens: bool = match array.as_str().chars().next() {
        Some(c) => c == '[',
        None => false,
    };
    if !opens {
        return r;
    }
    let mut i: u64 = 0;
    proof {
        assert(said(r@) + strings_from(text@, path@, 0) =~= strings_from(text@, path@, 0));
    }
    loop
        invariant_except_break
            strings_from(text@, path@, 0) == said(r@) + strings_from(text@, path@, i),
        ensures
            said(r@) == strings_from(text@, path@, 0),
        decreases u64::MAX - i,
    {
        let mut place = joined(path, "/");
        push_decimal(&mut place, i);
        let ghost before = said(r@);
        match member(text, place.as_str()) {
            None => {
                proof {
                    assert(said(r@) + Seq::empty() =~= said(r@));
                }
                break;
            },
            Some(value) => {
                match string(value.as_str()) {
                    Some(one) => {
                        r.push(one);
                        proof {
                            assert(said(r@) =~= before.push(one@));
                        }
                    },
                    None => {},
                }
            },
        }
        if i == u64::MAX {
            proof {
                assert(said(r@) =~= strings_from(text@, path@, 0));
            }
            break;
        }
        proof {
            assert(strings_from(text@, path@, 0) =~= said(r@) + strings_from(
                text@,
                path@,
                (i + 1) as u64,
            ));
        }
        i = i + 1;
    }
    r
}

// -------------------------------------------------------------------- lines

/// The kind of request that stands at a path, with its operands.
pub open spec fn kind_at(line: Seq<char>, path: Seq<char>) -> KindView {
    let named = string_at(line, path + "/type"@);
    if named == "read"@ {
        KindView::Read
    } else if named == "write"@ {
        KindView::Write { value: at(line, path + "/value"@) }
    } else if named == "cas"@ {
        KindView::Cas { from: at(line, path + "/from"@), to: at(line, path + "/to"@) }
    } else {
        KindView::Unknown
    }
}

fn read_kind(line: &str, path: &str) -> (r: Kind)
    ensures
        r@ == kind_at(line@, path@),
{
    let named = text_at(line, joined(path, "/type").as_str());
    if same_text(named.as_str(), "read") {
        Kind::Read
    } else if same_text(named.as_str(), "write") {
        Kind::Write { value: value_at(line, joined(path, "/value").as_str()) }
    } else if same_text(named.as_str(), "cas") {
        Kind::Cas {
            from: value_at(line, joined(path, "/from").as_str()),
            to: value_at(line, joined(path, "/to").as_str()),
        }
    } else {
        Kind::Unknown
    }
}

/// What a line brings.
#[derive(Debug)]
pub enum Arrived {
    /// Who this node is, and who its peers are.
    Init { src: String, msg_id: u64, node_id: String, node_ids: Vec<String> },
    /// A Raft message in its envelope.
    Raft { payload: String },
    /// A client's request. The key is JSON, as text.
    Client { src: String, msg_id: u64, key: String, kind: Kind },
    /// A request a follower relayed here.
    Proxy { src: String, token: u64, key: String, kind: Kind },
    /// The answer to a request this node relayed.
    ProxyReply { token: u64, inner: String },
    /// Something else, or one of these with what it needs missing.
    Other,
}

/// What a line stands for.
pub enum ArrivedView {
    Init { src: Seq<char>, msg_id: u64, node_id: Seq<char>, node_ids: Seq<Seq<char>> },
    Raft { payload: Seq<char> },
    Client { src: Seq<char>, msg_id: u64, key: Seq<char>, kind: KindView },
    Proxy { src: Seq<char>, token: u64, key: Seq<char>, kind: KindView },
    ProxyReply { token: u64, inner: Seq<char> },
    Other,
}

impl View for Arrived {
    type V = ArrivedView;

    open spec fn view(&self) -> ArrivedView {
        match self {
            Arrived::Init { src, msg_id, node_id, node_ids } => ArrivedView::Init {
                src: src@,
                msg_id: *msg_id,
                node_id: node_id@,
                node_ids: said(node_ids@),
            },
            Arrived::Raft { payload } => ArrivedView::Raft { payload: payload@ },
            Arrived::Client { src, msg_id, key, kind } => ArrivedView::Client {
                src: src@,
                msg_id: *msg_id,
                key: key@,
                kind: kind@,
            },
            Arrived::Proxy { src, token, key, kind } => ArrivedView::Proxy {
                src: src@,
                token: *token,
                key: key@,
                kind: kind@,
            },
            Arrived::ProxyReply { token, inner } => ArrivedView::ProxyReply {
                token: *token,
                inner: inner@,
            },
            Arrived::Other => ArrivedView::Other,
        }
    }
}

/// What a line of JSON brings, by the type of its body.
pub open spec fn arrived_as(line: Seq<char>) -> ArrivedView {
    let named = string_at(line, "/body/type"@);
    let src = string_at(line, "/src"@);
    let msg_id = match number_at(line, "/body/msg_id"@) {
        Some(n) => n,
        None => 0,
    };
    let token = number_at(line, "/body/token"@);
    if named == "init"@ {
        ArrivedView::Init {
            src,
            msg_id,
            node_id: string_at(line, "/body/node_id"@),
            node_ids: strings_at(line, "/body/node_ids"@),
        }
    } else if named == "raft"@ {
        match json_string(at(line, "/body/payload"@)) {
            Some(payload) => ArrivedView::Raft { payload },
            None => ArrivedView::Other,
        }
    } else if named == "read"@ || named == "write"@ || named == "cas"@ {
        ArrivedView::Client {
            src,
            msg_id,
            key: at(line, "/body/key"@),
            kind: kind_at(line, "/body"@),
        }
    } else if named == "proxy"@ && token is Some {
        ArrivedView::Proxy {
            src,
            token: token->0,
            key: at(line, "/body/inner/key"@),
            kind: kind_at(line, "/body/inner"@),
        }
    } else if named == "proxy_reply"@ && token is Some {
        ArrivedView::ProxyReply { token: token->0, inner: at(line, "/body/inner"@) }
    } else {
        ArrivedView::Other
    }
}

/// What a line brings, where it is JSON.
pub open spec fn arrived_in(line: Seq<char>) -> Option<ArrivedView> {
    if json_member(line, ""@) is Some {
        Some(arrived_as(line))
    } else {
        None
    }
}

/// What a line brings, where it is JSON.
pub fn arrived(line: &str) -> (r: Option<Arrived>)
    ensures
        r is Some <==> arrived_in(line@) is Some,
        r matches Some(a) ==> a@ == arrived_in(line@)->0,
{
    if member(line, "").is_none() {
        return None;
    }
    let named = text_at(line, "/body/type");
    let kind = named.as_str();
    let src = text_at(line, "/src");
    let msg_id: u64 = match count_at(line, "/body/msg_id") {
        Some(n) => n,
        None => 0,
    };
    if same_text(kind, "init") {
        return Some(
            Arrived::Init {
                src,
                msg_id,
                node_id: text_at(line, "/body/node_id"),
                node_ids: list_at(line, "/body/node_ids"),
            },
        );
    }
    if same_text(kind, "raft") {
        return match string(value_at(line, "/body/payload").as_str()) {
            Some(payload) => Some(Arrived::Raft { payload }),
            None => Some(Arrived::Other),
        };
    }
    if same_text(kind, "read") || same_text(kind, "write") || same_text(kind, "cas") {
        return Some(
            Arrived::Client {
                src,
                msg_id,
                key: value_at(line, "/body/key"),
                kind: read_kind(line, "/body"),
            },
        );
    }
    match count_at(line, "/body/token") {
        Some(token) => {
            if same_text(kind, "proxy") {
                Some(
                    Arrived::Proxy {
                        src,
                        token,
                        key: value_at(line, "/body/inner/key"),
                        kind: read_kind(line, "/body/inner"),
                    },
                )
            } else if same_text(kind, "proxy_reply") {
                Some(Arrived::ProxyReply { token, inner: value_at(line, "/body/inner") })
            } else {
                Some(Arrived::Other)
            }
        },
        None => Some(Arrived::Other),
    }
}

// ------------------------------------------------------------------ entries

/// What the text of an entry's JSON asks for.
pub open spec fn payload_as(text: Seq<char>) -> PayloadView {
    let token = match number_at(text, "/token"@) {
        Some(n) => n,
        None => 0,
    };
    let key = string_at(text, "/key"@);
    let named = string_at(text, "/op"@);
    if named == "write"@ {
        PayloadView::Write { key, value: at(text, "/value"@), token }
    } else if named == "cas"@ {
        PayloadView::Cas { key, from: at(text, "/from"@), to: at(text, "/to"@), token }
    } else {
        PayloadView::Unknown { token }
    }
}

/// What the bytes of an entry ask for: nothing where they are no JSON. JSON is
/// UTF-8.
pub open spec fn payload_of(data: Seq<u8>) -> PayloadView {
    let text = vstd::utf8::decode_utf8(data);
    if vstd::utf8::valid_utf8(data) && json_member(text, ""@) is Some {
        payload_as(text)
    } else {
        PayloadView::Other
    }
}

/// What the bytes of an entry ask for.
pub fn payload_in(data: &[u8]) -> (r: Payload)
    ensures
        r@ == payload_of(data@),
{
    let text = match text_from_utf8(vstd::slice::slice_to_vec(data)) {
        Some(text) => text,
        None => {
            return Payload::Other;
        },
    };
    if member(text.as_str(), "").is_none() {
        return Payload::Other;
    }
    let token: u64 = match count_at(text.as_str(), "/token") {
        Some(n) => n,
        None => 0,
    };
    let key = text_at(text.as_str(), "/key");
    let named = text_at(text.as_str(), "/op");
    if same_text(named.as_str(), "write") {
        Payload::Write { key, value: value_at(text.as_str(), "/value"), token }
    } else if same_text(named.as_str(), "cas") {
        Payload::Cas {
            key,
            from: value_at(text.as_str(), "/from"),
            to: value_at(text.as_str(), "/to"),
            token,
        }
    } else {
        Payload::Unknown { token }
    }
}

/// What goes in a log entry for an operation, as JSON with its members in order.
pub open spec fn entry_text(op: OpView, token: u64) -> Seq<char> {
    match op {
        OpView::Write { key, value } => "{\"key\":"@ + json_quoted(key)
            + ",\"op\":\"write\",\"token\":"@ + decimal(token as nat) + ",\"value\":"@ + value
            + "}"@,
        OpView::Cas { key, from, to } => "{\"from\":"@ + from + ",\"key\":"@ + json_quoted(key)
            + ",\"op\":\"cas\",\"to\":"@ + to + ",\"token\":"@ + decimal(token as nat) + "}"@,
        OpView::Read { key } => "{\"key\":"@ + json_quoted(key) + ",\"op\":\"read\",\"token\":"@
            + decimal(token as nat) + "}"@,
    }
}

/// What goes in a log entry for an operation.
pub fn encode_op(op: &Op, token: u64) -> (r: Vec<u8>)
    ensures
        r@ == vstd::utf8::encode_utf8(entry_text(op@, token)),
{
    let mut out = String::new();
    match op {
        Op::Write { key, value } => {
            out.append("{\"key\":");
            out.append(quoted(key.as_str()).as_str());
            out.append(",\"op\":\"write\",\"token\":");
            push_decimal(&mut out, token);
            out.append(",\"value\":");
            out.append(value.as_str());
        },
        Op::Cas { key, from, to } => {
            out.append("{\"from\":");
            out.append(from.as_str());
            out.append(",\"key\":");
            out.append(quoted(key.as_str()).as_str());
            out.append(",\"op\":\"cas\",\"to\":");
            out.append(to.as_str());
            out.append(",\"token\":");
            push_decimal(&mut out, token);
        },
        Op::Read { key } => {
            out.append("{\"key\":");
            out.append(quoted(key.as_str()).as_str());
            out.append(",\"op\":\"read\",\"token\":");
            push_decimal(&mut out, token);
        },
    }
    out.append("}");
    proof {
        assert(out@ =~= entry_text(op@, token));
    }
    vstd::slice::slice_to_vec(out.as_str().as_bytes())
}

// ------------------------------------------------------------ lines that go out

/// A number as a member that others follow.
pub open spec fn number_member(name: Seq<char>, value: u64) -> Seq<char> {
    "\""@ + name + "\":"@ + decimal(value as nat) + ","@
}

fn push_number_member(out: &mut String, name: &str, value: u64)
    ensures
        final(out)@ == old(out)@ + number_member(name@, value),
{
    out.append("\"");
    out.append(name);
    out.append("\":");
    push_decimal(out, value);
    out.append(",");
    proof {
        assert(out@ =~= old(out)@ + number_member(name@, value));
    }
}

/// A request as a client writes it, with its members in order.
pub open spec fn request_text(key: Seq<char>, kind: KindView) -> Seq<char> {
    match kind {
        KindView::Read => "{\"key\":"@ + key + ",\"type\":\"read\"}"@,
        KindView::Write { value } => "{\"key\":"@ + key + ",\"type\":\"write\",\"value\":"@ + value
            + "}"@,
        KindView::Cas { from, to } => "{\"from\":"@ + from + ",\"key\":"@ + key + ",\"to\":"@ + to
            + ",\"type\":\"cas\"}"@,
        KindView::Unknown => "{\"key\":"@ + key + ",\"type\":\"unknown\"}"@,
    }
}

fn push_request(out: &mut String, key: &str, kind: &Kind)
    ensures
        final(out)@ == old(out)@ + request_text(key@, kind@),
{
    match kind {
        Kind::Read => {
            out.append("{\"key\":");
            out.append(key);
            out.append(",\"type\":\"read\"}");
        },
        Kind::Write { value } => {
            out.append("{\"key\":");
            out.append(key);
            out.append(",\"type\":\"write\",\"value\":");
            out.append(value.as_str());
            out.append("}");
        },
        Kind::Cas { from, to } => {
            out.append("{\"from\":");
            out.append(from.as_str());
            out.append(",\"key\":");
            out.append(key);
            out.append(",\"to\":");
            out.append(to.as_str());
            out.append(",\"type\":\"cas\"}");
        },
        Kind::Unknown => {
            out.append("{\"key\":");
            out.append(key);
            out.append(",\"type\":\"unknown\"}");
        },
    }
    proof {
        assert(out@ =~= old(out)@ + request_text(key@, kind@));
    }
}

/// An answer, with some members that come between its code and its text, in order.
/// What another node answered stands as it wrote it.
pub open spec fn body_text(body: BodyView, between: Seq<char>) -> Seq<char> {
    match body {
        BodyView::InitOk => "{"@ + between + "\"type\":\"init_ok\"}"@,
        BodyView::ReadOk { value } => "{"@ + between + "\"type\":\"read_ok\",\"value\":"@ + value
            + "}"@,
        BodyView::WriteOk => "{"@ + between + "\"type\":\"write_ok\"}"@,
        BodyView::CasOk => "{"@ + between + "\"type\":\"cas_ok\"}"@,
        BodyView::Error { code, text } => "{"@ + number_member("code"@, code) + between
            + "\"text\":"@ + json_quoted(text) + ",\"type\":\"error\"}"@,
        BodyView::Relayed { inner } => inner,
    }
}

fn push_body(out: &mut String, body: &Body, between: &str)
    ensures
        final(out)@ == old(out)@ + body_text(body@, between@),
{
    match body {
        Body::InitOk => {
            out.append("{");
            out.append(between);
            out.append("\"type\":\"init_ok\"}");
        },
        Body::ReadOk { value } => {
            out.append("{");
            out.append(between);
            out.append("\"type\":\"read_ok\",\"value\":");
            out.append(value.as_str());
            out.append("}");
        },
        Body::WriteOk => {
            out.append("{");
            out.append(between);
            out.append("\"type\":\"write_ok\"}");
        },
        Body::CasOk => {
            out.append("{");
            out.append(between);
            out.append("\"type\":\"cas_ok\"}");
        },
        Body::Error { code, text } => {
            out.append("{");
            push_number_member(out, "code", *code);
            out.append(between);
            out.append("\"text\":");
            out.append(quoted(text.as_str()).as_str());
            out.append(",\"type\":\"error\"}");
        },
        Body::Relayed { inner } => {
            out.append(inner.as_str());
        },
    }
    proof {
        assert(out@ =~= old(out)@ + body_text(body@, between@));
    }
}

/// What another node answered, under the number of this node's answer and the one
/// it is to. Nothing counts as an answer without members; what has no members at
/// all cannot be given any.
pub open spec fn relayed_text(inner: Seq<char>, in_reply_to: u64, msg_id: u64) -> Option<
    Seq<char>,
> {
    let answer = if inner == "null"@ {
        "{}"@
    } else {
        inner
    };
    match json_with(answer, "in_reply_to"@, in_reply_to) {
        Some(text) => json_with(text, "msg_id"@, msg_id),
        None => None,
    }
}

/// What a message says, as JSON with its members in order.
pub open spec fn what_text(what: WhatView, msg_id: u64) -> Option<Seq<char>> {
    match what {
        WhatView::Reply { in_reply_to, body: BodyView::Relayed { inner } } => relayed_text(
            inner,
            in_reply_to,
            msg_id,
        ),
        WhatView::Reply { in_reply_to, body } => Some(
            body_text(
                body,
                number_member("in_reply_to"@, in_reply_to) + number_member("msg_id"@, msg_id),
            ),
        ),
        WhatView::ProxyReply { token, body } => Some(
            "{\"inner\":"@ + body_text(body, Seq::empty()) + ","@ + number_member("msg_id"@, msg_id)
                + number_member("token"@, token) + "\"type\":\"proxy_reply\"}"@,
        ),
        WhatView::Proxy { token, key, kind } => Some(
            "{\"inner\":"@ + request_text(key, kind) + ","@ + number_member("msg_id"@, msg_id)
                + number_member("token"@, token) + "\"type\":\"proxy\"}"@,
        ),
        WhatView::Raft { payload } => Some(
            "{"@ + number_member("msg_id"@, msg_id) + "\"payload\":"@ + json_quoted(payload)
                + ",\"type\":\"raft\"}"@,
        ),
    }
}

/// A message as a line.
pub open spec fn line_text(src: Seq<char>, message: MessageView) -> Option<Seq<char>> {
    match what_text(message.what, message.msg_id) {
        Some(body) => Some(
            "{\"body\":"@ + body + ",\"dest\":"@ + json_quoted(message.dest) + ",\"src\":"@
                + json_quoted(src) + "}"@,
        ),
        None => None,
    }
}

fn relayed_body(inner: &str, in_reply_to: u64, msg_id: u64) -> (r: Option<String>)
    ensures
        r is Some <==> relayed_text(inner@, in_reply_to, msg_id) is Some,
        r matches Some(text) ==> text@ == relayed_text(inner@, in_reply_to, msg_id)->0,
{
    let answer = if same_text(inner, "null") {
        "{}"
    } else {
        inner
    };
    match with_number(answer, "in_reply_to", in_reply_to) {
        Some(text) => with_number(text.as_str(), "msg_id", msg_id),
        None => None,
    }
}

fn what_body(what: &What, msg_id: u64) -> (r: Option<String>)
    ensures
        r is Some <==> what_text(what@, msg_id) is Some,
        r matches Some(text) ==> text@ == what_text(what@, msg_id)->0,
{
    let mut out = String::new();
    match what {
        What::Reply { in_reply_to, body } => {
            if let Body::Relayed { inner } = body {
                return relayed_body(inner.as_str(), *in_reply_to, msg_id);
            }
            let mut between = String::new();
            push_number_member(&mut between, "in_reply_to", *in_reply_to);
            push_number_member(&mut between, "msg_id", msg_id);
            proof {
                assert(between@ =~= number_member("in_reply_to"@, *in_reply_to) + number_member(
                    "msg_id"@,
                    msg_id,
                ));
            }
            push_body(&mut out, body, between.as_str());
        },
        What::ProxyReply { token, body } => {
            let none = String::new();
            proof {
                assert(none@ =~= Seq::empty());
            }
            out.append("{\"inner\":");
            push_body(&mut out, body, none.as_str());
            out.append(",");
            push_number_member(&mut out, "msg_id", msg_id);
            push_number_member(&mut out, "token", *token);
            out.append("\"type\":\"proxy_reply\"}");
        },
        What::Proxy { token, key, kind } => {
            out.append("{\"inner\":");
            push_request(&mut out, key.as_str(), kind);
            out.append(",");
            push_number_member(&mut out, "msg_id", msg_id);
            push_number_member(&mut out, "token", *token);
            out.append("\"type\":\"proxy\"}");
        },
        What::Raft { payload } => {
            out.append("{");
            push_number_member(&mut out, "msg_id", msg_id);
            out.append("\"payload\":");
            out.append(quoted(payload.as_str()).as_str());
            out.append(",\"type\":\"raft\"}");
        },
    }
    proof {
        assert(out@ =~= what_text(what@, msg_id)->0);
    }
    Some(out)
}

/// A message as a line: none where what another node answered has no members, so
/// that it cannot say which request it is to.
pub fn line_of(src: &str, message: &Message) -> (r: Option<String>)
    ensures
        r is Some <==> line_text(src@, message@) is Some,
        r matches Some(line) ==> line@ == line_text(src@, message@)->0,
{
    match what_body(&message.what, message.msg_id) {
        Some(body) => {
            let mut out = String::new();
            out.append("{\"body\":");
            out.append(body.as_str());
            out.append(",\"dest\":");
            out.append(quoted(message.dest.as_str()).as_str());
            out.append(",\"src\":");
            out.append(quoted(src).as_str());
            out.append("}");
            proof {
                assert(out@ =~= line_text(src@, message@)->0);
            }
            Some(out)
        },
        None => None,
    }
}

} // verus!
