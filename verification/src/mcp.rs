//! Built-in MCP (Model Context Protocol) server.
//!
//! The server speaks newline-delimited JSON-RPC 2.0 and exposes one tool,
//! `image_to_ascii`. This module answers one line at a time; reading lines, reading
//! the file of a tool call and writing replies is left to the program around the
//! library.

use crate::charset;
use crate::charset::{try_resolve, Charset, ResolveError};
use crate::engine;
use crate::engine::{convert, AsciiGrid, Options, DEFAULT_ALPHA_THRESHOLD};
use crate::float::Single;
use crate::font::FontStack;
use crate::json;
use crate::pipeline;
use crate::pixels::RgbaImage;
use crate::render;
use crate::render::{to_json, to_text};
use crate::text;
use vstd::prelude::*;

pub mod laws;
pub mod replies;

verus! {

/// The protocol version that is reported to a client that asks for none.
pub const PROTOCOL_VERSION: &'static str = "2025-06-18";

/// The version of the server.
pub const VERSION: &'static str = "0.4.0";

/// The width of a tool call that asks for none.
pub const DEFAULT_WIDTH: u64 = 100;

// The image that a file holds, read as the kind that its path says, as width, height and
// bytes of red, green and blue; or why there is none.
pub uninterp spec fn named_pixels(bytes: Seq<u8>, path: Seq<char>) -> Result<
    (u32, u32, Seq<u8>),
    Seq<char>,
>;

// Why a text is not JSON, if it is not.
pub uninterp spec fn json_error(text: Seq<char>) -> Option<Seq<char>>;

// The string at a place of a JSON text, if there is one.
pub uninterp spec fn string_at(text: Seq<char>, place: Seq<char>) -> Option<Seq<char>>;

// The whole number at a place of a JSON text, if there is one.
pub uninterp spec fn whole_at(text: Seq<char>, place: Seq<char>) -> Option<u64>;

// The truth value at a place of a JSON text, if there is one.
pub uninterp spec fn flag_at(text: Seq<char>, place: Seq<char>) -> Option<bool>;

// The value at a place of a JSON text, if there is one, written as JSON.
pub uninterp spec fn value_at(text: Seq<char>, place: Seq<char>) -> Option<Seq<char>>;

/// The text that an optional string holds.
pub open spec fn text_of(s: Option<String>) -> Option<Seq<char>> {
    match s {
        Some(s) => Some(s@),
        None => None,
    }
}

/// Why `serde_json::from_str` does not read a value from a text.
///
/// Trusted: whether there is an error, and what it says, is a function of the
/// text.
#[verifier::external_body]
fn find_error(line: &str) -> (r: Option<String>)
    ensures
        text_of(r) == json_error(line@),
{
    serde_json::from_str::<serde_json::Value>(line).err().map(|e| e.to_string())
}

/// `serde_json::Value::as_str` of what `serde_json::Value::pointer` finds.
///
/// Trusted: the string is a function of the text and of the place.
#[verifier::external_body]
fn find_string(line: &str, place: &str) -> (r: Option<String>)
    ensures
        text_of(r) == string_at(line@, place@),
{
    let value = serde_json::from_str::<serde_json::Value>(line).ok()?;
    value.pointer(place)?.as_str().map(|s| s.to_owned())
}

/// `serde_json::Value::as_u64` of what `serde_json::Value::pointer` finds.
///
/// Trusted: the number is a function of the text and of the place.
#[verifier::external_body]
fn find_whole(line: &str, place: &str) -> (r: Option<u64>)
    ensures
        r == whole_at(line@, place@),
{
    serde_json::from_str::<serde_json::Value>(line).ok()?.pointer(place)?.as_u64()
}

/// `serde_json::Value::as_bool` of what `serde_json::Value::pointer` finds.
///
/// Trusted: the truth value is a function of the text and of the place.
#[verifier::external_body]
fn find_flag(line: &str, place: &str) -> (r: Option<bool>)
    ensures
        r == flag_at(line@, place@),
{
    serde_json::from_str::<serde_json::Value>(line).ok()?.pointer(place)?.as_bool()
}

/// What `Display` of `serde_json::Value` writes of what
/// `serde_json::Value::pointer` finds.
///
/// Trusted: what is written is a function of the text and of the place, and has no
/// line break.
#[verifier::external_body]
fn find_value(line: &str, place: &str) -> (r: Option<String>)
    ensures
        text_of(r) == value_at(line@, place@),
        r matches Some(value) ==> json::one_line(value@),
{
    let value = serde_json::from_str::<serde_json::Value>(line).ok()?;
    value.pointer(place).map(|v| v.to_string())
}

/// A reply with a result, both as JSON.
pub open spec fn ok_text(id: Seq<char>, result: Seq<char>) -> Seq<char> {
    "{\"id\":"@ + id + ",\"jsonrpc\":\"2.0\",\"result\":"@ + result + "}"@
}

/// A reply with an error.
pub open spec fn error_text(id: Seq<char>, code: Seq<char>, message: Seq<char>) -> Seq<char> {
    "{\"error\":{\"code\":"@ + code + ",\"message\":"@ + json::json_string(message) + "},\"id\":"@
        + id + ",\"jsonrpc\":\"2.0\"}"@
}

/// A reply with a result.
fn ok_response(id: &str, result: &str) -> (r: String)
    ensures
        r@ == ok_text(id@, result@),
{
    let mut out = "{\"id\":".to_owned();
    out.append(id);
    out.append(",\"jsonrpc\":\"2.0\",\"result\":");
    out.append(result);
    out.append("}");
    out
}

/// A reply with an error.
fn error_response(id: &str, code: &str, message: &str) -> (r: String)
    ensures
        r@ == error_text(id@, code@, message@),
{
    let mut out = "{\"error\":{\"code\":".to_owned();
    out.append(code);
    out.append(",\"message\":");
    out.append(json::quote(message).as_str());
    out.append("},\"id\":");
    out.append(id);
    out.append(",\"jsonrpc\":\"2.0\"}");
    out
}

/// What the server says of itself.
pub open spec fn initialize_result(version: Option<Seq<char>>) -> Seq<char> {
    "{\"capabilities\":{\"tools\":{}},\"protocolVersion\":"@ + json::json_string(
        match version {
            Some(version) => version,
            None => PROTOCOL_VERSION@,
        },
    ) + ",\"serverInfo\":{\"name\":\"ascii-world\",\"version\":"@ + json::json_string(VERSION@)
        + "}}"@
}

/// What the server says of itself. The protocol version of the client is echoed.
fn initialize(version: &Option<String>) -> (r: String)
    ensures
        r@ == initialize_result(text_of(*version)),
{
    let mut out = "{\"capabilities\":{\"tools\":{}},\"protocolVersion\":".to_owned();
    match version {
        Some(version) => out.append(json::quote(version.as_str()).as_str()),
        None => out.append(json::quote(PROTOCOL_VERSION).as_str()),
    }
    out.append(",\"serverInfo\":{\"name\":\"ascii-world\",\"version\":");
    out.append(json::quote(VERSION).as_str());
    out.append("}}");
    out
}

/// What the tool is for.
pub const TOOL_TEXT: &'static str =
    "Convert an image file (PNG/JPEG/GIF/WebP/BMP) to ASCII art. Returns the ASCII text; optionally includes per-cell colors as JSON.";

/// What the charset of a tool call may be.
pub open spec fn charset_text() -> Seq<char> {
    "Character set: one of "@ + charset::name_list(0)
        + " or 'custom:<chars dark→light>' (default 'complex')"@
}

/// The description of the tool, with the schema of its arguments.
pub open spec fn tool_schema_text() -> Seq<char> {
    "{\"description\":"@ + json::json_string(TOOL_TEXT@)
        + ",\"inputSchema\":{\"properties\":{\"charset\":{\"description\":"@ + json::json_string(
        charset_text(),
    ) + ",\"type\":\"string\"},\"invert\":{\"description\":"@ + json::json_string(
        "Invert brightness mapping (for light backgrounds)"@,
    ) + ",\"type\":\"boolean\"},\"json\":{\"description\":"@ + json::json_string(
        "Return structured JSON (lines + #rrggbb colors) instead of plain text"@,
    ) + ",\"type\":\"boolean\"},\"path\":{\"description\":"@ + json::json_string(
        "Path to the input image file"@,
    ) + ",\"type\":\"string\"},\"width\":{\"description\":"@ + json::json_string(
        "Output width in characters (default 100)"@,
    )
        + ",\"minimum\":1,\"type\":\"integer\"}},\"required\":[\"path\"],\"type\":\"object\"},\"name\":\"image_to_ascii\"}"@
}

/// The description of the tool, with the schema of its arguments.
fn tool_schema() -> (r: String)
    ensures
        r@ == tool_schema_text(),
{
    let mut names = "Character set: one of ".to_owned();
    charset::push_names(&mut names);
    names.append(" or 'custom:<chars dark→light>' (default 'complex')");
    let mut out = "{\"description\":".to_owned();
    out.append(json::quote(TOOL_TEXT).as_str());
    out.append(",\"inputSchema\":{\"properties\":{\"charset\":{\"description\":");
    out.append(json::quote(names.as_str()).as_str());
    out.append(",\"type\":\"string\"},\"invert\":{\"description\":");
    out.append(json::quote("Invert brightness mapping (for light backgrounds)").as_str());
    out.append(",\"type\":\"boolean\"},\"json\":{\"description\":");
    out.append(
        json::quote("Return structured JSON (lines + #rrggbb colors) instead of plain text").as_str(),
    );
    out.append(",\"type\":\"boolean\"},\"path\":{\"description\":");
    out.append(json::quote("Path to the input image file").as_str());
    out.append(",\"type\":\"string\"},\"width\":{\"description\":");
    out.append(json::quote("Output width in characters (default 100)").as_str());
    out.append(
        ",\"minimum\":1,\"type\":\"integer\"}},\"required\":[\"path\"],\"type\":\"object\"},\"name\":\"image_to_ascii\"}",
    );
    out
}

/// The list of tools, which has one entry.
pub open spec fn tools_result() -> Seq<char> {
    "{\"tools\":["@ + tool_schema_text() + "]}"@
}

/// The result of a tool call.
pub open spec fn call_result(content: Seq<char>, failed: bool) -> Seq<char> {
    "{\"content\":[{\"text\":"@ + json::json_string(content)
        + ",\"type\":\"text\"}],\"isError\":"@ + (if failed {
        "true"@
    } else {
        "false"@
    }) + "}"@
}

/// The reply to a tool call.
fn call_response(id: &str, content: &str, failed: bool) -> (r: String)
    ensures
        r@ == ok_text(id@, call_result(content@, failed)),
{
    let mut out = "{\"content\":[{\"text\":".to_owned();
    out.append(json::quote(content).as_str());
    out.append(",\"type\":\"text\"}],\"isError\":");
    out.append(
        if failed {
            "true"
        } else {
            "false"
        },
    );
    out.append("}");
    ok_response(id, out.as_str())
}

/// The reply to a tool call that failed.
pub open spec fn failure_text(id: Seq<char>, why: Seq<char>) -> Seq<char> {
    ok_text(id, call_result("error: "@ + why, true))
}

/// The reply to a tool call that failed.
fn failure(id: &str, why: &str) -> (r: String)
    ensures
        r@ == failure_text(id@, why@),
{
    let mut out = "error: ".to_owned();
    out.append(why);
    call_response(id, out.as_str(), true)
}

/// What the server reads of the parameters of a request.
#[derive(Debug, Clone)]
pub struct Params {
    /// The protocol version of the client.
    pub version: Option<String>,
    /// The tool that is called.
    pub tool: Option<String>,
    pub path: Option<String>,
    pub width: Option<u64>,
    pub charset: Option<String>,
    pub invert: Option<bool>,
    pub json: Option<bool>,
}

/// What the server reads of the parameters of a request, as plain values.
#[verifier::ext_equal]
pub struct ParamsView {
    pub version: Option<Seq<char>>,
    pub tool: Option<Seq<char>>,
    pub path: Option<Seq<char>>,
    pub width: Option<u64>,
    pub charset: Option<Seq<char>>,
    pub invert: Option<bool>,
    pub json: Option<bool>,
}

impl View for Params {
    type V = ParamsView;

    open spec fn view(&self) -> ParamsView {
        ParamsView {
            version: text_of(self.version),
            tool: text_of(self.tool),
            path: text_of(self.path),
            width: self.width,
            charset: text_of(self.charset),
            invert: self.invert,
            json: self.json,
        }
    }
}

/// A tool call whose image is to be opened.
#[derive(Debug)]
pub struct ToolCall {
    /// The identifier of the request, as JSON.
    pub id: String,
    pub path: String,
    pub width: u32,
    pub charset: Charset,
    pub invert: bool,
    pub json: bool,
}

/// What to do next.
#[derive(Debug)]
pub enum Action {
    /// Nothing: blank lines and notifications get no reply.
    Ignore,
    /// Write a line.
    Reply(String),
    /// Open the image of a tool call, as opaque red, green and blue, and hand it
    /// to [`finish_call`].
    Open(ToolCall),
}

/// The value of an option, or a default.
pub open spec fn or_else<T>(value: Option<T>, other: T) -> T {
    match value {
        Some(value) => value,
        None => other,
    }
}

/// Whether an action is what a call of the tool asks for.
pub open spec fn is_call(
    action: &Action,
    id: Seq<char>,
    params: ParamsView,
    fonts: Seq<Seq<u8>>,
) -> bool {
    match params.path {
        None => action matches Action::Reply(line) && line@ == failure_text(
            id,
            "missing required argument 'path'"@,
        ),
        Some(path) => {
            let name = or_else(params.charset, "complex"@);
            match action {
                Action::Open(call) => {
                    &&& call.id@ == id
                    &&& call.path@ == path
                    &&& call.width == or_else(params.width, DEFAULT_WIDTH) % 0x1_0000_0000
                    &&& charset::is_tried(Ok(call.charset), name, fonts)
                    &&& call.invert == or_else(params.invert, false)
                    &&& call.json == or_else(params.json, false)
                },
                Action::Reply(line) => exists|e: ResolveError| #[trigger]
                    charset::is_tried(Err(e), name, fonts) && line@ == failure_text(
                        id,
                        e.spec_message(),
                    ),
                Action::Ignore => false,
            }
        },
    }
}

/// Whether an action is what a request asks for.
pub open spec fn is_handled(
    action: &Action,
    id: Seq<char>,
    method: Seq<char>,
    params: ParamsView,
    fonts: Seq<Seq<u8>>,
) -> bool {
    if method == "initialize"@ {
        action matches Action::Reply(line) && line@ == ok_text(id, initialize_result(params.version))
    } else if method == "ping"@ {
        action matches Action::Reply(line) && line@ == ok_text(id, "{}"@)
    } else if method == "tools/list"@ {
        action matches Action::Reply(line) && line@ == ok_text(id, tools_result())
    } else if method == "tools/call"@ {
        let tool = or_else(params.tool, ""@);
        if tool == "image_to_ascii"@ {
            is_call(action, id, params, fonts)
        } else {
            action matches Action::Reply(line) && line@ == error_text(
                id,
                "-32602"@,
                "unknown tool: "@ + tool,
            )
        }
    } else {
        action matches Action::Reply(line) && line@ == error_text(
            id,
            "-32601"@,
            "method not found: "@ + method,
        )
    }
}

/// Answers a call of the tool.
fn tools_call(id: &str, params: &Params, embedded: &FontStack) -> (r: Action)
    ensures
        is_call(&r, id@, params@, embedded@),
{
    let path = match &params.path {
        Some(path) => path.as_str().to_owned(),
        None => {
            return Action::Reply(failure(id, "missing required argument 'path'"));
        },
    };
    let width = match params.width {
        Some(width) => width,
        None => DEFAULT_WIDTH,
    };
    let name = match &params.charset {
        Some(name) => name.as_str(),
        None => "complex",
    };
    assert(name@ == or_else(params@.charset, "complex"@));
    let invert = match params.invert {
        Some(invert) => invert,
        None => false,
    };
    let json = match params.json {
        Some(json) => json,
        None => false,
    };
    match try_resolve(name, embedded) {
        Ok(charset) => Action::Open(
            ToolCall {
                id: id.to_owned(),
                path,
                width: (width % 0x1_0000_0000) as u32,
                charset,
                invert,
                json,
            },
        ),
        Err(e) => {
            let line = failure(id, e.message().as_str());
            assert(charset::is_tried(Err(e), or_else(params@.charset, "complex"@), embedded@));
            Action::Reply(line)
        },
    }
}

/// Answers a request.
pub fn handle(id: &str, method: &str, params: &Params, embedded: &FontStack) -> (r: Action)
    ensures
        is_handled(&r, id@, method@, params@, embedded@),
{
    if text::same(method, "initialize") {
        let result = initialize(&params.version);
        Action::Reply(ok_response(id, result.as_str()))
    } else if text::same(method, "ping") {
        Action::Reply(ok_response(id, "{}"))
    } else if text::same(method, "tools/list") {
        let mut result = "{\"tools\":[".to_owned();
        result.append(tool_schema().as_str());
        result.append("]}");
        Action::Reply(ok_response(id, result.as_str()))
    } else if text::same(method, "tools/call") {
        let tool = match &params.tool {
            Some(tool) => tool.as_str(),
            None => "",
        };
        if text::same(tool, "image_to_ascii") {
            return tools_call(id, params, embedded);
        }
        let mut message = "unknown tool: ".to_owned();
        message.append(tool);
        Action::Reply(error_response(id, "-32602", message.as_str()))
    } else {
        let mut message = "method not found: ".to_owned();
        message.append(method);
        Action::Reply(error_response(id, "-32601", message.as_str()))
    }
}

/// What the server reads of the parameters of a line.
pub open spec fn params_of(line: Seq<char>) -> ParamsView {
    ParamsView {
        version: string_at(line, "/params/protocolVersion"@),
        tool: string_at(line, "/params/name"@),
        path: string_at(line, "/params/arguments/path"@),
        width: whole_at(line, "/params/arguments/width"@),
        charset: string_at(line, "/params/arguments/charset"@),
        invert: flag_at(line, "/params/arguments/invert"@),
        json: flag_at(line, "/params/arguments/json"@),
    }
}

/// Whether an action is what a line asks for.
pub open spec fn is_answer(action: &Action, line: Seq<char>, fonts: Seq<Seq<u8>>) -> bool {
    if text::trimmed(line).len() == 0 {
        action is Ignore
    } else {
        match json_error(line) {
            Some(e) => action matches Action::Reply(reply) && reply@ == error_text(
                "null"@,
                "-32700"@,
                "parse error: "@ + e,
            ),
            None => match value_at(line, "/id"@) {
                None => action is Ignore,
                Some(id) => is_handled(
                    action,
                    id,
                    or_else(string_at(line, "/method"@), ""@),
                    params_of(line),
                    fonts,
                ),
            },
        }
    }
}

/// Answers a line. Blank lines are skipped, and so are notifications, which have
/// no identifier.
pub fn serve_line(line: &str, embedded: &FontStack) -> (r: Action)
    ensures
        is_answer(&r, line@, embedded@),
        match r {
            Action::Reply(reply) => json::one_line(reply@),
            Action::Open(call) => json::one_line(call.id@),
            Action::Ignore => true,
        },
{
    let chars = text::chars_of(line);
    let (from, to) = text::trim(&chars, 0, chars.len());
    assert(chars@.subrange(0, chars@.len() as int) =~= line@);
    assert(to - from == text::trimmed(line@).len());
    if from == to {
        return Action::Ignore;
    }
    match find_error(line) {
        Some(e) => {
            let mut message = "parse error: ".to_owned();
            message.append(e.as_str());
            proof {
                reveal_strlit("null");
                reveal_strlit("-32700");
                laws::lemma_error_line("null"@, "-32700"@, message@);
            }
            return Action::Reply(error_response("null", "-32700", message.as_str()));
        },
        None => {},
    }
    let id = match find_value(line, "/id") {
        Some(id) => id,
        None => {
            return Action::Ignore;
        },
    };
    let method = match find_string(line, "/method") {
        Some(method) => method,
        None => "".to_owned(),
    };
    let params = Params {
        version: find_string(line, "/params/protocolVersion"),
        tool: find_string(line, "/params/name"),
        path: find_string(line, "/params/arguments/path"),
        width: find_whole(line, "/params/arguments/width"),
        charset: find_string(line, "/params/arguments/charset"),
        invert: find_flag(line, "/params/arguments/invert"),
        json: find_flag(line, "/params/arguments/json"),
    };
    assert(params@ == params_of(line@));
    let r = handle(id.as_str(), method.as_str(), &params, embedded);
    proof {
        laws::law_replies_are_one_line(&r, id@, method@, params@, embedded@);
    }
    r
}

/// Whether conversion options are what a tool call asks for.
pub open spec fn are_call_options(opts: &Options, call: &ToolCall) -> bool {
    &&& opts.width == call.width
    &&& opts.charset.same(&call.charset)
    &&& opts.invert == call.invert
    &&& opts.aspect == (Single { bits: engine::TWO })
    &&& opts.alpha_threshold == DEFAULT_ALPHA_THRESHOLD
    &&& opts.matte == Some(pipeline::text_matte(call.invert))
    &&& opts.braille_threshold is None
}

/// What a tool call gives for a grid.
pub open spec fn call_text(grid: &AsciiGrid, call: &ToolCall) -> Seq<char> {
    if call.json {
        render::json_document(grid, &call.charset, call.invert, true)
    } else {
        render::text_rows(grid, grid.rows as nat)
    }
}

/// Whether a line is the reply to a tool call, for its opened image and the
/// options that it was converted with.
pub open spec fn is_finished_call(
    line: Seq<char>,
    call: &ToolCall,
    image: &RgbaImage,
    opts: &Options,
) -> bool {
    match engine::convert_error(image, opts) {
        Some(e) => line == failure_text(call.id@, e.spec_message()),
        None => exists|grid: AsciiGrid| #[trigger]
            engine::is_conversion(&grid, image, opts) && line == ok_text(
                call.id@,
                call_result(call_text(&grid, call), false),
            ),
    }
}

/// The reply to a tool call whose image was opened.
pub fn finish_call(call: &ToolCall, image: &RgbaImage) -> (r: String)
    requires
        image.wf(),
    ensures
        exists|opts: Options| #[trigger]
            are_call_options(&opts, call) && is_finished_call(r@, call, image, &opts),
        json::one_line(call.id@) ==> json::one_line(r@),
{
    let opts = Options {
        width: call.width,
        charset: call.charset.duplicate(),
        invert: call.invert,
        aspect: Single { bits: engine::TWO },
        alpha_threshold: DEFAULT_ALPHA_THRESHOLD,
        matte: Some(pipeline::matte_for_text(call.invert)),
        braille_threshold: None,
    };
    assert(are_call_options(&opts, call));
    let r = match convert(image, &opts) {
        Ok(grid) => {
            let content = if call.json {
                to_json(&grid, &call.charset, call.invert, true)
            } else {
                to_text(&grid)
            };
            assert(engine::is_conversion(&grid, image, &opts));
            proof {
                if json::one_line(call.id@) {
                    laws::lemma_call_line(call.id@, content@, false);
                }
            }
            call_response(call.id.as_str(), content.as_str(), false)
        },
        Err(e) => {
            proof {
                if json::one_line(call.id@) {
                    laws::lemma_call_line(call.id@, "error: "@ + e.spec_message(), true);
                }
            }
            failure(call.id.as_str(), e.message().as_str())
        },
    };
    assert(is_finished_call(r@, call, image, &opts));
    r
}

/// The reply to a tool call whose image could not be opened.
pub fn refuse_call(call: &ToolCall, why: &str) -> (r: String)
    ensures
        r@ == failure_text(call.id@, why@),
        json::one_line(call.id@) ==> json::one_line(r@),
{
    proof {
        if json::one_line(call.id@) {
            laws::lemma_call_line(call.id@, "error: "@ + why@, true);
        }
    }
    failure(call.id.as_str(), why)
}

/// `image::load_from_memory_with_format` for the format that `ImageFormat::from_path`
/// gives, then `DynamicImage::to_rgb8`; the message of an error with its causes.
///
/// Trusted: what comes out is a function of the bytes and the path, and the buffer holds
/// three bytes for every pixel.
#[verifier::external_body]
fn load_named(bytes: &[u8], path: &str) -> (r: Result<(u32, u32, Vec<u8>), String>)
    ensures
        match r {
            Ok((width, height, data)) => {
                &&& named_pixels(bytes@, path@) == Ok::<_, Seq<char>>((width, height, data@))
                &&& data@.len() == 3 * (width * height)
            },
            Err(e) => named_pixels(bytes@, path@) == Err::<(u32, u32, Seq<u8>), Seq<char>>(e@),
        },
{
    let format = image::ImageFormat::from_path(path);
    match format.and_then(|f| image::load_from_memory_with_format(bytes, f)) {
        Ok(decoded) => {
            let rgb = decoded.to_rgb8();
            Ok((rgb.width(), rgb.height(), rgb.into_raw()))
        },
        Err(e) => Err(format!("{:#}", anyhow::Error::new(e))),
    }
}

/// Byte `i` of an opaque image, from the bytes of its colors.
pub open spec fn opaque_byte(rgb: Seq<u8>, i: int) -> u8 {
    if i % 4 == 3 {
        255
    } else {
        rgb[3 * (i / 4) + i % 4]
    }
}

/// The bytes of an opaque image, from the bytes of its colors.
fn with_alpha(rgb: &Vec<u8>) -> (r: Vec<u8>)
    requires
        rgb@.len() % 3 == 0,
    ensures
        r@ == Seq::new((rgb@.len() / 3 * 4) as nat, |i: int| opaque_byte(rgb@, i)),
{
    let mut out: Vec<u8> = Vec::new();
    let mut i: usize = 0;
    while i < rgb.len()
        invariant
            i <= rgb@.len(),
            i % 3 == 0,
            rgb@.len() % 3 == 0,
            out@ =~= Seq::new((i / 3 * 4) as nat, |j: int| opaque_byte(rgb@, j)),
        decreases rgb@.len() - i,
    {
        out.push(rgb[i]);
        out.push(rgb[i + 1]);
        out.push(rgb[i + 2]);
        out.push(255);
        i = i + 3;
    }
    out
}

/// Whether a line is the reply to a tool call whose file holds the given bytes.
pub open spec fn is_call_reply(line: Seq<char>, call: &ToolCall, bytes: Seq<u8>) -> bool {
    match named_pixels(bytes, call.path@) {
        Err(e) => line == failure_text(call.id@, e),
        Ok((width, height, rgb)) => exists|opts: Options, image: RgbaImage|
            {
                &&& are_call_options(&opts, call)
                &&& image.wf()
                &&& image.width() == width
                &&& image.height() == height
                &&& image@ == Seq::new((4 * (width * height)) as nat, |i: int| opaque_byte(rgb, i))
                &&& #[trigger] is_finished_call(line, call, &image, &opts)
            },
    }
}

/// The reply to a tool call, from the bytes of its file. The alpha of an image is dropped.
pub fn answer_call(call: &ToolCall, bytes: &[u8]) -> (r: String)
    ensures
        is_call_reply(r@, call, bytes@),
        json::one_line(call.id@) ==> json::one_line(r@),
{
    let (width, height, rgb) = match load_named(bytes, call.path.as_str()) {
        Ok(loaded) => loaded,
        Err(e) => {
            return refuse_call(call, e.as_str());
        },
    };
    proof {
        assert(rgb@.len() % 3 == 0 && rgb@.len() / 3 * 4 == 4 * (width * height))
            by (nonlinear_arith)
            requires
                rgb@.len() == 3 * (width * height),
        ;
    }
    match RgbaImage::from_raw(width, height, with_alpha(&rgb)) {
        Some(image) => {
            let r = finish_call(call, &image);
            proof {
                let opts = choose|opts: Options| #[trigger]
                    are_call_options(&opts, call) && is_finished_call(r@, call, &image, &opts);
                assert(is_finished_call(r@, call, &image, &opts));
            }
            r
        },
        None => refuse_call(call, ""),
    }
}

} // verus!
