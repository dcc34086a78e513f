//! What holds of every reply.

use crate::charset;
use crate::charset::ResolveError;
use crate::json;
use crate::mcp;
use crate::mcp::{Action, ParamsView};
use vstd::prelude::*;

verus! {

/// Joining three texts without line breaks.
proof fn lemma_three(a: Seq<char>, b: Seq<char>, c: Seq<char>)
    requires
        json::one_line(a),
        json::one_line(b),
        json::one_line(c),
    ensures
        json::one_line(a + b + c),
{
    json::lemma_joined(a, b);
    json::lemma_joined(a + b, c);
}

/// A reply with a result is one line where its parts are.
pub proof fn lemma_ok_line(id: Seq<char>, result: Seq<char>)
    requires
        json::one_line(id),
        json::one_line(result),
    ensures
        json::one_line(mcp::ok_text(id, result)),
{
    reveal_strlit("{\"id\":");
    reveal_strlit(",\"jsonrpc\":\"2.0\",\"result\":");
    reveal_strlit("}");
    lemma_three("{\"id\":"@, id, ",\"jsonrpc\":\"2.0\",\"result\":"@);
    lemma_three("{\"id\":"@ + id + ",\"jsonrpc\":\"2.0\",\"result\":"@, result, "}"@);
}

/// A reply with an error is one line where its parts are.
pub proof fn lemma_error_line(id: Seq<char>, code: Seq<char>, message: Seq<char>)
    requires
        json::one_line(id),
        json::one_line(code),
    ensures
        json::one_line(mcp::error_text(id, code, message)),
{
    let said = json::json_string(message);
    json::law_strings_are_one_line(message);
    reveal_strlit("{\"error\":{\"code\":");
    reveal_strlit(",\"message\":");
    reveal_strlit("},\"id\":");
    reveal_strlit(",\"jsonrpc\":\"2.0\"}");
    lemma_three("{\"error\":{\"code\":"@, code, ",\"message\":"@);
    let head = "{\"error\":{\"code\":"@ + code + ",\"message\":"@;
    lemma_three(head, said, "},\"id\":"@);
    lemma_three(head + said + "},\"id\":"@, id, ",\"jsonrpc\":\"2.0\"}"@);
}

/// What the server says of itself is one line.
proof fn lemma_initialize_line(version: Option<Seq<char>>)
    ensures
        json::one_line(mcp::initialize_result(version)),
{
    let v = match version {
        Some(version) => version,
        None => mcp::PROTOCOL_VERSION@,
    };
    json::law_strings_are_one_line(v);
    json::law_strings_are_one_line(mcp::VERSION@);
    reveal_strlit("{\"capabilities\":{\"tools\":{}},\"protocolVersion\":");
    reveal_strlit(",\"serverInfo\":{\"name\":\"ascii-world\",\"version\":");
    reveal_strlit("}}");
    let a = "{\"capabilities\":{\"tools\":{}},\"protocolVersion\":"@;
    let b = ",\"serverInfo\":{\"name\":\"ascii-world\",\"version\":"@;
    lemma_three(a, json::json_string(v), b);
    lemma_three(a + json::json_string(v) + b, json::json_string(mcp::VERSION@), "}}"@);
}

/// The list of tools is one line.
proof fn lemma_tools_line()
    ensures
        json::one_line(mcp::tools_result()),
{
    let t0 = json::json_string(mcp::TOOL_TEXT@);
    let t1 = json::json_string(mcp::charset_text());
    let t2 = json::json_string("Invert brightness mapping (for light backgrounds)"@);
    let t3 = json::json_string(
        "Return structured JSON (lines + #rrggbb colors) instead of plain text"@,
    );
    let t4 = json::json_string("Path to the input image file"@);
    let t5 = json::json_string("Output width in characters (default 100)"@);
    json::law_strings_are_one_line(mcp::TOOL_TEXT@);
    json::law_strings_are_one_line(mcp::charset_text());
    json::law_strings_are_one_line("Invert brightness mapping (for light backgrounds)"@);
    json::law_strings_are_one_line(
        "Return structured JSON (lines + #rrggbb colors) instead of plain text"@,
    );
    json::law_strings_are_one_line("Path to the input image file"@);
    json::law_strings_are_one_line("Output width in characters (default 100)"@);
    let a0 = "{\"description\":"@;
    let a1 = ",\"inputSchema\":{\"properties\":{\"charset\":{\"description\":"@;
    let a2 = ",\"type\":\"string\"},\"invert\":{\"description\":"@;
    let a3 = ",\"type\":\"boolean\"},\"json\":{\"description\":"@;
    let a4 = ",\"type\":\"boolean\"},\"path\":{\"description\":"@;
    let a5 = ",\"type\":\"string\"},\"width\":{\"description\":"@;
    let a6 =
        ",\"minimum\":1,\"type\":\"integer\"}},\"required\":[\"path\"],\"type\":\"object\"},\"name\":\"image_to_ascii\"}"@;
    reveal_strlit("{\"description\":");
    reveal_strlit(",\"inputSchema\":{\"properties\":{\"charset\":{\"description\":");
    reveal_strlit(",\"type\":\"string\"},\"invert\":{\"description\":");
    reveal_strlit(",\"type\":\"boolean\"},\"json\":{\"description\":");
    reveal_strlit(",\"type\":\"boolean\"},\"path\":{\"description\":");
    reveal_strlit(",\"type\":\"string\"},\"width\":{\"description\":");
    reveal_strlit(
        ",\"minimum\":1,\"type\":\"integer\"}},\"required\":[\"path\"],\"type\":\"object\"},\"name\":\"image_to_ascii\"}",
    );
    let s0 = a0 + t0 + a1;
    let s1 = s0 + t1 + a2;
    let s2 = s1 + t2 + a3;
    let s3 = s2 + t3 + a4;
    let s4 = s3 + t4 + a5;
    lemma_three(a0, t0, a1);
    lemma_three(s0, t1, a2);
    lemma_three(s1, t2, a3);
    lemma_three(s2, t3, a4);
    lemma_three(s3, t4, a5);
    lemma_three(s4, t5, a6);
    reveal_strlit("{\"tools\":[");
    reveal_strlit("]}");
    lemma_three("{\"tools\":["@, mcp::tool_schema_text(), "]}"@);
}

/// The reply to a tool call is one line where its identifier is.
pub proof fn lemma_call_line(id: Seq<char>, content: Seq<char>, failed: bool)
    requires
        json::one_line(id),
    ensures
        json::one_line(mcp::ok_text(id, mcp::call_result(content, failed))),
{
    let said = json::json_string(content);
    let flag = if failed {
        "true"@
    } else {
        "false"@
    };
    json::law_strings_are_one_line(content);
    reveal_strlit("{\"content\":[{\"text\":");
    reveal_strlit(",\"type\":\"text\"}],\"isError\":");
    reveal_strlit("true");
    reveal_strlit("false");
    reveal_strlit("}");
    let a = "{\"content\":[{\"text\":"@;
    let b = ",\"type\":\"text\"}],\"isError\":"@;
    lemma_three(a, said, b);
    lemma_three(a + said + b, flag, "}"@);
    lemma_ok_line(id, mcp::call_result(content, failed));
}

/// Every reply to a request is one line, where the identifier of the request is:
/// lines are what separates messages, whatever file names, charsets or versions a
/// client sends.
pub proof fn law_replies_are_one_line(
    action: &Action,
    id: Seq<char>,
    method: Seq<char>,
    params: ParamsView,
    fonts: Seq<Seq<u8>>,
)
    requires
        mcp::is_handled(action, id, method, params, fonts),
        json::one_line(id),
    ensures
        action matches Action::Reply(line) ==> json::one_line(line@),
{
    reveal_strlit("{}");
    reveal_strlit("-32601");
    reveal_strlit("-32602");
    lemma_initialize_line(params.version);
    lemma_ok_line(id, mcp::initialize_result(params.version));
    lemma_ok_line(id, "{}"@);
    lemma_tools_line();
    lemma_ok_line(id, mcp::tools_result());
    lemma_error_line(id, "-32601"@, "method not found: "@ + method);
    let tool = mcp::or_else(params.tool, ""@);
    lemma_error_line(id, "-32602"@, "unknown tool: "@ + tool);
    lemma_call_line(id, "error: "@ + "missing required argument 'path'"@, true);
    if method == "tools/call"@ && tool == "image_to_ascii"@ && params.path is Some {
        let name = mcp::or_else(params.charset, "complex"@);
        if action is Reply {
            let e = choose|e: ResolveError| #[trigger]
                charset::is_tried(Err(e), name, fonts) && action->Reply_0@ == mcp::failure_text(
                    id,
                    e.spec_message(),
                );
            lemma_call_line(id, "error: "@ + e.spec_message(), true);
        }
    }
}

} // verus!
