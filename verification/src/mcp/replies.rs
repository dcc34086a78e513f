//! What clients read of replies.

use crate::charset;
use crate::engine::Options;
use crate::json;
use crate::json::reading;
use crate::mcp;
use crate::mcp::{Action, ParamsView, ToolCall};
use crate::pixels;
use crate::pixels::RgbaImage;
use crate::web;
use vstd::prelude::*;

verus! {

/// The result of a tool call reads back: in the reply to its request stands one text, which is
/// what the call gave, and whether it failed.
pub proof fn law_results_read_back(
    id: Seq<char>,
    content: Seq<char>,
    failed: bool,
) -> (said: Seq<char>)
    ensures
        reading::read_string(said) == Some(content),
        mcp::ok_text(id, mcp::call_result(content, failed)) == "{\"id\":"@ + id
            + ",\"jsonrpc\":\"2.0\",\"result\":{\"content\":[{\"text\":"@ + said
            + ",\"type\":\"text\"}],\"isError\":"@ + (if failed {
            "true"@
        } else {
            "false"@
        }) + "}}"@,
{
    let said = json::json_string(content);
    let flag = if failed {
        "true"@
    } else {
        "false"@
    };
    reading::law_strings_read_back(content);
    reveal_strlit(",\"jsonrpc\":\"2.0\",\"result\":");
    reveal_strlit("{\"content\":[{\"text\":");
    reveal_strlit(",\"jsonrpc\":\"2.0\",\"result\":{\"content\":[{\"text\":");
    reveal_strlit("}");
    reveal_strlit("}}");
    let (a, b, c) = (
        ",\"jsonrpc\":\"2.0\",\"result\":"@,
        "{\"content\":[{\"text\":"@,
        ",\"jsonrpc\":\"2.0\",\"result\":{\"content\":[{\"text\":"@,
    );
    assert(a + b =~= c);
    assert("}"@ + "}"@ =~= "}}"@);
    let open = "{\"id\":"@ + id;
    let rest = said + ",\"type\":\"text\"}],\"isError\":"@ + flag;
    let result = b + said + ",\"type\":\"text\"}],\"isError\":"@ + flag + "}"@;
    assert(mcp::call_result(content, failed) == result);
    assert(result =~= b + rest + "}"@);
    assert(open + a + result + "}"@ =~= open + (a + b) + rest + ("}"@ + "}"@));
    assert(open + c + rest + "}}"@ =~= open + c + said + ",\"type\":\"text\"}],\"isError\":"@ + flag
        + "}}"@);
    said
}

/// The message of an error reads back, under its code.
pub proof fn law_errors_read_back(
    id: Seq<char>,
    code: Seq<char>,
    message: Seq<char>,
) -> (said: Seq<char>)
    ensures
        reading::read_string(said) == Some(message),
        mcp::error_text(id, code, message) == "{\"error\":{\"code\":"@ + code + ",\"message\":"@
            + said + "},\"id\":"@ + id + ",\"jsonrpc\":\"2.0\"}"@,
{
    reading::law_strings_read_back(message);
    json::json_string(message)
}

/// A call of the tool follows its arguments: the image at the path, in the charset, width and
/// kind that is asked for, where these are left out in the complex set, 100 columns wide, not
/// inverted and as text. A call without a path is refused, and one with a charset that cannot
/// be had.
pub proof fn law_calls_follow_their_arguments(
    action: &Action,
    id: Seq<char>,
    params: ParamsView,
    fonts: Seq<Seq<u8>>,
)
    requires
        mcp::is_handled(action, id, "tools/call"@, params, fonts),
        params.tool == Some("image_to_ascii"@),
    ensures
        params.path is None ==> action is Reply,
        match action {
            Action::Open(call) => {
                &&& call.id@ == id
                &&& params.path == Some(call.path@)
                &&& params.width matches Some(w) ==> (w <= u32::MAX ==> call.width == w)
                &&& params.width is None ==> call.width == 100
                &&& call.invert == (params.invert == Some(true))
                &&& call.json == (params.json == Some(true))
                &&& params.charset matches Some(name) ==> charset::is_tried(
                    Ok(call.charset),
                    name,
                    fonts,
                )
                &&& params.charset is None ==> charset::is_tried(
                    Ok(call.charset),
                    "complex"@,
                    fonts,
                )
            },
            Action::Reply(_) => true,
            Action::Ignore => false,
        },
{
    reveal_strlit("tools/call");
    reveal_strlit("tools/list");
    reveal_strlit("initialize");
    reveal_strlit("ping");
    assert("tools/call"@[6] != "tools/list"@[6]);
    assert("tools/call"@.len() == 10 && "ping"@.len() == 4);
    assert("tools/call"@[0] != "initialize"@[0]);
}

/// An opaque image has the colors of its bytes, three for every pixel, row by row.
pub proof fn law_opaque_images_have_their_colors(image: &RgbaImage, rgb: Seq<u8>, x: int, y: int)
    requires
        image.wf(),
        rgb.len() == 3 * (image.width() * image.height()),
        image@ == Seq::new(
            (4 * (image.width() * image.height())) as nat,
            |i: int| mcp::opaque_byte(rgb, i),
        ),
        0 <= x < image.width(),
        0 <= y < image.height(),
    ensures
        ({
            let k = 3 * (y * image.width() + x);
            image.pixel(x, y) == [rgb[k], rgb[k + 1], rgb[k + 2], 255u8]
        }),
{
    let (w, h) = (image.width() as int, image.height() as int);
    let n = y * w + x;
    assert(0 <= n && n + 1 <= w * h) by (nonlinear_arith)
        requires
            n == y * w + x,
            0 <= x < w,
            0 <= y,
            y + 1 <= h,
    ;
    assert(pixels::pixel_index(image.width(), x, y) == n);
    assert(image.pixel(x, y) =~= [rgb[3 * n], rgb[3 * n + 1], rgb[3 * n + 2], 255u8]);
}

/// A server says which protocol it speaks: the version that the client asks for, or its own.
pub proof fn law_protocol_versions_are_echoed(
    version: Option<Seq<char>>,
) -> (parts: (Seq<char>, Seq<char>))
    ensures
        mcp::initialize_result(version) == "{\"capabilities\":{\"tools\":{}},\"protocolVersion\":"@
            + parts.0 + ",\"serverInfo\":{\"name\":\"ascii-world\",\"version\":"@ + parts.1 + "}}"@,
        version matches Some(v) ==> reading::read_string(parts.0) == Some(v),
        version is None ==> reading::read_string(parts.0) == Some("2025-06-18"@),
        reading::read_string(parts.1) == Some("0.4.0"@),
{
    let said = match version {
        Some(v) => v,
        None => mcp::PROTOCOL_VERSION@,
    };
    reading::law_strings_read_back(said);
    reading::law_strings_read_back(mcp::VERSION@);
    (json::json_string(said), json::json_string(mcp::VERSION@))
}

/// Tools convert as pages do, with the same options for the same request: cells twice as high as
/// wide, blank where they are less opaque than 64 of 255, over black where inverted and else
/// over white, and dithered.
pub proof fn law_tools_convert_like_pages(opts: &Options, call: &ToolCall)
    ensures
        mcp::are_call_options(opts, call) == (web::are_web_options(opts, call.width, call.invert)
            && opts.charset.same(&call.charset)),
        mcp::are_call_options(opts, call) ==> {
            &&& opts.aspect.bits == 0x4000_0000
            &&& opts.alpha_threshold == 64
            &&& opts.matte == Some(
                if call.invert {
                    [0u8, 0u8, 0u8]
                } else {
                    [255u8, 255u8, 255u8]
                },
            )
            &&& opts.braille_threshold is None
        },
{
}

} // verus!
