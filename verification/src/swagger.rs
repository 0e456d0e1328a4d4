//! The pieces of the API-documentation surface that are plain data and
//! plain text.  Emitting the JSON document itself is the documentation
//! generator's business, outside this crate; here live the security
//! requirement record and the documentation page.

use vstd::prelude::*;
use vstd::string::StringExecFns;
use crate::text::{SLASH, copy_range, push_all};
use crate::pattern::{seg_is_binding, token_end, lemma_token_end};

verus! {

/// `{`, opening a templated path parameter.
pub const LBRACE: u8 = 123;

/// `}`, closing a templated path parameter.
pub const RBRACE: u8 = 125;

/// One `/`-separated token of a pattern, in the templated form: a
/// `:name` or `*name` token becomes `{name}`, anything else is kept.
pub open spec fn spec_convert_seg(t: Seq<u8>) -> Seq<u8> {
    if seg_is_binding(t) {
        seq![LBRACE] + t.drop_first() + seq![RBRACE]
    } else {
        t
    }
}

/// The pattern from position `i` on with every parameter and wildcard
/// token templated, token by token, `/` separators kept as they are
/// (empty tokens included).
pub open spec fn spec_convert_from(s: Seq<u8>, i: int) -> Seq<u8>
    decreases s.len() - i when 0 <= i <= s.len() via spec_convert_from_decreases
{
    let te = token_end(s, i);
    let ct = spec_convert_seg(s.subrange(i, te));
    if te >= s.len() {
        ct
    } else {
        ct + seq![SLASH] + spec_convert_from(s, te + 1)
    }
}

#[via_fn]
proof fn spec_convert_from_decreases(s: Seq<u8>, i: int) {
    if 0 <= i <= s.len() {
        lemma_token_end(s, i);
    }
}

/// Converts one token (already copied out) into its templated form,
/// mirroring [`spec_convert_seg`].
fn convert_seg(t: &[u8]) -> (r: Vec<u8>)
    ensures
        r@ == spec_convert_seg(t@),
{
    if t.len() > 0 && (t[0] == crate::text::COLON || t[0] == crate::text::STAR) {
        let mut r: Vec<u8> = Vec::new();
        r.push(LBRACE);
        let name = copy_range(t, 1, t.len());
        push_all(&mut r, name.as_slice());
        r.push(RBRACE);
        proof {
            assert(r@ =~= seq![LBRACE] + t@.drop_first() + seq![RBRACE]);
        }
        r
    } else {
        let r = copy_range(t, 0, t.len());
        proof {
            assert(r@ =~= t@);
        }
        r
    }
}

/// Converts the pattern from position `i` on, mirroring
/// [`spec_convert_from`].
fn convert_path_from(s: &[u8], i: usize) -> (r: Vec<u8>)
    requires
        i <= s@.len(),
    ensures
        r@ == spec_convert_from(s@, i as int),
    decreases s@.len() - i,
{
    let mut te: usize = i;
    while te < s.len() && s[te] != SLASH
        invariant
            i <= te <= s@.len(),
            token_end(s@, i as int) == token_end(s@, te as int),
        decreases s@.len() - te,
    {
        te = te + 1;
    }
    proof {
        lemma_token_end(s@, te as int);
    }
    let tok = copy_range(s, i, te);
    let mut r = convert_seg(tok.as_slice());
    if te < s.len() {
        r.push(SLASH);
        let rest = convert_path_from(s, te + 1);
        push_all(&mut r, rest.as_slice());
        proof {
            assert(r@ =~= spec_convert_seg(s@.subrange(i as int, te as int)) + seq![SLASH]
                + spec_convert_from(s@, te as int + 1));
        }
    }
    r
}

/// A pattern in the templated path form of the documentation: each
/// `:name` or `*name` token becomes `{name}`; everything else,
/// separators included, is kept as it is.
pub fn convert_path_format(path: &[u8]) -> (r: Vec<u8>)
    ensures
        r@ == spec_convert_from(path@, 0),
{
    convert_path_from(path, 0)
}

/// A security requirement attached to a documented route: a scheme
/// name and the scopes it demands.
pub struct SecurityRequirement {
    pub name: String,
    pub scopes: Vec<String>,
}

/// Everything of the documentation page before the JSON document's URL.
pub const SWAGGER_UI_HEAD: &'static str = "
<!DOCTYPE html>
<html>
<head>
    <title>Ree API Documentation</title>
    <link rel=\"stylesheet\" type=\"text/css\" href=\"https://unpkg.com/swagger-ui-dist@5.9.0/swagger-ui.css\" />
    <style>
        body { margin: 0; padding: 0; }
        .swagger-ui .topbar { display: none; }
    </style>
</head>
<body>
    <div id=\"swagger-ui\"></div>
    <script src=\"https://unpkg.com/swagger-ui-dist@5.9.0/swagger-ui-bundle.js\"></script>
    <script>
        SwaggerUIBundle({
            url: '";

/// Everything of the documentation page after the JSON document's URL.
pub const SWAGGER_UI_TAIL: &'static str = "',
            dom_id: '#swagger-ui',
            presets: [SwaggerUIBundle.presets.apis, SwaggerUIBundle.presets.standalone],
            tryItOutEnabled: true,
            showRequestHeaders: true,
            docExpansion: 'list',
            filter: true,
            showExtensions: true,
            showCommonExtensions: true
        });
    </script>
</body>
</html>
    ";

/// The documentation page: the fixed page text around the URL of the
/// JSON document it loads.
pub fn generate_swagger_ui(json_url: &str) -> (r: String)
    ensures
        r@ == SWAGGER_UI_HEAD@ + json_url@ + SWAGGER_UI_TAIL@,
{
    let mut r = String::from_str(SWAGGER_UI_HEAD);
    r.append(json_url);
    r.append(SWAGGER_UI_TAIL);
    r
}

} // verus!
