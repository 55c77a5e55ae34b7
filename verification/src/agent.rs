//! The assistant service: its configuration, the request sent to it, and the reading of
//! its responses.
use vstd::prelude::*;
use crate::json::{field, field_of, get_field, lookup, str_of, u64_of, Json};
use crate::number::{
    dec_chars, lemma_parse_decimal_round_trip, parse_u64, parse_unsigned, push_decimal,
};
use crate::output::opt_view;
use crate::text::{
    chars_are_blank, chars_eq, chars_of, is_blank, join_lines, join_strings, push_chars, push_str,
    strip_end_by,
};

verus! {

/// Model used when `OPENAI_MODEL` is not set.
pub const DEFAULT_MODEL: &'static str = "gpt-5.4-mini";

/// Service address used when `OPENAI_BASE_URL` is not set.
pub const DEFAULT_BASE_URL: &'static str = "https://api.openai.com/v1";

/// Instructions used when neither `OUR_CLI_INSTRUCTIONS` nor `ASM_AGENT_INSTRUCTIONS` is set.
pub const DEFAULT_INSTRUCTIONS: &'static str = "You are a concise terminal assistant. Answer directly, avoid markdown tables unless useful, and keep responses practical.";

/// Output token cap used when `OPENAI_MAX_OUTPUT_TOKENS` is not set.
pub const DEFAULT_MAX_OUTPUT_TOKENS: u64 = 800;

/// A response of the assistant: its text and, when reported, the tokens it used.
pub struct AgentResponse {
    pub text: String,
    pub total_tokens: Option<u64>,
}

/// The settings the assistant reads from the environment; `None` where a variable is unset.
pub struct AgentEnv {
    pub openai_api_key: Option<String>,
    pub ai_api_key: Option<String>,
    pub openai_model: Option<String>,
    pub openai_base_url: Option<String>,
    pub our_cli_instructions: Option<String>,
    pub asm_agent_instructions: Option<String>,
    pub openai_max_output_tokens: Option<String>,
}

/// How to reach the assistant.
pub struct AgentConfig {
    pub api_key: String,
    pub model: String,
    pub base_url: String,
    pub instructions: String,
    pub max_output_tokens: u64,
}

/// Why the assistant's settings are unusable.
#[derive(Debug, PartialEq, Eq)]
pub enum AgentConfigError {
    /// Neither `OPENAI_API_KEY` nor `AI_API_KEY` is set.
    MissingApiKey,
    /// `OPENAI_MAX_OUTPUT_TOKENS` is not a whole number that fits in 64 bits.
    InvalidMaxOutputTokens,
}

/// Why a response of the assistant cannot be used.
#[derive(Debug, PartialEq, Eq)]
pub enum AgentError {
    /// The service answered with a status outside 200-299 and this message.
    RequestFailed { status: u16, message: String },
    /// The response holds no text, or only whitespace.
    MissingText,
}

/// What to do for a prompt: answer with the configured offline response, or send a request.
pub enum AgentRequest {
    /// The offline response configured for tests.
    Mock(AgentResponse),
    /// A request to the service: where to send it, the key to send it with, and its JSON body.
    Http { url: String, api_key: String, body: String },
}

/// A lower-case hexadecimal digit.
pub open spec fn hex_lower(d: nat) -> char {
    if d < 10 {
        ('0' as nat + d) as char
    } else {
        ('a' as nat + d - 10) as char
    }
}

/// How `serde_json` writes one character inside a string: `"` and `\` after a backslash;
/// backspace, tab, line feed, form feed and carriage return as `\b \t \n \f \r`; other
/// characters below U+0020 as `\u00` and two lower-case hex digits; any other character as is.
pub open spec fn json_escape_char(c: char) -> Seq<char> {
    if c == '"' {
        seq!['\\', '"']
    } else if c == '\\' {
        seq!['\\', '\\']
    } else if c == '\u{8}' {
        seq!['\\', 'b']
    } else if c == '\t' {
        seq!['\\', 't']
    } else if c == '\n' {
        seq!['\\', 'n']
    } else if c == '\u{c}' {
        seq!['\\', 'f']
    } else if c == '\r' {
        seq!['\\', 'r']
    } else if (c as u32) < 0x20 {
        seq!['\\', 'u', '0', '0', hex_lower((c as u32 / 16) as nat), hex_lower((c as u32 % 16) as nat)]
    } else {
        seq![c]
    }
}

/// The characters of `s`, each written as `json_escape_char` writes it.
pub open spec fn json_escaped(s: Seq<char>) -> Seq<char>
    decreases s.len(),
{
    if s.len() == 0 {
        seq![]
    } else {
        json_escape_char(s[0]) + json_escaped(s.drop_first())
    }
}

/// The JSON text of a string as `serde_json` writes it: the escaped characters in quotes.
pub open spec fn json_string_literal(s: Seq<char>) -> Seq<char> {
    seq!['"'] + json_escaped(s) + seq!['"']
}

/// The reason phrase that the `http` crate gives a status code: `StatusCode::from_u16`, which
/// refuses codes outside 100-999, then `canonical_reason`, a table lookup; `None` where either
/// gives none.
pub uninterp spec fn http_reason_phrase(code: u16) -> Option<Seq<char>>;

pub open spec fn opt_string_view(s: Option<String>) -> Option<Seq<char>> {
    match s {
        Some(v) => Some(v@),
        None => None,
    }
}

pub open spec fn or_else(a: Option<Seq<char>>, b: Option<Seq<char>>) -> Option<Seq<char>> {
    match a {
        Some(v) => Some(v),
        None => b,
    }
}

/// The configuration that the environment `vars` describes.
pub open spec fn config_from(vars: AgentEnv) -> Result<
    (Seq<char>, Seq<char>, Seq<char>, Seq<char>, u64),
    AgentConfigError,
> {
    let key = or_else(opt_string_view(vars.openai_api_key), opt_string_view(vars.ai_api_key));
    let max = match opt_string_view(vars.openai_max_output_tokens) {
        Some(v) => match parse_unsigned(v, u64::MAX as nat) {
            Some(n) => Some(n as u64),
            None => None,
        },
        None => Some(DEFAULT_MAX_OUTPUT_TOKENS),
    };
    match key {
        None => Err(AgentConfigError::MissingApiKey),
        Some(k) => match max {
            None => Err(AgentConfigError::InvalidMaxOutputTokens),
            Some(m) => Ok(
                (
                    k,
                    match opt_string_view(vars.openai_model) {
                        Some(v) => v,
                        None => DEFAULT_MODEL@,
                    },
                    match opt_string_view(vars.openai_base_url) {
                        Some(v) => v,
                        None => DEFAULT_BASE_URL@,
                    },
                    match or_else(
                        opt_string_view(vars.our_cli_instructions),
                        opt_string_view(vars.asm_agent_instructions),
                    ) {
                        Some(v) => v,
                        None => DEFAULT_INSTRUCTIONS@,
                    },
                    m,
                ),
            ),
        },
    }
}

pub open spec fn config_view(c: AgentConfig) -> (Seq<char>, Seq<char>, Seq<char>, Seq<char>, u64) {
    (c.api_key@, c.model@, c.base_url@, c.instructions@, c.max_output_tokens)
}

/// The address requests go to: the base address without trailing `/`, then `/responses`.
pub open spec fn endpoint_of(base_url: Seq<char>) -> Seq<char> {
    strip_end_by(base_url, |c: char| c == '/') + "/responses"@
}

/// A trailing `/` on the base address does not change where requests go.
pub proof fn lemma_endpoint_ignores_trailing_slash(base: Seq<char>)
    ensures
        endpoint_of(base.push('/')) == endpoint_of(base),
{
    assert(base.push('/').drop_last() =~= base);
}

/// The JSON body of a request: the members in the order `serde_json` writes a map.
pub open spec fn request_body_of(
    model: Seq<char>,
    instructions: Seq<char>,
    input: Seq<char>,
    max_output_tokens: u64,
) -> Seq<char> {
    "{\"input\":"@ + json_string_literal(input) + ",\"instructions\":"@ + json_string_literal(
        instructions,
    ) + ",\"max_output_tokens\":"@ + dec_chars(max_output_tokens as nat) + ",\"model\":"@
        + json_string_literal(model) + "}"@
}

/// The texts of the `output_text` parts among the content parts `cs`, in order.
pub open spec fn output_texts(cs: Seq<Json>) -> Seq<Seq<char>>
    decreases cs.len(),
{
    if cs.len() == 0 {
        seq![]
    } else {
        let c = cs[0];
        let here = if str_of(field(c, "type"@)) == Some("output_text"@) {
            match str_of(field(c, "text"@)) {
                Some(t) => seq![t],
                None => seq![],
            }
        } else {
            seq![]
        };
        here + output_texts(cs.drop_first())
    }
}

/// The texts of the messages among the output items `items`; `None` when a message has no
/// content list.
pub open spec fn message_chunks(items: Seq<Json>) -> Option<Seq<Seq<char>>>
    decreases items.len(),
{
    if items.len() == 0 {
        Some(seq![])
    } else {
        let item = items[0];
        let rest = message_chunks(items.drop_first());
        if str_of(field(item, "type"@)) != Some("message"@) {
            rest
        } else {
            match field(item, "content"@) {
                Some(Json::Array(cs)) => match rest {
                    Some(r) => Some(output_texts(cs@) + r),
                    None => None,
                },
                _ => None,
            }
        }
    }
}

/// The text of a response body: its `output_text` when that is a string, else the texts
/// of the output messages joined by `\n`.
pub open spec fn response_text_of(body: Json) -> Option<Seq<char>> {
    match str_of(field(body, "output_text"@)) {
        Some(t) => Some(t),
        None => match field(body, "output"@) {
            Some(Json::Array(items)) => match message_chunks(items@) {
                Some(chunks) => Some(join_lines(chunks)),
                None => None,
            },
            _ => None,
        },
    }
}

/// The message an unsuccessful response carries: `error.message`, else `message`,
/// else `unknown error`.
pub open spec fn error_message_of(body: Json) -> Seq<char> {
    match str_of(field_of(field(body, "error"@), "message"@)) {
        Some(m) => m,
        None => match str_of(field(body, "message"@)) {
            Some(m) => m,
            None => "unknown error"@,
        },
    }
}

/// A status in 200-299.
pub open spec fn is_success(status: u16) -> bool {
    200 <= status <= 299
}

/// What a response with `status` and `body` gives: the error message for an unsuccessful
/// status; else the text (which must not be blank) and the total tokens reported.
pub open spec fn agent_outcome(status: u16, body: Json) -> Result<
    (Seq<char>, Option<u64>),
    (u16, Seq<char>),
> {
    if !is_success(status) {
        Err((status, error_message_of(body)))
    } else {
        match response_text_of(body) {
            Some(t) => if !is_blank(t) {
                Ok((t, u64_of(field_of(field(body, "usage"@), "total_tokens"@))))
            } else {
                Err((status, seq![]))
            },
            None => Err((status, seq![])),
        }
    }
}

/// A status code as the `http` crate shows it: the number, then its reason phrase.
pub open spec fn status_line(code: u16) -> Seq<char> {
    dec_chars(code as nat) + " "@ + match http_reason_phrase(code) {
        Some(r) => r,
        None => "<unknown status code>"@,
    }
}

/// Quotes `s` as a JSON string with `serde_json::to_string`. Trusted: that the call succeeds
/// (for a `str` the serializer only writes into a `Vec`, which cannot fail) and that its text is
/// `json_string_literal` of `s`, the escaping that `serde_json`'s string writer applies.
#[verifier::external_body]
fn json_quote(s: &str) -> (r: Result<String, serde_json::Error>)
    ensures
        r is Ok,
        r matches Ok(t) ==> t@ == json_string_literal(s@),
{
    serde_json::to_string(s)
}

/// The reason phrase of a status code: `reqwest::StatusCode::from_u16` (which refuses codes
/// outside 100-999), then `canonical_reason`. Trusted: that codes outside 100-999 have none,
/// and that the phrase, or its absence, is `http_reason_phrase` of the code; the table of
/// phrases is left to the `http` crate.
#[verifier::external_body]
fn canonical_reason(code: u16) -> (r: Option<&'static str>)
    ensures
        !(100 <= code <= 999) ==> r is None,
        r is Some <==> http_reason_phrase(code) is Some,
        r matches Some(s) ==> http_reason_phrase(code) == Some(s@),
{
    match reqwest::StatusCode::from_u16(code) {
        Ok(status) => status.canonical_reason(),
        Err(_) => None,
    }
}

/// The error type of `serde_json`, carried through without being read.
#[verifier::external_type_specification]
#[verifier::external_body]
pub struct ExSerdeJsonError(serde_json::Error);

fn text_or(s: &Option<String>, fallback: &str) -> (r: String)
    ensures
        r@ == match opt_string_view(*s) {
            Some(v) => v,
            None => fallback@,
        },
{
    match s {
        Some(v) => v.clone(),
        None => fallback.to_owned(),
    }
}

/// Whether `t` is the text `lit`.
fn str_is(t: &str, lit: &str) -> (r: bool)
    ensures
        r == (t@ == lit@),
{
    let a = chars_of(t);
    let b = chars_of(lit);
    assert(a@.subrange(0, a@.len() as int) =~= a@);
    chars_eq(a.as_slice(), 0, a.len(), b.as_slice())
}

impl AgentConfig {
    /// Reads the settings from `vars`: the key from `OPENAI_API_KEY`, else `AI_API_KEY`;
    /// the model, address and instructions where set, else their defaults; the output token
    /// cap parsed from `OPENAI_MAX_OUTPUT_TOKENS`, else 800.
    pub fn from_env_vars(vars: &AgentEnv) -> (r: Result<AgentConfig, AgentConfigError>)
        ensures
            match r {
                Ok(c) => config_from(*vars) == Ok::<_, AgentConfigError>(config_view(c)),
                Err(e) => config_from(*vars) == Err::<(Seq<char>, Seq<char>, Seq<char>, Seq<char>, u64), _>(e),
            },
    {
        let api_key = match &vars.openai_api_key {
            Some(k) => k.clone(),
            None => match &vars.ai_api_key {
                Some(k) => k.clone(),
                None => return Err(AgentConfigError::MissingApiKey),
            },
        };
        let max_output_tokens = match &vars.openai_max_output_tokens {
            Some(v) => {
                let chars = chars_of(v.as_str());
                match parse_u64(chars.as_slice()) {
                    Some(n) => n,
                    None => return Err(AgentConfigError::InvalidMaxOutputTokens),
                }
            },
            None => DEFAULT_MAX_OUTPUT_TOKENS,
        };
        let instructions = match &vars.our_cli_instructions {
            Some(v) => v.clone(),
            None => text_or(&vars.asm_agent_instructions, DEFAULT_INSTRUCTIONS),
        };
        Ok(
            AgentConfig {
                api_key,
                model: text_or(&vars.openai_model, DEFAULT_MODEL),
                base_url: text_or(&vars.openai_base_url, DEFAULT_BASE_URL),
                instructions,
                max_output_tokens,
            },
        )
    }

    /// The address requests are sent to.
    pub fn endpoint_url(&self) -> (r: String)
        ensures
            r@ == endpoint_of(self.base_url@),
    {
        let v = chars_of(self.base_url.as_str());
        let mut k = v.len();
        assert(v@.subrange(0, v@.len() as int) =~= v@);
        while k > 0 && v[k - 1] == '/'
            invariant
                k <= v@.len(),
                strip_end_by(v@, |c: char| c == '/') == strip_end_by(
                    v@.subrange(0, k as int),
                    |c: char| c == '/',
                ),
            decreases k,
        {
            assert(v@.subrange(0, k as int).drop_last() =~= v@.subrange(0, k - 1));
            k -= 1;
        }
        proof {
            assert(v@.subrange(0, v@.len() as int) =~= v@);
        }
        let mut r = String::new();
        push_chars(&mut r, v.as_slice(), 0, k);
        push_str(&mut r, "/responses");
        r
    }

    /// The JSON body of the request that sends `input`.
    pub fn request_body(&self, input: &str) -> (r: String)
        ensures
            r@ == request_body_of(self.model@, self.instructions@, input@, self.max_output_tokens),
    {
        let mut r = String::new();
        push_str(&mut r, "{\"input\":");
        push_json_string(&mut r, input);
        push_str(&mut r, ",\"instructions\":");
        push_json_string(&mut r, self.instructions.as_str());
        push_str(&mut r, ",\"max_output_tokens\":");
        push_decimal(&mut r, self.max_output_tokens);
        push_str(&mut r, ",\"model\":");
        push_json_string(&mut r, self.model.as_str());
        push_str(&mut r, "}");
        r
    }
}

fn push_json_string(r: &mut String, s: &str)
    ensures
        final(r)@ == old(r)@ + json_string_literal(s@),
{
    match json_quote(s) {
        Ok(q) => push_str(r, q.as_str()),
        Err(_) => {},
    }
}

/// Decides how to answer `input`: with the offline response when `mock_response` is set
/// (its token count read from `mock_total_tokens` when that is a whole number), else with a
/// request built from the settings in `vars`.
pub fn plan_agent_request(
    mock_response: Option<String>,
    mock_total_tokens: Option<&str>,
    vars: &AgentEnv,
    input: &str,
) -> (r: Result<AgentRequest, AgentConfigError>)
    ensures
        mock_response matches Some(m) ==> (r matches Ok(AgentRequest::Mock(resp)) && resp.text@
            == m@ && resp.total_tokens == match opt_view(mock_total_tokens) {
            Some(t) => match parse_unsigned(t, u64::MAX as nat) {
                Some(n) => Some(n as u64),
                None => None,
            },
            None => None,
        }),
        mock_response is None ==> match config_from(*vars) {
            Err(e) => r == Err::<AgentRequest, AgentConfigError>(e),
            Ok((key, model, base, instructions, max)) => r matches Ok(
                AgentRequest::Http { url, api_key, body },
            ) && url@ == endpoint_of(base) && api_key@ == key && body@ == request_body_of(
                model,
                instructions,
                input@,
                max,
            ),
        },
{
    match mock_response {
        Some(text) => {
            let total_tokens = match mock_total_tokens {
                Some(t) => {
                    let chars = chars_of(t);
                    parse_u64(chars.as_slice())
                },
                None => None,
            };
            Ok(AgentRequest::Mock(AgentResponse { text, total_tokens }))
        },
        None => match AgentConfig::from_env_vars(vars) {
            Ok(config) => {
                let url = config.endpoint_url();
                let body = config.request_body(input);
                Ok(AgentRequest::Http { url, api_key: config.api_key, body })
            },
            Err(e) => Err(e),
        },
    }
}

/// The texts of the `output_text` parts among `cs`, appended to `acc`.
fn push_output_texts(cs: &Vec<Json>, acc: &mut Vec<String>)
    ensures
        final(acc)@.map_values(|s: String| s@) == old(acc)@.map_values(|s: String| s@)
            + output_texts(cs@),
{
    let ghost start = acc@.map_values(|s: String| s@);
    let mut j: usize = 0;
    assert(cs@.skip(0) =~= cs@);
    assert(start + Seq::<Seq<char>>::empty() =~= start);
    while j < cs.len()
        invariant
            j <= cs@.len(),
            start + output_texts(cs@) == acc@.map_values(|s: String| s@) + output_texts(
                cs@.skip(j as int),
            ),
        decreases cs.len() - j,
    {
        let ghost before = acc@.map_values(|s: String| s@);
        let ghost rest = cs@.skip(j as int);
        assert(rest[0] == cs@[j as int]);
        assert(rest.drop_first() =~= cs@.skip(j + 1));
        let c = &cs[j];
        let kind = get_field(Some(c), "type");
        let is_output_text = match kind {
            Some(k) => match k.as_str() {
                Some(t) => str_is(t, "output_text"),
                None => false,
            },
            None => false,
        };
        if is_output_text {
            match get_field(Some(c), "text") {
                Some(t) => match t.as_str() {
                    Some(text) => {
                        acc.push(text.to_owned());
                        assert(acc@.map_values(|s: String| s@) =~= before + seq![text@]);
                        assert(before + seq![text@] + output_texts(rest.drop_first()) =~= before
                            + (seq![text@] + output_texts(rest.drop_first())));
                    },
                    None => {
                        assert(seq![] + output_texts(rest.drop_first()) =~= output_texts(
                            rest.drop_first(),
                        ));
                    },
                },
                None => {
                    assert(seq![] + output_texts(rest.drop_first()) =~= output_texts(
                        rest.drop_first(),
                    ));
                },
            }
        } else {
            assert(seq![] + output_texts(rest.drop_first()) =~= output_texts(rest.drop_first()));
        }
        j += 1;
    }
    assert(cs@.skip(j as int) =~= Seq::<Json>::empty());
    assert(acc@.map_values(|s: String| s@) + Seq::<Seq<char>>::empty() =~= acc@.map_values(
        |s: String| s@,
    ));
}

/// The text of a response body: its `output_text` when that is a string; else the texts of
/// the `output_text` parts of its `message` outputs, joined by `\n`; `None` when there is no
/// output list or a message has no content list.
pub fn extract_response_text(body: &Json) -> (r: Option<String>)
    ensures
        opt_string_view(r) == response_text_of(*body),
{
    match get_field(Some(body), "output_text") {
        Some(v) => match v.as_str() {
            Some(t) => {
                return Some(t.to_owned());
            },
            None => {},
        },
        None => {},
    }
    let items = match get_field(Some(body), "output") {
        Some(o) => match o.as_array() {
            Some(items) => items,
            None => {
                return None;
            },
        },
        None => {
            return None;
        },
    };
    let mut chunks: Vec<String> = Vec::new();
    let mut i: usize = 0;
    assert(items@.skip(0) =~= items@);
    assert(chunks@.map_values(|s: String| s@) =~= Seq::<Seq<char>>::empty());
    while i < items.len()
        invariant
            i <= items@.len(),
            field(*body, "output"@) == Some(Json::Array(*items)),
            str_of(field(*body, "output_text"@)) is None,
            message_chunks(items@) == match message_chunks(items@.skip(i as int)) {
                Some(rest) => Some(chunks@.map_values(|s: String| s@) + rest),
                None => None::<Seq<Seq<char>>>,
            },
        decreases items.len() - i,
    {
        let ghost before = chunks@.map_values(|s: String| s@);
        let ghost rest = items@.skip(i as int);
        assert(rest[0] == items@[i as int]);
        assert(rest.drop_first() =~= items@.skip(i + 1));
        let item = &items[i];
        let is_message = match get_field(Some(item), "type") {
            Some(k) => match k.as_str() {
                Some(t) => str_is(t, "message"),
                None => false,
            },
            None => false,
        };
        if is_message {
            let content = match get_field(Some(item), "content") {
                Some(c) => match c.as_array() {
                    Some(cs) => cs,
                    None => {
                        return None;
                    },
                },
                None => {
                    return None;
                },
            };
            push_output_texts(content, &mut chunks);
            proof {
                match message_chunks(rest.drop_first()) {
                    Some(r) => {
                        assert(before + (output_texts(content@) + r) =~= chunks@.map_values(
                            |s: String| s@,
                        ) + r);
                    },
                    None => {},
                }
            }
        }
        i += 1;
    }
    assert(items@.skip(i as int) =~= Seq::<Json>::empty());
    assert(chunks@.map_values(|s: String| s@) + Seq::<Seq<char>>::empty() =~= chunks@.map_values(
        |s: String| s@,
    ));
    Some(join_strings(&chunks))
}

/// Reads the service's response: an error with the service's message when the status is not
/// in 200-299; else the response text, which must not be blank, and the total tokens the
/// body reports under `usage.total_tokens`.
pub fn parse_agent_response(status: u16, body: &Json) -> (r: Result<AgentResponse, AgentError>)
    ensures
        match agent_outcome(status, *body) {
            Ok((t, n)) => r matches Ok(resp) && resp.text@ == t && resp.total_tokens == n,
            Err((code, m)) => if is_success(status) {
                r == Err::<AgentResponse, AgentError>(AgentError::MissingText)
            } else {
                r matches Err(AgentError::RequestFailed { status: s, message }) && s == code
                    && message@ == m
            },
        },
{
    if !(200 <= status && status <= 299) {
        let from_error = match get_field(get_field(Some(body), "error"), "message") {
            Some(m) => m.as_str(),
            None => None,
        };
        let message = match from_error {
            Some(m) => m.to_owned(),
            None => match get_field(Some(body), "message") {
                Some(m) => match m.as_str() {
                    Some(t) => t.to_owned(),
                    None => "unknown error".to_owned(),
                },
                None => "unknown error".to_owned(),
            },
        };
        return Err(AgentError::RequestFailed { status, message });
    }
    let text = match extract_response_text(body) {
        Some(t) => t,
        None => {
            return Err(AgentError::MissingText);
        },
    };
    let chars = chars_of(text.as_str());
    if chars_are_blank(chars.as_slice()) {
        return Err(AgentError::MissingText);
    }
    let total_tokens = match get_field(get_field(Some(body), "usage"), "total_tokens") {
        Some(n) => n.as_u64(),
        None => None,
    };
    Ok(AgentResponse { text, total_tokens })
}

impl AgentError {
    /// The message shown for the error.
    pub fn describe(&self) -> (r: String)
        ensures
            r@ == match *self {
                AgentError::RequestFailed { status, message } => "OpenAI request failed ("@
                    + status_line(status) + "): "@ + message@,
                AgentError::MissingText => "OpenAI response did not include text output."@,
            },
    {
        match self {
            AgentError::RequestFailed { status, message } => {
                let mut r = String::new();
                push_str(&mut r, "OpenAI request failed (");
                push_decimal(&mut r, *status as u64);
                push_str(&mut r, " ");
                match canonical_reason(*status) {
                    Some(reason) => push_str(&mut r, reason),
                    None => push_str(&mut r, "<unknown status code>"),
                }
                push_str(&mut r, "): ");
                push_str(&mut r, message.as_str());
                r
            },
            AgentError::MissingText => "OpenAI response did not include text output.".to_owned(),
        }
    }
}

impl AgentConfigError {
    /// The message shown for the error.
    pub fn describe(&self) -> (r: &'static str)
        ensures
            r@ == match *self {
                AgentConfigError::MissingApiKey => "Missing OPENAI_API_KEY. Set it before calling the AI helper."@,
                AgentConfigError::InvalidMaxOutputTokens => "OPENAI_MAX_OUTPUT_TOKENS must be a positive integer."@,
            },
    {
        match self {
            AgentConfigError::MissingApiKey => "Missing OPENAI_API_KEY. Set it before calling the AI helper.",
            AgentConfigError::InvalidMaxOutputTokens => "OPENAI_MAX_OUTPUT_TOKENS must be a positive integer.",
        }
    }
}

/// Each setting that is present is the one used: the key from `OPENAI_API_KEY`, else from
/// `AI_API_KEY`; the model, base address and instructions (`OUR_CLI_INSTRUCTIONS` before
/// `ASM_AGENT_INSTRUCTIONS`) as set; and an output token cap written as the decimal number
/// `n` is `n`. Absent settings give the defaults, and the cap 800.
pub proof fn lemma_settings_are_used(vars: AgentEnv, cap: nat)
    requires
        vars.openai_api_key is Some || vars.ai_api_key is Some,
        cap <= u64::MAX,
        vars.openai_max_output_tokens matches Some(v) ==> v@ == dec_chars(cap),
    ensures
        config_from(vars) matches Ok((key, model, base, instructions, max)) && (
        vars.openai_api_key matches Some(k) ==> key == k@) && (vars.openai_api_key is None
            ==> key == vars.ai_api_key.unwrap()@) && (vars.openai_model matches Some(m) ==> model
            == m@) && (vars.openai_model is None ==> model == DEFAULT_MODEL@) && (
        vars.openai_base_url matches Some(b) ==> base == b@) && (vars.openai_base_url is None
            ==> base == DEFAULT_BASE_URL@) && (vars.our_cli_instructions matches Some(i)
            ==> instructions == i@) && (vars.our_cli_instructions is None
            ==> (vars.asm_agent_instructions matches Some(i) ==> instructions == i@)) && (
        vars.our_cli_instructions is None && vars.asm_agent_instructions is None ==> instructions
            == DEFAULT_INSTRUCTIONS@) && (vars.openai_max_output_tokens is Some ==> max == cap) && (
        vars.openai_max_output_tokens is None ==> max == 800),
{
    lemma_parse_decimal_round_trip(cap, u64::MAX as nat);
}

/// The tokens reported for a successful response are exactly the `total_tokens` member of
/// its `usage` object when that is an unsigned integer, and none otherwise.
pub proof fn lemma_tokens_are_usage_total(status: u16, body: Json, usage: Vec<(String, Json)>)
    requires
        is_success(status),
        field(body, "usage"@) == Some(Json::Object(usage)),
        agent_outcome(status, body) is Ok,
    ensures
        agent_outcome(status, body) matches Ok((_, n)) && n == match lookup(
            usage@,
            "total_tokens"@,
        ) {
            Some(Json::UInt(x)) => Some(x),
            _ => None,
        },
{
}

/// Whatever else `usage` holds does not change the outcome of a successful response: two
/// bodies with the same text members and the same `usage.total_tokens` give the same text
/// and the same token count.
pub proof fn lemma_other_usage_members_ignored(
    status: u16,
    body1: Json,
    body2: Json,
    usage1: Vec<(String, Json)>,
    usage2: Vec<(String, Json)>,
)
    requires
        is_success(status),
        field(body1, "output_text"@) == field(body2, "output_text"@),
        field(body1, "output"@) == field(body2, "output"@),
        field(body1, "usage"@) == Some(Json::Object(usage1)),
        field(body2, "usage"@) == Some(Json::Object(usage2)),
        lookup(usage1@, "total_tokens"@) == lookup(usage2@, "total_tokens"@),
    ensures
        agent_outcome(status, body1) == agent_outcome(status, body2),
{
}

} // verus!
