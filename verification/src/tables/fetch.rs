//! The decisions of fetching a difficulty table: URL checks, finding the header
//! through the page's `<meta name="bmstable">`, resolving the data URL, response
//! checks, and content hashes. The HTTP requests themselves are made by the caller.
use crate::digest::{hex_lower, hex_lower_chars, sha256_bytes, sha256_digest};
use crate::json::{json_as_str, json_get, json_get_exec, json_str, JsonValue};
use crate::song_norm::opt_view;
use crate::text::{chars_eq, chars_to_string, str_to_chars, trim_chars, trim_ws};
use vstd::prelude::*;

verus! {

/// `url::ParseError`, carried through as the cause of a URL error.
#[verifier::external_type_specification]
#[verifier::external_body]
pub struct ExUrlParseError(url::ParseError);

/// Why fetching a table stopped.
pub enum FetchError {
    /// A URL that does not parse; `field` names which URL it is.
    InvalidUrl { field: String, url: String, cause: url::ParseError },
    /// A URL whose scheme is neither `http` nor `https`.
    UnsupportedScheme { field: String, scheme: String, url: String },
    /// A base URL that does not parse, or a reference that does not resolve against it.
    Resolve { cause: url::ParseError },
    /// The CSS selector for the table meta element does not parse.
    SelectorInvalid { message: String },
    /// The page has no non-blank `<meta name="bmstable" content="...">`.
    MetaNotFound,
    /// The header has neither a `data_url` nor a `data` string.
    MissingDataUrl,
    /// A JSON response with a status outside 200–299.
    HttpStatus { status: u16, url: String },
}

/// A fetched table: where each part came from, the raw texts, their SHA-256
/// hashes and their JSON values.
pub struct FetchedTable {
    pub page_url_resolved: String,
    pub header_url: String,
    pub data_url: String,
    pub data_final_url: String,
    pub header_raw: String,
    pub data_raw: String,
    pub header_hash: String,
    pub data_hash: String,
    pub header_json: JsonValue,
    pub data_json: JsonValue,
}

// ---------------------------------------------------------------------
// Outside calls

/// The scheme of the URL that `url::Url::parse` makes of the input, `None` when it fails.
pub uninterp spec fn url_scheme_of(input: Seq<char>) -> Option<Seq<char>>;

/// The serialization (`Url::as_str`) of the URL that `url::Url::parse` makes of the
/// input, `None` when it fails.
pub uninterp spec fn url_text_of(input: Seq<char>) -> Option<Seq<char>>;

/// The serialization of `url::Url::parse(base)` joined with `reference`
/// (`Url::join`), `None` when either fails.
pub uninterp spec fn url_joined(base: Seq<char>, reference: Seq<char>) -> Option<Seq<char>>;

/// What the elements of an HTML document that match a CSS selector give for an
/// attribute, in the order `Html::select` yields them (`scraper`), `None` when the
/// selector does not parse.
pub uninterp spec fn html_select_attr(html: Seq<char>, selector: Seq<char>, attr: Seq<char>) -> Option<Seq<Option<Seq<char>>>>;

/// Calls `url::Url::parse` and returns the parsed URL's `scheme()` and its
/// serialization `as_str()`; the contract ties them to the names `url_scheme_of`
/// and `url_text_of`, and the failure to their `None`.
#[verifier::external_body]
fn parse_url(input: &str) -> (r: Result<(String, String), url::ParseError>)
    ensures
        match r {
            Ok((s, t)) => url_scheme_of(input@) == Some(s@) && url_text_of(input@) == Some(t@),
            Err(_) => url_scheme_of(input@) is None && url_text_of(input@) is None,
        },
{
    match url::Url::parse(input) {
        Ok(u) => Ok((u.scheme().to_string(), u.as_str().to_string())),
        Err(e) => Err(e),
    }
}

/// Calls `url::Url::parse` on `base`, then `Url::join` with `reference`, and returns
/// the serialization of the joined URL; the contract ties it to the name
/// `url_joined`, and a failure of either call to its `None`.
#[verifier::external_body]
fn join_url(base: &str, reference: &str) -> (r: Result<String, url::ParseError>)
    ensures
        match r {
            Ok(s) => url_joined(base@, reference@) == Some(s@),
            Err(_) => url_joined(base@, reference@) is None,
        },
{
    match url::Url::parse(base) {
        Ok(u) => match u.join(reference) {
            Ok(j) => Ok(j.to_string()),
            Err(e) => Err(e),
        },
        Err(e) => Err(e),
    }
}

pub open spec fn opt_views(v: Seq<Option<String>>) -> Seq<Option<Seq<char>>> {
    v.map_values(|o: Option<String>| opt_view(o))
}

/// Parses the HTML document with `scraper::Html::parse_document` and the selector
/// with `scraper::Selector::parse`, then returns the attribute `attr` of each
/// matching element (`Html::select`, `Element::attr`) in the order `select` yields. The
/// contract ties the list to the name `html_select_attr` and a selector that does
/// not parse to its `None` (the error is kept as its message).
#[verifier::external_body]
fn select_attribute(html: &str, selector: &str, attr: &str) -> (r: Result<Vec<Option<String>>, String>)
    ensures
        match r {
            Ok(v) => html_select_attr(html@, selector@, attr@) == Some(opt_views(v@)),
            Err(_) => html_select_attr(html@, selector@, attr@) is None,
        },
{
    let doc = scraper::Html::parse_document(html);
    let sel = match scraper::Selector::parse(selector) {
        Ok(s) => s,
        Err(e) => return Err(e.to_string()),
    };
    Ok(doc.select(&sel).map(|el| el.value().attr(attr).map(|a| a.to_string())).collect())
}

// ---------------------------------------------------------------------
// Specification

pub open spec fn is_http_scheme(s: Seq<char>) -> bool {
    s == "http"@ || s == "https"@
}

/// An absolute `http` or `https` URL.
pub open spec fn valid_http_url(url: Seq<char>) -> bool {
    url_scheme_of(url) matches Some(s) && is_http_scheme(s)
}

/// The first attribute value that is present.
pub open spec fn first_present(list: Seq<Option<Seq<char>>>) -> Option<Seq<char>>
    decreases list.len(),
{
    if list.len() == 0 {
        None
    } else {
        match list[0] {
            Some(c) => Some(c),
            None => first_present(list.drop_first()),
        }
    }
}

/// The trimmed content of the first `<meta name="bmstable">` with a content
/// attribute, when the selector parses and that content is not blank.
pub open spec fn meta_bmstable(html: Seq<char>) -> Option<Seq<char>> {
    match html_select_attr(html, "meta[name='bmstable']"@, "content"@) {
        Some(list) => match first_present(list) {
            Some(c) => if trim_ws(c).len() > 0 {
                Some(trim_ws(c))
            } else {
                None
            },
            None => None,
        },
        None => None,
    }
}

/// The reference to the data: the header's `data_url` member, or its `data`
/// member when it has no `data_url`, if that member is a string.
pub open spec fn data_reference(header: JsonValue) -> Option<Seq<char>> {
    let m = match json_get(header, "data_url"@) {
        Some(x) => Some(x),
        None => json_get(header, "data"@),
    };
    match m {
        Some(x) => json_str(x),
        None => None,
    }
}

/// `StatusCode::is_success`.
pub open spec fn is_success(status: u16) -> bool {
    200 <= status <= 299
}

/// Lowercase hexadecimal SHA-256 of a text's UTF-8 bytes.
pub open spec fn text_sha256(s: Seq<char>) -> Seq<char> {
    hex_lower(sha256_digest(vstd::utf8::encode_utf8(s)))
}

/// `r` is what resolving `reference` against `base` gives: the joined URL when it
/// is `http` or `https`, a URL error when it is not, `Resolve` when joining fails.
pub open spec fn resolved_url_fits(r: Result<String, FetchError>, base: Seq<char>, reference: Seq<char>) -> bool {
    match url_joined(base, reference) {
        Some(u) => if valid_http_url(u) {
            r matches Ok(s) && s@ == u
        } else {
            r matches Err(e) && (e is InvalidUrl || e is UnsupportedScheme)
        },
        None => r matches Err(e) && e is Resolve,
    }
}

// ---------------------------------------------------------------------
// Implementation

fn text(s: &str) -> (r: String)
    ensures
        r@ == s@,
{
    chars_to_string(&str_to_chars(s))
}

/// Checks that `url` is an absolute `http` or `https` URL and gives it as parsed
/// (its serialization); `field` names it in the error.
pub fn validate_http_url(url: &str, field: &str) -> (r: Result<String, FetchError>)
    ensures
        r is Ok <==> valid_http_url(url@),
        r matches Ok(t) ==> url_text_of(url@) == Some(t@),
        r matches Err(FetchError::InvalidUrl { field: f, url: u, .. }) ==> url_scheme_of(url@) is None
            && f@ == field@ && u@ == url@,
        r matches Err(FetchError::UnsupportedScheme { field: f, scheme, url: u }) ==> url_scheme_of(url@)
            == Some(scheme@) && !is_http_scheme(scheme@) && f@ == field@ && u@ == url@,
        r matches Err(e) ==> (e is InvalidUrl || e is UnsupportedScheme),
{
    match parse_url(url) {
        Err(cause) => Err(FetchError::InvalidUrl { field: text(field), url: text(url), cause }),
        Ok((scheme, serialized)) => {
            let s = str_to_chars(scheme.as_str());
            if chars_eq(&s, &str_to_chars("http")) || chars_eq(&s, &str_to_chars("https")) {
                Ok(serialized)
            } else {
                Err(FetchError::UnsupportedScheme { field: text(field), scheme, url: text(url) })
            }
        },
    }
}

/// Finds the header reference of a table page: the trimmed, non-blank content of
/// the first `<meta name="bmstable">` element that has a content attribute.
pub fn extract_meta_bmstable(html: &str) -> (r: Result<String, FetchError>)
    ensures
        match r {
            Ok(s) => meta_bmstable(html@) == Some(s@),
            Err(FetchError::SelectorInvalid { .. }) => html_select_attr(
                html@,
                "meta[name='bmstable']"@,
                "content"@,
            ) is None,
            Err(FetchError::MetaNotFound) => html_select_attr(
                html@,
                "meta[name='bmstable']"@,
                "content"@,
            ) is Some && meta_bmstable(html@) is None,
            Err(_) => false,
        },
{
    let list = match select_attribute(html, "meta[name='bmstable']", "content") {
        Ok(l) => l,
        Err(message) => {
            return Err(FetchError::SelectorInvalid { message });
        },
    };
    let ghost lv = opt_views(list@);
    let mut i: usize = 0;
    assert(lv.skip(0) =~= lv);
    while i < list.len()
        invariant
            lv == opt_views(list@),
            html_select_attr(html@, "meta[name='bmstable']"@, "content"@) == Some(lv),
            i <= list@.len(),
            first_present(lv) == first_present(lv.skip(i as int)),
        decreases list@.len() - i,
    {
        assert(lv.skip(i as int)[0] == opt_view(list@[i as int]));
        assert(lv.skip(i as int).drop_first() =~= lv.skip(i + 1));
        match &list[i] {
            Some(c) => {
                assert(first_present(lv.skip(i as int)) == Some(c@));
                let t = trim_chars(&str_to_chars(c.as_str()));
                if t.len() > 0 {
                    return Ok(chars_to_string(&t));
                } else {
                    return Err(FetchError::MetaNotFound);
                }
            },
            None => {},
        }
        i += 1;
    }
    Err(FetchError::MetaNotFound)
}

/// The header URL of a table page: its meta reference resolved against the page's
/// final URL, which must be `http` or `https`.
pub fn resolve_header_url(page_final: &str, html: &str) -> (r: Result<String, FetchError>)
    ensures
        match meta_bmstable(html@) {
            Some(m) => resolved_url_fits(r, page_final@, m),
            None => r matches Err(e) && (e is SelectorInvalid || e is MetaNotFound),
        },
{
    let header_ref = extract_meta_bmstable(html)?;
    let header_url = match join_url(page_final, header_ref.as_str()) {
        Ok(u) => u,
        Err(cause) => {
            return Err(FetchError::Resolve { cause });
        },
    };
    validate_http_url(header_url.as_str(), "header_url")?;
    Ok(header_url)
}

/// The data URL of a table: the header's data reference resolved against the
/// header's final URL, which must be `http` or `https`.
pub fn resolve_data_url(header_final: &str, header_json: &JsonValue) -> (r: Result<String, FetchError>)
    ensures
        match data_reference(*header_json) {
            Some(d) => resolved_url_fits(r, header_final@, d),
            None => r matches Err(e) && e is MissingDataUrl,
        },
{
    let member = match json_get_exec(header_json, "data_url") {
        Some(x) => Some(x),
        None => json_get_exec(header_json, "data"),
    };
    let data_ref = match member {
        Some(x) => match json_as_str(x) {
            Some(s) => s,
            None => {
                return Err(FetchError::MissingDataUrl);
            },
        },
        None => {
            return Err(FetchError::MissingDataUrl);
        },
    };
    let data_url = match join_url(header_final, data_ref.as_str()) {
        Ok(u) => u,
        Err(cause) => {
            return Err(FetchError::Resolve { cause });
        },
    };
    validate_http_url(data_url.as_str(), "data_url")?;
    Ok(data_url)
}

/// Checks a JSON response before its body is read: its final URL must be `http`
/// or `https` and its status within 200–299.
pub fn check_json_response(final_url: &str, status: u16) -> (r: Result<(), FetchError>)
    ensures
        r is Ok <==> valid_http_url(final_url@) && is_success(status),
        r matches Err(FetchError::HttpStatus { status: s, url: u }) ==> valid_http_url(final_url@)
            && !is_success(status) && s == status && u@ == final_url@,
{
    validate_http_url(final_url, "resolved_fetch_url")?;
    if !(200 <= status && status <= 299) {
        return Err(FetchError::HttpStatus { status, url: text(final_url) });
    }
    Ok(())
}

/// Lowercase hexadecimal SHA-256 of the text's UTF-8 bytes.
pub fn sha256_hex(s: &str) -> (r: String)
    ensures
        r@ == text_sha256(s@),
{
    let bytes = crate::text::utf8_bytes(&str_to_chars(s));
    chars_to_string(&hex_lower_chars(sha256_bytes(bytes.as_slice()).as_slice()))
}

/// Puts a fetched table together, hashing both raw texts.
pub fn fetched_table(
    page_url_resolved: String,
    header_url: String,
    data_url: String,
    data_final_url: String,
    header_raw: String,
    data_raw: String,
    header_json: JsonValue,
    data_json: JsonValue,
) -> (r: FetchedTable)
    ensures
        r.page_url_resolved@ == page_url_resolved@,
        r.header_url@ == header_url@,
        r.data_url@ == data_url@,
        r.data_final_url@ == data_final_url@,
        r.header_raw@ == header_raw@,
        r.data_raw@ == data_raw@,
        r.header_hash@ == text_sha256(header_raw@),
        r.data_hash@ == text_sha256(data_raw@),
        r.header_json == header_json,
        r.data_json == data_json,
{
    let header_hash = sha256_hex(header_raw.as_str());
    let data_hash = sha256_hex(data_raw.as_str());
    FetchedTable {
        page_url_resolved,
        header_url,
        data_url,
        data_final_url,
        header_raw,
        data_raw,
        header_hash,
        data_hash,
        header_json,
        data_json,
    }
}


// ---------------------------------------------------------------------
// The steps of a fetch

/// A reference that is present and resolves against `base` to an `http` or
/// `https` URL.
pub open spec fn resolves_to_http(base: Seq<char>, reference: Option<Seq<char>>) -> bool {
    match reference {
        Some(m) => match url_joined(base, m) {
            Some(u) => valid_http_url(u),
            None => false,
        },
        None => false,
    }
}

/// Where a table fetch stands.
pub enum FetchStage {
    /// The table page has been requested from the input URL.
    Page,
    /// The header has been requested from `header_url`.
    Header { page_final: String, header_url: String },
    /// The data has been requested from `data_url`.
    Data {
        page_final: String,
        header_final: String,
        header_raw: String,
        header_json: JsonValue,
        data_url: String,
    },
    /// The fetch has finished or failed.
    Done,
}

/// What the caller does next for a table fetch.
pub enum FetchAction {
    /// Request the page at `url`, then report its final URL and its text with
    /// `TableFetch::page_loaded`.
    GetPage { url: String },
    /// Request `url` as JSON (`Accept: application/json`), check the response
    /// with `check_json_response`, parse its body as JSON, then report the final URL,
    /// the body and its value with `TableFetch::json_loaded`.
    GetJson { url: String },
    /// The fetched table.
    Finished(FetchedTable),
    /// The fetch stops with this error.
    Failed(FetchError),
}

/// A table fetch in progress: the page, then its header, then its data.
pub struct TableFetch {
    pub stage: FetchStage,
}

impl TableFetch {
    /// Starts fetching the table whose page is at `input_url`, which must be an
    /// `http` or `https` URL; the page is requested at that URL as parsed.
    pub fn start(input_url: &str) -> (r: (TableFetch, FetchAction))
        ensures
            valid_http_url(input_url@) ==> (r.1 matches FetchAction::GetPage { url } && url_text_of(input_url@)
                == Some(url@) && r.0.stage is Page),
            !valid_http_url(input_url@) ==> (r.1 matches FetchAction::Failed(e)
                && (e is InvalidUrl || e is UnsupportedScheme) && r.0.stage is Done),
    {
        match validate_http_url(input_url, "input_url") {
            Ok(url) => (TableFetch { stage: FetchStage::Page }, FetchAction::GetPage { url }),
            Err(e) => (TableFetch { stage: FetchStage::Done }, FetchAction::Failed(e)),
        }
    }

    /// The page arrived from `final_url` with the text `html`: its final URL must be
    /// `http` or `https`; then the header is requested from the page's meta
    /// reference resolved against that URL.
    pub fn page_loaded(&mut self, final_url: &str, html: &str) -> (r: FetchAction)
        requires
            old(self).stage is Page,
        ensures
            r matches FetchAction::GetJson { url } ==> {
                &&& valid_http_url(final_url@)
                &&& meta_bmstable(html@) matches Some(m)
                &&& url_joined(final_url@, m) == Some(url@)
                &&& valid_http_url(url@)
                &&& final(self).stage matches FetchStage::Header { page_final, header_url }
                &&& page_final@ == final_url@
                &&& header_url@ == url@
            },
            r is GetJson || (r is Failed && final(self).stage is Done),
            (valid_http_url(final_url@) && resolves_to_http(final_url@, meta_bmstable(html@))) ==> r is GetJson,
            !valid_http_url(final_url@) ==> (r matches FetchAction::Failed(e) && (e is InvalidUrl
                || e is UnsupportedScheme)),
    {
        if let Err(e) = validate_http_url(final_url, "page_url_resolved") {
            self.stage = FetchStage::Done;
            return FetchAction::Failed(e);
        }
        match resolve_header_url(final_url, html) {
            Ok(header_url) => {
                let url = text(header_url.as_str());
                self.stage = FetchStage::Header { page_final: text(final_url), header_url };
                FetchAction::GetJson { url }
            },
            Err(e) => {
                self.stage = FetchStage::Done;
                FetchAction::Failed(e)
            },
        }
    }

    /// A JSON response arrived from `final_url` with the body `raw` and its value
    /// `json`. For the header, the data is requested from the header's data
    /// reference resolved against `final_url`; for the data, the fetch finishes with
    /// the final URLs, the raw texts, their hashes and their values.
    pub fn json_loaded(&mut self, final_url: &str, raw: String, json: JsonValue) -> (r: FetchAction)
        requires
            old(self).stage is Header || old(self).stage is Data,
        ensures
            old(self).stage is Header ==> {
                &&& r matches FetchAction::GetJson { url } ==> {
                    &&& data_reference(json) matches Some(d)
                    &&& url_joined(final_url@, d) == Some(url@)
                    &&& valid_http_url(url@)
                    &&& final(self).stage matches FetchStage::Data {
                        page_final,
                        header_final,
                        header_raw,
                        header_json,
                        data_url,
                    }
                    &&& page_final@ == old(self).stage->Header_page_final@
                    &&& header_final@ == final_url@
                    &&& header_raw@ == raw@
                    &&& header_json == json
                    &&& data_url@ == url@
                }
                &&& r is GetJson || (r is Failed && final(self).stage is Done)
                &&& resolves_to_http(final_url@, data_reference(json)) ==> r is GetJson
                &&& data_reference(json) is None ==> (r matches FetchAction::Failed(e) && e is MissingDataUrl)
            },
            old(self).stage is Data ==> {
                &&& r matches FetchAction::Finished(t)
                &&& t.page_url_resolved@ == old(self).stage->Data_page_final@
                &&& t.header_url@ == old(self).stage->Data_header_final@
                &&& t.data_url@ == old(self).stage->Data_data_url@
                &&& t.data_final_url@ == final_url@
                &&& t.header_raw@ == old(self).stage->Data_header_raw@
                &&& t.data_raw@ == raw@
                &&& t.header_hash@ == text_sha256(old(self).stage->Data_header_raw@)
                &&& t.data_hash@ == text_sha256(raw@)
                &&& t.header_json == old(self).stage->Data_header_json
                &&& t.data_json == json
                &&& final(self).stage is Done
            },
    {
        let mut stage = FetchStage::Done;
        std::mem::swap(&mut stage, &mut self.stage);
        match stage {
            FetchStage::Header { page_final, header_url: _ } => {
                match resolve_data_url(final_url, &json) {
                    Ok(data_url) => {
                        let url = text(data_url.as_str());
                        self.stage = FetchStage::Data {
                            page_final,
                            header_final: text(final_url),
                            header_raw: raw,
                            header_json: json,
                            data_url,
                        };
                        FetchAction::GetJson { url }
                    },
                    Err(e) => FetchAction::Failed(e),
                }
            },
            FetchStage::Data { page_final, header_final, header_raw, header_json, data_url } => {
                FetchAction::Finished(
                    fetched_table(page_final, header_final, data_url, text(final_url), header_raw, raw, header_json, json),
                )
            },
            _ => {
                proof {
                    assert(false);
                }
                FetchAction::Failed(FetchError::MetaNotFound)
            },
        }
    }
}
}
