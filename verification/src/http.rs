//! Requests and responses: status codes, headers, addresses, and what an error response says.

use crate::calendar;
use crate::calendar::Timestamp;
use crate::number;
use crate::text;
use reqwest::header::HeaderValue;
use reqwest::{StatusCode, Url};
use vstd::prelude::*;

verus! {

/// The address of the service.
pub const GITHUB_API: &'static str = "https://api.github.com/";

/// The name under which requests are made.
pub const USER_AGENT: &'static str = "annals-cli";

/// The kinds of content that requests ask for.
pub const ACCEPTED: &'static str = "application/vnd.github+json, application/vnd.github.cloak-preview+json";

/// What a request or a response came to, in words.
#[derive(Debug)]
pub struct ApiError {
    pub text: String,
}

/// The reason phrase with which the text of a status code ends.
pub uninterp spec fn status_reason(code: int) -> Seq<char>;

/// What `path` means relative to the address `base`, or why it means nothing.
pub uninterp spec fn joined_address(base: Seq<char>, path: Seq<char>) -> Result<
    Seq<char>,
    Seq<char>,
>;

/// The joined address with name/value pairs added to its query.
pub uninterp spec fn address_with_pairs(
    base: Seq<char>,
    path: Seq<char>,
    pairs: Seq<(Seq<char>, Seq<char>)>,
) -> Seq<char>;

/// The view of a text or an error text.
pub open spec fn result_view(r: Result<String, String>) -> Result<Seq<char>, Seq<char>> {
    match r {
        Ok(t) => Ok(t@),
        Err(e) => Err(e@),
    }
}

/// Whether a byte stands for itself in a query: letters, digits and four signs.
pub open spec fn is_plain_byte(b: u8) -> bool {
    ||| 48 <= b && b <= 57
    ||| 65 <= b && b <= 90
    ||| 97 <= b && b <= 122
    ||| b == 42 || b == 45 || b == 46 || b == 95
}

/// The number of bytes that bytes take in a query: a space becomes a plus sign, and what does not
/// stand for itself becomes a percent sign and two digits.
pub open spec fn encoded_len(bytes: Seq<u8>) -> nat
    decreases bytes.len(),
{
    if bytes.len() == 0 {
        0
    } else {
        encoded_len(bytes.drop_last()) + if is_plain_byte(bytes.last()) || bytes.last() == 32 {
            1
        } else {
            3nat
        }
    }
}

/// The number of bytes that a text takes in a query.
pub open spec fn query_len(s: Seq<char>) -> nat {
    encoded_len(vstd::utf8::encode_utf8(s))
}

/// The number of bytes that name/value pairs add to a query, which is `empty` before: an equals
/// sign in each pair, and an ampersand before each but the first one of all.
pub open spec fn pairs_len(empty: bool, pairs: Seq<(Seq<char>, Seq<char>)>) -> nat
    decreases pairs.len(),
{
    if pairs.len() == 0 {
        0
    } else {
        let (name, value) = pairs.last();
        pairs_len(empty, pairs.drop_last()) + query_len(name) + 1 + query_len(value) + if empty
            && pairs.len() == 1 {
            0
        } else {
            1nat
        }
    }
}

/// An address without its fragment.
pub open spec fn without_fragment(address: Seq<char>) -> Seq<char> {
    address.take(text::run_len(address, text::other_than('#')) as int)
}

/// Whether name/value pairs can be added to the query of an address. The places where the query
/// and the fragment begin are counted in 32 bits: a query that is new must not begin further on,
/// and neither may a fragment after the query that has grown.
pub open spec fn takes_pairs(address: Seq<char>, pairs: Seq<(Seq<char>, Seq<char>)>) -> bool {
    let head = without_fragment(address);
    let mark = text::run_len(head, text::other_than('?'));
    let start = text::byte_len(head) + if mark < head.len() {
        0
    } else {
        1nat
    };
    &&& mark < head.len() || text::byte_len(head) <= u32::MAX
    &&& head.len() == address.len() || start + pairs_len(mark + 1 >= head.len(), pairs) <= u32::MAX
}

/// Whether name/value pairs can be added to the query of the joined address, where there is one.
pub open spec fn address_fits(
    base: Seq<char>,
    path: Seq<char>,
    pairs: Seq<(Seq<char>, Seq<char>)>,
) -> bool {
    joined_address(base, path) matches Ok(address) ==> takes_pairs(address, pairs)
}

/// Whether a byte may stand in a header value.
pub open spec fn is_header_byte(b: u8) -> bool {
    (b >= 32 && b != 127) || b == 9
}

/// Whether a text may be a header value.
pub open spec fn is_header_text(s: Seq<char>) -> bool {
    let bytes = vstd::utf8::encode_utf8(s);
    forall|i: int| 0 <= i < bytes.len() ==> is_header_byte(#[trigger] bytes[i])
}

/// The `Display` text of `reqwest::StatusCode`: the number, a space and the reason phrase, which
/// depends on the number alone. `StatusCode::from_u16` takes the numbers from 100 to 999.
#[verifier::external_body]
fn reqwest_status_text(code: u16) -> (r: String)
    requires
        100 <= code <= 999,
    ensures
        r@ == number::decimal(code as nat) + seq![' '] + status_reason(code as int),
{
    StatusCode::from_u16(code).unwrap().to_string()
}

/// `reqwest::Url::parse` of `base` and `Url::join` of `path`: the address or the error text
/// depends on the two texts alone.
#[verifier::external_body]
fn reqwest_join(base: &str, path: &str) -> (r: Result<String, String>)
    ensures
        result_view(r) == joined_address(base@, path@),
{
    match Url::parse(base).and_then(|url| url.join(path)) {
        Ok(url) => Ok(url.into()),
        Err(e) => Err(e.to_string()),
    }
}

/// The same, and then `extend_pairs` on `Url::query_pairs_mut`, which appends the pairs to the
/// query: the address depends on the texts alone, and it fails as the joining does. It panics
/// where a new query or the fragment would begin further on than 32 bits can count.
#[verifier::external_body]
fn reqwest_join_with_pairs(base: &str, path: &str, pairs: &Vec<(String, String)>) -> (r: Result<
    String,
    String,
>)
    requires
        address_fits(base@, path@, pairs.deep_view()),
    ensures
        result_view(r) == (match joined_address(base@, path@) {
            Ok(_) => Ok(address_with_pairs(base@, path@, pairs.deep_view())),
            Err(e) => Err(e),
        }),
{
    match Url::parse(base).and_then(|url| url.join(path)) {
        Ok(mut url) => {
            url.query_pairs_mut().extend_pairs(pairs);
            Ok(url.into())
        },
        Err(e) => Err(e.to_string()),
    }
}

/// `reqwest::header::HeaderValue::from_str`: takes the texts whose bytes are all allowed.
#[verifier::external_body]
fn reqwest_is_header_text(s: &str) -> (r: bool)
    ensures
        r == is_header_text(s@),
{
    HeaderValue::from_str(s).is_ok()
}

/// A status code.
#[derive(Clone, Copy, Debug, PartialEq, Eq, Structural)]
pub struct Status {
    code: u16,
}

impl View for Status {
    type V = int;

    closed spec fn view(&self) -> int {
        self.code as int
    }
}

impl Status {
    #[verifier::type_invariant]
    spec fn valid(&self) -> bool {
        100 <= self.code <= 999
    }

    /// The status with a number from 100 to 999.
    pub fn new(code: u16) -> (r: Option<Status>)
        ensures
            r is Some <==> 100 <= code <= 999,
            r matches Some(s) ==> s@ == code,
    {
        if 100 <= code && code <= 999 {
            Some(Status { code })
        } else {
            None
        }
    }

    /// The number.
    pub fn code(&self) -> (r: u16)
        ensures
            r == self@,
    {
        self.code
    }

    /// Whether the request succeeded.
    pub fn is_success(&self) -> (r: bool)
        ensures
            r == is_success(self@),
            r == (200 <= self@ && self@ <= 299),
    {
        200 <= self.code && self.code < 300
    }

    /// The number and the reason phrase.
    pub fn to_text(&self) -> (r: String)
        ensures
            r@ == status_text(self@),
    {
        proof {
            use_type_invariant(self);
        }
        reqwest_status_text(self.code)
    }
}

/// Whether a status code says that the request succeeded.
pub open spec fn is_success(code: int) -> bool {
    200 <= code < 300
}

/// The text of a status code.
pub open spec fn status_text(code: int) -> Seq<char> {
    number::decimal(code as nat) + seq![' '] + status_reason(code)
}

/// The headers of a response: names in lower case, and values.
#[derive(Debug)]
pub struct Headers {
    pub entries: Vec<(String, Vec<u8>)>,
}

impl View for Headers {
    type V = Seq<(Seq<char>, Seq<u8>)>;

    open spec fn view(&self) -> Seq<(Seq<char>, Seq<u8>)> {
        self.entries.deep_view()
    }
}

/// The position of the first header with a name at or after `from`, or the end.
pub open spec fn header_position(headers: Seq<(Seq<char>, Seq<u8>)>, name: Seq<char>, from: int) -> int
    decreases headers.len() - from,
{
    if from < 0 || from >= headers.len() || headers[from].0 == name {
        from
    } else {
        header_position(headers, name, from + 1)
    }
}

/// Whether a byte is a visible ASCII character, a space or a tab.
pub open spec fn is_visible(b: u8) -> bool {
    (32 <= b && b < 127) || b == 9
}

/// The text of the first header with a name, where all its bytes are visible.
pub open spec fn header_text(headers: Seq<(Seq<char>, Seq<u8>)>, name: Seq<char>) -> Option<
    Seq<char>,
> {
    let at = header_position(headers, name, 0);
    if at < headers.len() && (forall|i: int|
        0 <= i < headers[at].1.len() ==> is_visible(#[trigger] headers[at].1[i])) {
        Some(Seq::new(headers[at].1.len(), |i: int| headers[at].1[i] as char))
    } else {
        None
    }
}

impl Headers {
    /// The text of the first header with a name, where all its bytes are visible.
    pub fn text_of(&self, name: &str) -> (r: Option<String>)
        ensures
            r.deep_view() == header_text(self@, name@),
    {
        let ghost all = self@;
        let mut at: usize = 0;
        while at < self.entries.len() && !text::same_text(self.entries[at].0.as_str(), name)
            invariant
                all == self@,
                at <= all.len(),
                header_position(all, name@, 0) == header_position(all, name@, at as int),
            decreases all.len() - at,
        {
            assert(all[at as int].0 == self.entries@[at as int].0@);
            at += 1;
        }
        if at == self.entries.len() {
            return None;
        }
        assert(all[at as int].0 == self.entries@[at as int].0@);
        let value = &self.entries[at].1;
        assert(all[at as int].1 =~= value@);
        let mut r = String::new();
        for i in 0..value.len()
            invariant
                at < all.len(),
                header_position(all, name@, 0) == at,
                all[at as int].1 == value@,
                all == self@,
                forall|k: int| 0 <= k < i ==> is_visible(#[trigger] value@[k]),
                r@.len() == i,
                forall|k: int| 0 <= k < i ==> r@[k] == #[trigger] value@[k] as char,
        {
            let b = value[i];
            if !((32 <= b && b < 127) || b == 9) {
                assert(!is_visible(all[at as int].1[i as int]));
                return None;
            }
            r.push(b as char);
        }
        assert(r@ =~= header_text(all, name@)->0);
        Some(r)
    }
}

/// Whether the headers announce a further page.
pub open spec fn announces_next(headers: Seq<(Seq<char>, Seq<u8>)>) -> bool {
    header_text(headers, "link"@) matches Some(links) && text::has_text(links, "rel=\"next\""@)
}

/// Whether the headers announce a further page.
pub fn has_next_link(headers: &Headers) -> (r: bool)
    ensures
        r == announces_next(headers@),
        header_text(headers@, "link"@) is None ==> !r,
        header_text(headers@, "link"@) matches Some(links) ==> (r <==> text::has_text(
            links,
            "rel=\"next\""@,
        )),
{
    match headers.text_of("link") {
        Some(links) => text::contains_text(links.as_str(), "rel=\"next\""),
        None => false,
    }
}

/// The number that a header holds.
pub open spec fn header_number(
    headers: Seq<(Seq<char>, Seq<u8>)>,
    name: Seq<char>,
) -> Option<int> {
    match header_text(headers, name) {
        Some(t) => number::number(t),
        None => None,
    }
}

/// The number that a header holds.
fn number_of(headers: &Headers, name: &str) -> (r: Option<i64>)
    ensures
        number::as_int(r) == header_number(headers@, name@),
{
    match headers.text_of(name) {
        Some(t) => number::parse_number(t.as_str()),
        None => None,
    }
}

/// What the headers say of the rate limit.
pub open spec fn rate_limit_text(headers: Seq<(Seq<char>, Seq<u8>)>) -> Option<Seq<char>> {
    match header_number(headers, "x-ratelimit-remaining"@) {
        Some(remaining) => Some(
            "remaining="@ + number::signed_decimal(remaining) + match header_number(
                headers,
                "x-ratelimit-reset"@,
            ) {
                Some(reset) => if calendar::valid_instant(reset, 0) {
                    ", resets at "@ + calendar::rfc3339_text(reset, 0)
                } else {
                    seq![]
                },
                None => seq![],
            },
        ),
        None => None,
    }
}

/// What the headers say of the rate limit.
pub fn format_rate_limit(headers: &Headers) -> (r: Option<String>)
    ensures
        r.deep_view() == rate_limit_text(headers@),
{
    let remaining = match number_of(headers, "x-ratelimit-remaining") {
        Some(n) => n,
        None => {
            return None;
        },
    };
    let mut r = text::copy_text("remaining=");
    r.append(number::signed_decimal_text(remaining).as_str());
    let ghost start = r@;
    if let Some(reset) = number_of(headers, "x-ratelimit-reset") {
        if let Some(time) = Timestamp::new(reset, 0) {
            r.append(", resets at ");
            r.append(time.to_rfc3339().as_str());
            assert(r@ =~= start + (", resets at "@ + calendar::rfc3339_text(reset as int, 0)));
            return Some(r);
        }
    }
    assert(r@ =~= start + seq![]);
    Some(r)
}

/// What an error response to a request means; `context` says what was asked.
pub open spec fn error_text(
    status: int,
    headers: Seq<(Seq<char>, Seq<u8>)>,
    body: Seq<char>,
    context: Seq<char>,
) -> Seq<char> {
    if status == 401 {
        context + " failed: authentication rejected (401)"@
    } else if status == 403 {
        match rate_limit_text(headers) {
            Some(rate) => context + " hit GitHub rate limit: "@ + rate,
            None => context + " forbidden (403) - token may lack scopes or repo access"@,
        }
    } else {
        context + " failed with "@ + status_text(status) + " - "@ + body
    }
}

/// What an error response to a request means; `context` says what was asked.
pub fn format_error(status: Status, headers: &Headers, body: &str, context: &str) -> (r: String)
    ensures
        r@ == error_text(status@, headers@, body@, context@),
        status@ == 401 ==> r@ == context@ + " failed: authentication rejected (401)"@,
        status@ == 403 ==> (rate_limit_text(headers@) matches Some(rate) ==> r@ == context@
            + " hit GitHub rate limit: "@ + rate),
        status@ == 403 && rate_limit_text(headers@) is None ==> r@ == context@
            + " forbidden (403) - token may lack scopes or repo access"@,
        status@ != 401 && status@ != 403 ==> r@ == context@ + " failed with "@ + number::decimal(
            status@ as nat,
        ) + seq![' '] + status_reason(status@) + " - "@ + body@,
{
    let mut r = text::copy_text(context);
    if status.code() == 401 {
        r.append(" failed: authentication rejected (401)");
    } else if status.code() == 403 {
        match format_rate_limit(headers) {
            Some(rate) => {
                r.append(" hit GitHub rate limit: ");
                r.append(rate.as_str());
            },
            None => {
                r.append(" forbidden (403) - token may lack scopes or repo access");
            },
        }
    } else {
        r.append(" failed with ");
        r.append(status.to_text().as_str());
        r.append(" - ");
        r.append(body);
        assert(r@ =~= context@ + " failed with "@ + number::decimal(status@ as nat) + seq![' ']
            + status_reason(status@) + " - "@ + body@);
    }
    r
}

/// The headers that every request carries.
pub open spec fn standing_headers(token: Option<Seq<char>>) -> Seq<(Seq<char>, Seq<char>)> {
    match token {
        Some(t) => seq![("accept"@, ACCEPTED@), ("authorization"@, "Bearer "@ + t)],
        None => seq![("accept"@, ACCEPTED@)],
    }
}

/// The headers that every request carries, unless the token cannot stand in a header.
pub fn request_headers(token: &Option<String>) -> (r: Result<Vec<(String, String)>, ApiError>)
    ensures
        r is Ok <==> (token matches Some(t) ==> is_header_text("Bearer "@ + t@)),
        r matches Ok(headers) ==> headers.deep_view() == standing_headers(token.deep_view()),
        r matches Err(e) ==> e.text@ == "failed to encode Authorization header"@,
{
    let mut headers: Vec<(String, String)> = Vec::new();
    headers.push((text::copy_text("accept"), text::copy_text(ACCEPTED)));
    if let Some(t) = token {
        let mut value = text::copy_text("Bearer ");
        value.append(t.as_str());
        if !reqwest_is_header_text(value.as_str()) {
            return Err(
                ApiError { text: text::copy_text("failed to encode Authorization header") },
            );
        }
        headers.push((text::copy_text("authorization"), value));
    }
    assert(headers.deep_view() =~= standing_headers(token.deep_view()));
    Ok(headers)
}

/// The address that a path relative to `base` and name/value pairs make, or why there is none.
pub open spec fn request_address(
    base: Seq<char>,
    path: Seq<char>,
    pairs: Seq<(Seq<char>, Seq<char>)>,
) -> Result<Seq<char>, Seq<char>> {
    match joined_address(base, path) {
        Ok(_) => Ok(address_with_pairs(base, path, pairs)),
        Err(e) => Err(e),
    }
}

/// The address of a path relative to `base`.
pub fn plain_url(base: &str, path: &str) -> (r: Result<String, String>)
    ensures
        result_view(r) == joined_address(base@, path@),
{
    reqwest_join(base, path)
}

/// The address of a path relative to `base`, with name/value pairs in its query.
pub fn request_url(base: &str, path: &str, pairs: &Vec<(String, String)>) -> (r: Result<
    String,
    String,
>)
    requires
        address_fits(base@, path@, pairs.deep_view()),
    ensures
        result_view(r) == request_address(base@, path@, pairs.deep_view()),
{
    reqwest_join_with_pairs(base, path, pairs)
}

/// The address of a path relative to `base`, with name/value pairs in its query; `None` where they
/// cannot be added.
pub fn checked_request_url(base: &str, path: &str, pairs: &Vec<(String, String)>) -> (r: Option<
    Result<String, String>,
>)
    ensures
        r is Some <==> address_fits(base@, path@, pairs.deep_view()),
        r matches Some(u) ==> result_view(u) == request_address(base@, path@, pairs.deep_view()),
{
    match reqwest_join(base, path) {
        Ok(address) => if can_take_pairs(address.as_str(), pairs) {
            Some(request_url(base, path, pairs))
        } else {
            None
        },
        Err(e) => Some(Err(e)),
    }
}

/// Whether name/value pairs can be added to the query of an address.
pub fn can_take_pairs(address: &str, pairs: &Vec<(String, String)>) -> (r: bool)
    ensures
        r == takes_pairs(address@, pairs.deep_view()),
{
    let ghost all = pairs.deep_view();
    let chars = text::chars_of(address);
    let end = text::find_char(&chars, 0, '#');
    let head = text::text_between(&chars, 0, end);
    let head_chars = text::chars_of(head.as_str());
    let mark = text::find_char(&head_chars, 0, '?');
    proof {
        text::lemma_run_len_is(address@, text::other_than('#'), end as int);
        assert(head@ =~= without_fragment(address@));
        text::lemma_run_len_is(head@, text::other_than('?'), mark as int);
    }
    let has_query = mark < head_chars.len();
    let empty = mark as u128 + 1 >= head_chars.len() as u128;
    let head_size = byte_room(head.as_str());
    if !has_query && head_size > u32::MAX as u128 {
        return false;
    }
    if end == chars.len() {
        return true;
    }
    let start: u128 = head_size + if has_query {
        0
    } else {
        1
    };
    let mut size: u128 = start;
    let mut fits = size <= u32::MAX as u128;
    for i in 0..pairs.len()
        invariant
            all == pairs.deep_view(),
            fits ==> size == start + pairs_len(empty, all.take(i as int)),
            fits ==> size <= u32::MAX,
            !fits ==> start + pairs_len(empty, all.take(i as int)) > u32::MAX,
    {
        proof {
            let upto = all.take(i + 1);
            assert(upto.drop_last() =~= all.take(i as int));
            assert(upto.last() == (pairs@[i as int].0@, pairs@[i as int].1@));
        }
        if fits {
            let sign: u128 = if empty && i == 0 {
                0
            } else {
                1
            };
            size = size + query_size(pairs[i].0.as_str()) + 1 + query_size(pairs[i].1.as_str())
                + sign;
            fits = size <= u32::MAX as u128;
        }
    }
    assert(all.take(all.len() as int) =~= all);
    fits
}

/// The number of bytes that a text takes in a query.
pub fn query_size(s: &str) -> (n: u128)
    ensures
        n == query_len(s@),
        n <= 3 * u64::MAX,
{
    let bytes = s.as_bytes();
    let mut n: u128 = 0;
    for i in 0..bytes.len()
        invariant
            n == encoded_len(bytes@.take(i as int)),
            n <= 3 * i,
    {
        proof {
            let upto = bytes@.take(i + 1);
            assert(upto.drop_last() =~= bytes@.take(i as int));
            assert(upto.last() == bytes@[i as int]);
        }
        let b = bytes[i];
        let plain = (48 <= b && b <= 57) || (65 <= b && b <= 90) || (97 <= b && b <= 122) || b
            == 42 || b == 45 || b == 46 || b == 95;
        n = n + if plain || b == 32 {
            1
        } else {
            3
        };
    }
    assert(bytes@.take(bytes@.len() as int) =~= bytes@);
    n
}

/// The number of bytes of a text.
fn byte_room(s: &str) -> (n: u128)
    ensures
        n == text::byte_len(s@),
        n <= u64::MAX,
{
    text::byte_count(s) as u128
}

/// A further page is announced exactly where one of the links, which commas part, is the one to
/// the next page.
pub proof fn lemma_next_in_one_link(headers: Seq<(Seq<char>, Seq<u8>)>)
    ensures
        announces_next(headers) <==> (header_text(headers, "link"@) matches Some(links)
            && exists|i: int|
            0 <= i < text::split_on(links, ',').len() && text::has_text(
                #[trigger] text::split_on(links, ',')[i],
                "rel=\"next\""@,
            )),
{
    reveal_strlit("rel=\"next\"");
    if let Some(links) = header_text(headers, "link"@) {
        text::lemma_needle_in_part(links, ',', "rel=\"next\""@);
    }
}

/// The text of a header is that of the first one with its name, where all its bytes are visible
/// characters, spaces or tabs: those before it do not matter when their names are others, and those
/// behind it never do.
pub proof fn lemma_header_is(
    before: Seq<(Seq<char>, Seq<u8>)>,
    name: Seq<char>,
    value: Seq<u8>,
    after: Seq<(Seq<char>, Seq<u8>)>,
)
    requires
        forall|i: int| 0 <= i < before.len() ==> (#[trigger] before[i]).0 != name,
    ensures
        header_text(before, name) is None,
        header_text(before.push((name, value)) + after, name) is Some <==> forall|i: int|
            0 <= i < value.len() ==> (32 <= #[trigger] value[i] && value[i] <= 126) || value[i] == 9,
        header_text(before.push((name, value)) + after, name) matches Some(t) ==> t.len()
            == value.len() && forall|i: int| 0 <= i < t.len() ==> #[trigger] t[i] as int == value[i],
{
    let all = before.push((name, value)) + after;
    lemma_header_position(before, name, before.len() as int, 0);
    assert forall|i: int| 0 <= i < before.len() implies (#[trigger] all[i]).0 != name by {
        assert(all[i] == before[i]);
    }
    lemma_header_position(all, name, before.len() as int, 0);
    assert(all[before.len() as int] == (name, value));
    assert(header_position(all, name, before.len() as int) == before.len());
    if forall|i: int|
        0 <= i < value.len() ==> (32 <= #[trigger] value[i] && value[i] <= 126) || value[i] == 9 {
        assert forall|i: int| 0 <= i < value.len() implies is_visible(#[trigger] value[i]) by {}
    } else {
        let i = choose|i: int|
            0 <= i < value.len() && !((32 <= #[trigger] value[i] && value[i] <= 126) || value[i]
                == 9);
        assert(!is_visible(all[before.len() as int].1[i]));
    }
}

/// Headers with other names are passed over.
proof fn lemma_header_position(
    headers: Seq<(Seq<char>, Seq<u8>)>,
    name: Seq<char>,
    upto: int,
    from: int,
)
    requires
        0 <= from <= upto <= headers.len(),
        forall|i: int| 0 <= i < upto ==> (#[trigger] headers[i]).0 != name,
    ensures
        header_position(headers, name, from) == header_position(headers, name, upto),
    decreases upto - from,
{
    if from < upto {
        lemma_header_position(headers, name, upto, from + 1);
    }
}

/// What the headers say of the rate limit: the number of requests that are left, and the time at
/// which the limit ends where that is a time. Without the number nothing is said.
pub proof fn lemma_rate_limit_is(headers: Seq<(Seq<char>, Seq<u8>)>)
    ensures
        ({
            let left = match header_text(headers, "x-ratelimit-remaining"@) {
                Some(t) => number::number(t),
                None => None,
            };
            let ends = match header_text(headers, "x-ratelimit-reset"@) {
                Some(t) => number::number(t),
                None => None,
            };
            &&& left is None ==> rate_limit_text(headers) is None
            &&& left is Some && ends is Some && calendar::valid_instant(ends->0, 0)
                ==> rate_limit_text(headers) == Some(
                "remaining="@ + number::signed_decimal(left->0) + (", resets at "@
                    + calendar::rfc3339_text(ends->0, 0)),
            )
            &&& left is Some && !(ends is Some && calendar::valid_instant(ends->0, 0))
                ==> rate_limit_text(headers) == Some(
                "remaining="@ + number::signed_decimal(left->0),
            )
        }),
{
    let left = header_number(headers, "x-ratelimit-remaining"@);
    if left is Some {
        let start = "remaining="@ + number::signed_decimal(left->0);
        assert(start + Seq::<char>::empty() =~= start);
    }
}

/// What an error response means depends on its status: 401 is a refused token, 403 a rate limit or
/// a lack of rights, and anything else is told with the status and the body.
pub proof fn lemma_error_is(
    status: int,
    headers: Seq<(Seq<char>, Seq<u8>)>,
    body: Seq<char>,
    context: Seq<char>,
)
    ensures
        error_text(401, headers, body, context) == context
            + " failed: authentication rejected (401)"@,
        rate_limit_text(headers) matches Some(rate) ==> error_text(403, headers, body, context)
            == context + " hit GitHub rate limit: "@ + rate,
        rate_limit_text(headers) is None ==> error_text(403, headers, body, context) == context
            + " forbidden (403) - token may lack scopes or repo access"@,
        status != 401 && status != 403 ==> error_text(status, headers, body, context) == context
            + " failed with "@ + (number::decimal(status as nat) + seq![' '] + status_reason(
            status,
        )) + " - "@ + body,
        is_success(status) <==> 200 <= status <= 299,
{
}

/// The headers that every request carries: the kinds of content, and the token where there is one.
pub proof fn lemma_request_headers_are(token: Seq<char>)
    ensures
        standing_headers(None) == seq![
            (
                "accept"@,
                "application/vnd.github+json, application/vnd.github.cloak-preview+json"@,
            ),
        ],
        standing_headers(Some(token)) == standing_headers(None).push(
            ("authorization"@, "Bearer "@ + token),
        ),
{
    assert(standing_headers(Some(token)) =~= standing_headers(None).push(
        ("authorization"@, "Bearer "@ + token),
    ));
}

/// Pairs can be added to every address that stays below four gigabytes with them: three bytes for
/// each of theirs, and two signs for each pair, are more than they take.
pub proof fn lemma_small_addresses_fit(address: Seq<char>, pairs: Seq<(Seq<char>, Seq<char>)>)
    requires
        text::byte_len(address) + 1 + 3 * pairs_size(pairs) + 2 * pairs.len() <= u32::MAX,
    ensures
        takes_pairs(address, pairs),
{
    let head = without_fragment(address);
    let mark = text::run_len(head, text::other_than('?'));
    text::lemma_run_len(address, text::other_than('#'));
    let rest = address.skip(head.len() as int);
    assert(address =~= head + rest);
    text::lemma_byte_len_add(head, rest);
    lemma_pairs_len(mark + 1 >= head.len(), pairs);
}

/// The bytes of the names and values of pairs.
pub open spec fn pairs_size(pairs: Seq<(Seq<char>, Seq<char>)>) -> nat
    decreases pairs.len(),
{
    if pairs.len() == 0 {
        0
    } else {
        let (name, value) = pairs.last();
        pairs_size(pairs.drop_last()) + text::byte_len(name) + text::byte_len(value)
    }
}

/// What pairs add at most.
proof fn lemma_pairs_len(empty: bool, pairs: Seq<(Seq<char>, Seq<char>)>)
    ensures
        pairs_len(empty, pairs) <= 3 * pairs_size(pairs) + 2 * pairs.len(),
    decreases pairs.len(),
{
    if pairs.len() > 0 {
        lemma_pairs_len(empty, pairs.drop_last());
        lemma_encoded_len(vstd::utf8::encode_utf8(pairs.last().0));
        lemma_encoded_len(vstd::utf8::encode_utf8(pairs.last().1));
    }
}

/// A byte takes at most three.
proof fn lemma_encoded_len(bytes: Seq<u8>)
    ensures
        encoded_len(bytes) <= 3 * bytes.len(),
    decreases bytes.len(),
{
    if bytes.len() > 0 {
        lemma_encoded_len(bytes.drop_last());
    }
}

/// Pairs can be added to the joined address where it takes them, and where there is none there is
/// nothing that could fail.
pub proof fn lemma_joined_takes_pairs(
    base: Seq<char>,
    path: Seq<char>,
    pairs: Seq<(Seq<char>, Seq<char>)>,
)
    ensures
        joined_address(base, path) is Err ==> address_fits(base, path, pairs),
        joined_address(base, path) matches Ok(address) ==> (address_fits(base, path, pairs)
            <==> takes_pairs(address, pairs)),
{
}

} // verus!
