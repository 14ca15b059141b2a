//! Who may do what: the checks that every request passes.
//!
//! Without a key table every request is let through. With one, a request has to
//! present a key of the table, the key's level has to be high enough for the
//! operation, and the key has to be for the tenant that the request names.

use crate::keyfile;
use crate::keys;
use crate::keys::{ApiKeys, GrantView, KeyGrant};
use crate::scope;
use crate::scope::Scope;
use crate::text;
use vstd::prelude::*;
use vstd::string::*;

verus! {

/// The headers of an HTTP request.
#[verifier::external_type_specification]
#[verifier::external_body]
#[verifier::reject_recursive_types(T)]
pub struct ExHeaderMap<T>(axum::http::HeaderMap<T>);

/// The value of an HTTP header.
#[verifier::external_type_specification]
#[verifier::external_body]
pub struct ExHeaderValue(axum::http::HeaderValue);

/// A gRPC request.
#[verifier::external_type_specification]
#[verifier::external_body]
#[verifier::reject_recursive_types(T)]
pub struct ExRequest<T>(tonic::Request<T>);

/// The headers that a map holds: under each name, in lower case, the bytes of
/// the first value.
pub uninterp spec fn header_values(
    headers: axum::http::HeaderMap<axum::http::HeaderValue>,
) -> Map<Seq<char>, Seq<u8>>;

/// The metadata of a gRPC request: under each name, in lower case, the bytes of
/// its values in their order, of which there is at least one.
pub uninterp spec fn request_metadata(req: tonic::Request<()>) -> Map<Seq<char>, Seq<Seq<u8>>>;

/// The grant that a gRPC request carries in its extensions.
pub uninterp spec fn attached_grant(req: tonic::Request<()>) -> Option<GrantView>;

/// What a gRPC request carries in its extensions besides a grant: under a number
/// for each type, a number for its value. Which numbers these are is left open.
pub uninterp spec fn other_extensions(req: tonic::Request<()>) -> Map<nat, nat>;

/// Whether a name is made of small letters, digits and hyphens.
pub open spec fn lower_case_name(name: Seq<char>) -> bool {
    forall|i: int|
        0 <= i < name.len() ==> ('a' <= #[trigger] name[i] <= 'z' || '0' <= name[i] <= '9'
            || name[i] == '-')
}

/// `HeaderMap::get`: the first value under a name, if there is one. Names are
/// stored in lower case.
#[verifier::external_body]
fn header_bytes(
    headers: &axum::http::HeaderMap<axum::http::HeaderValue>,
    name: &str,
) -> (r: Option<Vec<u8>>)
    requires
        lower_case_name(name@),
    ensures
        r is Some <==> header_values(*headers).contains_key(name@),
        r is Some ==> r->0@ == header_values(*headers)[name@],
{
    headers.get(name).map(|v| v.as_bytes().to_vec())
}

/// `MetadataMap::get` on the metadata of a request: the first value under a
/// name, if there is one. Names are stored in lower case; those that end in
/// `-bin` are for values that are no text.
#[verifier::external_body]
fn metadata_bytes(req: &tonic::Request<()>, name: &str) -> (r: Option<Vec<u8>>)
    requires
        lower_case_name(name@),
        !"-bin"@.is_suffix_of(name@),
    ensures
        r is Some <==> request_metadata(*req).contains_key(name@),
        r is Some ==> r->0@ == request_metadata(*req)[name@][0],
{
    req.metadata().get(name).map(|v| v.as_bytes().to_vec())
}

/// `Extensions::insert` on the extensions of a request: the request carries the
/// grant from then on, in place of an earlier one. Extensions of other types and
/// the metadata are as they were.
#[verifier::external_body]
fn attach_grant(req: &mut tonic::Request<()>, grant: KeyGrant)
    ensures
        attached_grant(*final(req)) == Some(grant@),
        other_extensions(*final(req)) == other_extensions(*old(req)),
        request_metadata(*final(req)) == request_metadata(*old(req)),
{
    req.extensions_mut().insert(grant);
}

/// The kinds of refusal.
#[derive(Debug, Clone, Copy, PartialEq, Eq, Structural)]
pub enum Code {
    /// The request presents no key that is known.
    Unauthenticated,
    /// The key does not permit the operation.
    PermissionDenied,
}

/// A refusal.
pub struct StatusView {
    pub code: Code,
    pub message: Seq<char>,
}

/// A refusal.
#[derive(Debug)]
pub struct Status {
    code: Code,
    message: String,
}

impl View for Status {
    type V = StatusView;

    closed spec fn view(&self) -> StatusView {
        StatusView { code: self.code, message: self.message@ }
    }
}

impl Status {
    /// The refusal of a request that presents no known key.
    pub fn unauthenticated(message: &str) -> (r: Status)
        ensures
            r@ == (StatusView { code: Code::Unauthenticated, message: message@ }),
    {
        Status { code: Code::Unauthenticated, message: message.to_owned() }
    }

    /// The refusal of an operation that the key does not permit.
    pub fn permission_denied(message: String) -> (r: Status)
        ensures
            r@ == (StatusView { code: Code::PermissionDenied, message: message@ }),
    {
        Status { code: Code::PermissionDenied, message }
    }

    /// The kind of the refusal.
    pub fn code(&self) -> (r: Code)
        ensures
            r == self@.code,
    {
        self.code
    }

    /// What is said to the caller.
    pub fn message(&self) -> (r: &str)
        ensures
            r@ == self@.message,
    {
        self.message.as_str()
    }
}

/// What is said if the level of a key is too low.
pub open spec fn level_too_low(held: Scope, needed: Scope) -> Seq<char> {
    "key 档位 "@ + scope::scope_name(held) + " 不足：该操作需要 "@ + scope::scope_name(needed)
}

/// What is said if a key is not for a tenant.
pub open spec fn wrong_tenant(bound: Seq<char>, tenant: Seq<char>) -> Seq<char> {
    "key 绑定租户为 "@ + bound + "，无权访问 tenant="@ + tenant
}

/// Why a grant does not permit an operation that needs a level and, if a tenant
/// is named, touches that tenant; nothing if it does permit it.
pub open spec fn refusal(grant: GrantView, needed: Scope, tenant: Option<Seq<char>>) -> Option<
    StatusView,
> {
    if scope::level(grant.scope) < scope::level(needed) {
        Some(
            StatusView {
                code: Code::PermissionDenied,
                message: level_too_low(grant.scope, needed),
            },
        )
    } else if tenant is Some && !keys::covers(grant, tenant->0) {
        Some(
            StatusView {
                code: Code::PermissionDenied,
                message: wrong_tenant(grant.tenant, tenant->0),
            },
        )
    } else {
        None
    }
}

/// Checks a grant against the level that an operation needs and, if a tenant is
/// named, against that tenant.
pub fn check_grant(grant: &KeyGrant, needed: Scope, tenant: Option<&str>) -> (r: Result<
    (),
    Status,
>)
    ensures
        match refusal(grant@, needed, text::str_view(tenant)) {
            None => r is Ok,
            Some(status) => r is Err && r->Err_0@ == status,
        },
{
    if !grant.scope.allows(needed) {
        let mut message = "key 档位 ".to_owned();
        message.append(grant.scope.as_str());
        message.append(" 不足：该操作需要 ");
        message.append(needed.as_str());
        return Err(Status::permission_denied(message));
    }
    match tenant {
        None => Ok(()),
        Some(tenant) => {
            if grant.covers_tenant(tenant) {
                Ok(())
            } else {
                let mut message = "key 绑定租户为 ".to_owned();
                message.append(grant.tenant.as_str());
                message.append("，无权访问 tenant=");
                message.append(tenant);
                Err(Status::permission_denied(message))
            }
        },
    }
}

/// Checks the grant of a request, if it carries one, against the level that the
/// operation needs and the tenant that it touches.
pub fn authorize(grant: Option<&KeyGrant>, needed: Scope, tenant: &str) -> (r: Result<(), Status>)
    ensures
        match grant {
            None => r is Ok,
            Some(g) => match refusal(g@, needed, Some(tenant@)) {
                None => r is Ok,
                Some(status) => r is Err && r->Err_0@ == status,
            },
        },
{
    match grant {
        None => Ok(()),
        Some(g) => check_grant(g, needed, Some(tenant)),
    }
}

/// Whether a byte may stand in a header value that is read as text: the
/// printable ASCII characters and the tab.
pub open spec fn visible(b: u8) -> bool {
    32 <= b < 127 || b == 9
}

/// The text of a header value, if all of it can be read as text.
pub open spec fn header_text(bytes: Seq<u8>) -> Option<Seq<char>> {
    if forall|i: int| 0 <= i < bytes.len() ==> visible(#[trigger] bytes[i]) {
        Some(bytes.map_values(|b: u8| b as char))
    } else {
        None
    }
}

/// The text of a header, if it is there and can be read as text.
pub open spec fn header_named(headers: Map<Seq<char>, Seq<u8>>, name: Seq<char>) -> Option<
    Seq<char>,
> {
    if headers.contains_key(name) {
        header_text(headers[name])
    } else {
        None
    }
}

/// The text of the first metadata value under a name, if it is there and can be
/// read as text.
pub open spec fn metadata_named(
    metadata: Map<Seq<char>, Seq<Seq<u8>>>,
    name: Seq<char>,
) -> Option<Seq<char>> {
    if metadata.contains_key(name) {
        header_text(metadata[name][0])
    } else {
        None
    }
}

/// The token of an `Authorization` header with the scheme `Bearer`.
pub open spec fn bearer_token(value: Seq<char>) -> Option<Seq<char>> {
    if "Bearer "@.is_prefix_of(value) {
        Some(value.skip(7))
    } else {
        None
    }
}

/// The key that an HTTP request presents: the header `x-api-key` goes before a
/// bearer token.
pub open spec fn http_key_of(headers: Map<Seq<char>, Seq<u8>>) -> Option<Seq<char>> {
    match header_named(headers, "x-api-key"@) {
        Some(key) => Some(key),
        None => match header_named(headers, "authorization"@) {
            Some(value) => bearer_token(value),
            None => None,
        },
    }
}

/// The grant of a presented key, or the refusal if no key is presented or the
/// table does not hold it.
pub open spec fn identified(
    table: Map<Seq<char>, GrantView>,
    key: Option<Seq<char>>,
    missing: Seq<char>,
    unknown: Seq<char>,
) -> Result<GrantView, StatusView> {
    match key {
        None => Err(StatusView { code: Code::Unauthenticated, message: missing }),
        Some(key) => if table.contains_key(key) {
            Ok(table[key])
        } else {
            Err(StatusView { code: Code::Unauthenticated, message: unknown })
        },
    }
}

/// The grant under which an HTTP request is let through, or its refusal.
pub open spec fn http_outcome(
    table: Map<Seq<char>, GrantView>,
    key: Option<Seq<char>>,
    needed: Scope,
    tenant: Option<Seq<char>>,
) -> Result<GrantView, StatusView> {
    match identified(
        table,
        key,
        "缺少 API key（x-api-key 头或 Bearer）"@,
        "API key 无效"@,
    ) {
        Err(status) => Err(status),
        Ok(grant) => match refusal(grant, needed, tenant) {
            Some(status) => Err(status),
            None => Ok(grant),
        },
    }
}

/// The grant that a gRPC request is given, or its refusal.
pub open spec fn grpc_outcome(table: Map<Seq<char>, GrantView>, key: Option<Seq<char>>) -> Result<
    GrantView,
    StatusView,
> {
    identified(
        table,
        key,
        "缺少 x-api-key（引擎已启用 API key 鉴权）"@,
        "x-api-key 无效"@,
    )
}

/// The text of a header value, if all of it can be read as text.
pub fn text_of_header(bytes: &Vec<u8>) -> (r: Option<String>)
    ensures
        match header_text(bytes@) {
            Some(s) => r is Some && r->0@ == s,
            None => r is None,
        },
{
    let ghost all = bytes@.map_values(|b: u8| b as char);
    let mut s = String::new();
    let mut i: usize = 0;
    while i < bytes.len()
        invariant
            i <= bytes.len(),
            all == bytes@.map_values(|b: u8| b as char),
            s@ == all.take(i as int),
            forall|j: int| 0 <= j < i ==> visible(#[trigger] bytes@[j]),
        decreases bytes.len() - i,
    {
        let b = bytes[i];
        if !((32 <= b && b < 127) || b == 9) {
            return None;
        }
        s.push(b as char);
        i = i + 1;
        proof {
            assert(all.take(i as int) =~= all.take(i - 1).push(all[i - 1]));
        }
    }
    proof {
        assert(all.take(i as int) =~= all);
    }
    Some(s)
}

/// The token of an `Authorization` header with the scheme `Bearer`.
pub fn strip_bearer(value: &str) -> (r: Option<String>)
    ensures
        match bearer_token(value@) {
            Some(token) => r is Some && r->0@ == token,
            None => r is None,
        },
{
    if text::starts_with(value, "Bearer ") {
        proof {
            reveal_strlit("Bearer ");
        }
        let chars = text::chars_of(value);
        proof {
            assert(chars@.subrange(7, chars@.len() as int) =~= value@.skip(7));
        }
        Some(text::string_of(&chars, 7, chars.len()))
    } else {
        None
    }
}

/// The key that an HTTP request presents, if any.
pub fn http_key(headers: &axum::http::HeaderMap<axum::http::HeaderValue>) -> (r: Option<String>)
    ensures
        match http_key_of(header_values(*headers)) {
            Some(key) => r is Some && r->0@ == key,
            None => r is None,
        },
{
    proof {
        reveal_strlit("x-api-key");
        reveal_strlit("authorization");
        assert(lower_case_name("x-api-key"@));
        assert(lower_case_name("authorization"@));
    }
    let api_key = match header_bytes(headers, "x-api-key") {
        Some(bytes) => text_of_header(&bytes),
        None => None,
    };
    match api_key {
        Some(key) => Some(key),
        None => match header_bytes(headers, "authorization") {
            Some(bytes) => match text_of_header(&bytes) {
                Some(value) => strip_bearer(value.as_str()),
                None => None,
            },
            None => None,
        },
    }
}

/// The grant of a presented key, or the refusal with one of two messages.
fn identify(keys: &ApiKeys, key: Option<String>, missing: &str, unknown: &str) -> (r: Result<
    KeyGrant,
    Status,
>)
    ensures
        match identified(keys@, text::string_view(key), missing@, unknown@) {
            Ok(grant) => r is Ok && r->Ok_0@ == grant,
            Err(status) => r is Err && r->Err_0@ == status,
        },
{
    match key {
        None => Err(Status::unauthenticated(missing)),
        Some(key) => match keys.authenticate(key.as_str()) {
            Some(grant) => Ok(grant),
            None => Err(Status::unauthenticated(unknown)),
        },
    }
}

/// Lets an HTTP request through that presents a key, or refuses it.
pub fn http_check(
    keys: &ApiKeys,
    key: Option<String>,
    needed: Scope,
    tenant: Option<&str>,
) -> (r: Result<KeyGrant, Status>)
    ensures
        match http_outcome(keys@, text::string_view(key), needed, text::str_view(tenant)) {
            Ok(grant) => r is Ok && r->Ok_0@ == grant,
            Err(status) => r is Err && r->Err_0@ == status,
        },
{
    match identify(
        keys,
        key,
        "缺少 API key（x-api-key 头或 Bearer）",
        "API key 无效",
    ) {
        Err(status) => Err(status),
        Ok(grant) => match check_grant(&grant, needed, tenant) {
            Ok(_) => Ok(grant),
            Err(status) => Err(status),
        },
    }
}

/// Lets an HTTP request through or refuses it. If a tenant is named, the key has
/// to be for that tenant. Without a key table there is no grant.
pub fn http_authorize(
    auth: Option<&ApiKeys>,
    headers: &axum::http::HeaderMap<axum::http::HeaderValue>,
    needed: Scope,
    tenant: Option<&str>,
) -> (r: Result<Option<KeyGrant>, Status>)
    ensures
        match auth {
            None => r is Ok && r->Ok_0 is None,
            Some(keys) => match http_outcome(
                keys@,
                http_key_of(header_values(*headers)),
                needed,
                text::str_view(tenant),
            ) {
                Ok(grant) => r is Ok && r->Ok_0 is Some && r->Ok_0->0@ == grant,
                Err(status) => r is Err && r->Err_0@ == status,
            },
        },
{
    match auth {
        None => Ok(None),
        Some(keys) => match http_check(keys, http_key(headers), needed, tenant) {
            Ok(grant) => Ok(Some(grant)),
            Err(status) => Err(status),
        },
    }
}

/// The key that a gRPC request presents in its metadata, if any.
pub fn grpc_key(req: &tonic::Request<()>) -> (r: Option<String>)
    ensures
        match metadata_named(request_metadata(*req), "x-api-key"@) {
            Some(key) => r is Some && r->0@ == key,
            None => r is None,
        },
{
    proof {
        reveal_strlit("x-api-key");
        reveal_strlit("-bin");
        assert(lower_case_name("x-api-key"@));
        assert("x-api-key"@.subrange(5, 9)[3] == 'y');
    }
    match metadata_bytes(req, "x-api-key") {
        Some(bytes) => text_of_header(&bytes),
        None => None,
    }
}

/// The grant that a gRPC request is given which presents a key, or its refusal.
pub fn grpc_check(keys: &ApiKeys, key: Option<String>) -> (r: Result<KeyGrant, Status>)
    ensures
        match grpc_outcome(keys@, text::string_view(key)) {
            Ok(grant) => r is Ok && r->Ok_0@ == grant,
            Err(status) => r is Err && r->Err_0@ == status,
        },
{
    identify(
        keys,
        key,
        "缺少 x-api-key（引擎已启用 API key 鉴权）",
        "x-api-key 无效",
    )
}

/// Lets a gRPC request through or refuses it. A request that presents a known key
/// carries the key's grant from then on, whatever that permits, and is otherwise
/// as it was; without a key table it is left as it is.
pub fn grpc_intercept(auth: Option<&ApiKeys>, req: tonic::Request<()>) -> (r: Result<
    tonic::Request<()>,
    Status,
>)
    ensures
        match auth {
            None => r is Ok && r->Ok_0 == req,
            Some(keys) => match grpc_outcome(
                keys@,
                metadata_named(request_metadata(req), "x-api-key"@),
            ) {
                Ok(grant) => {
                    &&& r is Ok
                    &&& attached_grant(r->Ok_0) == Some(grant)
                    &&& other_extensions(r->Ok_0) == other_extensions(req)
                    &&& request_metadata(r->Ok_0) == request_metadata(req)
                },
                Err(status) => r is Err && r->Err_0@ == status,
            },
        },
{
    match auth {
        None => Ok(req),
        Some(keys) => match grpc_check(keys, grpc_key(&req)) {
            Ok(grant) => {
                let mut req = req;
                attach_grant(&mut req, grant);
                Ok(req)
            },
            Err(status) => Err(status),
        },
    }
}

/// A key that is bound to a tenant permits nothing for any other tenant,
/// whatever its level.
pub proof fn law_a_bound_key_stays_within_its_tenant(
    grant: GrantView,
    needed: Scope,
    tenant: Seq<char>,
)
    requires
        grant.tenant != "*"@,
        grant.tenant != tenant,
    ensures
        refusal(grant, needed, Some(tenant)) is Some,
        refusal(grant, needed, Some(tenant))->0.code == Code::PermissionDenied,
{
}

/// In a table that obeys the rules a key for all tenants permits everything.
pub proof fn law_a_key_for_all_tenants_permits_everything(
    table: Map<Seq<char>, GrantView>,
    key: Seq<char>,
    needed: Scope,
    tenant: Option<Seq<char>>,
)
    requires
        keys::obeys_rules(table),
        table.contains_key(key),
        table[key].tenant == "*"@,
    ensures
        refusal(table[key], needed, tenant) is None,
        http_outcome(table, Some(key), needed, tenant) == Ok::<GrantView, StatusView>(table[key]),
{
    assert(keys::may_grant(key, table[key]));
}

/// What a level permits, a higher level permits too, and what is permitted where
/// a level is needed is permitted where a lower one is.
pub proof fn law_a_higher_level_permits_no_less(
    grant: GrantView,
    higher: GrantView,
    needed: Scope,
    less: Scope,
    tenant: Option<Seq<char>>,
)
    requires
        refusal(grant, needed, tenant) is None,
        higher.tenant == grant.tenant,
        scope::level(higher.scope) >= scope::level(grant.scope),
        scope::level(less) <= scope::level(needed),
    ensures
        refusal(higher, less, tenant) is None,
{
}

/// A request is told that it lacks a valid key exactly if it presents none or one
/// that the table does not hold; every other refusal is for want of permission.
pub proof fn law_the_kind_of_refusal_tells_the_reason(
    table: Map<Seq<char>, GrantView>,
    key: Option<Seq<char>>,
    needed: Scope,
    tenant: Option<Seq<char>>,
)
    ensures
        ({
            let known = key is Some && table.contains_key(key->0);
            &&& !known <==> http_outcome(table, key, needed, tenant) is Err && http_outcome(
                table,
                key,
                needed,
                tenant,
            )->Err_0.code == Code::Unauthenticated
            &&& known && refusal(table[key->0], needed, tenant) is Some <==> http_outcome(
                table,
                key,
                needed,
                tenant,
            ) is Err && http_outcome(table, key, needed, tenant)->Err_0.code
                == Code::PermissionDenied
            &&& !known <==> grpc_outcome(table, key) is Err
            &&& grpc_outcome(table, key) is Err ==> grpc_outcome(table, key)->Err_0.code
                == Code::Unauthenticated
        }),
{
}

/// A request over HTTP is let through under a grant exactly if the same key is
/// given that grant over gRPC and the grant permits the operation; and where the
/// key is known, both refuse with the same words.
pub proof fn law_both_protocols_decide_alike(
    table: Map<Seq<char>, GrantView>,
    key: Option<Seq<char>>,
    needed: Scope,
    tenant: Seq<char>,
)
    ensures
        http_outcome(table, key, needed, Some(tenant)) is Ok <==> grpc_outcome(table, key) is Ok
            && refusal(grpc_outcome(table, key)->Ok_0, needed, Some(tenant)) is None,
        http_outcome(table, key, needed, Some(tenant)) is Ok ==> http_outcome(
            table,
            key,
            needed,
            Some(tenant),
        ) == grpc_outcome(table, key),
        grpc_outcome(table, key) is Ok && http_outcome(table, key, needed, Some(tenant)) is Err
            ==> refusal(grpc_outcome(table, key)->Ok_0, needed, Some(tenant)) == Some(
            http_outcome(table, key, needed, Some(tenant))->Err_0,
        ),
{
}

/// A readable `x-api-key` is the key of a request, whatever else the request
/// carries; without one, the key is what follows `Bearer ` in `authorization`.
pub proof fn law_the_key_header_goes_first(headers: Map<Seq<char>, Seq<u8>>, token: Seq<char>)
    ensures
        header_named(headers, "x-api-key"@) is Some ==> http_key_of(headers) == header_named(
            headers,
            "x-api-key"@,
        ),
        header_named(headers, "x-api-key"@) is None && header_named(headers, "authorization"@)
            == Some("Bearer "@ + token) ==> http_key_of(headers) == Some(token),
{
    reveal_strlit("Bearer ");
    let value = "Bearer "@ + token;
    assert(value.subrange(0, 7) =~= "Bearer "@);
    assert(value.skip(7) =~= token);
}

/// Whether a text is made of printable ASCII characters and tabs.
pub open spec fn printable(s: Seq<char>) -> bool {
    forall|i: int| 0 <= i < s.len() ==> ' ' <= #[trigger] s[i] <= '~' || s[i] == '\t'
}

/// The bytes of a text of ASCII characters.
pub open spec fn ascii_bytes(s: Seq<char>) -> Seq<u8> {
    s.map_values(|c: char| c as u8)
}

/// Every printable text is read back from its bytes, and bytes that are not those
/// of a printable text are not read.
pub proof fn law_printable_text_is_read_back(s: Seq<char>, bytes: Seq<u8>)
    ensures
        printable(s) ==> header_text(ascii_bytes(s)) == Some(s),
        header_text(bytes) matches Some(read) ==> printable(read) && ascii_bytes(read) == bytes,
        header_text(bytes) is None <==> exists|i: int|
            0 <= i < bytes.len() && (#[trigger] bytes[i] < 32 && bytes[i] != 9 || bytes[i] >= 127),
{
    if printable(s) {
        let all = ascii_bytes(s);
        assert forall|i: int| 0 <= i < all.len() implies visible(#[trigger] all[i]) && all[i] as char
            == s[i] by {
            assert(' ' <= s[i] <= '~' || s[i] == '\t');
        }
        assert(all.map_values(|b: u8| b as char) =~= s);
    }
    if let Some(read) = header_text(bytes) {
        assert forall|i: int| 0 <= i < read.len() implies ' ' <= #[trigger] read[i] <= '~' || read[i]
            == '\t' by {
            assert(visible(bytes[i]));
        }
        assert forall|i: int| 0 <= i < read.len() implies #[trigger] read[i] as u8 == bytes[i] by {
            assert(visible(bytes[i]));
        }
        assert(ascii_bytes(read) =~= bytes);
    } else {
        let i = choose|i: int| 0 <= i < bytes.len() && !visible(#[trigger] bytes[i]);
        assert(bytes[i] < 32 && bytes[i] != 9 || bytes[i] >= 127);
    }
}

/// A key of printable characters that a request carries in `x-api-key`, or behind
/// `Bearer ` in `authorization`, is the key that the request presents.
pub proof fn law_a_printable_key_can_be_presented(
    headers: Map<Seq<char>, Seq<u8>>,
    metadata: Map<Seq<char>, Seq<Seq<u8>>>,
    key: Seq<char>,
)
    requires
        printable(key),
    ensures
        headers.contains_key("x-api-key"@) && headers["x-api-key"@] == ascii_bytes(key)
            ==> http_key_of(headers) == Some(key),
        !headers.contains_key("x-api-key"@) && headers.contains_key("authorization"@)
            && headers["authorization"@] == ascii_bytes("Bearer "@ + key) ==> http_key_of(headers)
            == Some(key),
        metadata.contains_key("x-api-key"@) && metadata["x-api-key"@].len() > 0
            && metadata["x-api-key"@][0] == ascii_bytes(key) ==> metadata_named(
            metadata,
            "x-api-key"@,
        ) == Some(key),
{
    reveal_strlit("Bearer ");
    let value = "Bearer "@ + key;
    assert forall|i: int| 0 <= i < value.len() implies ' ' <= #[trigger] value[i] <= '~' || value[i]
        == '\t' by {
        if i >= 7 {
            assert(value[i] == key[i - 7]);
        }
    }
    law_printable_text_is_read_back(key, ascii_bytes(key));
    law_printable_text_is_read_back(value, ascii_bytes(value));
    law_the_key_header_goes_first(headers, key);
}

/// The characters of the keys that the engine makes are printable.
proof fn lemma_made_keys_are_printable(bytes: Seq<u8>)
    ensures
        printable(keyfile::key_text(bytes)),
{
    reveal_strlit("nyl_");
    let key = keyfile::key_text(bytes);
    assert forall|i: int| 0 <= i < key.len() implies ' ' <= #[trigger] key[i] <= '~' by {
        if i >= 4 {
            let k = i - 4;
            assert(key[i] == keyfile::hex_text(bytes)[k]);
            let d = if k % 2 == 0 {
                bytes[k / 2] as int / 16
            } else {
                bytes[k / 2] as int % 16
            };
            assert(0 <= d < 16);
            assert(key[i] == text::digit_char(d));
        }
    }
}

/// Every key that the engine makes can be presented over HTTP, in either header,
/// and over gRPC.
pub proof fn law_every_made_key_can_be_presented(
    bytes: Seq<u8>,
    headers: Map<Seq<char>, Seq<u8>>,
    metadata: Map<Seq<char>, Seq<Seq<u8>>>,
)
    ensures
        ({
            let key = keyfile::key_text(bytes);
            &&& headers.contains_key("x-api-key"@) && headers["x-api-key"@] == ascii_bytes(key)
                ==> http_key_of(headers) == Some(key)
            &&& !headers.contains_key("x-api-key"@) && headers.contains_key("authorization"@)
                && headers["authorization"@] == ascii_bytes("Bearer "@ + key) ==> http_key_of(
                headers,
            ) == Some(key)
            &&& metadata.contains_key("x-api-key"@) && metadata["x-api-key"@].len() > 0
                && metadata["x-api-key"@][0] == ascii_bytes(key) ==> metadata_named(
                metadata,
                "x-api-key"@,
            ) == Some(key)
        }),
{
    lemma_made_keys_are_printable(bytes);
    law_a_printable_key_can_be_presented(headers, metadata, keyfile::key_text(bytes));
}

/// A request that carries neither a readable `x-api-key` nor a readable
/// `authorization` that starts with `Bearer ` presents no key; and a key that is
/// presented is printable.
pub proof fn law_a_presented_key_stands_in_a_header(headers: Map<Seq<char>, Seq<u8>>)
    ensures
        http_key_of(headers) matches Some(key) ==> printable(key) && (headers.contains_key(
            "x-api-key"@,
        ) && headers["x-api-key"@] == ascii_bytes(key) || headers.contains_key("authorization"@)
            && headers["authorization"@] == ascii_bytes("Bearer "@ + key)),
{
    reveal_strlit("Bearer ");
    if headers.contains_key("x-api-key"@) {
        law_printable_text_is_read_back(Seq::empty(), headers["x-api-key"@]);
    }
    if headers.contains_key("authorization"@) {
        law_printable_text_is_read_back(Seq::empty(), headers["authorization"@]);
        if let Some(value) = header_text(headers["authorization"@]) {
            if "Bearer "@.is_prefix_of(value) {
                let key = value.skip(7);
                assert(value =~= "Bearer "@ + key) by {
                    assert(value =~= value.subrange(0, 7) + key);
                }
                assert forall|i: int| 0 <= i < key.len() implies ' ' <= #[trigger] key[i] <= '~'
                    || key[i] == '\t' by {
                    assert(key[i] == value[i + 7]);
                }
            }
        }
    }
}

/// What follows `Bearer ` is the token; a value that does not start so has none.
pub proof fn law_a_token_follows_its_scheme(value: Seq<char>, token: Seq<char>)
    ensures
        bearer_token(value) == Some(token) <==> value == "Bearer "@ + token,
{
    reveal_strlit("Bearer ");
    if value == "Bearer "@ + token {
        assert(value.subrange(0, 7) =~= "Bearer "@);
        assert(value.skip(7) =~= token);
    }
    if bearer_token(value) == Some(token) {
        assert(value =~= value.subrange(0, 7) + value.skip(7));
    }
}

/// A grant permits an operation exactly if its level is one that includes the
/// needed one and it is for the tenant, or for all, or no tenant is named; and a
/// refusal says which of the two fails, the level first.
pub proof fn law_a_grant_permits_by_level_and_tenant(
    grant: GrantView,
    needed: Scope,
    tenant: Option<Seq<char>>,
)
    ensures
        ({
            let enough = match needed {
                Scope::Read => true,
                Scope::Write => grant.scope != Scope::Read,
                Scope::Admin => grant.scope == Scope::Admin,
            };
            let covered = match tenant {
                Some(t) => grant.tenant == "*"@ || grant.tenant == t,
                None => true,
            };
            &&& refusal(grant, needed, tenant) is None <==> enough && covered
            &&& refusal(grant, needed, tenant) matches Some(status) ==> status.code
                == Code::PermissionDenied
            &&& !enough ==> refusal(grant, needed, tenant)->0.message == "key 档位 "@
                + scope::scope_name(grant.scope) + " 不足：该操作需要 "@ + scope::scope_name(needed)
            &&& enough && !covered ==> refusal(grant, needed, tenant)->0.message
                == "key 绑定租户为 "@ + grant.tenant + "，无权访问 tenant="@ + tenant->0
        }),
{
}

/// What a request comes to: with no key or one that the table does not hold, it
/// is told so; with a key of the table it gets what the table grants that key,
/// over HTTP if the grant permits the operation.
pub proof fn law_a_known_key_gets_its_grant(
    table: Map<Seq<char>, GrantView>,
    key: Seq<char>,
    needed: Scope,
    tenant: Option<Seq<char>>,
)
    ensures
        table.contains_key(key) ==> grpc_outcome(table, Some(key)) == Ok::<GrantView, StatusView>(
            table[key],
        ),
        table.contains_key(key) && refusal(table[key], needed, tenant) is None ==> http_outcome(
            table,
            Some(key),
            needed,
            tenant,
        ) == Ok::<GrantView, StatusView>(table[key]),
        table.contains_key(key) && refusal(table[key], needed, tenant) is Some ==> http_outcome(
            table,
            Some(key),
            needed,
            tenant,
        ) == Err::<GrantView, StatusView>(refusal(table[key], needed, tenant)->0),
        !table.contains_key(key) ==> http_outcome(table, Some(key), needed, tenant) == Err::<
            GrantView,
            StatusView,
        >(StatusView { code: Code::Unauthenticated, message: "API key 无效"@ }),
        !table.contains_key(key) ==> grpc_outcome(table, Some(key)) == Err::<
            GrantView,
            StatusView,
        >(StatusView { code: Code::Unauthenticated, message: "x-api-key 无效"@ }),
        http_outcome(table, None, needed, tenant) == Err::<GrantView, StatusView>(
            StatusView {
                code: Code::Unauthenticated,
                message: "缺少 API key（x-api-key 头或 Bearer）"@,
            },
        ),
        grpc_outcome(table, None) == Err::<GrantView, StatusView>(
            StatusView {
                code: Code::Unauthenticated,
                message: "缺少 x-api-key（引擎已启用 API key 鉴权）"@,
            },
        ),
{
}

} // verus!
