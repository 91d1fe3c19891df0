//! Capability-oriented S3 data-plane service.
//!
//! One instance is bound at launch to a single endpoint, bucket, key prefix,
//! credential identity, and rights mask. Applications receive the service
//! capability, not the credentials. This module decides: which profiles are
//! acceptable, what a request line looks like, which client may use which
//! operation, and what every outcome is answered. Sockets, TLS, signatures and
//! the clock are the caller's; their results come in as plain values.
use vstd::prelude::*;

use crate::ids;
use crate::text;
use crate::wire;

verus! {

/// Live GET and PUT operations of one instance, together.
pub const MAX_OPERATIONS: usize = 8;

/// An idle operation is dropped after this many seconds.
pub const OPERATION_LEASE_SECONDS: u64 = 300;

/// How often a response head may be continued before it is given up.
pub const MAX_HEAD_READS: usize = 16;

/// The numbers that the service protocol assigns.
#[derive(Clone, Copy, Debug, Eq, PartialEq)]
pub struct ProtocolNumbers {
    pub right_get: u64,
    pub right_put: u64,
    pub right_delete: u64,
    pub right_list: u64,
    pub flag_range: u16,
    pub flag_if_none_match: u16,
    /// The most body bytes in one message.
    pub max_chunk_len: usize,
}

/// Why a request is refused.
#[derive(Clone, Copy, Debug, PartialEq, Eq, Structural)]
pub enum S3Error {
    NotFound,
    Precondition,
    Remote,
    Denied,
    Invalid,
    Busy,
    Unsynchronized,
    Transport,
    Protocol,
    BadOpcode,
}

/// A launch-bound endpoint, bucket, credential and rights mask.
pub struct Profile {
    pub ip: [u8; 4],
    pub host: Vec<u8>,
    pub port: u16,
    pub tls: bool,
    pub ca_der: Vec<u8>,
    pub region: Vec<u8>,
    pub bucket: Vec<u8>,
    pub prefix: Vec<u8>,
    pub access_key: Vec<u8>,
    pub secret_key: Vec<u8>,
    pub namespace: Option<Vec<u8>>,
    pub rights: u64,
}

/// What a profile says.
#[verifier::ext_equal]
pub struct ProfileView {
    pub ip: [u8; 4],
    pub host: Seq<u8>,
    pub port: u16,
    pub tls: bool,
    pub ca_der: Seq<u8>,
    pub region: Seq<u8>,
    pub bucket: Seq<u8>,
    pub prefix: Seq<u8>,
    pub access_key: Seq<u8>,
    pub secret_key: Seq<u8>,
    pub namespace: Option<Seq<u8>>,
    pub rights: u64,
}

/// The view of an optional byte string.
pub open spec fn optional_bytes(value: Option<Vec<u8>>) -> Option<Seq<u8>> {
    match value {
        Some(bytes) => Some(bytes@),
        None => None,
    }
}

impl View for Profile {
    type V = ProfileView;

    open spec fn view(&self) -> ProfileView {
        ProfileView {
            ip: self.ip,
            host: self.host@,
            port: self.port,
            tls: self.tls,
            ca_der: self.ca_der@,
            region: self.region@,
            bucket: self.bucket@,
            prefix: self.prefix@,
            access_key: self.access_key@,
            secret_key: self.secret_key@,
            namespace: optional_bytes(self.namespace),
            rights: self.rights,
        }
    }
}

/// A bucket name of printable characters other than space and slash.
pub open spec fn bucket_name(bucket: Seq<u8>) -> bool {
    &&& bucket.len() > 0
    &&& forall|i: int|
        0 <= i < bucket.len() ==> 32 < #[trigger] bucket[i] < 0x7f && bucket[i] != 47
}

/// A region name of letters, digits and hyphens.
pub open spec fn region_name(region: Seq<u8>) -> bool {
    &&& region.len() > 0
    &&& forall|i: int|
        0 <= i < region.len() ==> text::alphanumeric(#[trigger] region[i]) || region[i] == 45
}

/// A profile that may be served.
pub open spec fn profile_ok(profile: ProfileView, numbers: ProtocolNumbers) -> bool {
    &&& profile.port != 0
    &&& text::host_name(profile.host)
    &&& bucket_name(profile.bucket)
    &&& text::header_value(profile.access_key)
    &&& profile.secret_key.len() > 0
    &&& region_name(profile.region)
    &&& profile.namespace matches Some(value) ==> text::header_value(value)
    &&& profile.rights & !(numbers.right_get | numbers.right_put | numbers.right_delete
        | numbers.right_list) == 0
    &&& profile.rights != 0
    &&& !(profile.prefix.len() > 0 && profile.prefix[0] == 47)
    &&& !text::dotted_path(profile.prefix)
    &&& profile.tls ==> profile.ca_der.len() > 0
}

/// Whether a bucket name is acceptable.
fn valid_bucket(bucket: &[u8]) -> (ok: bool)
    ensures
        ok == bucket_name(bucket@),
{
    if bucket.len() == 0 {
        return false;
    }
    let mut index: usize = 0;
    while index < bucket.len()
        invariant
            index <= bucket@.len(),
            forall|i: int|
                0 <= i < index ==> 32 < #[trigger] bucket@[i] < 0x7f && bucket@[i] != 47,
        decreases bucket@.len() - index,
    {
        let byte: u8 = bucket[index];
        if byte <= 32 || byte >= 0x7f || byte == 47 {
            return false;
        }
        index = index + 1;
    }
    true
}

/// Whether a region name is acceptable.
fn valid_region(region: &[u8]) -> (ok: bool)
    ensures
        ok == region_name(region@),
{
    if region.len() == 0 {
        return false;
    }
    let mut index: usize = 0;
    while index < region.len()
        invariant
            index <= region@.len(),
            forall|i: int|
                0 <= i < index ==> text::alphanumeric(#[trigger] region@[i]) || region@[i] == 45,
        decreases region@.len() - index,
    {
        if !text::is_alphanumeric(region[index]) && region[index] != 45 {
            return false;
        }
        index = index + 1;
    }
    true
}

/// Overwrite a secret with zeros and leave it empty.
///
/// `zeroize::Zeroize::zeroize` on a byte vector writes zeros over every byte
/// and the spare capacity, and then clears the vector. The overwritten memory
/// is not visible in the contract; that the vector is empty is.
#[verifier::external_body]
fn wipe(secret: &mut Vec<u8>)
    ensures
        final(secret)@ == Seq::<u8>::empty(),
{
    zeroize::Zeroize::zeroize(secret)
}

/// A value of the launch manifest.
pub enum ManifestValue {
    Bytes(Vec<u8>),
    Unsigned(u64),
    Other,
}

/// The launch manifest entries of this service.
pub struct Manifest {
    pub ip: Option<ManifestValue>,
    pub host: Option<ManifestValue>,
    pub bucket: Option<ManifestValue>,
    pub access_key: Option<ManifestValue>,
    pub secret_key: Option<ManifestValue>,
    pub region: Option<ManifestValue>,
    pub prefix: Option<ManifestValue>,
    pub namespace: Option<ManifestValue>,
    pub tls: Option<ManifestValue>,
    pub ca_der: Option<ManifestValue>,
    pub port: Option<ManifestValue>,
    pub rights: Option<ManifestValue>,
}

/// The bytes of a manifest entry.
pub open spec fn entry_bytes(entry: Option<ManifestValue>) -> Option<Seq<u8>> {
    match entry {
        Some(ManifestValue::Bytes(bytes)) => Some(bytes@),
        _ => None,
    }
}

/// The text of a manifest entry.
pub open spec fn entry_text(entry: Option<ManifestValue>) -> Option<Seq<u8>> {
    match entry_bytes(entry) {
        Some(bytes) if vstd::utf8::valid_utf8(bytes) => Some(bytes),
        _ => None,
    }
}

fn take_bytes(entry: Option<ManifestValue>) -> (bytes: Option<Vec<u8>>)
    ensures
        optional_bytes(bytes) == entry_bytes(entry),
{
    match entry {
        Some(ManifestValue::Bytes(bytes)) => Some(bytes),
        _ => None,
    }
}

fn take_text(entry: Option<ManifestValue>) -> (text: Option<Vec<u8>>)
    ensures
        optional_bytes(text) == entry_text(entry),
{
    match take_bytes(entry) {
        Some(bytes) => {
            if text::is_utf8(bytes.as_slice()) {
                Some(bytes)
            } else {
                None
            }
        },
        None => None,
    }
}

/// The region of a manifest that names none: "us-east-1".
pub const DEFAULT_REGION: [u8; 9] = [0x75, 0x73, 0x2d, 0x65, 0x61, 0x73, 0x74, 0x2d, 0x31];

/// Whether a manifest asks for TLS.
pub open spec fn manifest_tls(manifest: Manifest) -> bool {
    match manifest.tls {
        Some(ManifestValue::Unsigned(value)) => value == 1,
        Some(ManifestValue::Bytes(bytes)) => bytes@ == seq![49u8],
        _ => false,
    }
}

/// The port of a manifest: given, or the default of the transport.
pub open spec fn manifest_port(manifest: Manifest) -> Option<u16> {
    match manifest.port {
        Some(ManifestValue::Unsigned(port)) => if port <= u16::MAX {
            Some(port as u16)
        } else {
            None
        },
        _ => if manifest_tls(manifest) {
            Some(443u16)
        } else {
            Some(80u16)
        },
    }
}

/// The profile that a manifest describes, where every required entry is there.
pub open spec fn manifest_profile(manifest: Manifest) -> Option<ProfileView> {
    let ip = entry_bytes(manifest.ip);
    let host = entry_text(manifest.host);
    let bucket = entry_text(manifest.bucket);
    let access_key = entry_text(manifest.access_key);
    let secret_key = entry_bytes(manifest.secret_key);
    let port = manifest_port(manifest);
    let region = entry_text(manifest.region);
    let prefix = entry_text(manifest.prefix);
    let ca_der = entry_bytes(manifest.ca_der);
    if ip is Some && ip->0.len() == 4 && host is Some && bucket is Some && access_key is Some
        && secret_key is Some && port is Some && manifest.rights matches Some(
        ManifestValue::Unsigned(_),
    ) {
        Some(
            ProfileView {
                ip: [ip->0[0], ip->0[1], ip->0[2], ip->0[3]],
                host: host->0,
                port: port->0,
                tls: manifest_tls(manifest),
                ca_der: if ca_der is Some {
                    ca_der->0
                } else {
                    Seq::empty()
                },
                region: if region is Some {
                    region->0
                } else {
                    DEFAULT_REGION@
                },
                bucket: bucket->0,
                prefix: if prefix is Some {
                    prefix->0
                } else {
                    Seq::empty()
                },
                access_key: access_key->0,
                secret_key: secret_key->0,
                namespace: entry_text(manifest.namespace),
                rights: manifest.rights->0->Unsigned_0,
            },
        )
    } else {
        None
    }
}

/// The fields of a decoded profile image, before they are checked.
pub struct RawProfile {
    pub endpoint_ipv4: [u8; 4],
    pub host: Vec<u8>,
    pub port: u16,
    pub tls: bool,
    pub ca_certificate_der: Vec<u8>,
    pub region: Vec<u8>,
    pub bucket: Vec<u8>,
    pub prefix: Vec<u8>,
    pub access_key: Vec<u8>,
    pub secret_key: Vec<u8>,
    /// Empty for no namespace.
    pub namespace: Vec<u8>,
    pub rights: u64,
}

/// The profile that an image describes.
pub open spec fn raw_profile(raw: RawProfile) -> ProfileView {
    ProfileView {
        ip: raw.endpoint_ipv4,
        host: raw.host@,
        port: raw.port,
        tls: raw.tls,
        ca_der: raw.ca_certificate_der@,
        region: raw.region@,
        bucket: raw.bucket@,
        prefix: raw.prefix@,
        access_key: raw.access_key@,
        secret_key: raw.secret_key@,
        namespace: if raw.namespace@.len() == 0 {
            None
        } else {
            Some(raw.namespace@)
        },
        rights: raw.rights,
    }
}

/// Every text of an image is UTF-8.
pub open spec fn raw_texts_ok(raw: RawProfile) -> bool {
    &&& vstd::utf8::valid_utf8(raw.host@)
    &&& vstd::utf8::valid_utf8(raw.region@)
    &&& vstd::utf8::valid_utf8(raw.bucket@)
    &&& vstd::utf8::valid_utf8(raw.prefix@)
    &&& vstd::utf8::valid_utf8(raw.access_key@)
    &&& vstd::utf8::valid_utf8(raw.namespace@) || raw.namespace@.len() == 0
}

/// A 16-bit decimal suffix is added to the host for any other port.
pub open spec fn default_port(profile: ProfileView) -> bool {
    (profile.tls && profile.port == 443) || (!profile.tls && profile.port == 80)
}

/// The host, and the port where it is not the default one.
pub open spec fn authority_of(profile: ProfileView) -> Seq<u8> {
    if default_port(profile) {
        profile.host
    } else {
        profile.host + seq![58u8] + text::decimal(profile.port as nat)
    }
}

/// A key that cannot leave the profile's prefix.
pub open spec fn key_ok(key: Seq<u8>) -> bool {
    &&& vstd::utf8::valid_utf8(key)
    &&& !(key.len() > 0 && key[0] == 47)
    &&& !key.contains(0u8)
    &&& !text::dotted_path(key)
}

/// The absolute path of an object: bucket, prefix, key.
pub open spec fn path_of(profile: ProfileView, key: Seq<u8>) -> Seq<u8> {
    let bucket = seq![47u8] + profile.bucket + seq![47u8];
    if profile.prefix.len() == 0 {
        bucket + key
    } else {
        bucket + text::trimmed(profile.prefix) + seq![47u8] + key
    }
}

impl Profile {
    /// Wipe the secret of a profile that is no longer served.
    pub fn forget_secret(&mut self)
        ensures
            final(self)@ == (ProfileView { secret_key: Seq::empty(), ..old(self)@ }),
    {
        wipe(&mut self.secret_key);
    }

    /// Accept a profile that may be served. The secret of a refused one is
    /// wiped.
    pub fn validate(profile: Profile, numbers: &ProtocolNumbers) -> (accepted: Option<Profile>)
        ensures
            match accepted {
                Some(served) => profile_ok(profile@, *numbers) && served == profile,
                None => !profile_ok(profile@, *numbers),
            },
    {
        let namespace_ok: bool = match &profile.namespace {
            Some(value) => text::valid_header_value(value.as_slice()),
            None => true,
        };
        let known: u64 = numbers.right_get | numbers.right_put | numbers.right_delete
            | numbers.right_list;
        if profile.port == 0 || !text::valid_host(profile.host.as_slice()) || !valid_bucket(
            profile.bucket.as_slice(),
        ) || !text::valid_header_value(profile.access_key.as_slice()) || profile.secret_key.len()
            == 0 || !valid_region(profile.region.as_slice()) || !namespace_ok || profile.rights
            & !known != 0 || profile.rights == 0 || (profile.prefix.len() > 0 && profile.prefix[0]
            == 47) || text::unsafe_path_segments(profile.prefix.as_slice()) || (profile.tls
            && profile.ca_der.len() == 0) {
            let mut refused: Profile = profile;
            refused.forget_secret();
            return None;
        }
        Some(profile)
    }

    /// Build a profile from a decoded image.
    pub fn from_wire(raw: RawProfile, numbers: &ProtocolNumbers) -> (accepted: Option<Profile>)
        ensures
            accepted is Some <==> raw_texts_ok(raw) && profile_ok(raw_profile(raw), *numbers),
            accepted matches Some(served) ==> served@ == raw_profile(raw),
    {
        if !text::is_utf8(raw.host.as_slice()) || !text::is_utf8(raw.region.as_slice())
            || !text::is_utf8(raw.bucket.as_slice()) || !text::is_utf8(raw.prefix.as_slice())
            || !text::is_utf8(raw.access_key.as_slice()) {
            return None;
        }
        if raw.namespace.len() != 0 && !text::is_utf8(raw.namespace.as_slice()) {
            let mut secret: Vec<u8> = raw.secret_key;
            wipe(&mut secret);
            return None;
        }
        let namespace: Option<Vec<u8>> = if raw.namespace.len() == 0 {
            None
        } else {
            Some(raw.namespace)
        };
        Self::validate(
            Profile {
                ip: raw.endpoint_ipv4,
                host: raw.host,
                port: raw.port,
                tls: raw.tls,
                ca_der: raw.ca_certificate_der,
                region: raw.region,
                bucket: raw.bucket,
                prefix: raw.prefix,
                access_key: raw.access_key,
                secret_key: raw.secret_key,
                namespace,
                rights: raw.rights,
            },
            numbers,
        )
    }

    /// Build a profile from launch manifest entries.
    pub fn from_manifest(
        manifest: Manifest,
        numbers: &ProtocolNumbers,
    ) -> (accepted: Option<Profile>)
        ensures
            match manifest_profile(manifest) {
                Some(described) => {
                    &&& accepted is Some <==> profile_ok(described, *numbers)
                    &&& accepted matches Some(served) ==> served@ == described
                },
                None => accepted is None,
            },
    {
        let tls: bool = match &manifest.tls {
            Some(ManifestValue::Unsigned(value)) => *value == 1,
            Some(ManifestValue::Bytes(bytes)) => wire::bytes_equal(bytes.as_slice(), &[49u8]),
            _ => false,
        };
        assert([49u8]@ =~= seq![49u8]);
        let port: u16 = match &manifest.port {
            Some(ManifestValue::Unsigned(port)) => {
                if *port > 65535 {
                    return None;
                }
                *port as u16
            },
            _ => if tls {
                443
            } else {
                80
            },
        };
        let rights: u64 = match &manifest.rights {
            Some(ManifestValue::Unsigned(rights)) => *rights,
            _ => {
                return None;
            },
        };
        let ip: Vec<u8> = match take_bytes(manifest.ip) {
            Some(ip) => ip,
            None => {
                return None;
            },
        };
        if ip.len() != 4 {
            return None;
        }
        let host: Vec<u8> = match take_text(manifest.host) {
            Some(host) => host,
            None => {
                return None;
            },
        };
        let bucket: Vec<u8> = match take_text(manifest.bucket) {
            Some(bucket) => bucket,
            None => {
                return None;
            },
        };
        let access_key: Vec<u8> = match take_text(manifest.access_key) {
            Some(access_key) => access_key,
            None => {
                return None;
            },
        };
        let secret_key: Vec<u8> = match take_bytes(manifest.secret_key) {
            Some(secret_key) => secret_key,
            None => {
                return None;
            },
        };
        let region: Vec<u8> = match take_text(manifest.region) {
            Some(region) => region,
            None => wire::copy_range(&DEFAULT_REGION, 0, 9),
        };
        let prefix: Vec<u8> = match take_text(manifest.prefix) {
            Some(prefix) => prefix,
            None => Vec::new(),
        };
        let ca_der: Vec<u8> = match take_bytes(manifest.ca_der) {
            Some(ca_der) => ca_der,
            None => Vec::new(),
        };
        let namespace: Option<Vec<u8>> = take_text(manifest.namespace);
        let profile: Profile = Profile {
            ip: [ip[0], ip[1], ip[2], ip[3]],
            host,
            port,
            tls,
            ca_der,
            region,
            bucket,
            prefix,
            access_key,
            secret_key,
            namespace,
            rights,
        };
        proof {
            let described = manifest_profile(manifest)->0;
            assert(DEFAULT_REGION@.subrange(0, 9) =~= DEFAULT_REGION@);
            assert(profile@.ip =~= described.ip);
            assert(profile@ =~= described);
        }
        Self::validate(profile, numbers)
    }

    /// Whether the rights mask holds `right`.
    pub fn has(&self, right: u64) -> (held: bool)
        ensures
            held == (self@.rights & right != 0),
    {
        self.rights & right != 0
    }

    /// The absolute path of an object, unless its key is unsafe.
    pub fn object_path(&self, key: &[u8]) -> (path: Option<Vec<u8>>)
        ensures
            path is Some <==> key_ok(key@),
            path matches Some(bytes) ==> bytes@ == path_of(self@, key@),
    {
        if !text::is_utf8(key) || (key.len() > 0 && key[0] == 47) || text::contains_byte(key, 0)
            || text::unsafe_path_segments(key) {
            return None;
        }
        let mut path: Vec<u8> = Vec::new();
        path.push(47);
        wire::push_all(&mut path, self.bucket.as_slice());
        path.push(47);
        assert(path@ =~= seq![47u8] + self@.bucket + seq![47u8]);
        if self.prefix.len() > 0 {
            let len: usize = text::trimmed_len(self.prefix.as_slice());
            wire::push_range(&mut path, self.prefix.as_slice(), 0, len);
            path.push(47);
        }
        wire::push_all(&mut path, key);
        assert(path@ =~= path_of(self@, key@));
        Some(path)
    }

    /// The authority of the endpoint, as the `Host` header names it.
    pub fn authority(&self) -> (authority: Vec<u8>)
        ensures
            authority@ == authority_of(self@),
    {
        let mut authority: Vec<u8> = Vec::new();
        wire::push_all(&mut authority, self.host.as_slice());
        if !((self.tls && self.port == 443) || (!self.tls && self.port == 80)) {
            authority.push(58);
            text::push_decimal(&mut authority, self.port as u64);
        }
        assert(authority@ =~= authority_of(self@));
        authority
    }
}

/// A request for one object.
pub struct ObjectRequest {
    pub flags: u16,
    pub content_length: u64,
    pub range_start: u64,
    /// The end of the range, exclusive. Zero for an open range.
    pub range_end: u64,
    pub payload_sha256: [u8; 32],
    pub key: Vec<u8>,
}

/// The HTTP method of a request.
#[derive(Clone, Copy, Debug, PartialEq, Eq, Structural)]
pub enum Method {
    Get,
    Put,
    Head,
    Delete,
}

/// The name of a method.
pub open spec fn method_name(method: Method) -> Seq<u8> {
    match method {
        Method::Get => text::utf8("GET"),
        Method::Put => text::utf8("PUT"),
        Method::Head => text::utf8("HEAD"),
        Method::Delete => text::utf8("DELETE"),
    }
}

fn push_method(out: &mut Vec<u8>, method: Method)
    ensures
        final(out)@ == old(out)@ + method_name(method),
{
    match method {
        Method::Get => text::push_text(out, "GET"),
        Method::Put => text::push_text(out, "PUT"),
        Method::Head => text::push_text(out, "HEAD"),
        Method::Delete => text::push_text(out, "DELETE"),
    }
}

/// The SHA-256 digest of no bytes, in hexadecimal digits.
pub open spec fn empty_payload_hash() -> Seq<u8> {
    text::utf8("e3b0c44298fc1c149afbf4c8996fb92427ae41e4649b934ca495991b7852b855")
}

/// The payload hash header: of the body for a PUT, of nothing otherwise.
pub open spec fn payload_hash_of(request: ObjectRequest, method: Method) -> Seq<u8> {
    if method == Method::Put {
        text::hex_of(request.payload_sha256@)
    } else {
        empty_payload_hash()
    }
}

/// The range header, where the request asks for a range.
pub open spec fn range_of(request: ObjectRequest, numbers: ProtocolNumbers) -> Option<Seq<u8>> {
    let open_range = text::utf8("bytes=") + text::decimal(request.range_start as nat) + seq![45u8];
    if request.flags & numbers.flag_range == 0 {
        None
    } else if request.range_end == 0 {
        Some(open_range)
    } else {
        Some(open_range + text::decimal((request.range_end - 1) as nat))
    }
}

/// The request may only create the object.
pub open spec fn only_if_absent(request: ObjectRequest, numbers: ProtocolNumbers) -> bool {
    request.flags & numbers.flag_if_none_match != 0
}

/// A header to be signed.
pub struct SignedHeader {
    pub name: Vec<u8>,
    pub value: Vec<u8>,
}

impl View for SignedHeader {
    type V = (Seq<u8>, Seq<u8>);

    open spec fn view(&self) -> (Seq<u8>, Seq<u8>) {
        (self.name@, self.value@)
    }
}

/// Where the headers of a request come from.
pub open spec fn signed_headers(
    profile: ProfileView,
    request: ObjectRequest,
    method: Method,
    amz_date: Seq<u8>,
    numbers: ProtocolNumbers,
) -> Seq<(Seq<u8>, Seq<u8>)> {
    let base = seq![
        (text::utf8("host"), authority_of(profile)),
        (text::utf8("x-amz-content-sha256"), payload_hash_of(request, method)),
        (text::utf8("x-amz-date"), amz_date),
    ];
    let named = match profile.namespace {
        Some(namespace) => base.push((text::utf8("x-emc-namespace"), namespace)),
        None => base,
    };
    let ranged = match range_of(request, numbers) {
        Some(range) => named.push((text::utf8("range"), range)),
        None => named,
    };
    if only_if_absent(request, numbers) {
        ranged.push((text::utf8("if-none-match"), text::utf8("*")))
    } else {
        ranged
    }
}

/// What is handed to the signature: path, payload hash and headers.
pub struct SigningInput {
    pub path: Vec<u8>,
    pub payload_hash: Vec<u8>,
    pub authority: Vec<u8>,
    pub range: Option<Vec<u8>>,
    pub headers: Vec<SignedHeader>,
}

/// The headers as pairs.
pub open spec fn header_pairs(headers: Seq<SignedHeader>) -> Seq<(Seq<u8>, Seq<u8>)> {
    headers.map_values(|header: SignedHeader| header@)
}

fn push_header(headers: &mut Vec<SignedHeader>, name: &str, value: &[u8])
    ensures
        header_pairs(final(headers)@) == header_pairs(old(headers)@).push(
            (text::utf8(name), value@),
        ),
{
    let ghost before = header_pairs(headers@);
    let mut name_bytes: Vec<u8> = Vec::new();
    text::push_text(&mut name_bytes, name);
    let mut value_bytes: Vec<u8> = Vec::new();
    wire::push_all(&mut value_bytes, value);
    assert(name_bytes@ =~= text::utf8(name));
    assert(value_bytes@ =~= value@);
    headers.push(SignedHeader { name: name_bytes, value: value_bytes });
    assert(header_pairs(headers@) =~= before.push((text::utf8(name), value@)));
}

/// The range header value of a request.
fn range_value(request: &ObjectRequest, numbers: &ProtocolNumbers) -> (range: Option<Vec<u8>>)
    ensures
        optional_bytes(range) == range_of(*request, *numbers),
{
    if request.flags & numbers.flag_range == 0 {
        return None;
    }
    let mut range: Vec<u8> = Vec::new();
    text::push_text(&mut range, "bytes=");
    text::push_decimal(&mut range, request.range_start);
    range.push(45);
    if request.range_end != 0 {
        text::push_decimal(&mut range, request.range_end - 1);
    }
    proof {
        let open_range = text::utf8("bytes=") + text::decimal(request.range_start as nat)
            + seq![45u8];
        if request.range_end == 0 {
            assert(range@ =~= open_range);
        } else {
            assert(range@ =~= open_range + text::decimal((request.range_end - 1) as nat));
        }
    }
    Some(range)
}

/// Collect what the signature of a request covers. A request for an unsafe key
/// is refused.
pub fn signing_input(
    profile: &Profile,
    request: &ObjectRequest,
    method: Method,
    amz_date: &[u8],
    numbers: &ProtocolNumbers,
) -> (input: Option<SigningInput>)
    ensures
        input is Some <==> key_ok(request.key@),
        input matches Some(made) ==> {
            &&& made.path@ == path_of(profile@, request.key@)
            &&& made.payload_hash@ == payload_hash_of(*request, method)
            &&& made.authority@ == authority_of(profile@)
            &&& optional_bytes(made.range) == range_of(*request, *numbers)
            &&& header_pairs(made.headers@) == signed_headers(
                profile@,
                *request,
                method,
                amz_date@,
                *numbers,
            )
        },
{
    let path: Vec<u8> = match profile.object_path(request.key.as_slice()) {
        Some(path) => path,
        None => {
            return None;
        },
    };
    let authority: Vec<u8> = profile.authority();
    let mut payload_hash: Vec<u8> = Vec::new();
    if method == Method::Put {
        payload_hash = text::hex_lower(&request.payload_sha256);
    } else {
        text::push_text(
            &mut payload_hash,
            "e3b0c44298fc1c149afbf4c8996fb92427ae41e4649b934ca495991b7852b855",
        );
        assert(payload_hash@ =~= empty_payload_hash());
    }
    let range: Option<Vec<u8>> = range_value(request, numbers);
    let mut headers: Vec<SignedHeader> = Vec::new();
    assert(header_pairs(headers@) =~= Seq::<(Seq<u8>, Seq<u8>)>::empty());
    push_header(&mut headers, "host", authority.as_slice());
    push_header(&mut headers, "x-amz-content-sha256", payload_hash.as_slice());
    push_header(&mut headers, "x-amz-date", amz_date);
    assert(header_pairs(headers@) =~= seq![
        (text::utf8("host"), authority_of(profile@)),
        (text::utf8("x-amz-content-sha256"), payload_hash_of(*request, method)),
        (text::utf8("x-amz-date"), amz_date@),
    ]);
    match &profile.namespace {
        Some(namespace) => push_header(&mut headers, "x-emc-namespace", namespace.as_slice()),
        None => {},
    }
    match &range {
        Some(value) => push_header(&mut headers, "range", value.as_slice()),
        None => {},
    }
    if request.flags & numbers.flag_if_none_match != 0 {
        let mut any: Vec<u8> = Vec::new();
        text::push_text(&mut any, "*");
        assert(any@ =~= text::utf8("*"));
        push_header(&mut headers, "if-none-match", any.as_slice());
    }
    Some(SigningInput { path, payload_hash, authority, range, headers })
}

/// One `name: value` line.
pub open spec fn header_line(name: &str, value: Seq<u8>) -> Seq<u8> {
    text::utf8(name) + value + text::utf8("\r\n")
}

fn push_line(out: &mut Vec<u8>, name: &str, value: &[u8])
    ensures
        final(out)@ == old(out)@ + header_line(name, value@),
{
    let ghost start = out@;
    text::push_text(out, name);
    wire::push_all(out, value);
    text::push_text(out, "\r\n");
    assert(out@ =~= start + header_line(name, value@));
}

/// The request line and the headers that every request has.
pub open spec fn head_start(
    profile: ProfileView,
    request: ObjectRequest,
    method: Method,
    encoded_path: Seq<u8>,
    amz_date: Seq<u8>,
    authorization: Seq<u8>,
) -> Seq<u8> {
    method_name(method) + seq![32u8] + encoded_path + text::utf8(" HTTP/1.1\r\n") + header_line(
        "Host: ",
        authority_of(profile),
    ) + header_line("x-amz-content-sha256: ", payload_hash_of(request, method)) + header_line(
        "x-amz-date: ",
        amz_date,
    ) + header_line("Authorization: ", authorization)
}

/// A line that stands only where there is a value.
pub open spec fn optional_line(name: &str, value: Option<Seq<u8>>) -> Seq<u8> {
    match value {
        Some(bytes) => header_line(name, bytes),
        None => Seq::empty(),
    }
}

fn push_optional_line(out: &mut Vec<u8>, name: &str, value: &Option<Vec<u8>>)
    ensures
        final(out)@ == old(out)@ + optional_line(name, optional_bytes(*value)),
{
    match value {
        Some(bytes) => push_line(out, name, bytes.as_slice()),
        None => {
            assert(out@ + Seq::<u8>::empty() =~= out@);
        },
    }
}

/// What makes a request conditional on the object's absence.
pub open spec fn absent_line(request: ObjectRequest, numbers: ProtocolNumbers) -> Seq<u8> {
    if only_if_absent(request, numbers) {
        text::utf8("If-None-Match: *\r\n")
    } else {
        Seq::empty()
    }
}

/// The length of a request's body.
pub open spec fn length_of(request: ObjectRequest, method: Method) -> Option<Seq<u8>> {
    if method == Method::Put {
        Some(text::decimal(request.content_length as nat))
    } else {
        None
    }
}

/// The headers that only some requests have, and the end of the head.
pub open spec fn head_end(
    profile: ProfileView,
    request: ObjectRequest,
    method: Method,
    numbers: ProtocolNumbers,
) -> Seq<u8> {
    optional_line("x-emc-namespace: ", profile.namespace) + optional_line(
        "Range: ",
        range_of(request, numbers),
    ) + absent_line(request, numbers) + optional_line("Content-Length: ", length_of(request, method))
        + text::utf8("Connection: close\r\n\r\n")
}

fn push_absent_line(out: &mut Vec<u8>, request: &ObjectRequest, numbers: &ProtocolNumbers)
    ensures
        final(out)@ == old(out)@ + absent_line(*request, *numbers),
{
    if request.flags & numbers.flag_if_none_match != 0 {
        text::push_text(out, "If-None-Match: *\r\n");
    } else {
        assert(out@ + Seq::<u8>::empty() =~= out@);
    }
}

/// The length of a body that is sent.
fn body_length(request: &ObjectRequest, method: Method) -> (length: Option<Vec<u8>>)
    ensures
        optional_bytes(length) == length_of(*request, method),
{
    if method == Method::Put {
        let mut length: Vec<u8> = Vec::new();
        text::push_decimal(&mut length, request.content_length);
        assert(length@ =~= text::decimal(request.content_length as nat));
        Some(length)
    } else {
        None
    }
}

/// Write the end of a request head.
#[verifier::spinoff_prover]
fn push_head_end(
    head: &mut Vec<u8>,
    profile: &Profile,
    request: &ObjectRequest,
    method: Method,
    range: &Option<Vec<u8>>,
    numbers: &ProtocolNumbers,
)
    requires
        optional_bytes(*range) == range_of(*request, *numbers),
    ensures
        final(head)@ == old(head)@ + head_end(profile@, *request, method, *numbers),
{
    let ghost start = head@;
    let length: Option<Vec<u8>> = body_length(request, method);
    push_optional_line(head, "x-emc-namespace: ", &profile.namespace);
    push_optional_line(head, "Range: ", range);
    push_absent_line(head, request, numbers);
    push_optional_line(head, "Content-Length: ", &length);
    text::push_text(head, "Connection: close\r\n\r\n");
    assert(head@ =~= start + head_end(profile@, *request, method, *numbers));
}

/// Write the head of a signed request.
///
/// `encoded_path`, `amz_date` and `authorization` are what URI encoding, the
/// date format and the signature gave for the same request.
pub fn request_head(
    profile: &Profile,
    request: &ObjectRequest,
    method: Method,
    input: &SigningInput,
    encoded_path: &[u8],
    amz_date: &[u8],
    authorization: &[u8],
    numbers: &ProtocolNumbers,
) -> (head: Vec<u8>)
    requires
        input.payload_hash@ == payload_hash_of(*request, method),
        input.authority@ == authority_of(profile@),
        optional_bytes(input.range) == range_of(*request, *numbers),
    ensures
        head@ == head_start(
            profile@,
            *request,
            method,
            encoded_path@,
            amz_date@,
            authorization@,
        ) + head_end(profile@, *request, method, *numbers),
{
    let mut head: Vec<u8> = Vec::new();
    push_method(&mut head, method);
    head.push(32);
    wire::push_all(&mut head, encoded_path);
    text::push_text(&mut head, " HTTP/1.1\r\n");
    push_line(&mut head, "Host: ", input.authority.as_slice());
    push_line(&mut head, "x-amz-content-sha256: ", input.payload_hash.as_slice());
    push_line(&mut head, "x-amz-date: ", amz_date);
    push_line(&mut head, "Authorization: ", authorization);
    let ghost start = head_start(
        profile@,
        *request,
        method,
        encoded_path@,
        amz_date@,
        authorization@,
    );
    assert(head@ =~= start);
    push_head_end(&mut head, profile, request, method, &input.range, numbers);
    head
}

/// The error that a remote status stands for.
pub open spec fn remote_error_of(status: u16) -> S3Error {
    if status == 404 {
        S3Error::NotFound
    } else if status == 409 || status == 412 {
        S3Error::Precondition
    } else {
        S3Error::Remote
    }
}

/// The error that a remote status stands for.
pub fn remote_error(status: u16) -> (error: S3Error)
    ensures
        error == remote_error_of(status),
{
    match status {
        404 => S3Error::NotFound,
        409 | 412 => S3Error::Precondition,
        _ => S3Error::Remote,
    }
}

/// A calendar time, as the clock service reports it.
#[derive(Clone, Copy, Debug, Eq, PartialEq)]
pub struct CalendarTime {
    pub year: u16,
    pub month: u8,
    pub day: u8,
    pub hour: u8,
    pub minute: u8,
    pub second: u8,
}

/// The parts of a clock snapshot that this service reads.
#[derive(Clone, Copy, Debug, Eq, PartialEq)]
pub struct ClockReading {
    pub synchronized: bool,
    pub unix_seconds: i64,
    pub utc: CalendarTime,
    pub monotonic_ticks: u64,
    pub counter_frequency_hz: u64,
}

/// The time that a clock tells, if it is synchronized and set.
pub open spec fn told_time(reading: Option<ClockReading>) -> Option<(CalendarTime, u64)> {
    match reading {
        Some(clock) => if clock.synchronized && clock.unix_seconds > 0 {
            Some((clock.utc, clock.unix_seconds as u64))
        } else {
            None
        },
        None => None,
    }
}

/// The seconds that a clock's counter has run for.
pub open spec fn run_seconds(reading: Option<ClockReading>) -> Option<u64> {
    match reading {
        Some(clock) => if clock.counter_frequency_hz > 0 {
            Some(clock.monotonic_ticks / clock.counter_frequency_hz)
        } else {
            None
        },
        None => None,
    }
}

/// The calendar and Unix time of a synchronized clock.
pub fn time_now(reading: Option<ClockReading>) -> (now: Option<(CalendarTime, u64)>)
    ensures
        now == told_time(reading),
{
    match reading {
        Some(clock) => {
            if clock.synchronized && clock.unix_seconds > 0 {
                Some((clock.utc, clock.unix_seconds as u64))
            } else {
                None
            }
        },
        None => None,
    }
}

/// Whole seconds of the monotonic counter.
pub fn monotonic_seconds(reading: Option<ClockReading>) -> (seconds: Option<u64>)
    ensures
        seconds == run_seconds(reading),
{
    match reading {
        Some(clock) => {
            if clock.counter_frequency_hz > 0 {
                Some(clock.monotonic_ticks / clock.counter_frequency_hz)
            } else {
                None
            }
        },
        None => None,
    }
}

/// What the bytes of a response head read so far turned out to be.
pub enum HeadParse {
    /// A complete head; the body starts at this offset.
    Complete(usize),
    Incomplete,
    Malformed,
}

/// How to go on reading a response head.
#[derive(Clone, Copy, Debug, PartialEq, Eq, Structural)]
pub enum HeadStep {
    Done,
    ReadMore,
    GiveUp,
}

/// What to do about a response's head after some reads.
pub open spec fn head_next(parse: HeadParse, reads: usize) -> HeadStep {
    match parse {
        HeadParse::Complete(_) => HeadStep::Done,
        HeadParse::Malformed => HeadStep::GiveUp,
        HeadParse::Incomplete => if reads < MAX_HEAD_READS {
            HeadStep::ReadMore
        } else {
            HeadStep::GiveUp
        },
    }
}

/// Decide after `reads` reads of a response head. At most [`MAX_HEAD_READS`]
/// reads are made.
pub fn head_step(parse: &HeadParse, reads: usize) -> (step: HeadStep)
    ensures
        step == head_next(*parse, reads),
{
    match parse {
        HeadParse::Complete(_) => HeadStep::Done,
        HeadParse::Malformed => HeadStep::GiveUp,
        HeadParse::Incomplete => if reads < MAX_HEAD_READS {
            HeadStep::ReadMore
        } else {
            HeadStep::GiveUp
        },
    }
}

/// A client of the service.
#[derive(Clone, Copy, Debug, PartialEq, Eq, Structural)]
pub struct ClientIdentity {
    pub domain: u64,
    pub generation: u64,
}

/// How the end of a response body is known.
#[derive(Clone, Copy, Debug, PartialEq, Eq, Structural)]
pub enum Body {
    /// This many bytes are still to be delivered.
    Length(u64),
    /// The transfer coding says when it is complete.
    Chunked { complete: bool },
}

/// What a reader gets next.
pub enum ReadStep {
    /// Body bytes.
    Chunk(Vec<u8>),
    /// The body is complete.
    End,
    /// More bytes have to be received first.
    Receive,
    /// The peer sent more than it announced.
    Overrun,
}

/// What a live GET says.
#[verifier::ext_equal]
pub struct GetView {
    pub id: u64,
    pub owner: ClientIdentity,
    pub last_activity: u64,
    pub body: Body,
    /// Received body bytes that are not delivered yet.
    pub pending: Seq<u8>,
}

/// A live GET operation.
pub struct GetOperation {
    pub id: u64,
    pub owner: ClientIdentity,
    pub last_activity: u64,
    pub body: Body,
    pub buffered: Vec<u8>,
    pub offset: usize,
}

impl View for GetOperation {
    type V = GetView;

    open spec fn view(&self) -> GetView {
        GetView {
            id: self.id,
            owner: self.owner,
            last_activity: self.last_activity,
            body: self.body,
            pending: self.buffered@.skip(self.offset as int),
        }
    }
}

/// The next chunk of `pending`.
pub open spec fn next_chunk(pending: Seq<u8>, max_chunk_len: usize) -> Seq<u8> {
    if pending.len() <= max_chunk_len {
        pending
    } else {
        pending.take(max_chunk_len as int)
    }
}

/// `after` and `step` are the outcome of reading from `before`.
pub open spec fn read_step(
    before: GetView,
    max_chunk_len: usize,
    after: GetView,
    step: ReadStep,
) -> bool {
    let chunk = next_chunk(before.pending, max_chunk_len);
    if before.pending.len() > 0 {
        &&& after.pending == before.pending.skip(chunk.len() as int)
        &&& after.id == before.id && after.owner == before.owner && after.last_activity
            == before.last_activity
        &&& match before.body {
            Body::Length(remaining) => if chunk.len() > remaining {
                step is Overrun && after.body == before.body
            } else {
                step matches ReadStep::Chunk(bytes) && bytes@ == chunk && after.body
                    == Body::Length((remaining - chunk.len()) as u64)
            },
            Body::Chunked { complete } => step matches ReadStep::Chunk(bytes) && bytes@ == chunk
                && after.body == before.body,
        }
    } else {
        &&& after == before
        &&& match before.body {
            Body::Length(remaining) => if remaining == 0 {
                step is End
            } else {
                step is Receive
            },
            Body::Chunked { complete } => if complete {
                step is End
            } else {
                step is Receive
            },
        }
    }
}

impl GetOperation {
    pub open spec fn wf(&self) -> bool {
        self.offset <= self.buffered@.len()
    }

    /// Deliver buffered bytes, or say what has to happen first.
    pub fn next(&mut self, max_chunk_len: usize) -> (step: ReadStep)
        requires
            old(self).wf(),
            max_chunk_len > 0,
        ensures
            final(self).wf(),
            read_step(old(self)@, max_chunk_len, final(self)@, step),
    {
        let ghost before = self@;
        if self.offset < self.buffered.len() {
            let available: usize = self.buffered.len() - self.offset;
            let len: usize = if available <= max_chunk_len {
                available
            } else {
                max_chunk_len
            };
            let chunk: Vec<u8> = wire::copy_range(self.buffered.as_slice(), self.offset, len);
            assert(chunk@ =~= next_chunk(before.pending, max_chunk_len));
            self.offset = self.offset + len;
            assert(self@.pending =~= before.pending.skip(len as int));
            if self.offset == self.buffered.len() {
                self.buffered.clear();
                self.offset = 0;
                assert(self@.pending =~= before.pending.skip(len as int));
            }
            match self.body {
                Body::Length(remaining) => {
                    if len as u64 > remaining {
                        return ReadStep::Overrun;
                    }
                    self.body = Body::Length(remaining - len as u64);
                },
                Body::Chunked { complete } => {},
            }
            return ReadStep::Chunk(chunk);
        }
        assert(before.pending.len() == 0);
        match self.body {
            Body::Length(remaining) => if remaining == 0 {
                ReadStep::End
            } else {
                ReadStep::Receive
            },
            Body::Chunked { complete } => if complete {
                ReadStep::End
            } else {
                ReadStep::Receive
            },
        }
    }

    /// Take in body bytes: received ones of a body of known length, or decoded
    /// ones of a chunked body together with whether it is now complete.
    pub fn supply(&mut self, bytes: Vec<u8>, complete: bool)
        requires
            old(self).wf(),
            old(self)@.pending.len() == 0,
        ensures
            final(self).wf(),
            final(self)@.pending == bytes@,
            final(self)@.id == old(self)@.id,
            final(self)@.owner == old(self)@.owner,
            final(self)@.last_activity == old(self)@.last_activity,
            final(self)@.body == match old(self)@.body {
                Body::Length(remaining) => Body::Length(remaining),
                Body::Chunked { .. } => Body::Chunked { complete },
            },
    {
        self.buffered = bytes;
        self.offset = 0;
        match self.body {
            Body::Length(_) => {},
            Body::Chunked { .. } => {
                self.body = Body::Chunked { complete };
            },
        }
        assert(self@.pending =~= bytes@);
    }
}

/// Reading delivers the pending bytes in order and loses none of them.
pub proof fn law_reading_preserves_the_stream(
    before: GetView,
    max_chunk_len: usize,
    after: GetView,
    bytes: Vec<u8>,
)
    requires
        max_chunk_len > 0,
        read_step(before, max_chunk_len, after, ReadStep::Chunk(bytes)),
    ensures
        0 < bytes@.len() <= max_chunk_len,
        bytes@ + after.pending == before.pending,
{
    assert(bytes@ + after.pending =~= before.pending);
}

/// Never more than the announced length is delivered: what is delivered leaves
/// the remaining length.
pub proof fn law_reading_respects_the_length(
    before: GetView,
    max_chunk_len: usize,
    after: GetView,
    bytes: Vec<u8>,
    remaining: u64,
)
    requires
        before.body == Body::Length(remaining),
        read_step(before, max_chunk_len, after, ReadStep::Chunk(bytes)),
    ensures
        bytes@.len() <= remaining,
        after.body == Body::Length((remaining - bytes@.len()) as u64),
{
}

/// A live PUT operation.
#[derive(Clone, Copy, Debug, Eq, PartialEq)]
pub struct PutOperation {
    pub id: u64,
    pub owner: ClientIdentity,
    pub last_activity: u64,
    pub expected: u64,
    pub written: u64,
    pub expected_sha256: [u8; 32],
}

/// What a service instance holds.
#[verifier::ext_equal]
pub struct ServiceView {
    pub rights: u64,
    pub gets: Seq<GetView>,
    pub puts: Seq<PutOperation>,
    pub next_id: u64,
    pub requests: u32,
    pub failures: u32,
}

impl ServiceView {
    /// The identifiers in use.
    pub open spec fn used_ids(self) -> Seq<u64> {
        self.gets.map_values(|get: GetView| get.id) + self.puts.map_values(
            |put: PutOperation| put.id,
        )
    }

    /// A bounded number of operations with different identifiers.
    pub open spec fn wf(self) -> bool {
        &&& self.gets.len() + self.puts.len() <= MAX_OPERATIONS
        &&& self.used_ids().no_duplicates()
        &&& forall|i: int|
            0 <= i < self.puts.len() ==> (#[trigger] self.puts[i]).written
                <= self.puts[i].expected
    }

    /// GET `index` has this identifier and belongs to this client.
    pub open spec fn owns_get(self, id: u64, owner: ClientIdentity, index: int) -> bool {
        0 <= index < self.gets.len() && self.gets[index].id == id && self.gets[index].owner == owner
    }

    /// PUT `index` has this identifier and belongs to this client.
    pub open spec fn owns_put(self, id: u64, owner: ClientIdentity, index: int) -> bool {
        0 <= index < self.puts.len() && self.puts[index].id == id && self.puts[index].owner == owner
    }

    /// The client owns a GET of this identifier.
    pub open spec fn has_get(self, id: u64, owner: ClientIdentity) -> bool {
        exists|i: int| #[trigger] self.owns_get(id, owner, i)
    }

    /// The client owns a PUT of this identifier.
    pub open spec fn has_put(self, id: u64, owner: ClientIdentity) -> bool {
        exists|i: int| #[trigger] self.owns_put(id, owner, i)
    }
}

/// An operation last used at `last_activity` still holds its lease at `now`.
pub open spec fn lease_held(now: u64, last_activity: u64) -> bool {
    now <= last_activity || now - last_activity <= OPERATION_LEASE_SECONDS
}

/// The service after dropping the operations whose lease has run out.
pub open spec fn swept(view: ServiceView, now: u64) -> ServiceView {
    ServiceView {
        gets: view.gets.filter(|get: GetView| lease_held(now, get.last_activity)),
        puts: view.puts.filter(|put: PutOperation| lease_held(now, put.last_activity)),
        ..view
    }
}

/// One instance of the service.
pub struct Service {
    profile: Profile,
    numbers: ProtocolNumbers,
    gets: Vec<GetOperation>,
    puts: Vec<PutOperation>,
    next_id: u64,
    requests: u32,
    failures: u32,
}

/// The views of live GETs.
pub open spec fn get_views(gets: Seq<GetOperation>) -> Seq<GetView> {
    gets.map_values(|get: GetOperation| get@)
}

impl View for Service {
    type V = ServiceView;

    closed spec fn view(&self) -> ServiceView {
        ServiceView {
            rights: self.profile.rights,
            gets: get_views(self.gets@),
            puts: self.puts@,
            next_id: self.next_id,
            requests: self.requests,
            failures: self.failures,
        }
    }
}

/// Removing an item removes it from a filtered list too, or changes nothing.
proof fn lemma_filter_no_duplicates<T>(items: Seq<T>, keep: spec_fn(T) -> bool, key: spec_fn(
    T,
) -> u64)
    requires
        items.map_values(key).no_duplicates(),
    ensures
        items.filter(keep).map_values(key).no_duplicates(),
        items.filter(keep).len() <= items.len(),
        forall|i: int|
            0 <= i < items.filter(keep).len() ==> items.contains(#[trigger] items.filter(keep)[i]),
    decreases items.len(),
{
    reveal(Seq::filter);
    if items.len() > 0 {
        let rest = items.drop_last();
        let last = items.len() - 1;
        assert(rest.map_values(key).no_duplicates()) by {
            assert forall|i: int, j: int| 0 <= i < j < rest.len() implies rest.map_values(key)[i]
                != rest.map_values(key)[j] by {
                assert(items.map_values(key)[i] != items.map_values(key)[j]);
            }
        }
        lemma_filter_no_duplicates(rest, keep, key);
        let kept = rest.filter(keep);
        let out = items.filter(keep);
        assert forall|i: int| 0 <= i < out.len() implies items.contains(#[trigger] out[i]) by {
            if i < kept.len() {
                assert(rest.contains(kept[i]));
                let k = choose|k: int| 0 <= k < rest.len() && rest[k] == kept[i];
                assert(items[k] == out[i]);
            } else {
                assert(items[last] == out[i]);
            }
        }
        assert forall|i: int, j: int| 0 <= i < j < out.len() implies out.map_values(key)[i]
            != out.map_values(key)[j] by {
            assert(out[i] == kept[i]);
            if j < kept.len() {
                assert(kept.map_values(key)[i] != kept.map_values(key)[j]);
            } else {
                assert(rest.contains(kept[i]));
                let k = choose|k: int| 0 <= k < rest.len() && rest[k] == kept[i];
                assert(items.map_values(key)[k] != items.map_values(key)[last]);
            }
        }
    }
}

/// A GET request that asks for nothing a GET cannot have.
pub open spec fn get_request_ok(request: ObjectRequest, numbers: ProtocolNumbers) -> bool {
    &&& request.flags & numbers.flag_if_none_match == 0
    &&& request.content_length == 0
    &&& forall|i: int| 0 <= i < 32 ==> request.payload_sha256[i] == 0
}

/// A PUT request that asks for no range.
pub open spec fn put_request_ok(request: ObjectRequest, numbers: ProtocolNumbers) -> bool {
    &&& request.flags & numbers.flag_range == 0
    &&& request.range_start == 0
    &&& request.range_end == 0
}

/// A HEAD or DELETE request that carries nothing but a key.
pub open spec fn plain_request(request: ObjectRequest) -> bool {
    &&& request.flags == 0
    &&& request.content_length == 0
    &&& request.range_start == 0
    &&& request.range_end == 0
    &&& forall|i: int| 0 <= i < 32 ==> request.payload_sha256[i] == 0
}

/// `result` and `after` are the outcome of asking for an operation slot, where
/// the client needs `right` and the request must be `acceptable`.
pub open spec fn slot_granted(
    before: ServiceView,
    right: u64,
    acceptable: bool,
    after: ServiceView,
    result: Result<u64, S3Error>,
) -> bool {
    if before.rights & right == 0 {
        result == Err::<u64, S3Error>(S3Error::Denied) && after == before
    } else if !acceptable {
        result == Err::<u64, S3Error>(S3Error::Invalid) && after == before
    } else if before.gets.len() + before.puts.len() >= MAX_OPERATIONS {
        result == Err::<u64, S3Error>(S3Error::Busy) && after == before
    } else {
        &&& result matches Ok(id)
        &&& ids::is_next_free(before.next_id, before.used_ids(), id)
        &&& after == ServiceView { next_id: ids::successor(id), ..before }
    }
}

/// `after` and `step` are the outcome of a read by `owner`. Delivering bytes
/// renews the lease; a peer that sends too much ends the operation.
pub open spec fn get_read(
    before: ServiceView,
    id: u64,
    owner: ClientIdentity,
    now: u64,
    max_chunk_len: usize,
    after: ServiceView,
    step: Option<ReadStep>,
) -> bool {
    match step {
        Some(taken) => before.has_get(id, owner) && forall|i: int| #[trigger]
            before.owns_get(id, owner, i) ==> exists|next: GetView|
                {
                    &&& #[trigger] read_step(before.gets[i], max_chunk_len, next, taken)
                    &&& after == match taken {
                        ReadStep::Chunk(_) => ServiceView {
                            gets: before.gets.update(i, GetView { last_activity: now, ..next }),
                            ..before
                        },
                        ReadStep::Overrun => ServiceView {
                            gets: before.gets.remove(i),
                            ..before
                        },
                        _ => before,
                    }
                },
        None => !before.has_get(id, owner) && after == before,
    }
}

/// `after` is `before` without the GET of this client, if it has one.
pub open spec fn get_closed(
    before: ServiceView,
    id: u64,
    owner: ClientIdentity,
    after: ServiceView,
    closed: bool,
) -> bool {
    &&& closed == before.has_get(id, owner)
    &&& if closed {
        forall|i: int| #[trigger]
            before.owns_get(id, owner, i) ==> after == (ServiceView {
                gets: before.gets.remove(i),
                ..before
            })
    } else {
        after == before
    }
}

/// `after` is `before` without the PUT of this client, if it has one.
pub open spec fn put_closed(
    before: ServiceView,
    id: u64,
    owner: ClientIdentity,
    after: ServiceView,
    closed: bool,
) -> bool {
    &&& closed == before.has_put(id, owner)
    &&& if closed {
        forall|i: int| #[trigger]
            before.owns_put(id, owner, i) ==> after == (ServiceView {
                puts: before.puts.remove(i),
                ..before
            })
    } else {
        after == before
    }
}

/// What an instance publishes of itself: its counters and the identifiers of
/// the operations under way.
pub struct Activity {
    pub requests: u32,
    pub failures: u32,
    pub gets: Vec<u64>,
    pub puts: Vec<u64>,
}

/// The memory object that came with a write.
#[derive(Clone, Copy, Debug, PartialEq, Eq, Structural)]
pub enum BodyMemory {
    Missing,
    Unmappable,
    Mapped(usize),
}

/// The answer to a write of `len` bytes, before anything is sent.
pub open spec fn write_checked(
    view: ServiceView,
    id: u64,
    owner: ClientIdentity,
    len: u64,
    memory: BodyMemory,
    max_chunk_len: usize,
) -> Result<(), S3Error> {
    if len == 0 || len > max_chunk_len || !view.has_put(id, owner) {
        Err(S3Error::Invalid)
    } else {
        match memory {
            BodyMemory::Missing => Err(S3Error::Invalid),
            BodyMemory::Unmappable => Err(S3Error::Transport),
            BodyMemory::Mapped(mapped) => if len > mapped || (forall|i: int| #[trigger]
                view.owns_put(id, owner, i) ==> view.puts[i].written + len
                    > view.puts[i].expected) {
                Err(S3Error::Invalid)
            } else {
                Ok(())
            },
        }
    }
}

/// An upload that begins.
pub open spec fn begun_put(
    id: u64,
    owner: ClientIdentity,
    now: u64,
    request: ObjectRequest,
) -> PutOperation {
    PutOperation {
        id,
        owner,
        last_activity: now,
        expected: request.content_length,
        written: 0,
        expected_sha256: request.payload_sha256,
    }
}

/// An upload of which `len` more bytes went out.
pub open spec fn advanced_put(put: PutOperation, len: u64, now: u64) -> PutOperation {
    PutOperation { written: (put.written + len) as u64, last_activity: now, ..put }
}

/// A download for which more bytes came in.
pub open spec fn supplied_get(get: GetView, bytes: Seq<u8>, complete: bool) -> GetView {
    GetView {
        pending: bytes,
        body: match get.body {
            Body::Length(remaining) => Body::Length(remaining),
            Body::Chunked { .. } => Body::Chunked { complete },
        },
        ..get
    }
}

/// The service once a request was counted.
pub open spec fn accounted(view: ServiceView, failed: bool) -> ServiceView {
    ServiceView {
        requests: view.requests.wrapping_add(1),
        failures: if failed {
            view.failures.wrapping_add(1)
        } else {
            view.failures
        },
        ..view
    }
}

/// What a response status means for the client.
pub open spec fn status_outcome(status: u16) -> Result<(), S3Error> {
    if 200 <= status < 300 {
        Ok(())
    } else {
        Err(remote_error_of(status))
    }
}

/// What a response status means for the client.
pub fn response_outcome(status: u16) -> (outcome: Result<(), S3Error>)
    ensures
        outcome == status_outcome(status),
{
    if 200 <= status && status < 300 {
        Ok(())
    } else {
        Err(remote_error(status))
    }
}

/// An upload is complete only where its bytes have the announced digest.
pub open spec fn digest_checked(put: PutOperation, digest: [u8; 32]) -> Result<(), S3Error> {
    if digest@ == put.expected_sha256@ {
        Ok(())
    } else {
        Err(S3Error::Invalid)
    }
}

/// Whether a finished upload has the digest its client announced.
pub fn check_digest(put: &PutOperation, digest: &[u8; 32]) -> (outcome: Result<(), S3Error>)
    ensures
        outcome == digest_checked(*put, *digest),
{
    if wire::bytes_equal(digest, &put.expected_sha256) {
        Ok(())
    } else {
        Err(S3Error::Invalid)
    }
}

/// The start of a response body, as far as it came with the head.
pub struct ResponseStart {
    pub status: u16,
    pub chunked: bool,
    pub content_length: Option<u64>,
    /// The raw bytes behind the head.
    pub initial: Vec<u8>,
    /// For a chunked body: the decoded bytes and whether it is complete, unless
    /// the coding is malformed.
    pub decoded: Option<(Vec<u8>, bool)>,
}

/// The GET that a response starts, or why it starts none.
pub open spec fn started_get(
    id: u64,
    owner: ClientIdentity,
    now: u64,
    response: ResponseStart,
) -> Result<GetView, S3Error> {
    if response.status != 200 && response.status != 206 {
        Err(remote_error_of(response.status))
    } else if response.chunked {
        match response.decoded {
            Some((bytes, complete)) => Ok(
                GetView {
                    id,
                    owner,
                    last_activity: now,
                    body: Body::Chunked { complete },
                    pending: bytes@,
                },
            ),
            None => Err(S3Error::Protocol),
        }
    } else {
        match response.content_length {
            Some(length) => Ok(
                GetView {
                    id,
                    owner,
                    last_activity: now,
                    body: Body::Length(length),
                    pending: response.initial@,
                },
            ),
            None => Err(S3Error::Protocol),
        }
    }
}

impl Service {
    /// The protocol numbers in use.
    pub closed spec fn numbers(&self) -> ProtocolNumbers {
        self.numbers
    }

    /// The profile that is served.
    pub closed spec fn profile(&self) -> Profile {
        self.profile
    }

    /// Everything that holds between requests.
    pub closed spec fn inv(&self) -> bool {
        &&& self@.wf()
        &&& self.numbers.max_chunk_len > 0
        &&& forall|i: int| 0 <= i < self.gets@.len() ==> (#[trigger] self.gets@[i]).wf()
    }

    /// Between requests a bounded number of operations is under way, each under
    /// an identifier of its own, no upload is longer than announced, and a
    /// message can carry some bytes.
    pub proof fn law_operations_are_distinct(&self)
        requires
            self.inv(),
        ensures
            self@.wf(),
            self@.used_ids().no_duplicates(),
            self@.gets.len() + self@.puts.len() <= MAX_OPERATIONS,
            self.numbers().max_chunk_len > 0,
    {
    }

    pub fn new(profile: Profile, numbers: ProtocolNumbers) -> (service: Service)
        requires
            numbers.max_chunk_len > 0,
        ensures
            service.inv(),
            service.profile() == profile,
            service.numbers() == numbers,
            service@ == (ServiceView {
                rights: profile@.rights,
                gets: Seq::empty(),
                puts: Seq::empty(),
                next_id: 1,
                requests: 0,
                failures: 0,
            }),
    {
        let service: Service = Service {
            profile,
            numbers,
            gets: Vec::new(),
            puts: Vec::new(),
            next_id: 1,
            requests: 0,
            failures: 0,
        };
        assert(service@.gets =~= Seq::empty());
        service
    }

    /// The profile that is served.
    pub fn served_profile(&self) -> (profile: &Profile)
        ensures
            *profile == self.profile(),
    {
        &self.profile
    }

    /// Drop the operations whose lease has run out.
    pub fn sweep_expired(&mut self, now: u64)
        requires
            old(self).inv(),
        ensures
            final(self).inv(),
            final(self).numbers() == old(self).numbers(),
            final(self).profile() == old(self).profile(),
            final(self)@ == swept(old(self)@, now),
    {
        let ghost before = self@;
        let ghost keep_get = |get: GetView| lease_held(now, get.last_activity);
        let ghost keep_put = |put: PutOperation| lease_held(now, put.last_activity);
        proof {
            lemma_swept_wf(before, now);
            reveal(Seq::filter);
        }
        let mut gets: Vec<GetOperation> = Vec::new();
        let mut puts: Vec<PutOperation> = Vec::new();
        let mut old_gets: Vec<GetOperation> = Vec::new();
        std::mem::swap(&mut self.gets, &mut old_gets);
        let ghost all = old_gets@;
        assert(get_views(all) == before.gets);
        assert(get_views(gets@) =~= before.gets.take(0).filter(keep_get));
        let ghost mut seen: int = 0;
        while old_gets.len() > 0
            invariant
                0 <= seen <= all.len(),
                old_gets@ == all.skip(seen),
                get_views(all) == before.gets,
                keep_get == (|get: GetView| lease_held(now, get.last_activity)),
                get_views(gets@) == before.gets.take(seen).filter(keep_get),
                forall|i: int| 0 <= i < all.len() ==> (#[trigger] all[i]).wf(),
                forall|i: int| 0 <= i < gets@.len() ==> (#[trigger] gets@[i]).wf(),
            decreases old_gets@.len(),
        {
            let ghost kept = get_views(gets@);
            let get: GetOperation = old_gets.remove(0);
            proof {
                reveal(Seq::filter);
                assert(all.skip(seen).remove(0) =~= all.skip(seen + 1));
                let next = before.gets.take(seen + 1);
                assert(next.drop_last() =~= before.gets.take(seen));
                assert(next.last() == get@);
                assert(get == all[seen]);
                seen = seen + 1;
            }
            if now <= get.last_activity || now - get.last_activity <= OPERATION_LEASE_SECONDS {
                gets.push(get);
                assert(get_views(gets@) =~= kept.push(get@));
            }
        }
        assert(before.gets.take(before.gets.len() as int) =~= before.gets);
        let mut index: usize = 0;
        assert(puts@ =~= before.puts.take(0).filter(keep_put));
        while index < self.puts.len()
            invariant
                index <= self.puts@.len(),
                self.puts@ == before.puts,
                keep_put == (|put: PutOperation| lease_held(now, put.last_activity)),
                puts@ == before.puts.take(index as int).filter(keep_put),
            decreases self.puts@.len() - index,
        {
            let put: PutOperation = self.puts[index];
            proof {
                reveal(Seq::filter);
                let next = before.puts.take(index + 1);
                assert(next.drop_last() =~= before.puts.take(index as int));
                assert(next.last() == put);
            }
            if now <= put.last_activity || now - put.last_activity <= OPERATION_LEASE_SECONDS {
                puts.push(put);
            }
            index = index + 1;
        }
        assert(before.puts.take(before.puts.len() as int) =~= before.puts);
        self.gets = gets;
        self.puts = puts;
        assert(self@ =~= swept(before, now));
    }

    /// The identifiers in use.
    fn used(&self) -> (used: Vec<u64>)
        ensures
            used@ == self@.used_ids(),
    {
        let mut used: Vec<u64> = Vec::new();
        let mut index: usize = 0;
        while index < self.gets.len()
            invariant
                index <= self.gets@.len(),
                used@.len() == index,
                forall|i: int| 0 <= i < index ==> used@[i] == self.gets@[i].id,
            decreases self.gets@.len() - index,
        {
            used.push(self.gets[index].id);
            index = index + 1;
        }
        let mut index: usize = 0;
        while index < self.puts.len()
            invariant
                index <= self.puts@.len(),
                used@.len() == self.gets@.len() + index,
                forall|i: int| 0 <= i < self.gets@.len() ==> used@[i] == self.gets@[i].id,
                forall|i: int|
                    0 <= i < index ==> used@[self.gets@.len() + i] == self.puts@[i].id,
            decreases self.puts@.len() - index,
        {
            used.push(self.puts[index].id);
            index = index + 1;
        }
        assert(used@ =~= self@.used_ids());
        used
    }

    /// Take the next free operation identifier.
    fn operation_id(&mut self) -> (id: Option<u64>)
        requires
            old(self).inv(),
        ensures
            final(self).inv(),
            final(self).numbers() == old(self).numbers(),
            final(self).profile() == old(self).profile(),
            match id {
                Some(free) => {
                    &&& old(self)@.gets.len() + old(self)@.puts.len() < MAX_OPERATIONS
                    &&& ids::is_next_free(old(self)@.next_id, old(self)@.used_ids(), free)
                    &&& final(self)@ == (ServiceView {
                        next_id: ids::successor(free),
                        ..old(self)@
                    })
                },
                None => {
                    &&& old(self)@.gets.len() + old(self)@.puts.len() >= MAX_OPERATIONS
                    &&& final(self)@ == old(self)@
                },
            },
    {
        if self.gets.len() + self.puts.len() >= MAX_OPERATIONS {
            return None;
        }
        let used: Vec<u64> = self.used();
        let id: u64 = ids::next_free(self.next_id, used.as_slice());
        self.next_id = ids::after(id);
        assert(self@.used_ids() == old(self)@.used_ids());
        Some(id)
    }

    /// Whether a digest is all zero.
    fn digest_unset(request: &ObjectRequest) -> (unset: bool)
        ensures
            unset == (forall|i: int| 0 <= i < 32 ==> request.payload_sha256[i] == 0),
    {
        wire::all_zero(&request.payload_sha256, 0, 32)
    }

    /// Reserve an operation for a GET.
    pub fn admit_get(&mut self, request: &ObjectRequest) -> (admitted: Result<u64, S3Error>)
        requires
            old(self).inv(),
        ensures
            final(self).inv(),
            final(self).numbers() == old(self).numbers(),
            final(self).profile() == old(self).profile(),
            slot_granted(
                old(self)@,
                old(self).numbers().right_get,
                get_request_ok(*request, old(self).numbers()),
                final(self)@,
                admitted,
            ),
    {
        if !self.profile.has(self.numbers.right_get) {
            return Err(S3Error::Denied);
        }
        if request.flags & self.numbers.flag_if_none_match != 0 || request.content_length != 0
            || !Self::digest_unset(request) {
            return Err(S3Error::Invalid);
        }
        match self.operation_id() {
            Some(id) => Ok(id),
            None => Err(S3Error::Busy),
        }
    }

    /// Reserve an operation for a PUT.
    pub fn admit_put(&mut self, request: &ObjectRequest) -> (admitted: Result<u64, S3Error>)
        requires
            old(self).inv(),
        ensures
            final(self).inv(),
            final(self).numbers() == old(self).numbers(),
            final(self).profile() == old(self).profile(),
            slot_granted(
                old(self)@,
                old(self).numbers().right_put,
                put_request_ok(*request, old(self).numbers()),
                final(self)@,
                admitted,
            ),
    {
        if !self.profile.has(self.numbers.right_put) {
            return Err(S3Error::Denied);
        }
        if request.flags & self.numbers.flag_range != 0 || request.range_start != 0
            || request.range_end != 0 {
            return Err(S3Error::Invalid);
        }
        match self.operation_id() {
            Some(id) => Ok(id),
            None => Err(S3Error::Busy),
        }
    }

    /// Accept or refuse a HEAD or DELETE.
    pub fn admit_simple(&self, request: &ObjectRequest, method: Method) -> (admitted: Result<
        (),
        S3Error,
    >)
        requires
            method == Method::Head || method == Method::Delete,
        ensures
            admitted == simple_checked(self@.rights, *request, method, self.numbers()),
    {
        if request.flags != 0 || request.content_length != 0 || request.range_start != 0
            || request.range_end != 0 || !Self::digest_unset(request) {
            return Err(S3Error::Invalid);
        }
        let right: u64 = if method == Method::Head {
            self.numbers.right_get
        } else {
            self.numbers.right_delete
        };
        if self.profile.has(right) {
            Ok(())
        } else {
            Err(S3Error::Denied)
        }
    }

    /// Start the GET that a response head announces.
    pub fn open_get(
        &mut self,
        id: u64,
        owner: ClientIdentity,
        now: u64,
        response: ResponseStart,
    ) -> (opened: Result<(), S3Error>)
        requires
            old(self).inv(),
            old(self)@.gets.len() + old(self)@.puts.len() < MAX_OPERATIONS,
            !old(self)@.used_ids().contains(id),
        ensures
            final(self).inv(),
            final(self).numbers() == old(self).numbers(),
            final(self).profile() == old(self).profile(),
            match started_get(id, owner, now, response) {
                Ok(get) => opened == Ok::<(), S3Error>(()) && final(self)@ == (ServiceView {
                    gets: old(self)@.gets.push(get),
                    ..old(self)@
                }),
                Err(error) => opened == Err::<(), S3Error>(error) && final(self)@ == old(self)@,
            },
    {
        let ghost before = self@;
        if response.status != 200 && response.status != 206 {
            return Err(remote_error(response.status));
        }
        let ghost expected = started_get(id, owner, now, response);
        let get: GetOperation = if response.chunked {
            match response.decoded {
                Some((bytes, complete)) => GetOperation {
                    id,
                    owner,
                    last_activity: now,
                    body: Body::Chunked { complete },
                    buffered: bytes,
                    offset: 0,
                },
                None => {
                    return Err(S3Error::Protocol);
                },
            }
        } else {
            match response.content_length {
                Some(length) => GetOperation {
                    id,
                    owner,
                    last_activity: now,
                    body: Body::Length(length),
                    buffered: response.initial,
                    offset: 0,
                },
                None => {
                    return Err(S3Error::Protocol);
                },
            }
        };
        assert(get@.pending =~= get.buffered@);
        assert(get@ =~= expected->Ok_0);
        self.gets.push(get);
        proof {
            assert(self@.gets =~= before.gets.push(get@));
            lemma_get_added(before, get@);
        }
        Ok(())
    }

    /// Start the PUT whose head was sent.
    pub fn open_put(&mut self, id: u64, owner: ClientIdentity, now: u64, request: &ObjectRequest)
        requires
            old(self).inv(),
            old(self)@.gets.len() + old(self)@.puts.len() < MAX_OPERATIONS,
            !old(self)@.used_ids().contains(id),
        ensures
            final(self).inv(),
            final(self).numbers() == old(self).numbers(),
            final(self).profile() == old(self).profile(),
            final(self)@ == (ServiceView {
                puts: old(self)@.puts.push(begun_put(id, owner, now, *request)),
                ..old(self)@
            }),
    {
        let ghost before = self@;
        let put: PutOperation = PutOperation {
            id,
            owner,
            last_activity: now,
            expected: request.content_length,
            written: 0,
            expected_sha256: request.payload_sha256,
        };
        self.puts.push(put);
        proof {
            lemma_put_added(before, put);
        }
    }

    /// The index of the GET of this client.
    fn find_get(&self, id: u64, owner: ClientIdentity) -> (found: Option<usize>)
        ensures
            match found {
                Some(index) => self@.owns_get(id, owner, index as int),
                None => !self@.has_get(id, owner),
            },
    {
        let mut index: usize = 0;
        while index < self.gets.len()
            invariant
                index <= self.gets@.len(),
                forall|i: int| 0 <= i < index ==> !#[trigger] self@.owns_get(id, owner, i),
            decreases self.gets@.len() - index,
        {
            if self.gets[index].id == id && self.gets[index].owner == owner {
                return Some(index);
            }
            assert(!self@.owns_get(id, owner, index as int));
            index = index + 1;
        }
        None
    }

    /// The index of the PUT of this client.
    fn find_put(&self, id: u64, owner: ClientIdentity) -> (found: Option<usize>)
        ensures
            match found {
                Some(index) => self@.owns_put(id, owner, index as int),
                None => !self@.has_put(id, owner),
            },
    {
        let mut index: usize = 0;
        while index < self.puts.len()
            invariant
                index <= self.puts@.len(),
                forall|i: int| 0 <= i < index ==> !#[trigger] self@.owns_put(id, owner, i),
            decreases self.puts@.len() - index,
        {
            if self.puts[index].id == id && self.puts[index].owner == owner {
                return Some(index);
            }
            assert(!self@.owns_put(id, owner, index as int));
            index = index + 1;
        }
        None
    }

    /// Read from a GET of this client. `None` means that it has no such GET.
    pub fn read(&mut self, id: u64, owner: ClientIdentity, now: u64) -> (step: Option<ReadStep>)
        requires
            old(self).inv(),
        ensures
            final(self).inv(),
            final(self).numbers() == old(self).numbers(),
            final(self).profile() == old(self).profile(),
            get_read(
                old(self)@,
                id,
                owner,
                now,
                old(self).numbers().max_chunk_len,
                final(self)@,
                step,
            ),
    {
        let ghost before = self@;
        let index: usize = match self.find_get(id, owner) {
            Some(index) => index,
            None => {
                return None;
            },
        };
        let max_chunk_len: usize = self.numbers.max_chunk_len;
        let mut get: GetOperation = self.gets.remove(index);
        let ghost rest = self.gets@;
        let step: ReadStep = get.next(max_chunk_len);
        let ghost moved = get@;
        let mut keep: bool = true;
        match &step {
            ReadStep::Chunk(_) => {
                get.last_activity = now;
            },
            ReadStep::Overrun => {
                keep = false;
            },
            _ => {},
        }
        if keep {
            let ghost put_back = get@;
            self.gets.insert(index, get);
            assert(self@.gets =~= before.gets.update(index as int, put_back));
            assert(self@.used_ids() =~= before.used_ids());
        } else {
            assert(self@.gets =~= before.gets.remove(index as int));
            proof {
                lemma_get_removed(before, index as int);
            }
        }
        proof {
            assert(read_step(before.gets[index as int], max_chunk_len, moved, step));
            match step {
                ReadStep::Chunk(_) => {
                    assert(self@ =~= ServiceView {
                        gets: before.gets.update(
                            index as int,
                            GetView { last_activity: now, ..moved },
                        ),
                        ..before
                    });
                },
                ReadStep::Overrun => {
                    assert(self@ =~= ServiceView {
                        gets: before.gets.remove(index as int),
                        ..before
                    });
                },
                _ => {
                    assert(before.gets.update(index as int, before.gets[index as int])
                        =~= before.gets);
                    assert(self@ =~= before);
                },
            }
            let after = self@;
            assert forall|i: int| #[trigger] before.owns_get(id, owner, i) implies exists|
                next: GetView,
            |
                {
                    &&& #[trigger] read_step(before.gets[i], max_chunk_len, next, step)
                    &&& after == match step {
                        ReadStep::Chunk(_) => ServiceView {
                            gets: before.gets.update(i, GetView { last_activity: now, ..next }),
                            ..before
                        },
                        ReadStep::Overrun => ServiceView {
                            gets: before.gets.remove(i),
                            ..before
                        },
                        _ => before,
                    }
                } by {
                lemma_get_unique(before, id, i, index as int);
                assert(read_step(before.gets[i], max_chunk_len, moved, step));
            }
            assert(before.owns_get(id, owner, index as int));
        }
        Some(step)
    }

    /// Hand received bytes to a GET that asked for them.
    pub fn supply(
        &mut self,
        id: u64,
        owner: ClientIdentity,
        bytes: Vec<u8>,
        complete: bool,
    ) -> (taken: bool)
        requires
            old(self).inv(),
            forall|i: int| #[trigger]
                old(self)@.owns_get(id, owner, i) ==> old(self)@.gets[i].pending.len() == 0,
        ensures
            final(self).inv(),
            final(self).numbers() == old(self).numbers(),
            final(self).profile() == old(self).profile(),
            taken == old(self)@.has_get(id, owner),
            !taken ==> final(self)@ == old(self)@,
            taken ==> forall|i: int| #[trigger]
                old(self)@.owns_get(id, owner, i) ==> final(self)@ == (ServiceView {
                    gets: old(self)@.gets.update(
                        i,
                        supplied_get(old(self)@.gets[i], bytes@, complete),
                    ),
                    ..old(self)@
                }),
    {
        let ghost before = self@;
        let index: usize = match self.find_get(id, owner) {
            Some(index) => index,
            None => {
                return false;
            },
        };
        let mut get: GetOperation = self.gets.remove(index);
        get.supply(bytes, complete);
        let ghost moved = get@;
        self.gets.insert(index, get);
        proof {
            assert(self@.gets =~= before.gets.update(index as int, moved));
            assert(self@.used_ids() =~= before.used_ids());
            assert forall|i: int| #[trigger] before.owns_get(id, owner, i) implies i == index by {
                lemma_get_unique(before, id, i, index as int);
            }
        }
        true
    }

    /// End the GET of this client.
    pub fn close_get(&mut self, id: u64, owner: ClientIdentity) -> (closed: bool)
        requires
            old(self).inv(),
        ensures
            final(self).inv(),
            final(self).numbers() == old(self).numbers(),
            final(self).profile() == old(self).profile(),
            get_closed(old(self)@, id, owner, final(self)@, closed),
    {
        let ghost before = self@;
        match self.find_get(id, owner) {
            Some(index) => {
                self.gets.remove(index);
                proof {
                    assert(self@.gets =~= before.gets.remove(index as int));
                    lemma_get_removed(before, index as int);
                    assert forall|i: int| #[trigger] before.owns_get(id, owner, i) implies i
                        == index by {
                        lemma_get_unique(before, id, i, index as int);
                    }
                }
                true
            },
            None => false,
        }
    }

    /// End the PUT of this client.
    pub fn close_put(&mut self, id: u64, owner: ClientIdentity) -> (closed: bool)
        requires
            old(self).inv(),
        ensures
            final(self).inv(),
            final(self).numbers() == old(self).numbers(),
            final(self).profile() == old(self).profile(),
            put_closed(old(self)@, id, owner, final(self)@, closed),
    {
        let ghost before = self@;
        match self.find_put(id, owner) {
            Some(index) => {
                self.puts.remove(index);
                proof {
                    lemma_put_removed(before, index as int);
                    assert forall|i: int| #[trigger] before.owns_put(id, owner, i) implies i
                        == index by {
                        lemma_put_unique(before, id, i, index as int);
                    }
                }
                true
            },
            None => false,
        }
    }

    /// Check a write before its bytes are sent.
    pub fn check_write(
        &self,
        id: u64,
        owner: ClientIdentity,
        len: u64,
        memory: BodyMemory,
    ) -> (outcome: Result<(), S3Error>)
        requires
            self.inv(),
        ensures
            outcome == write_checked(
                self@,
                id,
                owner,
                len,
                memory,
                self.numbers().max_chunk_len,
            ),
    {
        if len == 0 || len > self.numbers.max_chunk_len as u64 {
            return Err(S3Error::Invalid);
        }
        let index: usize = match self.find_put(id, owner) {
            Some(index) => index,
            None => {
                return Err(S3Error::Invalid);
            },
        };
        proof {
            assert forall|i: int| #[trigger] self@.owns_put(id, owner, i) implies i == index by {
                lemma_put_unique(self@, id, i, index as int);
            }
        }
        match memory {
            BodyMemory::Missing => Err(S3Error::Invalid),
            BodyMemory::Unmappable => Err(S3Error::Transport),
            BodyMemory::Mapped(mapped) => {
                let put: PutOperation = self.puts[index];
                assert(put.written <= put.expected);
                if len > mapped as u64 || len > put.expected - put.written {
                    Err(S3Error::Invalid)
                } else {
                    Ok(())
                }
            },
        }
    }

    /// Note that checked bytes of a write were sent.
    pub fn wrote(&mut self, id: u64, owner: ClientIdentity, len: u64, now: u64)
        requires
            old(self).inv(),
            old(self)@.has_put(id, owner),
            forall|i: int| #[trigger]
                old(self)@.owns_put(id, owner, i) ==> old(self)@.puts[i].written + len
                    <= old(self)@.puts[i].expected,
        ensures
            final(self).inv(),
            final(self).numbers() == old(self).numbers(),
            final(self).profile() == old(self).profile(),
            forall|i: int| #[trigger]
                old(self)@.owns_put(id, owner, i) ==> final(self)@ == (ServiceView {
                    puts: old(self)@.puts.update(
                        i,
                        advanced_put(old(self)@.puts[i], len, now),
                    ),
                    ..old(self)@
                }),
    {
        let ghost before = self@;
        match self.find_put(id, owner) {
            Some(index) => {
                let put: PutOperation = self.puts[index];
                assert(before.owns_put(id, owner, index as int));
                self.puts.set(
                    index,
                    PutOperation { written: put.written + len, last_activity: now, ..put },
                );
                proof {
                    assert(self@.used_ids() =~= before.used_ids());
                    assert forall|i: int| #[trigger] before.owns_put(id, owner, i) implies i
                        == index by {
                        lemma_put_unique(before, id, i, index as int);
                    }
                }
            },
            None => {},
        }
    }

    /// Take the PUT of this client to finish it. It is gone afterwards, also
    /// where the body is incomplete.
    pub fn take_put(&mut self, id: u64, owner: ClientIdentity) -> (taken: Result<
        PutOperation,
        S3Error,
    >)
        requires
            old(self).inv(),
        ensures
            final(self).inv(),
            final(self).numbers() == old(self).numbers(),
            final(self).profile() == old(self).profile(),
            put_taken(old(self)@, id, owner, final(self)@, taken),
    {
        let ghost before = self@;
        match self.find_put(id, owner) {
            Some(index) => {
                let put: PutOperation = self.puts[index];
                assert(before.owns_put(id, owner, index as int));
                let closed: bool = self.close_put(id, owner);
                if put.written == put.expected {
                    Ok(put)
                } else {
                    Err(S3Error::Invalid)
                }
            },
            None => Err(S3Error::Denied),
        }
    }

    /// Rights, transport and port of the instance in one word: rights in the
    /// low 32 bits, TLS in bit 32, the port from bit 40 on. No credentials.
    pub fn status_summary(&self) -> (summary: u64)
        ensures
            summary == summary_of(self.profile()@),
    {
        let tls: u64 = if self.profile.tls {
            0x1_0000_0000
        } else {
            0
        };
        self.profile.rights % 0x1_0000_0000 + tls + self.profile.port as u64 * 0x100_0000_0000
    }

    /// Count a request, and its failure.
    pub fn account(&mut self, failed: bool)
        requires
            old(self).inv(),
        ensures
            final(self).inv(),
            final(self).numbers() == old(self).numbers(),
            final(self).profile() == old(self).profile(),
            final(self)@ == accounted(old(self)@, failed),
    {
        self.requests = self.requests.wrapping_add(1);
        if failed {
            self.failures = self.failures.wrapping_add(1);
        }
        assert(self@.used_ids() == old(self)@.used_ids());
    }

    /// What the instance publishes of itself.
    pub fn activity(&self) -> (activity: Activity)
        ensures
            activity.requests == self@.requests,
            activity.failures == self@.failures,
            activity.gets@ == self@.gets.map_values(|get: GetView| get.id),
            activity.puts@ == self@.puts.map_values(|put: PutOperation| put.id),
    {
        let mut gets: Vec<u64> = Vec::new();
        let mut index: usize = 0;
        while index < self.gets.len()
            invariant
                index <= self.gets@.len(),
                gets@ == self@.gets.take(index as int).map_values(|get: GetView| get.id),
            decreases self.gets@.len() - index,
        {
            gets.push(self.gets[index].id);
            index += 1;
        }
        assert(self@.gets.take(index as int) == self@.gets);
        let mut puts: Vec<u64> = Vec::new();
        let mut place: usize = 0;
        while place < self.puts.len()
            invariant
                place <= self.puts@.len(),
                puts@ == self@.puts.take(place as int).map_values(|put: PutOperation| put.id),
            decreases self.puts@.len() - place,
        {
            puts.push(self.puts[place].id);
            place += 1;
        }
        assert(self@.puts.take(place as int) == self@.puts);
        Activity { requests: self.requests, failures: self.failures, gets, puts }
    }
}

/// GET identifiers are unique.
proof fn lemma_get_unique(view: ServiceView, id: u64, one: int, two: int)
    requires
        view.wf(),
        0 <= one < view.gets.len(),
        0 <= two < view.gets.len(),
        view.gets[one].id == id,
        view.gets[two].id == id,
    ensures
        one == two,
{
    assert(view.used_ids()[one] == id);
    assert(view.used_ids()[two] == id);
}

/// PUT identifiers are unique.
proof fn lemma_put_unique(view: ServiceView, id: u64, one: int, two: int)
    requires
        view.wf(),
        0 <= one < view.puts.len(),
        0 <= two < view.puts.len(),
        view.puts[one].id == id,
        view.puts[two].id == id,
    ensures
        one == two,
{
    let base = view.gets.len();
    assert(view.used_ids()[base + one] == id);
    assert(view.used_ids()[base + two] == id);
}

/// A GET with a fresh identifier may join.
proof fn lemma_get_added(view: ServiceView, get: GetView)
    requires
        view.wf(),
        view.gets.len() + view.puts.len() < MAX_OPERATIONS,
        !view.used_ids().contains(get.id),
    ensures
        (ServiceView { gets: view.gets.push(get), ..view }).wf(),
{
    let after = ServiceView { gets: view.gets.push(get), ..view };
    let base = view.gets.len() as int;
    assert forall|i: int, j: int| 0 <= i < j < after.used_ids().len() implies after.used_ids()[i]
        != after.used_ids()[j] by {
        let a = if i <= base {
            i
        } else {
            i - 1
        };
        let b = if j <= base {
            j
        } else {
            j - 1
        };
        if i == base {
            assert(after.used_ids()[j] == view.used_ids()[b]);
            assert(view.used_ids().contains(view.used_ids()[b]));
        } else if j == base {
            assert(after.used_ids()[i] == view.used_ids()[a]);
            assert(view.used_ids().contains(view.used_ids()[a]));
        } else {
            assert(after.used_ids()[i] == view.used_ids()[a]);
            assert(after.used_ids()[j] == view.used_ids()[b]);
            assert(view.used_ids()[a] != view.used_ids()[b]);
        }
    }
}

/// A PUT with a fresh identifier may join.
proof fn lemma_put_added(view: ServiceView, put: PutOperation)
    requires
        view.wf(),
        view.gets.len() + view.puts.len() < MAX_OPERATIONS,
        !view.used_ids().contains(put.id),
        put.written <= put.expected,
    ensures
        (ServiceView { puts: view.puts.push(put), ..view }).wf(),
{
    let after = ServiceView { puts: view.puts.push(put), ..view };
    assert(after.used_ids() =~= view.used_ids().push(put.id));
    assert forall|i: int, j: int| 0 <= i < j < after.used_ids().len() implies after.used_ids()[i]
        != after.used_ids()[j] by {
        if j == view.used_ids().len() {
            assert(view.used_ids().contains(view.used_ids()[i]));
        } else {
            assert(view.used_ids()[i] != view.used_ids()[j]);
        }
    }
}

/// Removing an identifier keeps the others different.
proof fn lemma_remove_no_duplicates(ids: Seq<u64>, index: int)
    requires
        ids.no_duplicates(),
        0 <= index < ids.len(),
    ensures
        ids.remove(index).no_duplicates(),
{
    let left = ids.remove(index);
    assert forall|i: int, j: int| 0 <= i < j < left.len() implies left[i] != left[j] by {
        let a = if i < index {
            i
        } else {
            i + 1
        };
        let b = if j < index {
            j
        } else {
            j + 1
        };
        assert(left[i] == ids[a]);
        assert(left[j] == ids[b]);
    }
}

/// Removing a GET keeps the service well formed.
proof fn lemma_get_removed(view: ServiceView, index: int)
    requires
        view.wf(),
        0 <= index < view.gets.len(),
    ensures
        (ServiceView { gets: view.gets.remove(index), ..view }).wf(),
{
    let after = ServiceView { gets: view.gets.remove(index), ..view };
    assert(after.used_ids() =~= view.used_ids().remove(index));
    lemma_remove_no_duplicates(view.used_ids(), index);
}

/// Removing a PUT keeps the service well formed.
proof fn lemma_put_removed(view: ServiceView, index: int)
    requires
        view.wf(),
        0 <= index < view.puts.len(),
    ensures
        (ServiceView { puts: view.puts.remove(index), ..view }).wf(),
{
    let after = ServiceView { puts: view.puts.remove(index), ..view };
    let base = view.gets.len();
    assert(after.used_ids() =~= view.used_ids().remove(base + index));
    lemma_remove_no_duplicates(view.used_ids(), base + index);
    assert forall|i: int| 0 <= i < after.puts.len() implies (#[trigger] after.puts[i]).written
        <= after.puts[i].expected by {
        if i < index {
            assert(after.puts[i] == view.puts[i]);
        } else {
            assert(after.puts[i] == view.puts[i + 1]);
        }
    }
}

/// Sweeping keeps the service well formed.
proof fn lemma_swept_wf(view: ServiceView, now: u64)
    requires
        view.wf(),
    ensures
        swept(view, now).wf(),
{
    let after = swept(view, now);
    let base = view.gets.len();
    let get_key = |get: GetView| get.id;
    let put_key = |put: PutOperation| put.id;
    let keep_get = |get: GetView| lease_held(now, get.last_activity);
    let keep_put = |put: PutOperation| lease_held(now, put.last_activity);
    assert(view.gets.map_values(get_key).no_duplicates()) by {
        assert forall|i: int, j: int| 0 <= i < j < view.gets.len() implies view.gets.map_values(
            get_key,
        )[i] != view.gets.map_values(get_key)[j] by {
            assert(view.used_ids()[i] != view.used_ids()[j]);
        }
    }
    assert(view.puts.map_values(put_key).no_duplicates()) by {
        assert forall|i: int, j: int| 0 <= i < j < view.puts.len() implies view.puts.map_values(
            put_key,
        )[i] != view.puts.map_values(put_key)[j] by {
            assert(view.used_ids()[base + i] != view.used_ids()[base + j]);
        }
    }
    lemma_filter_no_duplicates(view.gets, keep_get, get_key);
    lemma_filter_no_duplicates(view.puts, keep_put, put_key);
    let left = after.gets.len();
    assert forall|i: int, j: int| 0 <= i < j < after.used_ids().len() implies after.used_ids()[i]
        != after.used_ids()[j] by {
        if j < left {
            assert(after.gets.map_values(get_key)[i] != after.gets.map_values(get_key)[j]);
        } else if i >= left {
            assert(after.puts.map_values(put_key)[i - left] != after.puts.map_values(put_key)[j
                - left]);
        } else {
            assert(view.gets.contains(after.gets[i]));
            assert(view.puts.contains(after.puts[j - left]));
            let a = choose|a: int| 0 <= a < view.gets.len() && view.gets[a] == after.gets[i];
            let b = choose|b: int| 0 <= b < view.puts.len() && view.puts[b] == after.puts[j - left];
            assert(view.used_ids()[a] != view.used_ids()[base + b]);
        }
    }
    assert forall|i: int| 0 <= i < after.puts.len() implies (#[trigger] after.puts[i]).written
        <= after.puts[i].expected by {
        assert(view.puts.contains(after.puts[i]));
    }
}

/// What a client asks for.
#[derive(Clone, Copy, Debug, PartialEq, Eq, Structural)]
pub enum Operation {
    GetBegin,
    GetRead,
    GetClose,
    PutBegin,
    PutWrite,
    PutFinish,
    PutAbort,
    Head,
    Delete,
    Status,
    Unknown,
}

/// The numbers of the requests.
#[derive(Clone, Copy, Debug, PartialEq, Eq)]
pub struct Opcodes {
    pub get_begin: u32,
    pub get_read: u32,
    pub get_close: u32,
    pub put_begin: u32,
    pub put_write: u32,
    pub put_finish: u32,
    pub put_abort: u32,
    pub head: u32,
    pub delete: u32,
    pub status: u32,
}

/// The kind of request that a number stands for.
pub open spec fn operation_for(codes: Opcodes, opcode: u32) -> Operation {
    if opcode == codes.get_begin {
        Operation::GetBegin
    } else if opcode == codes.get_read {
        Operation::GetRead
    } else if opcode == codes.get_close {
        Operation::GetClose
    } else if opcode == codes.put_begin {
        Operation::PutBegin
    } else if opcode == codes.put_write {
        Operation::PutWrite
    } else if opcode == codes.put_finish {
        Operation::PutFinish
    } else if opcode == codes.put_abort {
        Operation::PutAbort
    } else if opcode == codes.head {
        Operation::Head
    } else if opcode == codes.delete {
        Operation::Delete
    } else if opcode == codes.status {
        Operation::Status
    } else {
        Operation::Unknown
    }
}

/// Tell a request's kind by its number.
pub fn operation_of(codes: &Opcodes, opcode: u32) -> (operation: Operation)
    ensures
        operation == operation_for(*codes, opcode),
{
    if opcode == codes.get_begin {
        Operation::GetBegin
    } else if opcode == codes.get_read {
        Operation::GetRead
    } else if opcode == codes.get_close {
        Operation::GetClose
    } else if opcode == codes.put_begin {
        Operation::PutBegin
    } else if opcode == codes.put_write {
        Operation::PutWrite
    } else if opcode == codes.put_finish {
        Operation::PutFinish
    } else if opcode == codes.put_abort {
        Operation::PutAbort
    } else if opcode == codes.head {
        Operation::Head
    } else if opcode == codes.delete {
        Operation::Delete
    } else if opcode == codes.status {
        Operation::Status
    } else {
        Operation::Unknown
    }
}

/// One request message.
pub struct Message {
    pub operation: Operation,
    pub owner: ClientIdentity,
    /// Monotonic seconds, or zero without a clock.
    pub now: u64,
    pub arg0: u64,
    /// The object request that came along, where it could be decoded.
    pub request: Option<ObjectRequest>,
    /// The body memory that came along.
    pub memory: BodyMemory,
}

/// What has to be done for a message.
pub enum Action {
    /// Answer, and count the request.
    Reply(Result<u64, S3Error>),
    /// Send the signed request and start the GET with what comes back.
    StartGet { id: u64, request: ObjectRequest },
    /// Send the signed request head and start the PUT.
    StartPut { id: u64, request: ObjectRequest },
    /// Answer with body bytes.
    SendChunk { id: u64, bytes: Vec<u8> },
    /// Answer that the body is complete.
    SendEnd { id: u64 },
    /// Receive more of the body and read again.
    Receive { id: u64 },
    /// Close the transport of an ended GET and answer zero.
    CloseGet { id: u64 },
    /// Close the transport of an ended PUT and answer zero.
    ClosePut { id: u64 },
    /// Send `len` bytes of the message's memory.
    SendBody { id: u64, len: u64 },
    /// Check the digest of a complete upload and read the response.
    Finish { put: PutOperation },
    /// Send a request without a body and answer with its response.
    Exchange { method: Method, request: ObjectRequest },
}

/// `after` and `taken` are the outcome of taking a PUT to finish it.
pub open spec fn put_taken(
    before: ServiceView,
    id: u64,
    owner: ClientIdentity,
    after: ServiceView,
    taken: Result<PutOperation, S3Error>,
) -> bool {
    &&& put_closed(before, id, owner, after, before.has_put(id, owner))
    &&& match taken {
        Ok(put) => put.written == put.expected && exists|i: int| #[trigger]
            before.owns_put(id, owner, i) && before.puts[i] == put,
        Err(error) => if before.has_put(id, owner) {
            error == S3Error::Invalid && exists|i: int| #[trigger]
                before.owns_put(id, owner, i) && before.puts[i].written
                    != before.puts[i].expected
        } else {
            error == S3Error::Denied
        },
    }
}

/// The one-word status of an instance.
pub open spec fn summary_of(profile: ProfileView) -> int {
    profile.rights % 0x1_0000_0000 + (if profile.tls {
        0x1_0000_0000int
    } else {
        0int
    }) + profile.port * 0x100_0000_0000
}

/// The answer to a HEAD or DELETE, before anything is sent.
pub open spec fn simple_checked(
    rights: u64,
    request: ObjectRequest,
    method: Method,
    numbers: ProtocolNumbers,
) -> Result<(), S3Error> {
    if !plain_request(request) {
        Err(S3Error::Invalid)
    } else if rights & (if method == Method::Head {
        numbers.right_get
    } else {
        numbers.right_delete
    }) == 0 {
        Err(S3Error::Denied)
    } else {
        Ok(())
    }
}

/// `action` and `after` are the outcome of a message, once expired operations
/// are gone.
pub open spec fn handled(
    before: ServiceView,
    profile: ProfileView,
    numbers: ProtocolNumbers,
    message: Message,
    after: ServiceView,
    action: Action,
) -> bool {
    let owner = message.owner;
    match message.operation {
        Operation::GetBegin => match message.request {
            None => action == Action::Reply(Err(S3Error::Invalid)) && after == before,
            Some(asked) => match action {
                Action::StartGet { id, request } => request == asked && slot_granted(
                    before,
                    numbers.right_get,
                    get_request_ok(asked, numbers),
                    after,
                    Ok(id),
                ),
                Action::Reply(Err(error)) => slot_granted(
                    before,
                    numbers.right_get,
                    get_request_ok(asked, numbers),
                    after,
                    Err(error),
                ),
                _ => false,
            },
        },
        Operation::PutBegin => match message.request {
            None => action == Action::Reply(Err(S3Error::Invalid)) && after == before,
            Some(asked) => match action {
                Action::StartPut { id, request } => request == asked && slot_granted(
                    before,
                    numbers.right_put,
                    put_request_ok(asked, numbers),
                    after,
                    Ok(id),
                ),
                Action::Reply(Err(error)) => slot_granted(
                    before,
                    numbers.right_put,
                    put_request_ok(asked, numbers),
                    after,
                    Err(error),
                ),
                _ => false,
            },
        },
        Operation::GetRead => {
            let max = numbers.max_chunk_len;
            match action {
                Action::SendChunk { id, bytes } => id == message.arg0 && get_read(
                    before,
                    id,
                    owner,
                    message.now,
                    max,
                    after,
                    Some(ReadStep::Chunk(bytes)),
                ),
                Action::SendEnd { id } => id == message.arg0 && get_read(
                    before,
                    id,
                    owner,
                    message.now,
                    max,
                    after,
                    Some(ReadStep::End),
                ),
                Action::Receive { id } => id == message.arg0 && get_read(
                    before,
                    id,
                    owner,
                    message.now,
                    max,
                    after,
                    Some(ReadStep::Receive),
                ),
                Action::Reply(Err(S3Error::Transport)) => get_read(
                    before,
                    message.arg0,
                    owner,
                    message.now,
                    max,
                    after,
                    Some(ReadStep::Overrun),
                ),
                Action::Reply(Err(S3Error::Invalid)) => get_read(
                    before,
                    message.arg0,
                    owner,
                    message.now,
                    max,
                    after,
                    None,
                ),
                _ => false,
            }
        },
        Operation::GetClose => match action {
            Action::CloseGet { id } => id == message.arg0 && get_closed(
                before,
                id,
                owner,
                after,
                true,
            ),
            Action::Reply(Err(S3Error::Invalid)) => get_closed(
                before,
                message.arg0,
                owner,
                after,
                false,
            ),
            _ => false,
        },
        Operation::PutWrite => {
            let target = message.arg0 % 0x1_0000_0000;
            let count = message.arg0 / 0x1_0000_0000;
            match write_checked(
                before,
                target,
                owner,
                count,
                message.memory,
                numbers.max_chunk_len,
            ) {
                Ok(_) => action == (Action::SendBody { id: target, len: count }) && after == before,
                Err(S3Error::Transport) => action == Action::Reply(Err(S3Error::Transport))
                    && put_closed(before, target, owner, after, true),
                Err(error) => action == Action::Reply(Err(error)) && after == before,
            }
        },
        Operation::PutFinish => match action {
            Action::Finish { put } => put_taken(before, message.arg0, owner, after, Ok(put)),
            Action::Reply(Err(error)) => put_taken(
                before,
                message.arg0,
                owner,
                after,
                Err(error),
            ),
            _ => false,
        },
        Operation::PutAbort => match action {
            Action::ClosePut { id } => id == message.arg0 && put_closed(
                before,
                id,
                owner,
                after,
                true,
            ),
            Action::Reply(Err(S3Error::Invalid)) => put_closed(
                before,
                message.arg0,
                owner,
                after,
                false,
            ),
            _ => false,
        },
        Operation::Head | Operation::Delete => {
            let verb = if message.operation == Operation::Head {
                Method::Head
            } else {
                Method::Delete
            };
            &&& after == before
            &&& match message.request {
                None => action == Action::Reply(Err(S3Error::Invalid)),
                Some(asked) => match simple_checked(before.rights, asked, verb, numbers) {
                    Ok(_) => action == (Action::Exchange { method: verb, request: asked }),
                    Err(error) => action == Action::Reply(Err(error)),
                },
            }
        },
        Operation::Status => action == Action::Reply(Ok(summary_of(profile) as u64)) && after
            == before,
        Operation::Unknown => action == Action::Reply(Err(S3Error::BadOpcode)) && after == before,
    }
}

impl Service {
    /// Decide what a message asks for.
    ///
    /// Expired operations are dropped first, so a client finds its operation
    /// only while the lease holds.
    pub fn handle(&mut self, message: Message) -> (action: Action)
        requires
            old(self).inv(),
        ensures
            final(self).inv(),
            final(self).numbers() == old(self).numbers(),
            final(self).profile() == old(self).profile(),
            handled(
                swept(old(self)@, message.now),
                old(self).profile()@,
                old(self).numbers(),
                message,
                final(self)@,
                action,
            ),
    {
        self.sweep_expired(message.now);
        let owner: ClientIdentity = message.owner;
        match message.operation {
            Operation::GetBegin => match message.request {
                Some(request) => match self.admit_get(&request) {
                    Ok(id) => Action::StartGet { id, request },
                    Err(error) => Action::Reply(Err(error)),
                },
                None => Action::Reply(Err(S3Error::Invalid)),
            },
            Operation::GetRead => match self.read(message.arg0, owner, message.now) {
                Some(ReadStep::Chunk(bytes)) => Action::SendChunk { id: message.arg0, bytes },
                Some(ReadStep::End) => Action::SendEnd { id: message.arg0 },
                Some(ReadStep::Receive) => Action::Receive { id: message.arg0 },
                Some(ReadStep::Overrun) => Action::Reply(Err(S3Error::Transport)),
                None => Action::Reply(Err(S3Error::Invalid)),
            },
            Operation::GetClose => if self.close_get(message.arg0, owner) {
                Action::CloseGet { id: message.arg0 }
            } else {
                Action::Reply(Err(S3Error::Invalid))
            },
            Operation::PutBegin => match message.request {
                Some(request) => match self.admit_put(&request) {
                    Ok(id) => Action::StartPut { id, request },
                    Err(error) => Action::Reply(Err(error)),
                },
                None => Action::Reply(Err(S3Error::Invalid)),
            },
            Operation::PutWrite => {
                let id: u64 = message.arg0 % 0x1_0000_0000;
                let len: u64 = message.arg0 / 0x1_0000_0000;
                match self.check_write(id, owner, len, message.memory) {
                    Ok(_) => Action::SendBody { id, len },
                    Err(error) => {
                        if error == S3Error::Transport {
                            let closed: bool = self.close_put(id, owner);
                        }
                        Action::Reply(Err(error))
                    },
                }
            },
            Operation::PutFinish => match self.take_put(message.arg0, owner) {
                Ok(put) => Action::Finish { put },
                Err(error) => Action::Reply(Err(error)),
            },
            Operation::PutAbort => if self.close_put(message.arg0, owner) {
                Action::ClosePut { id: message.arg0 }
            } else {
                Action::Reply(Err(S3Error::Invalid))
            },
            Operation::Head => match message.request {
                Some(request) => match self.admit_simple(&request, Method::Head) {
                    Ok(_) => Action::Exchange { method: Method::Head, request },
                    Err(error) => Action::Reply(Err(error)),
                },
                None => Action::Reply(Err(S3Error::Invalid)),
            },
            Operation::Delete => match message.request {
                Some(request) => match self.admit_simple(&request, Method::Delete) {
                    Ok(_) => Action::Exchange { method: Method::Delete, request },
                    Err(error) => Action::Reply(Err(error)),
                },
                None => Action::Reply(Err(S3Error::Invalid)),
            },
            Operation::Status => Action::Reply(Ok(self.status_summary())),
            Operation::Unknown => Action::Reply(Err(S3Error::BadOpcode)),
        }
    }
}

/// A client can only read, close, write, finish or abort an operation of its
/// own: for anyone else nothing changes.
pub proof fn law_operations_belong_to_their_owner(
    before: ServiceView,
    profile: ProfileView,
    numbers: ProtocolNumbers,
    message: Message,
    after: ServiceView,
    action: Action,
)
    requires
        handled(before, profile, numbers, message, after, action),
        match message.operation {
            Operation::GetRead | Operation::GetClose => !before.has_get(
                message.arg0,
                message.owner,
            ),
            Operation::PutFinish | Operation::PutAbort => !before.has_put(
                message.arg0,
                message.owner,
            ),
            Operation::PutWrite => !before.has_put(message.arg0 % 0x1_0000_0000, message.owner),
            _ => false,
        },
    ensures
        after == before,
        action matches Action::Reply(Err(_)),
{
}

/// What a request asks for is what is sent, and only under the right for it: a
/// DELETE for a deletion, a HEAD for a head, a GET or PUT where one begins.
pub proof fn law_requests_are_sent_as_asked(
    before: ServiceView,
    profile: ProfileView,
    numbers: ProtocolNumbers,
    message: Message,
    after: ServiceView,
    action: Action,
)
    requires
        handled(before, profile, numbers, message, after, action),
    ensures
        action matches Action::Exchange { method, request } ==> {
            &&& message.request == Some(request)
            &&& (message.operation == Operation::Delete && method == Method::Delete
                && before.rights & numbers.right_delete != 0) || (message.operation
                == Operation::Head && method == Method::Head && before.rights & numbers.right_get
                != 0)
        },
        action matches Action::StartGet { id, request } ==> message.operation
            == Operation::GetBegin && message.request == Some(request) && before.rights
            & numbers.right_get != 0 && !before.used_ids().contains(id),
        action matches Action::StartPut { id, request } ==> message.operation
            == Operation::PutBegin && message.request == Some(request) && before.rights
            & numbers.right_put != 0 && !before.used_ids().contains(id),
        action matches Action::SendBody { id, len } ==> message.operation == Operation::PutWrite
            && message.arg0 == len * 0x1_0000_0000 + id && id <= u32::MAX && len > 0 && len
            <= numbers.max_chunk_len && before.has_put(id, message.owner),
        action matches Action::Finish { put } ==> message.operation == Operation::PutFinish
            && put.id == message.arg0 && put.owner == message.owner && put.written == put.expected,
        action matches Action::SendChunk { id, bytes } ==> message.operation == Operation::GetRead
            && id == message.arg0 && before.has_get(id, message.owner),
        action matches Action::SendEnd { id } ==> message.operation == Operation::GetRead && id
            == message.arg0 && before.has_get(id, message.owner),
        action matches Action::Receive { id } ==> message.operation == Operation::GetRead && id
            == message.arg0 && before.has_get(id, message.owner),
        action matches Action::CloseGet { id } ==> message.operation == Operation::GetClose && id
            == message.arg0 && before.has_get(id, message.owner) && after.puts == before.puts,
        action matches Action::ClosePut { id } ==> message.operation == Operation::PutAbort && id
            == message.arg0 && before.has_put(id, message.owner) && after.gets == before.gets,
        action matches Action::Reply(Ok(word)) ==> message.operation == Operation::Status,
{
}

/// A plain request for an object is never refused where the profile has the right
/// for it and there is room.
pub proof fn law_granted_requests_are_admitted(
    before: ServiceView,
    profile: ProfileView,
    numbers: ProtocolNumbers,
    message: Message,
    after: ServiceView,
    action: Action,
)
    requires
        handled(before, profile, numbers, message, after, action),
        message.request is Some,
        message.request->0.flags == 0,
        message.request->0.content_length == 0,
        message.request->0.range_start == 0,
        message.request->0.range_end == 0,
        forall|i: int| 0 <= i < 32 ==> message.request->0.payload_sha256[i] == 0,
    ensures
        message.operation == Operation::Delete && before.rights & numbers.right_delete != 0
            ==> action is Exchange,
        message.operation == Operation::Head && before.rights & numbers.right_get != 0
            ==> action is Exchange,
        message.operation == Operation::GetBegin && before.rights & numbers.right_get != 0
            && before.gets.len() + before.puts.len() < 8 ==> action is StartGet,
        message.operation == Operation::PutBegin && before.rights & numbers.right_put != 0
            && before.gets.len() + before.puts.len() < 8 ==> action is StartPut,
        message.operation == Operation::Delete && before.rights & numbers.right_delete == 0
            ==> action == Action::Reply(Err(S3Error::Denied)),
        message.operation == Operation::Head && before.rights & numbers.right_get == 0
            ==> action == Action::Reply(Err(S3Error::Denied)),
        message.operation == Operation::GetBegin && before.rights & numbers.right_get == 0
            ==> action == Action::Reply(Err(S3Error::Denied)),
        message.operation == Operation::PutBegin && before.rights & numbers.right_put == 0
            ==> action == Action::Reply(Err(S3Error::Denied)),
{
    let flags = 0u16;
    let absent = numbers.flag_if_none_match;
    let range = numbers.flag_range;
    assert(0u16 & absent == 0) by (bit_vector);
    assert(0u16 & range == 0) by (bit_vector);
}

/// A path leads into the bucket, below the prefix, to the key: different keys
/// have different paths.
pub proof fn law_path_leads_to_the_key(profile: ProfileView, key: Seq<u8>, other: Seq<u8>)
    ensures
        ({
            let path = path_of(profile, key);
            let bucket = profile.bucket.len() as int;
            let below = path.len() - key.len();
            &&& path.len() >= bucket + 2 + key.len()
            &&& path[0] == 47
            &&& path.subrange(1, 1 + bucket) == profile.bucket
            &&& path[1 + bucket] == 47
            &&& path[below - 1] == 47
            &&& path.skip(below) == key
            &&& profile.prefix.len() > 0 ==> path.subrange(2 + bucket, below - 1) == text::trimmed(
                profile.prefix,
            )
            &&& profile.prefix.len() == 0 ==> below == 2 + bucket
        }),
        path_of(profile, key) == path_of(profile, other) ==> key == other,
{
    let path = path_of(profile, key);
    let bucket = profile.bucket.len() as int;
    let below = path.len() - key.len();
    assert(path.subrange(1, 1 + bucket) =~= profile.bucket);
    assert(path.skip(below) =~= key);
    if profile.prefix.len() > 0 {
        assert(path.subrange(2 + bucket, below - 1) =~= text::trimmed(profile.prefix));
    }
    if path == path_of(profile, other) {
        assert(path_of(profile, other).skip(below) =~= other);
    }
}

/// A lease lasts 300 seconds from the last activity: a sweep keeps an operation
/// exactly that long.
pub proof fn law_leases_last_five_minutes(
    view: ServiceView,
    now: u64,
    get: GetView,
    put: PutOperation,
)
    ensures
        swept(view, now).gets.contains(get) <==> view.gets.contains(get) && now
            <= get.last_activity + 300,
        swept(view, now).puts.contains(put) <==> view.puts.contains(put) && now
            <= put.last_activity + 300,
{
    let keep_get = |get: GetView| lease_held(now, get.last_activity);
    let keep_put = |put: PutOperation| lease_held(now, put.last_activity);
    lemma_filter_contains(view.gets, keep_get, get);
    lemma_filter_contains(view.puts, keep_put, put);
}

proof fn lemma_filter_contains<T>(items: Seq<T>, keep: spec_fn(T) -> bool, item: T)
    ensures
        items.filter(keep).contains(item) <==> items.contains(item) && keep(item),
    decreases items.len(),
{
    reveal(Seq::filter);
    if items.len() > 0 {
        let rest = items.drop_last();
        lemma_filter_contains(rest, keep, item);
        let kept = rest.filter(keep);
        let last = items.last();
        if items.contains(item) && keep(item) {
            let i = choose|i: int| 0 <= i < items.len() && items[i] == item;
            if i < rest.len() {
                assert(rest[i] == item);
                let k = choose|k: int| 0 <= k < kept.len() && kept[k] == item;
                assert(items.filter(keep)[k] == item);
            } else {
                assert(items.filter(keep)[kept.len() as int] == item);
            }
        }
        if items.filter(keep).contains(item) {
            let k = choose|k: int| 0 <= k < items.filter(keep).len() && items.filter(keep)[k] == item;
            if k < kept.len() {
                assert(kept[k] == item);
                let i = choose|i: int| 0 <= i < rest.len() && rest[i] == item;
                assert(items[i] == item);
            } else {
                assert(items[items.len() - 1] == item);
            }
        }
    }
}

/// A GET starts with a response that succeeded and tells its length, by a number
/// or by chunks; every other response is an error.
pub proof fn law_get_starts_with_a_success(
    id: u64,
    owner: ClientIdentity,
    now: u64,
    response: ResponseStart,
)
    ensures
        match started_get(id, owner, now, response) {
            Ok(get) => {
                &&& response.status == 200 || response.status == 206
                &&& get.id == id && get.owner == owner && get.last_activity == now
                &&& if response.chunked {
                    response.decoded matches Some((bytes, complete)) && get.pending == bytes@
                        && get.body == (Body::Chunked { complete })
                } else {
                    response.content_length matches Some(length) && get.pending
                        == response.initial@ && get.body == Body::Length(length)
                }
            },
            Err(S3Error::Protocol) => (response.status == 200 || response.status == 206) && if
                response.chunked {
                response.decoded is None
            } else {
                response.content_length is None
            },
            Err(S3Error::NotFound) => response.status == 404,
            Err(S3Error::Precondition) => response.status == 409 || response.status == 412,
            Err(error) => error == S3Error::Remote && response.status != 200 && response.status
                != 206,
        },
{
}

/// The outcome of a request without a body follows the status: success from 200
/// to 299, and for the rest its own error.
pub proof fn law_statuses_have_their_outcome(status: u16)
    ensures
        status_outcome(status) is Ok <==> 200 <= status <= 299,
        status_outcome(status) == Err::<(), S3Error>(S3Error::NotFound) <==> status == 404,
        status_outcome(status) == Err::<(), S3Error>(S3Error::Precondition) <==> status == 409
            || status == 412,
{
}

/// A write is taken exactly where its bytes are there, fit in one message, and
/// stay within what the upload announced.
pub proof fn law_writes_stay_within_the_upload(
    view: ServiceView,
    id: u64,
    owner: ClientIdentity,
    len: u64,
    memory: BodyMemory,
    max_chunk_len: usize,
    index: int,
)
    requires
        view.wf(),
        view.owns_put(id, owner, index),
    ensures
        write_checked(view, id, owner, len, memory, max_chunk_len) is Ok <==> 0 < len
            <= max_chunk_len && memory is Mapped && len <= memory->Mapped_0
            && view.puts[index].written + len <= view.puts[index].expected,
{
    if write_checked(view, id, owner, len, memory, max_chunk_len) is Ok {
        let other = choose|i: int| #[trigger]
            view.owns_put(id, owner, i) && view.puts[i].written + len <= view.puts[i].expected;
        lemma_put_unique(view, id, index, other);
    }
}

/// A served profile grants nothing beyond the four rights, has a place to go to,
/// and proves the server's identity where it is encrypted.
pub proof fn law_served_profile_is_sound(profile: ProfileView, numbers: ProtocolNumbers, right: u64)
    requires
        profile_ok(profile, numbers),
    ensures
        profile.port != 0,
        profile.host.len() > 0,
        profile.bucket.len() > 0,
        !profile.bucket.contains(47u8),
        profile.secret_key.len() > 0,
        profile.rights != 0,
        profile.tls ==> profile.ca_der.len() > 0,
        right & (numbers.right_get | numbers.right_put | numbers.right_delete
            | numbers.right_list) == 0 ==> profile.rights & right == 0,
        !text::dotted_path(profile.prefix),
        profile.prefix.len() > 0 ==> profile.prefix[0] != 47,
{
    let all = numbers.right_get | numbers.right_put | numbers.right_delete | numbers.right_list;
    let rights = profile.rights;
    assert(rights & !all == 0 && right & all == 0 ==> rights & right == 0) by (bit_vector);
    if profile.bucket.contains(47u8) {
        let i = choose|i: int| 0 <= i < profile.bucket.len() && profile.bucket[i] == 47u8;
        assert(profile.bucket[i] != 47);
    }
}

/// The methods go out under their names.
pub proof fn law_methods_have_their_names()
    ensures
        method_name(Method::Get) == seq![71u8, 69u8, 84u8],
        method_name(Method::Put) == seq![80u8, 85u8, 84u8],
        method_name(Method::Head) == seq![72u8, 69u8, 65u8, 68u8],
        method_name(Method::Delete) == seq![68u8, 69u8, 76u8, 69u8, 84u8, 69u8],
{
    reveal_strlit("GET");
    reveal_strlit("PUT");
    reveal_strlit("HEAD");
    reveal_strlit("DELETE");
    vstd::utf8::is_ascii_chars_encode_utf8("GET"@);
    vstd::utf8::is_ascii_chars_encode_utf8("PUT"@);
    vstd::utf8::is_ascii_chars_encode_utf8("HEAD"@);
    vstd::utf8::is_ascii_chars_encode_utf8("DELETE"@);
    assert(method_name(Method::Get) =~= seq![71u8, 69u8, 84u8]);
    assert(method_name(Method::Put) =~= seq![80u8, 85u8, 84u8]);
    assert(method_name(Method::Head) =~= seq![72u8, 69u8, 65u8, 68u8]);
    assert(method_name(Method::Delete) =~= seq![68u8, 69u8, 76u8, 69u8, 84u8, 69u8]);
}

/// The authority is the host, and the port where it is not the scheme's own.
pub proof fn law_authority_has_an_unusual_port(profile: ProfileView)
    ensures
        profile.tls && profile.port == 443 ==> authority_of(profile) == profile.host,
        !profile.tls && profile.port == 80 ==> authority_of(profile) == profile.host,
        (profile.tls && profile.port != 443) || (!profile.tls && profile.port != 80) ==> {
            let host = profile.host.len() as int;
            let authority = authority_of(profile);
            &&& authority.len() > host + 1
            &&& authority.take(host) == profile.host
            &&& authority[host] == 58
            &&& text::spelled(authority.skip(host + 1)) == profile.port
        },
{
    let host = profile.host.len() as int;
    text::law_decimal_spells_the_number(profile.port as nat);
    if !default_port(profile) {
        assert(authority_of(profile).take(host) =~= profile.host);
        assert(authority_of(profile).skip(host + 1) =~= text::decimal(profile.port as nat));
    }
}

/// A range is asked for exactly where the request has the flag, from its first byte
/// on, and up to its last where it has one.
pub proof fn law_range_names_first_and_last_byte(request: ObjectRequest, numbers: ProtocolNumbers)
    ensures
        range_of(request, numbers) is Some <==> request.flags & numbers.flag_range != 0,
        range_of(request, numbers) matches Some(range) ==> {
            let first = text::decimal(request.range_start as nat);
            &&& range.take(6) == seq![98u8, 121u8, 116u8, 101u8, 115u8, 61u8]
            &&& range.subrange(6, 6 + first.len() as int) == first
            &&& text::spelled(first) == request.range_start
            &&& range[6 + first.len() as int] == 45
            &&& request.range_end == 0 ==> range.len() == 7 + first.len()
            &&& request.range_end > 0 ==> text::spelled(range.skip(7 + first.len() as int))
                == request.range_end - 1
        },
{
    reveal_strlit("bytes=");
    vstd::utf8::is_ascii_chars_encode_utf8("bytes="@);
    let unit = text::utf8("bytes=");
    assert(unit =~= seq![98u8, 121u8, 116u8, 101u8, 115u8, 61u8]);
    let first = text::decimal(request.range_start as nat);
    text::law_decimal_spells_the_number(request.range_start as nat);
    if request.range_end > 0 {
        text::law_decimal_spells_the_number((request.range_end - 1) as nat);
    }
    if let Some(range) = range_of(request, numbers) {
        assert(range.take(6) =~= unit);
        assert(range.subrange(6, 6 + first.len() as int) =~= first);
        if request.range_end > 0 {
            assert(range.skip(7 + first.len() as int) =~= text::decimal(
                (request.range_end - 1) as nat,
            ));
        }
    }
}

/// The digest of an upload is signed as it was announced, that of all else as that of
/// no bytes; and only an upload has a length.
pub proof fn law_only_uploads_have_a_payload(request: ObjectRequest, method: Method, at: int)
    requires
        0 <= at < 32,
    ensures
        method != Method::Put ==> payload_hash_of(request, method) == empty_payload_hash()
            && length_of(request, method) is None,
        method == Method::Put ==> {
            let hash = payload_hash_of(request, method);
            &&& hash.len() == 64
            &&& text::digit_value(hash[2 * at]) * 16 + text::digit_value(hash[2 * at + 1])
                == request.payload_sha256[at]
            &&& length_of(request, method) is Some
            &&& text::spelled(length_of(request, method)->0) == request.content_length
        },
{
    text::law_hex_spells_every_byte(request.payload_sha256@, at);
    text::law_decimal_spells_the_number(request.content_length as nat);
}

/// What a request is signed with: its authority, payload and date always; the
/// namespace, the range and the condition exactly where there is one.
pub proof fn law_signed_headers_are_those_sent(
    profile: ProfileView,
    request: ObjectRequest,
    method: Method,
    amz_date: Seq<u8>,
    numbers: ProtocolNumbers,
)
    ensures
        ({
            let headers = signed_headers(profile, request, method, amz_date, numbers);
            let named = if profile.namespace is Some {
                1int
            } else {
                0
            };
            let ranged = if request.flags & numbers.flag_range != 0 {
                1int
            } else {
                0
            };
            let absent = if request.flags & numbers.flag_if_none_match != 0 {
                1int
            } else {
                0
            };
            &&& headers.len() == 3 + named + ranged + absent
            &&& headers[0] == (text::utf8("host"), authority_of(profile))
            &&& headers[1] == (
                text::utf8("x-amz-content-sha256"),
                payload_hash_of(request, method),
            )
            &&& headers[2] == (text::utf8("x-amz-date"), amz_date)
            &&& named == 1 ==> headers[3] == (
                text::utf8("x-emc-namespace"),
                profile.namespace->0,
            )
            &&& ranged == 1 ==> headers[3 + named] == (
                text::utf8("range"),
                range_of(request, numbers)->0,
            )
            &&& absent == 1 ==> headers[3 + named + ranged] == (
                text::utf8("if-none-match"),
                text::utf8("*"),
            )
        }),
{
}

/// A manifest describes a profile where it has all that one needs; encryption is asked
/// for by a one, and decides the port and the region where they are not given.
pub proof fn law_manifest_fills_in_what_is_usual(manifest: Manifest)
    ensures
        manifest_profile(manifest) is Some ==> {
            let profile = manifest_profile(manifest)->0;
            &&& profile.ip@ == entry_bytes(manifest.ip)->0
            &&& Some(profile.host) == entry_text(manifest.host)
            &&& Some(profile.bucket) == entry_text(manifest.bucket)
            &&& Some(profile.access_key) == entry_text(manifest.access_key)
            &&& Some(profile.secret_key) == entry_bytes(manifest.secret_key)
            &&& profile.namespace == entry_text(manifest.namespace)
            &&& manifest.port is None && profile.tls ==> profile.port == 443
            &&& manifest.port is None && !profile.tls ==> profile.port == 80
            &&& manifest.region is None ==> profile.region == seq![
                117u8, 115u8, 45u8, 101u8, 97u8, 115u8, 116u8, 45u8, 49u8,
            ]
            &&& manifest.prefix is None ==> profile.prefix.len() == 0
            &&& manifest.ca_der is None ==> profile.ca_der.len() == 0
            &&& manifest.tls is None ==> !profile.tls
            &&& manifest.tls matches Some(ManifestValue::Unsigned(value)) ==> profile.tls == (value
                == 1)
            &&& manifest.rights matches Some(ManifestValue::Unsigned(rights)) ==> profile.rights
                == rights
            &&& manifest.port matches Some(ManifestValue::Unsigned(port)) ==> profile.port == port
        },
        manifest.rights is None ==> manifest_profile(manifest) is None,
        manifest.host is None ==> manifest_profile(manifest) is None,
        manifest.bucket is None ==> manifest_profile(manifest) is None,
        manifest.access_key is None ==> manifest_profile(manifest) is None,
        manifest.secret_key is None ==> manifest_profile(manifest) is None,
        manifest.ip is None ==> manifest_profile(manifest) is None,
{
    assert(DEFAULT_REGION@ =~= seq![
        117u8, 115u8, 45u8, 101u8, 97u8, 115u8, 116u8, 45u8, 49u8,
    ]);
    if manifest_profile(manifest) is Some {
        assert(manifest_profile(manifest)->0.ip@ =~= entry_bytes(manifest.ip)->0);
    }
}

/// An upload begins with nothing written of what was announced, moves on by what went
/// out, and is finished only where all of it did and its digest is the announced one.
pub proof fn law_upload_moves_on_by_what_went_out(
    id: u64,
    owner: ClientIdentity,
    now: u64,
    later: u64,
    request: ObjectRequest,
    len: u64,
    digest: [u8; 32],
)
    requires
        len <= request.content_length,
    ensures
        ({
            let begun = begun_put(id, owner, now, request);
            let moved = advanced_put(begun, len, later);
            &&& begun.id == id && begun.owner == owner && begun.last_activity == now
            &&& begun.written == 0 && begun.expected == request.content_length
            &&& moved.written == len
            &&& moved.last_activity == later
            &&& moved.expected == begun.expected && moved.id == id && moved.owner == owner
            &&& digest_checked(moved, digest) is Ok <==> digest@ == request.payload_sha256@
            &&& digest_checked(moved, digest) is Err ==> digest_checked(moved, digest)->Err_0
                == S3Error::Invalid
        }),
{
}

/// Bytes that come in for a download are the next to be read; whether they are the
/// last is known from the length, or said with them.
pub proof fn law_supplied_bytes_are_read_next(get: GetView, bytes: Seq<u8>, complete: bool)
    ensures
        supplied_get(get, bytes, complete).pending == bytes,
        supplied_get(get, bytes, complete).id == get.id,
        supplied_get(get, bytes, complete).owner == get.owner,
        supplied_get(get, bytes, complete).last_activity == get.last_activity,
        get.body is Length ==> supplied_get(get, bytes, complete).body == get.body,
        get.body is Chunked ==> supplied_get(get, bytes, complete).body == (Body::Chunked {
            complete,
        }),
{
}

/// A step of a download gives the next bytes, at most as many as fit in a message;
/// with none there it asks for more, or ends where all were read.
pub proof fn law_reads_give_the_next_bytes(
    before: GetView,
    max_chunk_len: usize,
    after: GetView,
    step: ReadStep,
)
    requires
        read_step(before, max_chunk_len, after, step),
        max_chunk_len > 0,
    ensures
        step is Chunk ==> step->Chunk_0@.len() > 0 && step->Chunk_0@.len() <= max_chunk_len
            && step->Chunk_0@ + after.pending == before.pending,
        before.pending.len() == 0 && before.body == Body::Length(0) ==> step is End,
        before.pending.len() == 0 && before.body == (Body::Chunked { complete: true }) ==> step
            is End,
        before.pending.len() == 0 && before.body is Length && before.body->Length_0 > 0 ==> step
            is Receive,
        before.pending.len() == 0 && before.body == (Body::Chunked { complete: false }) ==> step
            is Receive,
        before.pending.len() > 0 ==> step is Chunk || step is Overrun,
        before.pending.len() > 0 && before.body is Length && before.body->Length_0
            >= before.pending.len() ==> step is Chunk,
        step is Overrun ==> before.body is Length && before.body->Length_0
            < before.pending.len(),
{
    let chunk = next_chunk(before.pending, max_chunk_len);
    if before.pending.len() > 0 {
        assert(chunk + before.pending.skip(chunk.len() as int) =~= before.pending);
    }
}

/// Closing one operation leaves all others.
pub proof fn law_closing_leaves_the_others(
    before: ServiceView,
    id: u64,
    owner: ClientIdentity,
    after: ServiceView,
    index: int,
    other: int,
)
    requires
        before.owns_put(id, owner, index),
        put_closed(before, id, owner, after, true),
        0 <= other < before.puts.len(),
        other != index,
    ensures
        after.puts.len() == before.puts.len() - 1,
        after.puts.contains(before.puts[other]),
        after.gets == before.gets,
        after.rights == before.rights,
{
    let at = if other < index {
        other
    } else {
        other - 1
    };
    assert(after.puts[at] == before.puts[other]);
}

/// Rights, encryption and port can be read from the summary.
pub proof fn law_summary_is_readable(profile: ProfileView)
    ensures
        summary_of(profile) <= u64::MAX,
        summary_of(profile) % 0x1_0000_0000 == profile.rights as int % 0x1_0000_0000,
        (summary_of(profile) / 0x1_0000_0000) % 2 == 1 <==> profile.tls,
        summary_of(profile) / 0x100_0000_0000 == profile.port,
{
}

/// A head is read in at most sixteen further reads, and its time is told only by a
/// clock that is synchronized.
pub proof fn law_heads_and_clocks(len: usize, reads: usize, clock: ClockReading)
    ensures
        head_next(HeadParse::Complete(len), reads) == HeadStep::Done,
        head_next(HeadParse::Malformed, reads) == HeadStep::GiveUp,
        head_next(HeadParse::Incomplete, reads) == HeadStep::ReadMore <==> reads < 16,
        told_time(Some(clock)) is Some <==> clock.synchronized && clock.unix_seconds > 0,
        told_time(Some(clock)) matches Some(time) ==> time.0 == clock.utc && time.1
            == clock.unix_seconds,
        told_time(None) is None,
        run_seconds(Some(clock)) is Some <==> clock.counter_frequency_hz > 0,
        run_seconds(Some(clock)) matches Some(seconds) ==> seconds * clock.counter_frequency_hz
            <= clock.monotonic_ticks < (seconds + 1) * clock.counter_frequency_hz,
{
    if clock.counter_frequency_hz > 0 {
        let ticks = clock.monotonic_ticks as int;
        let hz = clock.counter_frequency_hz as int;
        let seconds = ticks / hz;
        assert(seconds * hz <= ticks < (seconds + 1) * hz) by (nonlinear_arith)
            requires
                seconds == ticks / hz,
                hz > 0,
        ;
    }
}

/// Every request is counted, and every failed one as such.
pub proof fn law_requests_are_counted(view: ServiceView, failed: bool)
    requires
        view.requests < u32::MAX,
        view.failures < u32::MAX,
    ensures
        accounted(view, failed).requests == view.requests + 1,
        accounted(view, true).failures == view.failures + 1,
        accounted(view, false).failures == view.failures,
        accounted(view, failed).gets == view.gets,
        accounted(view, failed).puts == view.puts,
{
}

/// A request that is not acceptable is told why: the right is missing, it is not
/// what its operation takes, or eight operations are under way.
pub proof fn law_slots_are_refused_only_for_a_reason(
    before: ServiceView,
    right: u64,
    acceptable: bool,
    after: ServiceView,
    result: Result<u64, S3Error>,
)
    requires
        slot_granted(before, right, acceptable, after, result),
    ensures
        result is Ok <==> before.rights & right != 0 && acceptable && before.gets.len()
            + before.puts.len() < 8,
        result == Err::<u64, S3Error>(S3Error::Denied) <==> before.rights & right == 0,
        result == Err::<u64, S3Error>(S3Error::Invalid) <==> before.rights & right != 0
            && !acceptable,
        after.gets == before.gets,
        after.puts == before.puts,
        result matches Ok(id) ==> !before.used_ids().contains(id) && 1 <= id <= 0xffff_ffff,
{
}

/// A request is carried out by its own number alone.
pub proof fn law_operations_by_their_number(codes: Opcodes, opcode: u32)
    ensures
        match operation_for(codes, opcode) {
            Operation::GetBegin => opcode == codes.get_begin,
            Operation::GetRead => opcode == codes.get_read,
            Operation::GetClose => opcode == codes.get_close,
            Operation::PutBegin => opcode == codes.put_begin,
            Operation::PutWrite => opcode == codes.put_write,
            Operation::PutFinish => opcode == codes.put_finish,
            Operation::PutAbort => opcode == codes.put_abort,
            Operation::Head => opcode == codes.head,
            Operation::Delete => opcode == codes.delete,
            Operation::Status => opcode == codes.status,
            Operation::Unknown => opcode != codes.get_begin && opcode != codes.get_read && opcode
                != codes.get_close && opcode != codes.put_begin && opcode != codes.put_write
                && opcode != codes.put_finish && opcode != codes.put_abort && opcode != codes.head
                && opcode != codes.delete && opcode != codes.status,
        },
{
}

/// A request's head is its lines: the method and path first, then who is asked, what
/// is sent, when and on whose authority, and an empty line at the end.
pub proof fn law_head_is_its_lines(
    profile: ProfileView,
    request: ObjectRequest,
    method: Method,
    path: Seq<u8>,
    amz_date: Seq<u8>,
    authorization: Seq<u8>,
    numbers: ProtocolNumbers,
)
    ensures
        ({
            let start = head_start(profile, request, method, path, amz_date, authorization);
            let first = method_name(method) + seq![32u8] + path;
            &&& start.len() >= first.len()
            &&& start.take(first.len() as int) == first
        }),
        ({
            let end = head_end(profile, request, method, numbers);
            let close = text::utf8("Connection: close\r\n\r\n");
            &&& end.len() >= close.len()
            &&& end.skip(end.len() - close.len()) == close
            &&& close.len() == 21
            &&& close[17] == 13 && close[18] == 10 && close[19] == 13 && close[20] == 10
            &&& profile.namespace is None && request.flags & numbers.flag_range == 0
                && request.flags & numbers.flag_if_none_match == 0 && method != Method::Put
                ==> end == close
        }),
        header_line("Range: ", path) == text::utf8("Range: ") + path + seq![13u8, 10u8],
        absent_line(request, numbers).len() > 0 ==> request.flags & numbers.flag_if_none_match != 0,
        optional_line("Range: ", None).len() == 0,
        optional_line("Range: ", Some(path)) == header_line("Range: ", path),
{
    let start = head_start(profile, request, method, path, amz_date, authorization);
    let first = method_name(method) + seq![32u8] + path;
    assert(start.take(first.len() as int) =~= first);
    let end = head_end(profile, request, method, numbers);
    let close = text::utf8("Connection: close\r\n\r\n");
    reveal_strlit("Connection: close\r\n\r\n");
    reveal_strlit("\r\n");
    vstd::utf8::is_ascii_chars_encode_utf8("Connection: close\r\n\r\n"@);
    vstd::utf8::is_ascii_chars_encode_utf8("\r\n"@);
    assert(text::utf8("\r\n") =~= seq![13u8, 10u8]);
    assert(end.skip(end.len() - close.len()) =~= close);
    if profile.namespace is None && request.flags & numbers.flag_range == 0 && request.flags
        & numbers.flag_if_none_match == 0 && method != Method::Put {
        assert(end =~= close);
    }
}

/// A key is taken where it is text that neither starts with a slash, holds a zero
/// byte, nor climbs out of its place.
pub proof fn law_keys_stay_in_their_place(key: Seq<u8>)
    requires
        key_ok(key),
    ensures
        key.len() > 0 ==> key[0] != 47,
        !key.contains(0u8),
        vstd::utf8::valid_utf8(key),
        !text::dotted_path(key),
        key != seq![46u8, 46u8],
        key != seq![46u8],
{
    if key == seq![46u8, 46u8] {
        assert(text::is_segment(key, 0, 2));
        assert(text::is_dots(key, 0, 2));
    }
    if key == seq![46u8] {
        assert(text::is_segment(key, 0, 1));
        assert(text::is_dots(key, 0, 1));
    }
}

/// A profile that comes as bytes is served as it came; an empty namespace is none.
pub proof fn law_raw_profile_is_served_as_it_came(raw: RawProfile)
    ensures
        ({
            let profile = raw_profile(raw);
            &&& profile.ip == raw.endpoint_ipv4
            &&& profile.host == raw.host@
            &&& profile.port == raw.port
            &&& profile.tls == raw.tls
            &&& profile.ca_der == raw.ca_certificate_der@
            &&& profile.region == raw.region@
            &&& profile.bucket == raw.bucket@
            &&& profile.prefix == raw.prefix@
            &&& profile.access_key == raw.access_key@
            &&& profile.secret_key == raw.secret_key@
            &&& profile.rights == raw.rights
            &&& profile.namespace is None <==> raw.namespace@.len() == 0
            &&& profile.namespace is Some ==> profile.namespace->0 == raw.namespace@
        }),
        raw_texts_ok(raw) ==> vstd::utf8::valid_utf8(raw.host@) && vstd::utf8::valid_utf8(
            raw.bucket@,
        ) && vstd::utf8::valid_utf8(raw.region@) && vstd::utf8::valid_utf8(raw.prefix@)
            && vstd::utf8::valid_utf8(raw.access_key@),
{
}

} // verus!
