//! Configuration model: fingerprint profiles and upstream proxy settings.
//! The JSON file that fills it is read outside; the crate holds the values
//! and the defaults.

use vstd::prelude::*;

use crate::util::str_eq;
use vstd::string::StringSliceAdditionalSpecFns;

verus! {

/// Upstream proxy choice and endpoint.
pub struct ProxySettings {
    pub proxy_host: String,
    pub proxy_port: u16,
    /// One of "direct", "socks5", "http", "https".
    pub proxy_type: String,
    pub username: Option<String>,
    pub password: Option<String>,
}

impl Default for ProxySettings {
    /// The built-in default: direct mode, no upstream proxy.
    fn default() -> (r: Self)
        ensures
            r.proxy_host@ == "127.0.0.1"@,
            r.proxy_port == 1080,
            r.proxy_type@ == "direct"@,
            r.username is None,
            r.password is None,
    {
        ProxySettings {
            proxy_host: String::from_str("127.0.0.1"),
            proxy_port: 1080,
            proxy_type: String::from_str("direct"),
            username: None,
            password: None,
        }
    }
}

/// Whether a proxy-type string reads "direct", ASCII case ignored: its
/// UTF-8 bytes, lowercased where they are ASCII letters, spell it.
pub open spec fn spec_is_direct(t: Seq<char>) -> bool {
    ascii_lower_bytes(vstd::utf8::encode_utf8(t)) == "direct".spec_bytes()
}

/// Lowercases the ASCII letters of a byte string.
pub open spec fn ascii_lower_bytes(s: Seq<u8>) -> Seq<u8> {
    Seq::new(s.len(), |i: int| ascii_lower_byte(s[i]))
}

/// Lowercases one ASCII letter byte; other bytes pass through.
pub open spec fn ascii_lower_byte(b: u8) -> u8 {
    if 65 <= b <= 90 {
        (b + 32) as u8
    } else {
        b
    }
}

impl ProxySettings {
    /// Whether the settings name direct mode, case-insensitively.
    pub fn is_direct(&self) -> (r: bool)
        ensures
            r == spec_is_direct(self.proxy_type@),
    {
        is_direct_str(self.proxy_type.as_str())
    }
}

/// Whether a string reads "direct", ASCII case ignored.
fn is_direct_str(t: &str) -> (r: bool)
    ensures
        r == spec_is_direct(t@),
{
    let b = t.as_bytes();
    let mut lowered: Vec<u8> = Vec::new();
    let mut i: usize = 0;
    while i < b.len()
        invariant
            i <= b@.len(),
            lowered@.len() == i,
            forall|j: int| 0 <= j < i ==> #[trigger] lowered@[j] == ascii_lower_byte(b@[j]),
        decreases b@.len() - i,
    {
        let c = b[i];
        if c >= 65 && c <= 90 {
            lowered.push(c + 32);
        } else {
            lowered.push(c);
        }
        i = i + 1;
    }
    proof {
        assert(lowered@ =~= ascii_lower_bytes(b@));
    }
    crate::util::bytes_eq(lowered.as_slice(), "direct".as_bytes())
}

/// The views of a list of strings, in order.
pub open spec fn str_views(v: Seq<String>) -> Seq<Seq<char>> {
    Seq::new(v.len(), |i: int| v[i]@)
}

/// One named fingerprint profile.
pub struct FingerprintProfile {
    pub name: String,
    pub cipher_suites: Vec<String>,
    pub extensions: Vec<String>,
    pub supported_versions: Vec<String>,
    pub alpn: Vec<String>,
    pub signature_algorithms: Vec<String>,
    pub key_share_groups: Vec<String>,
    pub psk_key_exchange_modes: Vec<String>,
    pub compress_certificate: Vec<String>,
}

/// The whole configuration: profiles, the default profile's name, and the
/// upstream proxy settings.
pub struct Config {
    pub profiles: Vec<FingerprintProfile>,
    pub default_profile: String,
    pub proxy_settings: ProxySettings,
}

impl Default for Config {
    /// The built-in default: the emulated client profile, direct mode.
    fn default() -> (r: Self)
        ensures
            r.default_profile@ == "ios_safari"@,
            r.profiles@.len() == 1,
            r.profiles@[0].name@ == "ios_safari"@,
            r.proxy_settings.proxy_host@ == "127.0.0.1"@,
            r.proxy_settings.proxy_port == 1080,
            r.proxy_settings.proxy_type@ == "direct"@,
            r.proxy_settings.username is None,
            r.proxy_settings.password is None,
    {
        let mut profiles: Vec<FingerprintProfile> = Vec::new();
        profiles.push(default_ios_safari_profile());
        Config {
            profiles,
            default_profile: String::from_str("ios_safari"),
            proxy_settings: ProxySettings::default(),
        }
    }
}

impl Config {
    /// The profile stored under a name, if any.
    pub fn get_profile(&self, name: &str) -> (r: Option<&FingerprintProfile>)
        ensures
            r matches Some(p) ==> p.name@ == name@,
    {
        let n = self.profiles.len();
        let mut i: usize = 0;
        while i < n
            invariant
                n == self.profiles@.len(),
                i <= n,
            decreases n - i,
        {
            if str_eq(self.profiles[i].name.as_str(), name) {
                return Some(&self.profiles[i]);
            }
            i = i + 1;
        }
        None
    }

    /// The profile named by `default_profile`, if stored.
    pub fn get_default_profile(&self) -> (r: Option<&FingerprintProfile>)
        ensures
            r matches Some(p) ==> p.name@ == self.default_profile@,
    {
        let name = self.default_profile.clone();
        self.get_profile(name.as_str())
    }
}

/// The built-in emulated client profile, every list pinned.
pub fn default_ios_safari_profile() -> (r: FingerprintProfile)
    ensures
        r.name@ == "ios_safari"@,
        str_views(r.cipher_suites@) == seq![
            "TLS_AES_128_GCM_SHA256"@,
            "TLS_AES_256_GCM_SHA384"@,
            "TLS_CHACHA20_POLY1305_SHA256"@,
            "TLS_ECDHE_ECDSA_WITH_AES_256_GCM_SHA384"@,
            "TLS_ECDHE_ECDSA_WITH_AES_128_GCM_SHA256"@,
        ],
        str_views(r.extensions@) == seq![
            "server_name"@,
            "status_request"@,
            "supported_groups"@,
            "ec_point_formats"@,
            "signature_algorithms"@,
            "application_layer_protocol_negotiation"@,
            "signed_certificate_timestamp"@,
            "key_share"@,
            "psk_key_exchange_modes"@,
            "supported_versions"@,
            "compress_certificate"@,
            "session_ticket"@,
        ],
        str_views(r.supported_versions@) == seq!["TLS 1.3"@, "TLS 1.2"@],
        str_views(r.alpn@) == seq!["h2"@, "http/1.1"@],
        str_views(r.signature_algorithms@) == seq![
            "ecdsa_secp256r1_sha256"@,
            "rsa_pss_rsae_sha256"@,
            "rsa_pkcs1_sha256"@,
            "ecdsa_secp384r1_sha384"@,
            "ecdsa_sha1"@,
            "rsa_pkcs1_sha1"@,
        ],
        str_views(r.key_share_groups@) == seq!["x25519"@, "secp256r1"@],
        str_views(r.psk_key_exchange_modes@) == seq!["psk_dhe_ke"@],
        str_views(r.compress_certificate@) == seq!["brotli"@],
{
    let mut cipher_suites: Vec<String> = Vec::new();
    cipher_suites.push(String::from_str("TLS_AES_128_GCM_SHA256"));
    cipher_suites.push(String::from_str("TLS_AES_256_GCM_SHA384"));
    cipher_suites.push(String::from_str("TLS_CHACHA20_POLY1305_SHA256"));
    cipher_suites.push(String::from_str("TLS_ECDHE_ECDSA_WITH_AES_256_GCM_SHA384"));
    cipher_suites.push(String::from_str("TLS_ECDHE_ECDSA_WITH_AES_128_GCM_SHA256"));
    let mut extensions: Vec<String> = Vec::new();
    extensions.push(String::from_str("server_name"));
    extensions.push(String::from_str("status_request"));
    extensions.push(String::from_str("supported_groups"));
    extensions.push(String::from_str("ec_point_formats"));
    extensions.push(String::from_str("signature_algorithms"));
    extensions.push(String::from_str("application_layer_protocol_negotiation"));
    extensions.push(String::from_str("signed_certificate_timestamp"));
    extensions.push(String::from_str("key_share"));
    extensions.push(String::from_str("psk_key_exchange_modes"));
    extensions.push(String::from_str("supported_versions"));
    extensions.push(String::from_str("compress_certificate"));
    extensions.push(String::from_str("session_ticket"));
    let mut supported_versions: Vec<String> = Vec::new();
    supported_versions.push(String::from_str("TLS 1.3"));
    supported_versions.push(String::from_str("TLS 1.2"));
    let mut alpn: Vec<String> = Vec::new();
    alpn.push(String::from_str("h2"));
    alpn.push(String::from_str("http/1.1"));
    let mut signature_algorithms: Vec<String> = Vec::new();
    signature_algorithms.push(String::from_str("ecdsa_secp256r1_sha256"));
    signature_algorithms.push(String::from_str("rsa_pss_rsae_sha256"));
    signature_algorithms.push(String::from_str("rsa_pkcs1_sha256"));
    signature_algorithms.push(String::from_str("ecdsa_secp384r1_sha384"));
    signature_algorithms.push(String::from_str("ecdsa_sha1"));
    signature_algorithms.push(String::from_str("rsa_pkcs1_sha1"));
    let mut key_share_groups: Vec<String> = Vec::new();
    key_share_groups.push(String::from_str("x25519"));
    key_share_groups.push(String::from_str("secp256r1"));
    let mut psk_key_exchange_modes: Vec<String> = Vec::new();
    psk_key_exchange_modes.push(String::from_str("psk_dhe_ke"));
    let mut compress_certificate: Vec<String> = Vec::new();
    compress_certificate.push(String::from_str("brotli"));
    proof {
        assert(str_views(cipher_suites@) =~= seq![
            "TLS_AES_128_GCM_SHA256"@,
            "TLS_AES_256_GCM_SHA384"@,
            "TLS_CHACHA20_POLY1305_SHA256"@,
            "TLS_ECDHE_ECDSA_WITH_AES_256_GCM_SHA384"@,
            "TLS_ECDHE_ECDSA_WITH_AES_128_GCM_SHA256"@,
        ]);
        assert(str_views(extensions@) =~= seq![
            "server_name"@,
            "status_request"@,
            "supported_groups"@,
            "ec_point_formats"@,
            "signature_algorithms"@,
            "application_layer_protocol_negotiation"@,
            "signed_certificate_timestamp"@,
            "key_share"@,
            "psk_key_exchange_modes"@,
            "supported_versions"@,
            "compress_certificate"@,
            "session_ticket"@,
        ]);
        assert(str_views(supported_versions@) =~= seq!["TLS 1.3"@, "TLS 1.2"@]);
        assert(str_views(alpn@) =~= seq!["h2"@, "http/1.1"@]);
        assert(str_views(signature_algorithms@) =~= seq![
            "ecdsa_secp256r1_sha256"@,
            "rsa_pss_rsae_sha256"@,
            "rsa_pkcs1_sha256"@,
            "ecdsa_secp384r1_sha384"@,
            "ecdsa_sha1"@,
            "rsa_pkcs1_sha1"@,
        ]);
        assert(str_views(key_share_groups@) =~= seq!["x25519"@, "secp256r1"@]);
        assert(str_views(psk_key_exchange_modes@) =~= seq!["psk_dhe_ke"@]);
        assert(str_views(compress_certificate@) =~= seq!["brotli"@]);
    }
    FingerprintProfile {
        name: String::from_str("ios_safari"),
        cipher_suites,
        extensions,
        supported_versions,
        alpn,
        signature_algorithms,
        key_share_groups,
        psk_key_exchange_modes,
        compress_certificate,
    }
}

} // verus!
