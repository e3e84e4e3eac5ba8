//! The Remmina side of the conversion: one record per source file, parsed
//! from `key=value` lines, plus the operations over a collection of source
//! files (protocol diagnostics, protocol filtering, and export of the
//! records whose protocol is in the allow list).

use vstd::prelude::*;

use crate::protocols::allowed_protocol;
use crate::text::{
    lower_of, lowercase_str, spec_parse_u8, spec_trim, str_eq, strip_prefix_of, trim_str,
    parse_u8_str, upper_of, uppercase_str,
};

verus! {

/// One source configuration file, read into memory: its path (for
/// diagnostics) and its decoded lines. When a line of the file on disk
/// fails to decode, reading stops there and `lines` holds the prefix
/// that was decoded; parsing then works on that prefix.
#[derive(Debug)]
pub struct SourceFile {
    pub path: String,
    pub lines: Vec<String>,
}

/// Specification-level image of a `SourceFile` value.
pub struct SourceFileView {
    pub path: Seq<char>,
    pub lines: Seq<Seq<char>>,
}

impl View for SourceFile {
    type V = SourceFileView;

    open spec fn view(&self) -> SourceFileView {
        SourceFileView { path: self.path@, lines: self.lines.deep_view() }
    }
}

impl DeepView for SourceFile {
    type V = SourceFileView;

    open spec fn deep_view(&self) -> SourceFileView {
        self.view()
    }
}

impl SourceFile {
    /// A copy of this source file, equal to it field by field.
    pub fn duplicate(&self) -> (r: SourceFile)
        ensures
            r@ == self@,
    {
        let lines = self.lines.clone();
        proof {
            assert forall|i: int| 0 <= i < self.lines@.len() implies lines@[i] == self.lines@[i] by {
                assert(vstd::pervasive::cloned::<String>(self.lines@[i], lines@[i]));
            }
            assert(lines@ =~= self.lines@);
            assert(lines.deep_view() =~= self.lines.deep_view());
        }
        SourceFile { path: self.path.clone(), lines }
    }
}

/// The collection of source files found in the Remmina directory.
#[derive(Debug)]
pub struct RemminaFiles {
    pub files: Vec<SourceFile>,
}

#[derive(Debug, Clone, PartialEq, Eq)]
pub enum SshAuthMethod {
    Password,
    SSHIdentityFile,
    SSHAgent,
    PublicKey,
    KerberosGSSAPI,
    KerberosInteractive,
    Unknown(String),
}

/// Specification-level image of an `SshAuthMethod` value.
pub enum AuthView {
    Password,
    SshIdentityFile,
    SshAgent,
    PublicKey,
    KerberosGssapi,
    KerberosInteractive,
    Unknown(Seq<char>),
}

impl View for SshAuthMethod {
    type V = AuthView;

    open spec fn view(&self) -> AuthView {
        match self {
            SshAuthMethod::Password => AuthView::Password,
            SshAuthMethod::SSHIdentityFile => AuthView::SshIdentityFile,
            SshAuthMethod::SSHAgent => AuthView::SshAgent,
            SshAuthMethod::PublicKey => AuthView::PublicKey,
            SshAuthMethod::KerberosGSSAPI => AuthView::KerberosGssapi,
            SshAuthMethod::KerberosInteractive => AuthView::KerberosInteractive,
            SshAuthMethod::Unknown(s) => AuthView::Unknown(s@),
        }
    }
}

impl DeepView for SshAuthMethod {
    type V = AuthView;

    open spec fn deep_view(&self) -> AuthView {
        self.view()
    }
}

/// The authentication method denoted by a name, compared without regard
/// to case; unrecognized names are kept, lower-cased.
pub open spec fn spec_auth_from_name(s: Seq<char>) -> AuthView {
    let l = lower_of(s);
    if l == "password"@ {
        AuthView::Password
    } else if l == "sshidentityfile"@ {
        AuthView::SshIdentityFile
    } else if l == "sshagent"@ {
        AuthView::SshAgent
    } else if l == "publickey"@ {
        AuthView::PublicKey
    } else if l == "kerberosgssapi"@ {
        AuthView::KerberosGssapi
    } else if l == "kerberosinteractive"@ {
        AuthView::KerberosInteractive
    } else {
        AuthView::Unknown(l)
    }
}

/// The authentication method denoted by a small integer code; codes other
/// than 0 through 5 are unknown.
pub open spec fn spec_auth_from_int(n: u8) -> AuthView {
    if n == 0 {
        AuthView::Password
    } else if n == 1 {
        AuthView::SshIdentityFile
    } else if n == 2 {
        AuthView::SshAgent
    } else if n == 3 {
        AuthView::PublicKey
    } else if n == 4 {
        AuthView::KerberosGssapi
    } else if n == 5 {
        AuthView::KerberosInteractive
    } else {
        AuthView::Unknown("unknown"@)
    }
}

/// The canonical (lower-case) name of an authentication method.
pub open spec fn spec_auth_str(v: AuthView) -> Seq<char> {
    match v {
        AuthView::Password => "password"@,
        AuthView::SshIdentityFile => "sshidentityfile"@,
        AuthView::SshAgent => "sshagent"@,
        AuthView::PublicKey => "publickey"@,
        AuthView::KerberosGssapi => "kerberosgssapi"@,
        AuthView::KerberosInteractive => "kerberosinteractive"@,
        AuthView::Unknown(s) => s,
    }
}

/// The integer code of an authentication method; unknown methods map to 255.
pub open spec fn spec_auth_int(v: AuthView) -> u8 {
    match v {
        AuthView::Password => 0,
        AuthView::SshIdentityFile => 1,
        AuthView::SshAgent => 2,
        AuthView::PublicKey => 3,
        AuthView::KerberosGssapi => 4,
        AuthView::KerberosInteractive => 5,
        AuthView::Unknown(_) => 255,
    }
}

/// An auth-method field value decodes first as an integer code, and
/// otherwise by name.
pub open spec fn spec_decode_auth(v: Seq<char>) -> AuthView {
    match spec_parse_u8(v) {
        Some(n) => spec_auth_from_int(n),
        None => spec_auth_from_name(v),
    }
}

impl SshAuthMethod {
    pub fn from_str(s: &str) -> (r: Self)
        ensures
            r@ == spec_auth_from_name(s@),
    {
        let low = lowercase_str(s);
        if str_eq(low.as_str(), "password") {
            SshAuthMethod::Password
        } else if str_eq(low.as_str(), "sshidentityfile") {
            SshAuthMethod::SSHIdentityFile
        } else if str_eq(low.as_str(), "sshagent") {
            SshAuthMethod::SSHAgent
        } else if str_eq(low.as_str(), "publickey") {
            SshAuthMethod::PublicKey
        } else if str_eq(low.as_str(), "kerberosgssapi") {
            SshAuthMethod::KerberosGSSAPI
        } else if str_eq(low.as_str(), "kerberosinteractive") {
            SshAuthMethod::KerberosInteractive
        } else {
            SshAuthMethod::Unknown(low)
        }
    }

    pub fn as_str(&self) -> (r: &str)
        ensures
            r@ == spec_auth_str(self@),
    {
        match self {
            SshAuthMethod::Password => "password",
            SshAuthMethod::SSHIdentityFile => "sshidentityfile",
            SshAuthMethod::SSHAgent => "sshagent",
            SshAuthMethod::PublicKey => "publickey",
            SshAuthMethod::KerberosGSSAPI => "kerberosgssapi",
            SshAuthMethod::KerberosInteractive => "kerberosinteractive",
            SshAuthMethod::Unknown(s) => s.as_str(),
        }
    }
}

/// The integer code of an authentication method (255 for unknown ones).
pub fn get_auth_method_as_int(method: &SshAuthMethod) -> (r: u8)
    ensures
        r == spec_auth_int(method@),
{
    match method {
        SshAuthMethod::Password => 0,
        SshAuthMethod::SSHIdentityFile => 1,
        SshAuthMethod::SSHAgent => 2,
        SshAuthMethod::PublicKey => 3,
        SshAuthMethod::KerberosGSSAPI => 4,
        SshAuthMethod::KerberosInteractive => 5,
        SshAuthMethod::Unknown(_) => 255,
    }
}

/// The authentication method of an integer code (codes over 5 are unknown).
pub fn get_auth_method_from_int(method: u8) -> (r: SshAuthMethod)
    ensures
        r@ == spec_auth_from_int(method),
{
    match method {
        0 => SshAuthMethod::Password,
        1 => SshAuthMethod::SSHIdentityFile,
        2 => SshAuthMethod::SSHAgent,
        3 => SshAuthMethod::PublicKey,
        4 => SshAuthMethod::KerberosGSSAPI,
        5 => SshAuthMethod::KerberosInteractive,
        _ => SshAuthMethod::Unknown("unknown".to_owned()),
    }
}

/// Decodes an auth-method field value: an integer code when the value
/// parses as one, and a (case-insensitive) method name otherwise.
pub fn decode_auth(v: &str) -> (r: SshAuthMethod)
    ensures
        r@ == spec_decode_auth(v@),
{
    match parse_u8_str(v) {
        Some(n) => get_auth_method_from_int(n),
        None => SshAuthMethod::from_str(v),
    }
}

/// The normalized record extracted from one source file.
#[derive(Debug, Clone)]
pub struct RemminaProfile {
    pub name: Option<String>,
    pub server: Option<String>,
    pub port: Option<String>,
    pub group: Option<String>,
    pub protocol: Option<String>,
    pub user: Option<String>,
    pub auth_method: Option<SshAuthMethod>,
    pub path: String,
}

/// The value carried by one line for the given key: the trimmed line with
/// the key prefix removed, if the trimmed line starts with the key.
pub open spec fn key_value(line: Seq<char>, key: Seq<char>) -> Option<Seq<char>> {
    let t = spec_trim(line);
    if key.is_prefix_of(t) {
        Some(t.skip(key.len() as int))
    } else {
        None
    }
}

/// First occurrence of a key wins: the value of the first line that
/// carries the key, if any.
pub open spec fn first_key_value(lines: Seq<Seq<char>>, key: Seq<char>) -> Option<Seq<char>>
    decreases lines.len(),
{
    if lines.len() == 0 {
        None
    } else {
        match key_value(lines[0], key) {
            Some(v) => Some(v),
            None => first_key_value(lines.drop_first(), key),
        }
    }
}

/// Like `first_key_value`, but lines carrying an empty value do not set
/// the field (used for the user field).
pub open spec fn first_nonempty_key_value(lines: Seq<Seq<char>>, key: Seq<char>) -> Option<
    Seq<char>,
>
    decreases lines.len(),
{
    if lines.len() == 0 {
        None
    } else {
        match key_value(lines[0], key) {
            Some(v) => if v.len() > 0 {
                Some(v)
            } else {
                first_nonempty_key_value(lines.drop_first(), key)
            },
            None => first_nonempty_key_value(lines.drop_first(), key),
        }
    }
}

/// The record's protocol: the upper-cased value of the first protocol line
/// whose value is in the allow list; absent otherwise.
pub open spec fn first_allowed_protocol(lines: Seq<Seq<char>>) -> Option<Seq<char>>
    decreases lines.len(),
{
    if lines.len() == 0 {
        None
    } else {
        match key_value(lines[0], "protocol="@) {
            Some(v) => if allowed_protocol(upper_of(v)) {
                Some(upper_of(v))
            } else {
                first_allowed_protocol(lines.drop_first())
            },
            None => first_allowed_protocol(lines.drop_first()),
        }
    }
}

/// A populated protocol field always holds an allow-listed value.
pub proof fn lemma_first_allowed_protocol_allowed(lines: Seq<Seq<char>>)
    ensures
        first_allowed_protocol(lines) matches Some(p) ==> allowed_protocol(p),
    decreases lines.len(),
{
    if lines.len() > 0 {
        lemma_first_allowed_protocol_allowed(lines.drop_first());
    }
}

/// The record's authentication method: decoded from the first `ssh_auth`
/// value, but only when the record's protocol is SSH.
pub open spec fn spec_record_auth(lines: Seq<Seq<char>>) -> Option<AuthView> {
    match (first_allowed_protocol(lines), first_key_value(lines, "ssh_auth="@)) {
        (Some(p), Some(v)) => if p == "SSH"@ {
            Some(spec_decode_auth(v))
        } else {
            None
        },
        _ => None,
    }
}

/// What the record of one source file holds, field by field.
pub open spec fn record_matches(r: RemminaProfile, path: Seq<char>, lines: Seq<Seq<char>>) -> bool {
    &&& r.path@ == path
    &&& r.name.deep_view() == first_key_value(lines, "name="@)
    &&& r.server.deep_view() == first_key_value(lines, "server="@)
    &&& r.port.deep_view() == first_key_value(lines, "port="@)
    &&& r.group.deep_view() == first_key_value(lines, "group="@)
    &&& r.user.deep_view() == first_nonempty_key_value(lines, "user="@)
    &&& r.protocol.deep_view() == first_allowed_protocol(lines)
    &&& r.auth_method.deep_view() == spec_record_auth(lines)
}

/// Parses one source file into its record: a single pass over the lines,
/// where the first occurrence of each recognized key wins.
pub fn parse_source_file(f: &SourceFile) -> (r: RemminaProfile)
    ensures
        record_matches(r, f.path@, f.lines.deep_view()),
{
    let ghost lv = f.lines.deep_view();
    let n = f.lines.len();
    let mut name: Option<String> = None;
    let mut server: Option<String> = None;
    let mut port: Option<String> = None;
    let mut group: Option<String> = None;
    let mut user: Option<String> = None;
    let mut protocol: Option<String> = None;
    let mut ssh_auth: Option<String> = None;
    let mut i: usize = 0;
    proof {
        assert(lv.len() == f.lines@.len());
        assert(lv.skip(0) =~= lv);
    }
    while i < n
        invariant
            i <= n,
            n == lv.len(),
            lv == f.lines.deep_view(),
            n == f.lines@.len(),
            name matches Some(v) ==> first_key_value(lv, "name="@) == Some(v@),
            name is None ==> first_key_value(lv, "name="@) == first_key_value(
                lv.skip(i as int),
                "name="@,
            ),
            server matches Some(v) ==> first_key_value(lv, "server="@) == Some(v@),
            server is None ==> first_key_value(lv, "server="@) == first_key_value(
                lv.skip(i as int),
                "server="@,
            ),
            port matches Some(v) ==> first_key_value(lv, "port="@) == Some(v@),
            port is None ==> first_key_value(lv, "port="@) == first_key_value(
                lv.skip(i as int),
                "port="@,
            ),
            group matches Some(v) ==> first_key_value(lv, "group="@) == Some(v@),
            group is None ==> first_key_value(lv, "group="@) == first_key_value(
                lv.skip(i as int),
                "group="@,
            ),
            user matches Some(v) ==> first_nonempty_key_value(lv, "user="@) == Some(v@),
            user is None ==> first_nonempty_key_value(lv, "user="@) == first_nonempty_key_value(
                lv.skip(i as int),
                "user="@,
            ),
            protocol matches Some(v) ==> first_allowed_protocol(lv) == Some(v@),
            protocol is None ==> first_allowed_protocol(lv) == first_allowed_protocol(
                lv.skip(i as int),
            ),
            ssh_auth matches Some(v) ==> first_key_value(lv, "ssh_auth="@) == Some(v@),
            ssh_auth is None ==> first_key_value(lv, "ssh_auth="@) == first_key_value(
                lv.skip(i as int),
                "ssh_auth="@,
            ),
        decreases n - i,
    {
        proof {
            assert(lv.skip(i as int)[0] == lv[i as int]);
            assert(lv.skip(i as int).drop_first() =~= lv.skip(i + 1));
            assert(lv[i as int] == f.lines@[i as int]@);
        }
        let t = trim_str(f.lines[i].as_str());
        if name.is_none() {
            if let Some(rest) = strip_prefix_of(t, "name=") {
                name = Some(rest.to_owned());
            }
        }
        if server.is_none() {
            if let Some(rest) = strip_prefix_of(t, "server=") {
                server = Some(rest.to_owned());
            }
        }
        if port.is_none() {
            if let Some(rest) = strip_prefix_of(t, "port=") {
                port = Some(rest.to_owned());
            }
        }
        if group.is_none() {
            if let Some(rest) = strip_prefix_of(t, "group=") {
                group = Some(rest.to_owned());
            }
        }
        if user.is_none() {
            if let Some(rest) = strip_prefix_of(t, "user=") {
                if rest.unicode_len() > 0 {
                    user = Some(rest.to_owned());
                }
            }
        }
        if protocol.is_none() {
            if let Some(rest) = strip_prefix_of(t, "protocol=") {
                let up = uppercase_str(rest);
                if crate::protocols::is_allowed_protocol(up.as_str()) {
                    protocol = Some(up);
                }
            }
        }
        if ssh_auth.is_none() {
            if let Some(rest) = strip_prefix_of(t, "ssh_auth=") {
                ssh_auth = Some(rest.to_owned());
            }
        }
        i += 1;
    }
    proof {
        assert(lv.skip(n as int) =~= Seq::<Seq<char>>::empty());
    }
    let auth_method: Option<SshAuthMethod> = match (&protocol, &ssh_auth) {
        (Some(p), Some(v)) => {
            if str_eq(p.as_str(), "SSH") {
                Some(decode_auth(v.as_str()))
            } else {
                None
            }
        },
        _ => None,
    };
    RemminaProfile {
        name,
        server,
        port,
        group,
        protocol,
        user,
        auth_method,
        path: owned_path(f),
    }
}

/// The path of a source file, as an owned string.
fn owned_path(f: &SourceFile) -> (r: String)
    ensures
        r@ == f.path@,
{
    f.path.clone()
}

/// The value carried by one line for the given key when the line is taken
/// as it stands (no trimming of the line itself; the value is trimmed).
/// This is how the per-collection protocol scans read a line.
pub open spec fn raw_value(line: Seq<char>, key: Seq<char>) -> Option<Seq<char>> {
    if key.is_prefix_of(line) {
        Some(line.skip(key.len() as int))
    } else {
        None
    }
}

/// The trimmed value of the first `protocol=` line of a file; later
/// protocol lines are never read.
pub open spec fn first_protocol_line_value(lines: Seq<Seq<char>>) -> Option<Seq<char>>
    decreases lines.len(),
{
    if lines.len() == 0 {
        None
    } else {
        match raw_value(lines[0], "protocol="@) {
            Some(v) => Some(spec_trim(v)),
            None => first_protocol_line_value(lines.drop_first()),
        }
    }
}

/// Whether a file's protocol value, upper-cased, matches one of the
/// supplied protocol strings exactly.
pub open spec fn file_matches_protocols(fv: SourceFileView, protocols: Seq<Seq<char>>) -> bool {
    match first_protocol_line_value(fv.lines) {
        Some(v) => protocols.contains(upper_of(v)),
        None => false,
    }
}

/// The files retained by a protocol filter, in order.
pub open spec fn filter_matching(files: Seq<SourceFileView>, protocols: Seq<Seq<char>>) -> Seq<
    SourceFileView,
> {
    files.filter(|fv: SourceFileView| file_matches_protocols(fv, protocols))
}

/// Whether a file yields an export record: its record's protocol field is
/// populated (that is, allow-listed).
pub open spec fn has_allowed_protocol(fv: SourceFileView) -> bool {
    first_allowed_protocol(fv.lines) is Some
}

/// The files whose records an export returns, in order.
pub open spec fn exported_files(files: Seq<SourceFileView>) -> Seq<SourceFileView> {
    files.filter(|fv: SourceFileView| has_allowed_protocol(fv))
}

/// Whether a file's first protocol line carries an allow-listed value.
pub open spec fn raw_protocol_allowed(fv: SourceFileView) -> bool {
    match first_protocol_line_value(fv.lines) {
        Some(v) => allowed_protocol(upper_of(v)),
        None => false,
    }
}

/// The files an export pass would touch, judged by their first protocol
/// line alone.
pub open spec fn candidate_files(files: Seq<SourceFileView>) -> Seq<SourceFileView> {
    files.filter(|fv: SourceFileView| raw_protocol_allowed(fv))
}

/// The diagnostic class of one file's protocol.
#[derive(Clone, Copy, Debug, PartialEq, Eq, Structural)]
pub enum ProtocolStatus {
    /// The protocol is supported by the conversion.
    Available,
    /// The protocol is recognized but not implemented.
    NotImplemented,
    /// The protocol value is not recognized at all.
    NotRecognized,
    /// The file has no protocol line.
    NotFound,
}

/// The diagnostic class of a file: by its first protocol line's value,
/// compared without regard to case.
pub open spec fn spec_classify_protocol(lines: Seq<Seq<char>>) -> ProtocolStatus {
    match first_protocol_line_value(lines) {
        Some(v) => {
            let u = upper_of(v);
            if u == "SSH"@ {
                ProtocolStatus::Available
            } else if u == "RDP"@ || u == "VNC"@ {
                ProtocolStatus::NotImplemented
            } else {
                ProtocolStatus::NotRecognized
            }
        },
        None => ProtocolStatus::NotFound,
    }
}

/// The trimmed value of the first `protocol=` line, if any.
pub fn first_protocol_value(lines: &Vec<String>) -> (r: Option<String>)
    ensures
        r.deep_view() == first_protocol_line_value(lines.deep_view()),
{
    let ghost lv = lines.deep_view();
    let n = lines.len();
    let mut i: usize = 0;
    proof {
        assert(lv.skip(0) =~= lv);
    }
    while i < n
        invariant
            i <= n,
            n == lv.len(),
            lv == lines.deep_view(),
            n == lines@.len(),
            first_protocol_line_value(lv) == first_protocol_line_value(lv.skip(i as int)),
        decreases n - i,
    {
        proof {
            assert(lv.skip(i as int)[0] == lv[i as int]);
            assert(lv.skip(i as int).drop_first() =~= lv.skip(i + 1));
            assert(lv[i as int] == lines@[i as int]@);
        }
        if let Some(rest) = strip_prefix_of(lines[i].as_str(), "protocol=") {
            return Some(trim_str(rest).to_owned());
        }
        i += 1;
    }
    proof {
        assert(lv.skip(n as int) =~= Seq::<Seq<char>>::empty());
    }
    None
}

/// Whether one of the given protocol strings equals `u` exactly.
fn matches_any(protocols: &[String], u: &str) -> (r: bool)
    ensures
        r == protocols.deep_view().contains(u@),
{
    let n = protocols.len();
    let mut j: usize = 0;
    while j < n
        invariant
            j <= n,
            n == protocols@.len(),
            forall|k: int| 0 <= k < j ==> protocols.deep_view()[k] != u@,
        decreases n - j,
    {
        if str_eq(protocols[j].as_str(), u) {
            proof {
                assert(protocols.deep_view()[j as int] == u@);
            }
            return true;
        }
        proof {
            assert(protocols.deep_view()[j as int] == protocols@[j as int]@);
        }
        j += 1;
    }
    false
}

impl RemminaFiles {
    /// Retains exactly the files whose first protocol line's value,
    /// upper-cased, matches one of the given protocol strings; files
    /// without a protocol line are excluded.
    pub fn filter_by_protocols(&self, protocols: &[String]) -> (r: RemminaFiles)
        ensures
            r.files.deep_view() == filter_matching(self.files.deep_view(), protocols.deep_view()),
            forall|k: int|
                0 <= k < r.files.deep_view().len() ==> file_matches_protocols(
                    #[trigger] r.files.deep_view()[k],
                    protocols.deep_view(),
                ),
    {
        let ghost dv = self.files.deep_view();
        let n = self.files.len();
        let mut kept: Vec<SourceFile> = Vec::new();
        proof {
            assert(dv.subrange(0, 0) =~= Seq::<SourceFileView>::empty());
            reveal(Seq::filter);
        }
        let mut i: usize = 0;
        while i < n
            invariant
                i <= n,
                n == dv.len(),
                dv == self.files.deep_view(),
                n == self.files@.len(),
                kept.deep_view() == filter_matching(dv.subrange(0, i as int), protocols.deep_view()),
            decreases n - i,
        {
            proof {
                assert(dv[i as int] == self.files@[i as int]@);
                assert(dv.subrange(0, i + 1).drop_last() =~= dv.subrange(0, i as int));
                assert(dv.subrange(0, i + 1).last() == dv[i as int]);
                reveal(Seq::filter);
            }
            let keep: bool = match first_protocol_value(&self.files[i].lines) {
                Some(v) => {
                    let u = uppercase_str(v.as_str());
                    matches_any(protocols, u.as_str())
                },
                None => false,
            };
            if keep {
                let d = self.files[i].duplicate();
                kept.push(d);
                proof {
                    assert(kept.deep_view() =~= filter_matching(
                        dv.subrange(0, i + 1),
                        protocols.deep_view(),
                    ));
                }
            } else {
                proof {
                    assert(kept.deep_view() =~= filter_matching(
                        dv.subrange(0, i + 1),
                        protocols.deep_view(),
                    ));
                }
            }
            i += 1;
        }
        proof {
            assert(dv.subrange(0, n as int) =~= dv);
            broadcast use vstd::seq_lib::group_filter_ensures;

            assert forall|k: int|
                0 <= k < kept.deep_view().len() implies file_matches_protocols(
                #[trigger] kept.deep_view()[k],
                protocols.deep_view(),
            ) by {
                assert(kept.deep_view()[k] == filter_matching(dv, protocols.deep_view())[k]);
            }
        }
        RemminaFiles { files: kept }
    }

    /// Classifies each file's protocol for user feedback, in file order.
    pub fn check_protocols(&self) -> (r: Vec<ProtocolStatus>)
        ensures
            r@.len() == self.files@.len(),
            forall|i: int|
                0 <= i < r@.len() ==> r@[i] == spec_classify_protocol(
                    self.files.deep_view()[i].lines,
                ),
    {
        let ghost dv = self.files.deep_view();
        let n = self.files.len();
        let mut out: Vec<ProtocolStatus> = Vec::new();
        let mut i: usize = 0;
        while i < n
            invariant
                i <= n,
                n == dv.len(),
                dv == self.files.deep_view(),
                n == self.files@.len(),
                out@.len() == i,
                forall|k: int| 0 <= k < i ==> out@[k] == spec_classify_protocol(dv[k].lines),
            decreases n - i,
        {
            proof {
                assert(dv[i as int] == self.files@[i as int]@);
            }
            let status: ProtocolStatus = match first_protocol_value(&self.files[i].lines) {
                Some(v) => {
                    let u = uppercase_str(v.as_str());
                    if str_eq(u.as_str(), "SSH") {
                        ProtocolStatus::Available
                    } else if str_eq(u.as_str(), "RDP") || str_eq(u.as_str(), "VNC") {
                        ProtocolStatus::NotImplemented
                    } else {
                        ProtocolStatus::NotRecognized
                    }
                },
                None => ProtocolStatus::NotFound,
            };
            out.push(status);
            i += 1;
        }
        out
    }

    /// The files an export pass would write, with their upper-cased
    /// protocol values, judged by the first protocol line of each file.
    pub fn export_profiles_base(&self) -> (r: Vec<(String, String)>)
        ensures
            r@.len() == candidate_files(self.files.deep_view()).len(),
            forall|k: int|
                0 <= k < r@.len() ==> {
                    let fv = candidate_files(self.files.deep_view())[k];
                    (#[trigger] r@[k]).0@ == fv.path && r@[k].1@ == upper_of(
                        first_protocol_line_value(fv.lines)->Some_0,
                    )
                },
    {
        let ghost dv = self.files.deep_view();
        let n = self.files.len();
        let mut out: Vec<(String, String)> = Vec::new();
        proof {
            assert(dv.subrange(0, 0) =~= Seq::<SourceFileView>::empty());
            reveal(Seq::filter);
        }
        let mut i: usize = 0;
        while i < n
            invariant
                i <= n,
                n == dv.len(),
                dv == self.files.deep_view(),
                n == self.files@.len(),
                out@.len() == candidate_files(dv.subrange(0, i as int)).len(),
                forall|k: int|
                    0 <= k < out@.len() ==> {
                        let fv = candidate_files(dv.subrange(0, i as int))[k];
                        (#[trigger] out@[k]).0@ == fv.path && out@[k].1@ == upper_of(
                            first_protocol_line_value(fv.lines)->Some_0,
                        )
                    },
            decreases n - i,
        {
            proof {
                assert(dv[i as int] == self.files@[i as int]@);
                assert(dv.subrange(0, i + 1).drop_last() =~= dv.subrange(0, i as int));
                assert(dv.subrange(0, i + 1).last() == dv[i as int]);
                reveal(Seq::filter);
            }
            match first_protocol_value(&self.files[i].lines) {
                Some(v) => {
                    let u = uppercase_str(v.as_str());
                    if crate::protocols::is_allowed_protocol(u.as_str()) {
                        let p = self.files[i].path.clone();
                        out.push((p, u));
                    }
                },
                None => {},
            };
            proof {
                assert(candidate_files(dv.subrange(0, i + 1)) =~= if raw_protocol_allowed(
                    dv[i as int],
                ) {
                    candidate_files(dv.subrange(0, i as int)).push(dv[i as int])
                } else {
                    candidate_files(dv.subrange(0, i as int))
                });
            }
            i += 1;
        }
        proof {
            assert(dv.subrange(0, n as int) =~= dv);
        }
        out
    }

    /// Parses every file whose protocol survives the allow list into a
    /// record, in file order. Records of files with a protocol outside the
    /// allow list are excluded, for all inputs.
    pub fn export_profiles(&self) -> (r: Vec<RemminaProfile>)
        ensures
            r@.len() == exported_files(self.files.deep_view()).len(),
            forall|k: int|
                0 <= k < r@.len() ==> {
                    let fv = exported_files(self.files.deep_view())[k];
                    record_matches(#[trigger] r@[k], fv.path, fv.lines)
                },
            forall|k: int|
                0 <= k < r@.len() ==> ((#[trigger] r@[k]).protocol matches Some(p)
                    && allowed_protocol(p@)),
    {
        let ghost dv = self.files.deep_view();
        let n = self.files.len();
        let mut out: Vec<RemminaProfile> = Vec::new();
        proof {
            assert(dv.subrange(0, 0) =~= Seq::<SourceFileView>::empty());
            reveal(Seq::filter);
        }
        let mut i: usize = 0;
        while i < n
            invariant
                i <= n,
                n == dv.len(),
                dv == self.files.deep_view(),
                n == self.files@.len(),
                out@.len() == exported_files(dv.subrange(0, i as int)).len(),
                forall|k: int|
                    0 <= k < out@.len() ==> {
                        let fv = exported_files(dv.subrange(0, i as int))[k];
                        record_matches(#[trigger] out@[k], fv.path, fv.lines)
                    },
            decreases n - i,
        {
            proof {
                assert(dv[i as int] == self.files@[i as int]@);
                assert(dv.subrange(0, i + 1).drop_last() =~= dv.subrange(0, i as int));
                assert(dv.subrange(0, i + 1).last() == dv[i as int]);
                reveal(Seq::filter);
            }
            let rec = parse_source_file(&self.files[i]);
            if rec.protocol.is_some() {
                out.push(rec);
            }
            proof {
                assert(exported_files(dv.subrange(0, i + 1)) =~= if has_allowed_protocol(
                    dv[i as int],
                ) {
                    exported_files(dv.subrange(0, i as int)).push(dv[i as int])
                } else {
                    exported_files(dv.subrange(0, i as int))
                });
            }
            i += 1;
        }
        proof {
            assert(dv.subrange(0, n as int) =~= dv);
            broadcast use vstd::seq_lib::group_filter_ensures;

            assert forall|k: int| 0 <= k < out@.len() implies ((#[trigger] out@[k]).protocol matches Some(
                p,
            ) && allowed_protocol(p@)) by {
                let fv = exported_files(dv)[k];
                assert(has_allowed_protocol(fv));
                lemma_first_allowed_protocol_allowed(fv.lines);
            }
        }
        out
    }
}

/// The value of the first line carrying the given key, if any.
pub fn first_field_value(lines: &Vec<String>, key: &str) -> (r: Option<String>)
    ensures
        r.deep_view() == first_key_value(lines.deep_view(), key@),
{
    let ghost lv = lines.deep_view();
    let n = lines.len();
    let mut i: usize = 0;
    proof {
        assert(lv.skip(0) =~= lv);
    }
    while i < n
        invariant
            i <= n,
            n == lv.len(),
            lv == lines.deep_view(),
            n == lines@.len(),
            first_key_value(lv, key@) == first_key_value(lv.skip(i as int), key@),
        decreases n - i,
    {
        proof {
            assert(lv.skip(i as int)[0] == lv[i as int]);
            assert(lv.skip(i as int).drop_first() =~= lv.skip(i + 1));
            assert(lv[i as int] == lines@[i as int]@);
        }
        let t = trim_str(lines[i].as_str());
        if let Some(rest) = strip_prefix_of(t, key) {
            return Some(rest.to_owned());
        }
        i += 1;
    }
    proof {
        assert(lv.skip(n as int) =~= Seq::<Seq<char>>::empty());
    }
    None
}

} // verus!
