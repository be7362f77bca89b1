//! The components that the setup tool manages besides the database: the
//! PKI certificates, the data directory layout, the configs, the
//! toolchains and the problems. For each, its state, how it is described,
//! and what an upgrade does, as the commands and file operations to
//! perform.
use vstd::prelude::*;
use crate::setup::{
    StateKind, ItemKind, ProblemsState, join_relative, text_lt, text_less, texts, spec_toolchain_allowed,
    toolchain_allowed, extra_of,
};
use crate::text::{chars_of, string_of, string_push, str_eq, words, split_whitespace};
use crate::userlist::utf8_string;
use vstd::utf8::{valid_utf8, decode_utf8};

verus! {

/// Whether the system is usable as far as a component goes.
#[derive(Debug, Clone, Copy, PartialEq, Eq, Structural)]
pub enum SystemHealth {
    Healthy,
    Error,
}

/// What the setup tool does with a component.
#[derive(Debug, Clone, Copy, PartialEq, Eq, Structural)]
pub enum ComponentStep {
    /// Describe it.
    Describe,
    /// Leave it: it is errored (when upgrading).
    SkipErrored,
    /// Leave it: it is up to date (when upgrading).
    SkipUpToDate,
    /// Upgrade it.
    Upgrade,
}

/// What the setup tool does with a component in state `kind`, and the
/// health it reports: an errored component is unhealthy; when upgrading,
/// only an upgradable component is upgraded, else every one is described.
pub fn process_decision(kind: StateKind, upgrade: bool) -> (r: (SystemHealth, ComponentStep))
    ensures
        r.0 == (if kind == StateKind::Errored {
            SystemHealth::Error
        } else {
            SystemHealth::Healthy
        }),
        r.1 == (if !upgrade {
            ComponentStep::Describe
        } else {
            match kind {
                StateKind::Errored => ComponentStep::SkipErrored,
                StateKind::UpToDate => ComponentStep::SkipUpToDate,
                StateKind::Upgradable => ComponentStep::Upgrade,
            }
        }),
{
    let health = match kind {
        StateKind::Errored => SystemHealth::Error,
        _ => SystemHealth::Healthy,
    };
    let step = if !upgrade {
        ComponentStep::Describe
    } else {
        match kind {
            StateKind::Errored => ComponentStep::SkipErrored,
            StateKind::UpToDate => ComponentStep::SkipUpToDate,
            StateKind::Upgradable => ComponentStep::Upgrade,
        }
    };
    (health, step)
}

/// The system is healthy when no component is errored.
pub fn system_healthy(healths: &Vec<SystemHealth>) -> (r: bool)
    ensures
        r == forall|i: int| 0 <= i < healths@.len() ==> healths@[i] == SystemHealth::Healthy,
{
    let mut i: usize = 0;
    while i < healths.len()
        invariant
            0 <= i <= healths@.len(),
            forall|k: int| 0 <= k < i ==> healths@[k] == SystemHealth::Healthy,
        decreases healths@.len() - i,
    {
        if healths[i] == SystemHealth::Error {
            return false;
        }
        i = i + 1;
    }
    true
}

/// `base` joined with `rel` as `Path::join` does on Unix: an absolute
/// `rel` replaces `base`.
pub open spec fn spec_join(base: Seq<char>, rel: Seq<char>) -> Seq<char> {
    if rel.len() > 0 && rel[0] == '/' {
        rel
    } else {
        join_relative(base, rel)
    }
}

/// `base` joined with `rel`.
pub fn join(base: &str, rel: &str) -> (r: String)
    ensures
        r@ == spec_join(base@, rel@),
{
    let cr = chars_of(rel);
    if cr.len() > 0 && cr[0] == '/' {
        return string_of(&cr);
    }
    let cs = chars_of(base);
    let mut out = string_of(&cs);
    if cs.len() > 0 && cs[cs.len() - 1] != '/' {
        string_push(&mut out, '/');
    }
    let ghost b = out@;
    let mut i: usize = 0;
    while i < cr.len()
        invariant
            cr@ == rel@,
            0 <= i <= cr@.len(),
            out@ == b + cr@.take(i as int),
        decreases cr@.len() - i,
    {
        string_push(&mut out, cr[i]);
        proof {
            assert(cr@.take(i + 1) =~= cr@.take(i as int).push(cr@[i as int]));
            assert(b + cr@.take(i + 1) =~= (b + cr@.take(i as int)).push(cr@[i as int]));
        }
        i = i + 1;
    }
    proof {
        assert(cr@.take(cr@.len() as int) =~= cr@);
    }
    out
}

fn concat(a: &str, b: &str) -> (r: String)
    ensures
        r@ == a@ + b@,
{
    let mut s = String::from_str(a);
    s.append(b);
    s
}

fn owned(s: &str) -> (r: String)
    ensures
        r@ == s@,
{
    String::from_str(s)
}

/// Which files of a certificate exist.
#[derive(Debug, Clone, Copy, PartialEq, Eq, Structural)]
pub enum ItemState {
    OnlyCert,
    OnlyKey,
    Both,
}

/// The state of a certificate with or without its certificate and key
/// files; `None` when neither exists.
pub open spec fn spec_item_state(has_cert: bool, has_key: bool) -> Option<ItemState> {
    if has_cert && has_key {
        Some(ItemState::Both)
    } else if has_cert {
        Some(ItemState::OnlyCert)
    } else if has_key {
        Some(ItemState::OnlyKey)
    } else {
        None
    }
}

/// The state of a certificate, by which of its files exist.
pub fn item_state(has_cert: bool, has_key: bool) -> (r: Option<ItemState>)
    ensures
        r == spec_item_state(has_cert, has_key),
{
    match (has_cert, has_key) {
        (true, true) => Some(ItemState::Both),
        (true, false) => Some(ItemState::OnlyCert),
        (false, true) => Some(ItemState::OnlyKey),
        (false, false) => None,
    }
}

/// The state of each certificate; `None` for a missing one.
#[derive(Debug, Clone, Copy, PartialEq, Eq, Structural)]
pub struct CertsState {
    pub ca: Option<ItemState>,
    pub invoker: Option<ItemState>,
    pub root: Option<ItemState>,
}

/// The state of certificate `kind`.
pub open spec fn cert_of(st: CertsState, kind: ItemKind) -> Option<ItemState> {
    match kind {
        ItemKind::CertificateAuthority => st.ca,
        ItemKind::Invoker => st.invoker,
        ItemKind::Root => st.root,
    }
}

impl CertsState {
    /// The state of certificate `kind`.
    pub fn get(&self, kind: ItemKind) -> (r: Option<ItemState>)
        ensures
            r == cert_of(*self, kind),
    {
        match kind {
            ItemKind::CertificateAuthority => self.ca,
            ItemKind::Invoker => self.invoker,
            ItemKind::Root => self.root,
        }
    }
}

/// The PKI keys and certificates of an installation.
#[derive(Debug, Clone)]
pub struct Certs {
    /// The installation's data directory.
    pub data_dir: String,
    /// A new certificate authority may be made.
    pub can_create_ca: bool,
    pub state: CertsState,
}

/// The certificates are in order when the authority has its certificate
/// and the others have both files; they can be fixed when a new authority
/// may be made or its key exists.
pub open spec fn certs_state_kind(st: CertsState, can_create_ca: bool) -> StateKind {
    let ok = (st.ca == Some(ItemState::Both) || st.ca == Some(ItemState::OnlyCert)) && st.invoker == Some(
        ItemState::Both,
    ) && st.root == Some(ItemState::Both);
    let generatable = can_create_ca || st.ca == Some(ItemState::Both) || st.ca == Some(ItemState::OnlyKey);
    if ok {
        StateKind::UpToDate
    } else if generatable {
        StateKind::Upgradable
    } else {
        StateKind::Errored
    }
}

/// How the state of a certificate is shown.
pub open spec fn item_text(s: Option<ItemState>) -> Seq<char> {
    match s {
        Some(ItemState::Both) => "cert+key"@,
        Some(ItemState::OnlyCert) => "cert"@,
        Some(ItemState::OnlyKey) => "key"@,
        None => "missing"@,
    }
}

/// How the certificates are shown: each one's file stem and state.
pub open spec fn certs_text(st: CertsState) -> Seq<char> {
    "ca: "@ + item_text(st.ca) + "; "@ + "invoker: "@ + item_text(st.invoker) + "; "@ + "root: "@ + item_text(
        st.root,
    ) + "; "@
}

/// A step of a certificate upgrade: a message, or a command to run.
#[derive(Debug, Clone)]
pub enum CertStep {
    Say(String),
    Run(Vec<String>),
}

/// A certificate upgrade step with its texts taken as characters.
pub enum CertStepView {
    Say(Seq<char>),
    Run(Seq<Seq<char>>),
}

impl View for CertStep {
    type V = CertStepView;

    open spec fn view(&self) -> CertStepView {
        match self {
            CertStep::Say(m) => CertStepView::Say(m@),
            CertStep::Run(argv) => CertStepView::Run(texts(argv@)),
        }
    }
}

/// The subject of a certificate named `cn`.
pub open spec fn subject(cn: Seq<char>) -> Seq<char> {
    "/C=ZZ/ST=AA/L=loc/O=org/OU=ch/CN="@ + cn + "/emailAddress=nope@example.com"@
}

/// The steps that make the end entity certificate of kind `stem`, under
/// the PKI directory `base`: a key, a signing request, and the signed
/// certificate.
pub open spec fn end_entity_steps(base: Seq<char>, stem: Seq<char>) -> Seq<CertStepView> {
    let key = spec_join(base, stem + ".key"@);
    let csr = spec_join(base, stem + ".csr"@);
    let crt = spec_join(base, stem + ".crt"@);
    seq![
        CertStepView::Run(seq!["openssl"@, "genrsa"@, "-out"@, key, "4096"@]),
        CertStepView::Run(seq!["openssl"@, "req"@, "-new"@, "-key"@, key, "-out"@, csr, "-subj"@, subject(stem)]),
        CertStepView::Run(
            seq![
                "openssl"@,
                "x509"@,
                "-req"@,
                "-in"@,
                csr,
                "-CA"@,
                spec_join(base, "ca.crt"@),
                "-CAkey"@,
                spec_join(base, "ca.key"@),
                "-CAcreateserial"@,
                "-days"@,
                "60"@,
                "-out"@,
                crt,
            ],
        ),
    ]
}

/// The steps of a certificate upgrade under the PKI directory `base`: the
/// authority's key and certificate when they are missing, then the end
/// entity certificates that lack a file.
pub open spec fn upgrade_steps(st: CertsState, base: Seq<char>) -> Seq<CertStepView> {
    let ca_key = spec_join(base, "ca.key"@);
    let ca_crt = spec_join(base, "ca.crt"@);
    let have_key = st.ca == Some(ItemState::OnlyKey) || st.ca == Some(ItemState::Both);
    let have_cert = st.ca == Some(ItemState::OnlyCert) || st.ca == Some(ItemState::Both);
    (if have_key {
        seq![]
    } else {
        seq![
            CertStepView::Say("Creating CA"@),
            CertStepView::Run(seq!["openssl"@, "genrsa"@, "-out"@, ca_key, "4096"@]),
        ]
    }) + (if have_cert {
        seq![]
    } else {
        seq![
            CertStepView::Say("Creating CA certificate"@),
            CertStepView::Run(
                seq![
                    "openssl"@,
                    "req"@,
                    "-x509"@,
                    "-new"@,
                    "-key"@,
                    ca_key,
                    "-days"@,
                    "365"@,
                    "-subj"@,
                    subject("jjs-ca"@),
                    "-out"@,
                    ca_crt,
                ],
            ),
        ]
    }) + seq![CertStepView::Say("Creating end entity certificates"@)] + (if st.invoker == Some(ItemState::Both) {
        seq![]
    } else {
        end_entity_steps(base, "invoker"@)
    }) + (if st.root == Some(ItemState::Both) {
        seq![]
    } else {
        end_entity_steps(base, "root"@)
    })
}

/// Why the certificates cannot be made.
#[derive(Debug, Clone, Copy, PartialEq, Eq, Structural)]
pub enum CertsError {
    /// openssl command missing
    OpensslMissing,
    /// openssl version is unsupported
    OpensslVersionUnsupported,
}

/// The version that `openssl version -v` printed: the second word of its
/// output, which must be UTF-8; it must not come before `1.1.0`.
pub open spec fn openssl_version(out: Seq<u8>) -> Result<Seq<char>, CertsError> {
    if !valid_utf8(out) {
        Err(CertsError::OpensslVersionUnsupported)
    } else if words(decode_utf8(out)).len() < 2 {
        Err(CertsError::OpensslVersionUnsupported)
    } else if text_lt(words(decode_utf8(out))[1], "1.1.0"@) {
        Err(CertsError::OpensslVersionUnsupported)
    } else {
        Ok(words(decode_utf8(out))[1])
    }
}

/// Reads the output of `openssl version -v` (see [`openssl_version`]).
pub fn check_openssl_output(out: Vec<u8>) -> (r: Result<String, CertsError>)
    ensures
        match openssl_version(out@) {
            Ok(v) => r matches Ok(x) && x@ == v,
            Err(e) => r == Err::<String, CertsError>(e),
        },
{
    let text = match utf8_string(out) {
        Some(t) => t,
        None => {
            return Err(CertsError::OpensslVersionUnsupported);
        },
    };
    let ws = split_whitespace(text.as_str());
    if ws.len() < 2 {
        return Err(CertsError::OpensslVersionUnsupported);
    }
    let v = ws[1].as_str();
    proof {
        assert(v@ == words(text@)[1]);
    }
    if text_less(v, "1.1.0") {
        return Err(CertsError::OpensslVersionUnsupported);
    }
    Ok(owned(v))
}

fn push_step(steps: &mut Vec<CertStep>, s: CertStep)
    ensures
        final(steps)@.map_values(|x: CertStep| x@) == old(steps)@.map_values(|x: CertStep| x@).push(s@),
{
    let ghost s0 = steps@;
    steps.push(s);
    proof {
        assert(steps@.map_values(|x: CertStep| x@) =~= s0.map_values(|x: CertStep| x@).push(s@));
    }
}

fn argv(parts: Vec<String>) -> (r: CertStep)
    ensures
        r@ == CertStepView::Run(texts(parts@)),
{
    CertStep::Run(parts)
}

/// The steps that make one end entity certificate.
fn end_entity(base: &str, stem: &str, steps: &mut Vec<CertStep>)
    ensures
        final(steps)@.map_values(|x: CertStep| x@) == old(steps)@.map_values(|x: CertStep| x@) + end_entity_steps(
            base@,
            stem@,
        ),
{
    let ghost s0 = steps@.map_values(|x: CertStep| x@);
    let key = join(base, concat(stem, ".key").as_str());
    let csr = join(base, concat(stem, ".csr").as_str());
    let crt = join(base, concat(stem, ".crt").as_str());
    let subj = {
        let a = concat("/C=ZZ/ST=AA/L=loc/O=org/OU=ch/CN=", stem);
        concat(a.as_str(), "/emailAddress=nope@example.com")
    };
    let k1 = key.as_str().to_owned();
    let k2 = key.as_str().to_owned();
    let c1 = csr.as_str().to_owned();
    let c2 = csr.as_str().to_owned();
    let one = vec![owned("openssl"), owned("genrsa"), owned("-out"), k1, owned("4096")];
    proof {
        assert(texts(one@) =~= seq!["openssl"@, "genrsa"@, "-out"@, key@, "4096"@]);
    }
    push_step(steps, argv(one));
    let two = vec![
        owned("openssl"),
        owned("req"),
        owned("-new"),
        owned("-key"),
        k2,
        owned("-out"),
        c1,
        owned("-subj"),
        subj,
    ];
    proof {
        assert(texts(two@) =~= seq![
            "openssl"@,
            "req"@,
            "-new"@,
            "-key"@,
            key@,
            "-out"@,
            csr@,
            "-subj"@,
            subject(stem@),
        ]);
    }
    push_step(steps, argv(two));
    let three = vec![
        owned("openssl"),
        owned("x509"),
        owned("-req"),
        owned("-in"),
        c2,
        owned("-CA"),
        join(base, "ca.crt"),
        owned("-CAkey"),
        join(base, "ca.key"),
        owned("-CAcreateserial"),
        owned("-days"),
        owned("60"),
        owned("-out"),
        crt,
    ];
    proof {
        assert(texts(three@) =~= seq![
            "openssl"@,
            "x509"@,
            "-req"@,
            "-in"@,
            csr@,
            "-CA"@,
            spec_join(base@, "ca.crt"@),
            "-CAkey"@,
            spec_join(base@, "ca.key"@),
            "-CAcreateserial"@,
            "-days"@,
            "60"@,
            "-out"@,
            crt@,
        ]);
    }
    push_step(steps, argv(three));
    proof {
        assert(steps@.map_values(|x: CertStep| x@) =~= s0 + end_entity_steps(base@, stem@));
    }
}

impl Certs {
    /// Name of the component.
    pub fn name(&self) -> (r: &'static str)
        ensures
            r@ == "pki keys & certificates"@,
    {
        "pki keys & certificates"
    }

    /// State of the certificates (see [`certs_state_kind`]).
    pub fn state(&self) -> (r: StateKind)
        ensures
            r == certs_state_kind(self.state, self.can_create_ca),
    {
        let st = self.state;
        let ok = (st.ca == Some(ItemState::Both) || st.ca == Some(ItemState::OnlyCert)) && st.invoker == Some(
            ItemState::Both,
        ) && st.root == Some(ItemState::Both);
        let generatable = self.can_create_ca || st.ca == Some(ItemState::Both) || st.ca == Some(ItemState::OnlyKey);
        if ok {
            StateKind::UpToDate
        } else if generatable {
            StateKind::Upgradable
        } else {
            StateKind::Errored
        }
    }

    /// How the certificates are shown.
    pub fn describe(&self) -> (r: String)
        ensures
            r@ == certs_text(self.state),
    {
        let mut s = String::new();
        let kinds = ItemKind::all();
        let mut i: usize = 0;
        let ghost parts = seq![
            "ca: "@ + item_text(self.state.ca) + "; "@,
            "invoker: "@ + item_text(self.state.invoker) + "; "@,
            "root: "@ + item_text(self.state.root) + "; "@,
        ];
        proof {
            assert(s@ =~= Seq::<char>::empty());
        }
        while i < 3
            invariant
                kinds@ == seq![ItemKind::CertificateAuthority, ItemKind::Invoker, ItemKind::Root],
                0 <= i <= 3,
                parts == seq![
                    "ca: "@ + item_text(self.state.ca) + "; "@,
                    "invoker: "@ + item_text(self.state.invoker) + "; "@,
                    "root: "@ + item_text(self.state.root) + "; "@,
                ],
                s@ == if i == 0 {
                    Seq::<char>::empty()
                } else if i == 1 {
                    parts[0]
                } else if i == 2 {
                    parts[0] + parts[1]
                } else {
                    parts[0] + parts[1] + parts[2]
                },
            decreases 3 - i,
        {
            let kind = kinds[i];
            let text = match self.state.get(kind) {
                Some(ItemState::Both) => "cert+key",
                Some(ItemState::OnlyCert) => "cert",
                Some(ItemState::OnlyKey) => "key",
                None => "missing",
            };
            let a = concat(kind.file_stem(), ": ");
            let b = concat(a.as_str(), text);
            let c = concat(b.as_str(), "; ");
            let ghost s0 = s@;
            s.append(c.as_str());
            proof {
                reveal_strlit("ca");
                reveal_strlit("invoker");
                reveal_strlit("root");
                reveal_strlit(": ");
                reveal_strlit("ca: ");
                reveal_strlit("invoker: ");
                reveal_strlit("root: ");
                assert("ca: "@ =~= "ca"@ + ": "@);
                assert("invoker: "@ =~= "invoker"@ + ": "@);
                assert("root: "@ =~= "root"@ + ": "@);
                assert(c@ == parts[i as int]);
                if i == 2 {
                    assert(s@ =~= parts[0] + parts[1] + parts[2]);
                } else if i == 1 {
                    assert(s@ =~= parts[0] + parts[1]);
                } else {
                    assert(s@ =~= parts[0]);
                }
            }
            i = i + 1;
        }
        proof {
            assert(parts[0] + parts[1] + parts[2] =~= certs_text(self.state));
        }
        s
    }

    /// The steps of an upgrade (see [`upgrade_steps`]), under the PKI
    /// directory `etc/pki` of the data directory.
    pub fn upgrade_steps(&self) -> (r: Vec<CertStep>)
        ensures
            r@.map_values(|x: CertStep| x@) == upgrade_steps(self.state, spec_join(self.data_dir@, "etc/pki"@)),
    {
        let base = join(self.data_dir.as_str(), "etc/pki");
        let b = base.as_str();
        let st = self.state;
        let mut steps: Vec<CertStep> = Vec::new();
        let ghost e = Seq::<CertStepView>::empty();
        proof {
            assert(steps@.map_values(|x: CertStep| x@) =~= e);
        }
        let have_key = st.ca == Some(ItemState::OnlyKey) || st.ca == Some(ItemState::Both);
        if !have_key {
            push_step(&mut steps, CertStep::Say(owned("Creating CA")));
            let run = vec![owned("openssl"), owned("genrsa"), owned("-out"), join(b, "ca.key"), owned("4096")];
            proof {
                assert(texts(run@) =~= seq!["openssl"@, "genrsa"@, "-out"@, spec_join(b@, "ca.key"@), "4096"@]);
            }
            push_step(&mut steps, argv(run));
        }
        let ghost after_key = steps@.map_values(|x: CertStep| x@);
        let have_cert = st.ca == Some(ItemState::OnlyCert) || st.ca == Some(ItemState::Both);
        if !have_cert {
            push_step(&mut steps, CertStep::Say(owned("Creating CA certificate")));
            let subj = owned("/C=ZZ/ST=AA/L=loc/O=org/OU=ch/CN=jjs-ca/emailAddress=nope@example.com");
            proof {
                reveal_strlit("/C=ZZ/ST=AA/L=loc/O=org/OU=ch/CN=jjs-ca/emailAddress=nope@example.com");
                reveal_strlit("/C=ZZ/ST=AA/L=loc/O=org/OU=ch/CN=");
                reveal_strlit("jjs-ca");
                reveal_strlit("/emailAddress=nope@example.com");
                assert(subj@ =~= subject("jjs-ca"@));
            }
            let run = vec![
                owned("openssl"),
                owned("req"),
                owned("-x509"),
                owned("-new"),
                owned("-key"),
                join(b, "ca.key"),
                owned("-days"),
                owned("365"),
                owned("-subj"),
                subj,
                owned("-out"),
                join(b, "ca.crt"),
            ];
            proof {
                assert(texts(run@) =~= seq![
                    "openssl"@,
                    "req"@,
                    "-x509"@,
                    "-new"@,
                    "-key"@,
                    spec_join(b@, "ca.key"@),
                    "-days"@,
                    "365"@,
                    "-subj"@,
                    subject("jjs-ca"@),
                    "-out"@,
                    spec_join(b@, "ca.crt"@),
                ]);
            }
            push_step(&mut steps, argv(run));
        }
        push_step(&mut steps, CertStep::Say(owned("Creating end entity certificates")));
        if st.invoker != Some(ItemState::Both) {
            end_entity(b, "invoker", &mut steps);
        }
        if st.root != Some(ItemState::Both) {
            end_entity(b, "root", &mut steps);
        }
        proof {
            assert(steps@.map_values(|x: CertStep| x@) =~= upgrade_steps(st, b@));
        }
        steps
    }
}

/// What is at the data directory's place.
#[derive(Debug, Clone, Copy, PartialEq, Eq, Structural)]
pub enum DataDirKind {
    Missing,
    File,
    Directory,
}

/// The state of the data directory's layout.
#[derive(Debug, Clone, Copy, PartialEq, Eq, Structural)]
pub enum DataLayoutState {
    Exists,
    NotExists,
    Unknown,
}

/// The layout exists when the data directory holds `etc` and `var`; a
/// file in its place is unexpected.
pub open spec fn spec_layout_state(kind: DataDirKind, items: Seq<Seq<char>>) -> DataLayoutState {
    match kind {
        DataDirKind::Missing => DataLayoutState::NotExists,
        DataDirKind::File => DataLayoutState::Unknown,
        DataDirKind::Directory => if items.contains("etc"@) && items.contains("var"@) {
            DataLayoutState::Exists
        } else {
            DataLayoutState::NotExists
        },
    }
}

fn contains_text(v: &Vec<String>, s: &str) -> (r: bool)
    ensures
        r == texts(v@).contains(s@),
{
    let mut i: usize = 0;
    while i < v.len()
        invariant
            0 <= i <= v@.len(),
            forall|k: int| 0 <= k < i ==> v@[k]@ != s@,
        decreases v@.len() - i,
    {
        if str_eq(v[i].as_str(), s) {
            proof {
                assert(texts(v@)[i as int] == s@);
            }
            return true;
        }
        i = i + 1;
    }
    proof {
        if texts(v@).contains(s@) {
            let k = choose|k: int| 0 <= k < texts(v@).len() && texts(v@)[k] == s@;
            assert(v@[k]@ == s@);
        }
    }
    false
}

/// The state of the layout, from what is at the data directory's place and
/// the names of its entries.
pub fn find_layout_state(kind: DataDirKind, items: &Vec<String>) -> (r: DataLayoutState)
    ensures
        r == spec_layout_state(kind, texts(items@)),
{
    match kind {
        DataDirKind::Missing => DataLayoutState::NotExists,
        DataDirKind::File => DataLayoutState::Unknown,
        DataDirKind::Directory => {
            if contains_text(items, "etc") && contains_text(items, "var") {
                DataLayoutState::Exists
            } else {
                DataLayoutState::NotExists
            }
        },
    }
}

/// The data directory layout.
#[derive(Debug, Clone)]
pub struct DataLayout {
    pub data_dir: String,
    pub state: DataLayoutState,
}

/// The directories of the layout, below `base`, in the order they are
/// made; `base` itself comes first, made with its parents.
pub open spec fn layout_dirs(base: Seq<char>) -> Seq<Seq<char>> {
    seq![
        base,
        spec_join(base, "var"@),
        spec_join(base, "var/runs"@),
        spec_join(base, "var/problems"@),
        spec_join(base, "etc"@),
        spec_join(base, "etc/pki"@),
        spec_join(base, "etc/objects"@),
        spec_join(base, "etc/objects/toolchains"@),
        spec_join(base, "etc/objects/contests"@),
        spec_join(base, "opt"@),
        spec_join(base, "tmp"@),
    ]
}

impl DataLayout {
    /// Name of the component.
    pub fn name(&self) -> (r: &'static str)
        ensures
            r@ == "data dir layout"@,
    {
        "data dir layout"
    }

    /// An existing layout is up to date, a missing one can be made, anything
    /// else is an error.
    pub fn state(&self) -> (r: StateKind)
        ensures
            r == match self.state {
                DataLayoutState::Exists => StateKind::UpToDate,
                DataLayoutState::NotExists => StateKind::Upgradable,
                DataLayoutState::Unknown => StateKind::Errored,
            },
    {
        match self.state {
            DataLayoutState::Exists => StateKind::UpToDate,
            DataLayoutState::NotExists => StateKind::Upgradable,
            DataLayoutState::Unknown => StateKind::Errored,
        }
    }

    /// How the layout is shown.
    pub fn describe(&self) -> (r: &'static str)
        ensures
            r@ == match self.state {
                DataLayoutState::Exists => "exists and non-empty"@,
                DataLayoutState::NotExists => "does not exist"@,
                DataLayoutState::Unknown => "unexpected"@,
            },
    {
        match self.state {
            DataLayoutState::Exists => "exists and non-empty",
            DataLayoutState::NotExists => "does not exist",
            DataLayoutState::Unknown => "unexpected",
        }
    }

    /// The directories an upgrade makes (see [`layout_dirs`]).
    pub fn upgrade_dirs(&self) -> (r: Vec<String>)
        ensures
            texts(r@) == layout_dirs(self.data_dir@),
    {
        let b = self.data_dir.as_str();
        let r = vec![
            owned(b),
            join(b, "var"),
            join(b, "var/runs"),
            join(b, "var/problems"),
            join(b, "etc"),
            join(b, "etc/pki"),
            join(b, "etc/objects"),
            join(b, "etc/objects/toolchains"),
            join(b, "etc/objects/contests"),
            join(b, "opt"),
            join(b, "tmp"),
        ];
        proof {
            assert(texts(r@) =~= layout_dirs(b@));
        }
        r
    }
}

/// The state of one config file.
#[derive(Debug, Clone, Copy, PartialEq, Eq, Structural)]
pub enum ConfigStateItem {
    /// The installation has it.
    Exists,
    /// It can be copied from the examples.
    CanCopy,
}

/// The example configs and their state.
#[derive(Debug, Clone)]
pub struct ConfigState {
    pub items: Vec<(String, ConfigStateItem)>,
}

/// The example configs of an installation.
#[derive(Debug, Clone)]
pub struct Cfg {
    pub data_dir: String,
    pub install_dir: String,
    pub state: ConfigState,
}

/// The names of the configs with their state.
pub open spec fn config_items(items: Seq<(String, ConfigStateItem)>) -> Seq<(Seq<char>, ConfigStateItem)> {
    items.map_values(|e: (String, ConfigStateItem)| (e.0@, e.1))
}

/// The path of an example config: its path pieces joined with `/`.
pub open spec fn joined(items: Seq<Seq<char>>) -> Seq<char>
    decreases items.len(),
{
    if items.len() == 0 {
        seq![]
    } else if items.len() == 1 {
        items[0]
    } else {
        joined(items.drop_last()) + "/"@ + items.last()
    }
}

/// The path pieces `items` joined with `/`.
pub fn join_items(items: &Vec<String>) -> (r: String)
    ensures
        r@ == joined(texts(items@)),
{
    let mut out = String::new();
    let mut i: usize = 0;
    proof {
        assert(texts(items@).take(0) =~= Seq::<Seq<char>>::empty());
        assert(out@ =~= Seq::<char>::empty());
    }
    while i < items.len()
        invariant
            0 <= i <= items@.len(),
            out@ == joined(texts(items@).take(i as int)),
        decreases items@.len() - i,
    {
        let ghost t = texts(items@);
        proof {
            assert(t.take(i + 1).drop_last() =~= t.take(i as int));
            assert(t.take(i + 1).last() == items@[i as int]@);
        }
        if i > 0 {
            out.append("/");
        }
        out.append(items[i].as_str());
        proof {
            if i == 0 {
                assert(out@ =~= items@[0]@);
                assert(t.take(1)[0] == items@[0]@);
            }
        }
        i = i + 1;
    }
    proof {
        assert(texts(items@).take(items@.len() as int) =~= texts(items@));
    }
    out
}

/// The state of the example configs `available`: without the `etc`
/// directory every one can be copied; else those that `etc` lacks can.
pub open spec fn spec_config_state(available: Seq<Seq<char>>, etc_exists: bool, present: Seq<bool>) -> Seq<
    (Seq<char>, ConfigStateItem),
> {
    Seq::new(
        available.len(),
        |k: int|
            (available[k], if etc_exists && present[k] {
                ConfigStateItem::Exists
            } else {
                ConfigStateItem::CanCopy
            }),
    )
}

/// The state of the example configs (see [`spec_config_state`]);
/// `present` tells, for each, whether `etc` holds it.
pub fn detect_config_state(available: &Vec<String>, etc_exists: bool, present: &Vec<bool>) -> (r: ConfigState)
    requires
        present@.len() == available@.len(),
    ensures
        config_items(r.items@) == spec_config_state(texts(available@), etc_exists, present@),
{
    let mut items: Vec<(String, ConfigStateItem)> = Vec::new();
    let mut i: usize = 0;
    while i < available.len()
        invariant
            0 <= i <= available@.len(),
            present@.len() == available@.len(),
            config_items(items@) == spec_config_state(texts(available@), etc_exists, present@).take(i as int),
        decreases available@.len() - i,
    {
        let st = if etc_exists && present[i] {
            ConfigStateItem::Exists
        } else {
            ConfigStateItem::CanCopy
        };
        let ghost i0 = items@;
        items.push((available[i].as_str().to_owned(), st));
        proof {
            assert(config_items(items@) =~= config_items(i0).push((available@[i as int]@, st)));
            assert(spec_config_state(texts(available@), etc_exists, present@).take(i + 1) =~= spec_config_state(
                texts(available@),
                etc_exists,
                present@,
            ).take(i as int).push((available@[i as int]@, st)));
        }
        i = i + 1;
    }
    proof {
        assert(spec_config_state(texts(available@), etc_exists, present@).take(available@.len() as int)
            =~= spec_config_state(texts(available@), etc_exists, present@));
    }
    ConfigState { items }
}

/// How the configs are shown: each with its state.
pub open spec fn configs_text(items: Seq<(Seq<char>, ConfigStateItem)>) -> Seq<char>
    decreases items.len(),
{
    if items.len() == 0 {
        seq![]
    } else {
        configs_text(items.drop_last()) + items.last().0 + ": "@ + match items.last().1 {
            ConfigStateItem::CanCopy => "copyable"@,
            ConfigStateItem::Exists => "already exists"@,
        } + ";"@
    }
}

/// The copies that an upgrade makes: from the examples to `etc`, for each
/// config that can be copied.
pub open spec fn config_copies(install_dir: Seq<char>, data_dir: Seq<char>, items: Seq<(Seq<char>, ConfigStateItem)>) -> Seq<
    (Seq<char>, Seq<char>),
>
    decreases items.len(),
{
    if items.len() == 0 {
        seq![]
    } else {
        config_copies(install_dir, data_dir, items.drop_last()) + if items.last().1 == ConfigStateItem::CanCopy {
            seq![
                (
                    spec_join(install_dir, "example-config/"@ + items.last().0),
                    spec_join(data_dir, "etc/"@ + items.last().0),
                ),
            ]
        } else {
            seq![]
        }
    }
}

impl Cfg {
    /// Name of the component.
    pub fn name(&self) -> (r: &'static str)
        ensures
            r@ == "configs"@,
    {
        "configs"
    }

    /// The configs are up to date unless one can be copied.
    pub fn state(&self) -> (r: StateKind)
        ensures
            r == if exists|k: int|
                0 <= k < self.state.items@.len() && (#[trigger] self.state.items@[k]).1 == ConfigStateItem::CanCopy {
                StateKind::Upgradable
            } else {
                StateKind::UpToDate
            },
    {
        let mut i: usize = 0;
        while i < self.state.items.len()
            invariant
                0 <= i <= self.state.items@.len(),
                forall|k: int| 0 <= k < i ==> (#[trigger] self.state.items@[k]).1 != ConfigStateItem::CanCopy,
            decreases self.state.items@.len() - i,
        {
            if self.state.items[i].1 == ConfigStateItem::CanCopy {
                return StateKind::Upgradable;
            }
            i = i + 1;
        }
        StateKind::UpToDate
    }

    /// How the configs are shown.
    pub fn describe(&self) -> (r: String)
        ensures
            r@ == configs_text(config_items(self.state.items@)),
    {
        let items = &self.state.items;
        let ghost ci = config_items(items@);
        let mut s = String::new();
        let mut i: usize = 0;
        proof {
            assert(ci.take(0) =~= Seq::<(Seq<char>, ConfigStateItem)>::empty());
            assert(s@ =~= Seq::<char>::empty());
        }
        while i < items.len()
            invariant
                0 <= i <= items@.len(),
                ci == config_items(items@),
                s@ == configs_text(ci.take(i as int)),
            decreases items@.len() - i,
        {
            proof {
                assert(ci.take(i + 1).drop_last() =~= ci.take(i as int));
                assert(ci.take(i + 1).last() == (items@[i as int].0@, items@[i as int].1));
            }
            let ghost s0 = s@;
            s.append(items[i].0.as_str());
            s.append(": ");
            let d = match items[i].1 {
                ConfigStateItem::CanCopy => "copyable",
                ConfigStateItem::Exists => "already exists",
            };
            s.append(d);
            s.append(";");
            proof {
                assert(s@ =~= s0 + items@[i as int].0@ + ": "@ + d@ + ";"@);
            }
            i = i + 1;
        }
        proof {
            assert(ci.take(items@.len() as int) =~= ci);
        }
        s
    }

    /// The copies an upgrade makes (see [`config_copies`]): source and
    /// destination of each.
    pub fn upgrade_copies(&self) -> (r: Vec<(String, String)>)
        ensures
            r@.map_values(|e: (String, String)| (e.0@, e.1@)) == config_copies(
                self.install_dir@,
                self.data_dir@,
                config_items(self.state.items@),
            ),
    {
        let items = &self.state.items;
        let ghost ci = config_items(items@);
        let mut out: Vec<(String, String)> = Vec::new();
        let mut i: usize = 0;
        proof {
            assert(ci.take(0) =~= Seq::<(Seq<char>, ConfigStateItem)>::empty());
            assert(out@.map_values(|e: (String, String)| (e.0@, e.1@)) =~= Seq::<(Seq<char>, Seq<char>)>::empty());
        }
        while i < items.len()
            invariant
                0 <= i <= items@.len(),
                ci == config_items(items@),
                out@.map_values(|e: (String, String)| (e.0@, e.1@)) == config_copies(
                    self.install_dir@,
                    self.data_dir@,
                    ci.take(i as int),
                ),
            decreases items@.len() - i,
        {
            proof {
                assert(ci.take(i + 1).drop_last() =~= ci.take(i as int));
                assert(ci.take(i + 1).last() == (items@[i as int].0@, items@[i as int].1));
            }
            let ghost o0 = out@;
            if items[i].1 == ConfigStateItem::CanCopy {
                let name = items[i].0.as_str();
                let src = join(self.install_dir.as_str(), concat("example-config/", name).as_str());
                let dst = join(self.data_dir.as_str(), concat("etc/", name).as_str());
                out.push((src, dst));
                proof {
                    assert(out@.map_values(|e: (String, String)| (e.0@, e.1@)) =~= o0.map_values(
                        |e: (String, String)| (e.0@, e.1@),
                    ).push((src@, dst@)));
                }
            } else {
                proof {
                    assert(config_copies(self.install_dir@, self.data_dir@, ci.take(i + 1)) =~= config_copies(
                        self.install_dir@,
                        self.data_dir@,
                        ci.take(i as int),
                    ) + Seq::<(Seq<char>, Seq<char>)>::empty());
                }
            }
            i = i + 1;
        }
        proof {
            assert(ci.take(items@.len() as int) =~= ci);
        }
        out
    }
}

/// Installed toolchains, and those that could be installed as well.
#[derive(Debug, Clone)]
pub struct TcsState {
    pub installed: Vec<String>,
    pub extra: Vec<String>,
}

/// The toolchains of `available` that pass the lists and are not
/// installed, in order.
pub open spec fn extra_toolchains(
    available: Seq<Seq<char>>,
    installed: Seq<Seq<char>>,
    blacklist: Seq<Seq<char>>,
    whitelist: Seq<Seq<char>>,
) -> Seq<Seq<char>>
    decreases available.len(),
{
    if available.len() == 0 {
        seq![]
    } else {
        let prev = extra_toolchains(available.drop_last(), installed, blacklist, whitelist);
        let tc = available.last();
        if spec_toolchain_allowed(tc, blacklist, whitelist) && !installed.contains(tc) {
            prev.push(tc)
        } else {
            prev
        }
    }
}

/// The state of the toolchains: those installed, and those of `available`
/// that pass the lists and are not installed.
pub fn detect_tcs_state(
    installed: Vec<String>,
    available: &Vec<String>,
    blacklist: &Vec<String>,
    whitelist: &Vec<String>,
) -> (r: TcsState)
    ensures
        r.installed == installed,
        texts(r.extra@) == extra_toolchains(texts(available@), texts(installed@), texts(blacklist@), texts(whitelist@)),
{
    let mut extra: Vec<String> = Vec::new();
    let mut i: usize = 0;
    let ghost av = texts(available@);
    proof {
        assert(av.take(0) =~= Seq::<Seq<char>>::empty());
        assert(texts(extra@) =~= Seq::<Seq<char>>::empty());
    }
    while i < available.len()
        invariant
            0 <= i <= available@.len(),
            av == texts(available@),
            texts(extra@) == extra_toolchains(av.take(i as int), texts(installed@), texts(blacklist@), texts(whitelist@)),
        decreases available@.len() - i,
    {
        let tc = available[i].as_str();
        proof {
            assert(av.take(i + 1).drop_last() =~= av.take(i as int));
            assert(av.take(i + 1).last() == tc@);
        }
        if toolchain_allowed(tc, blacklist, whitelist) && !contains_text(&installed, tc) {
            let ghost e0 = extra@;
            extra.push(tc.to_owned());
            proof {
                assert(texts(extra@) =~= texts(e0).push(tc@));
            }
        }
        i = i + 1;
    }
    proof {
        assert(av.take(available@.len() as int) =~= av);
    }
    TcsState { installed, extra }
}

/// The toolchains of an installation.
#[derive(Debug, Clone)]
pub struct Toolchains {
    pub install_dir: String,
    pub data_dir: String,
    /// Strategies to set them up with.
    pub strategies: Vec<String>,
    /// Extra arguments of the configuring program.
    pub custom_argv: Vec<String>,
    pub state: TcsState,
}

/// `flag` before each of `values`.
pub open spec fn flagged(flag: Seq<char>, values: Seq<Seq<char>>) -> Seq<Seq<char>>
    decreases values.len(),
{
    if values.len() == 0 {
        seq![]
    } else {
        flagged(flag, values.drop_last()) + seq![flag, values.last()]
    }
}

/// The command that sets up the extra toolchains: the configuring program,
/// the templates and the data directory, then each toolchain and each
/// strategy after their flags, then the extra arguments.
pub open spec fn toolchains_command(t: Toolchains) -> Seq<Seq<char>> {
    seq![
        spec_join(t.install_dir@, "bin/jjs-configure-toolchains"@),
        spec_join(t.install_dir@, "toolchains"@),
        t.data_dir@,
    ] + flagged("--toolchains"@, texts(t.state.extra@)) + flagged("--strategies"@, texts(t.strategies@)) + texts(
        t.custom_argv@,
    )
}

/// Appends `flag` and each of `values` to `out`.
fn push_flagged(out: &mut Vec<String>, flag: &str, values: &Vec<String>)
    ensures
        texts(final(out)@) == texts(old(out)@) + flagged(flag@, texts(values@)),
{
    let ghost o0 = texts(out@);
    let mut i: usize = 0;
    proof {
        assert(texts(values@).take(0) =~= Seq::<Seq<char>>::empty());
        assert(o0 + flagged(flag@, Seq::<Seq<char>>::empty()) =~= o0);
    }
    while i < values.len()
        invariant
            0 <= i <= values@.len(),
            texts(out@) == o0 + flagged(flag@, texts(values@).take(i as int)),
        decreases values@.len() - i,
    {
        let ghost oi = out@;
        out.push(owned(flag));
        out.push(values[i].as_str().to_owned());
        proof {
            let t = texts(values@);
            assert(t.take(i + 1).drop_last() =~= t.take(i as int));
            assert(t.take(i + 1).last() == values@[i as int]@);
            assert(texts(out@) =~= texts(oi) + seq![flag@, values@[i as int]@]);
            assert(o0 + flagged(flag@, t.take(i + 1)) =~= o0 + flagged(flag@, t.take(i as int)) + seq![
                flag@,
                values@[i as int]@,
            ]);
        }
        i = i + 1;
    }
    proof {
        assert(texts(values@).take(values@.len() as int) =~= texts(values@));
    }
}

impl Toolchains {
    /// Name of the component.
    pub fn name(&self) -> (r: &'static str)
        ensures
            r@ == "toolchains"@,
    {
        "toolchains"
    }

    /// The toolchains are up to date unless some can be installed.
    pub fn state(&self) -> (r: StateKind)
        ensures
            r == if self.state.extra@.len() == 0 {
                StateKind::UpToDate
            } else {
                StateKind::Upgradable
            },
    {
        if self.state.extra.len() == 0 {
            StateKind::UpToDate
        } else {
            StateKind::Upgradable
        }
    }

    /// The command an upgrade runs (see [`toolchains_command`]).
    pub fn upgrade_command(&self) -> (r: Vec<String>)
        ensures
            texts(r@) == toolchains_command(*self),
    {
        let mut out: Vec<String> = Vec::new();
        out.push(join(self.install_dir.as_str(), "bin/jjs-configure-toolchains"));
        out.push(join(self.install_dir.as_str(), "toolchains"));
        out.push(self.data_dir.as_str().to_owned());
        proof {
            assert(texts(out@) =~= seq![
                spec_join(self.install_dir@, "bin/jjs-configure-toolchains"@),
                spec_join(self.install_dir@, "toolchains"@),
                self.data_dir@,
            ]);
        }
        push_flagged(&mut out, "--toolchains", &self.state.extra);
        push_flagged(&mut out, "--strategies", &self.strategies);
        let ghost o1 = texts(out@);
        let mut i: usize = 0;
        proof {
            assert(texts(self.custom_argv@).take(0) =~= Seq::<Seq<char>>::empty());
            assert(o1 + Seq::<Seq<char>>::empty() =~= o1);
        }
        while i < self.custom_argv.len()
            invariant
                0 <= i <= self.custom_argv@.len(),
                texts(out@) == o1 + texts(self.custom_argv@).take(i as int),
            decreases self.custom_argv@.len() - i,
        {
            let ghost oi = out@;
            out.push(self.custom_argv[i].as_str().to_owned());
            proof {
                let t = texts(self.custom_argv@);
                assert(texts(out@) =~= texts(oi).push(self.custom_argv@[i as int]@));
                assert(o1 + t.take(i + 1) =~= (o1 + t.take(i as int)).push(self.custom_argv@[i as int]@));
            }
            i = i + 1;
        }
        proof {
            assert(texts(self.custom_argv@).take(self.custom_argv@.len() as int) =~= texts(self.custom_argv@));
        }
        out
    }
}

/// The problems of an installation.
#[derive(Debug, Clone)]
pub struct Problems {
    pub data_dir: String,
    pub install_dir: String,
    pub state: ProblemsState,
}

/// Names joined with `, `, or `<none>` when there are none.
pub open spec fn names_text(names: Seq<Seq<char>>) -> Seq<char> {
    if names.len() == 0 {
        "<none>"@
    } else {
        comma_joined(names)
    }
}

/// Names joined with `, `.
pub open spec fn comma_joined(names: Seq<Seq<char>>) -> Seq<char>
    decreases names.len(),
{
    if names.len() == 0 {
        seq![]
    } else if names.len() == 1 {
        names[0]
    } else {
        comma_joined(names.drop_last()) + ", "@ + names.last()
    }
}

/// How the problems are shown: those in the config, and those that can be
/// installed.
pub open spec fn problems_text(st: ProblemsState) -> Seq<char> {
    "current: "@ + names_text(texts(st.config_problems@)) + "; available: "@ + names_text(
        extra_of(st.config_problems@, st.installable_problems@).map_values(|e: (Seq<char>, Seq<char>)| e.0),
    )
}

/// Names joined with `, `, or `<none>`.
fn names_joined(names: &Vec<String>) -> (r: String)
    ensures
        r@ == names_text(texts(names@)),
{
    if names.len() == 0 {
        return owned("<none>");
    }
    let mut s = String::new();
    let mut i: usize = 0;
    proof {
        assert(texts(names@).take(0) =~= Seq::<Seq<char>>::empty());
        assert(s@ =~= Seq::<char>::empty());
    }
    while i < names.len()
        invariant
            0 <= i <= names@.len(),
            s@ == comma_joined(texts(names@).take(i as int)),
        decreases names@.len() - i,
    {
        let ghost t = texts(names@);
        proof {
            assert(t.take(i + 1).drop_last() =~= t.take(i as int));
            assert(t.take(i + 1).last() == names@[i as int]@);
        }
        if i > 0 {
            s.append(", ");
        }
        s.append(names[i].as_str());
        proof {
            if i == 0 {
                assert(s@ =~= names@[0]@);
                assert(t.take(1)[0] == names@[0]@);
            }
        }
        i = i + 1;
    }
    proof {
        assert(texts(names@).take(names@.len() as int) =~= texts(names@));
    }
    s
}

/// The compilation of one problem that an upgrade makes: the directory it
/// makes and the command it runs.
pub open spec fn problem_build(install_dir: Seq<char>, data_dir: Seq<char>, e: (Seq<char>, Seq<char>)) -> (
    Seq<char>,
    Seq<Seq<char>>,
) {
    let out_dir = spec_join(spec_join(data_dir, "var/problems"@), e.0);
    (out_dir, seq![spec_join(install_dir, "bin/jjs-ppc"@), "compile"@, "--pkg"@, e.1, "--out"@, out_dir])
}

impl Problems {
    /// Name of the component.
    pub fn name(&self) -> (r: &'static str)
        ensures
            r@ == "problems"@,
    {
        "problems"
    }

    /// The problems are up to date unless some can be installed.
    pub fn state(&self) -> (r: StateKind)
        ensures
            r == if extra_of(self.state.config_problems@, self.state.installable_problems@).len() == 0 {
                StateKind::UpToDate
            } else {
                StateKind::Upgradable
            },
    {
        let extra = self.state.extra();
        proof {
            assert(extra@.map_values(|e: (String, String)| (e.0@, e.1@)).len() == extra@.len());
        }
        if extra.len() == 0 {
            StateKind::UpToDate
        } else {
            StateKind::Upgradable
        }
    }

    /// How the problems are shown.
    pub fn describe(&self) -> (r: String)
        ensures
            r@ == problems_text(self.state),
    {
        let extra = self.state.extra();
        let mut names: Vec<String> = Vec::new();
        let mut i: usize = 0;
        let ghost ev = extra@.map_values(|e: (String, String)| (e.0@, e.1@));
        while i < extra.len()
            invariant
                0 <= i <= extra@.len(),
                ev == extra@.map_values(|e: (String, String)| (e.0@, e.1@)),
                texts(names@) == ev.map_values(|e: (Seq<char>, Seq<char>)| e.0).take(i as int),
            decreases extra@.len() - i,
        {
            let ghost n0 = names@;
            names.push(extra[i].0.as_str().to_owned());
            proof {
                assert(texts(names@) =~= texts(n0).push(extra@[i as int].0@));
                assert(ev.map_values(|e: (Seq<char>, Seq<char>)| e.0).take(i + 1) =~= ev.map_values(
                    |e: (Seq<char>, Seq<char>)| e.0,
                ).take(i as int).push(extra@[i as int].0@));
            }
            i = i + 1;
        }
        proof {
            assert(ev.map_values(|e: (Seq<char>, Seq<char>)| e.0).take(extra@.len() as int) =~= ev.map_values(
                |e: (Seq<char>, Seq<char>)| e.0,
            ));
        }
        let current = names_joined(&self.state.config_problems);
        let available = names_joined(&names);
        let mut s = owned("current: ");
        s.append(current.as_str());
        s.append("; available: ");
        s.append(available.as_str());
        proof {
            assert(s@ =~= problems_text(self.state));
        }
        s
    }

    /// The compilations an upgrade makes, one per problem that can be
    /// installed (see [`problem_build`]).
    pub fn upgrade_builds(&self) -> (r: Vec<(String, Vec<String>)>)
        ensures
            r@.map_values(|b: (String, Vec<String>)| (b.0@, texts(b.1@))) == extra_of(
                self.state.config_problems@,
                self.state.installable_problems@,
            ).map_values(|e: (Seq<char>, Seq<char>)| problem_build(self.install_dir@, self.data_dir@, e)),
    {
        let extra = self.state.extra();
        let ghost ev = extra@.map_values(|e: (String, String)| (e.0@, e.1@));
        let mut out: Vec<(String, Vec<String>)> = Vec::new();
        let mut i: usize = 0;
        while i < extra.len()
            invariant
                0 <= i <= extra@.len(),
                ev == extra@.map_values(|e: (String, String)| (e.0@, e.1@)),
                out@.map_values(|b: (String, Vec<String>)| (b.0@, texts(b.1@))) == ev.map_values(
                    |e: (Seq<char>, Seq<char>)| problem_build(self.install_dir@, self.data_dir@, e),
                ).take(i as int),
            decreases extra@.len() - i,
        {
            let name = extra[i].0.as_str();
            let path = extra[i].1.as_str();
            let problems_dir = join(self.data_dir.as_str(), "var/problems");
            let out_dir = join(problems_dir.as_str(), name);
            let cmd = vec![
                join(self.install_dir.as_str(), "bin/jjs-ppc"),
                owned("compile"),
                owned("--pkg"),
                owned(path),
                owned("--out"),
                out_dir.as_str().to_owned(),
            ];
            let ghost o0 = out@;
            let ghost b = problem_build(self.install_dir@, self.data_dir@, ev[i as int]);
            proof {
                assert(ev[i as int] == (name@, path@));
                assert(texts(cmd@) =~= b.1);
            }
            out.push((out_dir, cmd));
            proof {
                assert(out@.map_values(|b: (String, Vec<String>)| (b.0@, texts(b.1@))) =~= o0.map_values(
                    |b: (String, Vec<String>)| (b.0@, texts(b.1@)),
                ).push(b));
                assert(ev.map_values(|e: (Seq<char>, Seq<char>)| problem_build(self.install_dir@, self.data_dir@, e)).take(
                    i + 1,
                ) =~= ev.map_values(|e: (Seq<char>, Seq<char>)| problem_build(self.install_dir@, self.data_dir@, e)).take(
                    i as int,
                ).push(b));
            }
            i = i + 1;
        }
        proof {
            assert(ev.map_values(|e: (Seq<char>, Seq<char>)| problem_build(self.install_dir@, self.data_dir@, e)).take(
                extra@.len() as int,
            ) =~= ev.map_values(|e: (Seq<char>, Seq<char>)| problem_build(self.install_dir@, self.data_dir@, e)));
        }
        out
    }
}

} // verus!
