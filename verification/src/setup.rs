//! Setup of a JJS installation: the components it manages and the
//! decisions about their state.
use vstd::prelude::*;
use crate::text::{chars_of, string_of, string_push, str_eq};

verus! {

/// How the database is reached.
#[derive(Debug, Clone)]
pub struct ConnectionSettings {
    pub conn_string: String,
    pub db_name: String,
}

/// What database setup works with.
#[derive(Debug, Clone, Copy)]
pub struct DbContext<'a> {
    pub settings: &'a ConnectionSettings,
    pub install_dir: &'a str,
}

/// `base` joined with relative path `rel`, as `Path::join` does on Unix:
/// a separator goes between them unless `base` is empty or ends with one.
pub open spec fn join_relative(base: Seq<char>, rel: Seq<char>) -> Seq<char> {
    if base.len() == 0 || base.last() == '/' {
        base + rel
    } else {
        base.push('/') + rel
    }
}

impl<'a> DbContext<'a> {
    /// Directory holding the migrations.
    pub fn migrations_dir(self) -> (r: String)
        ensures
            r@ == join_relative(self.install_dir@, "share/db"@),
    {
        let cs = chars_of(self.install_dir);
        let mut out = string_of(&cs);
        if cs.len() > 0 && cs[cs.len() - 1] != '/' {
            string_push(&mut out, '/');
        }
        let rel = chars_of("share/db");
        let n = rel.len();
        let ghost base = out@;
        let mut i: usize = 0;
        while i < n
            invariant
                n == rel@.len(),
                rel@ == "share/db"@,
                0 <= i <= n,
                out@ == base + rel@.take(i as int),
            decreases n - i,
        {
            string_push(&mut out, rel[i]);
            proof {
                assert(rel@.take(i + 1) =~= rel@.take(i as int).push(rel@[i as int]));
                assert(base + rel@.take(i + 1) =~= (base + rel@.take(i as int)).push(rel@[i as int]));
            }
            i = i + 1;
        }
        proof {
            assert(rel@.take(n as int) =~= rel@);
        }
        out
    }
}

/// What is known of the database's version.
#[derive(Debug, Clone)]
pub enum DatabaseVersion {
    RevisionInfoMissing,
    Missing,
    Version { current: String, latest: Option<String> },
}

/// The database component.
#[derive(Debug, Clone)]
pub struct Database<'a> {
    pub version: DatabaseVersion,
    pub cx: DbContext<'a>,
}

/// State of a component of the installation.
#[derive(Debug, Clone, Copy, PartialEq, Eq, Structural)]
pub enum StateKind {
    UpToDate,
    Upgradable,
    Errored,
}

impl StateKind {
    /// Name of the state, as it is displayed.
    pub fn describe(self) -> (r: &'static str)
        ensures
            self == StateKind::UpToDate ==> r@ == "UpToDate"@,
            self == StateKind::Upgradable ==> r@ == "Upgradable"@,
            self == StateKind::Errored ==> r@ == "Errored"@,
    {
        match self {
            StateKind::UpToDate => "UpToDate",
            StateKind::Upgradable => "Upgradable",
            StateKind::Errored => "Errored",
        }
    }
}

/// A component of the installation.
pub trait Component {
    /// Name of the component.
    fn name(&self) -> &'static str;
}

/// State of the database: unknown revision is an error, a missing database
/// or pending migrations can be upgraded.
pub open spec fn spec_database_state(v: DatabaseVersion) -> StateKind {
    match v {
        DatabaseVersion::RevisionInfoMissing => StateKind::Errored,
        DatabaseVersion::Missing => StateKind::Upgradable,
        DatabaseVersion::Version { latest, .. } => if latest is None {
            StateKind::UpToDate
        } else {
            StateKind::Upgradable
        },
    }
}

impl<'a> Database<'a> {
    /// State of the database.
    pub fn state(&self) -> (r: StateKind)
        ensures
            r == spec_database_state(self.version),
    {
        match &self.version {
            DatabaseVersion::RevisionInfoMissing => StateKind::Errored,
            DatabaseVersion::Missing => StateKind::Upgradable,
            DatabaseVersion::Version { latest, .. } => {
                if latest.is_none() {
                    StateKind::UpToDate
                } else {
                    StateKind::Upgradable
                }
            },
        }
    }
}

impl<'a> Component for Database<'a> {
    fn name(&self) -> (r: &'static str)
        ensures
            r@ == "database"@,
    {
        "database"
    }
}

/// What the setup tool is asked to do.
#[derive(Debug, Clone, Copy, PartialEq, Eq, Structural)]
pub enum Subcommand {
    Describe,
    Upgrade,
}

impl Subcommand {
    /// Whether components are to be upgraded.
    pub fn is_upgrade(self) -> (r: bool)
        ensures
            r == (self == Subcommand::Upgrade),
    {
        match self {
            Subcommand::Describe => false,
            Subcommand::Upgrade => true,
        }
    }
}

/// A certificate of the installation.
#[derive(Debug, Clone, Copy, PartialEq, Eq, Structural)]
pub enum ItemKind {
    CertificateAuthority,
    Invoker,
    Root,
}

impl ItemKind {
    /// Every certificate, in order.
    pub fn all() -> (r: Vec<ItemKind>)
        ensures
            r@ == seq![ItemKind::CertificateAuthority, ItemKind::Invoker, ItemKind::Root],
    {
        let mut v: Vec<ItemKind> = Vec::new();
        v.push(ItemKind::CertificateAuthority);
        v.push(ItemKind::Invoker);
        v.push(ItemKind::Root);
        v
    }

    /// Stem of the certificate's files.
    pub fn file_stem(self) -> (r: &'static str)
        ensures
            self == ItemKind::CertificateAuthority ==> r@ == "ca"@,
            self == ItemKind::Invoker ==> r@ == "invoker"@,
            self == ItemKind::Root ==> r@ == "root"@,
    {
        match self {
            ItemKind::CertificateAuthority => "ca",
            ItemKind::Invoker => "invoker",
            ItemKind::Root => "root",
        }
    }
}

/// Problems named in the config, and problems that could be installed
/// (with their paths).
#[derive(Debug, Clone)]
pub struct ProblemsState {
    pub config_problems: Vec<String>,
    pub installable_problems: Vec<(String, String)>,
}

/// Installable problems whose names the config lacks, in order.
pub open spec fn extra_of(config: Seq<String>, installable: Seq<(String, String)>) -> Seq<(Seq<char>, Seq<char>)>
    decreases installable.len(),
{
    if installable.len() == 0 {
        Seq::empty()
    } else {
        let prev = extra_of(config, installable.drop_last());
        let last = installable.last();
        if exists|k: int| 0 <= k < config.len() && config[k]@ == last.0@ {
            prev
        } else {
            prev.push((last.0@, last.1@))
        }
    }
}

/// Whether some name of `names` equals `name`.
fn contains_name(names: &Vec<String>, name: &String) -> (r: bool)
    ensures
        r == exists|k: int| 0 <= k < names@.len() && names@[k]@ == name@,
{
    let n = names.len();
    let mut i: usize = 0;
    while i < n
        invariant
            n == names@.len(),
            0 <= i <= n,
            forall|k: int| 0 <= k < i ==> names@[k]@ != name@,
        decreases n - i,
    {
        if crate::text::str_eq(names[i].as_str(), name.as_str()) {
            return true;
        }
        i = i + 1;
    }
    false
}

impl ProblemsState {
    /// Installable problems that the config does not name yet.
    pub fn extra(&self) -> (r: Vec<(String, String)>)
        ensures
            r@.map_values(|e: (String, String)| (e.0@, e.1@)) == extra_of(
                self.config_problems@,
                self.installable_problems@,
            ),
    {
        let n = self.installable_problems.len();
        let mut out: Vec<(String, String)> = Vec::new();
        let mut i: usize = 0;
        while i < n
            invariant
                n == self.installable_problems@.len(),
                0 <= i <= n,
                out@.map_values(|e: (String, String)| (e.0@, e.1@)) == extra_of(
                    self.config_problems@,
                    self.installable_problems@.take(i as int),
                ),
            decreases n - i,
        {
            let item = &self.installable_problems[i];
            proof {
                assert(self.installable_problems@.take(i + 1).drop_last() =~= self.installable_problems@.take(i as int));
                assert(self.installable_problems@.take(i + 1).last() == *item);
            }
            let ghost o0 = out@;
            if !contains_name(&self.config_problems, &item.0) {
                out.push((item.0.clone(), item.1.clone()));
                proof {
                    assert(out@.map_values(|e: (String, String)| (e.0@, e.1@)) =~= o0.map_values(
                        |e: (String, String)| (e.0@, e.1@),
                    ).push((item.0@, item.1@)));
                }
            }
            i = i + 1;
        }
        proof {
            assert(self.installable_problems@.take(n as int) =~= self.installable_problems@);
        }
        out
    }
}

/// `a` comes before `b` in the order of strings: by characters, which is
/// the order of their UTF-8 bytes, a proper prefix first.
pub open spec fn text_lt(a: Seq<char>, b: Seq<char>) -> bool
    decreases a.len(),
{
    if a.len() == 0 {
        b.len() > 0
    } else if b.len() == 0 {
        false
    } else if a[0] != b[0] {
        a[0] < b[0]
    } else {
        text_lt(a.drop_first(), b.drop_first())
    }
}

/// No text comes before itself.
pub proof fn lemma_text_lt_irreflexive(a: Seq<char>)
    ensures
        !text_lt(a, a),
    decreases a.len(),
{
    if a.len() > 0 {
        lemma_text_lt_irreflexive(a.drop_first());
    }
}

/// The order of texts is transitive.
pub proof fn lemma_text_lt_transitive(a: Seq<char>, b: Seq<char>, c: Seq<char>)
    requires
        text_lt(a, b),
        text_lt(b, c),
    ensures
        text_lt(a, c),
    decreases a.len(),
{
    if a.len() > 0 && b.len() > 0 && c.len() > 0 && a[0] == b[0] && b[0] == c[0] {
        lemma_text_lt_transitive(a.drop_first(), b.drop_first(), c.drop_first());
    }
}

/// Of two different texts, one comes first.
pub proof fn lemma_text_lt_total(a: Seq<char>, b: Seq<char>)
    requires
        a != b,
    ensures
        text_lt(a, b) || text_lt(b, a),
    decreases a.len(),
{
    if a.len() > 0 && b.len() > 0 && a[0] == b[0] {
        if a.drop_first() == b.drop_first() {
            assert(a =~= seq![a[0]] + a.drop_first());
            assert(b =~= seq![b[0]] + b.drop_first());
        }
        lemma_text_lt_total(a.drop_first(), b.drop_first());
    } else if a.len() == 0 && b.len() == 0 {
        assert(a =~= b);
    }
}

/// Whether `a` comes before `b` in the order of strings.
pub fn text_less(a: &str, b: &str) -> (r: bool)
    ensures
        r == text_lt(a@, b@),
{
    let ca = chars_of(a);
    let cb = chars_of(b);
    let mut i: usize = 0;
    proof {
        assert(ca@.skip(0) =~= ca@);
        assert(cb@.skip(0) =~= cb@);
    }
    loop
        invariant
            ca@ == a@,
            cb@ == b@,
            i <= ca@.len(),
            i <= cb@.len(),
            text_lt(a@, b@) == text_lt(ca@.skip(i as int), cb@.skip(i as int)),
        decreases ca@.len() - i,
    {
        if i == ca.len() {
            return i < cb.len();
        }
        if i == cb.len() {
            return false;
        }
        if ca[i] != cb[i] {
            return ca[i] < cb[i];
        }
        proof {
            assert(ca@.skip(i as int).drop_first() =~= ca@.skip(i + 1));
            assert(cb@.skip(i as int).drop_first() =~= cb@.skip(i + 1));
        }
        i = i + 1;
    }
}

/// The texts of a list of strings.
pub open spec fn texts(v: Seq<String>) -> Seq<Seq<char>> {
    v.map_values(|s: String| s@)
}

/// A migration is pending: none is applied yet, or it comes after the
/// current one.
pub open spec fn is_pending(m: Seq<char>, current: Option<&str>) -> bool {
    match current {
        None => true,
        Some(c) => text_lt(c@, m),
    }
}

/// Every text comes before the ones after it.
pub open spec fn strictly_sorted(v: Seq<Seq<char>>) -> bool {
    forall|i: int, j: int| 0 <= i < j < v.len() ==> text_lt(#[trigger] v[i], #[trigger] v[j])
}

/// The migrations among `names` that are still to be applied after
/// `current` (all of them without a current one), each once, in the order
/// of their names.
pub fn pending_migrations(names: &Vec<String>, current: Option<&str>) -> (r: Vec<String>)
    ensures
        strictly_sorted(texts(r@)),
        forall|x: Seq<char>|
            #[trigger] texts(r@).contains(x) <==> (texts(names@).contains(x) && is_pending(x, current)),
{
    let mut out: Vec<String> = Vec::new();
    let mut i: usize = 0;
    while i < names.len()
        invariant
            0 <= i <= names@.len(),
            strictly_sorted(texts(out@)),
            forall|x: Seq<char>|
                #[trigger] texts(out@).contains(x) <==> (texts(names@.take(i as int)).contains(x) && is_pending(
                    x,
                    current,
                )),
        decreases names@.len() - i,
    {
        let name = names[i].as_str();
        let ghost t0 = texts(out@);
        proof {
            assert(texts(names@.take(i + 1)) =~= texts(names@.take(i as int)).push(name@));
        }
        let pending = match current {
            None => true,
            Some(c) => text_less(c, name),
        };
        if pending {
            let mut p: usize = 0;
            while p < out.len() && text_less(out[p].as_str(), name)
                invariant
                    0 <= p <= out@.len(),
                    t0 == texts(out@),
                    forall|k: int| 0 <= k < p ==> text_lt(#[trigger] t0[k], name@),
                decreases out@.len() - p,
            {
                p = p + 1;
            }
            let dup = p < out.len() && str_eq(out[p].as_str(), name);
            if !dup {
                proof {
                    if p < out@.len() {
                        lemma_text_lt_total(t0[p as int], name@);
                    }
                    assert forall|k: int| p <= k < t0.len() implies text_lt(name@, #[trigger] t0[k]) by {
                        if k > p {
                            lemma_text_lt_transitive(name@, t0[p as int], t0[k]);
                        }
                    }
                }
                out.insert(p, name.to_owned());
                proof {
                    let t1 = texts(out@);
                    assert(t1 =~= t0.insert(p as int, name@));
                    assert forall|a: int, b: int| 0 <= a < b < t1.len() implies text_lt(#[trigger] t1[a], #[trigger] t1[b]) by {
                        if b < p {
                            assert(t1[a] == t0[a] && t1[b] == t0[b]);
                        } else if b == p {
                            assert(t1[a] == t0[a]);
                        } else if a < p {
                            assert(t1[a] == t0[a] && t1[b] == t0[b - 1]);
                            lemma_text_lt_transitive(t0[a], name@, t0[b - 1]);
                        } else if a == p {
                            assert(t1[b] == t0[b - 1]);
                        } else {
                            assert(t1[a] == t0[a - 1] && t1[b] == t0[b - 1]);
                        }
                    }
                    assert forall|x: Seq<char>| #[trigger] t1.contains(x) <==> (t0.contains(x) || x == name@) by {
                        if t0.contains(x) {
                            let k = choose|k: int| 0 <= k < t0.len() && t0[k] == x;
                            if k < p {
                                assert(t1[k] == x);
                            } else {
                                assert(t1[k + 1] == x);
                            }
                        }
                        if x == name@ {
                            assert(t1[p as int] == x);
                        }
                        if t1.contains(x) {
                            let k = choose|k: int| 0 <= k < t1.len() && t1[k] == x;
                            if k < p {
                                assert(t0[k] == x);
                            } else if k > p {
                                assert(t0[k - 1] == x);
                            }
                        }
                    }
                }
            } else {
                proof {
                    assert(t0[p as int] == name@);
                }
            }
        }
        proof {
            let tn = texts(names@.take(i as int));
            assert forall|x: Seq<char>| #[trigger] texts(out@).contains(x) <==> (texts(names@.take(i + 1)).contains(x)
                && is_pending(x, current)) by {
                let tn1 = texts(names@.take(i + 1));
                if tn1.contains(x) {
                    let k = choose|k: int| 0 <= k < tn1.len() && tn1[k] == x;
                    if k < i {
                        assert(tn[k] == x);
                    }
                }
                if tn.contains(x) {
                    let k = choose|k: int| 0 <= k < tn.len() && tn[k] == x;
                    assert(tn1[k] == x);
                }
                if x == name@ {
                    assert(tn1[i as int] == x);
                }
            }
        }
        i = i + 1;
    }
    proof {
        assert(names@.take(names@.len() as int) =~= names@);
    }
    out
}

/// The last migration still to be applied after `current`, if any.
pub fn last_version(names: &Vec<String>, current: Option<&str>) -> (r: Option<String>)
    ensures
        match r {
            None => forall|x: Seq<char>| !(texts(names@).contains(x) && is_pending(x, current)),
            Some(v) => texts(names@).contains(v@) && is_pending(v@, current) && forall|x: Seq<char>|
                texts(names@).contains(x) && is_pending(x, current) && x != v@ ==> text_lt(x, v@),
        },
{
    let mut pending = pending_migrations(names, current);
    let ghost t = texts(pending@);
    match pending.pop() {
        None => {
            proof {
                assert forall|x: Seq<char>| !(texts(names@).contains(x) && is_pending(x, current)) by {
                    if texts(names@).contains(x) && is_pending(x, current) {
                        assert(t.contains(x));
                    }
                }
            }
            None
        },
        Some(v) => {
            proof {
                let n = t.len() - 1;
                assert(t[n] == v@);
                assert(t.contains(v@));
                assert forall|x: Seq<char>| texts(names@).contains(x) && is_pending(x, current) && x != v@ implies text_lt(
                    x,
                    v@,
                ) by {
                    assert(t.contains(x));
                    let k = choose|k: int| 0 <= k < t.len() && t[k] == x;
                    if k == n {
                        assert(false);
                    }
                    assert(text_lt(t[k], t[n]));
                }
            }
            Some(v)
        },
    }
}

/// A toolchain is set up unless the blacklist names it, or a whitelist is
/// given that does not.
pub open spec fn spec_toolchain_allowed(name: Seq<char>, blacklist: Seq<Seq<char>>, whitelist: Seq<Seq<char>>) -> bool {
    !blacklist.contains(name) && (whitelist.len() == 0 || whitelist.contains(name))
}

/// Whether `texts` holds `s`.
fn contains_text(v: &Vec<String>, s: &str) -> (r: bool)
    ensures
        r == texts(v@).contains(s@),
{
    let mut i: usize = 0;
    while i < v.len()
        invariant
            0 <= i <= v@.len(),
            forall|k: int| 0 <= k < i ==> v@[k]@ != s@,
        decreases v@.len() - i,
    {
        if str_eq(v[i].as_str(), s) {
            proof {
                assert(texts(v@)[i as int] == s@);
            }
            return true;
        }
        i = i + 1;
    }
    proof {
        if texts(v@).contains(s@) {
            let k = choose|k: int| 0 <= k < texts(v@).len() && texts(v@)[k] == s@;
            assert(v@[k]@ == s@);
        }
    }
    false
}

/// Whether toolchain `name` is set up.
pub fn toolchain_allowed(name: &str, blacklist: &Vec<String>, whitelist: &Vec<String>) -> (r: bool)
    ensures
        r == spec_toolchain_allowed(name@, texts(blacklist@), texts(whitelist@)),
{
    if contains_text(blacklist, name) {
        return false;
    }
    whitelist.len() == 0 || contains_text(whitelist, name)
}

fn concat(a: &str, b: &str) -> (r: String)
    ensures
        r@ == a@ + b@,
{
    let mut s = String::from_str(a);
    s.append(b);
    s
}

/// How the database is described to the user.
pub open spec fn database_text(v: DatabaseVersion) -> Seq<char> {
    match v {
        DatabaseVersion::RevisionInfoMissing => "database exists, but does not contain version info"@,
        DatabaseVersion::Missing => "database does not exist"@,
        DatabaseVersion::Version { current, latest } => "database version is "@ + current@ + match latest {
            Some(l) => ", latest is "@ + l@,
            None => seq![],
        },
    }
}

impl<'a> Database<'a> {
    /// How the database is described to the user.
    pub fn describe(&self) -> (r: String)
        ensures
            r@ == database_text(self.version),
    {
        match &self.version {
            DatabaseVersion::RevisionInfoMissing => String::from_str("database exists, but does not contain version info"),
            DatabaseVersion::Missing => String::from_str("database does not exist"),
            DatabaseVersion::Version { current, latest } => {
                let head = concat("database version is ", current.as_str());
                match latest {
                    Some(l) => {
                        let tail = concat(", latest is ", l.as_str());
                        let r = concat(head.as_str(), tail.as_str());
                        proof {
                            assert(r@ =~= "database version is "@ + current@ + (", latest is "@ + l@));
                        }
                        r
                    },
                    None => {
                        proof {
                            assert(head@ =~= "database version is "@ + current@ + Seq::<char>::empty());
                        }
                        head
                    },
                }
            },
        }
    }
}

/// Once the database is at the last migration that was pending, no
/// migration is pending any more.
pub proof fn lemma_latest_leaves_nothing_pending(names: Seq<Seq<char>>, current: Option<&str>, latest: &str)
    requires
        names.contains(latest@),
        is_pending(latest@, current),
        forall|x: Seq<char>| names.contains(x) && is_pending(x, current) && x != latest@ ==> text_lt(x, latest@),
    ensures
        forall|x: Seq<char>| names.contains(x) ==> !is_pending(x, Some(latest)),
{
    assert forall|x: Seq<char>| names.contains(x) implies !is_pending(x, Some(latest)) by {
        if is_pending(x, Some(latest)) {
            assert(text_lt(latest@, x));
            if let Some(c) = current {
                lemma_text_lt_transitive(c@, latest@, x);
            }
            if x == latest@ {
                lemma_text_lt_irreflexive(x);
            } else {
                assert(text_lt(x, latest@));
                lemma_text_lt_transitive(x, latest@, x);
                lemma_text_lt_irreflexive(x);
            }
        }
    }
}

} // verus!
