//! Bulk user creation from a user list: statements of the list and the
//! options they set.
use vstd::prelude::*;
use crate::text::{chars_of, split_chars, split_seq, string_of, str_eq};
use vstd::utf8::{valid_utf8, decode_utf8, encode_utf8};

verus! {

/// An option of a statement: a flag, or a named setting.
#[derive(Debug, Clone)]
pub enum ListOption {
    Flag(String),
    Setting(String, String),
}

/// What a statement does.
#[derive(Debug, Clone)]
pub enum StatementData {
    /// Add a user, with options of its own.
    AddUser { username: String, password: String, options: Vec<ListOption> },
    /// Set options for the users that follow.
    SetOpt { options: Vec<ListOption> },
}

/// One statement of a user list.
#[derive(Debug, Clone)]
pub struct Statement {
    pub data: StatementData,
}

/// Arguments of `userlist add`.
#[derive(Debug, Clone)]
pub struct Add {
    /// File to add users from. see `Userlist` man page
    pub file: String,
    /// Auth token. If not set, will be read from JJS_AUTH environment variable
    pub token: Option<String>,
    /// JJS apiserver host or IP
    pub host: String,
    /// JJS apiserver port
    pub port: u16,
}

/// Subcommands of `userlist`.
#[derive(Debug, Clone)]
pub enum Args {
    Add(Add),
}

/// An option that the list may not use.
#[derive(Debug, Clone)]
pub enum OptionError {
    /// unknown flag
    UnknownFlag(String),
    /// unknown setting
    UnknownSetting(String),
}

/// Options in effect for a user.
#[derive(Debug, Clone)]
pub struct OptionStorage {
    /// Names, passwords and groups are base64-encoded.
    pub base64: bool,
    /// Groups of the user.
    pub groups: Vec<String>,
    /// A failed creation is only a warning.
    pub ignore_fail: bool,
}

/// The group names in `groups`.
pub open spec fn group_names(groups: Seq<String>) -> Seq<Seq<char>> {
    groups.map_values(|g: String| g@)
}

/// The options after one more option, or `None` if it is unknown.
pub open spec fn after_option(base64: bool, groups: Seq<Seq<char>>, ignore_fail: bool, o: ListOption) -> Option<(bool, Seq<Seq<char>>, bool)> {
    match o {
        ListOption::Flag(f) => if f@ == "base64"@ {
            Some((true, groups, ignore_fail))
        } else if f@ == "ignore-fail"@ {
            Some((base64, groups, true))
        } else {
            None
        },
        ListOption::Setting(name, value) => if name@ == "groups"@ {
            Some((base64, groups + split_seq(value@, seq![':']), ignore_fail))
        } else if name@ == "set-groups"@ {
            Some((base64, split_seq(value@, seq![':']), ignore_fail))
        } else {
            None
        },
    }
}


/// Options after applying `opts` in order, or the first option that is
/// unknown.
pub open spec fn apply_options(st: (bool, Seq<Seq<char>>, bool), opts: Seq<ListOption>) -> Result<
    (bool, Seq<Seq<char>>, bool),
    ListOption,
>
    decreases opts.len(),
{
    if opts.len() == 0 {
        Ok(st)
    } else {
        match apply_options(st, opts.drop_last()) {
            Ok(s) => match after_option(s.0, s.1, s.2, opts.last()) {
                Some(s2) => Ok(s2),
                None => Err(opts.last()),
            },
            Err(o) => Err(o),
        }
    }
}

/// `e` is the error that reports unknown option `o`: an unknown flag by its
/// name, an unknown setting by its name.
pub open spec fn rejects(e: OptionError, o: ListOption) -> bool {
    match (e, o) {
        (OptionError::UnknownFlag(n), ListOption::Flag(f)) => n@ == f@,
        (OptionError::UnknownSetting(n), ListOption::Setting(name, _)) => n@ == name@,
        _ => false,
    }
}

/// An unknown option stops the rest.
proof fn lemma_apply_options_none(st: (bool, Seq<Seq<char>>, bool), opts: Seq<ListOption>, k: int)
    requires
        0 <= k <= opts.len(),
        apply_options(st, opts.take(k)) is Err,
    ensures
        apply_options(st, opts) == apply_options(st, opts.take(k)),
    decreases opts.len() - k,
{
    if k < opts.len() {
        assert(opts.take(k + 1).drop_last() =~= opts.take(k));
        lemma_apply_options_none(st, opts, k + 1);
    } else {
        assert(opts.take(k) =~= opts);
    }
}

impl OptionStorage {
    /// No options set.
    pub fn new() -> (r: OptionStorage)
        ensures
            !r.base64,
            r.groups@.len() == 0,
            !r.ignore_fail,
    {
        OptionStorage { base64: false, groups: Vec::new(), ignore_fail: false }
    }

    /// Sets flag `flag`: `base64` or `ignore-fail`.
    pub fn flag(&mut self, flag: &str) -> (r: Result<(), OptionError>)
        ensures
            flag@ == "base64"@ ==> r is Ok && final(self).base64 && final(self).ignore_fail == old(self).ignore_fail
                && final(self).groups == old(self).groups,
            flag@ == "ignore-fail"@ ==> r is Ok && final(self).ignore_fail && final(self).base64 == old(self).base64
                && final(self).groups == old(self).groups,
            flag@ != "base64"@ && flag@ != "ignore-fail"@ ==> (r matches Err(OptionError::UnknownFlag(f)) && f@ == flag@)
                && *final(self) == *old(self),
    {
        proof {
            reveal_strlit("base64");
            reveal_strlit("ignore-fail");
            assert("base64"@.len() != "ignore-fail"@.len());
        }
        if str_eq(flag, "base64") {
            self.base64 = true;
            Ok(())
        } else if str_eq(flag, "ignore-fail") {
            self.ignore_fail = true;
            Ok(())
        } else {
            Err(OptionError::UnknownFlag(flag.to_owned()))
        }
    }

    /// Adds the groups of `spec`, a `:`-separated list.
    pub fn add_groups(&mut self, spec: &str)
        ensures
            group_names(final(self).groups@) == group_names(old(self).groups@) + split_seq(spec@, seq![':']),
            final(self).base64 == old(self).base64,
            final(self).ignore_fail == old(self).ignore_fail,
    {
        let cs = chars_of(spec);
        let sep: Vec<char> = vec![':'];
        proof {
            assert(sep@ =~= seq![':']);
        }
        let items = split_chars(&cs, &sep);
        let ghost g0 = group_names(self.groups@);
        let ghost iv = items@.map_values(|v: Vec<char>| v@);
        let n = items.len();
        let mut i: usize = 0;
        while i < n
            invariant
                n == items@.len(),
                iv == items@.map_values(|v: Vec<char>| v@),
                0 <= i <= n,
                group_names(self.groups@) == g0 + iv.take(i as int),
                self.base64 == old(self).base64,
                self.ignore_fail == old(self).ignore_fail,
            decreases n - i,
        {
            let ghost gb = self.groups@;
            self.groups.push(string_of(&items[i]));
            proof {
                assert(group_names(self.groups@) =~= group_names(gb).push(items@[i as int]@));
                assert(iv.take(i + 1) =~= iv.take(i as int).push(items@[i as int]@));
                assert(g0 + iv.take(i + 1) =~= (g0 + iv.take(i as int)).push(items@[i as int]@));
            }
            i = i + 1;
        }
        proof {
            assert(iv.take(n as int) =~= iv);
        }
    }

    /// Applies setting `name`: `groups` adds groups, `set-groups` replaces them.
    pub fn setting(&mut self, name: &str, value: &str) -> (r: Result<(), OptionError>)
        ensures
            name@ == "groups"@ ==> r is Ok && group_names(final(self).groups@) == group_names(old(self).groups@)
                + split_seq(value@, seq![':']),
            name@ == "set-groups"@ ==> r is Ok && group_names(final(self).groups@) == split_seq(value@, seq![':']),
            name@ == "groups"@ || name@ == "set-groups"@ ==> final(self).base64 == old(self).base64
                && final(self).ignore_fail == old(self).ignore_fail,
            name@ != "groups"@ && name@ != "set-groups"@ ==> (r matches Err(OptionError::UnknownSetting(n)) && n@
                == name@) && *final(self) == *old(self),
    {
        proof {
            reveal_strlit("groups");
            reveal_strlit("set-groups");
            assert("groups"@.len() != "set-groups"@.len());
        }
        if str_eq(name, "groups") {
            self.add_groups(value);
            Ok(())
        } else if str_eq(name, "set-groups") {
            self.groups.clear();
            proof {
                assert(group_names(self.groups@) =~= Seq::<Seq<char>>::empty());
            }
            self.add_groups(value);
            proof {
                assert(Seq::<Seq<char>>::empty() + split_seq(value@, seq![':']) =~= split_seq(value@, seq![':']));
            }
            Ok(())
        } else {
            Err(OptionError::UnknownSetting(name.to_owned()))
        }
    }

    /// The options as a triple: base64, group names, ignore-fail.
    pub open spec fn state(&self) -> (bool, Seq<Seq<char>>, bool) {
        (self.base64, group_names(self.groups@), self.ignore_fail)
    }

    /// Applies the options in order, stopping at the first unknown one.
    pub fn options(&mut self, opts: &Vec<ListOption>) -> (r: Result<(), OptionError>)
        ensures
            match apply_options(old(self).state(), opts@) {
                Ok(st) => r is Ok && final(self).state() == st,
                Err(o) => r matches Err(e) && rejects(e, o),
            },
    {
        let n = opts.len();
        let mut i: usize = 0;
        proof {
            assert(opts@.take(0) =~= Seq::<ListOption>::empty());
        }
        while i < n
            invariant
                n == opts@.len(),
                0 <= i <= n,
                apply_options(old(self).state(), opts@.take(i as int)) == Ok::<(bool, Seq<Seq<char>>, bool), ListOption>(self.state()),
            decreases n - i,
        {
            proof {
                assert(opts@.take(i + 1).drop_last() =~= opts@.take(i as int));
                assert(opts@.take(i + 1).last() == opts@[i as int]);
            }
            let res = match &opts[i] {
                ListOption::Flag(flag) => self.flag(flag.as_str()),
                ListOption::Setting(name, val) => self.setting(name.as_str(), val.as_str()),
            };
            if res.is_err() {
                proof {
                    lemma_apply_options_none(old(self).state(), opts@, i + 1);
                }
                return res;
            }
            i = i + 1;
        }
        proof {
            assert(opts@.take(n as int) =~= opts@);
        }
        Ok(())
    }
}

impl OptionStorage {
    /// A copy of the options.
    pub fn duplicate(&self) -> (r: OptionStorage)
        ensures
            r.state() == self.state(),
    {
        let mut groups: Vec<String> = Vec::new();
        let mut i: usize = 0;
        while i < self.groups.len()
            invariant
                0 <= i <= self.groups@.len(),
                group_names(groups@) == group_names(self.groups@).take(i as int),
            decreases self.groups@.len() - i,
        {
            let ghost g0 = groups@;
            groups.push(self.groups[i].as_str().to_owned());
            proof {
                assert(group_names(groups@) =~= group_names(g0).push(self.groups@[i as int]@));
                assert(group_names(self.groups@).take(i + 1) =~= group_names(self.groups@).take(i as int).push(
                    self.groups@[i as int]@,
                ));
            }
            i = i + 1;
        }
        proof {
            assert(group_names(self.groups@).take(self.groups@.len() as int) =~= group_names(self.groups@));
        }
        OptionStorage { base64: self.base64, groups, ignore_fail: self.ignore_fail }
    }
}

/// The bytes that base64 text `input` encodes (standard alphabet, with
/// padding), or `None` when it is not valid base64.
pub uninterp spec fn base64_decoded(input: Seq<char>) -> Option<Seq<u8>>;

/// `base64::decode`: decodes `input` with the standard alphabet and
/// padding. The result is named, not written out; only whether it is an
/// error is kept of the error.
#[verifier::external_body]
fn base64_decode(input: &str) -> (r: Option<Vec<u8>>)
    requires
        encode_utf8(input@).len() + 3 <= usize::MAX,
    ensures
        match base64_decoded(input@) {
            Some(b) => r matches Some(v) && v@ == b,
            None => r is None,
        },
{
    base64::decode(input).ok()
}

/// `String::from_utf8`: the text that `bytes` encode in UTF-8, or `None`
/// when they are not valid UTF-8.
#[verifier::external_body]
pub(crate) fn utf8_string(bytes: Vec<u8>) -> (r: Option<String>)
    ensures
        match r {
            Some(s) => valid_utf8(bytes@) && s@ == decode_utf8(bytes@),
            None => !valid_utf8(bytes@),
        },
{
    String::from_utf8(bytes).ok()
}

/// Why a user list cannot be turned into users.
#[derive(Debug, Clone)]
pub enum Error {
    /// the list uses an option that does not exist
    Option(OptionError),
    /// invalid base64 string
    Base64,
}

/// The text that base64 text `s` encodes: base64, then UTF-8.
pub open spec fn base64_text(s: Seq<char>) -> Option<Seq<char>> {
    match base64_decoded(s) {
        None => None,
        Some(b) => if valid_utf8(b) {
            Some(decode_utf8(b))
        } else {
            None
        },
    }
}

/// The text can be handed to the base64 decoder.
pub open spec fn decodable(s: Seq<char>) -> bool {
    encode_utf8(s).len() + 3 <= usize::MAX
}

/// Decodes base64 text `s` into the text it encodes.
pub fn decode_base64(s: String) -> (r: Result<String, Error>)
    requires
        decodable(s@),
    ensures
        match base64_text(s@) {
            Some(t) => r matches Ok(x) && x@ == t,
            None => r matches Err(Error::Base64),
        },
{
    let buf = match base64_decode(s.as_str()) {
        Some(b) => b,
        None => {
            return Err(Error::Base64);
        },
    };
    match utf8_string(buf) {
        Some(t) => Ok(t),
        None => Err(Error::Base64),
    }
}

/// A user to create: login, password and groups.
#[derive(Debug, Clone)]
pub struct NewUser {
    pub login: String,
    pub password: String,
    pub groups: Vec<String>,
}

/// A user as texts: login, password, group names.
pub open spec fn user_view(u: NewUser) -> (Seq<char>, Seq<char>, Seq<Seq<char>>) {
    (u.login@, u.password@, group_names(u.groups@))
}

/// Group names decoded from base64 one by one, or `None` if one is not
/// valid.
pub open spec fn decode_groups(gs: Seq<Seq<char>>) -> Option<Seq<Seq<char>>>
    decreases gs.len(),
{
    if gs.len() == 0 {
        Some(seq![])
    } else {
        match decode_groups(gs.drop_last()) {
            None => None,
            Some(d) => match base64_text(gs.last()) {
                None => None,
                Some(t) => Some(d.push(t)),
            },
        }
    }
}

/// What a list gives so far: the users, and the options in effect; or why
/// it stopped.
pub enum Collected {
    Users(Seq<(Seq<char>, Seq<char>, Seq<Seq<char>>)>, (bool, Seq<Seq<char>>, bool)),
    UnknownOption(ListOption),
    BadBase64,
}

/// The user that `add` with `username`, `password` and options `opts`
/// adds when the options in effect are `st`: its own options apply on top,
/// and with `base64` on, login, password and groups are decoded.
pub open spec fn added_user(
    st: (bool, Seq<Seq<char>>, bool),
    username: Seq<char>,
    password: Seq<char>,
    opts: Seq<ListOption>,
) -> Result<(Seq<char>, Seq<char>, Seq<Seq<char>>), Collected> {
    match apply_options(st, opts) {
        Err(o) => Err(Collected::UnknownOption(o)),
        Ok(s) => if s.0 {
            match (base64_text(username), base64_text(password), decode_groups(s.1)) {
                (Some(u), Some(p), Some(g)) => Ok((u, p, g)),
                _ => Err(Collected::BadBase64),
            }
        } else {
            Ok((username, password, s.1))
        },
    }
}

/// The users that `stmts` add, in order, and the options in effect after
/// them; options of a user's own statement apply to that user only.
pub open spec fn collect(stmts: Seq<Statement>) -> Collected
    decreases stmts.len(),
{
    if stmts.len() == 0 {
        Collected::Users(seq![], (false, seq![], false))
    } else {
        match collect(stmts.drop_last()) {
            Collected::Users(us, st) => match stmts.last().data {
                StatementData::SetOpt { options } => match apply_options(st, options@) {
                    Err(o) => Collected::UnknownOption(o),
                    Ok(s) => Collected::Users(us, s),
                },
                StatementData::AddUser { username, password, options } => match added_user(
                    st,
                    username@,
                    password@,
                    options@,
                ) {
                    Err(c) => c,
                    Ok(u) => Collected::Users(us.push(u), st),
                },
            },
            other => other,
        }
    }
}

/// Every text that a list may hand to the base64 decoder can be handed to
/// it: logins, passwords and group settings.
pub open spec fn list_decodable(stmts: Seq<Statement>) -> bool {
    forall|i: int|
        0 <= i < stmts.len() ==> match (#[trigger] stmts[i]).data {
            StatementData::AddUser { username, password, options } => decodable(username@) && decodable(password@)
                && options_decodable(options@),
            StatementData::SetOpt { options } => options_decodable(options@),
        }
}

/// Every group named in `opts` can be handed to the base64 decoder.
pub open spec fn options_decodable(opts: Seq<ListOption>) -> bool {
    forall|i: int|
        0 <= i < opts.len() ==> match #[trigger] opts[i] {
            ListOption::Setting(_, value) => forall|k: int|
                0 <= k < split_seq(value@, seq![':']).len() ==> decodable(#[trigger] split_seq(value@, seq![':'])[k]),
            ListOption::Flag(_) => true,
        }
}

/// Group names in option states that only `opts` contributed to can be
/// decoded.
proof fn lemma_apply_decodable(st: (bool, Seq<Seq<char>>, bool), opts: Seq<ListOption>)
    requires
        forall|k: int| 0 <= k < st.1.len() ==> decodable(#[trigger] st.1[k]),
        options_decodable(opts),
    ensures
        apply_options(st, opts) matches Ok(s) ==> forall|k: int| 0 <= k < s.1.len() ==> decodable(#[trigger] s.1[k]),
    decreases opts.len(),
{
    if opts.len() > 0 {
        let init = opts.drop_last();
        assert(options_decodable(init)) by {
            assert forall|i: int| 0 <= i < init.len() implies match #[trigger] init[i] {
                ListOption::Setting(_, value) => forall|k: int|
                    0 <= k < split_seq(value@, seq![':']).len() ==> decodable(#[trigger] split_seq(value@, seq![':'])[k]),
                ListOption::Flag(_) => true,
            } by {
                assert(init[i] == opts[i]);
            }
        }
        lemma_apply_decodable(st, init);
        let last = opts.last();
        assert(last == opts[opts.len() - 1]);
        if let Ok(s0) = apply_options(st, init) {
            match last {
                ListOption::Setting(name, value) => {
                    let parts = split_seq(value@, seq![':']);
                    if let Ok(s) = apply_options(st, opts) {
                        assert forall|k: int| 0 <= k < s.1.len() implies decodable(#[trigger] s.1[k]) by {
                            if name@ == "groups"@ {
                                if k < s0.1.len() {
                                    assert(s.1[k] == s0.1[k]);
                                } else {
                                    assert(s.1[k] == parts[k - s0.1.len()]);
                                }
                            } else {
                                assert(s.1[k] == parts[k]);
                            }
                        }
                    }
                },
                ListOption::Flag(_) => {},
            }
        }
    }
}

/// Decodes every group name of `groups`.
fn decode_group_list(groups: &Vec<String>) -> (r: Result<Vec<String>, Error>)
    requires
        forall|k: int| 0 <= k < groups@.len() ==> decodable(#[trigger] group_names(groups@)[k]),
    ensures
        match decode_groups(group_names(groups@)) {
            Some(d) => r matches Ok(v) && group_names(v@) == d,
            None => r matches Err(Error::Base64),
        },
{
    let ghost gs = group_names(groups@);
    let mut out: Vec<String> = Vec::new();
    let mut i: usize = 0;
    while i < groups.len()
        invariant
            0 <= i <= groups@.len(),
            gs == group_names(groups@),
            forall|k: int| 0 <= k < groups@.len() ==> decodable(#[trigger] group_names(groups@)[k]),
            decode_groups(gs.take(i as int)) == Some(group_names(out@)),
        decreases groups@.len() - i,
    {
        proof {
            assert(gs.take(i + 1).drop_last() =~= gs.take(i as int));
            assert(gs.take(i + 1).last() == gs[i as int]);
            assert(decodable(gs[i as int]));
        }
        let g = groups[i].as_str().to_owned();
        match decode_base64(g) {
            Err(e) => {
                proof {
                    lemma_decode_groups_none(gs, i + 1);
                }
                return Err(e);
            },
            Ok(t) => {
                let ghost o0 = out@;
                out.push(t);
                proof {
                    assert(group_names(out@) =~= group_names(o0).push(t@));
                }
            },
        }
        i = i + 1;
    }
    proof {
        assert(gs.take(groups@.len() as int) =~= gs);
    }
    Ok(out)
}

/// A group that cannot be decoded stops the rest.
proof fn lemma_decode_groups_none(gs: Seq<Seq<char>>, k: int)
    requires
        0 <= k <= gs.len(),
        decode_groups(gs.take(k)) is None,
    ensures
        decode_groups(gs) is None,
    decreases gs.len() - k,
{
    if k < gs.len() {
        assert(gs.take(k + 1).drop_last() =~= gs.take(k));
        lemma_decode_groups_none(gs, k + 1);
    } else {
        assert(gs.take(k) =~= gs);
    }
}

/// The users that the statements of a list add, in order, with whether
/// failures to create them are to be ignored (the `ignore-fail` option in
/// effect after the last statement). Each user gets the options in effect
/// with those of its own statement on top; with `base64` on, its login,
/// password and groups are decoded.
pub fn collect_users(stmts: &Vec<Statement>) -> (r: Result<(Vec<NewUser>, bool), Error>)
    requires
        list_decodable(stmts@),
    ensures
        match collect(stmts@) {
            Collected::Users(us, st) => r matches Ok((v, ignore)) && v@.map_values(|u: NewUser| user_view(u)) == us
                && ignore == st.2,
            Collected::UnknownOption(o) => r matches Err(Error::Option(e)) && rejects(e, o),
            Collected::BadBase64 => r matches Err(Error::Base64),
        },
{
    let mut data: Vec<NewUser> = Vec::new();
    let mut storage = OptionStorage::new();
    let mut i: usize = 0;
    proof {
        assert(stmts@.take(0) =~= Seq::<Statement>::empty());
        assert(group_names(storage.groups@) =~= Seq::<Seq<char>>::empty());
        assert(data@.map_values(|u: NewUser| user_view(u)) =~= Seq::<(Seq<char>, Seq<char>, Seq<Seq<char>>)>::empty());
        assert(collect(stmts@.take(0)) == Collected::Users(Seq::empty(), (false, Seq::<Seq<char>>::empty(), false)));
    }
    while i < stmts.len()
        invariant
            0 <= i <= stmts@.len(),
            list_decodable(stmts@),
            collect(stmts@.take(i as int)) == Collected::Users(data@.map_values(|u: NewUser| user_view(u)), storage.state()),
            forall|k: int| 0 <= k < storage.state().1.len() ==> decodable(#[trigger] storage.state().1[k]),
        decreases stmts@.len() - i,
    {
        let ghost st0 = storage.state();
        let ghost us0 = data@.map_values(|u: NewUser| user_view(u));
        proof {
            assert(stmts@.take(i + 1).drop_last() =~= stmts@.take(i as int));
            assert(stmts@.take(i + 1).last() == stmts@[i as int]);
        }
        match &stmts[i].data {
            StatementData::SetOpt { options } => {
                proof {
                    lemma_apply_decodable(st0, options@);
                }
                if let Err(e) = storage.options(options) {
                    proof {
                        lemma_collect_stops(stmts@, i + 1);
                    }
                    return Err(Error::Option(e));
                }
            },
            StatementData::AddUser { username, password, options } => {
                let mut subst = storage.duplicate();
                proof {
                    lemma_apply_decodable(st0, options@);
                }
                if let Err(e) = subst.options(options) {
                    proof {
                        lemma_collect_stops(stmts@, i + 1);
                    }
                    return Err(Error::Option(e));
                }
                let user = if subst.base64 {
                    let login = match decode_base64(username.as_str().to_owned()) {
                        Ok(t) => t,
                        Err(e) => {
                            proof {
                                lemma_collect_stops(stmts@, i + 1);
                            }
                            return Err(e);
                        },
                    };
                    let pass = match decode_base64(password.as_str().to_owned()) {
                        Ok(t) => t,
                        Err(e) => {
                            proof {
                                lemma_collect_stops(stmts@, i + 1);
                            }
                            return Err(e);
                        },
                    };
                    let groups = match decode_group_list(&subst.groups) {
                        Ok(g) => g,
                        Err(e) => {
                            proof {
                                lemma_collect_stops(stmts@, i + 1);
                            }
                            return Err(e);
                        },
                    };
                    NewUser { login, password: pass, groups }
                } else {
                    NewUser { login: username.as_str().to_owned(), password: password.as_str().to_owned(), groups: subst.groups }
                };
                data.push(user);
                proof {
                    assert(data@.map_values(|u: NewUser| user_view(u)) =~= us0.push(user_view(user)));
                }
            },
        }
        i = i + 1;
    }
    proof {
        assert(stmts@.take(stmts@.len() as int) =~= stmts@);
    }
    Ok((data, storage.ignore_fail))
}

/// Once a list stops, the statements after it do not matter.
proof fn lemma_collect_stops(stmts: Seq<Statement>, k: int)
    requires
        0 <= k <= stmts.len(),
        !(collect(stmts.take(k)) is Users),
    ensures
        collect(stmts) == collect(stmts.take(k)),
    decreases stmts.len() - k,
{
    if k < stmts.len() {
        assert(stmts.take(k + 1).drop_last() =~= stmts.take(k));
        lemma_collect_stops(stmts, k + 1);
    } else {
        assert(stmts.take(k) =~= stmts);
    }
}

/// The options in effect after `stmts`, from the options of their `SetOpt`
/// statements alone, applied in order.
pub open spec fn options_in_effect(stmts: Seq<Statement>) -> Result<(bool, Seq<Seq<char>>, bool), ListOption>
    decreases stmts.len(),
{
    if stmts.len() == 0 {
        Ok((false, seq![], false))
    } else {
        match options_in_effect(stmts.drop_last()) {
            Err(o) => Err(o),
            Ok(st) => match stmts.last().data {
                StatementData::SetOpt { options } => apply_options(st, options@),
                StatementData::AddUser { .. } => Ok(st),
            },
        }
    }
}

/// Only `SetOpt` statements change the options in effect: after a list
/// whose users are all collected, the options in effect are what its
/// `SetOpt` statements set, in order; a user's own options apply to that
/// user alone.
pub proof fn lemma_options_only_from_setopt(stmts: Seq<Statement>)
    ensures
        collect(stmts) matches Collected::Users(_, st) ==> options_in_effect(stmts) == Ok::<
            (bool, Seq<Seq<char>>, bool),
            ListOption,
        >(st),
    decreases stmts.len(),
{
    if stmts.len() > 0 {
        lemma_options_only_from_setopt(stmts.drop_last());
    }
}

/// Adding a user leaves the options in effect for the statements after it
/// as they were.
pub proof fn lemma_add_user_keeps_options(stmts: Seq<Statement>, s: Statement)
    requires
        s.data is AddUser,
    ensures
        collect(stmts) matches Collected::Users(_, st) ==> (collect(stmts.push(s)) matches Collected::Users(_, st2)
            ==> st2 == st),
{
    lemma_options_only_from_setopt(stmts);
    lemma_options_only_from_setopt(stmts.push(s));
    assert(stmts.push(s).drop_last() =~= stmts);
    assert(stmts.push(s).last() == s);
    assert(options_in_effect(stmts.push(s)) == options_in_effect(stmts));
    if let Collected::Users(_, st) = collect(stmts) {
        if let Collected::Users(_, st2) = collect(stmts.push(s)) {
            assert(options_in_effect(stmts) == Ok::<(bool, Seq<Seq<char>>, bool), ListOption>(st));
            assert(options_in_effect(stmts.push(s)) == Ok::<(bool, Seq<Seq<char>>, bool), ListOption>(st2));
            assert(st2 == st);
        }
    }
}

/// The `k`-th user a list adds gets its groups from the options in effect
/// before its statement with its own options on top; base64 decoding aside,
/// that is its groups.
pub proof fn lemma_user_groups_from_own_statement(stmts: Seq<Statement>, s: Statement)
    requires
        s.data matches StatementData::AddUser { options, .. } && options@.len() == 0,
        collect(stmts) matches Collected::Users(_, st) && !st.0,
        collect(stmts.push(s)) is Users,
    ensures
        collect(stmts.push(s)) matches Collected::Users(us, _) && us.last().2 == options_in_effect(stmts)->Ok_0.1,
{
    lemma_options_only_from_setopt(stmts);
    assert(stmts.push(s).drop_last() =~= stmts);
    assert(stmts.push(s).last() == s);
}

} // verus!
