//! The settings: what can be set, how it is written down, and which edits are not saved yet.

use vstd::prelude::*;
use vstd::utf8::*;

use crate::chezmoi::{chezmoi_request, ChezmoiOptions};
use crate::cmd::{optional, pairs, CommandRequest, CommandRunner, Duration, Reply, Request};
use crate::json::{json_document, parse_json, text_member, Json};
use crate::paths::text_order;
use crate::proto::copy_text;
use crate::text::{chars_of, decimal, decimal_text, lossy, same, strings};
use crate::views::StatusTone;

verus! {

// ---------------------------------------------------------------------------
// The interval

/// The shortest interval between fetches, in minutes.
pub const INTERVAL_MIN: u64 = 5;

/// The longest.
pub const INTERVAL_MAX: u64 = 120;

/// How far one step goes.
pub const INTERVAL_STEP: u64 = 5;

/// An interval, brought within the bounds.
pub open spec fn clamped(minutes: int) -> int {
    if minutes < INTERVAL_MIN {
        INTERVAL_MIN as int
    } else if minutes > INTERVAL_MAX {
        INTERVAL_MAX as int
    } else {
        minutes
    }
}

/// An interval, brought within the bounds.
pub fn clamp_interval(minutes: u64) -> (r: u64)
    ensures
        r == clamped(minutes as int),
{
    if minutes < INTERVAL_MIN {
        INTERVAL_MIN
    } else if minutes > INTERVAL_MAX {
        INTERVAL_MAX
    } else {
        minutes
    }
}

/// An interval, one step longer or shorter.
pub fn step_interval(minutes: u64, up: bool) -> (r: u64)
    ensures
        r == clamped(
            if up {
                minutes + INTERVAL_STEP
            } else {
                minutes - INTERVAL_STEP
            },
        ),
{
    if up {
        if minutes > INTERVAL_MAX {
            INTERVAL_MAX
        } else {
            clamp_interval(minutes + INTERVAL_STEP)
        }
    } else if minutes < INTERVAL_STEP {
        INTERVAL_MIN
    } else {
        clamp_interval(minutes - INTERVAL_STEP)
    }
}

/// A step is taken back by the opposite one, unless a bound was in the way.
pub proof fn law_steps_can_be_taken_back(minutes: int)
    requires
        INTERVAL_MIN <= minutes <= INTERVAL_MAX,
    ensures
        minutes + INTERVAL_STEP <= INTERVAL_MAX ==> clamped(
            clamped(minutes + INTERVAL_STEP) - INTERVAL_STEP,
        ) == minutes,
        minutes - INTERVAL_STEP >= INTERVAL_MIN ==> clamped(
            clamped(minutes - INTERVAL_STEP) + INTERVAL_STEP,
        ) == minutes,
{
}

// ---------------------------------------------------------------------------
// Accounts

/// An account of the password manager. What is not known is left out.
#[derive(Debug, PartialEq, Eq)]
pub struct OpAccount {
    pub shorthand: Option<String>,
    pub email: Option<String>,
    pub account_uuid: Option<String>,
}

/// An account, as the model has it.
#[verifier::ext_equal]
pub struct Account {
    pub shorthand: Option<Seq<char>>,
    pub email: Option<Seq<char>>,
    pub account_uuid: Option<Seq<char>>,
}

impl View for OpAccount {
    type V = Account;

    open spec fn view(&self) -> Account {
        Account {
            shorthand: optional(self.shorthand),
            email: optional(self.email),
            account_uuid: optional(self.account_uuid),
        }
    }
}

/// The first that is there.
pub open spec fn first_of(a: Option<Seq<char>>, b: Option<Seq<char>>, c: Option<Seq<char>>) -> Option<
    Seq<char>,
> {
    match (a, b, c) {
        (Some(s), _, _) => Some(s),
        (None, Some(s), _) => Some(s),
        (None, None, Some(s)) => Some(s),
        (None, None, None) => None,
    }
}

impl Account {
    /// What an account is stored as.
    pub open spec fn stored(self) -> Option<Seq<char>> {
        first_of(self.shorthand, self.account_uuid, self.email)
    }

    /// What an account is called.
    pub open spec fn called(self) -> Seq<char> {
        match first_of(self.shorthand, self.email, self.account_uuid) {
            Some(s) => s,
            None => "(unnamed account)"@,
        }
    }
}

impl OpAccount {
    /// What the account is stored as: its shorthand, or else what is stable about it.
    pub fn value(&self) -> (r: Option<String>)
        ensures
            optional(r) == self@.stored(),
    {
        match (&self.shorthand, &self.account_uuid, &self.email) {
            (Some(s), _, _) => Some(s.clone()),
            (None, Some(s), _) => Some(s.clone()),
            (None, None, Some(s)) => Some(s.clone()),
            (None, None, None) => None,
        }
    }

    /// What the account is called: its shorthand, or else what somebody would know it by.
    pub fn label(&self) -> (r: String)
        ensures
            r@ == self@.called(),
    {
        match (&self.shorthand, &self.email, &self.account_uuid) {
            (Some(s), _, _) => s.clone(),
            (None, Some(s), _) => s.clone(),
            (None, None, Some(s)) => s.clone(),
            (None, None, None) => "(unnamed account)".to_owned(),
        }
    }
}

pub open spec fn accounts_of(v: Seq<OpAccount>) -> Seq<Account> {
    v.map_values(|a: OpAccount| a@)
}

/// The accounts among the first `n` entries: entries that are no objects are left out, and so is
/// what is no text.
pub open spec fn listed(entries: Seq<Json>, n: int) -> Seq<Account>
    decreases n,
{
    if n <= 0 {
        seq![]
    } else {
        let front = listed(entries, n - 1);
        match entries[n - 1] {
            Json::Object(_) => front.push(
                Account {
                    shorthand: text_member(entries[n - 1], "shorthand"@),
                    email: text_member(entries[n - 1], "email"@),
                    account_uuid: text_member(entries[n - 1], "account_uuid"@),
                },
            ),
            _ => front,
        }
    }
}

fn text_in(entry: &Json, name: &str) -> (r: Option<String>)
    ensures
        optional(r) == text_member(*entry, name@),
{
    match entry.get_text(name) {
        Some(s) => Some(s.clone()),
        None => None,
    }
}

/// The accounts in a list of them.
pub fn accounts_in(list: &Vec<Json>) -> (r: Vec<OpAccount>)
    ensures
        accounts_of(r@) == listed(list@, list@.len() as int),
{
    let mut out: Vec<OpAccount> = Vec::new();
    let mut i: usize = 0;
    assert(accounts_of(out@) =~= seq![]);
    while i < list.len()
        invariant
            i <= list@.len(),
            accounts_of(out@) == listed(list@, i as int),
        decreases list@.len() - i,
    {
        let ghost had = accounts_of(out@);
        match &list[i] {
            Json::Object(_) => {
                out.push(
                    OpAccount {
                        shorthand: text_in(&list[i], "shorthand"),
                        email: text_in(&list[i], "email"),
                        account_uuid: text_in(&list[i], "account_uuid"),
                    },
                );
                assert(accounts_of(out@) =~= had.push(out@.last()@));
                assert(accounts_of(out@) =~= listed(list@, i + 1));
            },
            _ => {},
        }
        i = i + 1;
    }
    out
}

/// What the list of accounts says: a list it has to be.
pub open spec fn accounts_said(text: Seq<char>) -> Result<Seq<Account>, Seq<char>> {
    match json_document(encode_utf8(text)) {
        Ok(Json::List(list)) => Ok(listed(list@, list@.len() as int)),
        Ok(_) => Err("expected a JSON array"@),
        Err(e) => Err("invalid JSON: "@ + e),
    }
}

/// The accounts that `op account list` tells.
pub fn parse_op_accounts(json: &str) -> (r: Result<Vec<OpAccount>, String>)
    ensures
        match r {
            Ok(v) => accounts_said(json@) == Ok::<Seq<Account>, Seq<char>>(accounts_of(v@)),
            Err(e) => accounts_said(json@) == Err::<Seq<Account>, Seq<char>>(e@),
        },
{
    match parse_json(json.as_bytes()) {
        Ok(Json::List(list)) => Ok(accounts_in(&list)),
        Ok(_) => Err("expected a JSON array".to_owned()),
        Err(e) => {
            let mut s = "invalid JSON: ".to_owned();
            s.append(e.as_str());
            Err(s)
        },
    }
}

/// What is known of the accounts.
#[derive(Debug, PartialEq)]
pub enum AccountsState {
    Loading,
    Ready(Vec<OpAccount>),
    /// There is no password manager, or nothing useful came from it.
    Unavailable,
}

/// The accounts, as the answer to the command has them. Whatever is wrong with it, there are
/// none.
pub open spec fn accounts_answered(reply: Reply) -> Option<Seq<Account>> {
    match reply {
        Ok(out) => if out.exit_code == 0 {
            match accounts_said(lossy(out.stdout)) {
                Ok(a) => Some(a),
                Err(_) => None,
            }
        } else {
            None
        },
        Err(_) => None,
    }
}

/// Asks for the accounts.
pub fn load_accounts<R: CommandRunner>(runner: &mut R) -> (r: AccountsState)
    ensures
        final(runner).sent() == old(runner).sent().push(
            Request {
                program: "op"@,
                args: seq!["account"@, "list"@, "--format=json"@],
                env: seq![],
                cwd: None,
                stdin: None,
                timeout: Duration::seconds(30),
            },
        ),
        final(runner).replies() == old(runner).replies().push(final(runner).replies().last()),
        old(runner).answers(
            final(runner).sent().last(),
            final(runner).replies().last(),
            final(runner),
        ),
        match accounts_answered(final(runner).replies().last()) {
            Some(a) => r matches AccountsState::Ready(v) && accounts_of(v@) == a,
            None => r is Unavailable,
        },
{
    let args = vec!["account", "list", "--format=json"];
    let req = CommandRequest::new("op").args(args.as_slice());
    assert(req@.args =~= seq!["account"@, "list"@, "--format=json"@]);
    match runner.run(req) {
        Ok(out) => {
            if !out.success() {
                return AccountsState::Unavailable;
            }
            match parse_op_accounts(out.stdout_utf8().as_str()) {
                Ok(accounts) => AccountsState::Ready(accounts),
                Err(_) => AccountsState::Unavailable,
            }
        },
        Err(_) => AccountsState::Unavailable,
    }
}

// ---------------------------------------------------------------------------
// The settings file

/// A value in the settings file.
#[derive(Debug)]
pub enum Toml {
    Integer(i64),
    Text(String),
    /// Anything else.
    Other,
}

/// A value in the settings file, as the model has it.
#[allow(inconsistent_fields)]
pub enum TomlValue {
    Integer { value: i64 },
    Text { value: Seq<char> },
    Other,
}

impl View for Toml {
    type V = TomlValue;

    open spec fn view(&self) -> TomlValue {
        match *self {
            Toml::Integer(value) => TomlValue::Integer { value },
            Toml::Text(s) => TomlValue::Text { value: s@ },
            Toml::Other => TomlValue::Other,
        }
    }
}

pub open spec fn entries(v: Seq<(String, Toml)>) -> Seq<(Seq<char>, TomlValue)> {
    v.map_values(|e: (String, Toml)| (e.0@, e.1@))
}

/// The top-level entries of a TOML document, by their names; none where the text is no document.
pub uninterp spec fn toml_document(text: Seq<char>) -> Option<Seq<(Seq<char>, TomlValue)>>;

/// `toml::from_str` to a `toml::Table`. The result depends on the text alone; which texts are
/// documents is not stated here.
#[verifier::external_body]
fn parse_toml(text: &str) -> (r: Option<Vec<(String, Toml)>>)
    ensures
        match r {
            Some(v) => toml_document(text@) == Some(entries(v@)),
            None => toml_document(text@) is None,
        },
{
    let table: toml::Table = toml::from_str(text).ok()?;
    Some(
        table.into_iter().map(
            |(k, v)| match v {
                toml::Value::Integer(i) => (k, Toml::Integer(i)),
                toml::Value::String(s) => (k, Toml::Text(s)),
                toml::Value::Float(_) => (k, Toml::Other),
                toml::Value::Boolean(_) => (k, Toml::Other),
                toml::Value::Datetime(_) => (k, Toml::Other),
                toml::Value::Array(_) => (k, Toml::Other),
                toml::Value::Table(_) => (k, Toml::Other),
            },
        ).collect(),
    )
}

/// The entries of the settings file.
pub open spec fn settings_entries(interval: i64, account: Option<Seq<char>>) -> Seq<
    (Seq<char>, TomlValue),
> {
    let first = seq![("fetch_interval_minutes"@, TomlValue::Integer { value: interval })];
    match account {
        Some(a) => first.push(("onepassword_account"@, TomlValue::Text { value: a })),
        None => first,
    }
}

/// From place `i` on stand so many of the same character.
pub open spec fn run_at(s: Seq<char>, c: char, i: int, n: int) -> bool {
    &&& 0 <= i
    &&& i + n <= s.len()
    &&& forall|k: int| i <= k < i + n ==> s[k] == c
}

/// No quote stands more than two hundred and fifty-five times in a row.
pub open spec fn few_quotes(s: Seq<char>) -> bool {
    &&& forall|i: int| !#[trigger] run_at(s, '"', i, 256)
    &&& forall|i: int| !#[trigger] run_at(s, '\'', i, 256)
}

/// A value that is written to a document.
#[derive(Debug)]
pub enum Scalar {
    Integer(i64),
    Text(String),
}

impl View for Scalar {
    type V = TomlValue;

    open spec fn view(&self) -> TomlValue {
        match *self {
            Scalar::Integer(value) => TomlValue::Integer { value },
            Scalar::Text(s) => TomlValue::Text { value: s@ },
        }
    }
}

pub open spec fn scalar_entries(v: Seq<(String, Scalar)>) -> Seq<(Seq<char>, TomlValue)> {
    v.map_values(|e: (String, Scalar)| (e.0@, e.1@))
}

/// A name that means nothing else: not empty, without a dollar sign in front, and without too
/// many quotes in a row.
pub open spec fn plain_name(name: Seq<char>) -> bool {
    name.len() > 0 && name[0] != '$' && few_quotes(name)
}

/// Entries that can be written as a document: their names are plain and stand in order, none of
/// them twice, and no text has too many quotes in a row.
pub open spec fn writable(v: Seq<(String, Scalar)>) -> bool {
    &&& forall|k: int| 0 <= k < v.len() ==> plain_name((#[trigger] v[k]).0@)
    &&& forall|k: int|
        0 <= k < v.len() ==> ((#[trigger] v[k]).1 matches Scalar::Text(s) ==> few_quotes(s@))
    &&& forall|j: int, k: int|
        #![trigger v[j], v[k]]
        0 <= j < k < v.len() ==> text_order(v[j].0@, v[k].0@) < 0
}

/// The text of a document with these entries.
pub uninterp spec fn toml_text(e: Seq<(Seq<char>, TomlValue)>) -> Seq<char>;

/// `toml::to_string` of a `toml::Table` with these entries. The text depends on them alone, and
/// `toml::from_str` reads the same table from it, whose entries are in the order of their names;
/// how it is laid out is not stated. Names with a dollar sign in front are the crate's own. A
/// run of quotes longer than 255 would overflow a counter of the crate.
#[verifier::external_body]
fn write_toml(e: Vec<(String, Scalar)>) -> (r: String)
    requires
        writable(e@),
    ensures
        r@ == toml_text(scalar_entries(e@)),
        toml_document(r@) == Some(scalar_entries(e@)),
{
    let table: toml::Table = e.into_iter().map(
        |(name, value)| match value {
            Scalar::Integer(i) => (name, toml::Value::Integer(i)),
            Scalar::Text(s) => (name, toml::Value::String(s)),
        },
    ).collect();
    toml::to_string(&table).expect("a table of integers and texts is always written")
}

/// The text of the settings file.
pub open spec fn settings_text(interval: i64, account: Option<Seq<char>>) -> Seq<char> {
    toml_text(settings_entries(interval, account))
}

/// The settings.
#[derive(Debug, PartialEq, Eq)]
pub struct SettingsDoc {
    pub fetch_interval_minutes: u64,
    pub onepassword_account: Option<String>,
}

/// The settings, as the model has them.
#[verifier::ext_equal]
pub struct Settings {
    pub fetch_interval_minutes: u64,
    pub onepassword_account: Option<Seq<char>>,
}

impl View for SettingsDoc {
    type V = Settings;

    open spec fn view(&self) -> Settings {
        Settings {
            fetch_interval_minutes: self.fetch_interval_minutes,
            onepassword_account: optional(self.onepassword_account),
        }
    }
}

/// The settings that nobody has changed.
pub open spec fn default_settings() -> Settings {
    Settings { fetch_interval_minutes: 15, onepassword_account: None }
}

impl Default for SettingsDoc {
    fn default() -> (r: Self)
        ensures
            r@ == default_settings(),
    {
        SettingsDoc { fetch_interval_minutes: 15, onepassword_account: None }
    }
}

/// The variable that names the account, for a program that looks secrets up.
pub open spec fn account_env(s: Settings) -> Seq<(Seq<char>, Seq<char>)> {
    match s.onepassword_account {
        Some(account) => seq![("OP_ACCOUNT"@, account)],
        None => seq![],
    }
}

/// How chezmoi is called under the settings: every call names the account, where there is one.
pub fn chezmoi_options(settings: &SettingsDoc) -> (r: ChezmoiOptions)
    ensures
        pairs(r.env@) == account_env(settings@),
        r.bin@ == "chezmoi"@,
        strings(r.base_args@) == seq!["--no-tty"@, "--no-pager"@],
        r.timeout == Duration::seconds(30),
{
    let mut options = ChezmoiOptions::default();
    match &settings.onepassword_account {
        Some(account) => {
            options.env.push(("OP_ACCOUNT".to_owned(), account.clone()));
        },
        None => {},
    }
    assert(pairs(options.env@) =~= account_env(settings@));
    options
}

/// The text of the settings file. An interval has to be one that the file can hold.
pub fn settings_toml(fetch_interval_minutes: u64, onepassword_account: Option<&str>) -> (r: String)
    requires
        fetch_interval_minutes <= i64::MAX,
        onepassword_account matches Some(a) ==> few_quotes(a@),
    ensures
        r@ == settings_text(
            fetch_interval_minutes as i64,
            match onepassword_account {
                Some(a) => Some(a@),
                None => None,
            },
        ),
        toml_document(r@) == Some(
            settings_entries(
                fetch_interval_minutes as i64,
                match onepassword_account {
                    Some(a) => Some(a@),
                    None => None,
                },
            ),
        ),
{
    proof {
        reveal_strlit("fetch_interval_minutes");
        reveal_strlit("onepassword_account");
    }
    let interval: i64 = fetch_interval_minutes as i64;
    let mut e: Vec<(String, Scalar)> = Vec::new();
    e.push(("fetch_interval_minutes".to_owned(), Scalar::Integer(interval)));
    match onepassword_account {
        Some(a) => {
            e.push(("onepassword_account".to_owned(), Scalar::Text(a.to_owned())));
            assert(scalar_entries(e@) =~= settings_entries(interval, Some(a@)));
        },
        None => {
            assert(scalar_entries(e@) =~= settings_entries(interval, None));
        },
    }
    write_toml(e)
}

/// The place of an entry from `k` on.
pub open spec fn entry_named(e: Seq<(Seq<char>, TomlValue)>, name: Seq<char>, k: int) -> Option<
    TomlValue,
>
    decreases e.len() - k,
{
    if k < 0 || k >= e.len() {
        None
    } else if e[k].0 == name {
        Some(e[k].1)
    } else {
        entry_named(e, name, k + 1)
    }
}

/// The settings that a document holds. What it does not hold is as nobody has changed it; what
/// it does not know is ignored. A value of the wrong kind spoils it.
pub open spec fn settings_in(e: Seq<(Seq<char>, TomlValue)>) -> Option<Settings> {
    let interval = match entry_named(e, "fetch_interval_minutes"@, 0) {
        None => Some(default_settings().fetch_interval_minutes),
        Some(TomlValue::Integer { value }) => if value >= 0 {
            Some(value as u64)
        } else {
            None
        },
        Some(_) => None,
    };
    let account = match entry_named(e, "onepassword_account"@, 0) {
        None => Some(None),
        Some(TomlValue::Text { value }) => Some(Some(value)),
        Some(_) => None,
    };
    match (interval, account) {
        (Some(i), Some(a)) => Some(
            Settings { fetch_interval_minutes: i, onepassword_account: a },
        ),
        _ => None,
    }
}

fn find_entry<'a>(v: &'a Vec<(String, Toml)>, name: &str) -> (r: Option<&'a Toml>)
    ensures
        (match r {
            Some(t) => Some(t@),
            None => None,
        }) == entry_named(entries(v@), name@, 0),
{
    let ghost all = entries(v@);
    let mut k: usize = 0;
    assert(all.len() == v@.len());
    while k < v.len()
        invariant
            all == entries(v@),
            all.len() == v@.len(),
            k <= v@.len(),
            entry_named(all, name@, 0) == entry_named(all, name@, k as int),
        decreases v@.len() - k,
    {
        assert(all[k as int] == (v@[k as int].0@, v@[k as int].1@));
        if same(v[k].0.as_str(), name) {
            return Some(&v[k].1);
        }
        k = k + 1;
    }
    None
}

/// The settings that the entries of a document hold.
pub fn settings_from_entries(v: &Vec<(String, Toml)>) -> (r: Option<SettingsDoc>)
    ensures
        (match r {
            Some(d) => Some(d@),
            None => None,
        }) == settings_in(entries(v@)),
{
    let interval: u64 = match find_entry(v, "fetch_interval_minutes") {
        None => 15,
        Some(Toml::Integer(value)) => if *value >= 0 {
            *value as u64
        } else {
            return None;
        },
        Some(_) => {
            return None;
        },
    };
    let account: Option<String> = match find_entry(v, "onepassword_account") {
        None => None,
        Some(Toml::Text(s)) => Some(s.clone()),
        Some(_) => {
            return None;
        },
    };
    Some(SettingsDoc { fetch_interval_minutes: interval, onepassword_account: account })
}

/// The settings that a file holds, or as nobody has changed them where there is no file or it
/// is spoilt. The interval is brought within the bounds.
pub open spec fn loaded_settings(text: Option<Seq<char>>) -> Settings {
    let held = match text {
        Some(t) => match toml_document(t) {
            Some(e) => settings_in(e),
            None => None,
        },
        None => None,
    };
    let doc = match held {
        Some(d) => d,
        None => default_settings(),
    };
    Settings {
        fetch_interval_minutes: clamped(doc.fetch_interval_minutes as int) as u64,
        ..doc
    }
}

/// The settings that a file holds.
pub fn load_settings(text: Option<&str>) -> (r: SettingsDoc)
    ensures
        r@ == loaded_settings(
            match text {
                Some(t) => Some(t@),
                None => None,
            },
        ),
{
    let mut doc = SettingsDoc::default();
    match text {
        Some(t) => match parse_toml(t) {
            Some(v) => match settings_from_entries(&v) {
                Some(d) => {
                    doc = d;
                },
                None => {},
            },
            None => {},
        },
        None => {},
    }
    SettingsDoc {
        fetch_interval_minutes: clamp_interval(doc.fetch_interval_minutes),
        onepassword_account: doc.onepassword_account,
    }
}

/// Settings within the bounds are read back as they were written.
pub proof fn law_settings_round_trip(text: Seq<char>, interval: u64, account: Option<Seq<char>>)
    requires
        INTERVAL_MIN <= interval <= INTERVAL_MAX,
        toml_document(text) == Some(settings_entries(interval as i64, account)),
    ensures
        loaded_settings(Some(text)) == (Settings {
            fetch_interval_minutes: interval,
            onepassword_account: account,
        }),
{
    let e = settings_entries(interval as i64, account);
    reveal_with_fuel(entry_named, 3);
    reveal_strlit("fetch_interval_minutes");
    reveal_strlit("onepassword_account");
    assert("fetch_interval_minutes"@.len() != "onepassword_account"@.len());
    assert(e[0].0 == "fetch_interval_minutes"@);
    if account is Some {
        assert(e[1].0 == "onepassword_account"@);
    }
}

// ---------------------------------------------------------------------------
// The view

/// How saving stands.
#[derive(Debug, PartialEq, Eq)]
pub enum SaveState {
    Idle,
    Saving,
    Saved,
    Error(String),
}

/// The files that are shown, and the one that is written.
#[derive(Debug)]
pub struct SettingsPaths {
    pub socket: String,
    pub journal: String,
    pub settings: String,
}

/// The settings and their edits.
#[derive(Debug)]
pub struct SettingsView {
    pub interval: u64,
    /// What is on disk is known; until then nothing can be edited.
    pub loaded: bool,
    pub accounts: AccountsState,
    pub selected: Option<String>,
    pub save: SaveState,
    /// What is on disk.
    pub baseline: Option<(u64, Option<String>)>,
    pub menu_open: bool,
}

/// The edits differ from what is on disk.
pub open spec fn edited(v: SettingsView) -> bool {
    v.baseline matches Some(b) && (b.0 != v.interval || optional(b.1) != optional(v.selected))
}

fn same_choice(a: &Option<String>, b: &Option<String>) -> (r: bool)
    ensures
        r == (optional(*a) == optional(*b)),
{
    match (a, b) {
        (Some(x), Some(y)) => same(x.as_str(), y.as_str()),
        (None, None) => true,
        _ => false,
    }
}

/// What the toolbar says; it is there only while there is something to do or to tell.
#[derive(Debug, PartialEq, Eq)]
pub struct Toolbar {
    pub status: String,
    pub tone: StatusTone,
    /// The edits can be saved, or taken back.
    pub can_act: bool,
}

/// What the toolbar says.
pub open spec fn toolbar_words(save: SaveState) -> Seq<char> {
    match save {
        SaveState::Saved => "Saved · sync daemon restarting"@,
        SaveState::Error(e) => "save failed: "@ + e@,
        SaveState::Saving => "saving…"@,
        SaveState::Idle => "unsaved changes · saving restarts the sync daemon"@,
    }
}

impl SettingsView {
    /// Nothing is loaded yet.
    pub fn new() -> (r: Self)
        ensures
            r.interval == default_settings().fetch_interval_minutes,
            !r.loaded,
            r.accounts is Loading,
            r.selected is None,
            r.save is Idle,
            r.baseline is None,
            !r.menu_open,
    {
        SettingsView {
            interval: 15,
            loaded: false,
            accounts: AccountsState::Loading,
            selected: None,
            save: SaveState::Idle,
            baseline: None,
            menu_open: false,
        }
    }

    /// Takes what is on disk. There are no edits then.
    pub fn take_settings(&mut self, doc: SettingsDoc)
        ensures
            final(self).interval == doc.fetch_interval_minutes,
            final(self).selected == doc.onepassword_account,
            final(self).loaded,
            !edited(*final(self)),
            final(self).baseline is Some,
            final(self).accounts == old(self).accounts,
            final(self).save == old(self).save,
            final(self).menu_open == old(self).menu_open,
    {
        self.interval = doc.fetch_interval_minutes;
        self.selected = doc.onepassword_account;
        self.baseline = Some((self.interval, copy_text(&self.selected)));
        self.loaded = true;
    }

    /// Takes all edits back.
    pub fn revert(&mut self)
        ensures
            !edited(*final(self)),
            final(self).save is Idle,
            match old(self).baseline {
                Some(b) => final(self).interval == b.0 && optional(final(self).selected)
                    == optional(b.1),
                None => final(self).interval == old(self).interval && final(self).selected
                    == old(self).selected,
            },
            *final(self) == (SettingsView {
                interval: final(self).interval,
                selected: final(self).selected,
                save: SaveState::Idle,
                ..*old(self)
            }),
    {
        match &self.baseline {
            Some(b) => {
                let interval: u64 = b.0;
                let selected = copy_text(&b.1);
                self.interval = interval;
                self.selected = selected;
            },
            None => {},
        }
        self.save = SaveState::Idle;
    }

    /// Takes one step. What was told of saving is dropped if that changes anything.
    pub fn bump_interval(&mut self, up: bool)
        ensures
            final(self).interval == clamped(
                if up {
                    old(self).interval + INTERVAL_STEP
                } else {
                    old(self).interval - INTERVAL_STEP
                },
            ),
            *final(self) == (if final(self).interval == old(self).interval {
                *old(self)
            } else {
                SettingsView {
                    interval: final(self).interval,
                    save: SaveState::Idle,
                    ..*old(self)
                }
            }),
    {
        let next: u64 = step_interval(self.interval, up);
        if next != self.interval {
            self.interval = next;
            self.save = SaveState::Idle;
        }
    }

    /// Chooses an account, or none.
    pub fn select_account(&mut self, value: Option<String>)
        ensures
            *final(self) == (SettingsView {
                selected: value,
                save: SaveState::Idle,
                ..*old(self)
            }),
    {
        self.selected = value;
        self.save = SaveState::Idle;
    }

    /// Opens the menu of accounts, or closes it.
    pub fn toggle_menu(&mut self)
        ensures
            *final(self) == (SettingsView { menu_open: !old(self).menu_open, ..*old(self) }),
    {
        self.menu_open = !self.menu_open;
    }

    /// Chooses an account from the menu, or none, and closes the menu.
    pub fn choose_account(&mut self, value: Option<String>)
        ensures
            *final(self) == (SettingsView {
                selected: value,
                save: SaveState::Idle,
                menu_open: false,
                ..*old(self)
            }),
    {
        self.select_account(value);
        self.menu_open = false;
    }

    /// Whether the edits differ from what is on disk.
    pub fn dirty(&self) -> (r: bool)
        ensures
            r == edited(*self),
    {
        match &self.baseline {
            Some(b) => b.0 != self.interval || !same_choice(&b.1, &self.selected),
            None => false,
        }
    }

    /// The toolbar, while there is one.
    pub fn toolbar(&self) -> (r: Option<Toolbar>)
        ensures
            match r {
                Some(t) => {
                    &&& edited(*self) || !(self.save is Idle)
                    &&& t.status@ == toolbar_words(self.save)
                    &&& t.tone == (match self.save {
                        SaveState::Saved => StatusTone::Fine,
                        SaveState::Error(_) => StatusTone::Conflict,
                        _ => StatusTone::Muted,
                    })
                    &&& t.can_act == (edited(*self) && !(self.save is Saving))
                },
                None => !edited(*self) && self.save is Idle,
            },
    {
        let dirty: bool = self.dirty();
        let (idle, saving): (bool, bool) = match &self.save {
            SaveState::Idle => (true, false),
            SaveState::Saving => (false, true),
            _ => (false, false),
        };
        if !dirty && idle {
            return None;
        }
        let status = match &self.save {
            SaveState::Saved => "Saved · sync daemon restarting".to_owned(),
            SaveState::Error(e) => {
                let mut s = "save failed: ".to_owned();
                s.append(e.as_str());
                s
            },
            SaveState::Saving => "saving…".to_owned(),
            SaveState::Idle => "unsaved changes · saving restarts the sync daemon".to_owned(),
        };
        let tone = match &self.save {
            SaveState::Saved => StatusTone::Fine,
            SaveState::Error(_) => StatusTone::Conflict,
            _ => StatusTone::Muted,
        };
        Some(Toolbar { status, tone, can_act: dirty && !saving })
    }

    /// Begins to save, and gives the text of the file.
    pub fn begin_save(&mut self) -> (r: String)
        requires
            old(self).interval <= i64::MAX,
            old(self).selected matches Some(a) ==> few_quotes(a@),
        ensures
            *final(self) == (SettingsView { save: SaveState::Saving, ..*old(self) }),
            r@ == settings_text(old(self).interval as i64, optional(old(self).selected)),
            toml_document(r@) == Some(
                settings_entries(old(self).interval as i64, optional(old(self).selected)),
            ),
    {
        let account = match &self.selected {
            Some(a) => Some(a.as_str()),
            None => None,
        };
        let text = settings_toml(self.interval, account);
        self.save = SaveState::Saving;
        text
    }

    /// Ends a save. If it went well, what is set now is what is on disk.
    pub fn end_save(&mut self, failure: Option<String>)
        ensures
            match failure {
                None => {
                    &&& *final(self) == (SettingsView {
                        save: SaveState::Saved,
                        baseline: final(self).baseline,
                        ..*old(self)
                    })
                    &&& final(self).baseline is Some
                    &&& !edited(*final(self))
                },
                Some(e) => *final(self) == (SettingsView { save: SaveState::Error(e), ..*old(self) }),
            },
    {
        match failure {
            None => {
                self.baseline = Some((self.interval, copy_text(&self.selected)));
                self.save = SaveState::Saved;
            },
            Some(e) => {
                self.save = SaveState::Error(e);
            },
        }
    }

    /// The time for which it is told that something was saved is over.
    pub fn dismiss(&mut self)
        ensures
            *final(self) == (if old(self).save is Saved {
                SettingsView { save: SaveState::Idle, ..*old(self) }
            } else {
                *old(self)
            }),
    {
        match &self.save {
            SaveState::Saved => {
                self.save = SaveState::Idle;
            },
            _ => {},
        }
    }

    /// What the interval is shown as, and whether it can be made shorter and longer.
    pub fn interval_row(&self) -> (r: (String, bool, bool))
        ensures
            r.0@ == (if self.loaded {
                decimal(self.interval as nat) + " min"@
            } else {
                "…"@
            }),
            r.1 == (self.loaded && self.interval > INTERVAL_MIN),
            r.2 == (self.loaded && self.interval < INTERVAL_MAX),
    {
        let value = if self.loaded {
            let mut s = decimal_text(self.interval);
            s.append(" min");
            s
        } else {
            "…".to_owned()
        };
        (
            value,
            self.loaded && self.interval > INTERVAL_MIN,
            self.loaded && self.interval < INTERVAL_MAX,
        )
    }

    /// What the chosen account is called: as the password manager has it, where it is known.
    pub fn selected_label(&self) -> (r: String)
        ensures
            r@ == chosen_label(*self),
    {
        let value = match &self.selected {
            Some(v) => v,
            None => {
                return "None (single account)".to_owned();
            },
        };
        match &self.accounts {
            AccountsState::Ready(list) => {
                let ghost all = accounts_of(list@);
                let mut k: usize = 0;
                assert(all.len() == list@.len());
                while k < list.len()
                    invariant
                        all == accounts_of(list@),
                        all.len() == list@.len(),
                        k <= list@.len(),
                        self.selected == Some(*value),
                        self.accounts == AccountsState::Ready(*list),
                        account_stored_as(all, value@, 0) == account_stored_as(
                            all,
                            value@,
                            k as int,
                        ),
                    decreases list@.len() - k,
                {
                    assert(all[k as int] == list@[k as int]@);
                    match list[k].value() {
                        Some(v) => {
                            if same(v.as_str(), value.as_str()) {
                                return list[k].label();
                            }
                        },
                        None => {},
                    }
                    k = k + 1;
                }
            },
            _ => {},
        }
        value.clone()
    }
}

/// The first account, from the `k`-th on, that is stored as that.
pub open spec fn account_stored_as(v: Seq<Account>, value: Seq<char>, k: int) -> Option<Account>
    decreases v.len() - k,
{
    if k < 0 || k >= v.len() {
        None
    } else if v[k].stored() == Some(value) {
        Some(v[k])
    } else {
        account_stored_as(v, value, k + 1)
    }
}

/// What the chosen account is called.
pub open spec fn chosen_label(v: SettingsView) -> Seq<char> {
    match v.selected {
        None => "None (single account)"@,
        Some(value) => match v.accounts {
            AccountsState::Ready(list) => match account_stored_as(
                accounts_of(list@),
                value@,
                0,
            ) {
                Some(a) => a.called(),
                None => value@,
            },
            _ => value@,
        },
    }
}

/// A row of the menu of accounts.
#[derive(Debug, PartialEq, Eq)]
pub struct AccountRow {
    /// What is chosen with it.
    pub value: Option<String>,
    pub label: String,
    pub sublabel: Option<String>,
    pub selected: bool,
}

/// A row of the menu of accounts, as the model has it.
#[verifier::ext_equal]
pub struct MenuRow {
    pub value: Option<Seq<char>>,
    pub label: Seq<char>,
    pub sublabel: Option<Seq<char>>,
    pub selected: bool,
}

impl View for AccountRow {
    type V = MenuRow;

    open spec fn view(&self) -> MenuRow {
        MenuRow {
            value: optional(self.value),
            label: self.label@,
            sublabel: optional(self.sublabel),
            selected: self.selected,
        }
    }
}

pub open spec fn menu_rows(v: Seq<AccountRow>) -> Seq<MenuRow> {
    v.map_values(|r: AccountRow| r@)
}

/// The row of an account. Its address is shown beside what it is called, unless it is that.
pub open spec fn row_of_account(a: Account, chosen: Option<Seq<char>>) -> MenuRow {
    MenuRow {
        value: a.stored(),
        label: a.called(),
        sublabel: match a.email {
            Some(e) => if e == a.called() {
                None
            } else {
                Some(e)
            },
            None => None,
        },
        selected: chosen == a.stored(),
    }
}

/// The rows of the first `n` accounts; one that cannot be stored has none.
pub open spec fn rows_of_accounts(v: Seq<Account>, chosen: Option<Seq<char>>, n: int) -> Seq<MenuRow>
    decreases n,
{
    if n <= 0 {
        seq![]
    } else if v[n - 1].stored() is Some {
        rows_of_accounts(v, chosen, n - 1).push(row_of_account(v[n - 1], chosen))
    } else {
        rows_of_accounts(v, chosen, n - 1)
    }
}

/// The rows of the menu: that there is one account only comes first.
pub open spec fn menu_of(v: SettingsView) -> Seq<MenuRow> {
    let chosen = optional(v.selected);
    let first = MenuRow {
        value: None,
        label: "None (single account)"@,
        sublabel: None,
        selected: chosen is None,
    };
    match v.accounts {
        AccountsState::Ready(list) => seq![first] + rows_of_accounts(
            accounts_of(list@),
            chosen,
            list@.len() as int,
        ),
        _ => seq![first],
    }
}

fn account_row(a: &OpAccount, chosen: &Option<String>) -> (r: AccountRow)
    ensures
        r@ == row_of_account(a@, optional(*chosen)),
{
    let label = a.label();
    let value = a.value();
    let sublabel = match &a.email {
        Some(e) => if same(e.as_str(), label.as_str()) {
            None
        } else {
            Some(e.clone())
        },
        None => None,
    };
    let selected: bool = same_choice(chosen, &value);
    AccountRow { value, label, sublabel, selected }
}

impl SettingsView {
    /// The rows of the menu of accounts, and why there are no more, where there is a reason.
    pub fn account_menu(&self) -> (r: (Vec<AccountRow>, Option<&'static str>))
        ensures
            menu_rows(r.0@) == menu_of(*self),
            match self.accounts {
                AccountsState::Loading => r.1 matches Some(s) && s@ == "loading accounts…"@,
                AccountsState::Unavailable => r.1 matches Some(s) && s@
                    == "1Password CLI not found or errored"@,
                AccountsState::Ready(_) => r.1 is None,
            },
    {
        let mut rows: Vec<AccountRow> = Vec::new();
        rows.push(
            AccountRow {
                value: None,
                label: "None (single account)".to_owned(),
                sublabel: None,
                selected: self.selected.is_none(),
            },
        );
        let ghost first = rows@[0]@;
        assert(menu_rows(rows@) =~= seq![first]);
        match &self.accounts {
            AccountsState::Loading => (rows, Some("loading accounts…")),
            AccountsState::Unavailable => (rows, Some("1Password CLI not found or errored")),
            AccountsState::Ready(list) => {
                let ghost all = accounts_of(list@);
                let ghost chosen = optional(self.selected);
                let mut k: usize = 0;
                assert(all.len() == list@.len());
                assert(seq![first] + rows_of_accounts(all, chosen, 0) =~= seq![first]);
                while k < list.len()
                    invariant
                        all == accounts_of(list@),
                        all.len() == list@.len(),
                        chosen == optional(self.selected),
                        k <= list@.len(),
                        menu_rows(rows@) == seq![first] + rows_of_accounts(all, chosen, k as int),
                    decreases list@.len() - k,
                {
                    assert(all[k as int] == list@[k as int]@);
                    let ghost had = menu_rows(rows@);
                    if list[k].value().is_some() {
                        let row = account_row(&list[k], &self.selected);
                        rows.push(row);
                        proof {
                            assert(menu_rows(rows@) =~= had.push(row@));
                            assert(menu_rows(rows@) =~= seq![first] + rows_of_accounts(
                                all,
                                chosen,
                                k + 1,
                            ));
                        }
                    }
                    k = k + 1;
                }
                (rows, None)
            },
        }
    }
}

/// Whether a character stands so often in a row.
fn has_run(v: &Vec<char>, c: char) -> (r: bool)
    ensures
        r == exists|i: int| #[trigger] run_at(v@, c, i, 256),
{
    let mut pos: usize = 0;
    let mut run: usize = 0;
    while pos < v.len()
        invariant
            pos <= v@.len(),
            run <= pos,
            run < 256,
            forall|k: int| pos - run <= k < pos ==> v@[k] == c,
            run < pos ==> v@[pos - run - 1] != c,
            forall|i: int| i + 256 <= pos ==> !#[trigger] run_at(v@, c, i, 256),
        decreases v@.len() - pos,
    {
        if v[pos] == c {
            run = run + 1;
            if run == 256 {
                assert(run_at(v@, c, pos + 1 - 256, 256));
                return true;
            }
        } else {
            run = 0;
        }
        pos = pos + 1;
        assert forall|i: int| i + 256 <= pos implies !#[trigger] run_at(v@, c, i, 256) by {
            if i + 256 == pos && run_at(v@, c, i, 256) {
                assert(v@[pos - run - 1] == c);
            }
        }
    }
    false
}

/// Whether an account can be written to the settings file.
pub fn can_be_written(account: &str) -> (r: bool)
    ensures
        r == few_quotes(account@),
{
    let v = chars_of(account);
    !has_run(&v, '"') && !has_run(&v, '\'')
}

// ---------------------------------------------------------------------------
// What is read and offered

/// An interval is between five minutes and two hours, and as near as that allows to what was
/// asked for; a longer one is never made shorter than a shorter one.
pub proof fn law_intervals_are_within_bounds(minutes: int, other: int)
    ensures
        5 <= clamped(minutes) <= 120,
        5 <= minutes <= 120 ==> clamped(minutes) == minutes,
        minutes <= other ==> clamped(minutes) <= clamped(other),
        5 <= other <= minutes ==> other <= clamped(minutes) || clamped(minutes) == 120,
        minutes <= other <= 120 ==> clamped(minutes) <= other || clamped(minutes) == 5,
{
}

proof fn lemma_entry_absent(e: Seq<(Seq<char>, TomlValue)>, name: Seq<char>, k: int)
    requires
        0 <= k <= e.len(),
        forall|i: int| k <= i < e.len() ==> (#[trigger] e[i]).0 != name,
    ensures
        entry_named(e, name, k) is None,
    decreases e.len() - k,
{
    if k < e.len() {
        lemma_entry_absent(e, name, k + 1);
    }
}

proof fn lemma_entry_at(e: Seq<(Seq<char>, TomlValue)>, name: Seq<char>, k: int, at: int)
    requires
        0 <= k <= at < e.len(),
        e[at].0 == name,
        forall|i: int| k <= i < at ==> (#[trigger] e[i]).0 != name,
    ensures
        entry_named(e, name, k) == Some(e[at].1),
    decreases at - k,
{
    if k < at {
        lemma_entry_at(e, name, k + 1, at);
    }
}

/// The document has the one entry of that name, with this value.
pub open spec fn says(e: Seq<(Seq<char>, TomlValue)>, name: Seq<char>, value: TomlValue) -> bool {
    exists|k: int|
        0 <= k < e.len() && (#[trigger] e[k]).0 == name && e[k].1 == value && forall|i: int|
            0 <= i < k ==> (#[trigger] e[i]).0 != name
}

/// The document says nothing of it.
pub open spec fn says_nothing(e: Seq<(Seq<char>, TomlValue)>, name: Seq<char>) -> bool {
    forall|i: int| 0 <= i < e.len() ==> (#[trigger] e[i]).0 != name
}

/// Settings are read by their names, wherever they stand and whatever else is written. What is
/// not written is as it is by default: a quarter of an hour, and no account. What is no number of
/// minutes, or no name of an account, makes all of it as by default.
pub proof fn law_settings_are_read_by_name(
    text: Seq<char>,
    e: Seq<(Seq<char>, TomlValue)>,
    minutes: i64,
    account: Seq<char>,
    other: TomlValue,
)
    requires
        toml_document(text) == Some(e),
    ensures
        ({
            let read = loaded_settings(Some(text));
            let (interval, name) = ("fetch_interval_minutes"@, "onepassword_account"@);
            let said = says(e, interval, TomlValue::Integer { value: minutes }) && minutes >= 0;
            let named = says(e, name, TomlValue::Text { value: account });
            &&& said && (named || says_nothing(e, name)) ==> read.fetch_interval_minutes == clamped(
                minutes as int,
            )
            &&& says_nothing(e, interval) ==> read.fetch_interval_minutes == 15
            &&& named && (said || says_nothing(e, interval)) ==> read.onepassword_account == Some(
                account,
            )
            &&& says_nothing(e, name) ==> read.onepassword_account is None
            &&& says(e, interval, other) && !(other matches TomlValue::Integer { value }
                && value >= 0) ==> read.fetch_interval_minutes == 15
                && read.onepassword_account is None
            &&& says(e, name, other) && !(other is Text) ==> read.fetch_interval_minutes == 15
                && read.onepassword_account is None
        }),
{
    let (interval, name) = ("fetch_interval_minutes"@, "onepassword_account"@);
    lemma_said(e, interval, TomlValue::Integer { value: minutes });
    lemma_said(e, interval, other);
    lemma_said(e, name, TomlValue::Text { value: account });
    lemma_said(e, name, other);
}

proof fn lemma_said(e: Seq<(Seq<char>, TomlValue)>, name: Seq<char>, value: TomlValue)
    ensures
        says(e, name, value) ==> entry_named(e, name, 0) == Some(value),
        says_nothing(e, name) ==> entry_named(e, name, 0) is None,
{
    if says(e, name, value) {
        let k = choose|k: int|
            0 <= k < e.len() && (#[trigger] e[k]).0 == name && e[k].1 == value && forall|i: int|
                0 <= i < k ==> (#[trigger] e[i]).0 != name;
        lemma_entry_at(e, name, 0, k);
    }
    if says_nothing(e, name) {
        lemma_entry_absent(e, name, 0);
    }
}

/// What cannot be read, or is not there, leaves the settings as they are by default.
pub proof fn law_unreadable_settings_are_the_defaults(text: Option<Seq<char>>)
    requires
        text matches Some(t) ==> toml_document(t) is None,
    ensures
        loaded_settings(text).fetch_interval_minutes == 15,
        loaded_settings(text).onepassword_account is None,
{
}

/// Where nothing can be set for an account, it is not offered; every other is, in their order,
/// by the name that it is called.
pub proof fn law_accounts_are_offered(v: Seq<Account>, chosen: Option<Seq<char>>, n: int)
    requires
        0 <= n <= v.len(),
    ensures
        ({
            let rows = rows_of_accounts(v, chosen, n);
            let those = v.take(n).filter(
                |a: Account| a.shorthand is Some || a.email is Some || a.account_uuid is Some,
            );
            &&& rows.len() == those.len()
            &&& forall|k: int|
                0 <= k < rows.len() ==> {
                    &&& (#[trigger] rows[k]).value == those[k].stored()
                    &&& rows[k].label == those[k].called()
                    &&& rows[k].selected <==> chosen == those[k].stored()
                }
        }),
    decreases n,
{
    reveal(Seq::filter);
    if n > 0 {
        law_accounts_are_offered(v, chosen, n - 1);
        assert(v.take(n).drop_last() =~= v.take(n - 1));
        assert(v.take(n).last() == v[n - 1]);
    }
}

/// An account is stored and called by its shorthand; without one it is stored by what does not
/// change and called by what somebody would know it by.
pub proof fn law_accounts_are_named(a: Account)
    ensures
        a.shorthand matches Some(s) ==> a.stored() == Some(s) && a.called() == s,
        a.shorthand is None ==> {
            &&& a.account_uuid matches Some(u) ==> a.stored() == Some(u)
            &&& a.email matches Some(m) ==> a.called() == m
            &&& a.account_uuid is None ==> a.stored() == a.email
            &&& a.email is None ==> (a.account_uuid matches Some(u) ==> a.called() == u)
        },
{
}

/// The choice is shown by the name of the account that it stands for, or else as it is stored.
pub proof fn law_the_choice_is_shown(v: SettingsView, list: Vec<OpAccount>, value: String, k: int)
    requires
        v.selected == Some(value),
        v.accounts == AccountsState::Ready(list),
        0 <= k <= list@.len(),
        forall|i: int| 0 <= i < k ==> (#[trigger] list@[i])@.stored() != Some(value@),
        k < list@.len() ==> list@[k]@.stored() == Some(value@),
    ensures
        chosen_label(v) == if k < list@.len() {
            list@[k]@.called()
        } else {
            value@
        },
{
    let all = accounts_of(list@);
    assert forall|i: int| 0 <= i < k implies (#[trigger] all[i]).stored() != Some(value@) by {
        assert(all[i] == list@[i]@);
    }
    if k < list@.len() {
        assert(all[k] == list@[k]@);
    }
    lemma_stored_at(all, value@, 0, k);
}

proof fn lemma_stored_at(v: Seq<Account>, value: Seq<char>, from: int, k: int)
    requires
        0 <= from <= k <= v.len(),
        forall|i: int| 0 <= i < k ==> (#[trigger] v[i]).stored() != Some(value),
        k < v.len() ==> v[k].stored() == Some(value),
    ensures
        account_stored_as(v, value, from) == if k < v.len() {
            Some(v[k])
        } else {
            None
        },
    decreases k - from,
{
    if from < k {
        lemma_stored_at(v, value, from + 1, k);
    }
}

/// With an account chosen, chezmoi gets it with every call, whatever the call is; without one
/// nothing is added to its environment.
pub proof fn law_calls_get_the_account(
    s: Settings,
    options: ChezmoiOptions,
    args: Seq<Seq<char>>,
    stdin: Option<Seq<u8>>,
    timeout: Duration,
)
    requires
        pairs(options.env@) == account_env(s),
    ensures
        ({
            let env = chezmoi_request(options, args, stdin, timeout).env;
            match s.onepassword_account {
                Some(account) => env.contains(("OP_ACCOUNT"@, account)),
                None => env.len() == 0,
            }
        }),
{
    match s.onepassword_account {
        Some(account) => {
            assert(account_env(s)[0] == ("OP_ACCOUNT"@, account));
        },
        None => {},
    }
}

} // verus!
