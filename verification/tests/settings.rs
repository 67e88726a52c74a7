//! Settings.

use tomte::cmd::fake::FakeRunner;
use tomte::cmd::CommandError;
use tomte::views::settings::{
    can_be_written, chezmoi_options, clamp_interval, load_accounts, load_settings, parse_op_accounts,
    settings_toml, step_interval, AccountsState, OpAccount, SaveState, SettingsDoc, SettingsView,
    INTERVAL_MAX, INTERVAL_MIN,
};
use tomte::views::StatusTone;

#[test]
fn interval_steps_and_clamps() {
    assert_eq!(step_interval(15, true), 20);
    assert_eq!(step_interval(15, false), 10);
    assert_eq!(step_interval(INTERVAL_MIN, false), INTERVAL_MIN);
    assert_eq!(step_interval(INTERVAL_MAX, true), INTERVAL_MAX);
    assert_eq!(step_interval(118, true), INTERVAL_MAX);
    assert_eq!(step_interval(7, false), INTERVAL_MIN);
    assert_eq!(clamp_interval(0), INTERVAL_MIN);
    assert_eq!(clamp_interval(500), INTERVAL_MAX);
    assert_eq!(clamp_interval(60), 60);
}

const OP_FIXTURE: &str = r#"[
  {
    "url": "https://my.1password.com",
    "email": "remi@example.com",
    "user_uuid": "USERUUID",
    "account_uuid": "AAAA1111",
    "shorthand": "personal"
  },
  {
    "url": "https://team.1password.com",
    "email": "work@example.com",
    "account_uuid": "BBBB2222"
  }
]"#;

#[test]
fn parses_op_accounts_tolerating_missing_shorthand() {
    let accounts = parse_op_accounts(OP_FIXTURE).unwrap();
    assert_eq!(accounts.len(), 2);
    assert_eq!(accounts[0].shorthand.as_deref(), Some("personal"));
    assert_eq!(accounts[0].email.as_deref(), Some("remi@example.com"));
    assert_eq!(accounts[0].account_uuid.as_deref(), Some("AAAA1111"));
    assert_eq!(accounts[1].shorthand, None);
    assert_eq!(accounts[1].email.as_deref(), Some("work@example.com"));
    assert_eq!(accounts[1].account_uuid.as_deref(), Some("BBBB2222"));
}

#[test]
fn parse_op_accounts_edge_shapes() {
    assert!(parse_op_accounts("not json").is_err());
    assert!(parse_op_accounts(r#"{"a": 1}"#).is_err());
    assert_eq!(parse_op_accounts("[]").unwrap(), vec![]);
    let accounts = parse_op_accounts(r#"[42, {"shorthand": 7, "email": "e@x"}]"#).unwrap();
    assert_eq!(accounts.len(), 1);
    assert_eq!(accounts[0].shorthand, None);
    assert_eq!(accounts[0].email.as_deref(), Some("e@x"));
}

#[test]
fn op_account_value_and_label_precedence() {
    let full = OpAccount {
        shorthand: Some("sh".into()),
        email: Some("e@x".into()),
        account_uuid: Some("U".into()),
    };
    assert_eq!(full.value().as_deref(), Some("sh"));
    assert_eq!(full.label(), "sh");

    let no_short = OpAccount {
        shorthand: None,
        email: Some("e@x".into()),
        account_uuid: Some("U".into()),
    };
    assert_eq!(no_short.value().as_deref(), Some("U"));
    assert_eq!(no_short.label(), "e@x");

    let empty = OpAccount {
        shorthand: None,
        email: None,
        account_uuid: None,
    };
    assert_eq!(empty.value(), None);
    assert_eq!(empty.label(), "(unnamed account)");
}

#[test]
fn load_accounts_runs_op_and_maps_states() {
    let mut fake = FakeRunner::new();
    fake.push_ok(0, OP_FIXTURE, "");
    match load_accounts(&mut fake) {
        AccountsState::Ready(accounts) => assert_eq!(accounts.len(), 2),
        other => panic!("unexpected: {other:?}"),
    }
    let calls = fake.calls();
    assert_eq!(calls[0].program, "op");
    assert_eq!(calls[0].args, vec!["account", "list", "--format=json"]);

    let mut fake = FakeRunner::new();
    fake.push_ok(1, "", "no accounts configured");
    assert_eq!(load_accounts(&mut fake), AccountsState::Unavailable);

    let mut fake = FakeRunner::new();
    fake.push_err(CommandError::Spawn {
        program: "op".into(),
        source: "not found".into(),
    });
    assert_eq!(load_accounts(&mut fake), AccountsState::Unavailable);

    let mut fake = FakeRunner::new();
    fake.push_ok(0, "garbage", "");
    assert_eq!(load_accounts(&mut fake), AccountsState::Unavailable);
}

#[test]
fn settings_toml_round_trips_through_daemon_settings() {
    let s = load_settings(Some(&settings_toml(45, Some("personal"))));
    assert_eq!(s.fetch_interval_minutes, 45);
    assert_eq!(s.onepassword_account.as_deref(), Some("personal"));

    let s = load_settings(Some(&settings_toml(5, None)));
    assert_eq!(s.fetch_interval_minutes, 5);
    assert_eq!(s.onepassword_account, None);

    let s = load_settings(Some(&settings_toml(120, Some("we\"ird \\ acct"))));
    assert_eq!(s.onepassword_account.as_deref(), Some("we\"ird \\ acct"));
}

#[test]
fn the_settings_file_holds_one_line_for_each_setting() {
    assert_eq!(
        settings_toml(45, Some("personal")),
        "fetch_interval_minutes = 45\nonepassword_account = \"personal\"\n"
    );
    assert_eq!(settings_toml(5, None), "fetch_interval_minutes = 5\n");
    assert!(can_be_written("personal"));
    assert!(!can_be_written(&"\"".repeat(300)));
}

#[test]
fn load_settings_defaults_and_clamps() {
    let doc = load_settings(None);
    assert_eq!(doc.fetch_interval_minutes, 15);
    assert_eq!(doc.onepassword_account, None);

    let doc = load_settings(Some(
        "fetch_interval_minutes = 30\nonepassword_account = \"acct\"\n",
    ));
    assert_eq!(doc.fetch_interval_minutes, 30);
    assert_eq!(doc.onepassword_account.as_deref(), Some("acct"));

    assert_eq!(
        load_settings(Some("fetch_interval_minutes = 500\n")).fetch_interval_minutes,
        120
    );
    assert_eq!(
        load_settings(Some("fetch_interval_minutes = 1\n")).fetch_interval_minutes,
        5
    );
    assert_eq!(load_settings(Some("not toml [[[")).fetch_interval_minutes, 15);
}

#[test]
fn values_of_the_wrong_kind_give_the_defaults() {
    assert_eq!(
        load_settings(Some("fetch_interval_minutes = \"30\"\n")),
        SettingsDoc::default()
    );
    assert_eq!(
        load_settings(Some("fetch_interval_minutes = -1\n")),
        SettingsDoc::default()
    );
    assert_eq!(
        load_settings(Some("onepassword_account = 3\n")),
        SettingsDoc::default()
    );
}

#[test]
fn edits_can_be_saved_or_taken_back() {
    let mut v = SettingsView::new();
    v.take_settings(SettingsDoc {
        fetch_interval_minutes: 15,
        onepassword_account: None,
    });
    assert!(!v.dirty());
    v.bump_interval(true);
    assert_eq!(v.interval, 20);
    assert!(v.dirty());
    assert!(v.toolbar().unwrap().can_act);
    v.revert();
    assert_eq!(v.interval, 15);
    assert!(!v.dirty());

    v.select_account(Some("personal".into()));
    assert!(v.dirty());
    let text = v.begin_save();
    assert_eq!(load_settings(Some(&text)).onepassword_account.as_deref(), Some("personal"));
    assert_eq!(v.save, SaveState::Saving);
    v.end_save(Some("disk full".into()));
    assert!(matches!(v.save, SaveState::Error(_)));
    assert_eq!(v.toolbar().unwrap().tone, StatusTone::Conflict);
    assert!(v.dirty());
    v.begin_save();
    v.end_save(None);
    assert_eq!(v.save, SaveState::Saved);
    assert!(!v.dirty());
    v.dismiss();
    assert_eq!(v.save, SaveState::Idle);
}

#[test]
fn the_account_menu_marks_the_one_in_use() {
    let mut v = SettingsView::new();
    v.accounts = AccountsState::Ready(parse_op_accounts(OP_FIXTURE).unwrap());
    v.select_account(Some("BBBB2222".into()));
    assert_eq!(v.selected_label(), "work@example.com");
    let (rows, _) = v.account_menu();
    let marked: Vec<Option<&str>> = rows
        .iter()
        .filter(|r| r.selected)
        .map(|r| r.value.as_deref())
        .collect();
    assert_eq!(marked, vec![Some("BBBB2222")]);
    v.toggle_menu();
    assert!(v.menu_open);
    v.choose_account(None);
    assert!(!v.menu_open);
    assert_eq!(v.selected_label(), "None (single account)");
}

#[test]
fn every_chezmoi_call_names_the_account() {
    let mut doc = SettingsDoc::default();
    assert!(chezmoi_options(&doc).env.is_empty());
    doc.onepassword_account = Some("work".into());
    let options = chezmoi_options(&doc);
    assert_eq!(options.env, [("OP_ACCOUNT".to_string(), "work".to_string())]);
    assert_eq!(options.bin, "chezmoi");
}
