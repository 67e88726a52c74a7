//! Updates.

use tomte::cmd::fake::FakeRunner;
use tomte::cmd::CommandError;
use tomte::update::{
    parse_semver, pick_update, running_bundle, swap_step, team_identifier, AvailableUpdate, Swap,
    UpdateError, Updater, RELEASES_LATEST_URL,
};

fn release_json(tag: &str, assets: &[&str]) -> String {
    let assets: Vec<String> = assets
        .iter()
        .map(|name| format!(r#"{{"name":"{name}","browser_download_url":"https://x/{name}"}}"#))
        .collect();
    format!(
        r#"{{"tag_name":"{tag}","body":"- faster scans\n- bug fixes","assets":[{}]}}"#,
        assets.join(",")
    )
}

#[test]
fn semver_parses_and_orders() {
    assert_eq!(parse_semver("v1.2.3"), Some([1, 2, 3]));
    assert_eq!(parse_semver("0.10.0"), Some([0, 10, 0]));
    assert!(parse_semver("0.10.0") > parse_semver("0.9.9"));
    assert_eq!(parse_semver("1.2"), None);
    assert_eq!(parse_semver("1.2.x"), None);
}

#[test]
fn pick_update_wants_strictly_newer_with_zip_asset() {
    let json = release_json("v0.2.0", &["Tomte-0.2.0.zip", "Tomte-0.2.0.dmg"]);
    let up = pick_update(&json, "0.1.0").unwrap().unwrap();
    assert_eq!(up.version, "0.2.0");
    assert_eq!(up.zip_url, "https://x/Tomte-0.2.0.zip");
    assert_eq!(up.notes.as_deref(), Some("- faster scans\n- bug fixes"));
    assert_eq!(pick_update(&json, "0.2.0").unwrap(), None);
    assert_eq!(pick_update(&json, "0.3.0").unwrap(), None);
    let human_only = release_json("v0.2.0", &["Tomte-0.2.0.dmg"]);
    assert_eq!(pick_update(&human_only, "0.1.0").unwrap(), None);
}

#[test]
fn releases_that_cannot_be_read_are_errors() {
    assert!(pick_update("nope", "0.1.0")
        .unwrap_err()
        .starts_with("bad release JSON: "));
    assert_eq!(
        pick_update("{}", "0.1.0").unwrap_err(),
        "release JSON has no tag_name"
    );
    assert_eq!(
        pick_update(&release_json("nightly", &[]), "0.1.0").unwrap_err(),
        "unparseable versions: tag nightly, current 0.1.0"
    );
    let blank = r#"{"tag_name":"v9.0.0","body":"  ","assets":[{"name":"Tomte-9.0.0.zip","browser_download_url":"u"}]}"#;
    assert_eq!(pick_update(blank, "0.1.0").unwrap().unwrap().notes, None);
}

#[test]
fn team_identifier_reads_codesign_output() {
    let dvv = "Executable=/x\nIdentifier=com.remikalbe.tomte\nTeamIdentifier=ABC1234567\n";
    assert_eq!(team_identifier(dvv).as_deref(), Some("ABC1234567"));
    assert_eq!(team_identifier("Identifier=x\n"), None);
}

#[test]
fn running_bundle_detects_app_layout() {
    assert_eq!(
        running_bundle("/Applications/Tomte.app/Contents/MacOS/tomte").as_deref(),
        Some("/Applications/Tomte.app")
    );
    assert_eq!(running_bundle("/repo/target/debug/tomte"), None);
    assert_eq!(running_bundle("/tomte"), None);
}

#[test]
fn the_bundle_is_a_part_of_the_path_as_it_is_written() {
    assert_eq!(
        running_bundle("/Applications//Tomte.app/Contents/./MacOS/tomte").as_deref(),
        Some("/Applications//Tomte.app")
    );
}

fn updater(answers: &[(i32, &str, &str)]) -> Updater<FakeRunner> {
    let mut fake = FakeRunner::new();
    for (code, out, err) in answers {
        fake.push_ok(*code, out, err);
    }
    Updater {
        runner: fake,
        stage_dir: "/stage".into(),
    }
}

fn available() -> AvailableUpdate {
    AvailableUpdate {
        version: "0.2.0".into(),
        zip_url: "https://x/z".into(),
        notes: None,
    }
}

#[test]
fn the_latest_release_is_asked_for() {
    let json = release_json("v0.2.0", &["Tomte-0.2.0.zip"]);
    let mut u = updater(&[(0, &json, "")]);
    assert_eq!(u.check("0.1.0").unwrap().unwrap().version, "0.2.0");
    let call = &u.runner.calls()[0];
    assert_eq!(call.program, "curl");
    assert_eq!(call.args.last().unwrap(), RELEASES_LATEST_URL);

    let mut u = updater(&[(22, "", "a\ncurl: (22) 404")]);
    assert_eq!(
        u.check("0.1.0").unwrap_err().message(),
        "release check failed: curl: (22) 404"
    );
    let mut u = updater(&[]);
    assert!(matches!(u.check("0.1.0"), Err(UpdateError::Check(_))));
}

#[test]
fn a_bundle_of_the_team_is_staged() {
    let mut u = updater(&[
        (0, "", ""),
        (0, "", ""),
        (0, "", ""),
        (0, "", "TeamIdentifier=TEAM\n"),
    ]);
    let app = u
        .download_and_stage(&available(), Some("TEAM"), &|_dir: String| Ok(()))
        .unwrap();
    assert_eq!(app, "/stage/unpacked/Tomte.app");
    let programs: Vec<&str> = u.runner.calls().iter().map(|c| c.program.as_str()).collect();
    assert_eq!(programs, vec!["curl", "ditto", "codesign", "codesign"]);
    assert_eq!(
        u.runner.calls()[0].args,
        vec!["-fSL", "--max-time", "300", "-o", "/stage/Tomte.zip", "https://x/z"]
    );
}

#[test]
fn bundles_that_do_not_verify_are_not_staged() {
    let mut u = updater(&[
        (0, "", ""),
        (0, "", ""),
        (0, "", ""),
        (0, "", "TeamIdentifier=OTHER\n"),
    ]);
    let err = u
        .download_and_stage(&available(), Some("TEAM"), &|_dir: String| Ok(()))
        .unwrap_err();
    assert_eq!(
        err.message(),
        "verification failed: bundle signed by team OTHER, expected TEAM"
    );

    let mut u = updater(&[(0, "", ""), (0, "", ""), (1, "", "broken")]);
    let err = u
        .download_and_stage(&available(), Some("TEAM"), &|_dir: String| Ok(()))
        .unwrap_err();
    assert_eq!(err.message(), "verification failed: signature invalid: broken");
    assert_eq!(u.runner.calls().len(), 3);

    let mut u = updater(&[(0, "", ""), (1, "", "bad zip")]);
    let err = u
        .download_and_stage(&available(), Some("TEAM"), &|_dir: String| Ok(()))
        .unwrap_err();
    assert_eq!(err.message(), "download failed: unpack: bad zip");

    let mut u = updater(&[(0, "", ""), (0, "", ""), (0, "", ""), (0, "", "")]);
    let err = u
        .download_and_stage(&available(), Some("TEAM"), &|_dir: String| Ok(()))
        .unwrap_err();
    assert_eq!(
        err.message(),
        "verification failed: no TeamIdentifier in signature"
    );
}

#[test]
fn nothing_is_downloaded_without_a_team_or_a_directory() {
    let mut u = updater(&[]);
    let err = u
        .download_and_stage(&available(), None, &|_dir: String| Ok(()))
        .unwrap_err();
    assert!(matches!(err, UpdateError::Verify(_)));
    assert!(u.runner.calls().is_empty());

    let mut u = updater(&[]);
    let err = u
        .download_and_stage(&available(), Some("T"), &|dir: String| {
            Err(format!("no {dir}"))
        })
        .unwrap_err();
    assert_eq!(err.message(), "download failed: stage dir: no /stage");
    assert!(u.runner.calls().is_empty());

    let mut fake = FakeRunner::new();
    fake.push_err(CommandError::Spawn {
        program: "curl".into(),
        source: "gone".into(),
    });
    let mut u = Updater {
        runner: fake,
        stage_dir: "/stage".into(),
    };
    let err = u
        .download_and_stage(&available(), Some("T"), &|_dir: String| Ok(()))
        .unwrap_err();
    assert_eq!(
        err.message(),
        "download failed: curl: failed to spawn curl: gone"
    );
}

#[test]
fn a_swap_that_fails_is_rolled_back() {
    assert_eq!(swap_step(Swap::Wait { looks: 0 }, false), Swap::Wait { looks: 1 });
    assert_eq!(swap_step(Swap::Wait { looks: 99 }, false), Swap::Retire);
    assert_eq!(swap_step(Swap::Wait { looks: 3 }, true), Swap::Retire);
    assert_eq!(swap_step(Swap::Retire, false), Swap::Exit { code: 1 });
    assert_eq!(swap_step(Swap::Retire, true), Swap::Install);
    assert_eq!(swap_step(Swap::Install, false), Swap::RollBack);
    assert_eq!(swap_step(Swap::RollBack, true), Swap::Exit { code: 1 });
    assert_eq!(swap_step(Swap::Install, true), Swap::Launch);
    assert_eq!(swap_step(Swap::Launch, true), Swap::Exit { code: 0 });
}
