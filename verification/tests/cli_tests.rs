use ctx::cli::{cli, cli_reaches_unreachable, CliError};

fn args(a: &[&str]) -> Vec<String> {
    a.iter().map(|s| s.to_string()).collect()
}

#[test]
fn simple_words_are_their_own_family() {
    let (notes, res) = cli(&args(&["there", "their"]));
    assert!(notes.is_empty());
    let cfg = res.unwrap();
    assert!(!cfg.has_families);
    assert_eq!(cfg.alternatives.len(), 2);
    assert_eq!(cfg.alternatives[0].raw, "there");
    assert_eq!(cfg.alternatives[0].jfmt, "there");
    assert_eq!(cfg.alternatives[0].fam, Some("there".to_string()));
    assert_eq!(cfg.alternatives[1].fam, Some("their".to_string()));
}

#[test]
fn hyphens_are_spaced_for_the_json() {
    let cfg = cli(&args(&["wide-ranging"])).1.unwrap();
    assert_eq!(cfg.alternatives[0].raw, "wide-ranging");
    assert_eq!(cfg.alternatives[0].jfmt, "wide - ranging");
}

#[test]
fn apostrophes_at_word_edges_are_spaced() {
    let cfg = cli(&args(&["'tis", "nother'", "they're", "it's 'tis"])).1.unwrap();
    assert_eq!(cfg.alternatives[0].raw, "'tis");
    assert_eq!(cfg.alternatives[0].jfmt, "' tis");
    assert_eq!(cfg.alternatives[0].fam, Some("'tis".to_string()));
    assert_eq!(cfg.alternatives[1].raw, "nother'");
    assert_eq!(cfg.alternatives[1].jfmt, "nother '");
    assert_eq!(cfg.alternatives[2].jfmt, "they're");
    assert_eq!(cfg.alternatives[3].raw, "it's 'tis");
    assert_eq!(cfg.alternatives[3].jfmt, "it's ' tis");
}

#[test]
fn lone_apostrophes_stay() {
    let cfg = cli(&args(&["there", "their", "they ' re"])).1.unwrap();
    let got: Vec<(&str, &str, Option<&str>)> = cfg
        .alternatives
        .iter()
        .map(|a| (a.raw.as_str(), a.jfmt.as_str(), a.fam.as_deref()))
        .collect();
    assert_eq!(
        got,
        vec![
            ("there", "there", Some("there")),
            ("their", "their", Some("their")),
            ("they ' re", "they ' re", Some("they ' re")),
        ]
    );
}

#[test]
fn families_group_following_alternatives() {
    let cfg = cli(&args(&["--family=foo", "foos", "foo", "-f=bar", "bar", "--fam=", "baz"])).1.unwrap();
    assert!(cfg.has_families);
    assert_eq!(cfg.alternatives[0].fam, Some("foo".to_string()));
    assert_eq!(cfg.alternatives[1].fam, Some("foo".to_string()));
    assert_eq!(cfg.alternatives[2].fam, Some("bar".to_string()));
    assert_eq!(cfg.alternatives[3].fam, None);
}

#[test]
fn family_name_stops_at_second_equals() {
    let cfg = cli(&args(&["--fam=a=b", "x"])).1.unwrap();
    assert_eq!(cfg.alternatives[0].fam, Some("a".to_string()));
}

#[test]
fn start_year() {
    let cfg = cli(&args(&["--since=1968", "foo"])).1.unwrap();
    assert_eq!(cfg.since_year, Some(['1', '9', '6', '8']));
    let cfg = cli(&args(&["--since-year=2001", "foo"])).1.unwrap();
    assert_eq!(cfg.since_year, Some(['2', '0', '0', '1']));
    let cfg = cli(&args(&["--since=1968", "--since=", "foo"])).1.unwrap();
    assert_eq!(cfg.since_year, None);
}

#[test]
fn bad_start_year_is_refused() {
    for bad in ["--since=68", "--since=19680", "--since=19a8", "--since-year=１９６８"] {
        match cli(&args(&[bad])).1 {
            Err(e) => {
                assert!(matches!(e, CliError::YearNotFourDigits));
                assert_eq!(e.message(), "Year must be exactly 4 digits");
            }
            Ok(_) => panic!("accepted {}", bad),
        }
    }
}

#[test]
fn unknown_option_is_refused() {
    match cli(&args(&["foo", "--bogus", "--since=x"])).1 {
        Err(e) => {
            assert_eq!(e.message(), "Unknown option: --bogus");
        }
        Ok(_) => panic!("accepted"),
    }
}

#[test]
fn flags() {
    let cfg = cli(&args(&["--raw", "-d", "x"])).1.unwrap();
    assert!(cfg.raw);
    assert!(cfg.debug);
    let cfg = cli(&args(&["--debug"])).1.unwrap();
    assert!(cfg.debug);
    assert!(!cfg.raw);
}

#[test]
fn debug_notes() {
    let (notes, res) = cli(&args(&["-d", "foo", "-f=fam", "bar", "wide-ranging"]));
    assert!(res.is_ok());
    assert_eq!(notes, vec!["👉Word: foo", "👉Family: fam", "👉Word: fam::bar"]);
}

#[test]
fn notes_survive_a_refusal() {
    let (notes, res) = cli(&args(&["-d", "foo", "--nope"]));
    assert!(res.is_err());
    assert_eq!(notes, vec!["👉Word: foo"]);
}

#[test]
fn unnamed_family_while_debugging_is_unreachable() {
    assert!(cli_reaches_unreachable(&args(&["-d", "--fam="])));
    assert!(!cli_reaches_unreachable(&args(&["--fam=", "-d"])));
    assert!(!cli_reaches_unreachable(&args(&["--bad", "-d", "--fam="])));
}
