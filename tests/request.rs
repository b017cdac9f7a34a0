use xdcc::request::{pack_ids, parse_args, query_string, session_for, Args, ArgsError};
use xdcc::session::Phase;

fn strings(v: &[&str]) -> Vec<String> {
    v.iter().map(|s| s.to_string()).collect()
}

fn known() -> Vec<String> {
    strings(&["Arutha", "CR-HOLLAND|NEW"])
}

#[test]
fn too_few_arguments() {
    assert_eq!(parse_args(&strings(&["direct"]), &known()), Err(ArgsError::Insufficient));
    assert_eq!(parse_args(&strings(&[]), &known()), Err(ArgsError::Insufficient));
    assert_eq!(parse_args(&strings(&["direct", "Arutha"]), &known()), Err(ArgsError::Insufficient));
}

#[test]
fn query_words_in_any_case() {
    for w in ["query", "SEARCH", "Find"] {
        assert_eq!(
            parse_args(&strings(&[w, "one piece", "720"]), &known()),
            Ok(Args::Query { search: "one+piece+720".to_string() })
        );
    }
}

#[test]
fn direct_request_to_known_peer() {
    assert_eq!(
        parse_args(&strings(&["Direct", "Arutha", "12, 345 x7"]), &known()),
        Ok(Args::Direct { bot: "Arutha".to_string(), packs: strings(&["12", "345", "7"]) })
    );
}

#[test]
fn unknown_peer_is_refused() {
    assert_eq!(parse_args(&strings(&["direct", "arutha", "1"]), &known()), Err(ArgsError::UnknownPeer));
}

#[test]
fn unknown_command_is_refused() {
    assert_eq!(parse_args(&strings(&["fetch", "x"]), &known()), Err(ArgsError::InvalidCommand));
}

#[test]
fn pack_ids_are_digit_runs() {
    assert_eq!(pack_ids("#1,#22 and 333"), strings(&["1", "22", "333"]));
    assert_eq!(pack_ids("none"), Vec::<String>::new());
    assert_eq!(pack_ids("9"), strings(&["9"]));
}

#[test]
fn query_joins_with_plus() {
    assert_eq!(query_string(&strings(&["a b", "c"])), "a+b+c");
    assert_eq!(query_string(&strings(&[])), "");
}

#[test]
fn direct_request_opens_a_session() {
    let args = Args::Direct { bot: "Arutha".to_string(), packs: strings(&["1"]) };
    let s = session_for(&args).unwrap();
    assert_eq!(s.phase(), Phase::AwaitingWelcome);
    assert!(session_for(&Args::Query { search: "x".to_string() }).is_none());
}
