use soar_agent::actor::{block_key_of, plan_command, replacement_entries, startup_keys, Agent, Plan, Skipped};
use soar_agent::net::{parse_cidr, CidrError};
use soar_agent::policy::{default_mode, Mode, Policy};
use soar_agent::state::Command;

fn policy(mode: Mode, list: &[&str]) -> Policy {
    Policy { mode, blocklist: list.iter().map(|s| s.to_string()).collect() }
}

#[test]
fn default_policy_enforces_nothing_listed() {
    let p = Policy::default();
    assert_eq!(p.mode, Mode::Enforce);
    assert!(p.blocklist.is_empty());
    assert_eq!(default_mode(), Mode::Enforce);
}

#[test]
fn mode_names_and_control_values() {
    assert_eq!(Mode::Enforce.as_str(), "enforce");
    assert_eq!(Mode::Monitor.as_str(), "monitor");
    assert_eq!(Mode::Enforce.control_value(), 1);
    assert_eq!(Mode::Monitor.control_value(), 0);
    assert!(Mode::Enforce.is_enforce());
    assert!(!Mode::Monitor.is_enforce());
}

#[test]
fn add_block_appends_once() {
    let mut p = policy(Mode::Enforce, &["1.1.1.1"]);
    p.add_block("2.2.2.0/24".to_string());
    p.add_block("2.2.2.0/24".to_string());
    p.add_block("1.1.1.1".to_string());
    assert_eq!(p.blocklist, vec!["1.1.1.1", "2.2.2.0/24"]);
    assert!(p.lists("2.2.2.0/24"));
    assert!(!p.lists("2.2.2.0"));
}

#[test]
fn remove_block_drops_every_copy_and_keeps_order() {
    let mut p = policy(Mode::Monitor, &["a", "1.1.1.1", "b", "1.1.1.1", "c"]);
    p.remove_block("1.1.1.1");
    assert_eq!(p.blocklist, vec!["a", "b", "c"]);
    assert_eq!(p.mode, Mode::Monitor);
    p.remove_block("zzz");
    assert_eq!(p.blocklist, vec!["a", "b", "c"]);
}

#[test]
fn remove_undoes_add() {
    let mut p = policy(Mode::Enforce, &["10.0.0.0/8", "1.1.1.1"]);
    p.add_block("9.9.9.9".to_string());
    p.remove_block("9.9.9.9");
    assert_eq!(p.blocklist, vec!["10.0.0.0/8", "1.1.1.1"]);
}

#[test]
fn set_enforce_and_duplicate() {
    let mut p = policy(Mode::Enforce, &["x"]);
    p.set_enforce(false);
    assert_eq!(p.mode, Mode::Monitor);
    let q = p.duplicate();
    assert_eq!(q.mode, Mode::Monitor);
    assert_eq!(q.blocklist, vec!["x"]);
    p.set_enforce(true);
    assert_eq!(p.mode, Mode::Enforce);
}

#[test]
fn add_block_plans_an_insertion() {
    match plan_command(Command::AddBlock("198.51.100.9/24".to_string())) {
        Plan::Block { spec, key, prefix } => {
            assert_eq!(spec, "198.51.100.9/24");
            assert_eq!((key, prefix), parse_cidr("198.51.100.0/24").unwrap());
        }
        other => panic!("{other:?}"),
    }
}

#[test]
fn loopback_is_never_blocked() {
    match plan_command(Command::AddBlock("127.0.0.1".to_string())) {
        Plan::Skip(Skipped::Loopback(s)) => assert_eq!(s, "127.0.0.1"),
        other => panic!("{other:?}"),
    }
    match plan_command(Command::AddBlock("127.9.9.9/8".to_string())) {
        Plan::Skip(Skipped::Loopback(_)) => {}
        other => panic!("{other:?}"),
    }
}

#[test]
fn invalid_block_is_skipped() {
    match plan_command(Command::AddBlock("nope".to_string())) {
        Plan::Skip(Skipped::Invalid(s, CidrError::InvalidIp(t))) => {
            assert_eq!(s, "nope");
            assert_eq!(t, "nope");
        }
        other => panic!("{other:?}"),
    }
    match plan_command(Command::AddBlock("127.0.0.1/99".to_string())) {
        Plan::Skip(Skipped::Invalid(_, CidrError::PrefixOutOfRange(99))) => {}
        other => panic!("{other:?}"),
    }
    match plan_command(Command::RemoveBlock("1.2.3.4/x".to_string())) {
        Plan::Skip(Skipped::Invalid(_, CidrError::InvalidPrefix(t))) => assert_eq!(t, "x"),
        other => panic!("{other:?}"),
    }
}

#[test]
fn remove_block_plans_a_removal() {
    match plan_command(Command::RemoveBlock("127.0.0.1".to_string())) {
        Plan::Unblock { spec, key, prefix } => {
            assert_eq!(spec, "127.0.0.1");
            assert_eq!((key, prefix), parse_cidr("127.0.0.1").unwrap());
        }
        other => panic!("{other:?}"),
    }
}

#[test]
fn replace_skips_loopback_and_invalid() {
    let p = policy(Mode::Monitor, &["1.1.1.1", "127.0.0.1", "bad", "10.0.0.0/8", "127.0.0.1/99", "0.0.0.0/0"]);
    assert_eq!(
        replacement_entries(&p),
        vec![parse_cidr("1.1.1.1").unwrap(), parse_cidr("10.0.0.0/8").unwrap()]
    );
    match plan_command(Command::ReplacePolicy(p)) {
        Plan::Replace { entries, policy } => {
            assert_eq!(entries.len(), 2);
            assert_eq!(policy.blocklist.len(), 6);
            assert_eq!(policy.mode, Mode::Monitor);
        }
        other => panic!("{other:?}"),
    }
}

#[test]
fn startup_skips_loopback_but_stops_at_first_error() {
    let ok = policy(Mode::Enforce, &["127.0.0.1", "10.0.0.0/8", "0.0.0.0/0"]);
    assert_eq!(startup_keys(&ok).unwrap(), vec![parse_cidr("10.0.0.0/8").unwrap()]);
    let bad = policy(Mode::Enforce, &["10.0.0.0/8", "x", "1.1.1.1/40"]);
    assert!(matches!(startup_keys(&bad), Err(CidrError::InvalidIp(t)) if t == "x"));
}

#[test]
fn blocks_covering_loopback_are_never_planned() {
    for text in ["0.0.0.0/0", "64.0.0.0/2", "96.0.0.0/3", "126.0.0.0/7", "127.255.0.0/16"] {
        match plan_command(Command::AddBlock(text.to_string())) {
            Plan::Skip(Skipped::Loopback(s)) => assert_eq!(s, text),
            other => panic!("{text:?} gave {other:?}"),
        }
    }
    for text in ["128.0.0.0/1", "0.0.0.0/2", "126.0.0.0/8", "128.0.0.0/8"] {
        assert!(matches!(plan_command(Command::AddBlock(text.to_string())), Plan::Block { .. }), "{text}");
    }
    assert_eq!(block_key_of("64.0.0.0/2").unwrap(), None);
    assert_eq!(block_key_of("8.8.8.8").unwrap(), Some(parse_cidr("8.8.8.8").unwrap()));
    assert!(block_key_of("8.8.8.8/33").is_err());
}

#[test]
fn agent_follows_the_orders() {
    let mut agent = Agent::new(policy(Mode::Enforce, &[]));
    assert!(agent.enforcing);

    let plan = plan_command(Command::AddBlock("1.1.1.1".to_string()));
    let c = agent.complete(plan, true);
    assert!(c.persist && c.running);
    assert_eq!(agent.policy.blocklist, vec!["1.1.1.1"]);

    let plan = plan_command(Command::AddBlock("2.2.2.2".to_string()));
    let c = agent.complete(plan, false);
    assert!(!c.persist && c.running);
    assert_eq!(agent.policy.blocklist, vec!["1.1.1.1"]);

    let plan = plan_command(Command::SetEnforce(false));
    assert_eq!(plan.control(), Some(0));
    let c = agent.complete(plan, true);
    assert!(c.persist);
    assert!(!agent.enforcing);
    assert_eq!(agent.policy.mode, Mode::Monitor);

    let plan = plan_command(Command::RemoveBlock("1.1.1.1".to_string()));
    agent.complete(plan, false);
    assert!(agent.policy.blocklist.is_empty());

    let plan = plan_command(Command::ReplacePolicy(policy(Mode::Enforce, &["127.0.0.1", "3.3.3.3"])));
    assert_eq!(plan.control(), Some(1));
    agent.complete(plan, true);
    assert!(agent.enforcing);
    assert_eq!(agent.policy.blocklist, vec!["127.0.0.1", "3.3.3.3"]);

    let plan = plan_command(Command::AddBlock("127.0.0.1".to_string()));
    let c = agent.complete(plan, true);
    assert!(!c.persist);

    let c = agent.complete(plan_command(Command::Shutdown), true);
    assert!(!c.running && !c.persist);
}
