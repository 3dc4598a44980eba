use closured::event::{Action, Classification, ACTIONS, CLASSIFICATIONS};
use closured::policy::{mode, parse_policy, policy_codes, policy_for, policy_table, PolicyArgs};

fn args(all: bool, enforce: bool, policy: Vec<(Classification, Action)>) -> PolicyArgs {
    PolicyArgs { all, enforce, policy }
}

#[test]
fn codes_and_names_of_classifications() {
    let names = ["closure", "store", "wrapper", "memory", "deleted", "outside"];
    assert_eq!(Classification::ALL.len(), CLASSIFICATIONS);
    for (code, class) in Classification::ALL.into_iter().enumerate() {
        assert_eq!(class.to_u8() as usize, code);
        assert_eq!(Classification::from_u8(code as u8), Some(class));
        assert_eq!(class.as_str(), names[code]);
    }
    for code in 6..=255u8 {
        assert_eq!(Classification::from_u8(code), None);
    }
}

#[test]
fn codes_and_names_of_actions() {
    let names = ["allow", "audit", "deny"];
    assert_eq!(Action::ALL.len(), ACTIONS);
    for (code, action) in Action::ALL.into_iter().enumerate() {
        assert_eq!(action.to_u8() as usize, code);
        assert_eq!(Action::from_u8(code as u8), Some(action));
        assert_eq!(action.as_str(), names[code]);
    }
    assert_eq!(Action::from_u8(3), None);
    assert_eq!(Action::from_u8(255), None);
}

#[test]
fn overrides_are_read() {
    assert_eq!(parse_policy("store=deny"), Ok((Classification::Store, Action::Deny)));
    assert_eq!(parse_policy("wrapper=allow"), Ok((Classification::Wrapper, Action::Allow)));
    for class in Classification::ALL {
        for action in Action::ALL {
            let spec = format!("{}={}", class.as_str(), action.as_str());
            assert_eq!(parse_policy(&spec), Ok((class, action)));
        }
    }
}

#[test]
fn override_without_equals_sign() {
    assert_eq!(
        parse_policy("store"),
        Err("expected <classification>=<action>, got `store`".to_string())
    );
    assert_eq!(
        parse_policy(""),
        Err("expected <classification>=<action>, got ``".to_string())
    );
}

#[test]
fn override_of_unknown_classification() {
    assert_eq!(
        parse_policy("Store=deny"),
        Err(
            "unknown classification `Store`, expected one of: closure, store, wrapper, memory, \
             deleted, outside"
                .to_string()
        )
    );
    assert!(parse_policy("=").unwrap_err().starts_with("unknown classification ``, "));
}

#[test]
fn override_with_unknown_action() {
    assert_eq!(
        parse_policy("store=block"),
        Err("unknown action `block`, expected one of: allow, audit, deny".to_string())
    );
    assert_eq!(
        parse_policy("store=deny=allow"),
        Err("unknown action `deny=allow`, expected one of: allow, audit, deny".to_string())
    );
    assert_eq!(
        parse_policy("store=d\u{e9}ny"),
        Err("unknown action `d\u{e9}ny`, expected one of: allow, audit, deny".to_string())
    );
}

#[test]
fn auditing_by_default() {
    let table = policy_table(&args(false, false, vec![]));
    assert_eq!(
        table,
        [Action::Allow, Action::Audit, Action::Audit, Action::Audit, Action::Audit, Action::Audit]
    );
    assert_eq!(mode(&table), "auditing");
}

#[test]
fn enforcing_spares_closure_and_wrappers() {
    let table = policy_table(&args(false, true, vec![]));
    assert_eq!(
        table,
        [Action::Allow, Action::Deny, Action::Audit, Action::Deny, Action::Deny, Action::Deny]
    );
    assert_eq!(mode(&table), "enforcing");
}

#[test]
fn all_reports_the_closure() {
    let table = policy_table(&args(true, false, vec![]));
    assert_eq!(table, [Action::Audit; CLASSIFICATIONS]);
    let table = policy_table(&args(true, true, vec![]));
    assert_eq!(table[Classification::Closure.to_u8() as usize], Action::Audit);
}

#[test]
fn later_overrides_win() {
    let table = policy_table(&args(
        true,
        true,
        vec![
            (Classification::Store, Action::Allow),
            (Classification::Wrapper, Action::Deny),
            (Classification::Store, Action::Audit),
        ],
    ));
    assert_eq!(
        table,
        [Action::Audit, Action::Audit, Action::Deny, Action::Deny, Action::Deny, Action::Deny]
    );
    let table = policy_table(&args(false, false, vec![(Classification::Outside, Action::Deny)]));
    assert_eq!(mode(&table), "enforcing");
}

#[test]
fn policy_survives_the_map() {
    let table = policy_table(&args(false, true, vec![(Classification::Memory, Action::Allow)]));
    let codes = policy_codes(&table);
    assert_eq!(codes, [0, 2, 1, 0, 2, 2]);
    for class in Classification::ALL {
        assert_eq!(policy_for(class, &codes), table[class.to_u8() as usize]);
    }
}

#[test]
fn missing_or_corrupt_policy_reports() {
    assert_eq!(policy_for(Classification::Closure, &[]), Action::Audit);
    assert_eq!(policy_for(Classification::Store, &[0]), Action::Audit);
    assert_eq!(policy_for(Classification::Closure, &[3]), Action::Audit);
    assert_eq!(policy_for(Classification::Closure, &[255]), Action::Audit);
    assert_eq!(policy_for(Classification::Closure, &[0]), Action::Allow);
}
