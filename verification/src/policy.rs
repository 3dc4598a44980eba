//! Policies: what to do about each classification.
use crate::event::{Action, Classification, ACTIONS, CLASSIFICATIONS};
use crate::text;
use vstd::prelude::*;
use vstd::string::*;

verus! {

/// What the command line says about the policy.
pub struct PolicyArgs {
    /// Report every exec, not just those outside the allowed closure.
    pub all: bool,
    /// Block execs outside the allowed closure rather than only reporting them.
    pub enforce: bool,
    /// Per-classification overrides; a later one takes the place of an earlier one.
    pub policy: Vec<(Classification, Action)>,
}

/// One action per classification, at the index that is the classification's code.
pub type PolicyTable = [Action; CLASSIFICATIONS];

/// The classification with a given name.
pub open spec fn class_named(name: Seq<char>) -> Option<Classification> {
    if name == Classification::Closure.name() {
        Some(Classification::Closure)
    } else if name == Classification::Store.name() {
        Some(Classification::Store)
    } else if name == Classification::Wrapper.name() {
        Some(Classification::Wrapper)
    } else if name == Classification::Memory.name() {
        Some(Classification::Memory)
    } else if name == Classification::Deleted.name() {
        Some(Classification::Deleted)
    } else if name == Classification::Outside.name() {
        Some(Classification::Outside)
    } else {
        None
    }
}

/// The action with a given name.
pub open spec fn action_named(name: Seq<char>) -> Option<Action> {
    if name == Action::Allow.name() {
        Some(Action::Allow)
    } else if name == Action::Audit.name() {
        Some(Action::Audit)
    } else if name == Action::Deny.name() {
        Some(Action::Deny)
    } else {
        None
    }
}

/// The names of all classifications.
pub open spec fn class_names() -> Seq<Seq<char>> {
    Classification::ALL@.map_values(|c: Classification| c.name())
}

/// The names of all actions.
pub open spec fn action_names() -> Seq<Seq<char>> {
    Action::ALL@.map_values(|a: Action| a.name())
}

/// What `<classification>=<action>` stands for, or what is wrong with it.
pub open spec fn parsed_policy(spec: Seq<char>) -> Result<(Classification, Action), Seq<char>> {
    match text::split_at_first(spec, '=') {
        None => Err("expected <classification>=<action>, got `"@ + spec + "`"@),
        Some((class, action)) => match (class_named(class), action_named(action)) {
            (None, _) => Err(
                "unknown classification `"@ + class + "`, expected one of: "@ + text::join(
                    class_names(),
                    ", "@,
                ),
            ),
            (Some(_), None) => Err(
                "unknown action `"@ + action + "`, expected one of: "@ + text::join(
                    action_names(),
                    ", "@,
                ),
            ),
            (Some(c), Some(a)) => Ok((c, a)),
        },
    }
}

fn known_classifications() -> (s: String)
    ensures
        s@ == text::join(class_names(), ", "@),
{
    let all = Classification::ALL;
    let mut s = all[0].as_str().to_owned();
    let mut i: usize = 1;
    assert(class_names().take(1) =~= seq![class_names()[0]]);
    while i < CLASSIFICATIONS
        invariant
            1 <= i <= CLASSIFICATIONS,
            all == Classification::ALL,
            s@ == text::join(class_names().take(i as int), ", "@),
        decreases CLASSIFICATIONS - i,
    {
        s.append(", ");
        s.append(all[i].as_str());
        assert(class_names().take(i + 1).drop_last() =~= class_names().take(i as int));
        assert(class_names().take(i + 1).last() == all@[i as int].name());
        i = i + 1;
    }
    assert(class_names().take(i as int) =~= class_names());
    s
}

fn known_actions() -> (s: String)
    ensures
        s@ == text::join(action_names(), ", "@),
{
    let all = Action::ALL;
    let mut s = all[0].as_str().to_owned();
    let mut i: usize = 1;
    assert(action_names().take(1) =~= seq![action_names()[0]]);
    while i < ACTIONS
        invariant
            1 <= i <= ACTIONS,
            all == Action::ALL,
            s@ == text::join(action_names().take(i as int), ", "@),
        decreases ACTIONS - i,
    {
        s.append(", ");
        s.append(all[i].as_str());
        assert(action_names().take(i + 1).drop_last() =~= action_names().take(i as int));
        assert(action_names().take(i + 1).last() == all@[i as int].name());
        i = i + 1;
    }
    assert(action_names().take(i as int) =~= action_names());
    s
}

fn find_class(name: &str) -> (r: Option<Classification>)
    ensures
        r == class_named(name@),
{
    let all = Classification::ALL;
    let mut i: usize = 0;
    while i < CLASSIFICATIONS
        invariant
            i <= CLASSIFICATIONS,
            all == Classification::ALL,
            forall|j: int| 0 <= j < i ==> (#[trigger] all@[j]).name() != name@,
        decreases CLASSIFICATIONS - i,
    {
        if text::same_text(all[i].as_str(), name) {
            proof {
                lemma_class_named(all@[i as int]);
            }
            return Some(all[i]);
        }
        i = i + 1;
    }
    assert(all@[0].name() != name@ && all@[1].name() != name@ && all@[2].name() != name@
        && all@[3].name() != name@ && all@[4].name() != name@ && all@[5].name() != name@);
    None
}

fn find_action(name: &str) -> (r: Option<Action>)
    ensures
        r == action_named(name@),
{
    let all = Action::ALL;
    let mut i: usize = 0;
    while i < ACTIONS
        invariant
            i <= ACTIONS,
            all == Action::ALL,
            forall|j: int| 0 <= j < i ==> (#[trigger] all@[j]).name() != name@,
        decreases ACTIONS - i,
    {
        if text::same_text(all[i].as_str(), name) {
            proof {
                lemma_action_named(all@[i as int]);
            }
            return Some(all[i]);
        }
        i = i + 1;
    }
    assert(all@[0].name() != name@ && all@[1].name() != name@ && all@[2].name() != name@);
    None
}

/// Reads one override, `<classification>=<action>`.
pub fn parse_policy(spec: &str) -> (r: Result<(Classification, Action), String>)
    ensures
        match r {
            Ok(pair) => parsed_policy(spec@) == Ok::<(Classification, Action), Seq<char>>(pair),
            Err(e) => parsed_policy(spec@) == Err::<(Classification, Action), Seq<char>>(e@),
        },
{
    let (class, action) = match text::split_once(spec, 0x3d) {
        Some(parts) => parts,
        None => {
            let mut e = "expected <classification>=<action>, got `".to_owned();
            e.append(spec);
            e.append("`");
            return Err(e);
        },
    };
    let class = match find_class(class) {
        Some(c) => c,
        None => {
            let mut e = "unknown classification `".to_owned();
            e.append(class);
            e.append("`, expected one of: ");
            e.append(known_classifications().as_str());
            return Err(e);
        },
    };
    let action = match find_action(action) {
        Some(a) => a,
        None => {
            let mut e = "unknown action `".to_owned();
            e.append(action);
            e.append("`, expected one of: ");
            e.append(known_actions().as_str());
            return Err(e);
        },
    };
    Ok((class, action))
}

/// The name of a classification names it, and no other.
pub proof fn lemma_class_named(c: Classification)
    ensures
        class_named(c.name()) == Some(c),
        forall|i: int| 0 <= i < c.name().len() ==> c.name()[i] != '=',
{
    reveal_strlit("closure");
    reveal_strlit("store");
    reveal_strlit("wrapper");
    reveal_strlit("memory");
    reveal_strlit("deleted");
    reveal_strlit("outside");
    assert("closure"@[0] == 'c' && "store"@[0] == 's' && "wrapper"@[0] == 'w' && "memory"@[0] == 'm'
        && "deleted"@[0] == 'd' && "outside"@[0] == 'o');
}

/// The name of an action names it, and no other.
pub proof fn lemma_action_named(a: Action)
    ensures
        action_named(a.name()) == Some(a),
{
    reveal_strlit("allow");
    reveal_strlit("audit");
    reveal_strlit("deny");
    assert("allow"@[1] == 'l' && "audit"@[1] == 'u' && "deny"@[1] == 'e');
}

/// Whatever classification and action are written down as an override, they are read back.
pub proof fn law_policy_read_back(c: Classification, a: Action)
    ensures
        parsed_policy(c.name() + "="@ + a.name()) == Ok::<(Classification, Action), Seq<char>>(
            (c, a),
        ),
{
    reveal_strlit("=");
    lemma_class_named(c);
    lemma_action_named(a);
    let s = c.name() + "="@ + a.name();
    let i = c.name().len() as int;
    assert forall|j: int| 0 <= j < i implies s[j] != '=' by {
        assert(s[j] == c.name()[j]);
    }
    assert(s[i] == '=');
    text::lemma_find_is(s, '=', i);
    assert(s.take(i) =~= c.name());
    assert(s.skip(i + 1) =~= a.name());
}

/// What is done about a classification that no override speaks of.
pub open spec fn default_action(all: bool, enforce: bool, class: Classification) -> Action {
    match class {
        Classification::Closure => if all {
            Action::Audit
        } else {
            Action::Allow
        },
        Classification::Wrapper => Action::Audit,
        _ => if enforce {
            Action::Deny
        } else {
            Action::Audit
        },
    }
}

/// The last override that speaks of `class`.
pub open spec fn last_override(
    overrides: Seq<(Classification, Action)>,
    class: Classification,
) -> Option<Action>
    decreases overrides.len(),
{
    if overrides.len() == 0 {
        None
    } else if overrides.last().0 == class {
        Some(overrides.last().1)
    } else {
        last_override(overrides.drop_last(), class)
    }
}

/// What is done about `class`: what the last override says, or else the default.
pub open spec fn chosen_action(
    all: bool,
    enforce: bool,
    overrides: Seq<(Classification, Action)>,
    class: Classification,
) -> Action {
    match last_override(overrides, class) {
        Some(action) => action,
        None => default_action(all, enforce, class),
    }
}

/// The entry of `table` for `class`.
pub open spec fn entry(table: PolicyTable, class: Classification) -> Action {
    table@[class.code() as int]
}

/// The policy that the command line asks for.
pub fn policy_table(args: &PolicyArgs) -> (table: PolicyTable)
    ensures
        forall|c: Classification| #[trigger]
            entry(table, c) == chosen_action(args.all, args.enforce, args.policy@, c),
{
    let mut table: PolicyTable = [Action::Audit; CLASSIFICATIONS];
    table[Classification::Closure.to_u8() as usize] = Action::Allow;
    if args.enforce {
        table[Classification::Store.to_u8() as usize] = Action::Deny;
        table[Classification::Memory.to_u8() as usize] = Action::Deny;
        table[Classification::Deleted.to_u8() as usize] = Action::Deny;
        table[Classification::Outside.to_u8() as usize] = Action::Deny;
    }
    if args.all {
        table[Classification::Closure.to_u8() as usize] = Action::Audit;
    }
    let overrides = &args.policy;
    let mut i: usize = 0;
    assert(overrides@.take(0) =~= Seq::empty());
    while i < overrides.len()
        invariant
            i <= overrides@.len(),
            overrides@ == args.policy@,
            forall|c: Classification| #[trigger]
                entry(table, c) == chosen_action(
                    args.all,
                    args.enforce,
                    overrides@.take(i as int),
                    c,
                ),
        decreases overrides.len() - i,
    {
        let (class, action) = overrides[i];
        let ghost before = table;
        table[class.to_u8() as usize] = action;
        proof {
            let next = overrides@.take(i + 1);
            assert(next.drop_last() =~= overrides@.take(i as int));
            assert forall|c: Classification| #[trigger]
                entry(table, c) == chosen_action(args.all, args.enforce, next, c) by {
                assert(c.code() == class.code() <==> c == class);
                assert(entry(before, c) == chosen_action(
                    args.all,
                    args.enforce,
                    overrides@.take(i as int),
                    c,
                ));
            }
        }
        i = i + 1;
    }
    assert(overrides@.take(i as int) =~= overrides@);
    table
}

/// Whether some classification is denied.
pub open spec fn denies(table: PolicyTable) -> bool {
    exists|c: Classification| #[trigger] entry(table, c) == Action::Deny
}

/// What the daemon says it does under `table`.
pub fn mode(table: &PolicyTable) -> (s: &'static str)
    ensures
        s@ == if denies(*table) {
            "enforcing"@
        } else {
            "auditing"@
        },
{
    let all = Classification::ALL;
    let mut i: usize = 0;
    while i < CLASSIFICATIONS
        invariant
            i <= CLASSIFICATIONS,
            all == Classification::ALL,
            forall|j: int| 0 <= j < i ==> table@[j] != Action::Deny,
        decreases CLASSIFICATIONS - i,
    {
        if table[i] == Action::Deny {
            assert(entry(*table, all@[i as int]) == Action::Deny);
            return "enforcing";
        }
        i = i + 1;
    }
    "auditing"
}

/// The policy as it stands in the policy map: the code of each action.
pub fn policy_codes(table: &PolicyTable) -> (codes: [u8; CLASSIFICATIONS])
    ensures
        forall|c: Classification| #[trigger]
            codes@[c.code() as int] == entry(*table, c).code(),
{
    let mut codes: [u8; CLASSIFICATIONS] = [0u8; CLASSIFICATIONS];
    let mut i: usize = 0;
    while i < CLASSIFICATIONS
        invariant
            i <= CLASSIFICATIONS,
            forall|j: int| 0 <= j < i ==> codes@[j] == table@[j].code(),
        decreases CLASSIFICATIONS - i,
    {
        codes[i] = table[i].to_u8();
        i = i + 1;
    }
    codes
}

/// What the policy map says about `class`. An entry that is missing or that is no action's code
/// counts as an audit, so that it reports rather than silently permits.
pub open spec fn action_in(codes: Seq<u8>, class: Classification) -> Action {
    let i = class.code() as int;
    if i < codes.len() && codes[i] == Action::Allow.code() {
        Action::Allow
    } else if i < codes.len() && codes[i] == Action::Deny.code() {
        Action::Deny
    } else {
        Action::Audit
    }
}

/// Looks up what to do about `classification`.
pub fn policy_for(classification: Classification, codes: &[u8]) -> (action: Action)
    ensures
        action == action_in(codes@, classification),
{
    let i = classification.to_u8() as usize;
    if i >= codes.len() {
        return Action::Audit;
    }
    match Action::from_u8(codes[i]) {
        Some(action) => action,
        None => Action::Audit,
    }
}

/// The hook acts on the policy that was chosen: written to the policy map and looked up there,
/// every entry comes back.
pub proof fn law_policy_map(table: PolicyTable, codes: Seq<u8>, class: Classification)
    requires
        codes.len() == CLASSIFICATIONS,
        forall|c: Classification| #[trigger] codes[c.code() as int] == entry(table, c).code(),
    ensures
        action_in(codes, class) == entry(table, class),
{
    assert(codes[class.code() as int] == entry(table, class).code());
}

/// Nothing is permitted unreported unless the policy map says so in as many words.
pub proof fn law_unset_policy_reports(codes: Seq<u8>, class: Classification)
    ensures
        action_in(codes, class) == Action::Allow ==> class.code() < codes.len()
            && codes[class.code() as int] == Action::Allow.code(),
        class.code() >= codes.len() ==> action_in(codes, class) == Action::Audit,
{
}

/// Without overrides, enforcing denies exactly what is neither in the closure nor a wrapper, and
/// without enforcing nothing is denied.
pub proof fn law_enforcement(all: bool, enforce: bool, class: Classification)
    ensures
        chosen_action(all, enforce, Seq::empty(), class) == Action::Deny <==> enforce && class
            != Classification::Closure && class != Classification::Wrapper,
{
}

/// The closure is reported only on request: without overrides it is the one classification that
/// is allowed in silence, and only while not every exec is to be reported.
pub proof fn law_closure_is_silent(all: bool, enforce: bool, class: Classification)
    ensures
        chosen_action(all, enforce, Seq::empty(), class) == Action::Allow <==> !all && class
            == Classification::Closure,
{
}

/// A later override takes the place of whatever was said before, and of nothing else.
pub proof fn law_last_override_wins(
    all: bool,
    enforce: bool,
    overrides: Seq<(Classification, Action)>,
    class: Classification,
    action: Action,
    other: Classification,
)
    ensures
        chosen_action(all, enforce, overrides.push((class, action)), class) == action,
        other != class ==> chosen_action(all, enforce, overrides.push((class, action)), other)
            == chosen_action(all, enforce, overrides, other),
{
    assert(overrides.push((class, action)).drop_last() =~= overrides);
}

proof fn lemma_known_classes()
    ensures
        text::join(class_names(), ", "@) == "closure, store, wrapper, memory, deleted, outside"@,
{
    reveal_strlit("closure");
    reveal_strlit("store");
    reveal_strlit("wrapper");
    reveal_strlit("memory");
    reveal_strlit("deleted");
    reveal_strlit("outside");
    reveal_strlit(", ");
    reveal_strlit("closure, store, wrapper, memory, deleted, outside");
    let sep = ", "@;
    let all = class_names();
    assert(all.len() == 6);
    assert(all =~= seq!["closure"@, "store"@, "wrapper"@, "memory"@, "deleted"@, "outside"@]);
    text::law_join(Seq::empty(), all[0], sep);
    text::law_join(all.take(1), all[1], sep);
    text::law_join(all.take(2), all[2], sep);
    text::law_join(all.take(3), all[3], sep);
    text::law_join(all.take(4), all[4], sep);
    text::law_join(all.take(5), all[5], sep);
    assert(all.take(1) =~= seq![all[0]]);
    assert(all.take(1).push(all[1]) =~= all.take(2));
    assert(all.take(2).push(all[2]) =~= all.take(3));
    assert(all.take(3).push(all[3]) =~= all.take(4));
    assert(all.take(4).push(all[4]) =~= all.take(5));
    assert(all.take(5).push(all[5]) =~= all);
    assert(text::join(all, sep) =~= "closure"@ + sep + "store"@ + sep + "wrapper"@ + sep
        + "memory"@ + sep + "deleted"@ + sep + "outside"@);
    assert("closure"@ + sep + "store"@ + sep + "wrapper"@ + sep + "memory"@ + sep + "deleted"@ + sep
        + "outside"@ =~= "closure, store, wrapper, memory, deleted, outside"@);
}

proof fn lemma_known_actions()
    ensures
        text::join(action_names(), ", "@) == "allow, audit, deny"@,
{
    reveal_strlit("allow");
    reveal_strlit("audit");
    reveal_strlit("deny");
    reveal_strlit(", ");
    reveal_strlit("allow, audit, deny");
    let sep = ", "@;
    let all = action_names();
    assert(all =~= seq!["allow"@, "audit"@, "deny"@]);
    text::law_join(Seq::empty(), all[0], sep);
    text::law_join(all.take(1), all[1], sep);
    text::law_join(all.take(2), all[2], sep);
    assert(all.take(1) =~= seq![all[0]]);
    assert(all.take(1).push(all[1]) =~= all.take(2));
    assert(all.take(2).push(all[2]) =~= all);
    assert(text::join(all, sep) =~= "allow"@ + sep + "audit"@ + sep + "deny"@);
    assert("allow"@ + sep + "audit"@ + sep + "deny"@ =~= "allow, audit, deny"@);
}

/// An override is what is before the first `=` and what is behind it. It is understood if and
/// only if the one names a classification and the other an action; whatever else is written is
/// refused, and the message says which of the two is at fault and what is known.
pub proof fn law_override_text(class: Seq<char>, action: Seq<char>, c: Classification, a: Action)
    requires
        !class.contains('='),
    ensures
        parsed_policy(class + "="@ + action) == Ok::<(Classification, Action), Seq<char>>((c, a))
            <==> class == c.name() && action == a.name(),
        (forall|d: Classification| class != #[trigger] d.name()) ==> parsed_policy(
            class + "="@ + action,
        ) == Err::<(Classification, Action), Seq<char>>(
            "unknown classification `"@ + class + "`, expected one of: "@
                + "closure, store, wrapper, memory, deleted, outside"@,
        ),
        class == c.name() && (forall|b: Action| action != #[trigger] b.name()) ==> parsed_policy(
            class + "="@ + action,
        ) == Err::<(Classification, Action), Seq<char>>(
            "unknown action `"@ + action + "`, expected one of: "@ + "allow, audit, deny"@,
        ),
        parsed_policy(class) == Err::<(Classification, Action), Seq<char>>(
            "expected <classification>=<action>, got `"@ + class + "`"@,
        ),
{
    reveal_strlit("=");
    assert(class + "="@ + action =~= class.push('=') + action);
    text::law_split_at_first(class, '=', action);
    lemma_class_named(c);
    lemma_action_named(a);
    lemma_known_classes();
    lemma_known_actions();
    if forall|d: Classification| class != #[trigger] d.name() {
        assert(class != Classification::Closure.name() && class != Classification::Store.name()
            && class != Classification::Wrapper.name() && class != Classification::Memory.name()
            && class != Classification::Deleted.name() && class != Classification::Outside.name());
    }
    if forall|b: Action| action != #[trigger] b.name() {
        assert(action != Action::Allow.name() && action != Action::Audit.name() && action
            != Action::Deny.name());
    }
    if let Some(d) = class_named(class) {
        lemma_class_named(d);
        assert(class == d.name());
    }
    if let Some(b) = action_named(action) {
        lemma_action_named(b);
        assert(action == b.name());
    }
}

/// What is done without overrides, for each classification: the closure is let run, in silence
/// unless every exec is to be reported; wrappers are reported; anything else is reported, and
/// denied under enforcement.
pub proof fn law_default_policy(all: bool, enforce: bool)
    ensures
        chosen_action(all, enforce, Seq::empty(), Classification::Closure) == if all {
            Action::Audit
        } else {
            Action::Allow
        },
        chosen_action(all, enforce, Seq::empty(), Classification::Wrapper) == Action::Audit,
        forall|c: Classification|
            c != Classification::Closure && c != Classification::Wrapper ==> #[trigger]
                chosen_action(all, enforce, Seq::empty(), c) == if enforce {
                Action::Deny
            } else {
                Action::Audit
            },
{
}

/// The entry of a table for a classification stands at the number of the classification, and a
/// table enforces if any of its six entries denies.
pub proof fn law_table_entries(table: PolicyTable)
    ensures
        entry(table, Classification::Closure) == table@[0],
        entry(table, Classification::Store) == table@[1],
        entry(table, Classification::Wrapper) == table@[2],
        entry(table, Classification::Memory) == table@[3],
        entry(table, Classification::Deleted) == table@[4],
        entry(table, Classification::Outside) == table@[5],
        denies(table) <==> exists|i: int| 0 <= i < 6 && #[trigger] table@[i] == Action::Deny,
{
    if denies(table) {
        let c = choose|c: Classification| #[trigger] entry(table, c) == Action::Deny;
        assert(table@[c.code() as int] == Action::Deny);
    }
    if exists|i: int| 0 <= i < 6 && #[trigger] table@[i] == Action::Deny {
        let i = choose|i: int| 0 <= i < 6 && #[trigger] table@[i] == Action::Deny;
        let c = Classification::ALL@[i];
        assert(i == 0 || i == 1 || i == 2 || i == 3 || i == 4 || i == 5);
        assert(c.code() == i);
        assert(entry(table, c) == Action::Deny);
    }
}

/// What the policy map says: 0 allows and 2 denies; any other number, and an entry that is not
/// there, audits.
pub proof fn law_policy_numbers(codes: Seq<u8>, class: Classification)
    ensures
        ({
            let i = match class {
                Classification::Closure => 0int,
                Classification::Store => 1,
                Classification::Wrapper => 2,
                Classification::Memory => 3,
                Classification::Deleted => 4,
                Classification::Outside => 5,
            };
            &&& action_in(codes, class) == Action::Allow <==> codes.len() > i && codes[i] == 0
            &&& action_in(codes, class) == Action::Deny <==> codes.len() > i && codes[i] == 2
        }),
{
}

} // verus!
