use formal::kernel::{KernelError, Outcome, System};
use formal::proposition;
use formal::sym::SymDB;
use formal::tree::Tree;

const DEFAULT_TABLE: &str = "∀ 1 1 R
∃ 1 1
-> 1 1 R
∨ 1 1 L
∧ 1 1 L
! 0 1 R
= 1 1 L
≠ 1 1
< 1 1 L
> 1 1
+ 1 1 L
* 1 1 L
/ 1 1
- 0 1 R
^ 1 1 R
' 1 0 L
";

fn table() -> SymDB {
    let lines: Vec<String> = DEFAULT_TABLE.lines().map(|l| l.to_string()).collect();
    SymDB::parse_lines(&lines).unwrap()
}

fn system(lines: &[&str]) -> System {
    let mut sys = System::new(table());
    let lines: Vec<String> = lines.iter().map(|l| l.to_string()).collect();
    sys.load_lines(&lines).unwrap();
    sys
}

fn shown(sys: &System, id: usize) -> String {
    sys.show_proof(id).unwrap()
}

#[test]
fn modus_ponens_appends_consequent() {
    let mut sys = system(&["p ∧ q", "p ∧ q -> r"]);
    let id = sys.mp(0, 1).unwrap();
    assert_eq!(id, 2);
    assert_eq!(shown(&sys, 2), "r");
}

#[test]
fn modus_ponens_needs_equal_antecedent() {
    let mut sys = system(&["q ∧ p", "p ∧ q -> r"]);
    assert_eq!(sys.mp(0, 1), Err(KernelError::AntecedentMismatch));
    assert_eq!(sys.len(), 2);
    assert_eq!(sys.mp(1, 0), Err(KernelError::WrongConnective));
    assert_eq!(sys.mp(0, 7), Err(KernelError::UnknownId(7)));
    assert_eq!(sys.mp(9, 0), Err(KernelError::UnknownId(9)));
}

#[test]
fn instantiation_avoids_capture() {
    let mut sys = system(&["x ∀ (x = y)"]);
    let mut rep_parser = System::new(table());
    let rep = rep_parser.parse("x").unwrap();
    let r = sys.inst(0, "y", rep.subtree_root());
    assert_eq!(r, Err(KernelError::Capture("x".to_string())));
    assert_eq!(sys.len(), 1);
    let rep = rep_parser.parse("z + 1").unwrap();
    let id = sys.inst(0, "y", rep.subtree_root()).unwrap();
    assert_eq!(shown(&sys, id), "x ∀ x = z + 1");
}

#[test]
fn instantiation_skips_bound_occurrences() {
    let mut sys = system(&["(x ∀ x = x) ∧ x = y"]);
    let mut other = System::new(table());
    let rep = other.parse("a").unwrap();
    let id = sys.inst(0, "x", rep.subtree_root()).unwrap();
    assert_eq!(shown(&sys, id), "(x ∀ x = x) ∧ a = y");
}

#[test]
fn free_variables_leave_out_binders_and_operators() {
    let sys = system(&["(x ∀ x = y) ∧ z = w"]);
    let fvs = sys.free_variables(sys.get(0).unwrap().subtree_root());
    for v in ["y", "z", "w"] {
        assert!(fvs.contains(v));
    }
    assert!(!fvs.contains("x"));
    assert!(!fvs.contains("="));
}

#[test]
fn universal_rules() {
    let mut sys = system(&["x ∀ x = x", "p"]);
    let id = sys.uq_elim(0).unwrap();
    assert_eq!(shown(&sys, id), "x = x");
    assert_eq!(sys.uq_elim(1), Err(KernelError::Mismatch));
    let id = sys.uq_intr(1, "y").unwrap();
    assert_eq!(shown(&sys, id), "y ∀ p");
    assert_eq!(sys.uq_intr(1, "->"), Err(KernelError::InvalidVariable("->".to_string())));
    let id = sys.uq_distr("x", "p", "q").unwrap();
    assert_eq!(shown(&sys, id), "(x ∀ p -> q) -> (x ∀ p) -> (x ∀ q)");
    assert_eq!(sys.uq_distr("∀", "p", "q"), Err(KernelError::InvalidVariable("∀".to_string())));
}

#[test]
fn save_then_load_round_trips() {
    let sys = system(&["p -> q -> p", "", "(x ∀ p -> q) -> (x ∀ p) -> (x ∀ q)", "! ! - - a = a", "(a + b) * c"]);
    assert_eq!(sys.len(), 4);
    let saved = sys.saved_lines();
    let mut fresh = System::new(table());
    fresh.load_lines(&saved).unwrap();
    assert_eq!(fresh.len(), sys.len());
    for i in 0..sys.len() {
        assert_eq!(fresh.get(i).unwrap().subtree_root(), sys.get(i).unwrap().subtree_root());
    }
    assert_eq!(fresh.saved_lines(), saved);
}

#[test]
fn load_stops_at_a_bad_line() {
    let mut sys = system(&["p"]);
    let lines = vec!["q".to_string(), "a +".to_string(), "r".to_string()];
    assert!(sys.load_lines(&lines).is_err());
    assert_eq!(sys.len(), 1);
    assert_eq!(shown(&sys, 0), "q");
}

#[test]
fn commands() {
    let mut sys = system(&["p", "p -> q", "x ∀ x = y"]);
    assert_eq!(sys.command(""), Ok(Outcome::Nothing));
    assert_eq!(sys.command("show"), Ok(Outcome::Show));
    assert_eq!(sys.command("save out.txt"), Ok(Outcome::Save("out.txt".to_string())));
    assert_eq!(sys.command("load"), Ok(Outcome::Load("default.txt".to_string())));
    assert_eq!(sys.command("mp 0 1"), Ok(Outcome::Derived(3)));
    assert_eq!(shown(&sys, 3), "q");
    assert_eq!(sys.command("mp 0"), Err("E2".to_string()));
    assert_eq!(sys.command("mp a 1"), Err("E3".to_string()));
    assert_eq!(sys.command("inst 2 y z * 2"), Ok(Outcome::Derived(4)));
    assert_eq!(shown(&sys, 4), "x ∀ x = z * 2");
    assert_eq!(sys.command("frob"), Err("unknown command: frob".to_string()));
    assert_eq!(sys.command("mp"), Err("E1".to_string()));
    assert_eq!(sys.command("mp 0 x"), Err("E4".to_string()));
    assert_eq!(sys.command("mp 0 9"), Err("there is no proof with ID 9".to_string()));
    assert_eq!(sys.command("mp 1 0"), Err("a mismatched form '[a] -> [b]'".to_string()));
    assert_eq!(sys.command("inst"), Err("".to_string()));
    assert_eq!(sys.command("inst 2 y x"), Err("captured free variable: x".to_string()));
    assert_eq!(sys.command("   "), Ok(Outcome::Nothing));
    assert_eq!(sys.len(), 5);
}

#[test]
fn propositional_instantiation_replaces_everywhere() {
    let mut sys = proposition::System::new(table());
    let lines = vec!["p -> q -> p".to_string()];
    sys.load_lines(&lines).unwrap();
    let rep = Tree::new("r".to_string());
    let id = sys.inst(0, "p", rep.subtree_root()).unwrap();
    assert_eq!(sys.show_proof(id).unwrap(), "r -> q -> r");
    assert_eq!(sys.command("inst 0 q a ∧ b"), Ok(Outcome::Derived(2)));
    assert_eq!(sys.show_proof(2).unwrap(), "p -> a ∧ b -> p");
    assert_eq!(sys.command("mp 9 0"), Err("there is no proof with ID 9".to_string()));
}
