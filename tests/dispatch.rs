use pumpkin::dispatcher::{
    CommandDispatcher, CommandError, CommandSender, ConsumedArgs, InvalidTreeError, Traced,
};
use pumpkin::tree::{CommandTree, Node, NodeType};

const MODES: [&str; 4] = ["survival", "creative", "adventure", "spectator"];

/// A sender that records what the dispatcher asked of it.
struct Player {
    allowed: bool,
    checks: usize,
    consumed: usize,
    handed: Vec<Vec<String>>,
    ran: Vec<(usize, Vec<(String, String)>)>,
}

impl Player {
    fn new(allowed: bool) -> Self {
        Player { allowed, checks: 0, consumed: 0, handed: Vec::new(), ran: Vec::new() }
    }
}

impl CommandSender for Player {
    fn consume(&mut self, consumer: usize, args: &mut Vec<String>) -> Option<String> {
        self.consumed += 1;
        self.handed.push(args.clone());
        match consumer {
            // a game mode
            0 => match args.last() {
                Some(t) if MODES.contains(&t.as_str()) => args.pop(),
                _ => None,
            },
            // any one token
            _ => args.pop(),
        }
    }

    fn check(&mut self, _predicate: usize) -> bool {
        self.checks += 1;
        self.allowed
    }

    fn run(&mut self, handler: usize, args: &ConsumedArgs) -> Result<(), Option<String>> {
        self.ran.push((handler, args.clone()));
        if handler == 9 {
            Err(Some("creative".to_string()))
        } else {
            Ok(())
        }
    }
}

fn node(children: Vec<usize>, node_type: NodeType) -> Node {
    Node { children, node_type }
}

fn lit(s: &str) -> NodeType {
    NodeType::Literal { string: s.to_string() }
}

fn arg(name: &str, consumer: usize) -> NodeType {
    NodeType::Argument { name: name.to_string(), consumer }
}

fn leaf(run: usize) -> NodeType {
    NodeType::ExecuteLeaf { run }
}

/// `gamemode survival` and `gamemode <mode>`.
fn gamemode_tree() -> CommandTree {
    CommandTree {
        nodes: vec![
            node(vec![1], lit("survival")),
            node(vec![], leaf(0)),
            node(vec![3], arg("mode", 0)),
            node(vec![], leaf(1)),
        ],
        children: vec![0, 2],
    }
}

fn gamemode_dispatcher() -> CommandDispatcher {
    let mut d = CommandDispatcher::new();
    d.register("gamemode".to_string(), gamemode_tree());
    d
}

fn usage(r: Result<(), CommandError>) -> String {
    match r {
        Err(CommandError::SyntaxError(u)) => u,
        other => panic!("expected a syntax error, got {:?}", other),
    }
}

#[test]
fn literal_path_runs_with_no_arguments() {
    let d = gamemode_dispatcher();
    let mut p = Traced::new(Player::new(true));
    assert!(matches!(d.dispatch(&mut p, "gamemode survival"), Ok(())));
    assert_eq!(p.sender.ran, vec![(0, vec![])]);
}

#[test]
fn literal_mismatch_falls_through_to_argument_path() {
    let d = gamemode_dispatcher();
    let mut p = Traced::new(Player::new(true));
    assert!(matches!(d.dispatch(&mut p, "gamemode creative"), Ok(())));
    assert_eq!(p.sender.ran, vec![(1, vec![("mode".to_string(), "creative".to_string())])]);
}

#[test]
fn first_matching_path_shadows_later_ones() {
    // `survival` is also a mode, so the second path would match too.
    let d = gamemode_dispatcher();
    let mut p = Traced::new(Player::new(true));
    assert!(matches!(d.dispatch(&mut p, "gamemode survival"), Ok(())));
    assert_eq!(p.sender.ran.len(), 1);
    assert_eq!(p.sender.ran[0].0, 0);
    assert_eq!(p.sender.consumed, 0);
}

#[test]
fn missing_token_fails_every_path() {
    let d = gamemode_dispatcher();
    let mut p = Traced::new(Player::new(true));
    let r = d.dispatch(&mut p, "gamemode");
    assert_eq!(usage(r), "\ngamemode survival\ngamemode <mode>");
    assert!(p.sender.ran.is_empty());
}

#[test]
fn syntax_error_message_lists_one_line_per_path() {
    let d = gamemode_dispatcher();
    let mut p = Traced::new(Player::new(true));
    let e = d.dispatch(&mut p, "gamemode hardcore").unwrap_err();
    let m = e.message();
    assert_eq!(m, "Invalid Syntax. Usage:\ngamemode survival\ngamemode <mode>");
    assert_eq!(m.lines().count() - 1, gamemode_tree().iter_paths().len());
}

#[test]
fn empty_line_is_empty_command() {
    let d = gamemode_dispatcher();
    let mut p = Traced::new(Player::new(true));
    assert!(matches!(d.dispatch(&mut p, ""), Err(CommandError::EmptyCommand)));
    assert_eq!(d.dispatch(&mut p, "").unwrap_err().message(), "Empty Command");
    assert_eq!((p.sender.checks, p.sender.consumed, p.sender.ran.len()), (0, 0, 0));
}

#[test]
fn blank_line_is_empty_command() {
    let d = gamemode_dispatcher();
    let mut p = Traced::new(Player::new(true));
    assert!(matches!(d.dispatch(&mut p, " \t\r\n "), Err(CommandError::EmptyCommand)));
    assert_eq!((p.sender.checks, p.sender.consumed, p.sender.ran.len()), (0, 0, 0));
}

#[test]
fn unregistered_keyword_is_unknown_command() {
    let d = gamemode_dispatcher();
    let mut p = Traced::new(Player::new(true));
    let r = d.dispatch(&mut p, "foo bar");
    assert!(matches!(r, Err(CommandError::UnknownCommand)));
    assert_eq!(r.unwrap_err().message(), "Command not found");
    assert_eq!((p.sender.checks, p.sender.consumed, p.sender.ran.len()), (0, 0, 0));
}

#[test]
fn trailing_tokens_are_rejected() {
    let d = gamemode_dispatcher();
    let mut p = Traced::new(Player::new(true));
    let r = d.dispatch(&mut p, "gamemode survival now");
    assert_eq!(usage(r), "\ngamemode survival\ngamemode <mode>");
    assert!(p.sender.ran.is_empty());
}

#[test]
fn extra_whitespace_between_tokens_is_ignored() {
    let d = gamemode_dispatcher();
    let mut p = Traced::new(Player::new(true));
    assert!(matches!(d.dispatch(&mut p, "  gamemode \t creative  "), Ok(())));
    assert_eq!(p.sender.ran, vec![(1, vec![("mode".to_string(), "creative".to_string())])]);
}

/// `kick <who> secret` behind a requirement, then `kick <who>`.
fn restricted_tree() -> CommandTree {
    CommandTree {
        nodes: vec![
            node(vec![1], NodeType::Require { predicate: 0 }),
            node(vec![2], arg("who", 1)),
            node(vec![], leaf(0)),
            node(vec![4], arg("who", 1)),
            node(vec![], leaf(1)),
        ],
        children: vec![0, 3],
    }
}

#[test]
fn failed_requirement_falls_through_to_next_path() {
    let mut d = CommandDispatcher::new();
    d.register("kick".to_string(), restricted_tree());
    let mut p = Traced::new(Player::new(false));
    assert!(matches!(d.dispatch(&mut p, "kick steve"), Ok(())));
    assert_eq!(p.sender.checks, 1);
    // the consumer of the restricted path was never asked
    assert_eq!(p.sender.consumed, 1);
    assert_eq!(p.sender.ran, vec![(1, vec![("who".to_string(), "steve".to_string())])]);
}

#[test]
fn held_requirement_takes_restricted_path() {
    let mut d = CommandDispatcher::new();
    d.register("kick".to_string(), restricted_tree());
    let mut p = Traced::new(Player::new(true));
    assert!(matches!(d.dispatch(&mut p, "kick steve"), Ok(())));
    assert_eq!(p.sender.ran, vec![(0, vec![("who".to_string(), "steve".to_string())])]);
}

#[test]
fn failed_requirement_with_no_other_path_is_syntax_error() {
    let tree = CommandTree {
        nodes: vec![node(vec![1], NodeType::Require { predicate: 0 }), node(vec![2], lit("stop")), node(vec![], leaf(0))],
        children: vec![0],
    };
    let mut d = CommandDispatcher::new();
    d.register("server".to_string(), tree);
    let mut p = Traced::new(Player::new(false));
    let r = d.dispatch(&mut p, "server stop");
    assert_eq!(usage(r), "\nserver stop");
    assert_eq!(p.sender.checks, 1);
    assert!(p.sender.ran.is_empty());
}

#[test]
fn failing_handler_is_internal_error_and_stops() {
    let tree = CommandTree {
        nodes: vec![node(vec![1], arg("mode", 0)), node(vec![], leaf(9)), node(vec![3], arg("mode", 0)), node(vec![], leaf(1))],
        children: vec![0, 2],
    };
    let mut d = CommandDispatcher::new();
    d.register("gamemode".to_string(), tree);
    let mut p = Traced::new(Player::new(true));
    let r = d.dispatch(&mut p, "gamemode creative");
    assert!(matches!(
        r,
        Err(CommandError::Internal(InvalidTreeError::InvalidConsumptionError(Some(ref s)))) if s == "creative"
    ));
    assert_eq!(r.unwrap_err().message(), "Internal Error (See logs for details)");
    assert_eq!(p.sender.ran.len(), 1);
}

#[test]
fn try_path_reports_no_match_and_match() {
    let tree = gamemode_tree();
    let mut p = Traced::new(Player::new(true));
    let stack = vec!["creative".to_string()];
    assert!(matches!(CommandDispatcher::try_is_fitting_path(&mut p, vec![0, 1], &tree, stack.clone()), Ok(false)));
    assert!(p.sender.ran.is_empty());
    assert!(matches!(CommandDispatcher::try_is_fitting_path(&mut p, vec![2, 3], &tree, stack.clone()), Ok(true)));
    assert_eq!(p.sender.ran.len(), 1);
    // an index out of the tree is no match
    assert!(matches!(CommandDispatcher::try_is_fitting_path(&mut p, vec![7], &tree, stack.clone()), Ok(false)));
}

#[test]
fn arguments_are_popped_in_line_order() {
    let tree = CommandTree {
        nodes: vec![node(vec![1], arg("a", 1)), node(vec![2], arg("b", 1)), node(vec![3], lit("c")), node(vec![], leaf(0))],
        children: vec![0],
    };
    let mut d = CommandDispatcher::new();
    d.register("tp".to_string(), tree);
    let mut p = Traced::new(Player::new(true));
    assert!(matches!(d.dispatch(&mut p, "tp x y c"), Ok(())));
    assert_eq!(
        p.sender.ran,
        vec![(0, vec![("a".to_string(), "x".to_string()), ("b".to_string(), "y".to_string())])]
    );
}

#[test]
fn later_registration_replaces_earlier() {
    let mut d = CommandDispatcher::new();
    d.register("gm".to_string(), gamemode_tree());
    d.register(
        "gm".to_string(),
        CommandTree { nodes: vec![node(vec![], leaf(5))], children: vec![0] },
    );
    let mut p = Traced::new(Player::new(true));
    assert!(matches!(d.dispatch(&mut p, "gm"), Ok(())));
    assert_eq!(p.sender.ran, vec![(5, vec![])]);
}

#[test]
fn every_attempt_starts_from_the_full_stack() {
    // The first path's consumer takes one token, then its literal fails;
    // the second path's consumer is handed the whole stack again.
    let tree = CommandTree {
        nodes: vec![
            node(vec![1], arg("a", 1)),
            node(vec![2], lit("never")),
            node(vec![], leaf(0)),
            node(vec![4], arg("b", 1)),
            node(vec![5], arg("c", 1)),
            node(vec![], leaf(1)),
        ],
        children: vec![0, 3],
    };
    let mut d = CommandDispatcher::new();
    d.register("pair".to_string(), tree);
    let mut p = Traced::new(Player::new(true));
    assert!(matches!(d.dispatch(&mut p, "pair x y"), Ok(())));
    let full = vec!["y".to_string(), "x".to_string()];
    assert_eq!(p.sender.handed, vec![full.clone(), full, vec!["y".to_string()]]);
    assert_eq!(
        p.sender.ran,
        vec![(1, vec![("b".to_string(), "x".to_string()), ("c".to_string(), "y".to_string())])]
    );
}

#[test]
fn tree_with_children_before_parents_dispatches() {
    let tree = CommandTree {
        nodes: vec![node(vec![], leaf(3)), node(vec![0], lit("a"))],
        children: vec![1],
    };
    let mut d = CommandDispatcher::new();
    d.register("cmd".to_string(), tree);
    let mut p = Traced::new(Player::new(true));
    assert!(matches!(d.dispatch(&mut p, "cmd a"), Ok(())));
    assert_eq!(p.sender.ran, vec![(3, vec![])]);
}
