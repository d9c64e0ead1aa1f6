use vstd::prelude::*;

use crate::tokens::{is_ascii_ws, lemma_no_tokens_iff_blank, split_tokens, strs, tokens};
use crate::tree::{copy_path, usage_line, usage_lines, views, CommandTree, Node, NodeType};

verus! {

/// A fault in a command tree or its handlers, never in the user's input.
#[derive(Debug)]
pub enum InvalidTreeError {
    /// A value that a consumer had accepted could not be used by the handler.
    InvalidConsumptionError(Option<String>),
    /// A condition that a `Require` node should have ensured did not hold.
    InvalidRequirementError,
}

/// The tokens of a line not yet consumed, the next one last.
pub type RawArgs = Vec<String>;

/// The parsed arguments of one path attempt: name and value, in the order
/// they were consumed. The names are those of the path's argument nodes,
/// which a tree gives distinct names.
pub type ConsumedArgs = Vec<(String, String)>;

/// One call that the dispatcher made of a sender's capabilities, with what
/// it handed over and what came back.
pub ghost enum Call {
    /// Consumer `consumer` got the stack `handed`, returned `value` and left
    /// the stack `left`.
    Consume {
        consumer: usize,
        handed: Seq<Seq<char>>,
        value: Option<Seq<char>>,
        left: Seq<Seq<char>>,
    },
    /// Predicate `predicate` was evaluated to `held`.
    Check { predicate: usize, held: bool },
    /// Handler `handler` ran with the parsed arguments `args` and returned
    /// `outcome`.
    Run { handler: usize, args: Seq<(Seq<char>, Seq<char>)>, outcome: Result<(), Option<Seq<char>>> },
}

/// The view of an `InvalidTreeError`.
pub ghost enum Fault {
    Consumption(Option<Seq<char>>),
    Requirement,
}

pub open spec fn fault_view(e: InvalidTreeError) -> Fault {
    match e {
        InvalidTreeError::InvalidConsumptionError(d) => Fault::Consumption(opt_view(d)),
        InvalidTreeError::InvalidRequirementError => Fault::Requirement,
    }
}

/// The view of a path attempt's result.
pub open spec fn result_view(r: Result<bool, InvalidTreeError>) -> Result<bool, Fault> {
    match r {
        Ok(b) => Ok(b),
        Err(e) => Err(fault_view(e)),
    }
}

/// The view of an optional string.
pub open spec fn opt_view(v: Option<String>) -> Option<Seq<char>> {
    match v {
        Some(s) => Some(s@),
        None => None,
    }
}

/// The view of parsed arguments.
pub open spec fn pairs(v: Seq<(String, String)>) -> Seq<(Seq<char>, Seq<char>)> {
    v.map_values(|a: (String, String)| (a.0@, a.1@))
}

/// The view of a handler's outcome.
pub open spec fn outcome_view(r: Result<(), Option<String>>) -> Result<(), Option<Seq<char>>> {
    match r {
        Ok(_) => Ok(()),
        Err(d) => Err(opt_view(d)),
    }
}

/// The one issuing a command, with the capabilities that the nodes of the
/// registered trees name by index.
pub trait CommandSender {
    /// Runs argument consumer `consumer` on the remaining tokens, the next one
    /// last. On a value it has popped what it used; on none it should leave
    /// them as they were.
    fn consume(&mut self, consumer: usize, args: &mut RawArgs) -> Option<String>;

    /// Evaluates predicate `predicate` on the sender.
    fn check(&mut self, predicate: usize) -> bool;

    /// Runs handler `handler` with the parsed arguments. An error, with an
    /// optional detail, says that an argument it was given cannot be used.
    fn run(&mut self, handler: usize, args: &ConsumedArgs) -> Result<(), Option<String>>;
}

/// A sender during dispatch, with the record of the calls made of its
/// capabilities, each with what was handed over and what came back.
pub struct Traced<S> {
    pub sender: S,
    pub calls: Ghost<Seq<Call>>,
}

impl<S: CommandSender> Traced<S> {
    /// The calls made so far, in order.
    pub open spec fn log(&self) -> Seq<Call> {
        self.calls@
    }

    /// `sender`, with no call made yet.
    pub fn new(sender: S) -> (r: Self)
        ensures
            r.sender == sender,
            r.log() == Seq::<Call>::empty(),
    {
        Traced { sender, calls: Ghost(Seq::empty()) }
    }

    /// Calls consumer `consumer` on `args` and records the call.
    fn consume(&mut self, consumer: usize, args: &mut RawArgs) -> (r: Option<String>)
        ensures
            final(self).log() == old(self).log().push(
                Call::Consume {
                    consumer,
                    handed: strs(old(args)@),
                    value: opt_view(r),
                    left: strs(final(args)@),
                },
            ),
    {
        let ghost handed = strs(args@);
        let r = self.sender.consume(consumer, args);
        self.calls = Ghost(
            self.calls@.push(
                Call::Consume { consumer, handed, value: opt_view(r), left: strs(args@) },
            ),
        );
        r
    }

    /// Calls predicate `predicate` and records the call.
    fn check(&mut self, predicate: usize) -> (r: bool)
        ensures
            final(self).log() == old(self).log().push(Call::Check { predicate, held: r }),
    {
        let r = self.sender.check(predicate);
        self.calls = Ghost(self.calls@.push(Call::Check { predicate, held: r }));
        r
    }

    /// Calls handler `handler` with `args` and records the call.
    fn run(&mut self, handler: usize, args: &ConsumedArgs) -> (r: Result<(), Option<String>>)
        ensures
            final(self).log() == old(self).log().push(
                Call::Run { handler, args: pairs(args@), outcome: outcome_view(r) },
            ),
    {
        let r = self.sender.run(handler, args);
        self.calls = Ghost(
            self.calls@.push(Call::Run { handler, args: pairs(args@), outcome: outcome_view(r) }),
        );
        r
    }
}

/// The course of one path attempt: its result, how many capability calls it
/// made, whether it ran the leaf's handler, and whether the calls were the
/// ones that the path prescribes.
pub ghost struct Trial {
    pub result: Result<bool, Fault>,
    pub calls: nat,
    pub ran_leaf: bool,
    pub fits: bool,
}

/// An attempt that stops with no match before any call.
pub open spec fn no_match() -> Trial {
    Trial { result: Ok(false), calls: 0, ran_leaf: false, fits: true }
}

/// An attempt that stops with no match after a call that refused.
pub open spec fn rejected_by_call() -> Trial {
    Trial { result: Ok(false), calls: 1, ran_leaf: false, fits: true }
}

/// Calls that are not the ones the path prescribes.
pub open spec fn misfit() -> Trial {
    Trial { result: Ok(false), calls: 0, ran_leaf: false, fits: false }
}

/// The attempt `t`, preceded by `n` calls that accepted.
pub open spec fn after_calls(t: Trial, n: nat) -> Trial {
    Trial { result: t.result, calls: t.calls + n, ran_leaf: t.ran_leaf, fits: t.fits }
}

/// The attempt of `path` from its `k`-th node on, with `stack` the tokens
/// left (the next one last) and `parsed` the arguments parsed so far, the
/// capability calls being `calls` in turn.
///
/// A literal pops one token that must equal it. An argument hands the stack
/// to its consumer and, on a value, binds it under its name and goes on with
/// the stack the consumer left. A requirement asks its predicate. The leaf
/// runs its handler with the parsed arguments when no token is left; a
/// handler's failure is an `InvalidConsumptionError` with its detail.
pub open spec fn trial(
    nodes: Seq<Node>,
    path: Seq<usize>,
    k: int,
    stack: Seq<Seq<char>>,
    parsed: Seq<(Seq<char>, Seq<char>)>,
    calls: Seq<Call>,
) -> Trial
    decreases path.len() - k,
{
    if k < 0 || k >= path.len() || path[k] >= nodes.len() {
        no_match()
    } else {
        match nodes[path[k] as int].node_type {
            NodeType::ExecuteLeaf { run } => {
                if stack.len() == 0 {
                    if calls.len() > 0 && calls[0] is Run && calls[0]->handler == run
                        && calls[0]->args == parsed {
                        Trial {
                            result: match calls[0]->outcome {
                                Ok(_) => Ok(true),
                                Err(d) => Err(Fault::Consumption(d)),
                            },
                            calls: 1,
                            ran_leaf: true,
                            fits: true,
                        }
                    } else {
                        misfit()
                    }
                } else {
                    no_match()
                }
            },
            NodeType::Literal { string } => {
                if stack.len() > 0 && stack.last() == string@ {
                    trial(nodes, path, k + 1, stack.drop_last(), parsed, calls)
                } else {
                    no_match()
                }
            },
            NodeType::Argument { name, consumer } => {
                if calls.len() > 0 && calls[0] is Consume && calls[0]->consumer == consumer
                    && calls[0]->handed == stack {
                    match calls[0]->value {
                        Some(v) => after_calls(
                            trial(
                                nodes,
                                path,
                                k + 1,
                                calls[0]->left,
                                parsed.push((name@, v)),
                                calls.drop_first(),
                            ),
                            1,
                        ),
                        None => rejected_by_call(),
                    }
                } else {
                    misfit()
                }
            },
            NodeType::Require { predicate } => {
                if calls.len() > 0 && calls[0] is Check && calls[0]->predicate == predicate {
                    if calls[0]->held {
                        after_calls(
                            trial(nodes, path, k + 1, stack, parsed, calls.drop_first()),
                            1,
                        )
                    } else {
                        rejected_by_call()
                    }
                } else {
                    misfit()
                }
            },
        }
    }
}

/// How trying the paths from the `i`-th on ends, the attempt of path `j`
/// making the calls `rs[j]`.
pub ghost enum PathsOutcome {
    /// Path `i` matched and its handler succeeded.
    Matched(int),
    /// Path `i` ran its handler, which failed.
    Failed(int, Fault),
    /// No path matched.
    NoMatch,
}

/// How trying the paths from the `i`-th on ends.
pub open spec fn first_outcome(
    nodes: Seq<Node>,
    paths: Seq<Seq<usize>>,
    i: int,
    stack: Seq<Seq<char>>,
    rs: Seq<Seq<Call>>,
) -> PathsOutcome
    decreases paths.len() - i,
{
    if i < 0 || i >= paths.len() {
        PathsOutcome::NoMatch
    } else {
        match trial(nodes, paths[i], 0, stack, Seq::empty(), rs[i]).result {
            Ok(true) => PathsOutcome::Matched(i),
            Err(e) => PathsOutcome::Failed(i, e),
            Ok(false) => first_outcome(nodes, paths, i + 1, stack, rs),
        }
    }
}

/// How many paths were tried before the outcome `o`, of `n` paths.
pub open spec fn tried(o: PathsOutcome, n: int) -> int {
    match o {
        PathsOutcome::Matched(i) => i + 1,
        PathsOutcome::Failed(i, _) => i + 1,
        PathsOutcome::NoMatch => n,
    }
}

/// The argument stack for the tokens of a line: those after the keyword,
/// the first of them last, so that it is popped first.
pub open spec fn stack_of(toks: Seq<Seq<char>>) -> Seq<Seq<char>> {
    toks.drop_first().reverse()
}

/// A copy of the argument stack `v`.
fn copy_args(v: &Vec<String>) -> (r: Vec<String>)
    ensures
        r@ == v@,
{
    let mut r: Vec<String> = Vec::new();
    let mut i: usize = 0;
    while i < v.len()
        invariant
            i <= v@.len(),
            r@ == v@.subrange(0, i as int),
        decreases v@.len() - i,
    {
        r.push(v[i].clone());
        assert(r@ =~= v@.subrange(0, i + 1));
        i = i + 1;
    }
    assert(v@.subrange(0, i as int) =~= v@);
    r
}


} // verus!

verus! {

/// Why a command was not carried out.
#[derive(Debug)]
pub enum CommandError {
    /// The line holds no token.
    EmptyCommand,
    /// No tree is registered under the keyword.
    UnknownCommand,
    /// No path of the tree matched; holds the tree's usage lines.
    SyntaxError(String),
    /// A handler failed after its path had matched: a fault of the tree.
    Internal(InvalidTreeError),
}

impl CommandError {
    /// The text shown to the one who issued the command. An internal fault
    /// shows as one fixed text that tells nothing of the fault.
    pub fn message(&self) -> (r: String)
        ensures
            match self {
                CommandError::EmptyCommand => r@ == "Empty Command"@,
                CommandError::UnknownCommand => r@ == "Command not found"@,
                CommandError::SyntaxError(u) => r@ == "Invalid Syntax. Usage:"@ + u@,
                CommandError::Internal(_) => r@ == "Internal Error (See logs for details)"@,
            },
    {
        match self {
            CommandError::EmptyCommand => String::from_str("Empty Command"),
            CommandError::UnknownCommand => String::from_str("Command not found"),
            CommandError::SyntaxError(u) => {
                let mut m = String::from_str("Invalid Syntax. Usage:");
                m.append(u.as_str());
                m
            },
            CommandError::Internal(_) => String::from_str("Internal Error (See logs for details)"),
        }
    }
}

/// The index of the entry registered last under `key`.
pub open spec fn find_last(entries: Seq<(String, CommandTree)>, key: Seq<char>) -> Option<int>
    decreases entries.len(),
{
    if entries.len() == 0 {
        None
    } else if entries.last().0@ == key {
        Some(entries.len() - 1)
    } else {
        find_last(entries.drop_last(), key)
    }
}

/// What dispatch of a line whose keyword selects `tree` did, `rs[j]` being
/// the calls made while path `j` was tried: the paths were tried in order,
/// each on the full argument stack with no parsed argument, making the calls
/// the path prescribes, until one matched or failed; `r` reports how that
/// ended.
pub open spec fn dispatched(
    tree: CommandTree,
    key: Seq<char>,
    stack: Seq<Seq<char>>,
    rs: Seq<Seq<Call>>,
    r: Result<(), CommandError>,
) -> bool {
    let paths = tree.paths();
    let o = first_outcome(tree.nodes@, paths, 0, stack, rs);
    &&& rs.len() == tried(o, paths.len() as int)
    &&& forall|j: int|
        0 <= j < rs.len() ==> {
            let t = trial(tree.nodes@, paths[j], 0, stack, Seq::empty(), #[trigger] rs[j]);
            &&& t.fits
            &&& rs[j].len() == t.calls
        }
    &&& match o {
        PathsOutcome::Matched(_) => r == Ok::<(), CommandError>(()),
        PathsOutcome::Failed(_, f) => r matches Err(CommandError::Internal(e)) && fault_view(e)
            == f,
        PathsOutcome::NoMatch => r matches Err(CommandError::SyntaxError(u)) && u@ == usage_lines(
            tree.nodes@,
            key,
            paths,
        ).flatten(),
    }
}

/// Trying the paths from the `i`-th on ends as trying them from the first
/// does, when each path before the `i`-th did not match.
proof fn lemma_skip_unmatched(
    nodes: Seq<Node>,
    paths: Seq<Seq<usize>>,
    j: int,
    i: int,
    stack: Seq<Seq<char>>,
    rs: Seq<Seq<Call>>,
)
    requires
        0 <= j <= i <= paths.len(),
        forall|m: int|
            0 <= m < i ==> (#[trigger] trial(nodes, paths[m], 0, stack, Seq::empty(), rs[m])).result == Ok::<bool, Fault>(false),
    ensures
        first_outcome(nodes, paths, j, stack, rs) == first_outcome(nodes, paths, i, stack, rs),
    decreases i - j,
{
    if j < i {
        assert(trial(nodes, paths[j], 0, stack, Seq::empty(), rs[j]).result == Ok::<bool, Fault>(
            false,
        ));
        lemma_skip_unmatched(nodes, paths, j + 1, i, stack, rs);
    }
}

proof fn lemma_find_last_bounds(entries: Seq<(String, CommandTree)>, key: Seq<char>)
    ensures
        match find_last(entries, key) {
            Some(i) => 0 <= i < entries.len() && entries[i].0@ == key,
            None => true,
        },
    decreases entries.len(),
{
    if entries.len() > 0 {
        lemma_find_last_bounds(entries.drop_last(), key);
    }
}

/// A log made of `log0` followed by `done` splits back into the two.
proof fn lemma_log_split(log0: Seq<Call>, done: Seq<Call>, log: Seq<Call>)
    requires
        log == log0 + done,
    ensures
        log.subrange(0, log0.len() as int) == log0,
        log.subrange(log0.len() as int, log.len() as int) == done,
{
    assert(log.subrange(0, log0.len() as int) =~= log0);
    assert(log.subrange(log0.len() as int, log.len() as int) =~= done);
}

/// The argument stack of a line's tokens (see `stack_of`).
fn raw_args_of(toks: &Vec<String>) -> (r: Vec<String>)
    requires
        toks@.len() > 0,
    ensures
        strs(r@) == stack_of(strs(toks@)),
{
    let ghost want = stack_of(strs(toks@));
    assert(want.len() == toks@.len() - 1);
    let mut r: Vec<String> = Vec::new();
    let mut i: usize = toks.len();
    while i > 1
        invariant
            1 <= i <= toks@.len(),
            want == stack_of(strs(toks@)),
            strs(r@) == want.subrange(0, toks@.len() - i),
        decreases i,
    {
        i = i - 1;
        let ghost r0 = strs(r@);
        r.push(toks[i].clone());
        assert(want[toks@.len() - 1 - i] == strs(toks@)[i as int]);
        assert(strs(r@) =~= r0.push(toks@[i as int]@));
        assert(strs(r@) =~= want.subrange(0, toks@.len() - i));
    }
    assert(want =~= want.subrange(0, toks@.len() - 1));
    r
}

/// Stores the registered command trees and dispatches commands to them.
pub struct CommandDispatcher {
    /// Keyword and tree, in order of registration.
    pub commands: Vec<(String, CommandTree)>,
}

impl CommandDispatcher {
    /// The tree registered last under `key`.
    pub open spec fn tree_for(&self, key: Seq<char>) -> Option<CommandTree> {
        match find_last(self.commands@, key) {
            Some(i) => Some(self.commands@[i].1),
            None => None,
        }
    }

    /// A dispatcher with no command.
    pub fn new() -> (r: Self)
        ensures
            r.commands@.len() == 0,
            forall|key: Seq<char>| r.tree_for(key) is None,
    {
        CommandDispatcher { commands: Vec::new() }
    }

    /// Registers `tree` under `key`, in place of any tree registered under it
    /// before.
    pub fn register(&mut self, key: String, tree: CommandTree)
        ensures
            final(self).tree_for(key@) == Some(tree),
            forall|other: Seq<char>|
                other != key@ ==> #[trigger] final(self).tree_for(other) == old(self).tree_for(
                    other,
                ),
    {
        let ghost k = key@;
        self.commands.push((key, tree));
        assert(self.commands@.drop_last() =~= old(self).commands@);
        assert(find_last(self.commands@, k) == Some(self.commands@.len() - 1));
        assert forall|other: Seq<char>|
            other != k implies #[trigger] self.tree_for(other) == old(self).tree_for(other) by {
            lemma_find_last_bounds(old(self).commands@, other);
        }
    }

    /// The tree registered last under `key`.
    fn get(&self, key: &String) -> (r: Option<&CommandTree>)
        ensures
            match self.tree_for(key@) {
                Some(t) => r == Some(&t),
                None => r is None,
            },
    {
        let mut i: usize = self.commands.len();
        assert(self.commands@.subrange(0, i as int) =~= self.commands@);
        while i > 0
            invariant
                i <= self.commands@.len(),
                find_last(self.commands@, key@) == find_last(
                    self.commands@.subrange(0, i as int),
                    key@,
                ),
            decreases i,
        {
            let ghost sub = self.commands@.subrange(0, i as int);
            assert(sub.drop_last() =~= self.commands@.subrange(0, i - 1));
            if self.commands[i - 1].0 == *key {
                return Some(&self.commands[i - 1].1);
            }
            i = i - 1;
        }
        None
    }

    /// Tries `path` of `tree` on the argument stack `raw_args`, a copy
    /// that the attempt may spend.
    ///
    /// The calls made of `src` are exactly those that `trial` prescribes for
    /// the path, in order, and the result is the one `trial` gives for what
    /// they returned: `Ok(true)` when the leaf's handler ran and succeeded,
    /// `Ok(false)` when the path does not match, `InvalidConsumptionError`
    /// when the handler failed. An index out of the tree is no match.
    pub fn try_is_fitting_path<S: CommandSender>(
        src: &mut Traced<S>,
        path: Vec<usize>,
        tree: &CommandTree,
        raw_args: RawArgs,
    ) -> (r: Result<bool, InvalidTreeError>)
        ensures
            old(src).log().len() <= final(src).log().len(),
            final(src).log().subrange(0, old(src).log().len() as int) == old(src).log(),
            ({
                let c = final(src).log().subrange(
                    old(src).log().len() as int,
                    final(src).log().len() as int,
                );
                let t = trial(tree.nodes@, path@, 0, strs(raw_args@), Seq::empty(), c);
                &&& t.fits
                &&& t.calls == c.len()
                &&& result_view(r) == t.result
            }),
    {
        let ghost nodes = tree.nodes@;
        let ghost s0 = strs(raw_args@);
        let ghost log0 = src.log();
        let mut stack = raw_args;
        let mut parsed_args: ConsumedArgs = Vec::new();
        let ghost mut done: Seq<Call> = Seq::empty();
        let mut k: usize = 0;
        assert(pairs(parsed_args@) =~= Seq::empty());
        assert(src.log() =~= log0 + done);
        assert forall|rest: Seq<Call>|
            #![trigger trial(nodes, path@, 0, s0, Seq::empty(), rest)]
            trial(nodes, path@, 0, s0, Seq::empty(), done + rest) == after_calls(
                trial(nodes, path@, 0, s0, Seq::empty(), rest),
                0,
            ) by {
            assert(done + rest =~= rest);
        }
        while k < path.len()
            invariant
                nodes == tree.nodes@,
                s0 == strs(raw_args@),
                log0 == old(src).log(),
                src.log() == log0 + done,
                k <= path@.len(),
                forall|rest: Seq<Call>|
                    #![trigger trial(nodes, path@, k as int, strs(stack@), pairs(parsed_args@), rest)]
                    trial(nodes, path@, 0, s0, Seq::empty(), done + rest) == after_calls(
                        trial(nodes, path@, k as int, strs(stack@), pairs(parsed_args@), rest),
                        done.len(),
                    ),
            decreases path@.len() - k,
        {
            let ghost cur = strs(stack@);
            let ghost parsed = pairs(parsed_args@);
            let ghost kk = k as int;
            let i = path[k];
            if i >= tree.nodes.len() {
                assert(trial(nodes, path@, kk, cur, parsed, Seq::empty()) == no_match());
                assert(done + Seq::<Call>::empty() =~= done);
                proof {
                    lemma_log_split(log0, done, src.log());
                }
                return Ok(false);
            }
            match &tree.nodes[i].node_type {
                NodeType::ExecuteLeaf { run } => {
                    if stack.len() == 0 {
                        let res = src.run(*run, &parsed_args);
                        let ghost call = Call::Run {
                            handler: *run,
                            args: parsed,
                            outcome: outcome_view(res),
                        };
                        assert(seq![call][0] == call);
                        assert(done + seq![call] =~= done.push(call));
                        let r = match res {
                            Ok(_) => Ok(true),
                            Err(d) => Err(InvalidTreeError::InvalidConsumptionError(d)),
                        };
                        proof {
                            let t = trial(nodes, path@, kk, cur, parsed, seq![call]);
                            assert(t.fits && t.calls == 1 && result_view(r) == t.result);
                            done = done.push(call);
                        }
                        proof {
                            lemma_log_split(log0, done, src.log());
                        }
                        return r;
                    } else {
                        assert(trial(nodes, path@, kk, cur, parsed, Seq::empty()) == no_match());
                        assert(done + Seq::<Call>::empty() =~= done);
                        proof {
                            lemma_log_split(log0, done, src.log());
                        }
                        return Ok(false);
                    }
                },
                NodeType::Literal { string } => {
                    let tok = stack.pop();
                    let hit = match tok {
                        Some(t) => t == *string,
                        None => false,
                    };
                    if !hit {
                        assert(trial(nodes, path@, kk, cur, parsed, Seq::empty()) == no_match());
                        assert(done + Seq::<Call>::empty() =~= done);
                        proof {
                            lemma_log_split(log0, done, src.log());
                        }
                        return Ok(false);
                    }
                    assert(strs(stack@) =~= cur.drop_last());
                    assert forall|rest: Seq<Call>|
                        #![trigger trial(nodes, path@, kk + 1, strs(stack@), parsed, rest)]
                        trial(nodes, path@, kk, cur, parsed, rest) == trial(
                            nodes,
                            path@,
                            kk + 1,
                            strs(stack@),
                            parsed,
                            rest,
                        ) by {}
                },
                NodeType::Argument { name, consumer } => {
                    let got = src.consume(*consumer, &mut stack);
                    let ghost call = Call::Consume {
                        consumer: *consumer,
                        handed: cur,
                        value: opt_view(got),
                        left: strs(stack@),
                    };
                    match got {
                        Some(value) => {
                            let ghost v = value@;
                            parsed_args.push((name.clone(), value));
                            proof {
                                assert(pairs(parsed_args@) =~= parsed.push((name@, v)));
                                assert forall|rest: Seq<Call>|
                                    #![trigger trial(nodes, path@, kk + 1, strs(stack@), pairs(parsed_args@), rest)]
                                    trial(
                                        nodes,
                                        path@,
                                        0,
                                        s0,
                                        Seq::empty(),
                                        done.push(call) + rest,
                                    ) == after_calls(
                                        trial(
                                            nodes,
                                            path@,
                                            kk + 1,
                                            strs(stack@),
                                            pairs(parsed_args@),
                                            rest,
                                        ),
                                        done.len() + 1,
                                    ) by {
                                    let r2 = seq![call] + rest;
                                    assert(done + r2 =~= done.push(call) + rest);
                                    assert(r2.drop_first() =~= rest);
                                    assert(r2[0] == call);
                                    assert(trial(nodes, path@, kk, cur, parsed, r2) == after_calls(
                                        trial(
                                            nodes,
                                            path@,
                                            kk + 1,
                                            strs(stack@),
                                            pairs(parsed_args@),
                                            rest,
                                        ),
                                        1,
                                    ));
                                }
                                done = done.push(call);
                            }
                        },
                        None => {
                            assert(seq![call][0] == call);
                            assert(trial(nodes, path@, kk, cur, parsed, seq![call])
                                == rejected_by_call());
                            assert(done + seq![call] =~= done.push(call));
                            proof {
                                done = done.push(call);
                            }
                            proof {
                                lemma_log_split(log0, done, src.log());
                            }
                            return Ok(false);
                        },
                    }
                },
                NodeType::Require { predicate } => {
                    let ok = src.check(*predicate);
                    let ghost call = Call::Check { predicate: *predicate, held: ok };
                    if !ok {
                        assert(seq![call][0] == call);
                        assert(trial(nodes, path@, kk, cur, parsed, seq![call])
                            == rejected_by_call());
                        assert(done + seq![call] =~= done.push(call));
                        proof {
                            done = done.push(call);
                        }
                        proof {
                            lemma_log_split(log0, done, src.log());
                        }
                        return Ok(false);
                    }
                    proof {
                        assert forall|rest: Seq<Call>|
                            #![trigger trial(nodes, path@, kk + 1, cur, parsed, rest)]
                            trial(nodes, path@, 0, s0, Seq::empty(), done.push(call) + rest)
                                == after_calls(
                                trial(nodes, path@, kk + 1, cur, parsed, rest),
                                done.len() + 1,
                            ) by {
                            let r2 = seq![call] + rest;
                            assert(done + r2 =~= done.push(call) + rest);
                            assert(r2.drop_first() =~= rest);
                            assert(r2[0] == call);
                            assert(trial(nodes, path@, kk, cur, parsed, r2) == after_calls(
                                trial(nodes, path@, kk + 1, cur, parsed, rest),
                                1,
                            ));
                        }
                        done = done.push(call);
                    }
                },
            }
            k = k + 1;
        }
        assert(trial(nodes, path@, k as int, strs(stack@), pairs(parsed_args@), Seq::empty())
            == no_match());
        assert(done + Seq::<Call>::empty() =~= done);
        proof {
            lemma_log_split(log0, done, src.log());
        }
        Ok(false)
    }

    /// Executes the command line `cmd` with its registered tree.
    ///
    /// The line is split at ASCII whitespace; the first token is the
    /// keyword, the others form the argument stack. The tree's paths are
    /// tried in enumeration order, each on a fresh copy of the stack, until
    /// one matches (its handler has run) or a handler fails; when none
    /// matches, the error holds the tree's usage lines. The calls made of
    /// `src` are recorded in its log, path by path, as `dispatched` states;
    /// a blank line or an unknown keyword leaves `src` untouched.
    pub fn dispatch<S: CommandSender>(&self, src: &mut Traced<S>, cmd: &str) -> (r: Result<
        (),
        CommandError,
    >)
        ensures
            (forall|i: int| 0 <= i < cmd@.len() ==> is_ascii_ws(#[trigger] cmd@[i])) ==> r == Err::<
                (),
                CommandError,
            >(CommandError::EmptyCommand) && *final(src) == *old(src),
            tokens(cmd@).len() > 0 && self.tree_for(tokens(cmd@)[0]) is None ==> r == Err::<
                (),
                CommandError,
            >(CommandError::UnknownCommand) && *final(src) == *old(src),
            tokens(cmd@).len() > 0 && self.tree_for(tokens(cmd@)[0]) is Some ==> exists|
                rs: Seq<Seq<Call>>,
            |
                #![trigger dispatched(self.tree_for(tokens(cmd@)[0]).unwrap(), tokens(cmd@)[0], stack_of(tokens(cmd@)), rs, r)]
                final(src).log() == old(src).log() + rs.flatten() && dispatched(
                    self.tree_for(tokens(cmd@)[0]).unwrap(),
                    tokens(cmd@)[0],
                    stack_of(tokens(cmd@)),
                    rs,
                    r,
                ),
    {
        let toks = split_tokens(cmd);
        proof {
            lemma_no_tokens_iff_blank(cmd@);
        }
        if toks.len() == 0 {
            return Err(CommandError::EmptyCommand);
        }
        let key = &toks[0];
        let tree = match self.get(key) {
            Some(t) => t,
            None => {
                return Err(CommandError::UnknownCommand);
            },
        };
        let raw_args = raw_args_of(&toks);
        let ghost stack = strs(raw_args@);
        let ghost nodes = tree.nodes@;
        let ghost log0 = src.log();
        let paths = tree.iter_paths();
        let ghost ps = tree.paths();
        let ghost mut done: Seq<Seq<Call>> = Seq::empty();
        let mut i: usize = 0;
        assert(log0 + done.flatten() =~= log0);
        while i < paths.len()
            invariant
                strs(toks@) == tokens(cmd@),
                toks@.len() > 0,
                key@ == tokens(cmd@)[0],
                self.tree_for(tokens(cmd@)[0]) == Some(*tree),
                stack == stack_of(tokens(cmd@)),
                ps == views(paths@),
                ps == tree.paths(),
                nodes == tree.nodes@,
                stack == strs(raw_args@),
                log0 == old(src).log(),
                src.log() == log0 + done.flatten(),
                i <= paths@.len(),
                done.len() == i,
                forall|m: int|
                    0 <= m < i ==> (#[trigger] trial(nodes, ps[m], 0, stack, Seq::empty(), done[m])).result
                        == Ok::<bool, Fault>(false),
                forall|m: int|
                    0 <= m < i ==> {
                        let t = trial(nodes, ps[m], 0, stack, Seq::empty(), #[trigger] done[m]);
                        &&& t.fits
                        &&& done[m].len() == t.calls
                    },
            decreases paths@.len() - i,
        {
            let path = copy_path(&paths[i]);
            assert(path@ == ps[i as int]);
            let ghost before = src.log();
            let res = Self::try_is_fitting_path(src, path, tree, copy_args(&raw_args));
            let ghost c = src.log().subrange(before.len() as int, src.log().len() as int);
            let ghost rs = done.push(c);
            proof {
                assert(src.log() =~= before + c);
                done.lemma_flatten_push(c);
                assert forall|m: int| 0 <= m < i implies #[trigger] trial(nodes, ps[m], 0, stack, Seq::empty(), rs[m]).result == Ok::<bool, Fault>(false) by {
                    assert(rs[m] == done[m]);
                }
                lemma_skip_unmatched(nodes, ps, 0, i as int, stack, rs);
                assert(rs[i as int] == c);
                assert forall|m: int| 0 <= m < rs.len() implies {
                    let t = trial(nodes, ps[m], 0, stack, Seq::empty(), #[trigger] rs[m]);
                    &&& t.fits
                    &&& rs[m].len() == t.calls
                } by {
                    if m < i {
                        assert(rs[m] == done[m]);
                    }
                }
            }
            match res {
                Err(e) => {
                    let r = Err(CommandError::Internal(e));
                    proof {
                        assert(dispatched(*tree, key@, stack, rs, r));
                        assert(self.tree_for(tokens(cmd@)[0]).unwrap() == *tree);
                        lemma_no_tokens_iff_blank(cmd@);
                    }
                    return r;
                },
                Ok(true) => {
                    proof {
                        assert(dispatched(*tree, key@, stack, rs, Ok(())));
                        assert(self.tree_for(tokens(cmd@)[0]).unwrap() == *tree);
                        lemma_no_tokens_iff_blank(cmd@);
                    }
                    return Ok(());
                },
                Ok(false) => {
                    proof {
                        done = rs;
                    }
                },
            }
            i = i + 1;
        }
        proof {
            lemma_skip_unmatched(nodes, ps, 0, i as int, stack, done);
        }
        let r = Err(CommandError::SyntaxError(tree.paths_formatted(key.as_str())));
        proof {
            assert(dispatched(*tree, key@, stack, done, r));
            assert(self.tree_for(tokens(cmd@)[0]).unwrap() == *tree);
            lemma_no_tokens_iff_blank(cmd@);
        }
        r
    }
}

} // verus!

verus! {

/// An attempt that ends with no match ran no handler, and one that matched
/// did run it.
proof fn lemma_trial_leaf(
    nodes: Seq<Node>,
    path: Seq<usize>,
    k: int,
    stack: Seq<Seq<char>>,
    parsed: Seq<(Seq<char>, Seq<char>)>,
    calls: Seq<Call>,
)
    ensures
        trial(nodes, path, k, stack, parsed, calls).result == Ok::<bool, Fault>(false)
            ==> !trial(nodes, path, k, stack, parsed, calls).ran_leaf,
        trial(nodes, path, k, stack, parsed, calls).result == Ok::<bool, Fault>(true)
            ==> trial(nodes, path, k, stack, parsed, calls).ran_leaf,
    decreases path.len() - k,
{
    if 0 <= k < path.len() && path[k] < nodes.len() {
        match nodes[path[k] as int].node_type {
            NodeType::Literal { .. } => {
                lemma_trial_leaf(nodes, path, k + 1, stack.drop_last(), parsed, calls);
            },
            NodeType::Argument { name, .. } => {
                if calls.len() > 0 && calls[0] is Consume {
                    if let Some(v) = calls[0]->value {
                        lemma_trial_leaf(
                            nodes,
                            path,
                            k + 1,
                            calls[0]->left,
                            parsed.push((name@, v)),
                            calls.drop_first(),
                        );
                    }
                }
            },
            NodeType::Require { .. } => {
                lemma_trial_leaf(nodes, path, k + 1, stack, parsed, calls.drop_first());
            },
            _ => {},
        }
    }
}

/// Within the calls of one attempt that fits its path, a handler is called
/// at most once, and only as the last call, when the attempt ran its leaf.
pub proof fn lemma_handler_runs_last(
    nodes: Seq<Node>,
    path: Seq<usize>,
    k: int,
    stack: Seq<Seq<char>>,
    parsed: Seq<(Seq<char>, Seq<char>)>,
    calls: Seq<Call>,
)
    requires
        trial(nodes, path, k, stack, parsed, calls).fits,
        trial(nodes, path, k, stack, parsed, calls).calls <= calls.len(),
    ensures
        forall|m: int|
            0 <= m < trial(nodes, path, k, stack, parsed, calls).calls && (#[trigger] calls[m] is Run)
                ==> trial(nodes, path, k, stack, parsed, calls).ran_leaf && m == trial(
                nodes,
                path,
                k,
                stack,
                parsed,
                calls,
            ).calls - 1,
    decreases path.len() - k,
{
    if 0 <= k < path.len() && path[k] < nodes.len() {
        match nodes[path[k] as int].node_type {
            NodeType::Literal { string } => {
                if stack.len() > 0 && stack.last() == string@ {
                    lemma_handler_runs_last(nodes, path, k + 1, stack.drop_last(), parsed, calls);
                }
            },
            NodeType::Argument { name, .. } => {
                if let Some(v) = calls[0]->value {
                    let rest = calls.drop_first();
                    lemma_handler_runs_last(
                        nodes,
                        path,
                        k + 1,
                        calls[0]->left,
                        parsed.push((name@, v)),
                        rest,
                    );
                    assert forall|m: int|
                        1 <= m < trial(nodes, path, k, stack, parsed, calls).calls && (
                        #[trigger] calls[m] is Run) implies trial(
                        nodes,
                        path,
                        k,
                        stack,
                        parsed,
                        calls,
                    ).ran_leaf && m == trial(nodes, path, k, stack, parsed, calls).calls - 1 by {
                        assert(rest[m - 1] == calls[m]);
                    }
                }
            },
            NodeType::Require { .. } => {
                if calls[0]->held {
                    let rest = calls.drop_first();
                    lemma_handler_runs_last(nodes, path, k + 1, stack, parsed, rest);
                    assert forall|m: int|
                        1 <= m < trial(nodes, path, k, stack, parsed, calls).calls && (
                        #[trigger] calls[m] is Run) implies trial(
                        nodes,
                        path,
                        k,
                        stack,
                        parsed,
                        calls,
                    ).ran_leaf && m == trial(nodes, path, k, stack, parsed, calls).calls - 1 by {
                        assert(rest[m - 1] == calls[m]);
                    }
                }
            },
            _ => {},
        }
    }
}

/// The argument stack, popped until empty, gives back the tokens after the
/// keyword in their order on the line: the reversal that builds it is undone
/// by the pops.
pub proof fn lemma_stack_pops_in_order(toks: Seq<Seq<char>>)
    requires
        toks.len() > 0,
    ensures
        stack_of(toks).reverse() == toks.drop_first(),
        forall|i: int|
            0 <= i < toks.len() - 1 ==> #[trigger] stack_of(toks)[toks.len() - 2 - i] == toks[i + 1],
{
    assert(stack_of(toks).reverse() =~= toks.drop_first());
}

/// Among the paths, the first that fully matches is the one whose handler
/// runs, and the only one: its handler is called once, as its last call; the
/// paths before it called no handler, and no path after it is tried, even
/// one that would match too.
pub proof fn lemma_first_match_wins(
    tree: CommandTree,
    key: Seq<char>,
    stack: Seq<Seq<char>>,
    rs: Seq<Seq<Call>>,
    r: Result<(), CommandError>,
    j: int,
)
    requires
        dispatched(tree, key, stack, rs, r),
        0 <= j < tree.paths().len(),
        j < rs.len(),
        trial(tree.nodes@, tree.paths()[j], 0, stack, Seq::empty(), rs[j]).result == Ok::<
            bool,
            Fault,
        >(true),
        forall|m: int|
            0 <= m < j ==> (#[trigger] trial(
                tree.nodes@,
                tree.paths()[m],
                0,
                stack,
                Seq::empty(),
                rs[m],
            )).result == Ok::<bool, Fault>(false),
    ensures
        r == Ok::<(), CommandError>(()),
        rs.len() == j + 1,
        rs[j].len() > 0 && rs[j].last() is Run,
        forall|q: int| 0 <= q < rs[j].len() - 1 ==> !(#[trigger] rs[j][q] is Run),
        forall|m: int, q: int|
            0 <= m < j && 0 <= q < rs[m].len() ==> !(#[trigger] rs[m][q] is Run),
{
    let nodes = tree.nodes@;
    let ps = tree.paths();
    lemma_skip_unmatched(nodes, ps, 0, j, stack, rs);
    lemma_trial_leaf(nodes, ps[j], 0, stack, Seq::empty(), rs[j]);
    lemma_handler_runs_last(nodes, ps[j], 0, stack, Seq::empty(), rs[j]);
    assert(rs[j].len() > 0 && rs[j].last() is Run) by {
        let t = trial(nodes, ps[j], 0, stack, Seq::empty(), rs[j]);
        assert(t.fits && rs[j].len() == t.calls);
        leaf_call_is_run(nodes, ps[j], 0, stack, Seq::empty(), rs[j]);
    }
    assert forall|m: int, q: int| 0 <= m < j && 0 <= q < rs[m].len() implies !(
    #[trigger] rs[m][q] is Run) by {
        lemma_trial_leaf(nodes, ps[m], 0, stack, Seq::empty(), rs[m]);
        lemma_handler_runs_last(nodes, ps[m], 0, stack, Seq::empty(), rs[m]);
    }
}

/// An attempt that fits its path and ran its leaf ended with the handler's
/// call.
proof fn leaf_call_is_run(
    nodes: Seq<Node>,
    path: Seq<usize>,
    k: int,
    stack: Seq<Seq<char>>,
    parsed: Seq<(Seq<char>, Seq<char>)>,
    calls: Seq<Call>,
)
    requires
        trial(nodes, path, k, stack, parsed, calls).fits,
        trial(nodes, path, k, stack, parsed, calls).ran_leaf,
        trial(nodes, path, k, stack, parsed, calls).calls == calls.len(),
    ensures
        calls.len() > 0 && calls.last() is Run,
    decreases path.len() - k,
{
    if 0 <= k < path.len() && path[k] < nodes.len() {
        match nodes[path[k] as int].node_type {
            NodeType::Literal { string } => {
                if stack.len() > 0 && stack.last() == string@ {
                    leaf_call_is_run(nodes, path, k + 1, stack.drop_last(), parsed, calls);
                }
            },
            NodeType::Argument { name, .. } => {
                if let Some(v) = calls[0]->value {
                    let rest = calls.drop_first();
                    leaf_call_is_run(
                        nodes,
                        path,
                        k + 1,
                        calls[0]->left,
                        parsed.push((name@, v)),
                        rest,
                    );
                    assert(rest.last() == calls.last());
                }
            },
            NodeType::Require { .. } => {
                if calls[0]->held {
                    let rest = calls.drop_first();
                    leaf_call_is_run(nodes, path, k + 1, stack, parsed, rest);
                    assert(rest.last() == calls.last());
                }
            },
            _ => {},
        }
    }
}

/// The state after the nodes `path[k..m]` all accepted, their calls fitting
/// them: the tokens left, the arguments parsed, and how many calls they made.
/// `None` when one of them did not accept.
pub open spec fn walk(
    nodes: Seq<Node>,
    path: Seq<usize>,
    k: int,
    m: int,
    stack: Seq<Seq<char>>,
    parsed: Seq<(Seq<char>, Seq<char>)>,
    calls: Seq<Call>,
) -> Option<(Seq<Seq<char>>, Seq<(Seq<char>, Seq<char>)>, nat)>
    decreases m - k,
{
    if k == m {
        Some((stack, parsed, 0))
    } else if k > m || k < 0 || k >= path.len() || path[k] >= nodes.len() {
        None
    } else {
        match nodes[path[k] as int].node_type {
            NodeType::ExecuteLeaf { .. } => None,
            NodeType::Literal { string } => {
                if stack.len() > 0 && stack.last() == string@ {
                    walk(nodes, path, k + 1, m, stack.drop_last(), parsed, calls)
                } else {
                    None
                }
            },
            NodeType::Argument { name, consumer } => {
                if calls.len() > 0 && calls[0] is Consume && calls[0]->consumer == consumer
                    && calls[0]->handed == stack && calls[0]->value is Some {
                    match walk(
                        nodes,
                        path,
                        k + 1,
                        m,
                        calls[0]->left,
                        parsed.push((name@, calls[0]->value->0)),
                        calls.drop_first(),
                    ) {
                        Some(w) => Some((w.0, w.1, w.2 + 1)),
                        None => None,
                    }
                } else {
                    None
                }
            },
            NodeType::Require { predicate } => {
                if calls.len() > 0 && calls[0] is Check && calls[0]->predicate == predicate
                    && calls[0]->held {
                    match walk(nodes, path, k + 1, m, stack, parsed, calls.drop_first()) {
                        Some(w) => Some((w.0, w.1, w.2 + 1)),
                        None => None,
                    }
                } else {
                    None
                }
            },
        }
    }
}

/// When the nodes `path[k..m]` all accept, the attempt from node `k` goes on
/// as the attempt from node `m`, after their calls.
pub proof fn lemma_walk(
    nodes: Seq<Node>,
    path: Seq<usize>,
    k: int,
    m: int,
    stack: Seq<Seq<char>>,
    parsed: Seq<(Seq<char>, Seq<char>)>,
    calls: Seq<Call>,
)
    requires
        walk(nodes, path, k, m, stack, parsed, calls) is Some,
    ensures
        ({
            let w = walk(nodes, path, k, m, stack, parsed, calls)->0;
            &&& w.2 <= calls.len()
            &&& trial(nodes, path, k, stack, parsed, calls) == after_calls(
                trial(nodes, path, m, w.0, w.1, calls.subrange(w.2 as int, calls.len() as int)),
                w.2,
            )
        }),
    decreases m - k,
{
    if k == m {
        assert(calls.subrange(0, calls.len() as int) =~= calls);
    } else if k < m {
        match nodes[path[k] as int].node_type {
            NodeType::Literal { .. } => {
                lemma_walk(nodes, path, k + 1, m, stack.drop_last(), parsed, calls);
            },
            NodeType::Argument { name, .. } => {
                let rest = calls.drop_first();
                let p2 = parsed.push((name@, calls[0]->value->0));
                lemma_walk(nodes, path, k + 1, m, calls[0]->left, p2, rest);
                let w = walk(nodes, path, k + 1, m, calls[0]->left, p2, rest)->0;
                assert(rest.subrange(w.2 as int, rest.len() as int) =~= calls.subrange(
                    (w.2 + 1) as int,
                    calls.len() as int,
                ));
            },
            NodeType::Require { .. } => {
                let rest = calls.drop_first();
                lemma_walk(nodes, path, k + 1, m, stack, parsed, rest);
                let w = walk(nodes, path, k + 1, m, stack, parsed, rest)->0;
                assert(rest.subrange(w.2 as int, rest.len() as int) =~= calls.subrange(
                    (w.2 + 1) as int,
                    calls.len() as int,
                ));
            },
            _ => {},
        }
    }
}

/// A path whose nodes before its leaf all accept but leave tokens does not
/// match, however many tokens they took: its handler is not called, and the
/// attempt makes no call beyond those of the earlier nodes.
pub proof fn lemma_trailing_tokens_rejected(
    nodes: Seq<Node>,
    path: Seq<usize>,
    m: int,
    stack: Seq<Seq<char>>,
    calls: Seq<Call>,
)
    requires
        0 <= m < path.len(),
        path[m] < nodes.len(),
        nodes[path[m] as int].node_type is ExecuteLeaf,
        walk(nodes, path, 0, m, stack, Seq::empty(), calls) is Some,
        walk(nodes, path, 0, m, stack, Seq::empty(), calls).unwrap().0.len() > 0,
    ensures
        ({
            let t = trial(nodes, path, 0, stack, Seq::empty(), calls);
            &&& t.result == Ok::<bool, Fault>(false)
            &&& !t.ran_leaf
            &&& t.calls == walk(nodes, path, 0, m, stack, Seq::empty(), calls).unwrap().2
        }),
{
    lemma_walk(nodes, path, 0, m, stack, Seq::empty(), calls);
}

/// A requirement whose predicate does not hold, reached after earlier nodes
/// that all accept, ends its path with no match: the predicate is the last
/// call, no later node is evaluated and no handler runs. The predicate is
/// given no tokens to take.
pub proof fn lemma_failed_requirement_rejects(
    nodes: Seq<Node>,
    path: Seq<usize>,
    m: int,
    stack: Seq<Seq<char>>,
    calls: Seq<Call>,
)
    requires
        0 <= m < path.len(),
        path[m] < nodes.len(),
        nodes[path[m] as int].node_type is Require,
        walk(nodes, path, 0, m, stack, Seq::empty(), calls) is Some,
        walk(nodes, path, 0, m, stack, Seq::empty(), calls).unwrap().2 < calls.len(),
        calls[walk(nodes, path, 0, m, stack, Seq::empty(), calls).unwrap().2 as int] == (Call::Check {
            predicate: nodes[path[m] as int].node_type->predicate,
            held: false,
        }),
    ensures
        ({
            let t = trial(nodes, path, 0, stack, Seq::empty(), calls);
            &&& t.result == Ok::<bool, Fault>(false)
            &&& !t.ran_leaf
            &&& t.calls == walk(nodes, path, 0, m, stack, Seq::empty(), calls).unwrap().2 + 1
        }),
{
    lemma_walk(nodes, path, 0, m, stack, Seq::empty(), calls);
    let w = walk(nodes, path, 0, m, stack, Seq::empty(), calls)->0;
    let rest = calls.subrange(w.2 as int, calls.len() as int);
    assert(rest[0] == calls[w.2 as int]);
}

/// When no path matches, every path was tried, no handler was called, and
/// the error holds the usage text, made of exactly one line per path of the
/// tree, in the order of the paths.
pub proof fn lemma_no_match_lists_every_path(
    tree: CommandTree,
    key: Seq<char>,
    stack: Seq<Seq<char>>,
    rs: Seq<Seq<Call>>,
    r: Result<(), CommandError>,
)
    requires
        dispatched(tree, key, stack, rs, r),
        rs.len() >= tree.paths().len(),
        forall|m: int|
            0 <= m < tree.paths().len() ==> (#[trigger] trial(tree.nodes@, tree.paths()[m], 0, stack, Seq::empty(), rs[m])).result == Ok::<bool, Fault>(false),
    ensures
        r matches Err(CommandError::SyntaxError(u)) && u@ == usage_lines(
            tree.nodes@,
            key,
            tree.paths(),
        ).flatten(),
        usage_lines(tree.nodes@, key, tree.paths()).len() == tree.paths().len(),
        forall|m: int|
            0 <= m < tree.paths().len() ==> #[trigger] usage_lines(
                tree.nodes@,
                key,
                tree.paths(),
            )[m] == usage_line(tree.nodes@, key, tree.paths()[m]),
        rs.len() == tree.paths().len(),
        forall|m: int, q: int|
            0 <= m < rs.len() && 0 <= q < rs[m].len() ==> !(#[trigger] rs[m][q] is Run),
{
    let nodes = tree.nodes@;
    let ps = tree.paths();
    lemma_skip_unmatched(nodes, ps, 0, ps.len() as int, stack, rs);
    assert forall|m: int, q: int| 0 <= m < rs.len() && 0 <= q < rs[m].len() implies !(
    #[trigger] rs[m][q] is Run) by {
        lemma_trial_leaf(nodes, ps[m], 0, stack, Seq::empty(), rs[m]);
        lemma_handler_runs_last(nodes, ps[m], 0, stack, Seq::empty(), rs[m]);
    }
}

} // verus!

verus! {

/// A restricted path whose requirement does not hold makes dispatch go on to
/// the next path rather than fail: when all the other paths fail to match as
/// well, the result is the syntax error with the usage lines, and no handler
/// was called.
pub proof fn lemma_restricted_path_falls_through(
    tree: CommandTree,
    key: Seq<char>,
    stack: Seq<Seq<char>>,
    rs: Seq<Seq<Call>>,
    r: Result<(), CommandError>,
    i: int,
    m: int,
)
    requires
        dispatched(tree, key, stack, rs, r),
        0 <= i < tree.paths().len(),
        0 <= m < tree.paths()[i].len(),
        tree.paths()[i][m] < tree.nodes@.len(),
        tree.nodes@[tree.paths()[i][m] as int].node_type is Require,
        walk(tree.nodes@, tree.paths()[i], 0, m, stack, Seq::empty(), rs[i]) is Some,
        walk(tree.nodes@, tree.paths()[i], 0, m, stack, Seq::empty(), rs[i]).unwrap().2
            < rs[i].len(),
        rs[i][walk(tree.nodes@, tree.paths()[i], 0, m, stack, Seq::empty(), rs[i]).unwrap().2 as int]
            == (Call::Check {
            predicate: tree.nodes@[tree.paths()[i][m] as int].node_type->predicate,
            held: false,
        }),
        forall|j: int|
            0 <= j < tree.paths().len() && j != i ==> (#[trigger] trial(
                tree.nodes@,
                tree.paths()[j],
                0,
                stack,
                Seq::empty(),
                rs[j],
            )).result == Ok::<bool, Fault>(false),
    ensures
        r matches Err(CommandError::SyntaxError(u)) && u@ == usage_lines(
            tree.nodes@,
            key,
            tree.paths(),
        ).flatten(),
        forall|j: int, q: int|
            0 <= j < rs.len() && 0 <= q < rs[j].len() ==> !(#[trigger] rs[j][q] is Run),
{
    let nodes = tree.nodes@;
    let ps = tree.paths();
    lemma_failed_requirement_rejects(nodes, ps[i], m, stack, rs[i]);
    assert forall|j: int| 0 <= j < ps.len() implies (#[trigger] trial(
        nodes,
        ps[j],
        0,
        stack,
        Seq::empty(),
        rs[j],
    )).result == Ok::<bool, Fault>(false) by {}
    lemma_skip_unmatched(nodes, ps, 0, ps.len() as int, stack, rs);
    lemma_no_match_lists_every_path(tree, key, stack, rs, r);
}

} // verus!
