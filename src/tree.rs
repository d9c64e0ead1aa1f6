use vstd::prelude::*;

verus! {

/// One step of a command grammar.
///
/// Consumers, predicates and handlers are capabilities of the command
/// sender, named here by their index (see `CommandSender`).
pub enum NodeType {
    /// Matches exactly one input token equal to `string`.
    Literal { string: String },
    /// Hands the remaining tokens to consumer `consumer`, which yields a value
    /// bound under `name`, or no value.
    Argument { name: String, consumer: usize },
    /// A gate: predicate `predicate` must hold of the sender.
    Require { predicate: usize },
    /// The end of a path: runs handler `run`.
    ExecuteLeaf { run: usize },
}

/// A node of a command tree: its grammar step and the indices of its children,
/// in declaration order.
pub struct Node {
    pub children: Vec<usize>,
    pub node_type: NodeType,
}

/// The grammar of one command: nodes in a flat arena, addressed by index.
/// `children` lists the root's children.
pub struct CommandTree {
    pub nodes: Vec<Node>,
    pub children: Vec<usize>,
}

/// Whether `n` ends a path.
pub open spec fn is_leaf(n: &Node) -> bool {
    n.node_type is ExecuteLeaf
}

/// The root-to-leaf paths below the children `cs[k..]`, each extended at the
/// front by `prefix`, depth first, earlier children first.
///
/// A child is followed when it is a node of the tree and not already on
/// `prefix`: any acyclic arena gives all its paths, in whatever index order
/// its nodes stand, and a cycle of indices cannot make a path repeat a node.
pub open spec fn paths_below(
    nodes: Seq<Node>,
    prefix: Seq<usize>,
    cs: Seq<usize>,
    k: int,
) -> Seq<Seq<usize>>
    decreases nodes.len() - prefix.len(), cs.len() - k,
{
    if k < 0 || k >= cs.len() {
        Seq::empty()
    } else {
        let c = cs[k];
        let rest = paths_below(nodes, prefix, cs, k + 1);
        if c < nodes.len() && !prefix.contains(c) && prefix.len() < nodes.len() {
            let here = prefix.push(c);
            if is_leaf(&nodes[c as int]) {
                seq![here] + rest
            } else {
                paths_below(nodes, here, nodes[c as int].children@, 0) + rest
            }
        } else {
            rest
        }
    }
}

/// The views of a sequence of vectors.
pub open spec fn views(v: Seq<Vec<usize>>) -> Seq<Seq<usize>> {
    v.map_values(|p: Vec<usize>| p@)
}

/// How node `i` shows in a usage line: a literal as itself, an argument as
/// `<name>`, each after a space; other nodes not at all.
pub open spec fn node_text(nodes: Seq<Node>, i: usize) -> Seq<char> {
    if i < nodes.len() {
        match nodes[i as int].node_type {
            NodeType::Literal { string } => seq![' '] + string@,
            NodeType::Argument { name, .. } => seq![' ', '<'] + name@ + seq!['>'],
            _ => Seq::empty(),
        }
    } else {
        Seq::empty()
    }
}

/// The text of the nodes of `path`, in order.
pub open spec fn path_text(nodes: Seq<Node>, path: Seq<usize>) -> Seq<char>
    decreases path.len(),
{
    if path.len() == 0 {
        Seq::empty()
    } else {
        path_text(nodes, path.drop_last()) + node_text(nodes, path.last())
    }
}

/// The usage line of one path: a line break, the keyword, the path's text.
pub open spec fn usage_line(nodes: Seq<Node>, key: Seq<char>, path: Seq<usize>) -> Seq<char> {
    seq!['\n'] + key + path_text(nodes, path)
}

/// One usage line per path, in the order of the paths.
pub open spec fn usage_lines(nodes: Seq<Node>, key: Seq<char>, paths: Seq<Seq<usize>>) -> Seq<
    Seq<char>,
> {
    paths.map_values(|p: Seq<usize>| usage_line(nodes, key, p))
}

/// Whether node `c` is on the path `p`.
fn on_path(p: &Vec<usize>, c: usize) -> (r: bool)
    ensures
        r == p@.contains(c),
{
    let mut i: usize = 0;
    while i < p.len()
        invariant
            i <= p@.len(),
            forall|j: int| 0 <= j < i ==> p@[j] != c,
        decreases p@.len() - i,
    {
        if p[i] == c {
            return true;
        }
        i = i + 1;
    }
    false
}

/// A copy of the path `p`.
pub(crate) fn copy_path(p: &Vec<usize>) -> (r: Vec<usize>)
    ensures
        r@ == p@,
{
    let mut r: Vec<usize> = Vec::new();
    let mut i: usize = 0;
    while i < p.len()
        invariant
            i <= p@.len(),
            r@ == p@.subrange(0, i as int),
        decreases p@.len() - i,
    {
        r.push(p[i]);
        i = i + 1;
    }
    assert(r@ =~= p@);
    r
}

impl CommandTree {
    /// All root-to-leaf paths of the tree, in enumeration order.
    pub open spec fn paths(&self) -> Seq<Seq<usize>> {
        paths_below(self.nodes@, Seq::empty(), self.children@, 0)
    }

    /// Appends to `out` the paths below `cs[k..]`, each after `prefix`.
    fn collect_paths(
        &self,
        prefix: &mut Vec<usize>,
        cs: &Vec<usize>,
        k: usize,
        out: &mut Vec<Vec<usize>>,
    )
        requires
            k <= cs@.len(),
        ensures
            views(final(out)@) == views(old(out)@) + paths_below(
                self.nodes@,
                old(prefix)@,
                cs@,
                k as int,
            ),
            final(prefix)@ == old(prefix)@,
        decreases self.nodes@.len() - prefix@.len(), cs@.len() - k,
    {
        if k >= cs.len() {
            assert(views(out@) =~= views(out@) + Seq::<Seq<usize>>::empty());
            return;
        }
        let c = cs[k];
        let ghost out0 = views(out@);
        let ghost prefix0 = prefix@;
        if c < self.nodes.len() && !on_path(prefix, c) && prefix.len() < self.nodes.len() {
            prefix.push(c);
            if matches!(self.nodes[c].node_type, NodeType::ExecuteLeaf { .. }) {
                out.push(copy_path(prefix));
                assert(views(out@) =~= out0.push(prefix@));
            } else {
                self.collect_paths(prefix, &self.nodes[c].children, 0, out);
            }
            prefix.pop();
            assert(prefix@ =~= prefix0);
        }
        self.collect_paths(prefix, cs, k + 1, out);
        assert(views(out@) =~= out0 + paths_below(self.nodes@, prefix0, cs@, k as int));
    }

    /// Enumerates the root-to-leaf paths, depth first, earlier-declared
    /// children first. The order is the order in which dispatch tries them.
    pub fn iter_paths(&self) -> (r: Vec<Vec<usize>>)
        ensures
            views(r@) == self.paths(),
    {
        let mut out: Vec<Vec<usize>> = Vec::new();
        let mut prefix: Vec<usize> = Vec::new();
        self.collect_paths(&mut prefix, &self.children, 0, &mut out);
        assert(views(out@) =~= Seq::<Seq<usize>>::empty() + self.paths());
        out
    }

    /// Appends the usage text of node `i` to `s`.
    fn push_node_text(&self, s: &mut String, i: usize)
        ensures
            final(s)@ == old(s)@ + node_text(self.nodes@, i),
    {
        if i < self.nodes.len() {
            match &self.nodes[i].node_type {
                NodeType::Literal { string } => {
                    proof {
                        reveal_strlit(" ");
                    }
                    s.append(" ");
                    s.append(string.as_str());
                    assert(s@ =~= old(s)@ + node_text(self.nodes@, i));
                },
                NodeType::Argument { name, .. } => {
                    proof {
                        reveal_strlit(" <");
                        reveal_strlit(">");
                    }
                    s.append(" <");
                    s.append(name.as_str());
                    s.append(">");
                    assert(s@ =~= old(s)@ + node_text(self.nodes@, i));
                },
                _ => {
                    assert(s@ =~= old(s)@ + node_text(self.nodes@, i));
                },
            }
        } else {
            assert(s@ =~= old(s)@ + node_text(self.nodes@, i));
        }
    }

    /// Renders the usage of the command `name`: for each path, in enumeration
    /// order, a line break, `name`, then each literal and each `<argument>`
    /// after a space.
    pub fn paths_formatted(&self, name: &str) -> (r: String)
        ensures
            r@ == usage_lines(self.nodes@, name@, self.paths()).flatten(),
    {
        let paths = self.iter_paths();
        let ghost ps = views(paths@);
        let mut s = String::new();
        let mut i: usize = 0;
        while i < paths.len()
            invariant
                ps == views(paths@),
                ps == self.paths(),
                i <= paths@.len(),
                s@ == usage_lines(self.nodes@, name@, ps.subrange(0, i as int)).flatten(),
            decreases paths@.len() - i,
        {
            let path = &paths[i];
            let ghost before = s@;
            proof {
                reveal_strlit("\n");
            }
            s.append("\n");
            s.append(name);
            let mut j: usize = 0;
            while j < path.len()
                invariant
                    j <= path@.len(),
                    s@ == before + seq!['\n'] + name@ + path_text(self.nodes@, path@.subrange(0, j as int)),
                decreases path@.len() - j,
            {
                self.push_node_text(&mut s, path[j]);
                proof {
                    let q = path@.subrange(0, j + 1);
                    assert(q.drop_last() =~= path@.subrange(0, j as int));
                }
                j = j + 1;
            }
            proof {
                assert(path@.subrange(0, j as int) =~= path@);
                assert(ps[i as int] == path@);
                let done = usage_lines(self.nodes@, name@, ps.subrange(0, i as int));
                let next = usage_lines(self.nodes@, name@, ps.subrange(0, i + 1));
                assert(next =~= done.push(usage_line(self.nodes@, name@, path@)));
                done.lemma_flatten_push(usage_line(self.nodes@, name@, path@));
                assert(s@ =~= done.flatten() + usage_line(self.nodes@, name@, path@));
            }
            i = i + 1;
        }
        assert(ps.subrange(0, i as int) =~= ps);
        s
    }
}

} // verus!
