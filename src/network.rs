//! A network of named nodes, each leading to a left and a right node, walked
//! by a list of left and right turns.
use vstd::prelude::*;
use vstd::string::StrSliceExecFns;
use crate::matching::{capture_all, groups_view, regex_captures};
use crate::parsing::chars_of;

verus! {

/// The turns to take, in order and over again, and each node with the nodes
/// it leads to on the left and on the right, as `(name, left, right)`. No
/// name stands for two nodes.
pub struct Network {
    pub directions: Vec<char>,
    pub nodes: Vec<(String, String, String)>,
    pub start_list: Vec<String>,
}

/// Makes a network from the text of the named file.
pub struct NetworkBuilder {
    pub network_file_name: String,
}

impl Network {
    /// No two nodes share a name.
    pub open spec fn well_formed(&self) -> bool {
        forall|i: int, j: int|
            0 <= i < self.nodes@.len() && 0 <= j < self.nodes@.len() && (#[trigger] self.nodes@[i]).0@
                == (#[trigger] self.nodes@[j]).0@ ==> i == j
    }

    /// Some node is named `name`.
    pub open spec fn has_node(&self, name: Seq<char>) -> bool {
        exists|i: int| 0 <= i < self.nodes@.len() && (#[trigger] self.nodes@[i]).0@ == name
    }

    /// Where the node named `name` sits in the list.
    pub open spec fn node_index(&self, name: Seq<char>) -> int {
        choose|i: int| 0 <= i < self.nodes@.len() && (#[trigger] self.nodes@[i]).0@ == name
    }

    /// The node that the node named `name` leads to on the left.
    pub open spec fn left_of(&self, name: Seq<char>) -> Seq<char> {
        self.nodes@[self.node_index(name)].1@
    }

    /// The node that the node named `name` leads to on the right.
    pub open spec fn right_of(&self, name: Seq<char>) -> Seq<char> {
        self.nodes@[self.node_index(name)].2@
    }

    /// The node reached from the node named `name` by the turn `turn`.
    pub open spec fn next_of(&self, name: Seq<char>, turn: char) -> Seq<char> {
        if turn == 'L' {
            self.left_of(name)
        } else {
            self.right_of(name)
        }
    }

    pub fn builder(fname: String) -> (b: NetworkBuilder)
        ensures
            b.network_file_name == fname,
    {
        NetworkBuilder::new(fname)
    }

    /// Where the node of that name sits in the list.
    fn position_of(&self, cur_node: &String) -> (i: usize)
        requires
            self.well_formed(),
            self.has_node(cur_node@),
        ensures
            i < self.nodes@.len(),
            i == self.node_index(cur_node@),
    {
        let mut i: usize = 0;
        while i < self.nodes.len()
            invariant
                i <= self.nodes@.len(),
                self.well_formed(),
                self.has_node(cur_node@),
                forall|j: int| 0 <= j < i ==> (#[trigger] self.nodes@[j]).0@ != cur_node@,
            decreases self.nodes@.len() - i,
        {
            if self.nodes[i].0 == *cur_node {
                proof {
                    let k = self.node_index(cur_node@);
                    assert(self.nodes@[k].0@ == cur_node@);
                }
                return i;
            }
            i = i + 1;
        }
        proof {
            let j = choose|j: int| 0 <= j < self.nodes@.len() && (#[trigger] self.nodes@[j]).0@ == cur_node@;
            assert(self.nodes@[j].0@ != cur_node@);
        }
        0
    }

    /// Whether some node is named `name`.
    pub fn contains_node(&self, name: &String) -> (r: bool)
        ensures
            r == self.has_node(name@),
    {
        match find_node(&self.nodes, name) {
            Some(i) => {
                assert(self.nodes@[i as int].0@ == name@);
                true
            },
            None => false,
        }
    }

    /// The node reached by turning left from `cur_node`.
    pub fn get_left_node(&self, cur_node: &String) -> (r: String)
        requires
            self.well_formed(),
            self.has_node(cur_node@),
        ensures
            r@ == self.left_of(cur_node@),
    {
        let i = self.position_of(cur_node);
        self.nodes[i].1.clone()
    }

    /// The node reached by turning right from `cur_node`.
    pub fn get_right_node(&self, cur_node: &String) -> (r: String)
        requires
            self.well_formed(),
            self.has_node(cur_node@),
        ensures
            r@ == self.right_of(cur_node@),
    {
        let i = self.position_of(cur_node);
        self.nodes[i].2.clone()
    }
}

/// The node reached from `cur_node` by the turn at `direction_idx`.
pub fn get_next_node(direction_idx: usize, cur_node: &String, network: &Network) -> (r: String)
    requires
        network.well_formed(),
        network.has_node(cur_node@),
        direction_idx < network.directions@.len(),
        network.directions@[direction_idx as int] == 'L' || network.directions@[direction_idx as int]
            == 'R',
    ensures
        r@ == network.next_of(cur_node@, network.directions@[direction_idx as int]),
{
    if network.directions[direction_idx] == 'L' {
        network.get_left_node(cur_node)
    } else {
        network.get_right_node(cur_node)
    }
}

/// The name ends in `c`.
pub open spec fn ends_in(name: Seq<char>, c: char) -> bool {
    name.len() > 0 && name.last() == c
}

/// Whether the string ends in `c`.
fn ends_with_char(s: &String, c: char) -> (r: bool)
    ensures
        r == ends_in(s@, c),
{
    let n = s.as_str().unicode_len();
    n > 0 && s.as_str().get_char(n - 1) == c
}

/// Whether every node of the list is an end node, one whose name ends in `Z`.
pub fn check_termination(nodes: &Vec<String>) -> (r: bool)
    ensures
        r == forall|i: int| 0 <= i < nodes@.len() ==> ends_in(#[trigger] nodes@[i]@, 'Z'),
{
    let mut i: usize = 0;
    while i < nodes.len()
        invariant
            i <= nodes@.len(),
            forall|j: int| 0 <= j < i ==> ends_in(#[trigger] nodes@[j]@, 'Z'),
        decreases nodes@.len() - i,
    {
        if !ends_with_char(&nodes[i], 'Z') {
            return false;
        }
        i = i + 1;
    }
    true
}

/// Moves every node of `nodes` one turn on, by the turn at `direction_idx`.
pub fn step_all(direction_idx: usize, nodes: &Vec<String>, network: &Network) -> (r: Vec<String>)
    requires
        network.well_formed(),
        forall|i: int| 0 <= i < nodes@.len() ==> network.has_node(#[trigger] nodes@[i]@),
        direction_idx < network.directions@.len(),
        network.directions@[direction_idx as int] == 'L' || network.directions@[direction_idx as int]
            == 'R',
    ensures
        r@.len() == nodes@.len(),
        forall|i: int|
            0 <= i < nodes@.len() ==> #[trigger] r@[i]@ == network.next_of(
                nodes@[i]@,
                network.directions@[direction_idx as int],
            ),
{
    let mut out: Vec<String> = Vec::new();
    let mut i: usize = 0;
    while i < nodes.len()
        invariant
            i <= nodes@.len(),
            out@.len() == i,
            network.well_formed(),
            forall|k: int| 0 <= k < nodes@.len() ==> network.has_node(#[trigger] nodes@[k]@),
            direction_idx < network.directions@.len(),
            network.directions@[direction_idx as int] == 'L' || network.directions@[direction_idx as int]
                == 'R',
            forall|k: int|
                0 <= k < i ==> #[trigger] out@[k]@ == network.next_of(
                    nodes@[k]@,
                    network.directions@[direction_idx as int],
                ),
        decreases nodes@.len() - i,
    {
        let next = get_next_node(direction_idx, &nodes[i], network);
        out.push(next);
        i = i + 1;
    }
    out
}

/// A node line `AAA = (BBB, CCC)`: the node, then its left and its right
/// node, each of letters and digits.
pub const NODE_PATTERN: &'static str = r"([[[:alpha:]]\d]+)\s=\s\x28([[[:alpha:]]\d]+),\s([[[:alpha:]]\d]+)\x29";

/// A node with its left and right nodes, as text.
pub type NodeText = (Seq<char>, Seq<char>, Seq<char>);

/// The node, left and right groups of a match, if all three took part.
pub open spec fn triple_of(groups: Seq<Option<Seq<char>>>) -> Option<NodeText> {
    if groups.len() >= 4 && groups[1] is Some && groups[2] is Some && groups[3] is Some {
        Some((groups[1]->0, groups[2]->0, groups[3]->0))
    } else {
        None
    }
}

/// The nodes of the matches, if every match has all three groups.
pub open spec fn triples_of(caps: Seq<Seq<Option<Seq<char>>>>) -> Option<Seq<NodeText>>
    decreases caps.len(),
{
    if caps.len() == 0 {
        Some(Seq::empty())
    } else {
        match (triples_of(caps.drop_last()), triple_of(caps.last())) {
            (Some(ts), Some(t)) => Some(ts.push(t)),
            _ => None,
        }
    }
}

/// The nodes of every line, in order, if every match has all three groups.
pub open spec fn node_lines(lines: Seq<Seq<char>>) -> Option<Seq<NodeText>>
    decreases lines.len(),
{
    if lines.len() == 0 {
        Some(Seq::empty())
    } else {
        match (node_lines(lines.drop_last()), triples_of(regex_captures(NODE_PATTERN@, lines.last()))) {
            (Some(a), Some(b)) => Some(a + b),
            _ => None,
        }
    }
}

/// `nodes` after giving the node `t.0` the left and right nodes of `t`:
/// a node already there keeps its place.
pub open spec fn put_node(nodes: Seq<NodeText>, t: NodeText) -> Seq<NodeText> {
    if exists|i: int| 0 <= i < nodes.len() && (#[trigger] nodes[i]).0 == t.0 {
        nodes.update(choose|i: int| 0 <= i < nodes.len() && (#[trigger] nodes[i]).0 == t.0, t)
    } else {
        nodes.push(t)
    }
}

/// The nodes after putting each of `ts` in turn.
pub open spec fn put_all(nodes: Seq<NodeText>, ts: Seq<NodeText>) -> Seq<NodeText>
    decreases ts.len(),
{
    if ts.len() == 0 {
        nodes
    } else {
        put_node(put_all(nodes, ts.drop_last()), ts.last())
    }
}

/// The nodes of a network as text.
pub open spec fn nodes_text(nodes: Seq<(String, String, String)>) -> Seq<NodeText> {
    nodes.map_values(|n: (String, String, String)| (n.0@, n.1@, n.2@))
}

/// The names among `ts` that end in `A`, in order.
pub open spec fn start_names(ts: Seq<NodeText>) -> Seq<Seq<char>>
    decreases ts.len(),
{
    if ts.len() == 0 {
        Seq::empty()
    } else if ends_in(ts.last().0, 'A') {
        start_names(ts.drop_last()).push(ts.last().0)
    } else {
        start_names(ts.drop_last())
    }
}

/// Where the node named `name` sits in `nodes`, if it is there.
fn find_node(nodes: &Vec<(String, String, String)>, name: &String) -> (r: Option<usize>)
    ensures
        r matches Some(i) ==> i < nodes@.len() && nodes@[i as int].0@ == name@,
        r is None ==> forall|i: int| 0 <= i < nodes@.len() ==> (#[trigger] nodes@[i]).0@ != name@,
{
    let mut i: usize = 0;
    while i < nodes.len()
        invariant
            i <= nodes@.len(),
            forall|j: int| 0 <= j < i ==> (#[trigger] nodes@[j]).0@ != name@,
        decreases nodes@.len() - i,
    {
        if nodes[i].0 == *name {
            return Some(i);
        }
        i = i + 1;
    }
    None
}

/// Reads a network: the turns from the first line, and a node from each
/// match of the node pattern in any line. A node named twice takes the
/// later turns; the start list names each node ending in `A`, in order.
/// `None` where the pattern does not compile or a match lacks a group.
pub fn network_from_lines(lines: &Vec<String>) -> (net: Option<Network>)
    requires
        lines@.len() > 0,
    ensures
        net matches Some(n) ==> ({
            let ts = node_lines(lines@.map_values(|l: String| l@));
            &&& ts is Some
            &&& n.directions@ == lines@[0]@
            &&& n.well_formed()
            &&& nodes_text(n.nodes@) == put_all(Seq::empty(), ts->0)
            &&& n.start_list@.map_values(|s: String| s@) == start_names(ts->0)
        }),
{
    let directions = chars_of(lines[0].as_str());
    let ghost views = lines@.map_values(|l: String| l@);
    let mut nodes: Vec<(String, String, String)> = Vec::new();
    let mut start_list: Vec<String> = Vec::new();
    let ghost mut seen: Seq<NodeText> = Seq::empty();
    let mut li: usize = 0;
    while li < lines.len()
        invariant
            li <= lines@.len(),
            views == lines@.map_values(|l: String| l@),
            node_lines(views.take(li as int)) == Some(seen),
            nodes_text(nodes@) == put_all(Seq::empty(), seen),
            start_list@.map_values(|s: String| s@) == start_names(seen),
            forall|i: int, j: int|
                0 <= i < nodes@.len() && 0 <= j < nodes@.len() && (#[trigger] nodes@[i]).0@
                    == (#[trigger] nodes@[j]).0@ ==> i == j,
        decreases lines@.len() - li,
    {
        let caps = capture_all(NODE_PATTERN, lines[li].as_str())?;
        let ghost cviews = groups_view(caps@);
        let ghost before = seen;
        let mut k: usize = 0;
        while k < caps.len()
            invariant
                k <= caps@.len(),
                cviews == groups_view(caps@),
                triples_of(cviews.take(k as int)) is Some,
                seen == before + triples_of(cviews.take(k as int))->0,
                nodes_text(nodes@) == put_all(Seq::empty(), seen),
                start_list@.map_values(|s: String| s@) == start_names(seen),
                forall|i: int, j: int|
                    0 <= i < nodes@.len() && 0 <= j < nodes@.len() && (#[trigger] nodes@[i]).0@
                        == (#[trigger] nodes@[j]).0@ ==> i == j,
            decreases caps@.len() - k,
        {
            let groups = &caps[k];
            if groups.len() < 4 {
                return None;
            }
            let (node, left, right) = match (&groups[1], &groups[2], &groups[3]) {
                (Some(a), Some(b), Some(c)) => (a.clone(), b.clone(), c.clone()),
                _ => {
                    return None;
                },
            };
            let ghost t: NodeText = (node@, left@, right@);
            assert(triple_of(cviews[k as int]) == Some(t));
            assert(cviews.take(k as int + 1).drop_last() =~= cviews.take(k as int));
            let ghost old_nodes = nodes_text(nodes@);
            if ends_with_char(&node, 'A') {
                start_list.push(node.clone());
                assert(start_list@.map_values(|s: String| s@) =~= start_names(seen).push(node@));
            }
            match find_node(&nodes, &node) {
                Some(i) => {
                    proof {
                        assert(old_nodes[i as int].0 == t.0);
                        let c = choose|j: int| 0 <= j < old_nodes.len() && (#[trigger] old_nodes[j]).0 == t.0;
                        assert(old_nodes[c].0 == nodes@[c].0@);
                        assert(nodes@[c].0@ == nodes@[i as int].0@);
                        assert(put_node(old_nodes, t) == old_nodes.update(i as int, t));
                    }
                    let ghost names_before = nodes@;
                    nodes.set(i, (node, left, right));
                    assert(nodes_text(nodes@) =~= old_nodes.update(i as int, t));
                    assert forall|a: int, b: int|
                        0 <= a < nodes@.len() && 0 <= b < nodes@.len() && (#[trigger] nodes@[a]).0@
                            == (#[trigger] nodes@[b]).0@ implies a == b by {
                        assert(nodes@[a].0@ == names_before[a].0@);
                        assert(nodes@[b].0@ == names_before[b].0@);
                    }
                },
                None => {
                    proof {
                        if exists|j: int| 0 <= j < old_nodes.len() && (#[trigger] old_nodes[j]).0 == t.0 {
                            let c = choose|j: int| 0 <= j < old_nodes.len() && (#[trigger] old_nodes[j]).0 == t.0;
                            assert(nodes@[c].0@ == node@);
                        }
                    }
                    let ghost names_before = nodes@;
                    nodes.push((node, left, right));
                    assert(nodes_text(nodes@) =~= old_nodes.push(t));
                    assert forall|a: int, b: int|
                        0 <= a < nodes@.len() && 0 <= b < nodes@.len() && (#[trigger] nodes@[a]).0@
                            == (#[trigger] nodes@[b]).0@ implies a == b by {
                        if a < names_before.len() {
                            assert(nodes@[a] == names_before[a]);
                        }
                        if b < names_before.len() {
                            assert(nodes@[b] == names_before[b]);
                        }
                    }
                },
            }
            proof {
                assert(seen.push(t).drop_last() =~= seen);
                assert(before + triples_of(cviews.take(k as int + 1))->0 =~= seen.push(t));
                seen = seen.push(t);
            }
            k = k + 1;
        }
        proof {
            assert(cviews.take(caps@.len() as int) =~= cviews);
            assert(views.take(li as int + 1).drop_last() =~= views.take(li as int));
            assert(views.take(li as int + 1).last() == lines@[li as int]@);
        }
        li = li + 1;
    }
    assert(views.take(lines@.len() as int) =~= views);
    Some(Network { directions, nodes, start_list })
}

impl NetworkBuilder {
    pub fn new(network_fname: String) -> (b: NetworkBuilder)
        ensures
            b.network_file_name == network_fname,
    {
        NetworkBuilder { network_file_name: network_fname }
    }
}

} // verus!
