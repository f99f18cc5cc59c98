use vstd::prelude::*;
use crate::text::{
    byte_slice, chars_of, decimal, decimal_string, lines, lines_str, slice_bytes, str_views,
};

verus! {

/// The nodes of the network, each at the place of its number.
#[derive(Debug, Default)]
pub struct ArenaTree {
    pub arena: Vec<Node>,
}

/// A node of the network: its number, its name, and the numbers of the nodes
/// to its left and to its right once they are known.
#[derive(Debug)]
pub struct Node {
    pub idx: usize,
    pub name: String,
    pub left: Option<usize>,
    pub right: Option<usize>,
}

/// One line of the network: the name of a node and the names of the nodes to
/// its left and to its right.
pub struct Fork {
    pub name: Seq<char>,
    pub left: Seq<char>,
    pub right: Seq<char>,
}

/// Whether `line` describes a fork: its bytes up to the third, from the
/// eighth up to the tenth, and from the thirteenth up to the fifteenth each
/// hold whole characters.
pub open spec fn is_fork(line: Seq<char>) -> bool {
    byte_slice(line, 0, 3) is Some && byte_slice(line, 7, 10) is Some && byte_slice(line, 12, 15)
        is Some
}

/// The fork that `line` describes: the name of the node in its first three
/// bytes, the name of the left node in the three from the eighth on, and the
/// name of the right node in the three from the thirteenth on.
pub open spec fn fork_of(line: Seq<char>) -> Fork {
    Fork {
        name: byte_slice(line, 0, 3)->0,
        left: byte_slice(line, 7, 10)->0,
        right: byte_slice(line, 12, 15)->0,
    }
}

/// `lines` without its first two lines.
pub open spec fn after_head(lines: Seq<Seq<char>>) -> Seq<Seq<char>> {
    if lines.len() >= 2 {
        lines.skip(2)
    } else {
        Seq::empty()
    }
}

/// The forks that `lines` describe, if each of them describes one.
pub open spec fn forks_of(lines: Seq<Seq<char>>) -> Option<Seq<Fork>> {
    if forall|i: int| 0 <= i < lines.len() ==> #[trigger] is_fork(lines[i]) {
        Some(Seq::new(lines.len(), |i: int| fork_of(lines[i])))
    } else {
        None
    }
}

/// The last of the first `n` forks that is named `name`.
pub open spec fn fork_named(forks: Seq<Fork>, name: Seq<char>, n: int) -> Option<Fork>
    decreases n,
{
    if n <= 0 {
        None
    } else if forks[n - 1].name == name {
        Some(forks[n - 1])
    } else {
        fork_named(forks, name, n - 1)
    }
}

/// The number of steps from the node `node`, reached after `count` steps, to
/// the node `ZZZ`. Each step takes the next instruction, the instructions
/// starting over when they are used up, and goes to the left node for an `L`
/// and to the right node for an `R`. There is none if the count of steps does
/// not fit in 32 bits, a node on the way has no fork, there is no instruction,
/// or an instruction is neither `L` nor `R`.
pub open spec fn steps_from(
    forks: Seq<Fork>,
    instructions: Seq<char>,
    node: Seq<char>,
    count: int,
) -> Option<i32>
    decreases i32::MAX - count,
{
    if node == "ZZZ"@ {
        Some(count as i32)
    } else if count < 0 || count >= i32::MAX || instructions.len() == 0 {
        None
    } else {
        match fork_named(forks, node, forks.len() as int) {
            Some(fork) => {
                let turn = instructions[count % (instructions.len() as int)];
                if turn == 'L' {
                    steps_from(forks, instructions, fork.left, count + 1)
                } else if turn == 'R' {
                    steps_from(forks, instructions, fork.right, count + 1)
                } else {
                    None
                }
            },
            None => None,
        }
    }
}

/// The answer to the puzzle `input`: the number of steps from the node `AAA`
/// to the node `ZZZ`. The instructions are the first line; the forks are the
/// lines from the third on.
pub open spec fn answer(input: Seq<char>) -> Option<i32> {
    let all = lines(input);
    if all.len() == 0 {
        None
    } else {
        match forks_of(after_head(all)) {
            Some(forks) => steps_from(forks, all[0], "AAA"@, 0),
            None => None,
        }
    }
}

/// The names of the nodes of `arena`.
pub open spec fn names(arena: Seq<Node>) -> Seq<Seq<char>> {
    Seq::new(arena.len(), |i: int| arena[i].name@)
}

/// The place of the first node named `name` among the first `n` of `arena`.
pub open spec fn place_of(arena: Seq<Node>, name: Seq<char>, n: int) -> Option<int>
    decreases n,
{
    if n <= 0 {
        None
    } else {
        match place_of(arena, name, n - 1) {
            Some(i) => Some(i),
            None => if arena[n - 1].name@ == name {
                Some(n - 1)
            } else {
                None
            },
        }
    }
}

/// Whether the nodes of `arena` are well numbered: each stands at the place of
/// its number, and no two have the same name.
pub open spec fn well_numbered(arena: Seq<Node>) -> bool {
    &&& forall|i: int| 0 <= i < arena.len() ==> (#[trigger] arena[i]).idx == i
    &&& forall|i: int, j: int|
        0 <= i < j < arena.len() ==> (#[trigger] arena[i]).name@ != (#[trigger] arena[j]).name@
}

/// Whether the nodes of `arena` know their neighbours as the first `n` forks
/// tell: a node with a fork knows the two nodes that its last fork names, and
/// a node without a fork knows none.
pub open spec fn linked(arena: Seq<Node>, forks: Seq<Fork>, n: int) -> bool {
    forall|i: int|
        0 <= i < arena.len() ==> match fork_named(forks, (#[trigger] arena[i]).name@, n) {
            Some(fork) => {
                &&& arena[i].left is Some
                &&& arena[i].right is Some
                &&& arena[i].left->0 < arena.len()
                &&& arena[i].right->0 < arena.len()
                &&& arena[arena[i].left->0 as int].name@ == fork.left
                &&& arena[arena[i].right->0 as int].name@ == fork.right
            },
            None => arena[i].left is None && arena[i].right is None,
        }
}

/// The first node of a name stands within the nodes and has that name.
pub proof fn lemma_place_of(arena: Seq<Node>, name: Seq<char>, n: int)
    requires
        0 <= n <= arena.len(),
    ensures
        match place_of(arena, name, n) {
            Some(i) => 0 <= i < n && arena[i].name@ == name,
            None => forall|i: int| 0 <= i < n ==> (#[trigger] arena[i]).name@ != name,
        },
    decreases n,
{
    if n > 0 {
        lemma_place_of(arena, name, n - 1);
    }
}

impl Node {
    /// A node that knows none of its neighbours.
    pub fn new(idx: usize, name: &str) -> (node: Node)
        ensures
            node.idx == idx,
            node.name@ == name@,
            node.left is None,
            node.right is None,
    {
        Self { idx, name: String::from_str(name), left: None, right: None }
    }
}

impl ArenaTree {
    /// The number of the node named `name`, which is added if there is none.
    pub fn node(&mut self, name: &str) -> (idx: usize)
        requires
            well_numbered(old(self).arena@),
        ensures
            well_numbered(final(self).arena@),
            idx < final(self).arena.len(),
            final(self).arena[idx as int].name@ == name@,
            match place_of(old(self).arena@, name@, old(self).arena.len() as int) {
                Some(i) => idx == i && final(self).arena@ == old(self).arena@,
                None => {
                    &&& idx == old(self).arena.len()
                    &&& final(self).arena@.len() == old(self).arena.len() + 1
                    &&& final(self).arena@.drop_last() == old(self).arena@
                    &&& final(self).arena@.last().left is None
                    &&& final(self).arena@.last().right is None
                },
            },
    {
        let wanted = String::from_str(name);
        let mut i: usize = 0;
        while i < self.arena.len()
            invariant
                i <= self.arena.len(),
                self.arena@ == old(self).arena@,
                wanted@ == name@,
                well_numbered(self.arena@),
                place_of(self.arena@, name@, i as int) is None,
            decreases self.arena.len() - i,
        {
            if self.arena[i].name == wanted {
                proof {
                    lemma_place_kept(self.arena@, name@, i + 1);
                }
                return self.arena[i].idx;
            }
            i += 1;
        }
        let idx: usize = self.arena.len();
        let ghost before = self.arena@;
        proof {
            lemma_place_of(before, name@, before.len() as int);
        }
        self.arena.push(Node::new(idx, name));
        assert(self.arena@.drop_last() =~= before);
        assert forall|a: int, b: int| 0 <= a < b < self.arena@.len() implies (
        #[trigger] self.arena@[a]).name@ != (#[trigger] self.arena@[b]).name@ by {
            if b < before.len() {
                assert(self.arena@[a] == before[a]);
                assert(self.arena@[b] == before[b]);
            } else {
                assert(self.arena@[a] == before[a]);
            }
        }
        idx
    }
}

/// A node found among the first `k` nodes is the first of its name.
pub proof fn lemma_place_kept(arena: Seq<Node>, name: Seq<char>, k: int)
    requires
        0 <= k <= arena.len(),
        place_of(arena, name, k) is Some,
    ensures
        place_of(arena, name, arena.len() as int) == place_of(arena, name, k),
    decreases arena.len() - k,
{
    if k < arena.len() {
        lemma_place_kept(arena, name, k + 1);
    }
}


/// Whether each of the first `n` forks is named like a node of `arena`.
pub open spec fn all_named(arena: Seq<Node>, forks: Seq<Fork>, n: int) -> bool {
    forall|j: int|
        0 <= j < n ==> (#[trigger] place_of(arena, forks[j].name, arena.len() as int)) is Some
}

/// A name without a node among `arena` has no fork among the first `n`.
pub proof fn lemma_unnamed_has_no_fork(arena: Seq<Node>, forks: Seq<Fork>, name: Seq<char>, n: int)
    requires
        0 <= n <= forks.len(),
        all_named(arena, forks, n),
        place_of(arena, name, arena.len() as int) is None,
    ensures
        fork_named(forks, name, n) is None,
    decreases n,
{
    if n > 0 {
        lemma_place_of(arena, name, arena.len() as int);
        lemma_place_of(arena, forks[n - 1].name, arena.len() as int);
        assert(place_of(arena, forks[n - 1].name, arena.len() as int) is Some);
        assert forall|j: int| 0 <= j < n - 1 implies (#[trigger] place_of(
            arena,
            forks[j].name,
            arena.len() as int,
        )) is Some by {}
        lemma_unnamed_has_no_fork(arena, forks, name, n - 1);
    }
}

/// Adding a node by `ArenaTree::node` keeps what the nodes know of their
/// neighbours and the names of the forks.
pub proof fn lemma_node_keeps(
    before: Seq<Node>,
    after: Seq<Node>,
    forks: Seq<Fork>,
    name: Seq<char>,
    n: int,
)
    requires
        0 <= n <= forks.len(),
        well_numbered(before),
        well_numbered(after),
        linked(before, forks, n),
        all_named(before, forks, n),
        match place_of(before, name, before.len() as int) {
            Some(i) => after == before,
            None => {
                &&& after.len() == before.len() + 1
                &&& after.drop_last() == before
                &&& after.last().name@ == name
                &&& after.last().left is None
                &&& after.last().right is None
            },
        },
    ensures
        linked(after, forks, n),
        all_named(after, forks, n),
{
    if place_of(before, name, before.len() as int) is None {
        lemma_unnamed_has_no_fork(before, forks, name, n);
        assert forall|i: int| 0 <= i < before.len() implies after[i] == before[i] by {
            assert(after.drop_last()[i] == after[i]);
        }
        assert forall|i: int| 0 <= i < after.len() implies match fork_named(
            forks,
            (#[trigger] after[i]).name@,
            n,
        ) {
            Some(fork) => {
                &&& after[i].left is Some
                &&& after[i].right is Some
                &&& after[i].left->0 < after.len()
                &&& after[i].right->0 < after.len()
                &&& after[after[i].left->0 as int].name@ == fork.left
                &&& after[after[i].right->0 as int].name@ == fork.right
            },
            None => after[i].left is None && after[i].right is None,
        } by {
            if i < before.len() {
                assert(after[i] == before[i]);
                if fork_named(forks, before[i].name@, n) is Some {
                    assert(after[before[i].left->0 as int] == before[before[i].left->0 as int]);
                    assert(after[before[i].right->0 as int] == before[before[i].right->0 as int]);
                }
            }
        }
        assert forall|j: int| 0 <= j < n implies (#[trigger] place_of(
            after,
            forks[j].name,
            after.len() as int,
        )) is Some by {
            assert(place_of(before, forks[j].name, before.len() as int) is Some);
            lemma_place_of(before, forks[j].name, before.len() as int);
            let i = place_of(before, forks[j].name, before.len() as int)->0;
            assert(after[i] == before[i]);
            lemma_place_of(after, forks[j].name, after.len() as int);
        }
    }
}

/// Reads the fork that `line` describes, if it describes one: the names of
/// the node, of its left and of its right neighbour.
fn read_fork<'a>(line: &'a str) -> (found: Option<(&'a str, &'a str, &'a str)>)
    ensures
        found is Some <==> is_fork(line@),
        match found {
            Some((name, left, right)) => {
                &&& name@ == fork_of(line@).name
                &&& left@ == fork_of(line@).left
                &&& right@ == fork_of(line@).right
            },
            None => true,
        },
{
    match (slice_bytes(line, 0, 3), slice_bytes(line, 7, 10), slice_bytes(line, 12, 15)) {
        (Some(name), Some(left), Some(right)) => Some((name, left, right)),
        _ => None,
    }
}

/// Setting the neighbours of the node of fork `k`, once the fork's three nodes
/// are there, makes the nodes know their neighbours as the first `k + 1` forks
/// tell.
pub proof fn lemma_link(
    before: Seq<Node>,
    after: Seq<Node>,
    forks: Seq<Fork>,
    k: int,
    node: int,
    left: int,
    right: int,
)
    requires
        0 <= k < forks.len(),
        well_numbered(before),
        linked(before, forks, k),
        all_named(before, forks, k),
        0 <= node < before.len(),
        0 <= left < before.len(),
        0 <= right < before.len(),
        before[node].name@ == forks[k].name,
        before[left].name@ == forks[k].left,
        before[right].name@ == forks[k].right,
        after.len() == before.len(),
        forall|i: int| 0 <= i < before.len() && i != node ==> after[i] == before[i],
        after[node].name == before[node].name,
        after[node].idx == before[node].idx,
        after[node].left == Some(left as usize),
        after[node].right == Some(right as usize),
    ensures
        well_numbered(after),
        linked(after, forks, k + 1),
        all_named(after, forks, k + 1),
{
    assert forall|i: int| 0 <= i < after.len() implies (#[trigger] after[i]).name
        == before[i].name && after[i].idx == before[i].idx by {}
    assert forall|i: int| 0 <= i < after.len() implies match fork_named(
        forks,
        (#[trigger] after[i]).name@,
        k + 1,
    ) {
        Some(fork) => {
            &&& after[i].left is Some
            &&& after[i].right is Some
            &&& after[i].left->0 < after.len()
            &&& after[i].right->0 < after.len()
            &&& after[after[i].left->0 as int].name@ == fork.left
            &&& after[after[i].right->0 as int].name@ == fork.right
        },
        None => after[i].left is None && after[i].right is None,
    } by {
        if i != node {
            assert(after[i] == before[i]);
            assert(before[i].name@ != before[node].name@);
            if fork_named(forks, before[i].name@, k) is Some {
                assert(after[before[i].left->0 as int].name
                    == before[before[i].left->0 as int].name);
                assert(after[before[i].right->0 as int].name
                    == before[before[i].right->0 as int].name);
            }
        } else {
            assert(after[left].name == before[left].name);
            assert(after[right].name == before[right].name);
        }
    }
    assert forall|j: int| 0 <= j < k + 1 implies (#[trigger] place_of(
        after,
        forks[j].name,
        after.len() as int,
    )) is Some by {
        lemma_place_of(after, forks[j].name, after.len() as int);
        if j < k {
            assert(place_of(before, forks[j].name, before.len() as int) is Some);
            lemma_place_of(before, forks[j].name, before.len() as int);
            let i = place_of(before, forks[j].name, before.len() as int)->0;
            assert(after[i].name == before[i].name);
        } else {
            assert(after[node].name@ == forks[k].name);
        }
    }
}

/// The forks that `lines` would describe if each of them described one.
pub open spec fn forks_in(lines: Seq<Seq<char>>) -> Seq<Fork> {
    Seq::new(lines.len(), |i: int| fork_of(lines[i]))
}

/// Adds fork `k` of `forks` to the nodes of `tree`: its three nodes are looked
/// up or added, and the first learns of the two others.
fn add_fork(
    tree: &mut ArenaTree,
    name: &str,
    left: &str,
    right: &str,
    Ghost(forks): Ghost<Seq<Fork>>,
    Ghost(k): Ghost<int>,
)
    requires
        0 <= k < forks.len(),
        forks[k].name == name@,
        forks[k].left == left@,
        forks[k].right == right@,
        well_numbered(old(tree).arena@),
        linked(old(tree).arena@, forks, k),
        all_named(old(tree).arena@, forks, k),
    ensures
        well_numbered(final(tree).arena@),
        linked(final(tree).arena@, forks, k + 1),
        all_named(final(tree).arena@, forks, k + 1),
{
    let ghost a0 = tree.arena@;
    let node = tree.node(name);
    proof {
        lemma_node_keeps(a0, tree.arena@, forks, name@, k);
    }
    let ghost a1 = tree.arena@;
    let right_node = tree.node(right);
    proof {
        lemma_node_keeps(a1, tree.arena@, forks, right@, k);
        lemma_place_of(a1, right@, a1.len() as int);
    }
    let ghost a2 = tree.arena@;
    assert(a2[node as int].name@ == name@);
    let left_node = tree.node(left);
    proof {
        lemma_node_keeps(a2, tree.arena@, forks, left@, k);
        lemma_place_of(a2, left@, a2.len() as int);
    }
    let ghost a3 = tree.arena@;
    assert(a3[node as int].name@ == name@);
    assert(a3[right_node as int].name@ == right@);
    tree.arena[node].right = Some(right_node);
    tree.arena[node].left = Some(left_node);
    proof {
        lemma_link(a3, tree.arena@, forks, k, node as int, left_node as int, right_node as int);
    }
}

/// Builds the nodes that the lines `all` describe from the third line on, if
/// each of these lines describes a fork.
fn build(all: &Vec<&str>) -> (found: Option<ArenaTree>)
    ensures
        found is Some <==> forks_of(after_head(str_views(all@))) is Some,
        found is Some ==> {
            let forks = forks_of(after_head(str_views(all@)))->0;
            &&& well_numbered(found->0.arena@)
            &&& linked(found->0.arena@, forks, forks.len() as int)
            &&& all_named(found->0.arena@, forks, forks.len() as int)
        },
{
    let ghost tail = after_head(str_views(all@));
    let ghost forks = forks_in(tail);
    let mut tree = ArenaTree { arena: Vec::new() };
    if all.len() < 2 {
        assert(forks =~= forks_of(tail)->0);
        return Some(tree);
    }
    let mut k: usize = 2;
    while k < all.len()
        invariant
            2 <= k <= all.len(),
            tail == after_head(str_views(all@)),
            forks == forks_in(tail),
            forall|i: int| 0 <= i < k - 2 ==> #[trigger] is_fork(tail[i]),
            well_numbered(tree.arena@),
            linked(tree.arena@, forks, k - 2),
            all_named(tree.arena@, forks, k - 2),
        decreases all.len() - k,
    {
        let line = all[k];
        assert(tail[k - 2] == line@);
        match read_fork(line) {
            Some((name, left, right)) => {
                add_fork(&mut tree, name, left, right, Ghost(forks), Ghost(k - 2));
            },
            None => {
                assert(!is_fork(tail[k - 2]));
                return None;
            },
        }
        k += 1;
    }
    assert(forks =~= forks_of(tail)->0);
    Some(tree)
}

/// Walks from the node `AAA` to the node `ZZZ` and counts the steps.
fn walk(tree: &mut ArenaTree, instructions: &Vec<char>, Ghost(forks): Ghost<Seq<Fork>>) -> (found:
    Option<i32>)
    requires
        well_numbered(old(tree).arena@),
        linked(old(tree).arena@, forks, forks.len() as int),
        all_named(old(tree).arena@, forks, forks.len() as int),
    ensures
        found == steps_from(forks, instructions@, "AAA"@, 0),
        found is Some ==> found->0 >= 0,
{
    let ghost n = forks.len() as int;
    let ghost b0 = tree.arena@;
    let mut node = tree.node("AAA");
    proof {
        lemma_node_keeps(b0, tree.arena@, forks, "AAA"@, n);
    }
    let ghost b1 = tree.arena@;
    let target_node = tree.node("ZZZ");
    proof {
        lemma_node_keeps(b1, tree.arena@, forks, "ZZZ"@, n);
        lemma_place_of(b1, "ZZZ"@, b1.len() as int);
    }
    let ghost arena = tree.arena@;
    let mut step_count: i32 = 0;
    let mut next_instruction: usize = 0;
    while node != target_node
        invariant
            tree.arena@ == arena,
            well_numbered(arena),
            linked(arena, forks, forks.len() as int),
            target_node < arena.len(),
            arena[target_node as int].name@ == "ZZZ"@,
            node < arena.len(),
            0 <= step_count,
            instructions.len() > 0 ==> next_instruction == step_count as int % (
            instructions.len() as int),
            steps_from(forks, instructions@, "AAA"@, 0) == steps_from(
                forks,
                instructions@,
                arena[node as int].name@,
                step_count as int,
            ),
        decreases i32::MAX - step_count,
    {
        assert(arena[node as int].name@ != "ZZZ"@);
        if step_count == i32::MAX {
            return None;
        }
        let (left, right) = match (tree.arena[node].left, tree.arena[node].right) {
            (Some(left), Some(right)) => (left, right),
            _ => {
                return None;
            },
        };
        if instructions.len() == 0 {
            return None;
        }
        let turn = instructions[next_instruction];
        if turn == 'L' {
            node = left;
        } else if turn == 'R' {
            node = right;
        } else {
            return None;
        }
        proof {
            let len = instructions.len() as int;
            let c = step_count as int;
            assert((c + 1) % len == (if c % len + 1 == len {
                0
            } else {
                c % len + 1
            })) by (nonlinear_arith)
                requires
                    len > 0,
                    c >= 0,
            ;
        }
        step_count += 1;
        next_instruction = if next_instruction + 1 == instructions.len() {
            0
        } else {
            next_instruction + 1
        };
    }
    Some(step_count)
}

/// Computes the answer to the puzzle `input`, if it has one.
pub fn solve(input: &str) -> (found: Option<i32>)
    ensures
        found == answer(input@),
        found is Some ==> found->0 >= 0,
{
    let all = lines_str(input);
    if all.len() == 0 {
        return None;
    }
    let instructions = chars_of(all[0]);
    assert(str_views(all@)[0] == all[0]@);
    match build(&all) {
        Some(tree) => {
            let mut tree = tree;
            walk(&mut tree, &instructions, Ghost(forks_of(after_head(lines(input@)))->0))
        },
        None => None,
    }
}

/// The answer to the puzzle `input`, in decimal digits.
pub fn process(input: &str) -> (out: String)
    requires
        answer(input@) is Some,
    ensures
        out@ == decimal(answer(input@)->0 as nat),
{
    decimal_string(solve(input).unwrap() as u64)
}

} // verus!
