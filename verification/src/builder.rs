//! The dictionary builder: consumes the input byte stream left to right,
//! growing a phrase trie greedily, with the three growth policies —
//! unconstrained, depth-bounded (forced phrase closure), and size-bounded
//! (segmentation into a sequence of completed tries).

use vstd::prelude::*;
use crate::mode::Mode;
use crate::trie::{NodeModel, Tree, arena_wf, node_ok, root_only, spec_add_node};

verus! {

broadcast use vstd::std_specs::hash::group_hash_axioms;

/// The builder's running state over one trie: the arena so far, the cursor
/// node the phrase match has reached, and the byte count of the open phrase.
pub ghost struct BuildState {
    pub tree: Seq<NodeModel>,
    pub cursor: usize,
    pub depth: nat,
}

/// The builder's running state in size-bounded mode: the completed segments
/// in order, then the current trie's state.
pub ghost struct MultiState {
    pub done: Seq<Seq<NodeModel>>,
    pub tree: Seq<NodeModel>,
    pub cursor: usize,
    pub depth: nat,
}

pub open spec fn init_state() -> BuildState {
    BuildState { tree: root_only(), cursor: 0, depth: 0 }
}

/// One input byte in the non-segmenting modes. A matching child descends the
/// cursor, except that depth-bounded mode force-closes the phrase the moment
/// the open phrase reaches the limit; a missing child closes the phrase by
/// appending a node for `b` under the cursor.
pub open spec fn step_single(s: BuildState, mode: Mode, b: u8) -> BuildState
    recommends
        s.cursor < s.tree.len(),
{
    let d = s.depth + 1;
    let cur = s.tree[s.cursor as int];
    if cur.children.contains_key(b) {
        match mode {
            Mode::LimitDepth(limit) => if d == limit as nat {
                BuildState { tree: spec_add_node(s.tree, b, s.cursor), cursor: 0, depth: 0 }
            } else {
                BuildState { tree: s.tree, cursor: cur.children[b], depth: d }
            },
            _ => BuildState { tree: s.tree, cursor: cur.children[b], depth: d },
        }
    } else {
        BuildState { tree: spec_add_node(s.tree, b, s.cursor), cursor: 0, depth: 0 }
    }
}

pub open spec fn run_single(input: Seq<u8>, mode: Mode) -> BuildState
    decreases input.len(),
{
    if input.len() == 0 {
        init_state()
    } else {
        step_single(run_single(input.drop_last(), mode), mode, input.last())
    }
}

/// End-of-stream handling: a phrase still open when the input runs out
/// appends one more node carrying the cursor's own value under the cursor's
/// own parent. That transition already exists there, so first-writer-wins
/// leaves the parent's map alone and the node is reachable only by arena
/// position.
pub open spec fn close_phrase(tree: Seq<NodeModel>, cursor: usize, depth: nat) -> Seq<NodeModel> {
    if depth > 0 {
        spec_add_node(tree, tree[cursor as int].value, tree[cursor as int].parent)
    } else {
        tree
    }
}

/// The trie built over `input` in a non-segmenting mode.
pub open spec fn build_single(input: Seq<u8>, mode: Mode) -> Seq<NodeModel> {
    let s = run_single(input, mode);
    close_phrase(s.tree, s.cursor, s.depth)
}

/// One input byte in size-bounded mode: as in the unconstrained mode, except
/// that when an append makes the node count exceed the limit, the trie just
/// completed (including the triggering node) moves to the output sequence and
/// a fresh root-only trie takes its place.
pub open spec fn step_multi(s: MultiState, limit: u128, b: u8) -> MultiState
    recommends
        s.cursor < s.tree.len(),
{
    let d = s.depth + 1;
    let cur = s.tree[s.cursor as int];
    if cur.children.contains_key(b) {
        MultiState { done: s.done, tree: s.tree, cursor: cur.children[b], depth: d }
    } else {
        let t1 = spec_add_node(s.tree, b, s.cursor);
        if t1.len() <= limit as nat {
            MultiState { done: s.done, tree: t1, cursor: 0, depth: 0 }
        } else {
            MultiState { done: s.done.push(t1), tree: root_only(), cursor: 0, depth: 0 }
        }
    }
}

pub open spec fn run_multi(input: Seq<u8>, limit: u128) -> MultiState
    decreases input.len(),
{
    if input.len() == 0 {
        MultiState { done: Seq::empty(), tree: root_only(), cursor: 0, depth: 0 }
    } else {
        step_multi(run_multi(input.drop_last(), limit), limit, input.last())
    }
}

/// The dictionary sequence built over `input` in size-bounded mode: the
/// completed segments, then the trailing trie (possibly root-only), with the
/// end-of-stream handling applied to the trailing trie.
pub open spec fn build_multi(input: Seq<u8>, limit: u128) -> Seq<Seq<NodeModel>> {
    let s = run_multi(input, limit);
    s.done.push(close_phrase(s.tree, s.cursor, s.depth))
}

/// The model arenas of a sequence of tries.
pub open spec fn tree_views(ts: Seq<Tree>) -> Seq<Seq<NodeModel>> {
    ts.map_values(|t: Tree| t@)
}

proof fn lemma_run_single_snoc(input: Seq<u8>, mode: Mode, i: int)
    requires
        0 <= i < input.len(),
    ensures
        run_single(input.take(i + 1), mode) == step_single(
            run_single(input.take(i), mode),
            mode,
            input[i],
        ),
{
    let pre = input.take(i + 1);
    assert(pre.drop_last() =~= input.take(i));
    assert(pre.last() == input[i]);
}

proof fn lemma_run_multi_snoc(input: Seq<u8>, limit: u128, i: int)
    requires
        0 <= i < input.len(),
    ensures
        run_multi(input.take(i + 1), limit) == step_multi(
            run_multi(input.take(i), limit),
            limit,
            input[i],
        ),
{
    let pre = input.take(i + 1);
    assert(pre.drop_last() =~= input.take(i));
    assert(pre.last() == input[i]);
}

/// Append the node that closes a still-open phrase, as `close_phrase` says.
fn close_dict(dict: &mut Tree, cursor: usize, depth: u128)
    requires
        old(dict).wf(),
        cursor < old(dict).nodes@.len(),
    ensures
        final(dict).wf(),
        final(dict)@ == close_phrase(old(dict)@, cursor, depth as nat),
        final(dict)@.len() <= old(dict)@.len() + 1,
{
    if depth > 0 {
        proof {
            assert(node_ok(dict@, cursor as int));
        }
        let value = dict.nodes[cursor].value;
        let parent = dict.nodes[cursor].parent_node;
        dict.add_node(value, parent);
    }
}

/// Build the single trie of a non-segmenting run over `input`.
pub fn create_dict(input: &Vec<u8>, mode: Mode) -> (dict: Tree)
    ensures
        dict.wf(),
        dict@ == build_single(input@, mode),
        dict@.len() <= input@.len() + 2,
{
    let mut dict = Tree::new();
    let mut cursor: usize = 0;
    let mut depth: u128 = 0;
    let mut i: usize = 0;
    while i < input.len()
        invariant
            dict.wf(),
            cursor < dict.nodes@.len(),
            i <= input@.len(),
            depth <= i as u128,
            dict.nodes@.len() <= 1 + i as int,
            dict@ == run_single(input@.take(i as int), mode).tree,
            cursor == run_single(input@.take(i as int), mode).cursor,
            depth as nat == run_single(input@.take(i as int), mode).depth,
        decreases input@.len() - i,
    {
        proof {
            lemma_run_single_snoc(input@, mode, i as int);
        }
        let b = input[i];
        depth = depth + 1;
        let child_opt: Option<usize> = match dict.nodes[cursor].children.get(&b) {
            Some(ci) => Some(*ci),
            None => None,
        };
        proof {
            assert(node_ok(dict@, cursor as int));
        }
        match child_opt {
            Some(child_index) => {
                match mode {
                    Mode::LimitDepth(limit) => {
                        if limit == depth {
                            depth = 0;
                            dict.add_node(b, cursor);
                            cursor = 0;
                        } else {
                            cursor = child_index;
                        }
                    },
                    _ => {
                        cursor = child_index;
                    },
                }
            },
            None => {
                depth = 0;
                dict.add_node(b, cursor);
                cursor = 0;
            },
        }
        i = i + 1;
    }
    proof {
        assert(input@.take(i as int) =~= input@);
        assert(dict@.len() == dict.nodes@.len());
    }
    close_dict(&mut dict, cursor, depth);
    dict
}

/// Build the dictionary sequence of a size-bounded run over `input`.
pub fn create_multiple_dicts(input: &Vec<u8>, dict_len_limit: u128) -> (res: Vec<Tree>)
    ensures
        forall|k: int| 0 <= k < res@.len() ==> (#[trigger] res@[k]).wf(),
        forall|k: int| 0 <= k < res@.len() ==> (#[trigger] res@[k])@.len() <= input@.len() + 2,
        tree_views(res@) == build_multi(input@, dict_len_limit),
{
    let mut res: Vec<Tree> = Vec::new();
    let mut dict = Tree::new();
    let mut cursor: usize = 0;
    let mut depth: u128 = 0;
    let mut i: usize = 0;
    while i < input.len()
        invariant
            dict.wf(),
            cursor < dict.nodes@.len(),
            i <= input@.len(),
            depth <= i as u128,
            dict.nodes@.len() <= 1 + i as int,
            forall|k: int| 0 <= k < res@.len() ==> (#[trigger] res@[k]).wf(),
            forall|k: int| 0 <= k < res@.len() ==> (#[trigger] res@[k]).nodes@.len() <= 1
                + input@.len(),
            tree_views(res@) == run_multi(input@.take(i as int), dict_len_limit).done,
            dict@ == run_multi(input@.take(i as int), dict_len_limit).tree,
            cursor == run_multi(input@.take(i as int), dict_len_limit).cursor,
            depth as nat == run_multi(input@.take(i as int), dict_len_limit).depth,
        decreases input@.len() - i,
    {
        proof {
            lemma_run_multi_snoc(input@, dict_len_limit, i as int);
        }
        let b = input[i];
        depth = depth + 1;
        let child_opt: Option<usize> = match dict.nodes[cursor].children.get(&b) {
            Some(ci) => Some(*ci),
            None => None,
        };
        proof {
            assert(node_ok(dict@, cursor as int));
        }
        match child_opt {
            Some(child_index) => {
                cursor = child_index;
            },
            None => {
                depth = 0;
                dict.add_node(b, cursor);
                if (dict.nodes.len() as u128) <= dict_len_limit {
                    cursor = 0;
                } else {
                    let ghost old_res = res@;
                    let ghost full = dict@;
                    res.push(dict);
                    dict = Tree::new();
                    cursor = 0;
                    proof {
                        assert(tree_views(res@) =~= tree_views(old_res).push(full));
                    }
                }
            },
        }
        i = i + 1;
    }
    proof {
        assert(input@.take(i as int) =~= input@);
        assert(dict@.len() == dict.nodes@.len());
    }
    close_dict(&mut dict, cursor, depth);
    let ghost old_res = res@;
    let ghost closed = dict@;
    res.push(dict);
    proof {
        assert(tree_views(res@) =~= tree_views(old_res).push(closed));
        assert forall|k: int| 0 <= k < res@.len() implies (#[trigger] res@[k])@.len()
            <= input@.len() + 2 by {
            assert(res@[k]@.len() == res@[k].nodes@.len());
        }
    }
    res
}

} // verus!
