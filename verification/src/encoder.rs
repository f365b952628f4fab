//! The bit-packing encoder: one header byte, then each non-trivial trie in
//! order — node 1 as a bare literal byte, every later node at arena index `i`
//! as its parent index in exactly `bitlen(i - 1)` bits followed by its value
//! byte — and trailing zero bits to the next byte boundary. The padding call
//! is unconditional, so an already aligned stream still gains a full zero
//! byte.

use vstd::prelude::*;
use vstd::arithmetic::div_mod::{
    lemma_add_mod_noop, lemma_fundamental_div_mod, lemma_mod_bound, lemma_mod_multiples_basic,
    lemma_mod_twice, lemma_small_mod,
};
use vstd::arithmetic::power2::{lemma2_to64, lemma2_to64_rest};
use crate::bits::{
    bitlen, bits_of, byte_bits, bytes_bits, lemma_bitlen_le, lemma_bits_of_len,
    lemma_bytes_bits_len, log2,
};
use crate::builder::tree_views;
use crate::sink::{new_sink, sink_bits, sink_bytes, sink_write_bits, sink_write_byte};
use crate::trie::{node_ok, NodeModel, Tree};

verus! {

/// The bits emitted for the node at arena index `i >= 2`: its parent index in
/// `bitlen(i - 1)` bits, then its value byte.
pub open spec fn node_field_bits(t: Seq<NodeModel>, i: int) -> Seq<bool> {
    bits_of(t[i].parent as nat, bitlen((i - 1) as nat)) + byte_bits(t[i].value)
}

/// The bits emitted for the nodes at arena indices `2 .. i` of one trie.
pub open spec fn range_bits(t: Seq<NodeModel>, i: int) -> Seq<bool>
    decreases i,
{
    if i <= 2 {
        Seq::empty()
    } else {
        range_bits(t, i - 1) + node_field_bits(t, i - 1)
    }
}

/// The bits emitted for one trie: nothing for a root-only trie, else node 1's
/// value as a bare byte followed by the remaining nodes' fields.
pub open spec fn trie_bits(t: Seq<NodeModel>) -> Seq<bool> {
    if t.len() < 2 {
        Seq::empty()
    } else {
        byte_bits(t[1].value) + range_bits(t, t.len() as int)
    }
}

/// The bits emitted for the first `k` tries of a dictionary sequence.
pub open spec fn dicts_prefix_bits(ds: Seq<Seq<NodeModel>>, k: int) -> Seq<bool>
    decreases k,
{
    if k <= 0 {
        Seq::empty()
    } else {
        dicts_prefix_bits(ds, k - 1) + trie_bits(ds[k - 1])
    }
}

/// Header byte, then every trie of the dictionary sequence in order.
pub open spec fn content_bits(ds: Seq<Seq<NodeModel>>, header: u8) -> Seq<bool> {
    byte_bits(header) + dicts_prefix_bits(ds, ds.len() as int)
}

/// The number of zero bits appended after `n` content bits: up to the next
/// byte boundary, and a full byte when already aligned.
pub open spec fn pad_width(n: nat) -> nat {
    (8 - n % 8) as nat
}

/// The complete output bit stream for a dictionary sequence.
pub open spec fn stream_bits(ds: Seq<Seq<NodeModel>>, header: u8) -> Seq<bool> {
    content_bits(ds, header) + bits_of(0, pad_width(content_bits(ds, header).len()))
}

/// The bit cost of the nodes at arena indices `2 .. i` of one trie.
pub open spec fn range_cost(i: int) -> nat
    decreases i,
{
    if i <= 2 {
        0
    } else {
        range_cost(i - 1) + bitlen((i - 2) as nat) + 8
    }
}

/// The bit cost of one trie of `n` nodes: nothing when root-only, else one
/// literal byte plus each later node's parent field and value byte.
pub open spec fn trie_cost(n: int) -> nat {
    if n < 2 {
        0
    } else {
        8 + range_cost(n)
    }
}

/// The bit cost of the first `k` tries of a dictionary sequence.
pub open spec fn dicts_prefix_cost(ds: Seq<Seq<NodeModel>>, k: int) -> nat
    decreases k,
{
    if k <= 0 {
        0
    } else {
        dicts_prefix_cost(ds, k - 1) + trie_cost(ds[k - 1].len() as int)
    }
}

/// The bit cost of a whole dictionary sequence, header and padding excluded.
pub open spec fn dicts_cost(ds: Seq<Seq<NodeModel>>) -> nat {
    dicts_prefix_cost(ds, ds.len() as int)
}

proof fn lemma_range_bits_len(t: Seq<NodeModel>, i: int)
    ensures
        range_bits(t, i).len() == range_cost(i),
    decreases i,
{
    if i > 2 {
        lemma_range_bits_len(t, i - 1);
        lemma_bits_of_len(t[i - 1].parent as nat, bitlen((i - 2) as nat));
        lemma_bits_of_len(t[i - 1].value as nat, 8);
    }
}

proof fn lemma_trie_bits_len(t: Seq<NodeModel>)
    ensures
        trie_bits(t).len() == trie_cost(t.len() as int),
{
    if t.len() >= 2 {
        lemma_bits_of_len(t[1].value as nat, 8);
        lemma_range_bits_len(t, t.len() as int);
    }
}

proof fn lemma_dicts_prefix_bits_len(ds: Seq<Seq<NodeModel>>, k: int)
    ensures
        dicts_prefix_bits(ds, k).len() == dicts_prefix_cost(ds, k),
    decreases k,
{
    if k > 0 {
        lemma_dicts_prefix_bits_len(ds, k - 1);
        lemma_trie_bits_len(ds[k - 1]);
    }
}

/// Output sizing: the content is the 8 header bits plus, for each non-trivial
/// segment, 8 bits for its first node and `bitlen(i - 1) + 8` bits for each
/// node at index `i >= 2`; the padded stream carries that total to the
/// strictly next byte boundary (a full extra byte when already aligned).
pub proof fn lemma_output_sizing(ds: Seq<Seq<NodeModel>>, header: u8)
    ensures
        content_bits(ds, header).len() == 8 + dicts_cost(ds),
        stream_bits(ds, header).len() == 8 * ((8 + dicts_cost(ds)) / 8 + 1),
{
    lemma_bits_of_len(header as nat, 8);
    lemma_dicts_prefix_bits_len(ds, ds.len() as int);
    let c = content_bits(ds, header).len();
    lemma_bits_of_len(0, pad_width(c));
    lemma_fundamental_div_mod(c as int, 8);
}

proof fn lemma_mod8_step(len: nat, w: nat, rem: nat)
    requires
        rem == len % 8,
    ensures
        (rem + w) % 8 == (len + w + 8) % 8,
{
    lemma_mod_twice(len as int, 8);
    lemma_add_mod_noop(rem as int, w as int, 8);
    lemma_add_mod_noop(len as int, w as int, 8);
    lemma_add_mod_noop((len + w) as int, 8, 8);
    lemma_mod_bound((len + w) as int, 8);
    lemma_small_mod(((len + w) % 8) as nat, 8);
}

/// Serialize a dictionary sequence. Every trie must be well-formed, and small
/// enough that each parent index fits the 32-bit field the bit writer takes.
pub fn encode(dicts: &Vec<Tree>, header: u8) -> (out: Vec<u8>)
    requires
        forall|k: int| 0 <= k < dicts@.len() ==> (#[trigger] dicts@[k]).wf(),
        forall|k: int| 0 <= k < dicts@.len() ==> (#[trigger] dicts@[k]).nodes@.len() <= u32::MAX,
    ensures
        bytes_bits(out@) == stream_bits(tree_views(dicts@), header),
        8 * out@.len() == stream_bits(tree_views(dicts@), header).len(),
{
    let ghost ds = tree_views(dicts@);
    let mut bw = new_sink();
    sink_write_byte(&mut bw, header);
    proof {
        assert(sink_bits(bw) =~= byte_bits(header) + dicts_prefix_bits(ds, 0));
        lemma_bits_of_len(header as nat, 8);
        lemma_small_mod(0, 8);
        assert(sink_bits(bw).len() % 8 == 0) by {
            lemma_mod_multiples_basic(1, 8);
        }
    }
    let mut rem: usize = 0;
    let mut k: usize = 0;
    while k < dicts.len()
        invariant
            forall|j: int| 0 <= j < dicts@.len() ==> (#[trigger] dicts@[j]).wf(),
            forall|j: int| 0 <= j < dicts@.len() ==> (#[trigger] dicts@[j]).nodes@.len()
                <= u32::MAX,
            ds == tree_views(dicts@),
            k <= dicts@.len(),
            sink_bits(bw) == byte_bits(header) + dicts_prefix_bits(ds, k as int),
            rem < 8,
            rem as nat == sink_bits(bw).len() % 8,
        decreases dicts@.len() - k,
    {
        let dict = &dicts[k];
        let ghost t = dicts@[k as int]@;
        proof {
            assert(ds[k as int] == t);
        }
        if dict.nodes.len() >= 2 {
            let ghost base = byte_bits(header) + dicts_prefix_bits(ds, k as int);
            sink_write_byte(&mut bw, dict.nodes[1].value);
            proof {
                assert(sink_bits(bw) =~= base + (byte_bits(t[1].value) + range_bits(t, 2)));
                lemma_bits_of_len(t[1].value as nat, 8);
                lemma_mod8_step(base.len(), 0, rem as nat);
            }
            let mut i: usize = 2;
            while i < dict.nodes.len()
                invariant
                    dict.wf(),
                    dict.nodes@.len() <= u32::MAX,
                    t == dict@,
                    2 <= i <= dict.nodes@.len(),
                    sink_bits(bw) == (byte_bits(header) + dicts_prefix_bits(ds, k as int)) + (
                    byte_bits(t[1].value) + range_bits(t, i as int)),
                    rem < 8,
                    rem as nat == sink_bits(bw).len() % 8,
                decreases dict.nodes@.len() - i,
            {
                let node_parent = dict.nodes[i].parent_node;
                let node_value = dict.nodes[i].value;
                let w32 = log2(i - 1);
                proof {
                    lemma2_to64();
                    lemma2_to64_rest();
                    lemma_bitlen_le((i - 1) as nat, 32);
                    assert(node_ok(t, i as int));
                    assert(node_parent < i);
                }
                let w = w32 as usize;
                let ghost pre = sink_bits(bw);
                sink_write_bits(&mut bw, node_parent as u32, w);
                sink_write_byte(&mut bw, node_value);
                proof {
                    assert(sink_bits(bw) =~= (byte_bits(header) + dicts_prefix_bits(
                        ds,
                        k as int,
                    )) + (byte_bits(t[1].value) + range_bits(t, i + 1)));
                    lemma_bits_of_len(node_parent as nat, w as nat);
                    lemma_bits_of_len(node_value as nat, 8);
                    lemma_mod8_step(pre.len(), w as nat, rem as nat);
                }
                rem = (w + rem) % 8;
                i = i + 1;
            }
            proof {
                assert(sink_bits(bw) =~= byte_bits(header) + dicts_prefix_bits(ds, k as int + 1));
            }
        } else {
            proof {
                assert(trie_bits(t) =~= Seq::<bool>::empty());
                assert(sink_bits(bw) =~= byte_bits(header) + dicts_prefix_bits(ds, k as int + 1));
            }
        }
        k = k + 1;
    }
    proof {
        assert(dicts_prefix_bits(ds, k as int) == dicts_prefix_bits(ds, ds.len() as int));
        assert(sink_bits(bw) == content_bits(ds, header));
    }
    let pad = 8 - rem;
    let ghost content = sink_bits(bw);
    sink_write_bits(&mut bw, 0, pad);
    proof {
        assert(sink_bits(bw) == stream_bits(ds, header));
        lemma_bits_of_len(0, pad as nat);
        lemma_fundamental_div_mod(content.len() as int, 8);
        lemma_mod_multiples_basic((content.len() as int) / 8 + 1, 8);
        assert(sink_bits(bw).len() % 8 == 0);
    }
    let out = sink_bytes(&mut bw);
    proof {
        lemma_bytes_bits_len(out@);
    }
    out
}

} // verus!
