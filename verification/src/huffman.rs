use vstd::prelude::*;

use crate::bitstream::{lemma_pow2_mono, lemma_pow2_pos, low_bits, msb_bits, pow2, BitStream};
use crate::laws::huffman_code::lemma_tree_codes_fit;
use crate::JpegError;

verus! {

/// A node of a Huffman tree: a leaf holds a symbol `val` with its frequency,
/// an inner node its two subtrees. `stream` is the code given to a leaf and
/// `weight` the number of leaves below a node, the filler leaf counting 257.
pub struct HuffmanTree {
    pub zero: Option<Box<HuffmanTree>>,
    pub one: Option<Box<HuffmanTree>>,
    pub isleaf: bool,
    pub val: u8,
    pub freq: u64,
    pub stream: Option<BitStream>,
    pub weight: u16,
}

/// The mathematical picture of a [`HuffmanTree`], codes as bit sequences.
pub struct CodeTree {
    pub zero: Option<Box<CodeTree>>,
    pub one: Option<Box<CodeTree>>,
    pub isleaf: bool,
    pub val: u8,
    pub freq: u64,
    pub code: Option<Seq<bool>>,
    pub weight: u16,
}

pub open spec fn stream_model(s: Option<BitStream>) -> Option<Seq<bool>> {
    match s {
        Some(b) => Some(b@),
        None => None,
    }
}

pub open spec fn tree_model(t: HuffmanTree) -> CodeTree
    decreases t,
{
    CodeTree {
        zero: match t.zero {
            Some(z) => Some(Box::new(tree_model(*z))),
            None => None,
        },
        one: match t.one {
            Some(o) => Some(Box::new(tree_model(*o))),
            None => None,
        },
        isleaf: t.isleaf,
        val: t.val,
        freq: t.freq,
        code: stream_model(t.stream),
        weight: t.weight,
    }
}

impl View for HuffmanTree {
    type V = CodeTree;

    open spec fn view(&self) -> CodeTree {
        tree_model(*self)
    }
}

/// The models of a sequence of trees.
pub open spec fn models(v: Seq<HuffmanTree>) -> Seq<CodeTree> {
    v.map_values(|t: HuffmanTree| t@)
}

/// A leaf for `val` seen `freq` times.
pub open spec fn leaf_model(val: u8, freq: u64) -> CodeTree {
    CodeTree { zero: None, one: None, isleaf: true, val, freq, code: None, weight: 1 }
}

/// The code of `val` in a list of leaves: the first leaf that holds `val`
/// decides, and it may have no code.
pub open spec fn code_of(leafs: Seq<CodeTree>, val: u8) -> Option<Seq<bool>>
    decreases leafs.len(),
{
    if leafs.len() == 0 {
        None
    } else if leafs[0].val == val {
        leafs[0].code
    } else {
        code_of(leafs.drop_first(), val)
    }
}

/// The codes of `values`, skipping those that have none.
pub open spec fn encode_values(values: Seq<u8>, leafs: Seq<CodeTree>) -> Seq<Seq<bool>>
    decreases values.len(),
{
    if values.len() == 0 {
        Seq::empty()
    } else {
        let prev = encode_values(values.drop_last(), leafs);
        match code_of(leafs, values.last()) {
            Some(c) => prev.push(c),
            None => prev,
        }
    }
}

/// A leaf for `val` seen `freq` times.
pub fn create_leaf(val: u8, freq: u64) -> (res: HuffmanTree)
    ensures
        res@ == leaf_model(val, freq),
        res.zero is None,
        res.one is None,
        res.stream is None,
{
    HuffmanTree { zero: None, one: None, isleaf: true, freq, val, stream: None, weight: 1 }
}

impl HuffmanTree {
    /// A copy of this tree.
    pub fn copy(&self) -> (res: Self)
        ensures
            res@ == self@,
        decreases self,
    {
        let zero = match &self.zero {
            Some(z) => Some(Box::new(z.copy())),
            None => None,
        };
        let one = match &self.one {
            Some(o) => Some(Box::new(o.copy())),
            None => None,
        };
        let stream = match &self.stream {
            Some(s) => Some(s.duplicate()),
            None => None,
        };
        HuffmanTree {
            zero,
            one,
            isleaf: self.isleaf,
            val: self.val,
            freq: self.freq,
            stream,
            weight: self.weight,
        }
    }
}

impl Clone for HuffmanTree {
    fn clone(&self) -> (res: Self)
        ensures
            res@ == self@,
    {
        self.copy()
    }
}

/// The code of `val` in `leafs`: the first leaf holding `val` must exist and
/// have a code.
pub fn encode_single(val: u8, leafs: &Vec<HuffmanTree>) -> (res: Result<BitStream, JpegError>)
    ensures
        match res {
            Ok(s) => code_of(models(leafs@), val) == Some(s@),
            Err(e) => code_of(models(leafs@), val) is None && e == JpegError::HuffmanError,
        },
{
    let mut i: usize = 0;
    assert(models(leafs@).skip(0) == models(leafs@));
    while i < leafs.len()
        invariant
            i <= leafs@.len(),
            code_of(models(leafs@), val) == code_of(models(leafs@).skip(i as int), val),
        decreases leafs@.len() - i,
    {
        proof {
            let rest = models(leafs@).skip(i as int);
            assert(rest[0] == leafs@[i as int]@);
            assert(rest.drop_first() == models(leafs@).skip(i + 1));
        }
        if leafs[i].val == val {
            return match &leafs[i].stream {
                Some(code_stream) => Ok(code_stream.duplicate()),
                None => Err(JpegError::HuffmanError),
            };
        }
        i = i + 1;
    }
    assert(models(leafs@).skip(i as int).len() == 0);
    Err(JpegError::HuffmanError)
}

/// The codes of `values` in `leafs`, skipping the values without one.
pub fn _encode_to_bistream(values: Vec<u8>, leafs: Vec<HuffmanTree>) -> (res: Vec<BitStream>)
    ensures
        res@.map_values(|s: BitStream| s@) == encode_values(values@, models(leafs@)),
{
    let mut stream: Vec<BitStream> = Vec::new();
    let mut i: usize = 0;
    while i < values.len()
        invariant
            i <= values@.len(),
            stream@.map_values(|s: BitStream| s@) == encode_values(
                values@.take(i as int),
                models(leafs@),
            ),
        decreases values@.len() - i,
    {
        proof {
            assert(values@.take(i + 1).drop_last() == values@.take(i as int));
        }
        let found = encode_single(values[i], &leafs);
        match found {
            Ok(code_stream) => {
                stream.push(code_stream);
            },
            Err(_) => {},
        }
        i = i + 1;
        assert(stream@.map_values(|s: BitStream| s@) =~= encode_values(
            values@.take(i as int),
            models(leafs@),
        ));
    }
    assert(values@.take(i as int) == values@);
    stream
}


/// Where `insert_sorted_huffman` puts a node of frequency `f`: before the
/// first node whose frequency is not above `f`.
pub open spec fn insert_index(s: Seq<CodeTree>, f: u64) -> nat
    decreases s.len(),
{
    if s.len() == 0 {
        0
    } else if f < s[0].freq {
        1 + insert_index(s.drop_first(), f)
    } else {
        0
    }
}

/// Where a leaf of frequency `f` goes when leaves are sorted stably: after
/// every node whose frequency is at least `f`.
pub open spec fn stable_index(s: Seq<CodeTree>, f: u64) -> nat
    decreases s.len(),
{
    if s.len() == 0 {
        0
    } else if f <= s[0].freq {
        1 + stable_index(s.drop_first(), f)
    } else {
        0
    }
}

/// How often `v` occurs in `values`.
pub open spec fn count(values: Seq<u8>, v: u8) -> nat
    decreases values.len(),
{
    if values.len() == 0 {
        0
    } else {
        count(values.drop_last(), v) + (if values.last() == v {
            1nat
        } else {
            0nat
        })
    }
}

/// One leaf per value below `n` that occurs in `values`, with its count as
/// frequency, sorted by decreasing frequency; equal frequencies keep the
/// order of the values.
pub open spec fn sorted_leaves(values: Seq<u8>, n: nat) -> Seq<CodeTree>
    decreases n,
{
    if n == 0 {
        Seq::empty()
    } else {
        let prev = sorted_leaves(values, (n - 1) as nat);
        let c = count(values, (n - 1) as u8);
        if c > 0 {
            prev.insert(
                stable_index(prev, c as u64) as int,
                leaf_model((n - 1) as u8, c as u64),
            )
        } else {
            prev
        }
    }
}

/// The leaf that ends every list of frequency leaves: it is seen zero times
/// and weighs more than all real leaves together, so it sinks to the deepest
/// level; being seen zero times, it gets no code.
pub open spec fn filler_model() -> CodeTree {
    CodeTree { zero: None, one: None, isleaf: true, val: 0, freq: 0, code: None, weight: 257 }
}

/// The leaves `generate_freq_leafs` gives for `values`.
pub open spec fn freq_leaves(values: Seq<u8>) -> Seq<CodeTree> {
    sorted_leaves(values, 256).push(filler_model())
}

/// The inner node with `l` on its zero side and `r` on its one side.
pub open spec fn merge_node(l: CodeTree, r: CodeTree) -> CodeTree {
    CodeTree {
        zero: Some(Box::new(l)),
        one: Some(Box::new(r)),
        isleaf: false,
        val: 0,
        freq: (l.freq + r.freq) as u64,
        code: None,
        weight: (l.weight + r.weight) as u16,
    }
}

/// Every inner node of a tree has two children and carries their sums: its
/// frequency and its weight are theirs added; a leaf has no child.
pub open spec fn node_sums(t: CodeTree) -> bool
    decreases t,
{
    match t.zero {
        Some(l) => match t.one {
            Some(r) => t.freq == l.freq + r.freq && t.weight == l.weight + r.weight && node_sums(*l)
                && node_sums(*r),
            None => false,
        },
        None => t.one is None,
    }
}

/// One step of the construction: the last two nodes are joined, the lighter
/// one on the zero side, and the new node is put back in frequency order.
pub open spec fn merge_step(s: Seq<CodeTree>) -> Seq<CodeTree>
    recommends
        s.len() >= 2,
{
    let a = s[s.len() - 1];
    let b = s[s.len() - 2];
    let rest = s.take(s.len() - 2);
    let n = if a.weight > b.weight {
        merge_node(b, a)
    } else {
        merge_node(a, b)
    };
    rest.insert(insert_index(rest, n.freq) as int, n)
}

/// The tree that repeated merging leaves, if there is any node.
pub open spec fn build_tree(s: Seq<CodeTree>) -> Option<CodeTree>
    decreases s.len(),
{
    if s.len() == 0 {
        None
    } else if s.len() == 1 {
        Some(s[0])
    } else {
        proof {
            lemma_merge_step_len(s);
        }
        build_tree(merge_step(s))
    }
}

/// Each merging step leaves one node fewer.
pub proof fn lemma_merge_step_len(s: Seq<CodeTree>)
    requires
        s.len() >= 2,
    ensures
        merge_step(s).len() == s.len() - 1,
{
    let rest = s.take(s.len() - 2);
    lemma_insert_index_bound(rest, (s[s.len() - 1].freq + s[s.len() - 2].freq) as u64);
}

/// Merging ends in a tree whenever there is a node to start from.
pub proof fn lemma_build_tree_some(s: Seq<CodeTree>)
    requires
        s.len() >= 1,
    ensures
        build_tree(s) is Some,
    decreases s.len(),
{
    if s.len() >= 2 {
        lemma_merge_step_len(s);
        lemma_build_tree_some(merge_step(s));
    }
}

/// The sum of the frequencies of the nodes.
pub open spec fn freq_sum(s: Seq<CodeTree>) -> nat
    decreases s.len(),
{
    if s.len() == 0 {
        0
    } else {
        freq_sum(s.drop_last()) + s.last().freq as nat
    }
}

/// The sum of the weights of the nodes.
pub open spec fn weight_sum(s: Seq<CodeTree>) -> nat
    decreases s.len(),
{
    if s.len() == 0 {
        0
    } else {
        weight_sum(s.drop_last()) + s.last().weight as nat
    }
}

/// Inserting a node adds its frequency and weight to the sums.
pub proof fn lemma_sums_insert(s: Seq<CodeTree>, i: int, x: CodeTree)
    requires
        0 <= i <= s.len(),
    ensures
        freq_sum(s.insert(i, x)) == freq_sum(s) + x.freq,
        weight_sum(s.insert(i, x)) == weight_sum(s) + x.weight,
    decreases s.len(),
{
    if i == s.len() {
        assert(s.insert(i, x).drop_last() == s);
    } else {
        lemma_sums_insert(s.drop_last(), i, x);
        assert(s.insert(i, x).drop_last() == s.drop_last().insert(i, x));
    }
}

/// The sums split off the last two nodes.
pub proof fn lemma_sums_take(s: Seq<CodeTree>)
    requires
        s.len() >= 2,
    ensures
        freq_sum(s) == freq_sum(s.take(s.len() - 2)) + s[s.len() - 2].freq + s[s.len()
            - 1].freq,
        weight_sum(s) == weight_sum(s.take(s.len() - 2)) + s[s.len() - 2].weight + s[s.len()
            - 1].weight,
{
    let d = s.drop_last();
    assert(d.drop_last() == s.take(s.len() - 2));
    assert(d.last() == s[s.len() - 2]);
    assert(freq_sum(s) == freq_sum(d) + s.last().freq);
    assert(freq_sum(d) == freq_sum(d.drop_last()) + d.last().freq);
    assert(weight_sum(s) == weight_sum(d) + s.last().weight);
    assert(weight_sum(d) == weight_sum(d.drop_last()) + d.last().weight);
}

/// A merging step keeps the sums of frequencies and weights.
pub proof fn lemma_merge_step(s: Seq<CodeTree>)
    requires
        s.len() >= 2,
        freq_sum(s) <= u64::MAX,
        weight_sum(s) <= u16::MAX,
    ensures
        merge_step(s).len() == s.len() - 1,
        freq_sum(merge_step(s)) == freq_sum(s),
        weight_sum(merge_step(s)) == weight_sum(s),
{
    let rest = s.take(s.len() - 2);
    lemma_sums_take(s);
    let a = s[s.len() - 1];
    let b = s[s.len() - 2];
    let n = if a.weight > b.weight {
        merge_node(b, a)
    } else {
        merge_node(a, b)
    };
    lemma_insert_index_bound(rest, n.freq);
    lemma_sums_insert(rest, insert_index(rest, n.freq) as int, n);
}

/// The place found for a node lies within the list.
pub proof fn lemma_insert_index_bound(s: Seq<CodeTree>, f: u64)
    ensures
        insert_index(s, f) <= s.len(),
    decreases s.len(),
{
    if s.len() > 0 {
        lemma_insert_index_bound(s.drop_first(), f);
    }
}

/// The place found for a leaf lies within the list.
pub proof fn lemma_stable_index_bound(s: Seq<CodeTree>, f: u64)
    ensures
        stable_index(s, f) <= s.len(),
    decreases s.len(),
{
    if s.len() > 0 {
        lemma_stable_index_bound(s.drop_first(), f);
    }
}

/// Puts `elem` before the first node whose frequency is not above its own.
pub fn insert_sorted_huffman(nodes: &mut Vec<HuffmanTree>, elem: HuffmanTree)
    ensures
        models(final(nodes)@) == models(old(nodes)@).insert(
            insert_index(models(old(nodes)@), elem.freq) as int,
            elem@,
        ),
{
    let ghost m = models(nodes@);
    let mut index: usize = 0;
    let size = nodes.len();
    assert(m.skip(0) == m);
    while index < size && elem.freq < nodes[index].freq
        invariant
            size == nodes@.len(),
            m == models(nodes@),
            index <= size,
            insert_index(m, elem.freq) == index + insert_index(m.skip(index as int), elem.freq),
        decreases size - index,
    {
        proof {
            let rest = m.skip(index as int);
            assert(rest[0] == nodes@[index as int]@);
            assert(rest.drop_first() == m.skip(index + 1));
        }
        index = index + 1;
    }
    proof {
        let rest = m.skip(index as int);
        if index < size {
            assert(rest[0] == nodes@[index as int]@);
        }
    }
    nodes.insert(index, elem);
    assert(models(nodes@) =~= m.insert(index as int, elem@));
}

/// Puts `elem` after every node whose frequency is at least its own.
fn insert_stable(nodes: &mut Vec<HuffmanTree>, elem: HuffmanTree)
    ensures
        models(final(nodes)@) == models(old(nodes)@).insert(
            stable_index(models(old(nodes)@), elem.freq) as int,
            elem@,
        ),
{
    let ghost m = models(nodes@);
    let mut index: usize = 0;
    let size = nodes.len();
    assert(m.skip(0) == m);
    while index < size && elem.freq <= nodes[index].freq
        invariant
            size == nodes@.len(),
            m == models(nodes@),
            index <= size,
            stable_index(m, elem.freq) == index + stable_index(m.skip(index as int), elem.freq),
        decreases size - index,
    {
        proof {
            let rest = m.skip(index as int);
            assert(rest[0] == nodes@[index as int]@);
            assert(rest.drop_first() == m.skip(index + 1));
        }
        index = index + 1;
    }
    proof {
        let rest = m.skip(index as int);
        if index < size {
            assert(rest[0] == nodes@[index as int]@);
        }
    }
    nodes.insert(index, elem);
    assert(models(nodes@) =~= m.insert(index as int, elem@));
}

/// One leaf per value that occurs in `val`, with its count as frequency,
/// sorted by decreasing frequency, then the filler leaf.
pub fn generate_freq_leafs(val: &Vec<u8>) -> (res: Vec<HuffmanTree>)
    ensures
        models(res@) == freq_leaves(val@),
{
    let mut freqs: Vec<u64> = vec![0u64; 256];
    let mut i: usize = 0;
    while i < val.len()
        invariant
            i <= val@.len(),
            freqs@.len() == 256,
            forall|k: int| 0 <= k < 256 ==> freqs@[k] == count(val@.take(i as int), k as u8),
            forall|k: int| 0 <= k < 256 ==> freqs@[k] <= i,
        decreases val@.len() - i,
    {
        let v = val[i];
        proof {
            assert(val@.take(i + 1).drop_last() == val@.take(i as int));
            assert(val@.take(i + 1).last() == v);
        }
        freqs.set(v as usize, freqs[v as usize] + 1);
        i = i + 1;
        proof {
            assert forall|k: int| 0 <= k < 256 implies freqs@[k] == count(
                val@.take(i as int),
                k as u8,
            ) by {
                assert((k as u8) == v <==> k == v as int);
            }
        }
    }
    assert(val@.take(i as int) == val@);
    let mut res: Vec<HuffmanTree> = Vec::new();
    let mut v: usize = 0;
    while v < 256
        invariant
            v <= 256,
            freqs@.len() == 256,
            forall|k: int| 0 <= k < 256 ==> freqs@[k] == count(val@, k as u8),
            models(res@) == sorted_leaves(val@, v as nat),
        decreases 256 - v,
    {
        let f = freqs[v];
        if f > 0 {
            proof {
                lemma_stable_index_bound(models(res@), f);
            }
            insert_stable(&mut res, create_leaf(v as u8, f));
        }
        v = v + 1;
    }
    res.push(HuffmanTree {
        zero: None,
        one: None,
        isleaf: true,
        val: 0,
        freq: 0,
        stream: None,
        weight: 257,
    });
    assert(models(res@) =~= freq_leaves(val@));
    res
}

/// Joins the nodes into one tree: again and again the last two nodes are
/// joined, the lighter one on the zero side, and the new node is put back in
/// frequency order. Fails when there is no node at all.
pub fn construct_huff_table(nodes: Vec<HuffmanTree>) -> (res: Result<HuffmanTree, JpegError>)
    requires
        freq_sum(models(nodes@)) <= u64::MAX,
        weight_sum(models(nodes@)) <= u16::MAX,
    ensures
        match res {
            Ok(t) => build_tree(models(nodes@)) == Some(t@),
            Err(e) => nodes@.len() == 0 && e == JpegError::HuffmanError,
        },
{
    let ghost input_len = nodes@.len();
    let mut work = nodes;
    let ghost target = build_tree(models(work@));
    while work.len() != 1
        invariant
            build_tree(models(work@)) == target,
            freq_sum(models(work@)) <= u64::MAX,
            weight_sum(models(work@)) <= u16::MAX,
            (input_len == 0) == (work@.len() == 0),
            input_len == nodes@.len(),
        decreases work@.len(),
    {
        let ghost m = models(work@);
        let left = match work.pop() {
            Some(t) => t,
            None => {
                return Err(JpegError::HuffmanError);
            },
        };
        let right = match work.pop() {
            Some(t) => t,
            None => {
                return Err(JpegError::HuffmanError);
            },
        };
        proof {
            assert(m[m.len() - 1] == left@);
            assert(m[m.len() - 2] == right@);
            assert(models(work@) =~= m.take(m.len() - 2));
            lemma_sums_take(m);
            lemma_merge_step(m);
        }
        let (left, right) = if left.weight > right.weight {
            (right, left)
        } else {
            (left, right)
        };
        let weight = left.weight + right.weight;
        let freq = left.freq + right.freq;
        let node = HuffmanTree {
            zero: Some(Box::new(left)),
            one: Some(Box::new(right)),
            isleaf: false,
            val: 0,
            freq,
            stream: None,
            weight,
        };
        assert(node@ == (if m[m.len() - 1].weight > m[m.len() - 2].weight {
            merge_node(m[m.len() - 2], m[m.len() - 1])
        } else {
            merge_node(m[m.len() - 1], m[m.len() - 2])
        }));
        insert_sorted_huffman(&mut work, node);
        assert(models(work@) == merge_step(m));
        proof {
            lemma_merge_step_len(m);
        }
    }
    proof {
        assert(models(work@)[0] == work@[0]@);
    }
    match work.pop() {
        Some(t) => Ok(t),
        None => Err(JpegError::HuffmanError),
    }
}

/// The tree with codes given to its leaves: each leaf seen at least once
/// gets the path that leads to it from the top, starting with `path`; the
/// zero side adds a `false`, the one side a `true`.
pub open spec fn coded(t: CodeTree, path: Seq<bool>) -> CodeTree
    decreases t,
{
    if t.isleaf {
        if t.freq == 0 {
            t
        } else {
            CodeTree {
                zero: t.zero,
                one: t.one,
                isleaf: t.isleaf,
                val: t.val,
                freq: t.freq,
                code: Some(path),
                weight: t.weight,
            }
        }
    } else {
        CodeTree {
            zero: match t.zero {
                Some(z) => Some(Box::new(coded(*z, path.push(false)))),
                None => None,
            },
            one: match t.one {
                Some(o) => Some(Box::new(coded(*o, path.push(true)))),
                None => None,
            },
            isleaf: t.isleaf,
            val: t.val,
            freq: t.freq,
            code: t.code,
            weight: t.weight,
        }
    }
}

/// The leaves seen at least once that lie `r` levels below the top, zero
/// side before one side.
pub open spec fn leaves_at(t: CodeTree, r: int) -> Seq<CodeTree>
    decreases t,
{
    if t.isleaf {
        if r == 0 && t.freq != 0 {
            seq![t]
        } else {
            Seq::empty()
        }
    } else {
        (match t.zero {
            Some(z) => leaves_at(*z, r - 1),
            None => Seq::empty(),
        }) + (match t.one {
            Some(o) => leaves_at(*o, r - 1),
            None => Seq::empty(),
        })
    }
}

/// The number of levels below the top.
pub open spec fn height(t: CodeTree) -> nat
    decreases t,
{
    if t.isleaf {
        0
    } else {
        let hz = match t.zero {
            Some(z) => height(*z),
            None => 0,
        };
        let ho = match t.one {
            Some(o) => height(*o),
            None => 0,
        };
        1 + if hz > ho {
            hz
        } else {
            ho
        }
    }
}

/// Every leaf seen at least once lies between levels 1 and `top` when the
/// top of the tree is at level `deep`, so that its code has a length JPEG
/// allows (at most 16 bits) and a slot among the lists of leaves.
pub open spec fn depths_fit(t: CodeTree, deep: int, top: int) -> bool
    decreases t,
{
    if t.isleaf {
        t.freq == 0 || 1 <= deep <= top
    } else {
        (match t.zero {
            Some(z) => depths_fit(*z, deep + 1, top),
            None => true,
        }) && (match t.one {
            Some(o) => depths_fit(*o, deep + 1, top),
            None => true,
        })
    }
}

/// What giving codes along the paths needs of a tree placed at level `deep`:
/// the leaves lie at most `top` levels down, the recursion depth fits, and
/// the per-length counts stay within a byte.
pub open spec fn prepare_fits(t: CodeTree, deep: int, counts: Seq<u8>, top: int) -> bool {
    &&& depths_fit(t, deep, top)
    &&& 0 <= deep
    &&& deep + height(t) <= usize::MAX
    &&& counts.len() == 16
    &&& forall|i: int| 0 <= i < 16 ==> counts[i] + (#[trigger] leaves_at(t, i + 1 - deep)).len() <= 255
}

pub open spec fn leaf_vals(s: Seq<CodeTree>) -> Seq<u8> {
    s.map_values(|t: CodeTree| t.val)
}

/// A copy of a bit vector.
fn copy_bits(v: &Vec<bool>) -> (res: Vec<bool>)
    ensures
        res@ == v@,
{
    let res = v.clone();
    proof {
        assert forall|i: int| 0 <= i < res@.len() implies res@[i] == v@[i] by {
            assert(cloned::<bool>(v[i], res[i]));
        }
        assert(res@ =~= v@);
    }
    res
}

fn prepare_with_path(
    table: &mut HuffmanTree,
    deep: usize,
    path: &Vec<bool>,
    leafs: &mut [Vec<HuffmanTree>; 16],
    jpeg_deep: &mut [u8; 16],
    jpeg_symbol: &mut [Vec<u8>; 16],
    shift: usize,
)
    requires
        shift <= 1,
        prepare_fits(old(table)@, deep as int, old(jpeg_deep)@, 15 + shift),
    ensures
        final(table)@ == coded(old(table)@, path@),
        forall|d: int|
            0 <= d < 16 ==> models(#[trigger] final(leafs)@[d]@) == models(old(leafs)@[d]@)
                + leaves_at(coded(old(table)@, path@), d + shift - deep),
        forall|i: int|
            0 <= i < 16 ==> #[trigger] final(jpeg_deep)@[i] == old(jpeg_deep)@[i] + leaves_at(
                old(table)@,
                i + 1 - deep,
            ).len(),
        forall|i: int|
            0 <= i < 16 ==> #[trigger] final(jpeg_symbol)@[i]@ == old(jpeg_symbol)@[i]@ + leaf_vals(
                leaves_at(old(table)@, i + 1 - deep),
            ),
    decreases *old(table),
{
    let ghost t0 = table@;
    if table.isleaf {
        if table.freq == 0 {
            proof {
                assert forall|d: int| 0 <= d < 16 implies models(leafs@[d]@) == models(
                    old(leafs)@[d]@,
                ) + leaves_at(coded(t0, path@), d + shift - deep) by {
                    assert(models(leafs@[d]@) + Seq::<CodeTree>::empty() == models(leafs@[d]@));
                }
                assert forall|i: int| 0 <= i < 16 implies jpeg_symbol@[i]@ == old(
                    jpeg_symbol,
                )@[i]@ + leaf_vals(leaves_at(t0, i + 1 - deep)) by {
                    assert(leaf_vals(Seq::<CodeTree>::empty()) =~= Seq::<u8>::empty());
                    assert(jpeg_symbol@[i]@ + Seq::<u8>::empty() == jpeg_symbol@[i]@);
                }
            }
            return;
        }
        table.stream = Some(BitStream { stream: copy_bits(path) });
        let leaf = table.copy();
        let ghost l = leaf@;
        assert(l == coded(t0, path@));
        leafs[deep - shift].push(leaf);
        assert(leaves_at(t0, 0) == seq![t0]);
        assert(leaves_at(t0, (deep - 1) + 1 - deep).len() == 1);
        jpeg_deep[deep - 1] += 1;
        jpeg_symbol[deep - 1].push(table.val);
        proof {
            assert forall|d: int| 0 <= d < 16 implies models(#[trigger] leafs@[d]@) == models(
                old(leafs)@[d]@,
            ) + leaves_at(coded(t0, path@), d + shift - deep) by {
                if d == deep - shift {
                    assert(models(leafs@[d]@) =~= models(old(leafs)@[d]@).push(l));
                    assert(leaves_at(coded(t0, path@), 0) == seq![l]);
                } else {
                    assert(leaves_at(coded(t0, path@), d + shift - deep) == Seq::<CodeTree>::empty());
                    assert(models(leafs@[d]@) + Seq::<CodeTree>::empty() == models(leafs@[d]@));
                }
            }
            assert forall|i: int| 0 <= i < 16 implies #[trigger] jpeg_symbol@[i]@ == old(
                jpeg_symbol,
            )@[i]@ + leaf_vals(leaves_at(t0, i + 1 - deep)) by {
                if i == deep - 1 {
                    assert(leaf_vals(seq![t0]) =~= seq![t0.val]);
                } else {
                    assert(leaf_vals(Seq::<CodeTree>::empty()) =~= Seq::<u8>::empty());
                    assert(jpeg_symbol@[i]@ + Seq::<u8>::empty() == jpeg_symbol@[i]@);
                }
            }
        }
    } else {
        let ghost leafs0 = leafs@;
        let ghost deep0 = jpeg_deep@;
        let ghost sym0 = jpeg_symbol@;
        let ghost zero_part = match t0.zero {
            Some(z) => leaves_at(*z, 0),
            None => Seq::empty(),
        };
        if let Some(mut zb) = table.zero.take() {
            let mut p0 = copy_bits(path);
            p0.push(false);
            proof {
                assert forall|i: int| 0 <= i < 16 implies jpeg_deep@[i] + (#[trigger] leaves_at(
                    zb@,
                    i + 1 - (deep + 1),
                )).len() <= 255 by {
                    assert(leaves_at(t0, i + 1 - deep) == leaves_at(zb@, i + 1 - (deep + 1)) + (
                    match t0.one {
                        Some(o) => leaves_at(*o, i + 1 - deep - 1),
                        None => Seq::empty(),
                    }));
                }
            }
            prepare_with_path(&mut *zb, deep + 1, &p0, leafs, jpeg_deep, jpeg_symbol, shift);
            table.zero = Some(zb);
        }
        let ghost leafs1 = leafs@;
        let ghost deep1 = jpeg_deep@;
        let ghost sym1 = jpeg_symbol@;
        if let Some(mut ob) = table.one.take() {
            let mut p1 = copy_bits(path);
            p1.push(true);
            proof {
                assert forall|i: int| 0 <= i < 16 implies jpeg_deep@[i] + (#[trigger] leaves_at(
                    ob@,
                    i + 1 - (deep + 1),
                )).len() <= 255 by {
                    assert(leaves_at(t0, i + 1 - deep) == (match t0.zero {
                        Some(z) => leaves_at(*z, i + 1 - deep - 1),
                        None => Seq::empty(),
                    }) + leaves_at(ob@, i + 1 - (deep + 1)));
                }
            }
            prepare_with_path(&mut *ob, deep + 1, &p1, leafs, jpeg_deep, jpeg_symbol, shift);
            table.one = Some(ob);
        }
        proof {
            assert(table@ == coded(t0, path@));
            assert forall|d: int| 0 <= d < 16 implies models(#[trigger] leafs@[d]@) == models(
                leafs0[d]@,
            ) + leaves_at(coded(t0, path@), d + shift - deep) by {
                assert(models(leafs@[d]@) =~= models(leafs0[d]@) + leaves_at(
                    coded(t0, path@),
                    d + shift - deep,
                ));
            }
            assert forall|i: int| 0 <= i < 16 implies #[trigger] jpeg_symbol@[i]@ == sym0[i]@
                + leaf_vals(leaves_at(t0, i + 1 - deep)) by {
                assert(jpeg_symbol@[i]@ =~= sym0[i]@ + leaf_vals(leaves_at(t0, i + 1 - deep)));
            }
        }
    }
}

/// Gives every leaf seen at least once the path that leads to it as its
/// code, and lists, level by level below the top at level `deep`, copies of
/// these leaves in `leafs`, how many there are in `jpeg_deep` and their
/// symbols in `jpeg_symbol` (the last two indexed by code length minus one).
pub fn prepare_jpeg_encoding(
    table: &mut HuffmanTree,
    deep: usize,
    leafs: &mut [Vec<HuffmanTree>; 16],
    jpeg_deep: &mut [u8; 16],
    jpeg_symbol: &mut [Vec<u8>; 16],
)
    requires
        prepare_fits(old(table)@, deep as int, old(jpeg_deep)@, 15),
    ensures
        final(table)@ == coded(old(table)@, Seq::empty()),
        forall|d: int|
            0 <= d < 16 ==> models(#[trigger] final(leafs)@[d]@) == models(old(leafs)@[d]@)
                + leaves_at(coded(old(table)@, Seq::empty()), d - deep),
        forall|i: int|
            0 <= i < 16 ==> #[trigger] final(jpeg_deep)@[i] == old(jpeg_deep)@[i] + leaves_at(
                old(table)@,
                i + 1 - deep,
            ).len(),
        forall|i: int|
            0 <= i < 16 ==> #[trigger] final(jpeg_symbol)@[i]@ == old(jpeg_symbol)@[i]@ + leaf_vals(
                leaves_at(old(table)@, i + 1 - deep),
            ),
{
    let path: Vec<bool> = Vec::new();
    prepare_with_path(table, deep, &path, leafs, jpeg_deep, jpeg_symbol, 0);
}

/// The code space the codes of lengths `1` to `i + 1` take, counted in
/// codes of `i + 1` bits: each code of length `l` takes `2^(i + 1 - l)`.
pub open spec fn code_space(jd: Seq<u8>, i: nat) -> nat
    decreases i,
{
    if i == 0 {
        jd[0] as nat
    } else {
        2 * code_space(jd, (i - 1) as nat) + jd[i as int] as nat
    }
}

/// The first canonical code of length `i + 1`: the code after the last one
/// of the shorter lengths, moved left to the new length.
pub open spec fn base_code(jd: Seq<u8>, i: nat) -> nat {
    if i == 0 {
        0
    } else {
        2 * code_space(jd, (i - 1) as nat)
    }
}

/// Kraft's inequality for the code counts: the codes of each length fit in
/// their number of bits after the shorter ones.
pub open spec fn codes_fit(jd: Seq<u8>) -> bool {
    &&& jd.len() == 16
    &&& forall|i: int| 0 <= i < 16 ==> #[trigger] code_space(jd, i as nat) <= pow2((i + 1) as nat)
}

/// The next length starts from twice the code after the last one.
pub proof fn lemma_base_step(jd: Seq<u8>, i: nat)
    ensures
        code_space(jd, i) == base_code(jd, i) + jd[i as int],
        base_code(jd, i + 1) == 2 * (base_code(jd, i) + jd[i as int]),
{
}

/// A node with its code replaced.
pub open spec fn with_code(t: CodeTree, c: Seq<bool>) -> CodeTree {
    CodeTree {
        zero: t.zero,
        one: t.one,
        isleaf: t.isleaf,
        val: t.val,
        freq: t.freq,
        code: Some(c),
        weight: t.weight,
    }
}

/// The canonical code of the `j`-th leaf of length `i + 1`.
pub open spec fn canonical_code(jd: Seq<u8>, i: nat, j: int) -> Seq<bool> {
    low_bits((base_code(jd, i) + j) as nat, i + 1)
}

/// `sleaf` after canonical codes were given to the first `sym` leaves of
/// length `i + 1` and to all leaves of the shorter lengths; the leaves of
/// length `d + 1` are in `sleaf[d]`.
pub open spec fn codes_given(
    old_sleaf: Seq<Vec<HuffmanTree>>,
    sleaf: Seq<Vec<HuffmanTree>>,
    jd: Seq<u8>,
    i: int,
    sym: int,
) -> bool {
    &&& sleaf.len() == 16
    &&& forall|d: int| 0 <= d < 16 ==> (#[trigger] sleaf[d])@.len() == old_sleaf[d]@.len()
    &&& forall|d: int, j: int|
        0 <= d < 16 && 0 <= j < sleaf[d]@.len() ==> (#[trigger] sleaf[d]@[j])@ == (if j < jd[d] && (d
            < i || (d == i && j < sym)) {
            with_code(old_sleaf[d]@[j]@, canonical_code(jd, d as nat, j))
        } else {
            old_sleaf[d]@[j]@
        })
}

/// Hands out canonical codes: the leaves of each length, shortest first, get
/// consecutive codes, and moving to a longer length shifts the running code
/// left by the difference. The leaves of code length `i + 1` are in
/// `sleaf[i]` and `jpeg_deep[i]` of them get a code.
pub fn generate_bitstreams(sleaf: &mut [Vec<HuffmanTree>; 16], jpeg_deep: [u8; 16])
    requires
        codes_fit(jpeg_deep@),
        forall|i: int| 0 <= i < 16 ==> old(sleaf)@[i]@.len() >= jpeg_deep@[i],
    ensures
        codes_given(old(sleaf)@, final(sleaf)@, jpeg_deep@, 16, 0),
{
    let ghost jd = jpeg_deep@;
    let ghost old_sleaf = sleaf@;
    assert(pow2(16) == 65536) by {
        reveal_with_fuel(pow2, 17);
    }
    let mut code: u32 = 0;
    let mut last_size: usize = 0;
    let mut i: usize = 0;
    assert(pow2(0) == 1);
    while i < 16
        invariant
            0 <= i <= 16,
            jd == jpeg_deep@,
            codes_fit(jd),
            pow2(16) == 65536,
            forall|k: int| 0 <= k < 16 ==> old_sleaf[k]@.len() >= jd[k],
            last_size <= i,
            code as nat * pow2((i - last_size) as nat) == base_code(jd, i as nat),
            codes_given(old_sleaf, sleaf@, jd, i as int, 0),
        decreases 16 - i,
    {
        proof {
            lemma_base_step(jd, i as nat);
            assert(code_space(jd, i as nat) <= pow2((i + 1) as nat));
            lemma_pow2_mono((i + 1) as nat, 16);
            lemma_pow2_pos((i - last_size) as nat);
        }
        let n = jpeg_deep[i];
        let mut sym: u8 = 0;
        while sym < n
            invariant
                0 <= i < 16,
                n == jd[i as int],
                sym <= n,
                jd == jpeg_deep@,
                codes_fit(jd),
                pow2(16) == 65536,
                forall|k: int| 0 <= k < 16 ==> old_sleaf[k]@.len() >= jd[k],
                base_code(jd, i as nat) + n == code_space(jd, i as nat),
                code_space(jd, i as nat) <= 65536,
                last_size <= i,
                sym == 0 ==> code as nat * pow2((i - last_size) as nat) == base_code(jd, i as nat),
                sym > 0 ==> last_size == i && code as nat == base_code(jd, i as nat) + sym,
                codes_given(old_sleaf, sleaf@, jd, i as int, sym as int),
            decreases n - sym,
        {
            if last_size < i {
                while last_size < i
                    invariant
                        last_size <= i < 16,
                        base_code(jd, i as nat) <= 65536,
                        code as nat * pow2((i - last_size) as nat) == base_code(jd, i as nat),
                    decreases i - last_size,
                {
                    proof {
                        let k = (i - last_size) as nat;
                        assert(pow2(k) == 2 * pow2((k - 1) as nat));
                        lemma_pow2_pos((k - 1) as nat);
                        assert(code as nat * pow2(k) == (2 * code as nat) * pow2((k - 1) as nat))
                            by (nonlinear_arith)
                            requires
                                pow2(k) == 2 * pow2((k - 1) as nat),
                        ;
                        assert(2 * code as nat <= (2 * code as nat) * pow2((k - 1) as nat))
                            by (nonlinear_arith)
                            requires
                                pow2((k - 1) as nat) >= 1,
                        ;
                    }
                    code = code * 2;
                    last_size = last_size + 1;
                }
            }
            assert(pow2(0) == 1);
            assert(code as nat * pow2(0) == code as nat) by (nonlinear_arith)
                requires
                    pow2(0) == 1,
            ;
            assert(code as nat == base_code(jd, i as nat) + sym);
            let stream = BitStream { stream: msb_bits(code as u16, i + 1) };
            let ghost before = sleaf@;
            sleaf[i][sym as usize].stream = Some(stream);
            proof {
                assert forall|d: int| 0 <= d < 16 implies (#[trigger] sleaf@[d])@.len()
                    == old_sleaf[d]@.len() by {
                    assert(sleaf@[d]@.len() == before[d]@.len());
                }
                assert forall|d: int, j: int|
                    0 <= d < 16 && 0 <= j < sleaf@[d]@.len() implies (#[trigger] sleaf@[d]@[j])@
                    == (if j < jd[d] && (d < i || (d == i && j < sym + 1)) {
                    with_code(old_sleaf[d]@[j]@, canonical_code(jd, d as nat, j))
                } else {
                    old_sleaf[d]@[j]@
                }) by {
                    if d == i && j == sym {
                        assert(sleaf@[d]@[j]@ == with_code(before[d]@[j]@, canonical_code(jd, i as nat, j)));
                    } else {
                        assert(sleaf@[d]@[j] == before[d]@[j]);
                    }
                }
            }
            code = code + 1;
            sym = sym + 1;
        }
        proof {
            if n > 0 {
                assert(code as nat == code_space(jd, i as nat));
                assert(last_size == i);
                assert(pow2(1) == 2 * pow2(0));
                assert(pow2(0) == 1);
                assert((i + 1 - last_size) as nat == 1);
                assert(code as nat * pow2(1) == 2 * code as nat) by (nonlinear_arith)
                    requires
                        pow2(1) == 2,
                ;
                assert(base_code(jd, (i + 1) as nat) == 2 * code_space(jd, i as nat));
            } else {
                let k = (i - last_size) as nat;
                assert(pow2(k + 1) == 2 * pow2(k));
                assert(code as nat * pow2(k + 1) == 2 * (code as nat * pow2(k))) by (nonlinear_arith)
                    requires
                        pow2(k + 1) == 2 * pow2(k),
                ;
                assert((i + 1 - last_size) as nat == k + 1);
                assert(base_code(jd, (i + 1) as nat) == 2 * base_code(jd, i as nat));
            }
        }
        i = i + 1;
    }
}

/// The Huffman tree built from the frequencies of `values`.
pub open spec fn huffman_tree(values: Seq<u8>) -> CodeTree {
    build_tree(freq_leaves(values)).unwrap()
}

/// How many coded leaves each code length has: entry `i` is for length `i + 1`.
pub open spec fn level_counts(t: CodeTree) -> Seq<u8> {
    Seq::new(16, |i: int| leaves_at(t, i + 1).len() as u8)
}

/// The leaves of code length `d`, each with its canonical code.
pub open spec fn level_leaves(t: CodeTree, d: int) -> Seq<CodeTree> {
    Seq::new(
        leaves_at(t, d).len(),
        |j: int| with_code(leaves_at(t, d)[j], canonical_code(level_counts(t), (d - 1) as nat, j)),
    )
}

/// The coded leaves of the first `n` code lengths, shortest codes first.
pub open spec fn leaves_upto(t: CodeTree, n: nat) -> Seq<CodeTree>
    decreases n,
{
    if n == 0 {
        Seq::empty()
    } else {
        leaves_upto(t, (n - 1) as nat) + level_leaves(t, n as int)
    }
}

/// All coded leaves of the tree, shortest codes first.
pub open spec fn huffman_leaves(t: CodeTree) -> Seq<CodeTree> {
    leaves_upto(t, 16)
}

/// The Huffman code of `values` can be laid out for JPEG: every code is
/// between 1 and 16 bits long and no length has more than 255 codes.
pub open spec fn huffman_fits(values: Seq<u8>) -> bool {
    prepare_fits(huffman_tree(values), 0, Seq::new(16, |i: int| 0u8), 16)
}

/// No leaf lies above the top.
pub proof fn lemma_leaves_neg(t: CodeTree, r: int)
    requires
        r < 0,
    ensures
        leaves_at(t, r) == Seq::<CodeTree>::empty(),
    decreases t,
{
    if !t.isleaf {
        match t.zero {
            Some(z) => lemma_leaves_neg(*z, r - 1),
            None => {},
        }
        match t.one {
            Some(o) => lemma_leaves_neg(*o, r - 1),
            None => {},
        }
        assert(Seq::<CodeTree>::empty() + Seq::<CodeTree>::empty() =~= Seq::<CodeTree>::empty());
    }
}

/// Giving codes along the paths changes nothing in the leaves but their codes.
pub proof fn lemma_leaves_coded(t: CodeTree, p: Seq<bool>, r: int)
    ensures
        leaves_at(coded(t, p), r).len() == leaves_at(t, r).len(),
        forall|j: int, c: Seq<bool>|
            0 <= j < leaves_at(t, r).len() ==> #[trigger] with_code(
                leaves_at(coded(t, p), r)[j],
                c,
            ) == with_code(leaves_at(t, r)[j], c),
    decreases t,
{
    if !t.isleaf {
        let zc = match t.zero {
            Some(z) => leaves_at(coded(*z, p.push(false)), r - 1),
            None => Seq::empty(),
        };
        let zo = match t.zero {
            Some(z) => leaves_at(*z, r - 1),
            None => Seq::empty(),
        };
        let oc = match t.one {
            Some(o) => leaves_at(coded(*o, p.push(true)), r - 1),
            None => Seq::empty(),
        };
        let oo = match t.one {
            Some(o) => leaves_at(*o, r - 1),
            None => Seq::empty(),
        };
        match t.zero {
            Some(z) => lemma_leaves_coded(*z, p.push(false), r - 1),
            None => {},
        }
        match t.one {
            Some(o) => lemma_leaves_coded(*o, p.push(true), r - 1),
            None => {},
        }
        assert(leaves_at(coded(t, p), r) == zc + oc);
        assert(leaves_at(t, r) == zo + oo);
        assert forall|j: int, c: Seq<bool>|
            0 <= j < leaves_at(t, r).len() implies #[trigger] with_code(
            leaves_at(coded(t, p), r)[j],
            c,
        ) == with_code(leaves_at(t, r)[j], c) by {
            if j < zo.len() {
                assert(leaves_at(coded(t, p), r)[j] == zc[j]);
                assert(leaves_at(t, r)[j] == zo[j]);
            } else {
                assert(leaves_at(coded(t, p), r)[j] == oc[j - zo.len()]);
                assert(leaves_at(t, r)[j] == oo[j - zo.len()]);
            }
        }
    }
}

/// The counts of each value below `n` add up to how many of them there are.
pub open spec fn count_upto(values: Seq<u8>, n: nat) -> nat
    decreases n,
{
    if n == 0 {
        0
    } else {
        count_upto(values, (n - 1) as nat) + count(values, (n - 1) as u8)
    }
}

proof fn lemma_count_upto_step(values: Seq<u8>, n: nat)
    requires
        values.len() > 0,
        n <= 256,
    ensures
        count_upto(values, n) == count_upto(values.drop_last(), n) + (if (values.last() as nat)
            < n {
            1nat
        } else {
            0nat
        }),
    decreases n,
{
    if n > 0 {
        lemma_count_upto_step(values, (n - 1) as nat);
        assert(((n - 1) as u8) == values.last() <==> values.last() as nat == n - 1);
    }
}

/// Every value is counted once: the counts add up to the length.
pub proof fn lemma_count_total(values: Seq<u8>)
    ensures
        count_upto(values, 256) == values.len(),
    decreases values.len(),
{
    if values.len() == 0 {
        lemma_count_upto_zero(values, 256);
    } else {
        lemma_count_total(values.drop_last());
        lemma_count_upto_step(values, 256);
    }
}

proof fn lemma_count_upto_zero(values: Seq<u8>, n: nat)
    requires
        values.len() == 0,
    ensures
        count_upto(values, n) == 0,
    decreases n,
{
    if n > 0 {
        lemma_count_upto_zero(values, (n - 1) as nat);
    }
}

proof fn lemma_sorted_leaves_sums(values: Seq<u8>, n: nat)
    requires
        n <= 256,
        values.len() <= u64::MAX,
    ensures
        freq_sum(sorted_leaves(values, n)) == count_upto(values, n),
        weight_sum(sorted_leaves(values, n)) <= n,
        forall|k: int|
            0 <= k < sorted_leaves(values, n).len() ==> (#[trigger] sorted_leaves(values, n)[k]).freq
                <= values.len(),
    decreases n,
{
    if n > 0 {
        lemma_sorted_leaves_sums(values, (n - 1) as nat);
        let prev = sorted_leaves(values, (n - 1) as nat);
        let c = count(values, (n - 1) as u8);
        if c > 0 {
            lemma_count_le(values, (n - 1) as u8);
            lemma_stable_index_bound(prev, c as u64);
            lemma_sums_insert(prev, stable_index(prev, c as u64) as int, leaf_model((n - 1) as u8, c as u64));
        }
    }
}

/// A value occurs at most as often as there are values.
pub proof fn lemma_count_le(values: Seq<u8>, v: u8)
    ensures
        count(values, v) <= values.len(),
    decreases values.len(),
{
    if values.len() > 0 {
        lemma_count_le(values.drop_last(), v);
    }
}

/// The frequency leaves of `values` can be merged without overflow.
pub proof fn lemma_freq_leaves_sums(values: Seq<u8>)
    requires
        values.len() <= u64::MAX,
    ensures
        freq_sum(freq_leaves(values)) == values.len(),
        weight_sum(freq_leaves(values)) <= 256 + 257,
{
    lemma_sorted_leaves_sums(values, 256);
    lemma_count_total(values);
    let s = freq_leaves(values);
    assert(s.drop_last() == sorted_leaves(values, 256));
}

/// Where the tree fits, the code counts are the numbers of leaves on each level.
pub proof fn lemma_level_count(t: CodeTree, i: int)
    requires
        prepare_fits(t, 0, Seq::new(16, |k: int| 0u8), 16),
        0 <= i < 16,
    ensures
        leaves_at(t, i + 1).len() <= 255,
        level_counts(t)[i] == leaves_at(t, i + 1).len(),
{
    let zeros = Seq::new(16, |k: int| 0u8);
    assert(zeros[i] + leaves_at(t, i + 1 - 0).len() <= 255);
}

/// An array of 16 empty vectors.
pub(crate) fn empty_lists<T>() -> (res: [Vec<T>; 16])
    ensures
        forall|i: int| 0 <= i < 16 ==> (#[trigger] res@[i])@.len() == 0,
{
    [
        Vec::new(),
        Vec::new(),
        Vec::new(),
        Vec::new(),
        Vec::new(),
        Vec::new(),
        Vec::new(),
        Vec::new(),
        Vec::new(),
        Vec::new(),
        Vec::new(),
        Vec::new(),
        Vec::new(),
        Vec::new(),
        Vec::new(),
        Vec::new(),
    ]
}

/// Whether the tree fits when its top is at level `deep` and `counts` leaves
/// of each length were seen before; if it does, `counts` gains the leaves of
/// each length in the tree.
fn measure_fits(t: &HuffmanTree, deep: usize, counts: &mut [u8; 16]) -> (ok: bool)
    ensures
        ok == prepare_fits(t@, deep as int, old(counts)@, 16),
        ok ==> forall|i: int|
            0 <= i < 16 ==> #[trigger] final(counts)@[i] == old(counts)@[i] + leaves_at(
                t@,
                i + 1 - deep,
            ).len(),
    decreases t,
{
    let ghost c0 = counts@;
    let ghost m = t@;
    if t.isleaf {
        if t.freq == 0 {
            assert forall|i: int| 0 <= i < 16 implies #[trigger] counts@[i] == c0[i] + leaves_at(
                m,
                i + 1 - deep,
            ).len() by {}
            return true;
        }
        if deep < 1 || deep > 16 {
            return false;
        }
        if counts[deep - 1] == 255 {
            assert(leaves_at(m, (deep - 1) + 1 - deep).len() == 1);
            return false;
        }
        counts[deep - 1] = counts[deep - 1] + 1;
        assert forall|i: int| 0 <= i < 16 implies c0[i] + (#[trigger] leaves_at(m, i + 1 - deep)).len()
            <= 255 by {
            if i == deep - 1 {
                assert(leaves_at(m, 0).len() == 1);
            }
        }
        assert forall|i: int| 0 <= i < 16 implies #[trigger] counts@[i] == c0[i] + leaves_at(
            m,
            i + 1 - deep,
        ).len() by {
            if i == deep - 1 {
                assert(leaves_at(m, 0).len() == 1);
            }
        }
        return true;
    }
    if deep == usize::MAX {
        assert(height(m) >= 1);
        return false;
    }
    let ghost lz = |r: int| match m.zero {
        Some(z) => leaves_at(*z, r),
        None => Seq::<CodeTree>::empty(),
    };
    let ghost lo = |r: int| match m.one {
        Some(o) => leaves_at(*o, r),
        None => Seq::<CodeTree>::empty(),
    };
    assert(forall|r: int| #[trigger] leaves_at(m, r) == lz(r - 1) + lo(r - 1));
    let ok0 = match &t.zero {
        Some(z) => measure_fits(z, deep + 1, counts),
        None => true,
    };
    if !ok0 {
        proof {
            if prepare_fits(m, deep as int, c0, 16) {
                if let Some(z) = m.zero {
                    assert forall|i: int| 0 <= i < 16 implies c0[i] + (#[trigger] leaves_at(
                        *z,
                        i + 1 - (deep + 1),
                    )).len() <= 255 by {
                        assert(leaves_at(m, i + 1 - deep) == lz(i + 1 - (deep + 1)) + lo(
                            i + 1 - (deep + 1),
                        ));
                    }
                    assert(prepare_fits(*z, deep + 1, c0, 16));
                }
            }
        }
        return false;
    }
    let ghost c1 = counts@;
    assert forall|i: int| 0 <= i < 16 implies #[trigger] c1[i] == c0[i] + lz(i + 1 - (deep + 1)).len() by {
        if m.zero is None {
            assert(c1[i] == c0[i]);
        }
    }
    let ok1 = match &t.one {
        Some(o) => measure_fits(o, deep + 1, counts),
        None => true,
    };
    proof {
        assert forall|i: int| 0 <= i < 16 implies #[trigger] leaves_at(m, i + 1 - deep)
            == lz(i + 1 - (deep + 1)) + lo(i + 1 - (deep + 1)) by {}
        let pz = match m.zero {
            Some(z) => prepare_fits(*z, deep + 1, c0, 16),
            None => true,
        };
        let po = match m.one {
            Some(o) => prepare_fits(*o, deep + 1, c1, 16),
            None => true,
        };
        assert(pz);
        assert(ok1 == po);
        let counts_ok = forall|i: int|
            0 <= i < 16 ==> c0[i] + (#[trigger] leaves_at(m, i + 1 - deep)).len() <= 255;
        if po {
            assert forall|i: int| 0 <= i < 16 implies c0[i] + (#[trigger] leaves_at(
                m,
                i + 1 - deep,
            )).len() <= 255 by {
                if let Some(o) = m.one {
                    assert(c1[i] + leaves_at(*o, i + 1 - (deep + 1)).len() <= 255);
                }
            }
            assert(prepare_fits(m, deep as int, c0, 16));
        } else {
            if counts_ok {
                match m.one {
                    Some(o) => {
                        assert forall|i: int| 0 <= i < 16 implies c1[i] + (#[trigger] leaves_at(
                            *o,
                            i + 1 - (deep + 1),
                        )).len() <= 255 by {
                            assert(c0[i] + leaves_at(m, i + 1 - deep).len() <= 255);
                        }
                        assert(prepare_fits(*o, deep + 1, c1, 16) ==> po);
                        assert(!prepare_fits(m, deep as int, c0, 16));
                    },
                    None => {},
                }
            }
            assert(!prepare_fits(m, deep as int, c0, 16));
        }
        if ok1 {
            assert forall|i: int| 0 <= i < 16 implies #[trigger] counts@[i] == c0[i] + leaves_at(
                m,
                i + 1 - deep,
            ).len() by {
                if m.one is None {
                    assert(counts@[i] == c1[i]);
                }
            }
        }
    }
    ok1
}

/// Whether [`perform_huffman_no_encoding`] can lay out the Huffman code of
/// `values` for JPEG.
pub fn check_huffman(values: &Vec<u8>) -> (res: bool)
    ensures
        res == huffman_fits(values@),
{
    let leafs = generate_freq_leafs(values);
    let n: usize = values.len();
    assert(n <= usize::MAX);
    assert(usize::MAX <= u64::MAX);
    proof {
        lemma_freq_leaves_sums(values@);
    }
    let table = match construct_huff_table(leafs) {
        Ok(t) => t,
        Err(_) => {
            return false;
        },
    };
    let ghost t = huffman_tree(values@);
    assert(table@ == t);
    let mut counts: [u8; 16] = [0u8; 16];
    assert(counts@ =~= Seq::new(16, |i: int| 0u8));
    measure_fits(&table, 0, &mut counts)
}

/// The Huffman code of `values` for JPEG: the coded leaves, shortest codes
/// first, with their canonical codes; how many codes each length has; and
/// the symbols of each length.
pub fn perform_huffman_no_encoding(values: &Vec<u8>) -> (res: Result<
    (Vec<HuffmanTree>, [u8; 16], [Vec<u8>; 16]),
    JpegError,
>)
    requires
        huffman_fits(values@),
    ensures
        res matches Ok((leaves, deep, symbols)) && models(leaves@) == huffman_leaves(
            huffman_tree(values@),
        ) && deep@ == level_counts(huffman_tree(values@)) && forall|i: int|
            0 <= i < 16 ==> (#[trigger] symbols@[i])@ == leaf_vals(
                leaves_at(huffman_tree(values@), i + 1),
            ),
{
    let ghost t = huffman_tree(values@);
    let leafs = generate_freq_leafs(values);
    let n: usize = values.len();
    assert(n <= usize::MAX);
    assert(usize::MAX <= u64::MAX);
    assert(values@.len() <= u64::MAX);
    proof {
        lemma_freq_leaves_sums(values@);
    }
    let mut table = match construct_huff_table(leafs) {
        Ok(t) => t,
        Err(e) => {
            return Err(e);
        },
    };
    assert(table@ == t);
    let mut sleaf: [Vec<HuffmanTree>; 16] = empty_lists();
    let mut jpeg_symbol: [Vec<u8>; 16] = empty_lists();
    let mut jpeg_deep: [u8; 16] = [0u8; 16];
    assert(jpeg_deep@ =~= Seq::new(16, |i: int| 0u8));
    let path: Vec<bool> = Vec::new();
    prepare_with_path(&mut table, 0, &path, &mut sleaf, &mut jpeg_deep, &mut jpeg_symbol, 1);
    let ghost prepared = sleaf@;
    proof {
        assert(jpeg_deep@ =~= level_counts(t));
        lemma_tree_codes_fit(t);
        assert forall|i: int| 0 <= i < 16 implies prepared[i]@.len() >= jpeg_deep@[i] by {
            lemma_leaves_coded(t, Seq::empty(), i + 1);
            lemma_level_count(t, i);
            assert(models(prepared[i]@).len() == prepared[i]@.len());
        }
    }
    generate_bitstreams(&mut sleaf, jpeg_deep);
    let ghost gen = sleaf@;
    let mut leaves: Vec<HuffmanTree> = Vec::new();
    let mut d: usize = 0;
    while d < 16
        invariant
            d <= 16,
            jpeg_deep@ == level_counts(t),
            prepare_fits(t, 0, Seq::new(16, |i: int| 0u8), 16),
            forall|k: int|
                0 <= k < 16 ==> models(#[trigger] prepared[k]@) == leaves_at(
                    coded(t, Seq::empty()),
                    k + 1,
                ),
            codes_given(prepared, gen, jpeg_deep@, 16, 0),
            forall|k: int| d <= k < 16 ==> #[trigger] sleaf@[k] == gen[k],
            models(leaves@) == leaves_upto(t, d as nat),
        decreases 16 - d,
    {
        let mut level: Vec<HuffmanTree> = Vec::new();
        std::mem::swap(&mut level, &mut sleaf[d]);
        proof {
            lemma_leaves_coded(t, Seq::empty(), d + 1);
            lemma_level_count(t, d as int);
            assert(jpeg_deep@[d as int] == leaves_at(t, d + 1).len());
            assert(models(prepared[d as int]@).len() == prepared[d as int]@.len());
            assert forall|j: int| 0 <= j < level@.len() implies #[trigger] models(level@)[j]
                == level_leaves(t, d + 1)[j] by {
                assert(level@[j] == gen[d as int]@[j]);
                let orig = prepared[d as int]@[j]@;
                assert(orig == leaves_at(coded(t, Seq::empty()), d + 1)[j]);
            }
            assert(models(level@) =~= level_leaves(t, d + 1));
        }
        leaves.append(&mut level);
        d = d + 1;
        proof {
            assert(models(leaves@) =~= leaves_upto(t, d as nat));
        }
    }
    Ok((leaves, jpeg_deep, jpeg_symbol))
}

/// A copy of a byte vector.
fn copy_bytes(v: &Vec<u8>) -> (res: Vec<u8>)
    ensures
        res@ == v@,
{
    let mut res: Vec<u8> = Vec::new();
    let mut i: usize = 0;
    while i < v.len()
        invariant
            i <= v@.len(),
            res@ == v@.take(i as int),
        decreases v@.len() - i,
    {
        res.push(v[i]);
        i = i + 1;
        assert(res@ =~= v@.take(i as int));
    }
    assert(res@ =~= v@);
    res
}

/// The Huffman code of `values` for JPEG and the values coded with it: the
/// code of each value, how many codes each length has, and the symbols of
/// each length.
pub fn _perform_huffman(values: &Vec<u8>) -> (res: Result<
    (Vec<BitStream>, [u8; 16], [Vec<u8>; 16]),
    JpegError,
>)
    requires
        huffman_fits(values@),
    ensures
        res matches Ok((stream, deep, symbols)) && stream@.map_values(|s: BitStream| s@)
            == encode_values(values@, huffman_leaves(huffman_tree(values@))) && deep@
            == level_counts(huffman_tree(values@)) && forall|i: int|
            0 <= i < 16 ==> (#[trigger] symbols@[i])@ == leaf_vals(
                leaves_at(huffman_tree(values@), i + 1),
            ),
{
    let (eleaf, jpeg_deep, jpeg_symbol) = match perform_huffman_no_encoding(values) {
        Ok(r) => r,
        Err(e) => {
            return Err(e);
        },
    };
    let stream = _encode_to_bistream(copy_bytes(values), eleaf);
    Ok((stream, jpeg_deep, jpeg_symbol))
}
} // verus!
