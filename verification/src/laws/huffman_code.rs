use vstd::prelude::*;

use crate::bitstream::{bits_value, lemma_low_bits_len, lemma_low_bits_value, low_bits, pow2};
use crate::huffman::{
    base_code, build_tree, canonical_code, code_of, code_space, codes_fit, count, depths_fit,
    filler_model, freq_leaves, freq_sum, huffman_fits, huffman_leaves, huffman_tree, insert_index,
    leaf_model, leaves_at, leaves_upto, lemma_base_step, lemma_count_le, lemma_freq_leaves_sums, lemma_insert_index_bound, lemma_sums_take,
    lemma_leaves_neg, lemma_level_count, lemma_merge_step, lemma_merge_step_len, level_counts,
    level_leaves, merge_node, merge_step, node_sums, prepare_fits, sorted_leaves, stable_index, weight_sum,
    CodeTree,
};

verus! {

proof fn lemma_build_tree_sums(s: Seq<CodeTree>)
    requires
        s.len() >= 1,
        freq_sum(s) <= u64::MAX,
        weight_sum(s) <= u16::MAX,
    ensures
        build_tree(s) is Some,
        build_tree(s).unwrap().freq == freq_sum(s),
        build_tree(s).unwrap().weight == weight_sum(s),
    decreases s.len(),
{
    if s.len() == 1 {
        assert(s.drop_last() =~= Seq::<CodeTree>::empty());
        assert(freq_sum(s.drop_last()) == 0);
        assert(weight_sum(s.drop_last()) == 0);
    } else {
        lemma_merge_step(s);
        lemma_build_tree_sums(merge_step(s));
    }
}

/// Joining nodes keeps their frequencies and weights: the tree built from
/// a list of nodes has at its top the sum of their frequencies and weights.
pub proof fn law_build_tree_sums(s: Seq<CodeTree>)
    requires
        s.len() >= 1,
        freq_sum(s) <= u64::MAX,
        weight_sum(s) <= u16::MAX,
    ensures
        build_tree(s) is Some,
        build_tree(s).unwrap().freq == freq_sum(s),
        build_tree(s).unwrap().weight == weight_sum(s),
{
    lemma_build_tree_sums(s);
}

/// The top of the Huffman tree of some values counts every value once.
pub proof fn law_huffman_root_count(values: Seq<u8>)
    requires
        values.len() <= u64::MAX,
    ensures
        huffman_tree(values).freq == values.len(),
{
    lemma_freq_leaves_sums(values);
    lemma_build_tree_sums(freq_leaves(values));
}

proof fn lemma_build_tree_node_sums(s: Seq<CodeTree>)
    requires
        s.len() >= 1,
        freq_sum(s) <= u64::MAX,
        weight_sum(s) <= u16::MAX,
        forall|k: int| 0 <= k < s.len() ==> node_sums(#[trigger] s[k]),
    ensures
        node_sums(build_tree(s).unwrap()),
    decreases s.len(),
{
    if s.len() > 1 {
        lemma_merge_step(s);
        lemma_sums_take(s);
        let rest = s.take(s.len() - 2);
        let a = s[s.len() - 1];
        let b = s[s.len() - 2];
        let n = if a.weight > b.weight {
            merge_node(b, a)
        } else {
            merge_node(a, b)
        };
        assert(node_sums(n));
        let idx = insert_index(rest, n.freq) as int;
        lemma_insert_index_bound(rest, n.freq);
        let m = merge_step(s);
        assert(m == rest.insert(idx, n));
        assert forall|k: int| 0 <= k < m.len() implies node_sums(#[trigger] m[k]) by {
            if k < idx {
                assert(m[k] == s[k]);
            } else if k > idx {
                assert(m[k] == s[k - 1]);
            }
        }
        lemma_build_tree_node_sums(m);
    }
}

/// Every inner node of the Huffman tree of some values joins two nodes and
/// carries the sums of their frequencies and of their weights.
pub proof fn law_huffman_node_sums(values: Seq<u8>)
    requires
        values.len() <= u64::MAX,
    ensures
        node_sums(huffman_tree(values)),
{
    lemma_freq_leaves_sums(values);
    law_freq_leaves(values);
    let f = freq_leaves(values);
    assert forall|k: int| 0 <= k < f.len() implies node_sums(#[trigger] f[k]) by {
        if k < f.len() - 1 {
            assert(f[k] == leaf_model(f[k].val, count(values, f[k].val) as u64));
        }
    }
    lemma_build_tree_node_sums(f);
}

/// The nodes are in order of decreasing frequency.
pub open spec fn freq_sorted(s: Seq<CodeTree>) -> bool {
    forall|i: int, j: int| 0 <= i < j < s.len() ==> #[trigger] s[i].freq >= #[trigger] s[j].freq
}

proof fn lemma_insert_index(s: Seq<CodeTree>, f: u64)
    ensures
        insert_index(s, f) <= s.len(),
        forall|k: int| 0 <= k < insert_index(s, f) ==> #[trigger] s[k].freq > f,
        insert_index(s, f) < s.len() ==> s[insert_index(s, f) as int].freq <= f,
    decreases s.len(),
{
    if s.len() > 0 && f < s[0].freq {
        let t = s.drop_first();
        lemma_insert_index(t, f);
        assert forall|k: int| 0 <= k < insert_index(s, f) implies #[trigger] s[k].freq > f by {
            if k > 0 {
                assert(s[k] == t[k - 1]);
            }
        }
        if insert_index(s, f) < s.len() {
            assert(s[insert_index(s, f) as int] == t[insert_index(t, f) as int]);
        }
    }
}

proof fn lemma_stable_index(s: Seq<CodeTree>, f: u64)
    ensures
        stable_index(s, f) <= s.len(),
        forall|k: int| 0 <= k < stable_index(s, f) ==> #[trigger] s[k].freq >= f,
        stable_index(s, f) < s.len() ==> s[stable_index(s, f) as int].freq < f,
    decreases s.len(),
{
    if s.len() > 0 && f <= s[0].freq {
        let t = s.drop_first();
        lemma_stable_index(t, f);
        assert forall|k: int| 0 <= k < stable_index(s, f) implies #[trigger] s[k].freq >= f by {
            if k > 0 {
                assert(s[k] == t[k - 1]);
            }
        }
        if stable_index(s, f) < s.len() {
            assert(s[stable_index(s, f) as int] == t[stable_index(t, f) as int]);
        }
    }
}

/// Putting `x` where every node before it is more frequent and the node
/// after it is not more frequent keeps a sorted list sorted.
proof fn lemma_insert_sorted(s: Seq<CodeTree>, idx: int, x: CodeTree)
    requires
        freq_sorted(s),
        0 <= idx <= s.len(),
        forall|k: int| 0 <= k < idx ==> #[trigger] s[k].freq >= x.freq,
        idx < s.len() ==> s[idx].freq <= x.freq,
    ensures
        freq_sorted(s.insert(idx, x)),
{
    let r = s.insert(idx, x);
    assert forall|i: int, j: int| 0 <= i < j < r.len() implies #[trigger] r[i].freq
        >= #[trigger] r[j].freq by {
        if j < idx {
            assert(r[i] == s[i] && r[j] == s[j]);
        } else if j == idx {
            assert(r[i] == s[i]);
        } else if i < idx {
            assert(r[i] == s[i] && r[j] == s[j - 1]);
        } else if i == idx {
            assert(r[j] == s[j - 1]);
            assert(s[idx].freq >= s[j - 1].freq || j - 1 == idx);
        } else {
            assert(r[i] == s[i - 1] && r[j] == s[j - 1]);
        }
    }
}

/// Putting a node in its place by frequency keeps a list sorted by
/// decreasing frequency sorted.
pub proof fn law_insert_keeps_sorted(s: Seq<CodeTree>, x: CodeTree)
    requires
        freq_sorted(s),
    ensures
        freq_sorted(s.insert(insert_index(s, x.freq) as int, x)),
{
    lemma_insert_index(s, x.freq);
    lemma_insert_sorted(s, insert_index(s, x.freq) as int, x);
}

/// Each step of the tree construction keeps the list of nodes sorted by
/// decreasing frequency.
pub proof fn law_merge_step_keeps_sorted(s: Seq<CodeTree>)
    requires
        s.len() >= 2,
        freq_sorted(s),
    ensures
        freq_sorted(merge_step(s)),
{
    let rest = s.take(s.len() - 2);
    assert(freq_sorted(rest));
    let a = s[s.len() - 1];
    let b = s[s.len() - 2];
    let n = if a.weight > b.weight {
        merge_node(b, a)
    } else {
        merge_node(a, b)
    };
    law_insert_keeps_sorted(rest, n);
}

#[verifier::spinoff_prover]
#[verifier::rlimit(30)]
proof fn lemma_sorted_leaves(values: Seq<u8>, n: nat)
    requires
        n <= 256,
    ensures
        freq_sorted(sorted_leaves(values, n)),
        forall|k: int|
            0 <= k < sorted_leaves(values, n).len() ==> {
                let l = #[trigger] sorted_leaves(values, n)[k];
                &&& l == leaf_model(l.val, count(values, l.val) as u64)
                &&& count(values, l.val) > 0
                &&& l.val < n
            },
        forall|i: int, j: int|
            0 <= i < j < sorted_leaves(values, n).len() ==> #[trigger] sorted_leaves(values, n)[i].val
                != #[trigger] sorted_leaves(values, n)[j].val,
        forall|v: u8|
            v < n && #[trigger] count(values, v) > 0 ==> exists|k: int|
                0 <= k < sorted_leaves(values, n).len() && sorted_leaves(values, n)[k].val == v,
    decreases n,
{
    if n > 0 {
        let m = (n - 1) as nat;
        lemma_sorted_leaves(values, m);
        let prev = sorted_leaves(values, m);
        let c = count(values, m as u8);
        if c > 0 {
            let idx = stable_index(prev, c as u64);
            let x = leaf_model(m as u8, c as u64);
            lemma_stable_index(prev, c as u64);
            lemma_insert_sorted(prev, idx as int, x);
            let r = prev.insert(idx as int, x);
            assert(r == sorted_leaves(values, n));
            assert(x.val == m);
            assert forall|k: int| 0 <= k < r.len() implies {
                let l = #[trigger] r[k];
                &&& l == leaf_model(l.val, count(values, l.val) as u64)
                &&& count(values, l.val) > 0
                &&& l.val < n
            } by {
                if k < idx {
                    assert(r[k] == prev[k]);
                } else if k > idx {
                    assert(r[k] == prev[k - 1]);
                }
            }
            assert forall|i: int, j: int| 0 <= i < j < r.len() implies #[trigger] r[i].val
                != #[trigger] r[j].val by {
                if i != idx && j != idx {
                    let pi = if i < idx { i } else { i - 1 };
                    let pj = if j < idx { j } else { j - 1 };
                    assert(r[i] == prev[pi] && r[j] == prev[pj]);
                } else if i == idx {
                    assert(r[j] == prev[j - 1]);
                } else {
                    let pi = if i < idx { i } else { i - 1 };
                    assert(r[i] == prev[pi]);
                }
            }
            assert forall|v: u8| v < n && #[trigger] count(values, v) > 0 implies exists|k: int|
                0 <= k < r.len() && r[k].val == v by {
                if v == m {
                    assert(r[idx as int].val == v);
                } else {
                    let k = choose|k: int| 0 <= k < prev.len() && prev[k].val == v;
                    if k < idx {
                        assert(r[k] == prev[k]);
                    } else {
                        assert(r[k + 1] == prev[k]);
                    }
                }
            }
        } else {
            assert(sorted_leaves(values, n) == prev);
            assert forall|v: u8| v < n && #[trigger] count(values, v) > 0 implies exists|k: int|
                0 <= k < prev.len() && prev[k].val == v by {
                assert(v != m);
            }
        }
    }
}

/// The frequency leaves of some values: one leaf for each value that
/// occurs, holding how often it occurs, no value twice, sorted by
/// decreasing frequency, then the filler leaf.
pub proof fn law_freq_leaves(values: Seq<u8>)
    ensures
        freq_sorted(freq_leaves(values)),
        freq_leaves(values).last() == filler_model(),
        forall|k: int|
            0 <= k < freq_leaves(values).len() - 1 ==> {
                let l = #[trigger] freq_leaves(values)[k];
                &&& l == leaf_model(l.val, count(values, l.val) as u64)
                &&& count(values, l.val) > 0
            },
        forall|i: int, j: int|
            0 <= i < j < freq_leaves(values).len() - 1 ==> #[trigger] freq_leaves(values)[i].val
                != #[trigger] freq_leaves(values)[j].val,
        forall|v: u8|
            #[trigger] count(values, v) > 0 ==> exists|k: int|
                0 <= k < freq_leaves(values).len() - 1 && freq_leaves(values)[k].val == v,
{
    lemma_sorted_leaves(values, 256);
    let s = sorted_leaves(values, 256);
    let f = freq_leaves(values);
    assert(f == s.push(filler_model()));
    assert forall|i: int, j: int| 0 <= i < j < f.len() implies #[trigger] f[i].freq
        >= #[trigger] f[j].freq by {
        if j < s.len() {
            assert(f[i] == s[i] && f[j] == s[j]);
        }
    }
    assert forall|k: int| 0 <= k < f.len() - 1 implies {
        let l = #[trigger] f[k];
        &&& l == leaf_model(l.val, count(values, l.val) as u64)
        &&& count(values, l.val) > 0
    } by {
        assert(f[k] == s[k]);
    }
    assert forall|i: int, j: int| 0 <= i < j < f.len() - 1 implies #[trigger] f[i].val
        != #[trigger] f[j].val by {
        assert(f[i] == s[i] && f[j] == s[j]);
    }
    assert forall|v: u8| #[trigger] count(values, v) > 0 implies exists|k: int|
        0 <= k < f.len() - 1 && f[k].val == v by {
        assert(v < 256);
        let k = choose|k: int| 0 <= k < s.len() && s[k].val == v;
        assert(f[k] == s[k]);
    }
}

/// The code space only grows with the length: moving one length further at
/// least doubles it.
proof fn lemma_code_space_grows(jd: Seq<u8>, i1: nat, i: nat)
    requires
        i1 <= i,
    ensures
        code_space(jd, i) >= code_space(jd, i1) * pow2((i - i1) as nat),
    decreases i,
{
    if i == i1 {
        assert(pow2(0) == 1);
        assert(code_space(jd, i1) * pow2(0) == code_space(jd, i1)) by (nonlinear_arith)
            requires
                pow2(0) == 1,
        ;
    } else {
        let p = (i - 1) as nat;
        lemma_code_space_grows(jd, i1, p);
        assert(code_space(jd, i) == 2 * code_space(jd, p) + jd[i as int] as nat);
        assert(pow2((i - i1) as nat) == 2 * pow2((p - i1) as nat));
        assert(code_space(jd, i) >= 2 * code_space(jd, p));
        assert(2 * code_space(jd, p) >= code_space(jd, i1) * pow2((i - i1) as nat)) by (nonlinear_arith)
            requires
                code_space(jd, p) >= code_space(jd, i1) * pow2((p - i1) as nat),
                pow2((i - i1) as nat) == 2 * pow2((p - i1) as nat),
        ;
    }
}

/// The first `l1` of the `l1 + d` low bits of `v` are the `l1` low bits of
/// `v` shifted right by `d`.
proof fn lemma_low_bits_take(v: nat, l1: nat, d: nat)
    ensures
        low_bits(v, l1 + d).take(l1 as int) == low_bits(v / pow2(d), l1),
    decreases d,
{
    lemma_low_bits_len(v, l1 + d);
    if d == 0 {
        assert(pow2(0) == 1);
        assert(low_bits(v, l1).take(l1 as int) =~= low_bits(v, l1));
    } else {
        let d1 = (d - 1) as nat;
        lemma_low_bits_take(v / 2, l1, d1);
        assert(low_bits(v, l1 + d) == low_bits(v / 2, l1 + d1).push(v % 2 == 1));
        lemma_low_bits_len(v / 2, l1 + d1);
        assert(low_bits(v, l1 + d).take(l1 as int) =~= low_bits(v / 2, l1 + d1).take(l1 as int));
        crate::bitstream::lemma_pow2_pos(d1);
        vstd::arithmetic::div_mod::lemma_div_denominator(v as int, 2, pow2(d1) as int);
        assert(pow2(d) == 2 * pow2(d1));
    }
}

/// Different values below `2^l` have different `l` low bits.
proof fn lemma_low_bits_injective(v: nat, w: nat, l: nat)
    requires
        v < pow2(l),
        w < pow2(l),
        low_bits(v, l) == low_bits(w, l),
    ensures
        v == w,
{
    lemma_low_bits_value(v, l);
    lemma_low_bits_value(w, l);
}

/// The canonical codes handed out are a prefix code: no code is the start
/// of another, so a decoder can tell where each code ends. This holds for
/// every length from 1 to 16 bits whenever the code counts meet Kraft's
/// inequality, as the code lengths of a Huffman tree do.
pub proof fn law_canonical_prefix_free(jd: Seq<u8>, i1: nat, j1: int, i2: nat, j2: int)
    requires
        codes_fit(jd),
        i1 < 16,
        i2 < 16,
        0 <= j1 < jd[i1 as int],
        0 <= j2 < jd[i2 as int],
        i1 != i2 || j1 != j2,
    ensures
        !canonical_code(jd, i1, j1).is_prefix_of(canonical_code(jd, i2, j2)),
{
    let v1 = base_code(jd, i1) + j1;
    let v2 = base_code(jd, i2) + j2;
    lemma_base_step(jd, i1);
    lemma_base_step(jd, i2);
    assert(code_space(jd, i1) <= pow2(i1 + 1));
    assert(code_space(jd, i2) <= pow2(i2 + 1));
    let c1 = canonical_code(jd, i1, j1);
    let c2 = canonical_code(jd, i2, j2);
    lemma_low_bits_len(v1 as nat, i1 + 1);
    lemma_low_bits_len(v2 as nat, i2 + 1);
    assert(0 <= v1 < pow2(i1 + 1));
    assert(0 <= v2 < pow2(i2 + 1));
    if i1 == i2 {
        if c1.is_prefix_of(c2) {
            assert(c1 =~= c2);
            lemma_low_bits_injective(v1 as nat, v2 as nat, i1 + 1);
        }
    } else if i1 < i2 {
        if c1.is_prefix_of(c2) {
            let l1 = i1 + 1;
            let d = (i2 - i1) as nat;
            assert(l1 + d == i2 + 1);
            lemma_low_bits_take(v2 as nat, l1, d);
            assert(c2.subrange(0, l1 as int) =~= c2.take(l1 as int));
            crate::bitstream::lemma_pow2_add(l1, d);
            crate::bitstream::lemma_pow2_pos(d);
            let q = v2 / pow2(d) as int;
            vstd::arithmetic::div_mod::lemma_multiply_divide_lt(v2, pow2(d) as int, pow2(l1) as int);
            assert(pow2(l1 + d) == pow2(d) * pow2(l1)) by (nonlinear_arith)
                requires
                    pow2(l1 + d) == pow2(l1) * pow2(d),
            ;
            vstd::arithmetic::div_mod::lemma_div_pos_is_pos(v2, pow2(d) as int);
            lemma_low_bits_injective(q as nat, v1 as nat, l1);
            let p = (i2 - 1) as nat;
            lemma_code_space_grows(jd, i1, p);
            assert(pow2(d) == 2 * pow2((p - i1) as nat));
            let e1 = code_space(jd, i1);
            assert(v2 >= (v1 + 1) * pow2(d)) by (nonlinear_arith)
                requires
                    v2 >= 2 * code_space(jd, p),
                    code_space(jd, p) >= e1 * pow2((p - i1) as nat),
                    pow2(d) == 2 * pow2((p - i1) as nat),
                    e1 >= v1 + 1,
            ;
            vstd::arithmetic::div_mod::lemma_div_by_multiple(v1 + 1, pow2(d) as int);
            vstd::arithmetic::div_mod::lemma_div_is_ordered((v1 + 1) * pow2(d), v2, pow2(d) as int);
        }
    }
}

/// The tree holds a leaf for `v` that was seen at least once.
pub open spec fn has_leaf(t: CodeTree, v: u8) -> bool
    decreases t,
{
    if t.isleaf {
        t.freq != 0 && t.val == v
    } else {
        (match t.zero {
            Some(z) => has_leaf(*z, v),
            None => false,
        }) || (match t.one {
            Some(o) => has_leaf(*o, v),
            None => false,
        })
    }
}

/// One of the trees holds a leaf for `v` that was seen at least once.
pub open spec fn forest_has(s: Seq<CodeTree>, v: u8) -> bool {
    exists|k: int| 0 <= k < s.len() && #[trigger] has_leaf(s[k], v)
}

proof fn lemma_forest_insert(s: Seq<CodeTree>, i: int, x: CodeTree, v: u8)
    requires
        0 <= i <= s.len(),
    ensures
        forest_has(s.insert(i, x), v) == (forest_has(s, v) || has_leaf(x, v)),
{
    let r = s.insert(i, x);
    if forest_has(r, v) {
        let k = choose|k: int| 0 <= k < r.len() && #[trigger] has_leaf(r[k], v);
        if k < i {
            assert(r[k] == s[k]);
        } else if k > i {
            assert(r[k] == s[k - 1]);
        }
    }
    if forest_has(s, v) {
        let k = choose|k: int| 0 <= k < s.len() && #[trigger] has_leaf(s[k], v);
        if k < i {
            assert(r[k] == s[k]);
        } else {
            assert(r[k + 1] == s[k]);
        }
    }
    if has_leaf(x, v) {
        assert(r[i] == x);
    }
}

proof fn lemma_merge_step_has(s: Seq<CodeTree>, v: u8)
    requires
        s.len() >= 2,
    ensures
        forest_has(merge_step(s), v) == forest_has(s, v),
{
    let rest = s.take(s.len() - 2);
    let a = s[s.len() - 1];
    let b = s[s.len() - 2];
    let n = if a.weight > b.weight {
        merge_node(b, a)
    } else {
        merge_node(a, b)
    };
    assert(has_leaf(n, v) == (has_leaf(a, v) || has_leaf(b, v)));
    lemma_insert_index(rest, n.freq);
    lemma_forest_insert(rest, insert_index(rest, n.freq) as int, n, v);
    if forest_has(s, v) {
        let k = choose|k: int| 0 <= k < s.len() && #[trigger] has_leaf(s[k], v);
        if k < s.len() - 2 {
            assert(rest[k] == s[k]);
        }
    }
    if forest_has(rest, v) {
        let k = choose|k: int| 0 <= k < rest.len() && #[trigger] has_leaf(rest[k], v);
        assert(rest[k] == s[k]);
    }
}

proof fn lemma_build_tree_has(s: Seq<CodeTree>, v: u8)
    requires
        s.len() >= 1,
    ensures
        build_tree(s) is Some,
        has_leaf(build_tree(s).unwrap(), v) == forest_has(s, v),
    decreases s.len(),
{
    if s.len() == 1 {
        if has_leaf(s[0], v) {
            assert(forest_has(s, v));
        }
    } else {
        lemma_merge_step_len(s);
        lemma_merge_step_has(s, v);
        lemma_build_tree_has(merge_step(s), v);
    }
}

proof fn lemma_freq_leaves_has(values: Seq<u8>, v: u8)
    requires
        values.len() <= u64::MAX,
    ensures
        forest_has(freq_leaves(values), v) == (count(values, v) > 0),
{
    law_freq_leaves(values);
    let f = freq_leaves(values);
    if forest_has(f, v) {
        let k = choose|k: int| 0 <= k < f.len() && #[trigger] has_leaf(f[k], v);
        if k < f.len() - 1 {
            assert(f[k] == leaf_model(f[k].val, count(values, f[k].val) as u64));
        }
    }
    if count(values, v) > 0 {
        let k = choose|k: int| 0 <= k < f.len() - 1 && f[k].val == v;
        lemma_count_le(values, v);
        assert(f[k] == leaf_model(f[k].val, count(values, f[k].val) as u64));
        assert(has_leaf(f[k], v));
    }
}

/// A leaf for `v` seen at least once lies on some level `r` below the top,
/// and when the tree fits at level `deep`, that level gives a code length
/// from 1 to `top`.
proof fn lemma_has_leaf_level(t: CodeTree, v: u8, deep: int, top: int)
    requires
        has_leaf(t, v),
        depths_fit(t, deep, top),
    ensures
        exists|r: int, j: int|
            1 <= deep + r <= top && 0 <= j < leaves_at(t, r).len() && (#[trigger] leaves_at(t, r)[j]).val
                == v,
    decreases t,
{
    if t.isleaf {
        assert(leaves_at(t, 0)[0] == t);
    } else {
        let lz = |r: int| match t.zero {
            Some(z) => leaves_at(*z, r),
            None => Seq::<CodeTree>::empty(),
        };
        let lo = |r: int| match t.one {
            Some(o) => leaves_at(*o, r),
            None => Seq::<CodeTree>::empty(),
        };
        match t.zero {
            Some(z) => {
                if has_leaf(*z, v) {
                    lemma_has_leaf_level(*z, v, deep + 1, top);
                    let (r, j) = choose|r: int, j: int|
                        1 <= deep + 1 + r <= top && 0 <= j < leaves_at(*z, r).len() && (
                        #[trigger] leaves_at(*z, r)[j]).val == v;
                    assert(leaves_at(t, r + 1) == lz(r) + lo(r));
                    assert(leaves_at(t, r + 1)[j] == leaves_at(*z, r)[j]);
                    return;
                }
            },
            None => {},
        }
        match t.one {
            Some(o) => {
                lemma_has_leaf_level(*o, v, deep + 1, top);
                let (r, j) = choose|r: int, j: int|
                    1 <= deep + 1 + r <= top && 0 <= j < leaves_at(*o, r).len() && (
                    #[trigger] leaves_at(*o, r)[j]).val == v;
                assert(leaves_at(t, r + 1) == lz(r) + lo(r));
                assert(leaves_at(t, r + 1)[lz(r).len() + j] == leaves_at(*o, r)[j]);
            },
            None => {},
        }
    }
}

proof fn lemma_leaves_upto(t: CodeTree, n: nat, d: int, j: int)
    requires
        1 <= d <= n,
        0 <= j < leaves_at(t, d).len(),
    ensures
        forall|k: int| 0 <= k < leaves_upto(t, n).len() ==> (#[trigger] leaves_upto(t, n)[k]).code is Some,
        exists|k: int|
            0 <= k < leaves_upto(t, n).len() && (#[trigger] leaves_upto(t, n)[k]).val == leaves_at(
                t,
                d,
            )[j].val,
    decreases n,
{
    let m = (n - 1) as nat;
    let prev = leaves_upto(t, m);
    let lvl = level_leaves(t, n as int);
    assert(leaves_upto(t, n) == prev + lvl);
    lemma_codes_upto(t, m);
    if d == n {
        assert(leaves_upto(t, n)[prev.len() + j] == lvl[j]);
    } else {
        lemma_leaves_upto(t, m, d, j);
        let k = choose|k: int| 0 <= k < prev.len() && (#[trigger] prev[k]).val == leaves_at(t, d)[j].val;
        assert(leaves_upto(t, n)[k] == prev[k]);
    }
    assert forall|k: int| 0 <= k < leaves_upto(t, n).len() implies (#[trigger] leaves_upto(
        t,
        n,
    )[k]).code is Some by {
        if k >= prev.len() {
            assert(leaves_upto(t, n)[k] == lvl[k - prev.len()]);
        } else {
            assert(leaves_upto(t, n)[k] == prev[k]);
        }
    }
}

proof fn lemma_codes_upto(t: CodeTree, n: nat)
    ensures
        forall|k: int| 0 <= k < leaves_upto(t, n).len() ==> (#[trigger] leaves_upto(t, n)[k]).code is Some,
    decreases n,
{
    if n > 0 {
        let m = (n - 1) as nat;
        lemma_codes_upto(t, m);
        let prev = leaves_upto(t, m);
        let lvl = level_leaves(t, n as int);
        assert forall|k: int| 0 <= k < leaves_upto(t, n).len() implies (#[trigger] leaves_upto(
            t,
            n,
        )[k]).code is Some by {
            if k >= prev.len() {
                assert(leaves_upto(t, n)[k] == lvl[k - prev.len()]);
            } else {
                assert(leaves_upto(t, n)[k] == prev[k]);
            }
        }
    }
}

proof fn lemma_code_of_some(s: Seq<CodeTree>, v: u8, k: int)
    requires
        0 <= k < s.len(),
        s[k].val == v,
        forall|i: int| 0 <= i < s.len() ==> (#[trigger] s[i]).code is Some,
    ensures
        code_of(s, v) is Some,
    decreases s.len(),
{
    if s[0].val != v {
        let t = s.drop_first();
        assert(t[k - 1] == s[k]);
        assert forall|i: int| 0 <= i < t.len() implies (#[trigger] t[i]).code is Some by {
            assert(t[i] == s[i + 1]);
        }
        lemma_code_of_some(t, v, k - 1);
    }
}

/// Every value that occurs gets a code: when the Huffman code of some
/// values can be laid out for JPEG, each of the values has a code among its
/// coded leaves.
pub proof fn law_every_value_coded(values: Seq<u8>, v: u8)
    requires
        values.len() <= u64::MAX,
        huffman_fits(values),
        count(values, v) > 0,
    ensures
        code_of(huffman_leaves(huffman_tree(values)), v) is Some,
{
    let f = freq_leaves(values);
    lemma_freq_leaves_has(values, v);
    crate::huffman::lemma_build_tree_some(f);
    lemma_build_tree_has(f, v);
    let t = huffman_tree(values);
    assert(has_leaf(t, v));
    lemma_has_leaf_level(t, v, 0, 16);
    let (r, j) = choose|r: int, j: int|
        1 <= 0 + r <= 16 && 0 <= j < leaves_at(t, r).len() && (#[trigger] leaves_at(t, r)[j]).val == v;
    lemma_leaves_upto(t, 16, r, j);
    let s = huffman_leaves(t);
    let k = choose|k: int| 0 <= k < s.len() && (#[trigger] s[k]).val == leaves_at(t, r)[j].val;
    lemma_code_of_some(s, v, k);
}

/// The code space the coded leaves of levels `0..=m` take, counted in
/// codes of `m` bits: a leaf on level `e` takes `2^(m - e)` of them.
pub open spec fn level_weight(t: CodeTree, m: nat) -> nat
    decreases m,
{
    if m == 0 {
        leaves_at(t, 0).len()
    } else {
        2 * level_weight(t, (m - 1) as nat) + leaves_at(t, m as int).len()
    }
}

proof fn lemma_leaf_weight(t: CodeTree, m: nat)
    requires
        t.isleaf,
    ensures
        level_weight(t, m) == leaves_at(t, 0).len() * pow2(m),
    decreases m,
{
    let c = leaves_at(t, 0).len();
    if m > 0 {
        let m1 = (m - 1) as nat;
        lemma_leaf_weight(t, m1);
        assert(leaves_at(t, m as int).len() == 0);
        assert(level_weight(t, m) == 2 * level_weight(t, m1) + leaves_at(t, m as int).len());
        assert(pow2(m) == 2 * pow2(m1));
        assert(2 * (c * pow2(m1)) == c * pow2(m)) by (nonlinear_arith)
            requires
                pow2(m) == 2 * pow2(m1),
        ;
    } else {
        assert(pow2(0) == 1);
        assert(level_weight(t, 0) == c);
    }
}

/// The code space of an inner node is that of its two subtrees one level
/// further down.
proof fn lemma_inner_weight(t: CodeTree, m: nat)
    requires
        !t.isleaf,
        m >= 1,
    ensures
        level_weight(t, m) == (match t.zero {
            Some(z) => level_weight(*z, (m - 1) as nat),
            None => 0,
        }) + (match t.one {
            Some(o) => level_weight(*o, (m - 1) as nat),
            None => 0,
        }),
    decreases m,
{
    lemma_leaves_neg(t, -1);
    if let Some(z) = t.zero {
        lemma_leaves_neg(*z, -1);
    }
    if let Some(o) = t.one {
        lemma_leaves_neg(*o, -1);
    }
    assert(leaves_at(t, 0).len() == 0) by {
        assert(leaves_at(t, 0) == (match t.zero {
            Some(z) => leaves_at(*z, -1),
            None => Seq::<CodeTree>::empty(),
        }) + (match t.one {
            Some(o) => leaves_at(*o, -1),
            None => Seq::<CodeTree>::empty(),
        }));
    }
    assert(leaves_at(t, m as int) == (match t.zero {
        Some(z) => leaves_at(*z, m - 1),
        None => Seq::<CodeTree>::empty(),
    }) + (match t.one {
        Some(o) => leaves_at(*o, m - 1),
        None => Seq::<CodeTree>::empty(),
    }));
    let m1 = (m - 1) as nat;
    assert(level_weight(t, m) == 2 * level_weight(t, m1) + leaves_at(t, m as int).len());
    if m > 1 {
        lemma_inner_weight(t, m1);
        let m2 = (m1 - 1) as nat;
        if let Some(z) = t.zero {
            assert(level_weight(*z, m1) == 2 * level_weight(*z, m2) + leaves_at(*z, m1 as int).len());
        }
        if let Some(o) = t.one {
            assert(level_weight(*o, m1) == 2 * level_weight(*o, m2) + leaves_at(*o, m1 as int).len());
        }
    } else {
        assert(level_weight(t, 0) == leaves_at(t, 0).len());
        if let Some(z) = t.zero {
            assert(level_weight(*z, 0) == leaves_at(*z, 0).len());
        }
        if let Some(o) = t.one {
            assert(level_weight(*o, 0) == leaves_at(*o, 0).len());
        }
    }
}

/// Kraft's inequality: the coded leaves of a tree never take more code
/// space than there is.
proof fn lemma_kraft(t: CodeTree, m: nat)
    ensures
        level_weight(t, m) <= pow2(m),
    decreases t,
{
    crate::bitstream::lemma_pow2_pos(m);
    if t.isleaf {
        lemma_leaf_weight(t, m);
        assert(leaves_at(t, 0).len() <= 1);
        assert(leaves_at(t, 0).len() * pow2(m) <= pow2(m)) by (nonlinear_arith)
            requires
                leaves_at(t, 0).len() <= 1,
        ;
    } else if m == 0 {
        lemma_leaves_neg(t, -1);
        if let Some(z) = t.zero {
            lemma_leaves_neg(*z, -1);
        }
        if let Some(o) = t.one {
            lemma_leaves_neg(*o, -1);
        }
        assert(leaves_at(t, 0).len() == 0);
    } else {
        lemma_inner_weight(t, m);
        let m1 = (m - 1) as nat;
        if let Some(z) = t.zero {
            lemma_kraft(*z, m1);
        }
        if let Some(o) = t.one {
            lemma_kraft(*o, m1);
        }
        assert(pow2(m) == 2 * pow2(m1));
    }
}

/// The code space of the code lengths of a tree that fits is the code
/// space of its levels below the top.
proof fn lemma_code_space_weight(t: CodeTree, i: nat)
    requires
        prepare_fits(t, 0, Seq::new(16, |k: int| 0u8), 16),
        i < 16,
    ensures
        code_space(level_counts(t), i) + leaves_at(t, 0).len() * pow2(i + 1) == level_weight(
            t,
            i + 1,
        ),
    decreases i,
{
    lemma_level_count(t, i as int);
    let c = leaves_at(t, 0).len();
    let jd = level_counts(t);
    assert(level_weight(t, i + 1) == 2 * level_weight(t, i) + leaves_at(t, (i + 1) as int).len());
    if i == 0 {
        assert(pow2(1) == 2 * pow2(0));
        assert(pow2(0) == 1);
        assert(c * pow2(1) == 2 * c) by (nonlinear_arith)
            requires
                pow2(1) == 2,
        ;
        assert(level_weight(t, 0) == c);
        assert(code_space(jd, 0) == jd[0] as nat);
    } else {
        assert(code_space(jd, i) == 2 * code_space(jd, (i - 1) as nat) + jd[i as int] as nat);
        lemma_code_space_weight(t, (i - 1) as nat);
        assert(pow2(i + 1) == 2 * pow2(i));
        assert(c * pow2(i + 1) == 2 * (c * pow2(i))) by (nonlinear_arith)
            requires
                pow2(i + 1) == 2 * pow2(i),
        ;
    }
}

/// Kraft's inequality for Huffman codes: the code lengths of a tree that
/// fits leave room for canonical codes of every length.
pub proof fn lemma_tree_codes_fit(t: CodeTree)
    requires
        prepare_fits(t, 0, Seq::new(16, |k: int| 0u8), 16),
    ensures
        codes_fit(level_counts(t)),
{
    let jd = level_counts(t);
    assert forall|k: int| 0 <= k < 16 implies #[trigger] code_space(jd, k as nat) <= pow2(
        (k + 1) as nat,
    ) by {
        lemma_code_space_weight(t, k as nat);
        lemma_kraft(t, (k + 1) as nat);
    }
}

/// The Huffman code of some values is a prefix code: the canonical code of
/// one leaf is never the start of the code of another, whatever the code
/// lengths.
pub proof fn law_huffman_prefix_free(values: Seq<u8>, i1: nat, j1: int, i2: nat, j2: int)
    requires
        huffman_fits(values),
        i1 < 16,
        i2 < 16,
        0 <= j1 < level_counts(huffman_tree(values))[i1 as int],
        0 <= j2 < level_counts(huffman_tree(values))[i2 as int],
        i1 != i2 || j1 != j2,
    ensures
        !canonical_code(level_counts(huffman_tree(values)), i1, j1).is_prefix_of(
            canonical_code(level_counts(huffman_tree(values)), i2, j2),
        ),
{
    lemma_tree_codes_fit(huffman_tree(values));
    law_canonical_prefix_free(level_counts(huffman_tree(values)), i1, j1, i2, j2);
}

/// The tree holds a leaf that was never seen, such as the filler leaf.
pub open spec fn has_unseen_leaf(t: CodeTree) -> bool
    decreases t,
{
    if t.isleaf {
        t.freq == 0
    } else {
        (match t.zero {
            Some(z) => has_unseen_leaf(*z),
            None => false,
        }) || (match t.one {
            Some(o) => has_unseen_leaf(*o),
            None => false,
        })
    }
}

/// One of the trees holds a leaf that was never seen.
pub open spec fn forest_has_unseen(s: Seq<CodeTree>) -> bool {
    exists|k: int| 0 <= k < s.len() && #[trigger] has_unseen_leaf(s[k])
}

proof fn lemma_unseen_insert(s: Seq<CodeTree>, i: int, x: CodeTree)
    requires
        0 <= i <= s.len(),
    ensures
        forest_has_unseen(s.insert(i, x)) == (forest_has_unseen(s) || has_unseen_leaf(x)),
{
    let r = s.insert(i, x);
    if forest_has_unseen(r) {
        let k = choose|k: int| 0 <= k < r.len() && #[trigger] has_unseen_leaf(r[k]);
        if k < i {
            assert(r[k] == s[k]);
        } else if k > i {
            assert(r[k] == s[k - 1]);
        }
    }
    if forest_has_unseen(s) {
        let k = choose|k: int| 0 <= k < s.len() && #[trigger] has_unseen_leaf(s[k]);
        if k < i {
            assert(r[k] == s[k]);
        } else {
            assert(r[k + 1] == s[k]);
        }
    }
    if has_unseen_leaf(x) {
        assert(r[i] == x);
    }
}

proof fn lemma_build_tree_unseen(s: Seq<CodeTree>)
    requires
        s.len() >= 1,
        forest_has_unseen(s),
    ensures
        build_tree(s) is Some,
        has_unseen_leaf(build_tree(s).unwrap()),
    decreases s.len(),
{
    if s.len() == 1 {
        let k = choose|k: int| 0 <= k < s.len() && #[trigger] has_unseen_leaf(s[k]);
        assert(k == 0);
    } else {
        lemma_merge_step_len(s);
        let rest = s.take(s.len() - 2);
        let a = s[s.len() - 1];
        let b = s[s.len() - 2];
        let n = if a.weight > b.weight {
            merge_node(b, a)
        } else {
            merge_node(a, b)
        };
        assert(has_unseen_leaf(n) == (has_unseen_leaf(a) || has_unseen_leaf(b)));
        lemma_insert_index(rest, n.freq);
        lemma_unseen_insert(rest, insert_index(rest, n.freq) as int, n);
        let k = choose|k: int| 0 <= k < s.len() && #[trigger] has_unseen_leaf(s[k]);
        if k < s.len() - 2 {
            assert(rest[k] == s[k]);
        }
        lemma_build_tree_unseen(merge_step(s));
    }
}

/// A tree with a leaf that was never seen leaves part of the code space of
/// every level unused.
proof fn lemma_kraft_strict(t: CodeTree, m: nat)
    requires
        has_unseen_leaf(t),
    ensures
        level_weight(t, m) < pow2(m),
    decreases t,
{
    crate::bitstream::lemma_pow2_pos(m);
    if t.isleaf {
        lemma_leaf_weight(t, m);
        assert(leaves_at(t, 0).len() == 0);
        assert(0 * pow2(m) == 0);
    } else if m == 0 {
        lemma_leaves_neg(t, -1);
        if let Some(z) = t.zero {
            lemma_leaves_neg(*z, -1);
        }
        if let Some(o) = t.one {
            lemma_leaves_neg(*o, -1);
        }
        assert(leaves_at(t, 0).len() == 0);
    } else {
        lemma_inner_weight(t, m);
        let m1 = (m - 1) as nat;
        assert(pow2(m) == 2 * pow2(m1));
        if let Some(z) = t.zero {
            if has_unseen_leaf(*z) {
                lemma_kraft_strict(*z, m1);
            } else {
                lemma_kraft(*z, m1);
            }
        }
        if let Some(o) = t.one {
            if has_unseen_leaf(*o) {
                lemma_kraft_strict(*o, m1);
            } else {
                lemma_kraft(*o, m1);
            }
        }
    }
}

proof fn lemma_ones_value(n: nat)
    ensures
        bits_value(Seq::new(n, |k: int| true)) == pow2(n) - 1,
    decreases n,
{
    if n > 0 {
        let s = Seq::new(n, |k: int| true);
        assert(s.drop_last() =~= Seq::new((n - 1) as nat, |k: int| true));
        lemma_ones_value((n - 1) as nat);
    } else {
        assert(pow2(0) == 1);
    }
}

/// No Huffman code is all ones: the leaf that is never seen keeps the
/// all-ones code of every length free, as JPEG requires.
pub proof fn law_huffman_no_all_ones(values: Seq<u8>, i: nat, j: int)
    requires
        huffman_fits(values),
        i < 16,
        0 <= j < level_counts(huffman_tree(values))[i as int],
    ensures
        canonical_code(level_counts(huffman_tree(values)), i, j) != Seq::new(i + 1, |k: int| true),
{
    let t = huffman_tree(values);
    let jd = level_counts(t);
    let f = freq_leaves(values);
    law_freq_leaves(values);
    assert(has_unseen_leaf(f[f.len() - 1]));
    lemma_build_tree_unseen(f);
    lemma_code_space_weight(t, i);
    lemma_kraft_strict(t, i + 1);
    crate::bitstream::lemma_pow2_pos(i + 1);
    assert(leaves_at(t, 0).len() * pow2(i + 1) >= 0) by (nonlinear_arith)
        requires
            pow2(i + 1) >= 1,
    ;
    assert(code_space(jd, i) < pow2(i + 1));
    lemma_base_step(jd, i);
    let v = (base_code(jd, i) + j) as nat;
    assert(v + 1 < pow2(i + 1));
    lemma_low_bits_value(v, i + 1);
    if canonical_code(jd, i, j) == Seq::new(i + 1, |k: int| true) {
        lemma_ones_value(i + 1);
    }
}

} // verus!
